//! The training objective: reconstruction, dynamics and repulsion.

use crate::expr::{
    apply, constant, make_apply, make_combine, make_constant, make_scale, make_shift, minus, over,
    plus, scale, shift, times, Binary, Decimal, Expr, Unary,
};
use crate::network::{
    decoder_formula, encoder_formula, rotated_rows, theta_formula, CollatzHackerModel,
};
use std::rc::Rc;
use vstd::prelude::*;

verus! {

/// `-|l|`, entry by entry: what the loss exponentiates.
pub open spec fn decay_exponent(logits: Expr) -> Expr {
    scale(apply(Unary::Abs, logits), -1, 0)
}

/// `exp(-|l|) + 1`, entry by entry: what the loss takes the logarithm of.
pub open spec fn log_argument(logits: Expr) -> Expr {
    shift(apply(Unary::Exp, decay_exponent(logits)), 1, 0)
}

/// `max(l, 0) - l * t + ln(1 + exp(-|l|))`, entry by entry: the cross entropy in a form that
/// never exponentiates a positive number.
pub open spec fn stable_entropy(logits: Expr, targets: Expr) -> Expr {
    plus(
        minus(apply(Unary::Relu, logits), times(logits, targets)),
        apply(Unary::Log, log_argument(logits)),
    )
}

/// The mean of the cross entropy.
pub open spec fn entropy_formula(logits: Expr, targets: Expr) -> Expr {
    Expr::MeanAll(Rc::new(stable_entropy(logits, targets)))
}

/// The mean of the squared differences.
pub open spec fn mse_formula(pred: Expr, target: Expr) -> Expr {
    Expr::MeanAll(Rc::new(apply(Unary::Sqr, minus(pred, target))))
}

/// The matrix of all inner products of rows.
pub open spec fn gram(z: Expr) -> Expr {
    Expr::MatMul(Rc::new(z), Rc::new(Expr::Transpose(Rc::new(z))))
}

/// The squares of all inner products less the batch size, over the number of ordered pairs; zero
/// where there is no pair.
pub open spec fn repulsion_formula(z: Expr, batch_size: nat) -> Expr {
    if batch_size <= 1 {
        constant(0, 0)
    } else {
        over(
            minus(
                Expr::SumAll(Rc::new(apply(Unary::Sqr, gram(z)))),
                Expr::Count(batch_size as usize),
            ),
            Expr::Count((batch_size * (batch_size - 1)) as usize),
        )
    }
}

/// The mean of the two reconstruction losses of a batch of transitions.
pub open spec fn reconstruction_formula(
    model: CollatzHackerModel,
    x_t: Expr,
    x_next: Expr,
) -> Expr {
    let recon_t = decoder_formula(model.decoder, encoder_formula(model.encoder, x_t));
    let recon_next = decoder_formula(model.decoder, encoder_formula(model.encoder, x_next));
    scale(plus(entropy_formula(recon_t, x_t), entropy_formula(recon_next, x_next)), 5, 1)
}

/// How far the turn of the first end misses the second end.
pub open spec fn dynamic_formula(model: CollatzHackerModel, x_t: Expr, x_next: Expr) -> Expr {
    mse_formula(
        rotated_rows(encoder_formula(model.encoder, x_t), theta_formula()),
        encoder_formula(model.encoder, x_next),
    )
}

/// Reconstruction plus `alpha` times dynamics plus `beta` times repulsion.
pub open spec fn weighted_sum(
    recon: Expr,
    dynamic: Expr,
    repulsion: Expr,
    alpha: Decimal,
    beta: Decimal,
) -> Expr {
    plus(plus(recon, times(dynamic, Expr::Const(alpha))), times(repulsion, Expr::Const(beta)))
}

/// The mean binary cross entropy of digit logits against digits.
pub fn binary_cross_entropy_with_logits(logits: &Rc<Expr>, targets: &Rc<Expr>) -> (loss: Rc<Expr>)
    ensures
        *loss == entropy_formula(**logits, **targets),
{
    let max_val = make_apply(Unary::Relu, logits);
    let logits_targets = make_combine(Binary::Mul, logits, targets);
    let abs_logits = make_apply(Unary::Abs, logits);
    let neg_abs_logits = make_scale(&abs_logits, -1, 0);
    let exp_neg_abs = make_apply(Unary::Exp, &neg_abs_logits);
    let log_1_exp = make_apply(Unary::Log, &make_shift(&exp_neg_abs, 1, 0));
    let linear_part = make_combine(Binary::Sub, &max_val, &logits_targets);
    let entropy = make_combine(Binary::Add, &linear_part, &log_1_exp);
    Rc::new(Expr::MeanAll(entropy))
}

/// The mean squared difference.
pub fn mse_loss(pred: &Rc<Expr>, target: &Rc<Expr>) -> (loss: Rc<Expr>)
    ensures
        *loss == mse_formula(**pred, **target),
{
    let diff = make_combine(Binary::Sub, pred, target);
    Rc::new(Expr::MeanAll(make_apply(Unary::Sqr, &diff)))
}

/// The penalty on latent points that cluster, for a batch of `batch_size` rows.
pub fn repulsion_loss(z: &Rc<Expr>, batch_size: usize) -> (loss: Rc<Expr>)
    requires
        batch_size * (batch_size - 1) <= usize::MAX,
    ensures
        *loss == repulsion_formula(**z, batch_size as nat),
{
    if batch_size <= 1 {
        return make_constant(0, 0);
    }
    let gram = Rc::new(Expr::MatMul(z.clone(), Rc::new(Expr::Transpose(z.clone()))));
    let sum_squares = Rc::new(Expr::SumAll(make_apply(Unary::Sqr, &gram)));
    let diagonal = Rc::new(Expr::Count(batch_size));
    let off_diag_sum = make_combine(Binary::Sub, &sum_squares, &diagonal);
    let num_elements = Rc::new(Expr::Count(batch_size * (batch_size - 1)));
    make_combine(Binary::Div, &off_diag_sum, &num_elements)
}

/// The total loss of a batch of `batch_size` transitions, and its three parts: reconstruction,
/// dynamics and repulsion.
pub fn compute_loss(
    model: &CollatzHackerModel,
    x_t: &Rc<Expr>,
    x_next: &Rc<Expr>,
    batch_size: usize,
    alpha: Decimal,
    beta: Decimal,
) -> (out: (Rc<Expr>, Rc<Expr>, Rc<Expr>, Rc<Expr>))
    requires
        batch_size * (batch_size - 1) <= usize::MAX,
    ensures
        *out.1 == reconstruction_formula(*model, **x_t, **x_next),
        *out.2 == dynamic_formula(*model, **x_t, **x_next),
        *out.3 == repulsion_formula(encoder_formula(model.encoder, **x_t), batch_size as nat),
        *out.0 == weighted_sum(*out.1, *out.2, *out.3, alpha, beta),
{
    let (x_t_recon, x_next_recon, z_t_pred, z_next, z_t) = model.forward(x_t, x_next);
    let recon_loss_t = binary_cross_entropy_with_logits(&x_t_recon, x_t);
    let recon_loss_next = binary_cross_entropy_with_logits(&x_next_recon, x_next);
    let recon_both = make_combine(Binary::Add, &recon_loss_t, &recon_loss_next);
    let recon_loss = make_scale(&recon_both, 5, 1);
    let dynamic_loss = mse_loss(&z_t_pred, &z_next);
    let rep_loss = repulsion_loss(&z_t, batch_size);
    let weighted_dynamic = make_combine(Binary::Mul, &dynamic_loss, &Rc::new(Expr::Const(alpha)));
    let weighted_rep = make_combine(Binary::Mul, &rep_loss, &Rc::new(Expr::Const(beta)));
    let first_two = make_combine(Binary::Add, &recon_loss, &weighted_dynamic);
    let total_loss = make_combine(Binary::Add, &first_two, &weighted_rep);
    (total_loss, recon_loss, dynamic_loss, rep_loss)
}

} // verus!
