//! The shapes of formulas: which ones fit together, and what comes out.

use crate::expr::{
    apply, broadcast, minus, plus, scale, shift, times, Angle, Binary, Decimal, Expr, Linear, Unary,
};
use crate::loss::{
    dynamic_formula, entropy_formula, gram, mse_formula, reconstruction_formula, repulsion_formula,
    stable_entropy, weighted_sum,
};
use crate::network::{
    column, decoder_formula, decoder_layers, effective_formula, encoder_formula, encoder_layers,
    rotated_rows, sigmoid, stacked, theta_formula, CollatzHackerModel,
};
use crate::semantics::{extent, value, World};
use std::rc::Rc;
use vstd::prelude::*;

verus! {

/// The lengths of the axes of a tensor; none for a scalar.
pub type Shape = Seq<nat>;

/// The shape of two tensors combined after broadcasting: axes are matched from the last one, and
/// an axis of length one or a missing axis is repeated.
pub open spec fn broadcast_shape(a: Shape, b: Shape) -> Option<Shape>
    decreases a.len(),
{
    if a.len() == 0 {
        Some(b)
    } else if b.len() == 0 {
        Some(a)
    } else {
        match broadcast_shape(a.drop_last(), b.drop_last()) {
            Some(front) => if a.last() == b.last() || b.last() == 1 {
                Some(front.push(a.last()))
            } else if a.last() == 1 {
                Some(front.push(b.last()))
            } else {
                None
            },
            None => None,
        }
    }
}

/// The number of entries of a tensor.
pub open spec fn entry_count(s: Shape) -> nat
    decreases s.len(),
{
    if s.len() == 0 {
        1
    } else {
        entry_count(s.drop_last()) * s.last()
    }
}

/// The shape of a formula for inputs of the given shapes; `None` where its parts do not fit.
pub open spec fn shape_of(e: Expr, inputs: spec_fn(usize) -> Shape) -> Option<Shape>
    decreases e,
{
    match e {
        Expr::Input(slot) => Some(inputs(slot)),
        Expr::Phi => Some(seq![1nat]),
        Expr::Const(_) | Expr::Count(_) | Expr::Radians(_) => Some(seq![]),
        Expr::Weight(l) => Some(seq![l.outputs as nat, l.inputs as nat]),
        Expr::Layer(l, arg) => match shape_of(*arg, inputs) {
            Some(s) => if s.len() == 2 && s[1] == l.inputs {
                Some(seq![s[0], l.outputs as nat])
            } else {
                None
            },
            None => None,
        },
        Expr::Apply(_, arg) => shape_of(*arg, inputs),
        Expr::Scale(arg, _) => shape_of(*arg, inputs),
        Expr::Shift(arg, _) => shape_of(*arg, inputs),
        Expr::Combine(_, a, b) => if shape_of(*a, inputs) == shape_of(*b, inputs) {
            shape_of(*a, inputs)
        } else {
            None
        },
        Expr::Broadcast(_, a, b) => match (shape_of(*a, inputs), shape_of(*b, inputs)) {
            (Some(s), Some(t)) => broadcast_shape(s, t),
            _ => None,
        },
        Expr::MatMul(a, b) => match (shape_of(*a, inputs), shape_of(*b, inputs)) {
            (Some(s), Some(t)) => if s.len() == 2 && t.len() == 2 && s[1] == t[0] {
                Some(seq![s[0], t[1]])
            } else {
                None
            },
            _ => None,
        },
        Expr::Transpose(arg) => match shape_of(*arg, inputs) {
            Some(s) => if s.len() == 2 {
                Some(seq![s[1], s[0]])
            } else {
                None
            },
            None => None,
        },
        Expr::Columns { arg, start, len } => match shape_of(*arg, inputs) {
            Some(s) => if s.len() == 2 && start + len <= s[1] {
                Some(seq![s[0], len as nat])
            } else {
                None
            },
            None => None,
        },
        Expr::Beside(a, b) => match (shape_of(*a, inputs), shape_of(*b, inputs)) {
            (Some(s), Some(t)) => if s.len() == 2 && t.len() == 2 && s[0] == t[0] {
                Some(seq![s[0], s[1] + t[1]])
            } else {
                None
            },
            _ => None,
        },
        Expr::RowSums(arg) => match shape_of(*arg, inputs) {
            Some(s) => if s.len() == 2 {
                Some(seq![s[0], 1nat])
            } else {
                None
            },
            None => None,
        },
        Expr::SumAll(arg) | Expr::MeanAll(arg) => match shape_of(*arg, inputs) {
            Some(_) => Some(seq![]),
            None => None,
        },
        Expr::ToScalar(arg) => match shape_of(*arg, inputs) {
            Some(s) => if entry_count(s) == 1 {
                Some(seq![])
            } else {
                None
            },
            None => None,
        },
    }
}

/// A matrix of the given size.
pub open spec fn matrix(rows: nat, cols: nat) -> Option<Shape> {
    Some(seq![rows, cols])
}

/// No axes at all.
pub open spec fn no_axes() -> Option<Shape> {
    Some(seq![])
}

/// Broadcasting a matrix with a column of as many rows, or with a scalar, keeps its shape.
proof fn lemma_broadcast_shapes(rows: nat, cols: nat)
    ensures
        broadcast_shape(seq![rows, cols], seq![rows, 1nat]) == matrix(rows, cols),
        broadcast_shape(seq![rows, cols], seq![]) == matrix(rows, cols),
        broadcast_shape(seq![], seq![]) == no_axes(),
{
    reveal_with_fuel(broadcast_shape, 3);
    assert(seq![rows, cols].drop_last() =~= seq![rows]);
    assert(seq![rows, 1nat].drop_last() =~= seq![rows]);
    assert(seq![rows].drop_last() =~= seq![]);
    assert(Seq::<nat>::empty().push(rows) =~= seq![rows]);
    assert(seq![rows].push(cols) =~= seq![rows, cols]);
}

/// Three layers whose widths match take `rows` rows of the first width to `rows` rows of the last.
proof fn lemma_stacked_shape(
    l1: Linear,
    l2: Linear,
    l3: Linear,
    x: Expr,
    inputs: spec_fn(usize) -> Shape,
    rows: nat,
)
    requires
        shape_of(x, inputs) == matrix(rows, l1.inputs as nat),
        l1.outputs == l2.inputs,
        l2.outputs == l3.inputs,
    ensures
        shape_of(stacked(l1, l2, l3, x), inputs) == matrix(rows, l3.outputs as nat),
{
    let y1 = Expr::Layer(l1, Rc::new(x));
    let h1 = apply(Unary::Relu, y1);
    let y2 = Expr::Layer(l2, Rc::new(h1));
    let h2 = apply(Unary::Relu, y2);
    assert(shape_of(y1, inputs) == matrix(rows, l1.outputs as nat));
    assert(shape_of(h1, inputs) == matrix(rows, l1.outputs as nat));
    assert(shape_of(y2, inputs) == matrix(rows, l2.outputs as nat));
    assert(shape_of(h2, inputs) == matrix(rows, l2.outputs as nat));
}

/// The encoder takes rows of 64 digits to rows of two coordinates.
pub proof fn lemma_encoder_shape(x: Expr, inputs: spec_fn(usize) -> Shape, rows: nat)
    requires
        shape_of(x, inputs) == matrix(rows, 64),
    ensures
        shape_of(encoder_formula(encoder_layers(), x), inputs) == matrix(rows, 2),
{
    let e = encoder_layers();
    let h = stacked(e.linear1, e.linear2, e.linear3, x);
    lemma_stacked_shape(e.linear1, e.linear2, e.linear3, x, inputs, rows);
    let squared = apply(Unary::Sqr, h);
    let sums = Expr::RowSums(Rc::new(squared));
    let norm = apply(Unary::Sqrt, sums);
    assert(shape_of(h, inputs) == matrix(rows, 2));
    assert(shape_of(squared, inputs) == matrix(rows, 2));
    assert(shape_of(sums, inputs) == matrix(rows, 1));
    assert(shape_of(norm, inputs) == matrix(rows, 1));
    assert(shape_of(shift(norm, 1, 8), inputs) == matrix(rows, 1));
    lemma_broadcast_shapes(rows, 2);
}

/// The decoder takes rows of two coordinates to rows of 64 logits.
pub proof fn lemma_decoder_shape(z: Expr, inputs: spec_fn(usize) -> Shape, rows: nat)
    requires
        shape_of(z, inputs) == matrix(rows, 2),
    ensures
        shape_of(decoder_formula(decoder_layers(), z), inputs) == matrix(rows, 64),
{
    let d = decoder_layers();
    lemma_stacked_shape(d.linear1, d.linear2, d.linear3, z, inputs, rows);
}

/// The angle is a scalar.
pub proof fn lemma_theta_shape(inputs: spec_fn(usize) -> Shape)
    ensures
        shape_of(theta_formula(), inputs) == no_axes(),
{
    let phi = Expr::ToScalar(Rc::new(Expr::Phi));
    let grown = apply(Unary::Exp, scale(phi, -1, 0));
    let lowest = Expr::Radians(Angle { tenths: 150 });
    let highest = Expr::Radians(Angle { tenths: 3450 });
    let range = minus(highest, lowest);
    reveal_with_fuel(entry_count, 2);
    assert(seq![1nat].drop_last() =~= seq![]);
    assert(shape_of(Expr::Phi, inputs) == Some(seq![1nat]));
    assert(shape_of(phi, inputs) == no_axes());
    assert(shape_of(scale(phi, -1, 0), inputs) == no_axes());
    assert(shape_of(grown, inputs) == no_axes());
    assert(shape_of(shift(grown, 1, 0), inputs) == no_axes());
    assert(shape_of(sigmoid(phi), inputs) == no_axes());
    assert(shape_of(lowest, inputs) == no_axes());
    assert(shape_of(highest, inputs) == no_axes());
    assert(shape_of(range, inputs) == no_axes());
    lemma_broadcast_shapes(0, 0);
    assert(shape_of(broadcast(Binary::Mul, sigmoid(phi), range), inputs) == no_axes());
}

/// A turned batch of points is a batch of as many points.
pub proof fn lemma_rotated_shape(z: Expr, inputs: spec_fn(usize) -> Shape, rows: nat)
    requires
        shape_of(z, inputs) == matrix(rows, 2),
    ensures
        shape_of(rotated_rows(z, theta_formula()), inputs) == matrix(rows, 2),
{
    let theta = theta_formula();
    let x = column(z, 0);
    let y = column(z, 1);
    let cos_t = apply(Unary::Cos, theta);
    let sin_t = apply(Unary::Sin, theta);
    lemma_theta_shape(inputs);
    lemma_broadcast_shapes(rows, 1);
    assert(shape_of(cos_t, inputs) == no_axes());
    assert(shape_of(sin_t, inputs) == no_axes());
    assert(shape_of(x, inputs) == matrix(rows, 1));
    assert(shape_of(y, inputs) == matrix(rows, 1));
    let x_cos = broadcast(Binary::Mul, x, cos_t);
    let y_sin = broadcast(Binary::Mul, y, sin_t);
    let x_sin = broadcast(Binary::Mul, x, sin_t);
    let y_cos = broadcast(Binary::Mul, y, cos_t);
    assert(shape_of(x_cos, inputs) == matrix(rows, 1));
    assert(shape_of(y_sin, inputs) == matrix(rows, 1));
    assert(shape_of(x_sin, inputs) == matrix(rows, 1));
    assert(shape_of(y_cos, inputs) == matrix(rows, 1));
    assert(shape_of(scale(x_sin, -1, 0), inputs) == matrix(rows, 1));
    assert(shape_of(plus(x_cos, y_sin), inputs) == matrix(rows, 1));
    assert(shape_of(plus(scale(x_sin, -1, 0), y_cos), inputs) == matrix(rows, 1));
}

/// The effective weights are two rows of 64 columns: one row for each coordinate, one column for
/// each digit.
pub proof fn lemma_effective_shape(inputs: spec_fn(usize) -> Shape)
    ensures
        shape_of(effective_formula(encoder_layers()), inputs) == matrix(2, 64),
{
    let e = encoder_layers();
    let w1 = Expr::Weight(e.linear1);
    let w2 = Expr::Weight(e.linear2);
    let w3 = Expr::Weight(e.linear3);
    assert(shape_of(w1, inputs) == matrix(128, 64));
    assert(shape_of(w2, inputs) == matrix(128, 128));
    assert(shape_of(w3, inputs) == matrix(2, 128));
    assert(shape_of(Expr::MatMul(Rc::new(w3), Rc::new(w2)), inputs) == matrix(2, 128));
}

/// Two tensors of one shape have a scalar cross entropy and a scalar mean squared difference.
pub proof fn lemma_pairwise_loss_shape(
    a: Expr,
    b: Expr,
    inputs: spec_fn(usize) -> Shape,
    s: Shape,
)
    requires
        shape_of(a, inputs) == Some(s),
        shape_of(b, inputs) == Some(s),
    ensures
        shape_of(entropy_formula(a, b), inputs) == no_axes(),
        shape_of(mse_formula(a, b), inputs) == no_axes(),
{
    let magnitude = scale(apply(Unary::Abs, a), -1, 0);
    let decayed = apply(Unary::Exp, magnitude);
    let logarithm = apply(Unary::Log, shift(decayed, 1, 0));
    let linear = minus(apply(Unary::Relu, a), times(a, b));
    assert(shape_of(apply(Unary::Abs, a), inputs) == Some(s));
    assert(shape_of(magnitude, inputs) == Some(s));
    assert(shape_of(decayed, inputs) == Some(s));
    assert(shape_of(shift(decayed, 1, 0), inputs) == Some(s));
    assert(shape_of(logarithm, inputs) == Some(s));
    assert(shape_of(apply(Unary::Relu, a), inputs) == Some(s));
    assert(shape_of(times(a, b), inputs) == Some(s));
    assert(shape_of(linear, inputs) == Some(s));
    assert(shape_of(stable_entropy(a, b), inputs) == Some(s));
    assert(shape_of(minus(a, b), inputs) == Some(s));
    assert(shape_of(apply(Unary::Sqr, minus(a, b)), inputs) == Some(s));
}

/// The inner products of `rows` rows form a square matrix, and the repulsion loss is a scalar.
pub proof fn lemma_repulsion_shape(z: Expr, inputs: spec_fn(usize) -> Shape, rows: nat, cols: nat)
    requires
        shape_of(z, inputs) == matrix(rows, cols),
    ensures
        shape_of(gram(z), inputs) == matrix(rows, rows),
        shape_of(repulsion_formula(z, rows), inputs) == no_axes(),
{
    let flipped = Expr::Transpose(Rc::new(z));
    assert(shape_of(flipped, inputs) == matrix(cols, rows));
    assert(shape_of(gram(z), inputs) == matrix(rows, rows));
    if rows > 1 {
        let squares = apply(Unary::Sqr, gram(z));
        let summed = Expr::SumAll(Rc::new(squares));
        let count = Expr::Count(rows as usize);
        let pairs = Expr::Count((rows * (rows - 1)) as usize);
        assert(shape_of(squares, inputs) == matrix(rows, rows));
        assert(shape_of(summed, inputs) == no_axes());
        assert(shape_of(count, inputs) == no_axes());
        assert(shape_of(pairs, inputs) == no_axes());
        assert(shape_of(minus(summed, count), inputs) == no_axes());
    }
}

/// For a batch of transitions between words of 64 digits every part of the loss, and their
/// weighted sum, is a scalar: the whole training objective fits together.
pub proof fn lemma_loss_shape(
    model: CollatzHackerModel,
    x_t: Expr,
    x_next: Expr,
    alpha: Decimal,
    beta: Decimal,
    inputs: spec_fn(usize) -> Shape,
    rows: nat,
)
    requires
        model.encoder == encoder_layers(),
        model.decoder == decoder_layers(),
        shape_of(x_t, inputs) == matrix(rows, 64),
        shape_of(x_next, inputs) == matrix(rows, 64),
    ensures
        ({
            let recon = reconstruction_formula(model, x_t, x_next);
            let dynamic = dynamic_formula(model, x_t, x_next);
            let repulsion = repulsion_formula(encoder_formula(model.encoder, x_t), rows);
            &&& shape_of(recon, inputs) == no_axes()
            &&& shape_of(dynamic, inputs) == no_axes()
            &&& shape_of(repulsion, inputs) == no_axes()
            &&& shape_of(weighted_sum(recon, dynamic, repulsion, alpha, beta), inputs)
                == no_axes()
        }),
{
    let z_t = encoder_formula(model.encoder, x_t);
    let z_next = encoder_formula(model.encoder, x_next);
    lemma_encoder_shape(x_t, inputs, rows);
    lemma_encoder_shape(x_next, inputs, rows);
    lemma_decoder_shape(z_t, inputs, rows);
    lemma_decoder_shape(z_next, inputs, rows);
    lemma_rotated_shape(z_t, inputs, rows);
    let recon_t = entropy_formula(decoder_formula(model.decoder, z_t), x_t);
    let recon_next = entropy_formula(decoder_formula(model.decoder, z_next), x_next);
    lemma_pairwise_loss_shape(decoder_formula(model.decoder, z_t), x_t, inputs, seq![rows, 64nat]);
    lemma_pairwise_loss_shape(
        decoder_formula(model.decoder, z_next),
        x_next,
        inputs,
        seq![rows, 64nat],
    );
    lemma_pairwise_loss_shape(
        rotated_rows(z_t, theta_formula()),
        z_next,
        inputs,
        seq![rows, 2nat],
    );
    lemma_repulsion_shape(z_t, inputs, rows, 2);
    assert(shape_of(plus(recon_t, recon_next), inputs) == no_axes());
    let recon = reconstruction_formula(model, x_t, x_next);
    let dynamic = dynamic_formula(model, x_t, x_next);
    let repulsion = repulsion_formula(z_t, rows);
    assert(shape_of(recon, inputs) == no_axes());
    assert(shape_of(Expr::Const(alpha), inputs) == no_axes());
    assert(shape_of(Expr::Const(beta), inputs) == no_axes());
    assert(shape_of(times(dynamic, Expr::Const(alpha)), inputs) == no_axes());
    assert(shape_of(times(repulsion, Expr::Const(beta)), inputs) == no_axes());
    assert(shape_of(plus(recon, times(dynamic, Expr::Const(alpha))), inputs) == no_axes());
}

/// Batches of different sizes have no loss: the prediction and what it is compared with do not fit
/// together.
pub proof fn lemma_uneven_batches(
    model: CollatzHackerModel,
    x_t: Expr,
    x_next: Expr,
    repulsion: Expr,
    alpha: Decimal,
    beta: Decimal,
    inputs: spec_fn(usize) -> Shape,
    rows_t: nat,
    rows_next: nat,
)
    requires
        model.encoder == encoder_layers(),
        model.decoder == decoder_layers(),
        shape_of(x_t, inputs) == matrix(rows_t, 64),
        shape_of(x_next, inputs) == matrix(rows_next, 64),
        rows_t != rows_next,
    ensures
        ({
            let recon = reconstruction_formula(model, x_t, x_next);
            let dynamic = dynamic_formula(model, x_t, x_next);
            &&& shape_of(dynamic, inputs) is None
            &&& shape_of(weighted_sum(recon, dynamic, repulsion, alpha, beta), inputs) is None
        }),
{
    let z_t = encoder_formula(model.encoder, x_t);
    let z_next = encoder_formula(model.encoder, x_next);
    lemma_encoder_shape(x_t, inputs, rows_t);
    lemma_encoder_shape(x_next, inputs, rows_next);
    lemma_rotated_shape(z_t, inputs, rows_t);
    let predicted = rotated_rows(z_t, theta_formula());
    let difference = minus(predicted, z_next);
    let dynamic = dynamic_formula(model, x_t, x_next);
    assert(seq![rows_t, 2nat][0] != seq![rows_next, 2nat][0]);
    assert(shape_of(difference, inputs) is None);
    assert(shape_of(apply(Unary::Sqr, difference), inputs) is None);
    assert(shape_of(dynamic, inputs) is None);
    let recon = reconstruction_formula(model, x_t, x_next);
    let weighed = times(dynamic, Expr::Const(alpha));
    assert(shape_of(Expr::Const(alpha), inputs) == no_axes());
    assert(shape_of(weighed, inputs) is None);
    assert(shape_of(plus(recon, weighed), inputs) is None);
}

/// Rows that do not have 64 columns have no latent points.
pub proof fn lemma_wrong_width(x: Expr, inputs: spec_fn(usize) -> Shape, rows: nat, cols: nat)
    requires
        shape_of(x, inputs) == matrix(rows, cols),
        cols != 64,
    ensures
        shape_of(encoder_formula(encoder_layers(), x), inputs) is None,
{
    let e = encoder_layers();
    let y1 = Expr::Layer(e.linear1, Rc::new(x));
    let h1 = apply(Unary::Relu, y1);
    let y2 = Expr::Layer(e.linear2, Rc::new(h1));
    let h2 = apply(Unary::Relu, y2);
    let h = Expr::Layer(e.linear3, Rc::new(h2));
    assert(seq![rows, cols][1] == cols);
    assert(shape_of(y1, inputs) is None);
    assert(shape_of(h1, inputs) is None);
    assert(shape_of(y2, inputs) is None);
    assert(shape_of(h2, inputs) is None);
    assert(shape_of(h, inputs) is None);
}

/// The number of rows of the grid that a tensor of the given shape is written as.
pub open spec fn grid_rows(s: Shape) -> nat {
    if s.len() == 2 {
        s[0]
    } else {
        1
    }
}

/// The number of columns of the grid that a tensor of the given shape is written as.
pub open spec fn grid_cols(s: Shape) -> nat {
    if s.len() == 0 {
        1
    } else {
        s.last()
    }
}

/// Whether the inputs of a world have the given shapes, none with more than two axes.
pub open spec fn inputs_fit(w: World, inputs: spec_fn(usize) -> Shape) -> bool {
    forall|slot: usize|
        (#[trigger] inputs(slot)).len() <= 2 && (w.inputs)(slot).rows == grid_rows(inputs(slot))
            && (w.inputs)(slot).cols == grid_cols(inputs(slot))
}

/// Broadcasting two shapes agrees with broadcasting their grids.
proof fn lemma_broadcast_grid(a: Shape, b: Shape)
    requires
        a.len() <= 2,
        b.len() <= 2,
        broadcast_shape(a, b) is Some,
    ensures
        broadcast_shape(a, b)->0.len() <= 2,
        grid_rows(broadcast_shape(a, b)->0) == extent(grid_rows(a), grid_rows(b)),
        grid_cols(broadcast_shape(a, b)->0) == extent(grid_cols(a), grid_cols(b)),
{
    reveal_with_fuel(broadcast_shape, 3);
}

/// A formula whose parts fit has, in exact arithmetic, a value of the size that its shape says.
pub proof fn lemma_value_has_shape(e: &Expr, w: World, inputs: spec_fn(usize) -> Shape)
    requires
        inputs_fit(w, inputs),
        shape_of(*e, inputs) is Some,
    ensures
        shape_of(*e, inputs)->0.len() <= 2,
        value(*e, w).rows == grid_rows(shape_of(*e, inputs)->0),
        value(*e, w).cols == grid_cols(shape_of(*e, inputs)->0),
    decreases e,
{
    match e {
        Expr::Input(slot) => {
            assert(inputs(*slot).len() <= 2);
        },
        Expr::Phi | Expr::Const(_) | Expr::Count(_) | Expr::Radians(_) | Expr::Weight(_) => {},
        Expr::Layer(_, arg)
        | Expr::Apply(_, arg)
        | Expr::Scale(arg, _)
        | Expr::Shift(arg, _)
        | Expr::Transpose(arg)
        | Expr::RowSums(arg)
        | Expr::SumAll(arg)
        | Expr::MeanAll(arg)
        | Expr::ToScalar(arg) => {
            lemma_value_has_shape(arg, w, inputs);
        },
        Expr::Columns { arg, start, len } => {
            lemma_value_has_shape(arg, w, inputs);
        },
        Expr::Combine(_, a, b) | Expr::MatMul(a, b) | Expr::Beside(a, b) => {
            lemma_value_has_shape(a, w, inputs);
            lemma_value_has_shape(b, w, inputs);
        },
        Expr::Broadcast(_, a, b) => {
            lemma_value_has_shape(a, w, inputs);
            lemma_value_has_shape(b, w, inputs);
            assert forall|s: Shape, t: Shape|
                s.len() <= 2 && t.len() <= 2 && #[trigger] broadcast_shape(s, t) is Some implies {
                &&& broadcast_shape(s, t)->0.len() <= 2
                &&& grid_rows(broadcast_shape(s, t)->0) == extent(grid_rows(s), grid_rows(t))
                &&& grid_cols(broadcast_shape(s, t)->0) == extent(grid_cols(s), grid_cols(t))
            } by {
                lemma_broadcast_grid(s, t);
            }
        },
    }
}

} // verus!
