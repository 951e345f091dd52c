//! What the model and its losses compute, number by number: sums, products and quotients of real
//! numbers over the weights, the biases and the inputs.

use crate::expr::{apply, decimal, Decimal, Expr, Linear, Unary};
use crate::loss::{dynamic_formula, entropy_formula, gram, repulsion_formula, weighted_sum};
use crate::model_laws::{
    cross_entropy, lemma_encoder_rows, lemma_entropy_is_mean, lemma_mse_is_mean_square,
    lemma_rotated_entries, lemma_stacked_rows, lemma_theta_is_scalar, lemma_theta_value,
    lemma_unit_entry, row_square, sigmoid_value,
};
use crate::network::{
    decoder_formula, effective_formula, encoder_formula, rotated_rows, stacked, theta_formula,
    CollatzHackerModel, Decoder, Encoder,
};
use crate::reals::{lemma_associate, lemma_cancel, lemma_commute, lemma_distribute, lemma_divide};
use crate::semantics::{decimal_value, entry, number, power_of_ten, total, value, World};
use crate::totals::lemma_total_congruent;
use std::rc::Rc;
use vstd::prelude::*;

verus! {

broadcast use crate::semantics::group_entries;

/// An entry of a dense layer: the inner product of a row with the weights of an output, plus the
/// bias of the output.
pub proof fn lemma_layer_value(
    l: Linear,
    x: Expr,
    row: spec_fn(int) -> real,
    w: World,
    i: int,
    k: int,
)
    requires
        forall|c: int| 0 <= c < l.inputs ==> #[trigger] row(c) == entry(x, w, i, c),
    ensures
        entry(Expr::Layer(l, Rc::new(x)), w, i, k) == total(
            l.inputs as nat,
            |c: int| row(c) * (w.weight)(l, k, c),
        ) + (w.bias)(l, k),
{
    let g = value(x, w);
    let made = |c: int| (g.at)(i, c) * (w.weight)(l, k, c);
    let meant = |c: int| row(c) * (w.weight)(l, k, c);
    assert forall|c: int| 0 <= c < l.inputs implies #[trigger] made(c) == meant(c) by {
        assert(row(c) == entry(x, w, i, c));
    }
    lemma_total_congruent(l.inputs as nat, made, meant);
    assert(entry(Expr::Layer(l, Rc::new(x)), w, i, k) == total(l.inputs as nat, made) + (w.bias)(
        l,
        k,
    ));
}

/// An entry of three layers with rectifiers between them. `h1` and `h2` are what the first two
/// layers let through.
proof fn lemma_stacked_value(
    l1: Linear,
    l2: Linear,
    l3: Linear,
    x: Expr,
    w: World,
    i: int,
    k: int,
    h1: spec_fn(int) -> real,
    h2: spec_fn(int) -> real,
)
    requires
        forall|a: int| #[trigger]
            h1(a) == ({
                let sum = total(
                    l1.inputs as nat,
                    |c: int| entry(x, w, i, c) * (w.weight)(l1, a, c),
                ) + (w.bias)(l1, a);
                if sum > 0real {
                    sum
                } else {
                    0real
                }
            }),
        forall|b: int| #[trigger]
            h2(b) == ({
                let sum = total(l2.inputs as nat, |a: int| h1(a) * (w.weight)(l2, b, a)) + (w.bias)(
                    l2,
                    b,
                );
                if sum > 0real {
                    sum
                } else {
                    0real
                }
            }),
    ensures
        entry(stacked(l1, l2, l3, x), w, i, k) == total(
            l3.inputs as nat,
            |b: int| h2(b) * (w.weight)(l3, k, b),
        ) + (w.bias)(l3, k),
{
    let y1 = Expr::Layer(l1, Rc::new(x));
    let r1 = apply(Unary::Relu, y1);
    let y2 = Expr::Layer(l2, Rc::new(r1));
    let r2 = apply(Unary::Relu, y2);
    assert forall|a: int| #[trigger] h1(a) == entry(r1, w, i, a) by {
        let written = |c: int| entry(x, w, i, c) * (w.weight)(l1, a, c);
        let row = |c: int| entry(x, w, i, c);
        let made = |c: int| row(c) * (w.weight)(l1, a, c);
        lemma_layer_value(l1, x, row, w, i, a);
        lemma_total_congruent(l1.inputs as nat, made, written);
        assert(entry(y1, w, i, a) == total(l1.inputs as nat, written) + (w.bias)(l1, a));
    }
    assert forall|b: int| #[trigger] h2(b) == entry(r2, w, i, b) by {
        lemma_layer_value(l2, r1, h1, w, i, b);
    }
    lemma_layer_value(l3, r2, h2, w, i, k);
}

/// The logits of the decoder: the third layer of what the rectifier lets through of the second
/// layer of what it lets through of the first layer of the latent row. `h1` and `h2` are what the
/// rectifiers let through.
pub proof fn lemma_decoder_value(
    d: Decoder,
    z: Expr,
    w: World,
    i: int,
    k: int,
    h1: spec_fn(int) -> real,
    h2: spec_fn(int) -> real,
)
    requires
        forall|a: int| #[trigger]
            h1(a) == ({
                let sum = total(
                    d.linear1.inputs as nat,
                    |c: int| entry(z, w, i, c) * (w.weight)(d.linear1, a, c),
                ) + (w.bias)(d.linear1, a);
                if sum > 0real {
                    sum
                } else {
                    0real
                }
            }),
        forall|b: int| #[trigger]
            h2(b) == ({
                let sum = total(
                    d.linear2.inputs as nat,
                    |a: int| h1(a) * (w.weight)(d.linear2, b, a),
                ) + (w.bias)(d.linear2, b);
                if sum > 0real {
                    sum
                } else {
                    0real
                }
            }),
    ensures
        value(decoder_formula(d, z), w).rows == value(z, w).rows,
        value(decoder_formula(d, z), w).cols == d.linear3.outputs,
        entry(decoder_formula(d, z), w, i, k) == total(
            d.linear3.inputs as nat,
            |b: int| h2(b) * (w.weight)(d.linear3, k, b),
        ) + (w.bias)(d.linear3, k),
{
    lemma_stacked_rows(d.linear1, d.linear2, d.linear3, z, w);
    lemma_stacked_value(d.linear1, d.linear2, d.linear3, z, w, i, k, h1, h2);
}

/// The latent point of a row of digits: the two outputs of the third layer, each divided by their
/// length plus `10^-8`. `h1` and `h2` are what the rectifiers behind the first two layers let
/// through, `h` is what the third layer gives.
pub proof fn lemma_encoder_value(
    e: Encoder,
    x: Expr,
    w: World,
    i: int,
    k: int,
    h1: spec_fn(int) -> real,
    h2: spec_fn(int) -> real,
    h: spec_fn(int) -> real,
)
    requires
        e.linear3.outputs == 2,
        0 <= i < value(x, w).rows,
        0 <= k < 2,
        forall|a: int| #[trigger]
            h1(a) == ({
                let sum = total(
                    e.linear1.inputs as nat,
                    |c: int| entry(x, w, i, c) * (w.weight)(e.linear1, a, c),
                ) + (w.bias)(e.linear1, a);
                if sum > 0real {
                    sum
                } else {
                    0real
                }
            }),
        forall|b: int| #[trigger]
            h2(b) == ({
                let sum = total(
                    e.linear2.inputs as nat,
                    |a: int| h1(a) * (w.weight)(e.linear2, b, a),
                ) + (w.bias)(e.linear2, b);
                if sum > 0real {
                    sum
                } else {
                    0real
                }
            }),
        forall|c: int| #[trigger]
            h(c) == total(
                e.linear3.inputs as nat,
                |b: int| h2(b) * (w.weight)(e.linear3, c, b),
            ) + (w.bias)(e.linear3, c),
    ensures
        entry(encoder_formula(e, x), w, i, k) == h(k) / ((w.functions.sqrt)(
            h(0) * h(0) + h(1) * h(1),
        ) + 1real / 100_000_000real),
{
    let hidden = stacked(e.linear1, e.linear2, e.linear3, x);
    lemma_stacked_rows(e.linear1, e.linear2, e.linear3, x, w);
    assert forall|c: int| #[trigger] h(c) == entry(hidden, w, i, c) by {
        lemma_stacked_value(e.linear1, e.linear2, e.linear3, x, w, i, c, h1, h2);
    }
    reveal_with_fuel(power_of_ten, 9);
    reveal_with_fuel(total, 3);
    assert(h(0) == entry(hidden, w, i, 0) && h(1) == entry(hidden, w, i, 1));
    assert(row_square(hidden, w, i) == h(0) * h(0) + h(1) * h(1));
    assert(decimal_value(decimal(1, 8)) == 1real / 100_000_000real);
    lemma_unit_entry(hidden, w, i, k);
    assert(h(k) == entry(hidden, w, i, k));
}

/// The angle of the turn: 15 degrees and the logistic share of 330 degrees, in radians.
pub proof fn lemma_theta_degrees(w: World)
    requires
        w.functions.exp_laws(),
    ensures
        number(theta_formula(), w) == (w.functions.pi / 180real) * (15real + 330real / (1real
            + (w.functions.exp)(-w.phi))),
{
    let pi = w.functions.pi;
    let (unit, degree) = (pi / 1800real, pi / 180real);
    let d = 1real + (w.functions.exp)(-w.phi);
    let s = sigmoid_value(w, w.phi);
    lemma_theta_value(w);
    lemma_divide(pi, 1800real);
    lemma_divide(pi, 180real);
    assert(degree == 10real * unit);
    lemma_divide(1real, d);
    lemma_divide(330real, d);
    assert(s * d == 1real);
    lemma_associate(330real, s, d);
    lemma_cancel(330real * s, 330real / d, d);
    lemma_distribute(degree, 15real, 330real * s);
    lemma_commute(degree, 330real * s);
    lemma_associate(330real, s, degree);
    lemma_commute(330real, s * degree);
    lemma_associate(s, degree, 330real);
    assert(degree * 330real == 3300real * unit);
    assert(degree * 15real == 150real * unit);
}

/// The effective weights: the product of the three weight matrices, entry by entry.
pub proof fn lemma_effective_entries(e: Encoder, w: World, i: int, k: int)
    ensures
        value(effective_formula(e), w).rows == e.linear3.outputs,
        value(effective_formula(e), w).cols == e.linear1.inputs,
        entry(effective_formula(e), w, i, k) == total(
            e.linear2.inputs as nat,
            |b: int|
                total(
                    e.linear3.inputs as nat,
                    |a: int| (w.weight)(e.linear3, i, a) * (w.weight)(e.linear2, a, b),
                ) * (w.weight)(e.linear1, b, k),
        ),
{
    let w1 = Expr::Weight(e.linear1);
    let w2 = Expr::Weight(e.linear2);
    let w3 = Expr::Weight(e.linear3);
    let inner = Expr::MatMul(Rc::new(w3), Rc::new(w2));
    assert(value(w1, w).cols == e.linear1.inputs);
    assert(value(w2, w).cols == e.linear2.inputs);
    assert(value(w3, w).cols == e.linear3.inputs && value(w3, w).rows == e.linear3.outputs);
    assert(value(inner, w).cols == e.linear2.inputs && value(inner, w).rows == e.linear3.outputs);
    let made = |b: int| (value(inner, w).at)(i, b) * (value(w1, w).at)(b, k);
    let meant = |b: int|
        total(
            e.linear3.inputs as nat,
            |a: int| (w.weight)(e.linear3, i, a) * (w.weight)(e.linear2, a, b),
        ) * (w.weight)(e.linear1, b, k);
    assert forall|b: int| 0 <= b < e.linear2.inputs implies #[trigger] made(b) == meant(b) by {
        let product = |a: int| (value(w3, w).at)(i, a) * (value(w2, w).at)(a, b);
        let written = |a: int| (w.weight)(e.linear3, i, a) * (w.weight)(e.linear2, a, b);
        assert forall|a: int| 0 <= a < e.linear3.inputs implies #[trigger] product(a) == written(
            a,
        ) by {}
        lemma_total_congruent(e.linear3.inputs as nat, product, written);
        assert((value(inner, w).at)(i, b) == total(e.linear3.inputs as nat, product));
    }
    lemma_total_congruent(e.linear2.inputs as nat, made, meant);
    assert(entry(effective_formula(e), w, i, k) == total(e.linear2.inputs as nat, made));
}

/// The cross entropy of a batch: the mean cost of its digits, where the cost of a digit `t` under
/// the logit `l` is `-(t ln p + (1 - t) ln(1 - p))` with `p = 1 / (1 + exp(-l))`.
pub proof fn lemma_entropy_value(
    logits: Expr,
    targets: Expr,
    w: World,
    cost: spec_fn(int, int) -> real,
)
    requires
        w.functions.exp_laws(),
        w.functions.ln_laws(),
        forall|i: int, j: int| #[trigger]
            cost(i, j) == ({
                let t = entry(targets, w, i, j);
                let p = 1real / (1real + (w.functions.exp)(-entry(logits, w, i, j)));
                -(t * (w.functions.ln)(p) + (1real - t) * (w.functions.ln)(1real - p))
            }),
    ensures
        number(entropy_formula(logits, targets), w) == total(
            value(logits, w).rows,
            |i: int| total(value(logits, w).cols, |j: int| cost(i, j)),
        ) / ((value(logits, w).rows * value(logits, w).cols) as real),
{
    let (rows, cols) = (value(logits, w).rows, value(logits, w).cols);
    let made = |i: int|
        total(cols, |j: int| cross_entropy(w, entry(logits, w, i, j), entry(targets, w, i, j)));
    let meant = |i: int| total(cols, |j: int| cost(i, j));
    lemma_entropy_is_mean(logits, targets, w);
    assert forall|i: int| 0 <= i < rows implies #[trigger] made(i) == meant(i) by {
        let a = |j: int| cross_entropy(w, entry(logits, w, i, j), entry(targets, w, i, j));
        let b = |j: int| cost(i, j);
        assert forall|j: int| 0 <= j < cols implies #[trigger] a(j) == b(j) by {
            assert(cost(i, j) == cost(i, j));
        }
        lemma_total_congruent(cols, a, b);
    }
    lemma_total_congruent(rows, made, meant);
}

/// The dynamics loss: the mean square of what the turned first latent points miss the second ones
/// by. `dx` and `dy` are the two coordinates of a miss.
pub proof fn lemma_dynamics_value(
    model: CollatzHackerModel,
    x_t: Expr,
    x_next: Expr,
    w: World,
    dx: spec_fn(int) -> real,
    dy: spec_fn(int) -> real,
)
    requires
        model.encoder.linear3.outputs == 2,
        value(x_t, w).rows > 0,
        forall|i: int| #[trigger]
            dx(i) == ({
                let z_t = encoder_formula(model.encoder, x_t);
                let z_next = encoder_formula(model.encoder, x_next);
                let theta = number(theta_formula(), w);
                entry(z_t, w, i, 0) * (w.functions.cos)(theta) + entry(z_t, w, i, 1) * (
                w.functions.sin)(theta) - entry(z_next, w, i, 0)
            }),
        forall|i: int| #[trigger]
            dy(i) == ({
                let z_t = encoder_formula(model.encoder, x_t);
                let z_next = encoder_formula(model.encoder, x_next);
                let theta = number(theta_formula(), w);
                (-entry(z_t, w, i, 0)) * (w.functions.sin)(theta) + entry(z_t, w, i, 1) * (
                w.functions.cos)(theta) - entry(z_next, w, i, 1)
            }),
    ensures
        number(dynamic_formula(model, x_t, x_next), w) == total(
            value(x_t, w).rows,
            |i: int| dx(i) * dx(i) + dy(i) * dy(i),
        ) / ((value(x_t, w).rows * 2) as real),
{
    let z_t = encoder_formula(model.encoder, x_t);
    let z_next = encoder_formula(model.encoder, x_next);
    let pred = rotated_rows(z_t, theta_formula());
    let rows = value(x_t, w).rows;
    lemma_encoder_rows(model.encoder, x_t, w);
    lemma_theta_is_scalar(w);
    lemma_rotated_entries(z_t, theta_formula(), w, 0);
    lemma_mse_is_mean_square(pred, z_next, w);
    let made = |i: int|
        total(
            2,
            |j: int|
                (entry(pred, w, i, j) - entry(z_next, w, i, j)) * (entry(pred, w, i, j) - entry(
                    z_next,
                    w,
                    i,
                    j,
                )),
        );
    let meant = |i: int| dx(i) * dx(i) + dy(i) * dy(i);
    assert forall|i: int| 0 <= i < rows implies #[trigger] made(i) == meant(i) by {
        lemma_rotated_entries(z_t, theta_formula(), w, i);
        reveal_with_fuel(total, 3);
        assert(dx(i) == entry(pred, w, i, 0) - entry(z_next, w, i, 0));
        assert(dy(i) == entry(pred, w, i, 1) - entry(z_next, w, i, 1));
    }
    lemma_total_congruent(rows, made, meant);
}

/// The repulsion loss: the squares of the inner products of all ordered pairs of rows, a row with
/// itself among them, less the batch size, over the number of ordered pairs that such a batch has.
/// `product` is the inner product of two rows.
pub proof fn lemma_repulsion_squares(
    z: Expr,
    w: World,
    batch_size: nat,
    product: spec_fn(int, int) -> real,
)
    requires
        2 <= batch_size,
        batch_size * (batch_size - 1) <= usize::MAX,
        forall|i: int, j: int| #[trigger]
            product(i, j) == total(
                value(z, w).cols,
                |k: int| entry(z, w, i, k) * entry(z, w, j, k),
            ),
    ensures
        number(repulsion_formula(z, batch_size), w) == (total(
            value(z, w).rows,
            |i: int| total(value(z, w).rows, |j: int| product(i, j) * product(i, j)),
        ) - batch_size as real) / ((batch_size * (batch_size - 1)) as real),
{
    let b = batch_size;
    let (rows, cols) = (value(z, w).rows, value(z, w).cols);
    let flipped = Expr::Transpose(Rc::new(z));
    let squared = apply(Unary::Sqr, gram(z));
    let g = value(squared, w);
    assert(value(flipped, w).cols == rows);
    assert(value(gram(z), w).rows == rows && value(gram(z), w).cols == rows);
    assert(g.rows == rows && g.cols == rows);
    let made = |i: int| total(rows, |j: int| (g.at)(i, j));
    let meant = |i: int| total(rows, |j: int| product(i, j) * product(i, j));
    assert forall|i: int| 0 <= i < rows implies #[trigger] made(i) == meant(i) by {
        let row = |j: int| (g.at)(i, j);
        let squares = |j: int| product(i, j) * product(i, j);
        assert forall|j: int| 0 <= j < rows implies #[trigger] row(j) == squares(j) by {
            let terms = |k: int| (value(z, w).at)(i, k) * (value(flipped, w).at)(k, j);
            let written = |k: int| entry(z, w, i, k) * entry(z, w, j, k);
            assert forall|k: int| 0 <= k < cols implies #[trigger] terms(k) == written(k) by {}
            lemma_total_congruent(cols, terms, written);
            assert(entry(gram(z), w, i, j) == total(cols, terms));
            assert(product(i, j) == total(cols, written));
            assert(entry(squared, w, i, j) == product(i, j) * product(i, j));
        }
        lemma_total_congruent(rows, row, squares);
    }
    lemma_total_congruent(rows, made, meant);
    assert(number(Expr::SumAll(Rc::new(squared)), w) == total(rows, made));
    assert(b <= usize::MAX) by (nonlinear_arith)
        requires
            2 <= b,
            b * (b - 1) <= usize::MAX,
    ;
    assert(number(Expr::Count(b as usize), w) == b as real);
    let pairs = b * (b - 1);
    assert(pairs >= 0) by (nonlinear_arith)
        requires
            2 <= b,
            pairs == b * (b - 1),
    ;
    assert(number(Expr::Count(pairs as usize), w) == pairs as real);
}

/// The total loss: its first part, `alpha` times the second and `beta` times the third, where a
/// weight is its digits over a power of ten.
pub proof fn lemma_weighted_sum_value(
    first: Expr,
    second: Expr,
    third: Expr,
    alpha: Decimal,
    beta: Decimal,
    w: World,
)
    ensures
        number(weighted_sum(first, second, third, alpha, beta), w) == number(first, w) + number(
            second,
            w,
        ) * ((alpha.digits as real) / power_of_ten(alpha.places as nat)) + number(third, w) * ((
        beta.digits as real) / power_of_ten(beta.places as nat)),
{
    assert(number(Expr::Const(alpha), w) == decimal_value(alpha));
    assert(number(Expr::Const(beta), w) == decimal_value(beta));
}

} // verus!
