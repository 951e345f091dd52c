//! What the formulas of the model mean in exact arithmetic.

use crate::circle::lemma_right_angles;
use crate::expr::{
    apply, broadcast, decimal, minus, plus, scale, shift, times, Angle, Binary, Decimal, Expr,
    Linear, Unary,
};
use crate::loss::{
    decay_exponent, entropy_formula, gram, log_argument, mse_formula, reconstruction_formula,
    repulsion_formula, stable_entropy, weighted_sum,
};
use crate::network::{
    column, decoder_formula, decoder_layers, effective_formula, encoder_formula, encoder_layers,
    rotated_rows, sigmoid, stacked, theta_formula, unit_rows, CollatzHackerModel, Encoder,
};
use crate::reals::{
    lemma_associate, lemma_below_quotient, lemma_cancel, lemma_commute, lemma_distribute,
    lemma_divide, lemma_negate, lemma_nonnegative_product, lemma_positive_product,
    lemma_quotient_order, lemma_quotient_sign, lemma_square_of_product, lemma_square_sign,
    lemma_turn_direction, lemma_turn_keeps_length, lemma_turns_compose,
};
use crate::semantics::{
    absolute, decimal_value, entry, number, positive_part, power_of_ten, radians, total, value,
    World,
};
use crate::totals::{
    lemma_product_applied, lemma_total_added, lemma_total_apart, lemma_total_congruent,
    lemma_total_nonnegative, lemma_total_of_ones, lemma_total_scaled,
};
use std::rc::Rc;
use vstd::prelude::*;

verus! {

broadcast use crate::semantics::group_entries;

/// The constants that occur in the formulas.
pub proof fn lemma_constants()
    ensures
        decimal_value(decimal(-1, 0)) == -1real,
        decimal_value(decimal(0, 0)) == 0real,
        decimal_value(decimal(1, 0)) == 1real,
        decimal_value(decimal(5, 1)) * 2real == 1real,
        decimal_value(decimal(1, 8)) > 0real,
        decimal_value(decimal(1, 8)) * 100000000real == 1real,
{
    reveal_with_fuel(power_of_ten, 9);
    assert(power_of_ten(0) == 1real);
    assert(power_of_ten(1) == 10real);
    assert(power_of_ten(8) == 100000000real);
    assert(decimal_value(decimal(-1, 0)) == -1real / 1real);
    assert(decimal_value(decimal(0, 0)) == 0real / 1real);
    assert(decimal_value(decimal(1, 0)) == 1real / 1real);
    assert(decimal_value(decimal(5, 1)) == 5real / 10real);
    assert(decimal_value(decimal(1, 8)) == 1real / 100000000real);
}

/// The sigmoid of a number.
pub open spec fn sigmoid_value(w: World, phi: real) -> real {
    1real / ((w.functions.exp)(-phi) + 1real)
}

/// The world with another value of the angle parameter.
pub open spec fn with_phi(w: World, phi: real) -> World {
    World {
        functions: w.functions,
        inputs: w.inputs,
        phi,
        weight: w.weight,
        bias: w.bias,
    }
}

/// The turn in exact arithmetic: 15 degrees and the sigmoid's share of the 330 degrees above them.
pub proof fn lemma_theta_value(w: World)
    ensures
        ({
            let unit = w.functions.pi / 1800real;
            number(theta_formula(), w) == 150real * unit + sigmoid_value(w, w.phi) * (3300real
                * unit)
        }),
{
    lemma_constants();
    let unit = w.functions.pi / 1800real;
    let phi = Expr::ToScalar(Rc::new(Expr::Phi));
    let lowest = radians(Angle { tenths: 150 }, w.functions.pi);
    let highest = radians(Angle { tenths: 3450 }, w.functions.pi);
    assert(number(Expr::Phi, w) == w.phi);
    assert(number(phi, w) == w.phi);
    assert(w.phi * -1real == -w.phi);
    assert(number(sigmoid(phi), w) == sigmoid_value(w, w.phi));
    assert(lowest == 150real * unit);
    assert(highest == 3450real * unit);
    lemma_distribute(unit, 3450real, 150real);
    assert(highest - lowest == 3300real * unit);
    assert(number(theta_formula(), w) == lowest + sigmoid_value(w, w.phi) * (highest - lowest));
}

/// The sigmoid lies between 0 and 1.
proof fn lemma_sigmoid_range(w: World, phi: real)
    requires
        w.functions.exp_laws(),
    ensures
        0real < sigmoid_value(w, phi) < 1real,
{
    let e = (w.functions.exp)(-phi);
    let s = sigmoid_value(w, phi);
    lemma_quotient_sign(1real, e + 1real);
    lemma_divide(1real, e + 1real);
    lemma_distribute(s, e, 1real);
    lemma_positive_product(s, e);
}

/// The turn is kept strictly between 15 and 345 degrees, whatever the parameter.
pub proof fn lemma_theta_in_range(w: World)
    requires
        w.functions.exp_laws(),
        w.functions.pi > 0real,
    ensures
        radians(Angle { tenths: 150 }, w.functions.pi) < number(theta_formula(), w),
        number(theta_formula(), w) < radians(Angle { tenths: 3450 }, w.functions.pi),
{
    let unit = w.functions.pi / 1800real;
    let s = sigmoid_value(w, w.phi);
    lemma_theta_value(w);
    lemma_sigmoid_range(w, w.phi);
    assert(unit > 0real);
    lemma_positive_product(3300real, unit);
    lemma_positive_product(s, 3300real * unit);
    lemma_positive_product(1real - s, 3300real * unit);
    lemma_distribute(3300real * unit, 1real, s);
    lemma_distribute(unit, 3450real, 150real);
    assert(radians(Angle { tenths: 150 }, w.functions.pi) == 150real * unit);
    assert(radians(Angle { tenths: 3450 }, w.functions.pi) == 3450real * unit);
}

/// A larger parameter gives a larger turn.
pub proof fn lemma_theta_increases(w: World, p: real, q: real)
    requires
        p < q,
        w.functions.exp_laws(),
        w.functions.pi > 0real,
    ensures
        number(theta_formula(), with_phi(w, p)) < number(theta_formula(), with_phi(w, q)),
{
    let unit = w.functions.pi / 1800real;
    let (wp, wq) = (with_phi(w, p), with_phi(w, q));
    lemma_theta_value(wp);
    lemma_theta_value(wq);
    let d = (w.functions.exp)(-p) + 1real;
    let e = (w.functions.exp)(-q) + 1real;
    let s = sigmoid_value(wp, p);
    let t = sigmoid_value(wq, q);
    assert(e < d);
    lemma_sigmoid_range(wp, p);
    lemma_sigmoid_range(wq, q);
    lemma_divide(1real, d);
    lemma_divide(1real, e);
    assert(s * d == 1real && t * e == 1real);
    // s * e < s * d = 1 = t * e
    lemma_positive_product(s, d - e);
    lemma_distribute(s, d, e);
    if t <= s {
        lemma_nonnegative_product(s - t, e);
        lemma_distribute(e, s, t);
    }
    assert(unit > 0real);
    lemma_positive_product(3300real, unit);
    lemma_positive_product(t - s, 3300real * unit);
    lemma_distribute(3300real * unit, t, s);
}

/// Opposite parameters give turns that make up 360 degrees: the range is symmetric about 180.
pub proof fn lemma_theta_symmetric(w: World, p: real)
    requires
        w.functions.exp_laws(),
    ensures
        number(theta_formula(), with_phi(w, p)) + number(theta_formula(), with_phi(w, -p))
            == radians(Angle { tenths: 3600 }, w.functions.pi),
{
    let unit = w.functions.pi / 1800real;
    let (wp, wn) = (with_phi(w, p), with_phi(w, -p));
    lemma_theta_value(wp);
    lemma_theta_value(wn);
    let e = (w.functions.exp)(-p);
    let f = (w.functions.exp)(p);
    assert(-(-p) == p);
    let s = sigmoid_value(wp, p);
    let t = sigmoid_value(wn, -p);
    assert(w.functions.exp_of_sum(p, -p));
    assert(p + -p == 0real);
    assert(f * e == 1real);
    lemma_divide(1real, e + 1real);
    lemma_divide(1real, f + 1real);
    assert(s * (e + 1real) == 1real && t * (f + 1real) == 1real);
    // t * (e + 1) = e, because f and e are inverse to each other.
    lemma_associate(t, f + 1real, e);
    lemma_distribute(e, f, 1real);
    lemma_distribute(t, e, 1real);
    assert((f + 1real) * e == 1real + e);
    assert(t * (1real + e) == 1real * e);
    assert(1real + e == e + 1real);
    lemma_distribute(e + 1real, s, t);
    lemma_cancel(s + t, 1real, e + 1real);
    lemma_distribute(3300real * unit, s, t);
    assert(1real * (3300real * unit) == 3300real * unit);
    lemma_distribute(unit, 300real, 3300real);
    lemma_distribute(unit, 150real, 150real);
    assert(radians(Angle { tenths: 3600 }, w.functions.pi) == 3600real * unit);
}

/// A negative parameter brings the turn near 15 degrees.
proof fn lemma_theta_near_lowest(w: World)
    requires
        w.phi <= 0real,
        w.functions.exp_laws(),
        w.functions.natural_base(),
        w.functions.pi > 0real,
    ensures
        number(theta_formula(), w) - radians(Angle { tenths: 150 }, w.functions.pi) <= radians(
            Angle { tenths: 3300 },
            w.functions.pi,
        ) / (1real + absolute(w.phi)),
{
    let unit = w.functions.pi / 1800real;
    let range = 3300real * unit;
    let s = sigmoid_value(w, w.phi);
    let e = (w.functions.exp)(-w.phi);
    let d = 1real + absolute(w.phi);
    lemma_theta_value(w);
    lemma_sigmoid_range(w, w.phi);
    lemma_divide(1real, e + 1real);
    assert(s * (e + 1real) == 1real);
    assert(absolute(w.phi) == -w.phi);
    assert(e + 1real >= d);
    lemma_nonnegative_product(s, e + 1real - d);
    lemma_distribute(s, e + 1real, d);
    assert(s * d <= 1real);
    assert(unit > 0real);
    lemma_positive_product(3300real, unit);
    lemma_nonnegative_product(1real - s * d, range);
    lemma_distribute(range, 1real, s * d);
    assert(1real * range == range);
    lemma_associate(s, range, d);
    lemma_commute(range, d);
    lemma_associate(s, d, range);
    lemma_below_quotient(s * range, range, d);
    assert(radians(Angle { tenths: 150 }, w.functions.pi) == 150real * unit);
    assert(radians(Angle { tenths: 3300 }, w.functions.pi) == range);
}

/// The turn approaches the ends of its range: its distance from 15 degrees for a negative
/// parameter, and from 345 degrees for a positive one, is at most 330 degrees over one more than
/// the size of the parameter.
pub proof fn lemma_theta_approaches_ends(w: World)
    requires
        w.functions.exp_laws(),
        w.functions.natural_base(),
        w.functions.pi > 0real,
    ensures
        ({
            let theta = number(theta_formula(), w);
            let lowest = radians(Angle { tenths: 150 }, w.functions.pi);
            let highest = radians(Angle { tenths: 3450 }, w.functions.pi);
            let reach = radians(Angle { tenths: 3300 }, w.functions.pi) / (1real + absolute(w.phi));
            &&& w.phi <= 0real ==> 0real < theta - lowest <= reach
            &&& w.phi >= 0real ==> 0real < highest - theta <= reach
        }),
{
    let unit = w.functions.pi / 1800real;
    lemma_theta_in_range(w);
    if w.phi <= 0real {
        lemma_theta_near_lowest(w);
    }
    if w.phi >= 0real {
        let opposite = with_phi(w, -w.phi);
        assert(with_phi(w, w.phi) == w);
        lemma_theta_symmetric(w, w.phi);
        lemma_theta_near_lowest(opposite);
        assert(absolute(-w.phi) == absolute(w.phi));
        lemma_distribute(unit, 3450real, 150real);
        assert(radians(Angle { tenths: 150 }, w.functions.pi) == 150real * unit);
        assert(radians(Angle { tenths: 3450 }, w.functions.pi) == 3450real * unit);
        assert(radians(Angle { tenths: 3600 }, w.functions.pi) == 3600real * unit);
    }
}

/// An untrained parameter puts the turn in the middle of its range.
pub proof fn lemma_theta_starts_in_the_middle(w: World)
    requires
        w.functions.exp_laws(),
        w.phi == 0real,
    ensures
        number(theta_formula(), w) == radians(Angle { tenths: 1800 }, w.functions.pi),
{
    let unit = w.functions.pi / 1800real;
    lemma_theta_value(w);
    assert(-(0real) == 0real);
    assert(sigmoid_value(w, w.phi) == 1real / 2real);
    lemma_associate(1real / 2real, 3300real, unit);
    lemma_distribute(unit, 150real, 1650real);
}

/// The sum of the squares of a row.
pub open spec fn row_square(e: Expr, w: World, i: int) -> real {
    total(value(e, w).cols, |k: int| entry(e, w, i, k) * entry(e, w, i, k))
}

/// The two coordinates of a turned row.
pub proof fn lemma_rotated_entries(z: Expr, theta: Expr, w: World, i: int)
    requires
        value(z, w).cols == 2,
        0 <= i < value(z, w).rows,
        value(theta, w).rows == 1,
        value(theta, w).cols == 1,
    ensures
        ({
            let x = entry(z, w, i, 0);
            let y = entry(z, w, i, 1);
            let c = (w.functions.cos)(number(theta, w));
            let s = (w.functions.sin)(number(theta, w));
            let r = rotated_rows(z, theta);
            &&& value(r, w).rows == value(z, w).rows
            &&& value(r, w).cols == 2
            &&& entry(r, w, i, 0) == x * c + y * s
            &&& entry(r, w, i, 1) == (-x) * s + y * c
        }),
{
    lemma_constants();
    let cx = column(z, 0);
    let cy = column(z, 1);
    let cos_t = apply(Unary::Cos, theta);
    let sin_t = apply(Unary::Sin, theta);
    let x = entry(z, w, i, 0);
    let y = entry(z, w, i, 1);
    let c = (w.functions.cos)(number(theta, w));
    let s = (w.functions.sin)(number(theta, w));
    assert(entry(cx, w, i, 0) == x && entry(cy, w, i, 0) == y);
    assert(value(cx, w).rows == value(z, w).rows && value(cx, w).cols == 1);
    assert(value(cy, w).rows == value(z, w).rows && value(cy, w).cols == 1);
    assert(value(cos_t, w).rows == 1 && value(cos_t, w).cols == 1);
    assert(value(sin_t, w).rows == 1 && value(sin_t, w).cols == 1);
    assert(number(cos_t, w) == c && number(sin_t, w) == s);
    let x_cos = broadcast(Binary::Mul, cx, cos_t);
    let y_sin = broadcast(Binary::Mul, cy, sin_t);
    let x_sin = broadcast(Binary::Mul, cx, sin_t);
    let y_cos = broadcast(Binary::Mul, cy, cos_t);
    assert(entry(x_cos, w, i, 0) == x * c);
    assert(entry(y_sin, w, i, 0) == y * s);
    assert(entry(x_sin, w, i, 0) == x * s);
    assert(entry(y_cos, w, i, 0) == y * c);
    assert(value(x_cos, w).rows == value(z, w).rows && value(x_cos, w).cols == 1);
    assert(value(x_sin, w).rows == value(z, w).rows && value(x_sin, w).cols == 1);
    let back = scale(x_sin, -1, 0);
    assert(entry(back, w, i, 0) == (x * s) * -1real);
    assert(value(back, w).cols == 1);
    lemma_negate(x, s);
    let pred_x = plus(x_cos, y_sin);
    let pred_y = plus(back, y_cos);
    assert(entry(pred_x, w, i, 0) == x * c + y * s);
    assert(entry(pred_y, w, i, 0) == (-x) * s + y * c);
    assert(value(pred_x, w).rows == value(z, w).rows && value(pred_x, w).cols == 1);
    assert(value(pred_y, w).cols == 1);
}

/// A turn of a batch by 90 degrees takes every row `(x, y)` to `(y, -x)`: it runs clockwise.
pub proof fn lemma_quarter_turn_of_rows(z: Expr, w: World, i: int)
    requires
        value(z, w).cols == 2,
        0 <= i < value(z, w).rows,
        w.functions.quarter_laws(),
    ensures
        ({
            let turned = rotated_rows(z, Expr::Radians(Angle { tenths: 900 }));
            &&& entry(turned, w, i, 0) == entry(z, w, i, 1)
            &&& entry(turned, w, i, 1) == -entry(z, w, i, 0)
        }),
{
    let (x, y) = (entry(z, w, i, 0), entry(z, w, i, 1));
    lemma_right_angles(w);
    lemma_rotated_entries(z, Expr::Radians(Angle { tenths: 900 }), w, i);
    assert(x * 0real == 0real && y * 0real == 0real);
    assert(y * 1real == y && (-x) * 1real == -x);
}

/// The turn of a batch runs clockwise by its angle: the cosine of the angle is the inner product
/// of a row of unit length with its image, and the sine is what the image lies to the right of it.
pub proof fn lemma_row_turn_direction(z: Expr, theta: Expr, w: World, i: int)
    requires
        value(z, w).cols == 2,
        0 <= i < value(z, w).rows,
        value(theta, w).rows == 1,
        value(theta, w).cols == 1,
    ensures
        ({
            let (x, y) = (entry(z, w, i, 0), entry(z, w, i, 1));
            let turned = rotated_rows(z, theta);
            let (x1, y1) = (entry(turned, w, i, 0), entry(turned, w, i, 1));
            &&& x * x1 + y * y1 == (x * x + y * y) * (w.functions.cos)(number(theta, w))
            &&& x * y1 - y * x1 == -((x * x + y * y) * (w.functions.sin)(number(theta, w)))
        }),
{
    lemma_rotated_entries(z, theta, w, i);
    lemma_turn_direction(
        entry(z, w, i, 0),
        entry(z, w, i, 1),
        (w.functions.cos)(number(theta, w)),
        (w.functions.sin)(number(theta, w)),
    );
}

/// The angle is a scalar.
pub proof fn lemma_theta_is_scalar(w: World)
    ensures
        value(theta_formula(), w).rows == 1,
        value(theta_formula(), w).cols == 1,
{
    let phi = Expr::ToScalar(Rc::new(Expr::Phi));
    let grown = apply(Unary::Exp, scale(phi, -1, 0));
    let lowest = Expr::Radians(Angle { tenths: 150 });
    let highest = Expr::Radians(Angle { tenths: 3450 });
    let range = minus(highest, lowest);
    assert(value(phi, w).rows == 1 && value(phi, w).cols == 1);
    assert(value(scale(phi, -1, 0), w).rows == 1 && value(scale(phi, -1, 0), w).cols == 1);
    assert(value(grown, w).rows == 1 && value(grown, w).cols == 1);
    assert(value(shift(grown, 1, 0), w).rows == 1 && value(shift(grown, 1, 0), w).cols == 1);
    assert(value(sigmoid(phi), w).rows == 1 && value(sigmoid(phi), w).cols == 1);
    assert(value(lowest, w).rows == 1 && value(lowest, w).cols == 1);
    assert(value(highest, w).rows == 1 && value(highest, w).cols == 1);
    assert(value(range, w).rows == 1 && value(range, w).cols == 1);
    let stretched = broadcast(Binary::Mul, sigmoid(phi), range);
    assert(value(stretched, w).rows == 1 && value(stretched, w).cols == 1);
}

/// The turn of a batch keeps the length of every row.
pub proof fn lemma_rotation_keeps_rows(z: Expr, w: World, i: int)
    requires
        value(z, w).cols == 2,
        0 <= i < value(z, w).rows,
        w.functions.circle_laws(),
    ensures
        row_square(rotated_rows(z, theta_formula()), w, i) == row_square(z, w, i),
{
    let theta = theta_formula();
    let r = rotated_rows(z, theta);
    lemma_theta_is_scalar(w);
    lemma_rotated_entries(z, theta, w, i);
    reveal_with_fuel(total, 3);
    lemma_turn_keeps_length(
        entry(z, w, i, 0),
        entry(z, w, i, 1),
        (w.functions.cos)(number(theta, w)),
        (w.functions.sin)(number(theta, w)),
    );
}

/// Two turns of a batch, one after the other, come to one turn by the sum of their angles.
pub proof fn lemma_row_turns_add(z: Expr, a: Expr, b: Expr, sum: Expr, w: World, i: int)
    requires
        value(z, w).cols == 2,
        0 <= i < value(z, w).rows,
        value(a, w).rows == 1 && value(a, w).cols == 1,
        value(b, w).rows == 1 && value(b, w).cols == 1,
        value(sum, w).rows == 1 && value(sum, w).cols == 1,
        number(sum, w) == number(a, w) + number(b, w),
        w.functions.addition_laws(),
    ensures
        entry(rotated_rows(rotated_rows(z, a), b), w, i, 0) == entry(rotated_rows(z, sum), w, i, 0),
        entry(rotated_rows(rotated_rows(z, a), b), w, i, 1) == entry(rotated_rows(z, sum), w, i, 1),
{
    let f = w.functions;
    let (x, y) = (number(a, w), number(b, w));
    assert(f.turn_of_sum(x, y));
    lemma_rotated_entries(z, a, w, i);
    lemma_rotated_entries(rotated_rows(z, a), b, w, i);
    lemma_rotated_entries(z, sum, w, i);
    lemma_turns_compose(
        entry(z, w, i, 0),
        entry(z, w, i, 1),
        (f.cos)(x),
        (f.sin)(x),
        (f.cos)(y),
        (f.sin)(y),
    );
}

/// A turn of a batch is undone by the opposite one.
pub proof fn lemma_row_turn_undone(z: Expr, a: Expr, back: Expr, w: World, i: int)
    requires
        value(z, w).cols == 2,
        0 <= i < value(z, w).rows,
        value(a, w).rows == 1 && value(a, w).cols == 1,
        value(back, w).rows == 1 && value(back, w).cols == 1,
        number(back, w) == -number(a, w),
        w.functions.addition_laws(),
    ensures
        entry(rotated_rows(rotated_rows(z, a), back), w, i, 0) == entry(z, w, i, 0),
        entry(rotated_rows(rotated_rows(z, a), back), w, i, 1) == entry(z, w, i, 1),
{
    let still = Expr::Const(decimal(0, 0));
    lemma_constants();
    assert(number(still, w) == 0real);
    lemma_row_turns_add(z, a, back, still, w, i);
    lemma_rotated_entries(z, still, w, i);
    let (x, y) = (entry(z, w, i, 0), entry(z, w, i, 1));
    assert(x * 1real == x && y * 1real == y);
    assert(x * 0real == 0real && y * 0real == 0real && (-x) * 0real == 0real);
}

/// The length of a row.
pub open spec fn row_length(e: Expr, w: World, i: int) -> real {
    (w.functions.sqrt)(row_square(e, w, i))
}

/// A normalised row has the length `n / (n + 10^-8)`, where `n` is its length before: it lies on
/// the unit circle up to the guard against division by zero, and never outside it.
pub proof fn lemma_rows_near_unit_circle(h: Expr, w: World, i: int)
    requires
        0 <= i < value(h, w).rows,
        w.functions.sqrt_laws(),
    ensures
        ({
            let n = row_length(h, w, i);
            let shrunk = n / (n + decimal_value(decimal(1, 8)));
            &&& 0real <= shrunk < 1real
            &&& row_square(unit_rows(h), w, i) == shrunk * shrunk
        }),
{
    lemma_constants();
    let eps = decimal_value(decimal(1, 8));
    let n = row_length(h, w, i);
    let cols = value(h, w).cols;
    let squares = |k: int| entry(h, w, i, k) * entry(h, w, i, k);
    assert forall|k: int| 0 <= k < cols implies #[trigger] squares(k) >= 0real by {
        lemma_square_sign(entry(h, w, i, k));
    }
    lemma_total_nonnegative(cols, squares);
    assert(row_square(h, w, i) == total(cols, squares));
    assert(n >= 0real && n * n == row_square(h, w, i));
    let d = n + eps;
    let shrunk = n / d;
    lemma_quotient_sign(n, d);
    lemma_quotient_sign(eps, d);
    lemma_divide(n, d);
    lemma_divide(eps, d);
    lemma_divide(d, d);
    lemma_distribute(d, n / d, eps / d);
    lemma_cancel(n / d + eps / d, d / d, d);
    assert(1real * d == d);
    lemma_cancel(d / d, 1real, d);
    // The denominator of the row.
    let squared = apply(Unary::Sqr, h);
    let sums = Expr::RowSums(Rc::new(squared));
    let norm = apply(Unary::Sqrt, sums);
    let denominator = shift(norm, 1, 8);
    assert forall|k: int| 0 <= k < cols implies #[trigger] entry(squared, w, i, k) == squares(
        k,
    ) by {}
    let summed = |k: int| (value(squared, w).at)(i, k);
    assert(value(squared, w).cols == cols);
    lemma_total_congruent(cols, summed, squares);
    assert(entry(sums, w, i, 0) == total(cols, summed));
    assert(entry(norm, w, i, 0) == n);
    assert(entry(denominator, w, i, 0) == d);
    assert(value(squared, w).rows == value(h, w).rows);
    assert(value(sums, w).rows == value(h, w).rows);
    assert(value(norm, w).rows == value(h, w).rows && value(norm, w).cols == 1);
    assert(value(denominator, w).rows == value(h, w).rows && value(denominator, w).cols == 1);
    let unit = unit_rows(h);
    assert(value(unit, w).cols == cols);
    let ratios = |k: int| entry(unit, w, i, k) * entry(unit, w, i, k);
    assert(row_square(unit, w, i) == total(cols, ratios));
    assert forall|k: int| 0 <= k < cols implies #[trigger] squares(k) == ratios(k) * (d * d) by {
        let r = entry(h, w, i, k) / d;
        assert(entry(unit, w, i, k) == r);
        lemma_divide(entry(h, w, i, k), d);
        lemma_square_of_product(r, d);
    }
    lemma_total_scaled(cols, ratios, d * d, squares);
    lemma_square_of_product(shrunk, d);
    lemma_positive_product(d, d);
    lemma_cancel(row_square(unit, w, i), shrunk * shrunk, d * d);
}

/// Three layers give one row for every row they are given.
pub proof fn lemma_stacked_rows(l1: Linear, l2: Linear, l3: Linear, x: Expr, w: World)
    ensures
        value(stacked(l1, l2, l3, x), w).rows == value(x, w).rows,
        value(stacked(l1, l2, l3, x), w).cols == l3.outputs,
{
    let h1 = apply(Unary::Relu, Expr::Layer(l1, Rc::new(x)));
    let h2 = apply(Unary::Relu, Expr::Layer(l2, Rc::new(h1)));
    assert(value(Expr::Layer(l1, Rc::new(x)), w).rows == value(x, w).rows);
    assert(value(h1, w).rows == value(x, w).rows);
    assert(value(Expr::Layer(l2, Rc::new(h1)), w).rows == value(x, w).rows);
    assert(value(h2, w).rows == value(x, w).rows);
}

/// An encoder with two outputs gives one point of the plane for every row of digits.
pub proof fn lemma_encoder_rows(e: Encoder, x: Expr, w: World)
    requires
        e.linear3.outputs == 2,
        value(x, w).rows > 0,
    ensures
        value(encoder_formula(e, x), w).rows == value(x, w).rows,
        value(encoder_formula(e, x), w).cols == 2,
{
    let h = stacked(e.linear1, e.linear2, e.linear3, x);
    lemma_stacked_rows(e.linear1, e.linear2, e.linear3, x, w);
    let norm = apply(Unary::Sqrt, Expr::RowSums(Rc::new(apply(Unary::Sqr, h))));
    assert(value(apply(Unary::Sqr, h), w).rows == value(x, w).rows);
    assert(value(Expr::RowSums(Rc::new(apply(Unary::Sqr, h))), w).rows == value(x, w).rows);
    assert(value(norm, w).rows == value(x, w).rows && value(norm, w).cols == 1);
    assert(value(shift(norm, 1, 8), w).rows == value(x, w).rows);
    assert(value(shift(norm, 1, 8), w).cols == 1);
}

/// The encoder gives one point of the plane for every row of digits.
pub proof fn lemma_latent_rows(x: Expr, w: World)
    requires
        value(x, w).rows > 0,
    ensures
        value(encoder_formula(encoder_layers(), x), w).rows == value(x, w).rows,
        value(encoder_formula(encoder_layers(), x), w).cols == 2,
{
    lemma_encoder_rows(encoder_layers(), x, w);
}

/// The latent points of a batch lie inside the unit circle.
pub proof fn lemma_latent_inside(x: Expr, w: World, i: int)
    requires
        0 <= i < value(x, w).rows,
        w.functions.sqrt_laws(),
    ensures
        0real <= row_square(encoder_formula(encoder_layers(), x), w, i) < 1real,
{
    let e = encoder_layers();
    let h = stacked(e.linear1, e.linear2, e.linear3, x);
    lemma_stacked_rows(e.linear1, e.linear2, e.linear3, x, w);
    lemma_rows_near_unit_circle(h, w, i);
    let n = row_length(h, w, i);
    let shrunk = n / (n + decimal_value(decimal(1, 8)));
    lemma_square_sign(shrunk);
    if shrunk > 0real {
        lemma_positive_product(shrunk, 1real - shrunk);
        lemma_distribute(shrunk, 1real, shrunk);
    }
}

/// The turn predicts points inside the unit circle: each as far from the centre as the latent
/// point it comes from.
pub proof fn lemma_predicted_inside(x: Expr, w: World, i: int)
    requires
        0 <= i < value(x, w).rows,
        w.functions.sqrt_laws(),
        w.functions.circle_laws(),
    ensures
        ({
            let z = encoder_formula(encoder_layers(), x);
            let predicted = rotated_rows(z, theta_formula());
            &&& row_square(predicted, w, i) == row_square(z, w, i)
            &&& 0real <= row_square(predicted, w, i) < 1real
        }),
{
    lemma_latent_rows(x, w);
    lemma_latent_inside(x, w, i);
    lemma_rotation_keeps_rows(encoder_formula(encoder_layers(), x), w, i);
}

/// Three layers compute a row from the row they are given alone.
proof fn lemma_stacked_local(
    l1: Linear,
    l2: Linear,
    l3: Linear,
    x: Expr,
    y: Expr,
    w: World,
    i: int,
    j: int,
)
    requires
        forall|k: int| 0 <= k < l1.inputs ==> #[trigger] entry(x, w, i, k) == entry(y, w, j, k),
    ensures
        forall|k: int| #[trigger]
            entry(stacked(l1, l2, l3, x), w, i, k) == entry(stacked(l1, l2, l3, y), w, j, k),
{
    let x1 = apply(Unary::Relu, Expr::Layer(l1, Rc::new(x)));
    let y1 = apply(Unary::Relu, Expr::Layer(l1, Rc::new(y)));
    let x2 = apply(Unary::Relu, Expr::Layer(l2, Rc::new(x1)));
    let y2 = apply(Unary::Relu, Expr::Layer(l2, Rc::new(y1)));
    assert forall|k: int| #[trigger] entry(x1, w, i, k) == entry(y1, w, j, k) by {
        lemma_layer_local(l1, x, y, w, i, j, k);
    }
    assert forall|k: int| #[trigger] entry(x2, w, i, k) == entry(y2, w, j, k) by {
        lemma_layer_local(l2, x1, y1, w, i, j, k);
    }
    assert forall|k: int| #[trigger]
        entry(stacked(l1, l2, l3, x), w, i, k) == entry(stacked(l1, l2, l3, y), w, j, k) by {
        lemma_layer_local(l3, x2, y2, w, i, j, k);
    }
}

/// A layer computes a row from the row it is given alone.
proof fn lemma_layer_local(l: Linear, x: Expr, y: Expr, w: World, i: int, j: int, k: int)
    requires
        forall|c: int| 0 <= c < l.inputs ==> #[trigger] entry(x, w, i, c) == entry(y, w, j, c),
    ensures
        entry(Expr::Layer(l, Rc::new(x)), w, i, k) == entry(Expr::Layer(l, Rc::new(y)), w, j, k),
{
    let (g, h) = (value(x, w), value(y, w));
    let of_x = |c: int| (g.at)(i, c) * (w.weight)(l, k, c);
    let of_y = |c: int| (h.at)(j, c) * (w.weight)(l, k, c);
    assert forall|c: int| 0 <= c < l.inputs implies #[trigger] of_x(c) == of_y(c) by {
        assert(entry(x, w, i, c) == entry(y, w, j, c));
    }
    lemma_total_congruent(l.inputs as nat, of_x, of_y);
    assert(entry(Expr::Layer(l, Rc::new(x)), w, i, k) == total(l.inputs as nat, of_x) + (w.bias)(
        l,
        k,
    ));
    assert(entry(Expr::Layer(l, Rc::new(y)), w, j, k) == total(l.inputs as nat, of_y) + (w.bias)(
        l,
        k,
    ));
}

/// An entry of a normalised row: the entry before over the length of the row plus `10^-8`.
pub proof fn lemma_unit_entry(h: Expr, w: World, i: int, k: int)
    requires
        value(h, w).cols == 2,
        0 <= i < value(h, w).rows,
    ensures
        entry(unit_rows(h), w, i, k) == entry(h, w, i, k) / (row_length(h, w, i) + decimal_value(
            decimal(1, 8),
        )),
{
    let squared = apply(Unary::Sqr, h);
    let sums = Expr::RowSums(Rc::new(squared));
    let norm = apply(Unary::Sqrt, sums);
    let denominator = shift(norm, 1, 8);
    let summed = |c: int| (value(squared, w).at)(i, c);
    let squares = |c: int| entry(h, w, i, c) * entry(h, w, i, c);
    assert(value(squared, w).cols == 2 && value(squared, w).rows == value(h, w).rows);
    assert forall|c: int| 0 <= c < 2 implies #[trigger] summed(c) == squares(c) by {
        assert(entry(squared, w, i, c) == squares(c));
    }
    lemma_total_congruent(2, summed, squares);
    assert(entry(sums, w, i, 0) == total(2, summed));
    assert(entry(norm, w, i, 0) == row_length(h, w, i));
    assert(value(sums, w).rows == value(h, w).rows);
    assert(value(norm, w).rows == value(h, w).rows && value(norm, w).cols == 1);
    assert(value(denominator, w).rows == value(h, w).rows && value(denominator, w).cols == 1);
    assert(entry(denominator, w, i, 0) == row_length(h, w, i) + decimal_value(decimal(1, 8)));
}

/// A latent point, the point that the turn predicts from it and its logits depend on their own row
/// of digits alone, not on the batch around it or the place in the batch.
pub proof fn lemma_rows_are_independent(x: Expr, y: Expr, w: World, i: int, j: int)
    requires
        0 <= i < value(x, w).rows,
        0 <= j < value(y, w).rows,
        forall|k: int| 0 <= k < 64 ==> #[trigger] entry(x, w, i, k) == entry(y, w, j, k),
    ensures
        ({
            let (z_x, z_y) = (
                encoder_formula(encoder_layers(), x),
                encoder_formula(encoder_layers(), y),
            );
            let (p_x, p_y) = (
                rotated_rows(z_x, theta_formula()),
                rotated_rows(z_y, theta_formula()),
            );
            let (l_x, l_y) = (
                decoder_formula(decoder_layers(), z_x),
                decoder_formula(decoder_layers(), z_y),
            );
            &&& forall|k: int| #[trigger] entry(z_x, w, i, k) == entry(z_y, w, j, k)
            &&& entry(p_x, w, i, 0) == entry(p_y, w, j, 0)
            &&& entry(p_x, w, i, 1) == entry(p_y, w, j, 1)
            &&& forall|k: int| #[trigger] entry(l_x, w, i, k) == entry(l_y, w, j, k)
        }),
{
    let (e, d) = (encoder_layers(), decoder_layers());
    let h_x = stacked(e.linear1, e.linear2, e.linear3, x);
    let h_y = stacked(e.linear1, e.linear2, e.linear3, y);
    lemma_stacked_rows(e.linear1, e.linear2, e.linear3, x, w);
    lemma_stacked_rows(e.linear1, e.linear2, e.linear3, y, w);
    lemma_stacked_local(e.linear1, e.linear2, e.linear3, x, y, w, i, j);
    let of_x = |k: int| entry(h_x, w, i, k) * entry(h_x, w, i, k);
    let of_y = |k: int| entry(h_y, w, j, k) * entry(h_y, w, j, k);
    assert forall|k: int| 0 <= k < 2 implies #[trigger] of_x(k) == of_y(k) by {
        assert(entry(h_x, w, i, k) == entry(h_y, w, j, k));
    }
    lemma_total_congruent(2, of_x, of_y);
    assert(row_square(h_x, w, i) == total(2, of_x));
    assert(row_square(h_y, w, j) == total(2, of_y));
    let (z_x, z_y) = (encoder_formula(e, x), encoder_formula(e, y));
    assert forall|k: int| #[trigger] entry(z_x, w, i, k) == entry(z_y, w, j, k) by {
        assert(entry(h_x, w, i, k) == entry(h_y, w, j, k));
        lemma_unit_entry(h_x, w, i, k);
        lemma_unit_entry(h_y, w, j, k);
    }
    lemma_latent_rows(x, w);
    lemma_latent_rows(y, w);
    lemma_theta_is_scalar(w);
    lemma_rotated_entries(z_x, theta_formula(), w, i);
    lemma_rotated_entries(z_y, theta_formula(), w, j);
    lemma_stacked_local(d.linear1, d.linear2, d.linear3, z_x, z_y, w, i, j);
}

/// The logistic function.
pub open spec fn logistic(w: World, l: real) -> real {
    1real / (1real + (w.functions.exp)(-l))
}

/// The binary cross entropy of a target `t` under the probability `logistic(l)`.
pub open spec fn cross_entropy(w: World, l: real, t: real) -> real {
    -(t * (w.functions.ln)(logistic(w, l)) + (1real - t) * (w.functions.ln)(
        1real - logistic(w, l),
    ))
}

/// The logarithm of a quotient of positive numbers.
proof fn lemma_ln_of_quotient(w: World, a: real, b: real)
    requires
        a > 0real,
        b > 0real,
        w.functions.exp_laws(),
        w.functions.ln_laws(),
    ensures
        (w.functions.ln)(a / b) == (w.functions.ln)(a) - (w.functions.ln)(b),
{
    lemma_quotient_sign(a, b);
    lemma_divide(a, b);
    assert(w.functions.ln_of_product(a / b, b));
}

/// The cross entropy with its logarithms taken apart.
proof fn lemma_cross_entropy_expanded(w: World, l: real, t: real)
    requires
        w.functions.exp_laws(),
        w.functions.ln_laws(),
    ensures
        cross_entropy(w, l, t) == (w.functions.ln)(1real + (w.functions.exp)(-l)) + l - l * t,
{
    let e = (w.functions.exp)(-l);
    let d = 1real + e;
    let lg = (w.functions.ln)(d);
    assert(e > 0real);
    let p = logistic(w, l);
    lemma_ln_of_quotient(w, 1real, d);
    lemma_ln_of_quotient(w, e, d);
    assert((w.functions.ln)((w.functions.exp)(0real)) == 0real);
    assert((w.functions.ln)(p) == -lg);
    lemma_divide(1real, d);
    lemma_divide(e, d);
    lemma_distribute(d, 1real / d, e / d);
    assert(1real * d == d);
    lemma_cancel(1real / d + e / d, 1real, d);
    assert(1real - p == e / d);
    assert((w.functions.ln)(e) == -l);
    assert((w.functions.ln)(1real - p) == -l - lg);
    lemma_negate(t, lg);
    lemma_negate(1real - t, l + lg);
    assert(-l - lg == -(l + lg));
    lemma_distribute(l + lg, 1real, t);
    lemma_distribute(t, l, lg);
    lemma_commute(t, l);
    assert(1real * (l + lg) == l + lg);
}

/// The numerically stable form of the loss is the binary cross entropy, entry by entry.
pub proof fn lemma_stable_entropy(logits: Expr, targets: Expr, w: World, i: int, j: int)
    requires
        w.functions.exp_laws(),
        w.functions.ln_laws(),
    ensures
        entry(stable_entropy(logits, targets), w, i, j) == cross_entropy(
            w,
            entry(logits, w, i, j),
            entry(targets, w, i, j),
        ),
{
    lemma_constants();
    let l = entry(logits, w, i, j);
    let t = entry(targets, w, i, j);
    let f = w.functions;
    lemma_cross_entropy_expanded(w, l, t);
    let a = absolute(l);
    let decayed = apply(Unary::Exp, scale(apply(Unary::Abs, logits), -1, 0));
    assert(a * -1real == -a);
    assert(entry(decayed, w, i, j) == (f.exp)(-a));
    assert(entry(stable_entropy(logits, targets), w, i, j) == positive_part(l) - l * t + (f.ln)(
        (f.exp)(-a) + 1real,
    ));
    assert((f.exp)(-a) + 1real == 1real + (f.exp)(-a));
    if l < 0real {
        // 1 + exp(-l) = exp(-l) * (1 + exp(l))
        let e = (f.exp)(l);
        let inverse = (f.exp)(-l);
        assert(-a == l);
        assert(f.exp_of_sum(-l, l));
        assert(-l + l == 0real);
        lemma_distribute(inverse, 1real, e);
        assert(inverse * 1real == inverse);
        assert(f.ln_of_product(inverse, 1real + e));
        assert((f.ln)(inverse) == -l);
    }
}

/// The loss is numerically stable: it exponentiates no positive number, so that no exponential
/// exceeds 1, and it takes logarithms between 1 and 2 only.
pub proof fn lemma_entropy_is_stable(logits: Expr, w: World, i: int, j: int)
    requires
        w.functions.exp_laws(),
    ensures
        entry(decay_exponent(logits), w, i, j) <= 0real,
        0real < entry(apply(Unary::Exp, decay_exponent(logits)), w, i, j) <= 1real,
        1real < entry(log_argument(logits), w, i, j) <= 2real,
{
    lemma_constants();
    let x = entry(decay_exponent(logits), w, i, j);
    assert(entry(apply(Unary::Abs, logits), w, i, j) >= 0real);
    assert(x == entry(apply(Unary::Abs, logits), w, i, j) * -1real);
    assert((w.functions.exp)(x) <= (w.functions.exp)(0real));
}

/// `ln(1 + exp(l))` and `ln(1 + exp(-l))` differ by `l`.
proof fn lemma_softplus_flipped(w: World, l: real)
    requires
        w.functions.exp_laws(),
        w.functions.ln_laws(),
    ensures
        (w.functions.ln)(1real + (w.functions.exp)(l)) == (w.functions.ln)(
            1real + (w.functions.exp)(-l),
        ) + l,
{
    let f = w.functions;
    let e = (f.exp)(l);
    let inverse = (f.exp)(-l);
    assert(f.exp_of_sum(l, -l));
    assert(l + -l == 0real);
    lemma_distribute(e, 1real, inverse);
    assert(e * 1real == e);
    assert(e * (1real + inverse) == 1real + e);
    assert(f.ln_of_product(e, 1real + inverse));
}

/// The cross entropy weighs the costs of the two digits by the target.
pub proof fn lemma_cross_entropy_mixture(w: World, l: real, t: real)
    requires
        w.functions.exp_laws(),
        w.functions.ln_laws(),
    ensures
        cross_entropy(w, l, t) == t * (w.functions.ln)(1real + (w.functions.exp)(-l)) + (1real - t)
            * (w.functions.ln)(1real + (w.functions.exp)(l)),
{
    let a = (w.functions.ln)(1real + (w.functions.exp)(-l));
    lemma_cross_entropy_expanded(w, l, t);
    lemma_softplus_flipped(w, l);
    lemma_distribute(a + l, 1real, t);
    lemma_distribute(t, a, l);
    lemma_commute(t, l);
    assert(1real * (a + l) == a + l);
}

/// The cross entropy is not negative for a target between the two digits.
pub proof fn lemma_cross_entropy_nonnegative(w: World, l: real, t: real)
    requires
        0real <= t <= 1real,
        w.functions.exp_laws(),
        w.functions.ln_laws(),
    ensures
        cross_entropy(w, l, t) >= 0real,
{
    let a = (w.functions.ln)(1real + (w.functions.exp)(-l));
    let b = (w.functions.ln)(1real + (w.functions.exp)(l));
    lemma_cross_entropy_mixture(w, l, t);
    lemma_nonnegative_product(t, a);
    lemma_nonnegative_product(1real - t, b);
}

/// The cross entropy does not change when the logit changes its sign and the digit its value.
pub proof fn lemma_cross_entropy_flipped(w: World, l: real, t: real)
    requires
        w.functions.exp_laws(),
        w.functions.ln_laws(),
    ensures
        cross_entropy(w, -l, 1real - t) == cross_entropy(w, l, t),
{
    lemma_cross_entropy_mixture(w, l, t);
    lemma_cross_entropy_mixture(w, -l, 1real - t);
    assert(-(-l) == l);
    assert(1real - (1real - t) == t);
}

/// The logarithm lies between two simple bounds that meet at 1.
pub proof fn lemma_ln_bounds(w: World, a: real)
    requires
        a > 0real,
        w.functions.exp_laws(),
        w.functions.natural_base(),
        w.functions.ln_laws(),
    ensures
        1real - 1real / a <= (w.functions.ln)(a) <= a - 1real,
{
    let f = w.functions;
    let l = (f.ln)(a);
    assert((f.exp)(l) == a);
    assert(f.exp_of_sum(-l, l));
    assert(-l + l == 0real);
    lemma_divide(1real, a);
    lemma_cancel((f.exp)(-l), 1real / a, a);
}

/// A logit of zero is undecided: whatever the target, it costs the logarithm of 2, which is at
/// least a half and at most 1.
pub proof fn lemma_undecided_logit(w: World, t: real)
    requires
        w.functions.exp_laws(),
        w.functions.natural_base(),
        w.functions.ln_laws(),
    ensures
        cross_entropy(w, 0real, t) == (w.functions.ln)(2real),
        1real / 2real <= (w.functions.ln)(2real) <= 1real,
{
    let cost = (w.functions.ln)(2real);
    lemma_cross_entropy_mixture(w, 0real, t);
    assert(-(0real) == 0real);
    assert(1real + 1real == 2real);
    lemma_distribute(cost, t, 1real - t);
    assert(t + (1real - t) == 1real);
    assert(1real * cost == cost);
    lemma_ln_bounds(w, 2real);
}

/// The reconstruction loss of a batch is not negative where all targets lie between the two
/// digits.
pub proof fn lemma_entropy_nonnegative(logits: Expr, targets: Expr, w: World)
    requires
        value(logits, w).rows > 0,
        value(logits, w).cols > 0,
        forall|i: int, j: int|
            0 <= i < value(logits, w).rows && 0 <= j < value(logits, w).cols ==> 0real
                <= #[trigger] entry(targets, w, i, j) <= 1real,
        w.functions.exp_laws(),
        w.functions.ln_laws(),
    ensures
        number(entropy_formula(logits, targets), w) >= 0real,
{
    let rows = value(logits, w).rows;
    let cols = value(logits, w).cols;
    lemma_entropy_is_mean(logits, targets, w);
    let by_row = |i: int|
        total(cols, |j: int| cross_entropy(w, entry(logits, w, i, j), entry(targets, w, i, j)));
    assert forall|i: int| 0 <= i < rows implies #[trigger] by_row(i) >= 0real by {
        let row = |j: int| cross_entropy(w, entry(logits, w, i, j), entry(targets, w, i, j));
        assert forall|j: int| 0 <= j < cols implies #[trigger] row(j) >= 0real by {
            lemma_cross_entropy_nonnegative(w, entry(logits, w, i, j), entry(targets, w, i, j));
        }
        lemma_total_nonnegative(cols, row);
    }
    lemma_total_nonnegative(rows, by_row);
    assert(rows * cols > 0) by (nonlinear_arith)
        requires
            rows > 0,
            cols > 0,
    ;
    lemma_quotient_sign(total(rows, by_row), (rows * cols) as real);
}

/// The logits with their signs changed.
pub open spec fn negated(logits: Expr) -> Expr {
    scale(logits, -1, 0)
}

/// The digits exchanged: `1 - t` for every `t`.
pub open spec fn exchanged(targets: Expr) -> Expr {
    shift(scale(targets, -1, 0), 1, 0)
}

/// The reconstruction loss does not change when all logits change their signs and all digits their
/// values.
pub proof fn lemma_entropy_flipped(logits: Expr, targets: Expr, w: World)
    requires
        w.functions.exp_laws(),
        w.functions.ln_laws(),
    ensures
        number(entropy_formula(negated(logits), exchanged(targets)), w) == number(
            entropy_formula(logits, targets),
            w,
        ),
{
    lemma_constants();
    let rows = value(logits, w).rows;
    let cols = value(logits, w).cols;
    let opposite = negated(logits);
    let other = exchanged(targets);
    assert(value(opposite, w).rows == rows && value(opposite, w).cols == cols);
    lemma_entropy_is_mean(logits, targets, w);
    lemma_entropy_is_mean(opposite, other, w);
    let plain = |i: int|
        total(cols, |j: int| cross_entropy(w, entry(logits, w, i, j), entry(targets, w, i, j)));
    let flipped = |i: int|
        total(cols, |j: int| cross_entropy(w, entry(opposite, w, i, j), entry(other, w, i, j)));
    assert forall|i: int| 0 <= i < rows implies #[trigger] flipped(i) == plain(i) by {
        let row = |j: int| cross_entropy(w, entry(logits, w, i, j), entry(targets, w, i, j));
        let back = |j: int| cross_entropy(w, entry(opposite, w, i, j), entry(other, w, i, j));
        assert forall|j: int| 0 <= j < cols implies #[trigger] back(j) == row(j) by {
            let l = entry(logits, w, i, j);
            let t = entry(targets, w, i, j);
            assert(entry(opposite, w, i, j) == -l);
            assert(entry(other, w, i, j) == 1real - t);
            lemma_cross_entropy_flipped(w, l, t);
        }
        lemma_total_congruent(cols, back, row);
    }
    lemma_total_congruent(rows, flipped, plain);
}

/// The reconstruction loss is the mean binary cross entropy over all digits of the batch.
pub proof fn lemma_entropy_is_mean(logits: Expr, targets: Expr, w: World)
    requires
        w.functions.exp_laws(),
        w.functions.ln_laws(),
    ensures
        ({
            let rows = value(logits, w).rows;
            let cols = value(logits, w).cols;
            number(entropy_formula(logits, targets), w) == total(
                rows,
                |i: int|
                    total(
                        cols,
                        |j: int|
                            cross_entropy(w, entry(logits, w, i, j), entry(targets, w, i, j)),
                    ),
            ) / ((rows * cols) as real)
        }),
{
    let rows = value(logits, w).rows;
    let cols = value(logits, w).cols;
    let stable = stable_entropy(logits, targets);
    let g = value(stable, w);
    let linear = minus(apply(Unary::Relu, logits), times(logits, targets));
    assert(value(apply(Unary::Relu, logits), w).rows == rows);
    assert(value(apply(Unary::Relu, logits), w).cols == cols);
    assert(value(linear, w).rows == rows && value(linear, w).cols == cols);
    assert(g.rows == rows && g.cols == cols);
    let actual = |i: int| total(cols, |j: int| (g.at)(i, j));
    let wanted = |i: int|
        total(cols, |j: int| cross_entropy(w, entry(logits, w, i, j), entry(targets, w, i, j)));
    assert forall|i: int| 0 <= i < rows implies #[trigger] actual(i) == wanted(i) by {
        let row = |j: int| (g.at)(i, j);
        let meant = |j: int| cross_entropy(w, entry(logits, w, i, j), entry(targets, w, i, j));
        assert forall|j: int| 0 <= j < cols implies #[trigger] row(j) == meant(j) by {
            lemma_stable_entropy(logits, targets, w, i, j);
        }
        lemma_total_congruent(cols, row, meant);
    }
    lemma_total_congruent(rows, actual, wanted);
    assert(number(entropy_formula(logits, targets), w) == total(rows, actual) / ((rows
        * cols) as real));
}

/// The dynamics loss is the mean of the squared differences, and no batch makes it negative.
pub proof fn lemma_mse_is_mean_square(pred: Expr, target: Expr, w: World)
    requires
        value(pred, w).rows > 0,
        value(pred, w).cols > 0,
    ensures
        ({
            let rows = value(pred, w).rows;
            let cols = value(pred, w).cols;
            &&& number(mse_formula(pred, target), w) == total(
                rows,
                |i: int|
                    total(
                        cols,
                        |j: int|
                            (entry(pred, w, i, j) - entry(target, w, i, j)) * (entry(pred, w, i, j)
                                - entry(target, w, i, j)),
                    ),
            ) / ((rows * cols) as real)
            &&& number(mse_formula(pred, target), w) >= 0real
        }),
{
    let rows = value(pred, w).rows;
    let cols = value(pred, w).cols;
    let diff = minus(pred, target);
    let g = value(apply(Unary::Sqr, diff), w);
    assert(value(diff, w).rows == rows && value(diff, w).cols == cols);
    assert(g.rows == rows && g.cols == cols);
    let actual = |i: int| total(cols, |j: int| (g.at)(i, j));
    let wanted = |i: int|
        total(
            cols,
            |j: int|
                (entry(pred, w, i, j) - entry(target, w, i, j)) * (entry(pred, w, i, j) - entry(
                    target,
                    w,
                    i,
                    j,
                )),
        );
    assert forall|i: int| 0 <= i < rows implies #[trigger] actual(i) == wanted(i) && actual(i)
        >= 0real by {
        let row = |j: int| (g.at)(i, j);
        let meant = |j: int|
            (entry(pred, w, i, j) - entry(target, w, i, j)) * (entry(pred, w, i, j) - entry(
                target,
                w,
                i,
                j,
            ));
        assert forall|j: int| 0 <= j < cols implies #[trigger] row(j) == meant(j) && row(j)
            >= 0real by {
            assert(entry(apply(Unary::Sqr, diff), w, i, j) == meant(j));
            lemma_square_sign(entry(pred, w, i, j) - entry(target, w, i, j));
        }
        lemma_total_congruent(cols, row, meant);
        lemma_total_nonnegative(cols, row);
    }
    lemma_total_congruent(rows, actual, wanted);
    lemma_total_nonnegative(rows, actual);
    assert(number(mse_formula(pred, target), w) == total(rows, actual) / ((rows * cols) as real));
    assert(rows * cols > 0) by (nonlinear_arith)
        requires
            rows > 0,
            cols > 0,
    ;
    lemma_quotient_sign(total(rows, actual), (rows * cols) as real);
}

/// The inner product of two rows.
pub open spec fn inner_product(z: Expr, w: World, i: int, j: int) -> real {
    total(value(z, w).cols, |k: int| entry(z, w, i, k) * entry(z, w, j, k))
}

/// The square of the inner product of two rows, where they differ.
pub open spec fn off_diagonal(z: Expr, w: World, i: int, j: int) -> real {
    if i == j {
        0real
    } else {
        inner_product(z, w, i, j) * inner_product(z, w, i, j)
    }
}

/// The sum of the squared inner products of all ordered pairs of different rows.
pub open spec fn off_diagonal_total(z: Expr, w: World, batch_size: nat) -> real {
    total(batch_size, |i: int| total(batch_size, |j: int| off_diagonal(z, w, i, j)))
}

/// The sum of the fourth powers of the lengths of all rows: what the diagonal of the inner
/// products contributes.
pub open spec fn diagonal_total(z: Expr, w: World, batch_size: nat) -> real {
    total(batch_size, |i: int| row_square(z, w, i) * row_square(z, w, i))
}

/// The repulsion loss of any rows: the squared inner products of all pairs of different rows, and
/// what the diagonal exceeds the batch size by, over the number of ordered pairs.
pub proof fn lemma_repulsion_value(z: Expr, w: World, batch_size: nat)
    requires
        value(z, w).rows == batch_size,
        2 <= batch_size,
        batch_size * (batch_size - 1) <= usize::MAX,
    ensures
        number(repulsion_formula(z, batch_size), w) == (off_diagonal_total(z, w, batch_size)
            + diagonal_total(z, w, batch_size) - batch_size as real) / ((batch_size * (batch_size
            - 1)) as real),
{
    let b = batch_size;
    let flipped = Expr::Transpose(Rc::new(z));
    let product = gram(z);
    let squared = apply(Unary::Sqr, product);
    let g = value(squared, w);
    assert(value(flipped, w).cols == b);
    assert(value(product, w).rows == b && value(product, w).cols == b);
    assert(g.rows == b && g.cols == b);
    let actual = |i: int| total(b, |j: int| (g.at)(i, j));
    let apart = |i: int| total(b, |j: int| off_diagonal(z, w, i, j));
    let diagonal = |i: int| row_square(z, w, i) * row_square(z, w, i);
    assert forall|i: int| 0 <= i < b implies #[trigger] actual(i) == apart(i) + diagonal(i) by {
        let row = |j: int| (g.at)(i, j);
        let rest = |j: int| off_diagonal(z, w, i, j);
        assert forall|j: int| 0 <= j < b implies #[trigger] row(j) == inner_product(z, w, i, j)
            * inner_product(z, w, i, j) by {
            let made = |k: int| (value(z, w).at)(i, k) * (value(flipped, w).at)(k, j);
            let meant = |k: int| entry(z, w, i, k) * entry(z, w, j, k);
            assert forall|k: int| 0 <= k < value(z, w).cols implies #[trigger] made(k) == meant(
                k,
            ) by {}
            lemma_total_congruent(value(z, w).cols, made, meant);
            assert(entry(product, w, i, j) == total(value(z, w).cols, made));
            assert(entry(squared, w, i, j) == entry(product, w, i, j) * entry(product, w, i, j));
        }
        lemma_total_apart(b, row, i, rest);
        assert(inner_product(z, w, i, i) == row_square(z, w, i));
    }
    lemma_total_added(b, apart, diagonal, actual);
    assert(number(Expr::SumAll(Rc::new(squared)), w) == total(b, actual));
    assert(b <= usize::MAX) by (nonlinear_arith)
        requires
            2 <= b,
            b * (b - 1) <= usize::MAX,
    ;
    assert(number(Expr::Count(b as usize), w) == b as real);
    let pairs = b * (b - 1);
    assert(pairs >= 0) by (nonlinear_arith)
        requires
            2 <= b,
            pairs == b * (b - 1),
    ;
    assert(number(Expr::Count(pairs as usize), w) == pairs as real);
}

/// For rows of unit length the repulsion loss is the mean squared inner product over all ordered
/// pairs of different rows.
pub proof fn lemma_repulsion_is_mean(z: Expr, w: World, batch_size: nat)
    requires
        value(z, w).rows == batch_size,
        2 <= batch_size,
        batch_size * (batch_size - 1) <= usize::MAX,
        forall|i: int| 0 <= i < batch_size ==> #[trigger] row_square(z, w, i) == 1real,
    ensures
        number(repulsion_formula(z, batch_size), w) == off_diagonal_total(z, w, batch_size) / ((
        batch_size * (batch_size - 1)) as real),
{
    lemma_repulsion_value(z, w, batch_size);
    let squares = |i: int| row_square(z, w, i) * row_square(z, w, i);
    assert forall|i: int| 0 <= i < batch_size implies #[trigger] squares(i) == 1real by {
        assert(row_square(z, w, i) == 1real);
        assert(1real * 1real == 1real);
    }
    lemma_total_of_ones(batch_size, squares);
}

/// The repulsion loss of the model's own latent points is at most their mean squared inner product
/// over all ordered pairs: the points lie inside the unit circle, so the diagonal stays below the
/// batch size.
pub proof fn lemma_repulsion_of_latent_points(x: Expr, w: World, batch_size: nat)
    requires
        value(x, w).rows == batch_size,
        2 <= batch_size,
        batch_size * (batch_size - 1) <= usize::MAX,
        w.functions.sqrt_laws(),
    ensures
        ({
            let z = encoder_formula(encoder_layers(), x);
            let pairs = (batch_size * (batch_size - 1)) as real;
            &&& number(repulsion_formula(z, batch_size), w) == (off_diagonal_total(z, w, batch_size)
                + diagonal_total(z, w, batch_size) - batch_size as real) / pairs
            &&& 0real <= diagonal_total(z, w, batch_size) <= batch_size as real
            &&& number(repulsion_formula(z, batch_size), w) <= off_diagonal_total(
                z,
                w,
                batch_size,
            ) / pairs
        }),
{
    let z = encoder_formula(encoder_layers(), x);
    let squares = |i: int| row_square(z, w, i) * row_square(z, w, i);
    let gaps = |i: int| 1real - squares(i);
    let ones = |i: int| 1real;
    lemma_latent_rows(x, w);
    lemma_repulsion_value(z, w, batch_size);
    assert forall|i: int| 0 <= i < batch_size implies 0real <= #[trigger] squares(i) <= 1real by {
        let r = row_square(z, w, i);
        lemma_latent_inside(x, w, i);
        lemma_nonnegative_product(r, r);
        lemma_nonnegative_product(r, 1real - r);
        lemma_distribute(r, 1real, r);
    }
    assert forall|i: int| 0 <= i < batch_size implies #[trigger] gaps(i) >= 0real by {
        assert(squares(i) <= 1real);
    }
    lemma_total_nonnegative(batch_size, squares);
    lemma_total_nonnegative(batch_size, gaps);
    lemma_total_added(batch_size, squares, gaps, ones);
    lemma_total_of_ones(batch_size, ones);
    assert(batch_size * (batch_size - 1) > 0) by (nonlinear_arith)
        requires
            2 <= batch_size,
    ;
    lemma_quotient_order(
        off_diagonal_total(z, w, batch_size) + diagonal_total(z, w, batch_size)
            - batch_size as real,
        off_diagonal_total(z, w, batch_size),
        (batch_size * (batch_size - 1)) as real,
    );
}

/// A batch without pairs is not penalised.
pub proof fn lemma_repulsion_of_single(z: Expr, w: World, batch_size: nat)
    requires
        batch_size <= 1,
    ensures
        number(repulsion_formula(z, batch_size), w) == 0real,
{
    lemma_constants();
}

/// The total loss is the weighted sum of its parts, and the reconstruction part is the mean over
/// the two ends of the transitions.
pub proof fn lemma_loss_parts(
    model: CollatzHackerModel,
    x_t: Expr,
    x_next: Expr,
    dynamic: Expr,
    repulsion: Expr,
    alpha: Decimal,
    beta: Decimal,
    w: World,
)
    ensures
        ({
            let recon = reconstruction_formula(model, x_t, x_next);
            let recon_t = decoder_formula(model.decoder, encoder_formula(model.encoder, x_t));
            let recon_next = decoder_formula(model.decoder, encoder_formula(model.encoder, x_next));
            &&& number(weighted_sum(recon, dynamic, repulsion, alpha, beta), w) == number(recon, w)
                + number(dynamic, w) * decimal_value(alpha) + number(repulsion, w) * decimal_value(
                beta,
            )
            &&& number(recon, w) * 2real == number(entropy_formula(recon_t, x_t), w) + number(
                entropy_formula(recon_next, x_next),
                w,
            )
        }),
{
    lemma_constants();
    let recon_t = decoder_formula(model.decoder, encoder_formula(model.encoder, x_t));
    let recon_next = decoder_formula(model.decoder, encoder_formula(model.encoder, x_next));
    let both = number(entropy_formula(recon_t, x_t), w) + number(
        entropy_formula(recon_next, x_next),
        w,
    );
    lemma_associate(both, decimal_value(decimal(5, 1)), 2real);
    assert(both * 1real == both);
    assert(number(Expr::Const(alpha), w) == decimal_value(alpha));
    assert(number(Expr::Const(beta), w) == decimal_value(beta));
}

/// The decoder gives one row of 64 logits for every row of digits.
proof fn lemma_logit_rows(x: Expr, w: World)
    requires
        value(x, w).rows > 0,
    ensures
        ({
            let z = encoder_formula(encoder_layers(), x);
            let logits = decoder_formula(decoder_layers(), z);
            value(logits, w).rows == value(x, w).rows && value(logits, w).cols == 64
        }),
{
    let d = decoder_layers();
    let z = encoder_formula(encoder_layers(), x);
    lemma_latent_rows(x, w);
    lemma_stacked_rows(d.linear1, d.linear2, d.linear3, z, w);
}

/// The reconstruction part of the loss is not negative for batches of digits.
pub proof fn lemma_reconstruction_nonnegative(
    model: CollatzHackerModel,
    x_t: Expr,
    x_next: Expr,
    w: World,
)
    requires
        model.encoder == encoder_layers(),
        model.decoder == decoder_layers(),
        value(x_t, w).rows > 0,
        value(x_next, w).rows > 0,
        forall|i: int, j: int|
            0 <= i < value(x_t, w).rows && 0 <= j < 64 ==> #[trigger] entry(x_t, w, i, j) == 0real
                || entry(x_t, w, i, j) == 1real,
        forall|i: int, j: int|
            0 <= i < value(x_next, w).rows && 0 <= j < 64 ==> #[trigger] entry(x_next, w, i, j)
                == 0real || entry(x_next, w, i, j) == 1real,
        w.functions.exp_laws(),
        w.functions.ln_laws(),
    ensures
        number(reconstruction_formula(model, x_t, x_next), w) >= 0real,
{
    let recon_t = decoder_formula(model.decoder, encoder_formula(model.encoder, x_t));
    let recon_next = decoder_formula(model.decoder, encoder_formula(model.encoder, x_next));
    let zero = decimal(0, 0);
    lemma_logit_rows(x_t, w);
    lemma_logit_rows(x_next, w);
    lemma_entropy_nonnegative(recon_t, x_t, w);
    lemma_entropy_nonnegative(recon_next, x_next, w);
    lemma_loss_parts(model, x_t, x_next, x_t, x_next, zero, zero, w);
}

/// The entry of a layer without its bias: the inner product of a row of weights with a vector.
pub open spec fn weighed(l: Linear, w: World, i: int, x: spec_fn(int) -> real) -> real {
    total(l.inputs as nat, |k: int| (w.weight)(l, i, k) * x(k))
}

/// The effective weights applied to a row of digits give what the three layers of the encoder give
/// without biases and rectifiers.
pub proof fn lemma_effective_weights(e: Encoder, w: World, x: spec_fn(int) -> real, i: int)
    requires
        e.linear3.inputs == e.linear2.outputs,
        e.linear2.inputs == e.linear1.outputs,
    ensures
        total(
            value(effective_formula(e), w).cols,
            |k: int| entry(effective_formula(e), w, i, k) * x(k),
        ) == weighed(
            e.linear3,
            w,
            i,
            |a: int| weighed(e.linear2, w, a, |b: int| weighed(e.linear1, w, b, x)),
        ),
{
    let w1 = Expr::Weight(e.linear1);
    let w2 = Expr::Weight(e.linear2);
    let w3 = Expr::Weight(e.linear3);
    let w3_w2 = Expr::MatMul(Rc::new(w3), Rc::new(w2));
    let all = effective_formula(e);
    let n1 = e.linear1.inputs as nat;
    let n2 = e.linear2.inputs as nat;
    let n3 = e.linear3.inputs as nat;
    let row32 = |b: int| entry(w3_w2, w, i, b);
    let m1 = |b: int, k: int| (w.weight)(e.linear1, b, k);
    let m2 = |a: int, b: int| (w.weight)(e.linear2, a, b);
    let row3 = |a: int| (w.weight)(e.linear3, i, a);
    let y = |b: int| weighed(e.linear1, w, b, x);
    assert(value(w1, w).cols == n1);
    assert(value(w2, w).cols == n2);
    assert(value(w3, w).cols == n3);
    assert(value(w3_w2, w).cols == n2);
    assert(value(all, w).cols == n1);

    // All three matrices on x: first split off the last one.
    let applied = |k: int| entry(all, w, i, k) * x(k);
    let split = |k: int| total(n2, |b: int| row32(b) * m1(b, k)) * x(k);
    assert forall|k: int| 0 <= k < n1 implies #[trigger] applied(k) == split(k) by {
        let made = |b: int| (value(w3_w2, w).at)(i, b) * (value(w1, w).at)(b, k);
        let meant = |b: int| row32(b) * m1(b, k);
        assert forall|b: int| 0 <= b < n2 implies #[trigger] made(b) == meant(b) by {}
        lemma_total_congruent(n2, made, meant);
        assert(entry(all, w, i, k) == total(n2, made));
    }
    lemma_total_congruent(n1, applied, split);
    lemma_product_applied(n2, n1, row32, m1, x);
    let inner = |b: int| row32(b) * total(n1, |k: int| m1(b, k) * x(k));
    let inner_y = |b: int| row32(b) * y(b);
    assert forall|b: int| 0 <= b < n2 implies #[trigger] inner(b) == inner_y(b) by {
        lemma_total_congruent(
            n1,
            |k: int| m1(b, k) * x(k),
            |k: int| (w.weight)(e.linear1, b, k) * x(k),
        );
    }
    lemma_total_congruent(n2, inner, inner_y);

    // Then the second one.
    let split2 = |b: int| total(n3, |a: int| row3(a) * m2(a, b)) * y(b);
    assert forall|b: int| 0 <= b < n2 implies #[trigger] inner_y(b) == split2(b) by {
        let made = |a: int| (value(w3, w).at)(i, a) * (value(w2, w).at)(a, b);
        let meant = |a: int| row3(a) * m2(a, b);
        assert forall|a: int| 0 <= a < n3 implies #[trigger] made(a) == meant(a) by {}
        lemma_total_congruent(n3, made, meant);
        assert(entry(w3_w2, w, i, b) == total(n3, made));
    }
    lemma_total_congruent(n2, inner_y, split2);
    lemma_product_applied(n3, n2, row3, m2, y);
    let z = |a: int| weighed(e.linear2, w, a, y);
    let outer = |a: int| row3(a) * total(n2, |b: int| m2(a, b) * y(b));
    let outer_z = |a: int| (w.weight)(e.linear3, i, a) * z(a);
    assert forall|a: int| 0 <= a < n3 implies #[trigger] outer(a) == outer_z(a) by {
        lemma_total_congruent(
            n2,
            |b: int| m2(a, b) * y(b),
            |b: int| (w.weight)(e.linear2, a, b) * y(b),
        );
    }
    lemma_total_congruent(n3, outer, outer_z);
}

} // verus!
