//! Facts about real arithmetic that the proofs on formulas use.

use vstd::prelude::*;

verus! {

pub proof fn lemma_commute(a: real, b: real)
    ensures
        a * b == b * a,
{
    assert(a * b == b * a) by (nonlinear_arith);
}

pub proof fn lemma_associate(a: real, b: real, c: real)
    ensures
        (a * b) * c == a * (b * c),
{
    assert((a * b) * c == a * (b * c)) by (nonlinear_arith);
}

pub proof fn lemma_distribute(a: real, b: real, c: real)
    ensures
        a * (b + c) == a * b + a * c,
        (b + c) * a == b * a + c * a,
        a * (b - c) == a * b - a * c,
        (b - c) * a == b * a - c * a,
{
    assert(a * (b + c) == a * b + a * c) by (nonlinear_arith);
    assert((b + c) * a == b * a + c * a) by (nonlinear_arith);
    assert(a * (b - c) == a * b - a * c) by (nonlinear_arith);
    assert((b - c) * a == b * a - c * a) by (nonlinear_arith);
}

pub proof fn lemma_negate(a: real, b: real)
    ensures
        (-a) * b == -(a * b),
        a * (-b) == -(a * b),
{
    assert((-a) * b == -(a * b)) by (nonlinear_arith);
    assert(a * (-b) == -(a * b)) by (nonlinear_arith);
}

pub proof fn lemma_positive_product(a: real, b: real)
    requires
        a > 0real,
        b > 0real,
    ensures
        a * b > 0real,
{
    assert(a * b > 0real) by (nonlinear_arith)
        requires
            a > 0real,
            b > 0real,
    ;
}

pub proof fn lemma_nonnegative_product(a: real, b: real)
    requires
        a >= 0real,
        b >= 0real,
    ensures
        a * b >= 0real,
{
    assert(a * b >= 0real) by (nonlinear_arith)
        requires
            a >= 0real,
            b >= 0real,
    ;
}

pub proof fn lemma_square_sign(a: real)
    ensures
        a * a >= 0real,
        a != 0real ==> a * a > 0real,
{
    if a > 0real {
        lemma_positive_product(a, a);
    } else if a < 0real {
        lemma_positive_product(-a, -a);
        lemma_negate(a, -a);
        lemma_negate(a, a);
    } else {
        assert(0real * 0real == 0real) by (nonlinear_arith);
    }
}

pub proof fn lemma_divide(a: real, b: real)
    requires
        b != 0real,
    ensures
        (a / b) * b == a,
{
    assert((a / b) * b == a) by (nonlinear_arith)
        requires
            b != 0real,
    ;
}

/// A positive factor can be cancelled.
pub proof fn lemma_cancel(a: real, b: real, c: real)
    requires
        c > 0real,
        a * c == b * c,
    ensures
        a == b,
{
    lemma_distribute(c, a, b);
    if a > b {
        lemma_positive_product(a - b, c);
    } else if a < b {
        lemma_distribute(c, b, a);
        lemma_positive_product(b - a, c);
    }
}

/// The sign of a quotient with a positive denominator is that of the numerator.
pub proof fn lemma_quotient_sign(a: real, b: real)
    requires
        b > 0real,
    ensures
        a > 0real ==> a / b > 0real,
        a < 0real ==> a / b < 0real,
        a == 0real ==> a / b == 0real,
{
    let q = a / b;
    lemma_divide(a, b);
    if q > 0real {
        lemma_positive_product(q, b);
    } else if q < 0real {
        lemma_positive_product(-q, b);
        lemma_negate(q, b);
    } else {
        assert(0real * b == 0real) by (nonlinear_arith);
    }
}

/// The factors of two products can be paired anew.
pub proof fn lemma_product_exchange(a: real, b: real, c: real, d: real)
    ensures
        (a * b) * (c * d) == (a * c) * (b * d),
{
    lemma_associate(a, b, c * d);
    lemma_associate(b, c, d);
    lemma_commute(b, c);
    lemma_associate(c, b, d);
    lemma_associate(a, c, b * d);
}

pub proof fn lemma_square_of_product(a: real, b: real)
    ensures
        (a * b) * (a * b) == (a * a) * (b * b),
{
    lemma_associate(a, b, a * b);
    lemma_commute(b, a * b);
    lemma_associate(a, b, b);
    lemma_associate(a, a, b * b);
}

pub proof fn lemma_square_of_sum(a: real, b: real)
    ensures
        (a + b) * (a + b) == a * a + 2real * (a * b) + b * b,
        (a - b) * (a - b) == a * a - 2real * (a * b) + b * b,
{
    lemma_distribute(a + b, a, b);
    lemma_distribute(a, a, b);
    lemma_distribute(b, a, b);
    lemma_distribute(a - b, a, b);
    lemma_commute(a, b);
}

/// Quotients with one positive denominator are ordered as their numerators are.
pub proof fn lemma_quotient_order(a: real, b: real, c: real)
    requires
        c > 0real,
        a <= b,
    ensures
        a / c <= b / c,
{
    lemma_divide(a, c);
    lemma_divide(b, c);
    if a / c > b / c {
        lemma_positive_product(a / c - b / c, c);
        lemma_distribute(c, a / c, b / c);
    }
}

/// A turn of the plane keeps the sum of squares.
pub proof fn lemma_turn_keeps_length(x: real, y: real, c: real, s: real)
    requires
        c * c + s * s == 1real,
    ensures
        (x * c + y * s) * (x * c + y * s) + ((-x) * s + y * c) * ((-x) * s + y * c) == x * x + y
            * y,
{
    lemma_square_of_sum(x * c, y * s);
    lemma_negate(x, s);
    lemma_square_of_sum(y * c, x * s);
    lemma_square_of_product(x, c);
    lemma_square_of_product(y, s);
    lemma_square_of_product(x, s);
    lemma_square_of_product(y, c);
    // The mixed terms are the same product in two orders.
    lemma_associate(x, c, y * s);
    lemma_associate(y, c, x * s);
    lemma_associate(c, y, s);
    lemma_associate(c, x, s);
    lemma_commute(c, y);
    lemma_commute(c, x);
    lemma_associate(y, c, s);
    lemma_associate(x, c, s);
    lemma_associate(x, y, c * s);
    lemma_associate(y, x, c * s);
    lemma_commute(x, y);
    lemma_distribute(x * x, c * c, s * s);
    lemma_distribute(y * y, c * c, s * s);
    assert((x * x) * 1real == x * x);
    assert((y * y) * 1real == y * y);
}

/// A turn of the plane keeps inner products.
pub proof fn lemma_turn_keeps_inner(x: real, y: real, u: real, v: real, c: real, s: real)
    requires
        c * c + s * s == 1real,
    ensures
        (x * c + y * s) * (u * c + v * s) + ((-x) * s + y * c) * ((-u) * s + v * c) == x * u + y
            * v,
{
    let (x1, y1) = (x * c + y * s, (-x) * s + y * c);
    let (u1, v1) = (u * c + v * s, (-u) * s + v * c);
    lemma_distribute(c, x, u);
    lemma_distribute(s, y, v);
    lemma_distribute(s, -x, -u);
    lemma_distribute(c, y, v);
    assert(-(x + u) == -x + -u);
    assert((x + u) * c + (y + v) * s == x1 + u1);
    assert((-(x + u)) * s + (y + v) * c == y1 + v1);
    // The lengths of the two points and of their sum are kept.
    lemma_turn_keeps_length(x, y, c, s);
    lemma_turn_keeps_length(u, v, c, s);
    lemma_turn_keeps_length(x + u, y + v, c, s);
    lemma_square_of_sum(x1, u1);
    lemma_square_of_sum(y1, v1);
    lemma_square_of_sum(x, u);
    lemma_square_of_sum(y, v);
}

/// A point and its turned image enclose the angle of the turn, which runs clockwise.
pub proof fn lemma_turn_direction(x: real, y: real, c: real, s: real)
    ensures
        ({
            let x1 = x * c + y * s;
            let y1 = (-x) * s + y * c;
            &&& x * x1 + y * y1 == (x * x + y * y) * c
            &&& x * y1 - y * x1 == -((x * x + y * y) * s)
        }),
{
    lemma_distribute(x, x * c, y * s);
    lemma_distribute(y, (-x) * s, y * c);
    lemma_distribute(x, (-x) * s, y * c);
    lemma_distribute(y, x * c, y * s);
    lemma_negate(x, s);
    lemma_negate(x, x * s);
    lemma_negate(y, x * s);
    lemma_associate(x, x, c);
    lemma_associate(x, y, s);
    lemma_associate(y, x, s);
    lemma_associate(y, y, c);
    lemma_associate(x, x, s);
    lemma_associate(x, y, c);
    lemma_associate(y, x, c);
    lemma_associate(y, y, s);
    lemma_commute(x, y);
    lemma_distribute(c, x * x, y * y);
    lemma_distribute(s, x * x, y * y);
}

/// Of two points of the unit circle with a positive first and a negative second coordinate, the
/// one that lies counterclockwise of the other is the greater one in both coordinates.
pub proof fn lemma_arc_order(u: real, v: real, s: real, t: real)
    requires
        u > 0real && s > 0real,
        v < 0real && t < 0real,
        u * u + v * v == 1real,
        s * s + t * t == 1real,
        u * t - v * s > 0real,
    ensures
        u < s,
        v < t,
{
    lemma_square_order(u, s);
    lemma_square_order(-t, -v);
    lemma_negate(v, -v);
    lemma_negate(v, v);
    lemma_negate(t, -t);
    lemma_negate(t, t);
    if u >= s || v >= t {
        assert(u >= s && v >= t);
        lemma_nonnegative_product(u - s, -t);
        lemma_negate(u - s, t);
        lemma_distribute(t, u, s);
        lemma_nonnegative_product(s, v - t);
        lemma_distribute(s, v, t);
        lemma_commute(s, v);
    }
}

/// Positive numbers are ordered as their squares are.
pub proof fn lemma_square_order(a: real, b: real)
    requires
        a > 0real,
        b > 0real,
    ensures
        a < b <==> a * a < b * b,
{
    lemma_distribute(a + b, b, a);
    lemma_distribute(b, a, b);
    lemma_distribute(a, a, b);
    lemma_commute(a, b);
    if a < b {
        lemma_positive_product(a + b, b - a);
    } else {
        lemma_nonnegative_product(a + b, a - b);
        lemma_distribute(a + b, a, b);
    }
}

/// A number that a positive factor keeps below a bound lies below the quotient.
pub proof fn lemma_below_quotient(a: real, b: real, c: real)
    requires
        c > 0real,
        a * c <= b,
    ensures
        a <= b / c,
{
    lemma_divide(b, c);
    if a > b / c {
        lemma_positive_product(a - b / c, c);
        lemma_distribute(c, a, b / c);
    }
}

/// Two turns of the plane, one after the other, have the coefficients of their sum.
pub proof fn lemma_turns_compose(x: real, y: real, ca: real, sa: real, cb: real, sb: real)
    ensures
        ({
            let x1 = x * ca + y * sa;
            let y1 = (-x) * sa + y * ca;
            let c = ca * cb - sa * sb;
            let s = sa * cb + ca * sb;
            &&& x1 * cb + y1 * sb == x * c + y * s
            &&& (-x1) * sb + y1 * cb == (-x) * s + y * c
        }),
{
    let x1 = x * ca + y * sa;
    let y1 = (-x) * sa + y * ca;
    lemma_distribute(cb, x * ca, y * sa);
    lemma_distribute(sb, x * ca, y * sa);
    lemma_distribute(cb, (-x) * sa, y * ca);
    lemma_distribute(sb, (-x) * sa, y * ca);
    lemma_negate(x1, sb);
    lemma_associate(x, ca, cb);
    lemma_associate(x, ca, sb);
    lemma_associate(y, sa, cb);
    lemma_associate(y, sa, sb);
    lemma_associate(-x, sa, cb);
    lemma_associate(-x, sa, sb);
    lemma_associate(y, ca, cb);
    lemma_associate(y, ca, sb);
    lemma_negate(x, sa * cb);
    lemma_negate(x, sa * sb);
    lemma_negate(x, sa * cb + ca * sb);
    lemma_distribute(x, ca * cb, sa * sb);
    lemma_distribute(x, sa * cb, ca * sb);
    lemma_distribute(y, ca * cb, sa * sb);
    lemma_distribute(y, sa * cb, ca * sb);
}

/// Dividing two coordinates by their length puts them on the unit circle.
pub proof fn lemma_unit_length(a: real, b: real, len: real)
    requires
        len > 0real,
        len * len == a * a + b * b,
    ensures
        (a / len) * (a / len) + (b / len) * (b / len) == 1real,
{
    let p = a / len;
    let q = b / len;
    lemma_divide(a, len);
    lemma_divide(b, len);
    lemma_square_of_product(p, len);
    lemma_square_of_product(q, len);
    lemma_distribute(len * len, p * p, q * q);
    lemma_positive_product(len, len);
    assert(1real * (len * len) == len * len);
    lemma_cancel(p * p + q * q, 1real, len * len);
}

} // verus!
