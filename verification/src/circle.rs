//! The geometry of the chip: where numbers sit on the unit circle, and what a turn does to them.

use crate::bits::{lemma_twos_bound, lemma_twos_unique, twos};
use crate::chip::{
    distance, encoded, length, lowered, raised, raw_direction, rotated, trailing_ones,
    CollatzVirtualChip,
};
use crate::expr::{constant, decimal, Angle, Expr, Point};
use crate::reals::{
    lemma_arc_order, lemma_associate, lemma_commute, lemma_distribute, lemma_divide, lemma_negate,
    lemma_nonnegative_product, lemma_positive_product, lemma_product_exchange, lemma_quotient_sign,
    lemma_square_of_sum, lemma_square_order, lemma_square_sign, lemma_turn_direction,
    lemma_turn_keeps_inner, lemma_turn_keeps_length, lemma_turns_compose, lemma_unit_length,
};
use crate::semantics::{decimal_value, number, power_of_ten, World};
use vstd::arithmetic::power2::{lemma2_to64, pow2};
use vstd::prelude::*;

verus! {

broadcast use crate::semantics::group_entries;

/// The horizontal coordinate of a point in exact arithmetic.
pub open spec fn across(p: Point, w: World) -> real {
    number(*p.x, w)
}

/// The vertical coordinate of a point in exact arithmetic.
pub open spec fn upward(p: Point, w: World) -> real {
    number(*p.y, w)
}

/// The square of the distance from the origin.
pub open spec fn norm_squared(p: Point, w: World) -> real {
    across(p, w) * across(p, w) + upward(p, w) * upward(p, w)
}

/// The inner product of two points.
pub open spec fn inner(p: Point, q: Point, w: World) -> real {
    across(p, w) * across(q, w) + upward(p, w) * upward(q, w)
}

/// How far `q` lies to the left of the ray from the origin through `p`, times the length of `p`.
pub open spec fn leftward(p: Point, q: Point, w: World) -> real {
    across(p, w) * upward(q, w) - upward(p, w) * across(q, w)
}

/// The exact value of a drifting coordinate, in hundredths.
proof fn lemma_drift(base: int, count: nat, w: World)
    requires
        -100 <= base <= 100,
        count <= 64,
    ensures
        number(raised(base, count), w) * 100real == (base + count) as real,
        number(lowered(base, count), w) * 100real == (base - count) as real,
{
    reveal_with_fuel(power_of_ten, 3);
    assert(power_of_ten(2) == 100real);
    let b = decimal_value(decimal(base, 2));
    let u = decimal_value(decimal(1, 2));
    let c = count as real;
    assert(b == (base as real) / 100real);
    assert(u == 1real / 100real);
    assert(number(Expr::Count(count as usize), w) == c);
    assert(number(raised(base, count), w) == b + u * c);
    assert(number(lowered(base, count), w) == b - u * c);
    lemma_commute(u, c);
    lemma_associate(c, u, 100real);
    assert(c * 1real == c);
}

/// The direction of a positive number, in hundredths. Each trailing one of an odd number moves it
/// by one hundredth to the right and up; each trailing zero of an even number moves it by one
/// hundredth to the left and down.
pub proof fn lemma_raw_coordinates(num: u64, w: World)
    requires
        num > 0,
    ensures
        num % 2 == 1 ==> across(raw_direction(num), w) * 100real == (45 + trailing_ones(
            num,
        )) as real && upward(raw_direction(num), w) * 100real == (-85 + trailing_ones(num)) as real,
        num % 2 == 0 ==> across(raw_direction(num), w) * 100real == (-55 - twos(num as nat)) as real
            && upward(raw_direction(num), w) * 100real == (80 - twos(num as nat)) as real,
        num % 2 == 1 ==> trailing_ones(num) <= 64,
        num % 2 == 0 ==> twos(num as nat) <= 64,
{
    lemma2_to64();
    if num % 2 == 1 {
        lemma_twos_bound((num + 1) as nat, 64);
        lemma_drift(45, trailing_ones(num), w);
        lemma_drift(-85, trailing_ones(num), w);
    } else {
        lemma_twos_bound(num as nat, 64);
        lemma_drift(-55, twos(num as nat), w);
        lemma_drift(80, twos(num as nat), w);
    }
}

/// The signs of the raw coordinates of a positive number.
proof fn lemma_raw_signs(num: u64, w: World)
    requires
        num > 0,
    ensures
        num % 2 == 1 ==> across(raw_direction(num), w) > 0real && upward(raw_direction(num), w)
            < 0real,
        num % 2 == 0 ==> across(raw_direction(num), w) < 0real && upward(raw_direction(num), w)
            > 0real,
{
    lemma_raw_coordinates(num, w);
}

/// The direction of a positive number never has length zero, so it can be normalised.
pub proof fn lemma_length_positive(num: u64, w: World)
    requires
        num > 0,
        w.functions.sqrt_laws(),
    ensures
        number(length(raw_direction(num)), w) > 0real,
        number(length(raw_direction(num)), w) * number(length(raw_direction(num)), w)
            == norm_squared(raw_direction(num), w),
{
    let p = raw_direction(num);
    lemma_raw_signs(num, w);
    lemma_square_sign(across(p, w));
    lemma_square_sign(upward(p, w));
    let squared = norm_squared(p, w);
    let root = (w.functions.sqrt)(squared);
    assert(root >= 0real && root * root == squared);
    lemma_square_sign(root);
}

/// Every positive number is mapped onto the unit circle.
pub proof fn lemma_encoded_on_circle(num: u64, w: World)
    requires
        num > 0,
        w.functions.sqrt_laws(),
    ensures
        norm_squared(encoded(num), w) == 1real,
{
    let p = raw_direction(num);
    lemma_length_positive(num, w);
    lemma_unit_length(across(p, w), upward(p, w), number(length(p), w));
}

/// Odd numbers lie in the south-east, positive even numbers in the north-west, zero at the origin.
pub proof fn lemma_encoded_hemisphere(num: u64, w: World)
    requires
        w.functions.sqrt_laws(),
    ensures
        num % 2 == 1 ==> across(encoded(num), w) > 0real && upward(encoded(num), w) < 0real,
        num % 2 == 0 && num > 0 ==> across(encoded(num), w) < 0real && upward(encoded(num), w)
            > 0real,
        num == 0 ==> across(encoded(num), w) == 0real && upward(encoded(num), w) == 0real,
{
    if num > 0 {
        let p = raw_direction(num);
        lemma_raw_signs(num, w);
        lemma_length_positive(num, w);
        lemma_quotient_sign(across(p, w), number(length(p), w));
        lemma_quotient_sign(upward(p, w), number(length(p), w));
    }
}

/// The place of a number in exact arithmetic. An odd number whose successor is an odd multiple of
/// `2^k` lies in the direction `(0.45 + 0.01 k, -0.85 + 0.01 k)`, a positive even number that is
/// an odd multiple of `2^k` in the direction `(-0.55 - 0.01 k, 0.80 - 0.01 k)`; both are divided
/// by their length. Zero lies at the origin.
pub proof fn lemma_encoded_value(num: u64, k: nat, w: World)
    requires
        num % 2 == 1 ==> (num + 1) as nat % pow2(k) == 0 && ((num + 1) as nat / pow2(k)) % 2 == 1,
        num % 2 == 0 && num > 0 ==> num as nat % pow2(k) == 0 && (num as nat / pow2(k)) % 2 == 1,
    ensures
        num % 2 == 1 ==> ({
            let (x, y) = ((45 + k) as real / 100real, (-85 + k) as real / 100real);
            &&& across(encoded(num), w) == x / (w.functions.sqrt)(x * x + y * y)
            &&& upward(encoded(num), w) == y / (w.functions.sqrt)(x * x + y * y)
        }),
        num % 2 == 0 && num > 0 ==> ({
            let (x, y) = ((-55 - k) as real / 100real, (80 - k) as real / 100real);
            &&& across(encoded(num), w) == x / (w.functions.sqrt)(x * x + y * y)
            &&& upward(encoded(num), w) == y / (w.functions.sqrt)(x * x + y * y)
        }),
        num == 0 ==> across(encoded(num), w) == 0real && upward(encoded(num), w) == 0real,
{
    if num == 0 {
        assert(power_of_ten(0) == 1real);
        assert(decimal_value(decimal(0, 0)) == 0real / 1real);
    } else {
        let p = raw_direction(num);
        lemma_raw_coordinates(num, w);
        if num % 2 == 1 {
            lemma_twos_unique((num + 1) as nat, k);
            lemma_divide((45 + k) as real, 100real);
            lemma_divide((-85 + k) as real, 100real);
        } else {
            lemma_twos_unique(num as nat, k);
            lemma_divide((-55 - k) as real, 100real);
            lemma_divide((80 - k) as real, 100real);
        }
        let (a, b) = (across(p, w), upward(p, w));
        assert(number(length(p), w) == (w.functions.sqrt)(a * a + b * b));
        assert(across(encoded(num), w) == a / number(length(p), w));
        assert(upward(encoded(num), w) == b / number(length(p), w));
    }
}

/// The coordinates of a turned point.
pub proof fn lemma_rotated_coordinates(p: Point, angle: Expr, w: World)
    ensures
        ({
            let (x, y) = (number(*p.x, w), number(*p.y, w));
            let c = (w.functions.cos)(number(angle, w));
            let s = (w.functions.sin)(number(angle, w));
            &&& number(*rotated(p, angle).x, w) == x * c + y * s
            &&& number(*rotated(p, angle).y, w) == y * c - x * s
        }),
{
    lemma_negate(across(p, w), (w.functions.sin)(number(angle, w)));
}

/// Numbers of one parity whose runs have one length share their place.
pub proof fn lemma_equal_runs(m: u64, n: u64)
    requires
        m > 0 && n > 0,
        m % 2 == n % 2,
        m % 2 == 1 ==> trailing_ones(m) == trailing_ones(n),
        m % 2 == 0 ==> twos(m as nat) == twos(n as nat),
    ensures
        encoded(m) == encoded(n),
{
}

/// Two directions in one quadrant, normalised: the one that lies to the left of the other is
/// further along the arc.
proof fn lemma_normalised_order(m: u64, n: u64, w: World)
    requires
        m > 0 && n > 0,
        m % 2 == n % 2,
        leftward(raw_direction(m), raw_direction(n), w) > 0real,
        w.functions.sqrt_laws(),
    ensures
        m % 2 == 1 ==> across(encoded(m), w) < across(encoded(n), w) && upward(encoded(m), w)
            < upward(encoded(n), w),
        m % 2 == 0 ==> across(encoded(m), w) > across(encoded(n), w) && upward(encoded(m), w)
            > upward(encoded(n), w),
{
    let (p, q) = (raw_direction(m), raw_direction(n));
    let (a, b) = (across(p, w), upward(p, w));
    let (c, d) = (across(q, w), upward(q, w));
    let (k, l) = (number(length(p), w), number(length(q), w));
    let (u, v) = (across(encoded(m), w), upward(encoded(m), w));
    let (s, t) = (across(encoded(n), w), upward(encoded(n), w));
    lemma_length_positive(m, w);
    lemma_length_positive(n, w);
    lemma_encoded_on_circle(m, w);
    lemma_encoded_on_circle(n, w);
    lemma_encoded_hemisphere(m, w);
    lemma_encoded_hemisphere(n, w);
    lemma_divide(a, k);
    lemma_divide(b, k);
    lemma_divide(c, l);
    lemma_divide(d, l);
    assert(a == u * k && b == v * k && c == s * l && d == t * l);
    lemma_product_exchange(u, k, t, l);
    lemma_product_exchange(v, k, s, l);
    lemma_distribute(k * l, u * t, v * s);
    lemma_positive_product(k, l);
    let turned = u * t - v * s;
    assert(turned * (k * l) > 0real);
    if turned <= 0real {
        lemma_nonnegative_product(-turned, k * l);
        lemma_negate(turned, k * l);
    }
    if m % 2 == 1 {
        lemma_arc_order(u, v, s, t);
    } else {
        lemma_negate(u, -u);
        lemma_negate(u, u);
        lemma_negate(v, -v);
        lemma_negate(v, v);
        lemma_negate(s, -s);
        lemma_negate(s, s);
        lemma_negate(t, -t);
        lemma_negate(t, t);
        lemma_negate(u, -t);
        lemma_negate(u, t);
        lemma_negate(v, -s);
        lemma_negate(v, s);
        lemma_arc_order(-u, -v, -s, -t);
    }
}

/// Numbers are ordered along the circle by the length of their run: more trailing ones move an odd
/// number further to the right and up, more trailing zeros a positive even number further to the
/// left and down.
pub proof fn lemma_longer_runs(m: u64, n: u64, w: World)
    requires
        m > 0 && n > 0,
        m % 2 == n % 2,
        w.functions.sqrt_laws(),
    ensures
        m % 2 == 1 && trailing_ones(m) < trailing_ones(n) ==> across(encoded(m), w) < across(
            encoded(n),
            w,
        ) && upward(encoded(m), w) < upward(encoded(n), w),
        m % 2 == 0 && twos(m as nat) < twos(n as nat) ==> across(encoded(m), w) > across(
            encoded(n),
            w,
        ) && upward(encoded(m), w) > upward(encoded(n), w),
{
    let (p, q) = (raw_direction(m), raw_direction(n));
    let (a, b) = (across(p, w), upward(p, w));
    let h = across(q, w) - a;
    lemma_raw_coordinates(m, w);
    lemma_raw_coordinates(n, w);
    assert(upward(q, w) == b + h);
    // The point moves along a diagonal.
    lemma_distribute(a, b, h);
    lemma_distribute(b, a, h);
    lemma_distribute(h, a, b);
    lemma_commute(a, b);
    lemma_commute(a, h);
    lemma_commute(b, h);
    assert(leftward(p, q, w) == h * (a - b));
    if m % 2 == 1 && trailing_ones(m) < trailing_ones(n) {
        lemma_positive_product(h, a - b);
        lemma_normalised_order(m, n, w);
    } else if m % 2 == 0 && twos(m as nat) < twos(n as nat) {
        lemma_positive_product(-h, b - a);
        lemma_negate(h, b - a);
        lemma_negate(h, a - b);
        assert(-(a - b) == b - a);
        lemma_normalised_order(m, n, w);
    }
}

/// A turn keeps the distance from the origin.
pub proof fn lemma_rotation_keeps_length(p: Point, angle: Expr, w: World)
    requires
        w.functions.circle_laws(),
    ensures
        norm_squared(rotated(p, angle), w) == norm_squared(p, w),
{
    let c = (w.functions.cos)(number(angle, w));
    let s = (w.functions.sin)(number(angle, w));
    lemma_turn_keeps_length(across(p, w), upward(p, w), c, s);
}

/// A turn keeps the inner product of two points.
pub proof fn lemma_rotation_keeps_inner(p: Point, q: Point, angle: Expr, w: World)
    requires
        w.functions.circle_laws(),
    ensures
        inner(rotated(p, angle), rotated(q, angle), w) == inner(p, q, w),
{
    let c = (w.functions.cos)(number(angle, w));
    let s = (w.functions.sin)(number(angle, w));
    lemma_turn_keeps_inner(across(p, w), upward(p, w), across(q, w), upward(q, w), c, s);
}

/// A turn keeps the distance between two points.
pub proof fn lemma_rotation_keeps_distance(p: Point, q: Point, angle: Expr, w: World)
    requires
        w.functions.circle_laws(),
    ensures
        number(distance(rotated(p, angle), rotated(q, angle)), w) == number(distance(p, q), w),
{
    let (p1, q1) = (rotated(p, angle), rotated(q, angle));
    lemma_rotation_keeps_length(p, angle, w);
    lemma_rotation_keeps_length(q, angle, w);
    lemma_rotation_keeps_inner(p, q, angle, w);
    lemma_square_of_sum(across(p, w), across(q, w));
    lemma_square_of_sum(upward(p, w), upward(q, w));
    lemma_square_of_sum(across(p1, w), across(q1, w));
    lemma_square_of_sum(upward(p1, w), upward(q1, w));
    let dx = across(p, w) - across(q, w);
    let dy = upward(p, w) - upward(q, w);
    let dx1 = across(p1, w) - across(q1, w);
    let dy1 = upward(p1, w) - upward(q1, w);
    assert(number(distance(p, q), w) == (w.functions.sqrt)(dx * dx + dy * dy));
    assert(number(distance(p1, q1), w) == (w.functions.sqrt)(dx1 * dx1 + dy1 * dy1));
    assert(dx * dx + dy * dy == dx1 * dx1 + dy1 * dy1);
}

/// A turn runs clockwise by its angle: the cosine of the angle is the inner product of a point of
/// unit length with its image, and the sine is what the image lies to the right of it.
pub proof fn lemma_rotation_direction(p: Point, angle: Expr, w: World)
    ensures
        inner(p, rotated(p, angle), w) == norm_squared(p, w) * (w.functions.cos)(number(angle, w)),
        leftward(p, rotated(p, angle), w) == -(norm_squared(p, w) * (w.functions.sin)(
            number(angle, w),
        )),
{
    let c = (w.functions.cos)(number(angle, w));
    let s = (w.functions.sin)(number(angle, w));
    lemma_turn_direction(across(p, w), upward(p, w), c, s);
}

/// The turns by multiples of 90 degrees, in radians.
pub proof fn lemma_right_angles(w: World)
    ensures
        number(Expr::Radians(Angle { tenths: 900 }), w) == w.functions.pi / 2real,
        number(Expr::Radians(Angle { tenths: 1800 }), w) == w.functions.pi,
        number(Expr::Radians(Angle { tenths: 3600 }), w) == w.functions.pi + w.functions.pi,
{
    let unit = w.functions.pi / 1800real;
    lemma_divide(w.functions.pi, 1800real);
    lemma_divide(w.functions.pi, 2real);
    assert(number(Expr::Radians(Angle { tenths: 900 }), w) == 900real * unit);
    assert(number(Expr::Radians(Angle { tenths: 1800 }), w) == 1800real * unit);
    assert(number(Expr::Radians(Angle { tenths: 3600 }), w) == 3600real * unit);
}

/// A turn by 90 degrees takes `(x, y)` to `(y, -x)`: east to south and north to east.
pub proof fn lemma_quarter_turn(p: Point, w: World)
    requires
        w.functions.quarter_laws(),
    ensures
        ({
            let turned = rotated(p, Expr::Radians(Angle { tenths: 900 }));
            &&& across(turned, w) == upward(p, w)
            &&& upward(turned, w) == -across(p, w)
            &&& across(p, w) == 1real && upward(p, w) == 0real ==> across(turned, w) == 0real
                && upward(turned, w) == -1real
            &&& across(p, w) == 0real && upward(p, w) == 1real ==> across(turned, w) == 1real
                && upward(turned, w) == 0real
        }),
{
    let quarter = Expr::Radians(Angle { tenths: 900 });
    let (x, y) = (across(p, w), upward(p, w));
    lemma_right_angles(w);
    assert(x * 0real == 0real && y * 0real == 0real);
    assert(y * 1real == y && (-x) * 1real == -x);
}

/// A turn by 180 degrees takes a point to its opposite.
pub proof fn lemma_half_turn(p: Point, w: World)
    requires
        w.functions.quarter_laws(),
        w.functions.addition_laws(),
    ensures
        across(rotated(p, Expr::Radians(Angle { tenths: 1800 })), w) == -across(p, w),
        upward(rotated(p, Expr::Radians(Angle { tenths: 1800 })), w) == -upward(p, w),
{
    let quarter = Expr::Radians(Angle { tenths: 900 });
    let half = Expr::Radians(Angle { tenths: 1800 });
    lemma_right_angles(w);
    lemma_rotations_add(p, quarter, quarter, half, w);
    lemma_quarter_turn(p, w);
    lemma_quarter_turn(rotated(p, quarter), w);
}

/// A turn by 360 degrees leaves a point where it is.
pub proof fn lemma_full_turn(p: Point, w: World)
    requires
        w.functions.quarter_laws(),
        w.functions.addition_laws(),
    ensures
        across(rotated(p, Expr::Radians(Angle { tenths: 3600 })), w) == across(p, w),
        upward(rotated(p, Expr::Radians(Angle { tenths: 3600 })), w) == upward(p, w),
{
    let half = Expr::Radians(Angle { tenths: 1800 });
    let full = Expr::Radians(Angle { tenths: 3600 });
    lemma_right_angles(w);
    lemma_rotations_add(p, half, half, full, w);
    lemma_half_turn(p, w);
    lemma_half_turn(rotated(p, half), w);
}

/// A turn by `a` and then one by `b` come to one turn by their sum.
pub proof fn lemma_rotations_add(p: Point, a: Expr, b: Expr, sum: Expr, w: World)
    requires
        number(sum, w) == number(a, w) + number(b, w),
        w.functions.addition_laws(),
    ensures
        across(rotated(rotated(p, a), b), w) == across(rotated(p, sum), w),
        upward(rotated(rotated(p, a), b), w) == upward(rotated(p, sum), w),
{
    let f = w.functions;
    let (x, y) = (number(a, w), number(b, w));
    assert(f.turn_of_sum(x, y));
    lemma_turns_compose(
        across(p, w),
        upward(p, w),
        (f.cos)(x),
        (f.sin)(x),
        (f.cos)(y),
        (f.sin)(y),
    );
}

/// A turn is undone by the opposite one.
pub proof fn lemma_rotation_undone(p: Point, a: Expr, back: Expr, w: World)
    requires
        number(back, w) == -number(a, w),
        w.functions.addition_laws(),
    ensures
        across(rotated(rotated(p, a), back), w) == across(p, w),
        upward(rotated(rotated(p, a), back), w) == upward(p, w),
{
    let still = constant(0, 0);
    assert(power_of_ten(0) == 1real);
    assert(decimal_value(decimal(0, 0)) == 0real / 1real);
    assert(number(still, w) == 0real);
    lemma_rotations_add(p, a, back, still, w);
    let (x, y) = (across(p, w), upward(p, w));
    assert(x * 1real == x && y * 1real == y);
    assert(x * 0real == 0real && y * 0real == 0real && (-x) * 0real == 0real);
}

/// The place that a chip in step predicts for its next number lies on the unit circle, as the
/// actual place does.
pub proof fn lemma_prediction_on_circle(chip: CollatzVirtualChip, w: World)
    requires
        chip.in_step(),
        chip.val > 0,
        w.functions.sqrt_laws(),
        w.functions.circle_laws(),
    ensures
        norm_squared(rotated(chip.latent, Expr::Radians(chip.theta)), w) == 1real,
{
    lemma_encoded_on_circle(chip.val, w);
    lemma_rotation_keeps_length(chip.latent, Expr::Radians(chip.theta), w);
}

/// The prediction error: the root of the sum of the squared differences of the coordinates.
pub proof fn lemma_distance_value(p: Point, q: Point, w: World)
    ensures
        ({
            let dx = number(*p.x, w) - number(*q.x, w);
            let dy = number(*p.y, w) - number(*q.y, w);
            number(distance(p, q), w) == (w.functions.sqrt)(dx * dx + dy * dy)
        }),
{
}

/// The prediction error is the Euclidean distance: not negative, and its square is the sum of the
/// squared differences of the coordinates.
pub proof fn lemma_error_is_distance(p: Point, q: Point, w: World)
    requires
        w.functions.sqrt_laws(),
    ensures
        ({
            let dx = across(p, w) - across(q, w);
            let dy = upward(p, w) - upward(q, w);
            let error = number(distance(p, q), w);
            &&& error >= 0real
            &&& error * error == dx * dx + dy * dy
            &&& error == 0real <==> dx == 0real && dy == 0real
        }),
{
    let dx = across(p, w) - across(q, w);
    let dy = upward(p, w) - upward(q, w);
    lemma_square_sign(dx);
    lemma_square_sign(dy);
    let error = (w.functions.sqrt)(dx * dx + dy * dy);
    assert(number(distance(p, q), w) == error);
    lemma_square_sign(error);
    assert(0real * 0real == 0real);
}

/// Two points of the unit circle are at most 2 apart: no prediction of a chip misses by more.
pub proof fn lemma_error_bounded(p: Point, q: Point, w: World)
    requires
        norm_squared(p, w) == 1real,
        norm_squared(q, w) == 1real,
        w.functions.sqrt_laws(),
    ensures
        0real <= number(distance(p, q), w) <= 2real,
{
    let error = number(distance(p, q), w);
    lemma_error_is_distance(p, q, w);
    lemma_square_of_sum(across(p, w), across(q, w));
    lemma_square_of_sum(upward(p, w), upward(q, w));
    lemma_square_sign(across(p, w) + across(q, w));
    lemma_square_sign(upward(p, w) + upward(q, w));
    assert(error * error <= 4real);
    assert(2real * 2real == 4real);
    if error > 2real {
        lemma_square_order(2real, error);
    }
}

} // verus!
