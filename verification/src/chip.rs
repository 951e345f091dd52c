//! A virtual chip that walks a Collatz orbit on the unit circle.

use crate::bits::{
    count_trailing_zeros, is_power, is_power_of_two, lemma_twos, lemma_twos_bound, twos,
};
use crate::collatz::{collatz, lemma_orbit_is_exact, orbit};
use crate::expr::{
    apply, constant, make_apply, make_combine, make_constant, minus, over, plus, times, Angle,
    Binary, Expr, Point, Unary,
};
use std::rc::Rc;
use vstd::arithmetic::power2::{lemma2_to64, lemma_pow2_strictly_increases, pow2};
use vstd::prelude::*;

verus! {

/// The chip: the current number, its place on the circle and the angle of the next turn.
#[derive(Debug, PartialEq, Eq)]
pub struct CollatzVirtualChip {
    pub val: u64,
    pub latent: Point,
    pub theta: Angle,
}

/// What one clock tick of the chip shows.
#[derive(Debug, PartialEq, Eq)]
pub struct Tick {
    pub current_val: u64,
    pub next_val: u64,
    pub current: Point,
    pub predicted: Point,
    pub actual: Point,
    pub angle: Angle,
    pub error: Rc<Expr>,
    pub mode: &'static str,
    pub enters_core_loop: bool,
}

/// How many one digits `num` ends in.
pub open spec fn trailing_ones(num: u64) -> nat {
    twos((num + 1) as nat)
}

/// `base / 100 + count / 100`.
pub open spec fn raised(base: int, count: nat) -> Expr {
    plus(constant(base, 2), times(constant(1, 2), Expr::Count(count as usize)))
}

/// `base / 100 - count / 100`.
pub open spec fn lowered(base: int, count: nat) -> Expr {
    minus(constant(base, 2), times(constant(1, 2), Expr::Count(count as usize)))
}

/// The direction of a positive number before normalisation. An odd number points south-east and
/// drifts with its run of trailing ones, an even one points north-west and drifts with its run of
/// trailing zeros.
pub open spec fn raw_direction(num: u64) -> Point {
    if num % 2 == 1 {
        Point {
            x: Rc::new(raised(45, trailing_ones(num))),
            y: Rc::new(raised(-85, trailing_ones(num))),
        }
    } else {
        Point {
            x: Rc::new(lowered(-55, twos(num as nat))),
            y: Rc::new(lowered(80, twos(num as nat))),
        }
    }
}

/// The Euclidean length of a point.
pub open spec fn length(p: Point) -> Expr {
    apply(Unary::Sqrt, plus(times(*p.x, *p.x), times(*p.y, *p.y)))
}

/// A point divided by its length.
pub open spec fn normalised(p: Point) -> Point {
    Point { x: Rc::new(over(*p.x, length(p))), y: Rc::new(over(*p.y, length(p))) }
}

/// The place of a number on the circle; zero sits at the origin.
pub open spec fn encoded(num: u64) -> Point {
    if num == 0 {
        Point { x: Rc::new(constant(0, 0)), y: Rc::new(constant(0, 0)) }
    } else {
        normalised(raw_direction(num))
    }
}

/// The turn that belongs to a number: about 180 degrees for a Mersenne number `2^k - 1` above 1,
/// about 160 degrees for every other number.
pub open spec fn clock(num: u64) -> Angle {
    if num > 1 && is_power((num + 1) as nat) {
        Angle { tenths: 1808 }
    } else {
        Angle { tenths: 1601 }
    }
}

/// A point turned clockwise by an angle in radians.
pub open spec fn rotated(p: Point, angle: Expr) -> Point {
    let cos_a = apply(Unary::Cos, angle);
    let sin_a = apply(Unary::Sin, angle);
    Point {
        x: Rc::new(plus(times(*p.x, cos_a), times(*p.y, sin_a))),
        y: Rc::new(plus(times(apply(Unary::Neg, *p.x), sin_a), times(*p.y, cos_a))),
    }
}

/// The distance between two points.
pub open spec fn distance(p: Point, q: Point) -> Expr {
    apply(
        Unary::Sqrt,
        plus(
            apply(Unary::Sqr, minus(*p.x, *q.x)),
            apply(Unary::Sqr, minus(*p.y, *q.y)),
        ),
    )
}

/// The name of the clock mode that an angle belongs to.
pub open spec fn mode_name(angle: Angle) -> Seq<char> {
    if angle.tenths > 1700 {
        "2-Phase (180°)"@
    } else {
        "Multi-Phase (160°)"@
    }
}

impl CollatzVirtualChip {
    /// The place and the angle are those of the current number.
    pub open spec fn in_step(self) -> bool {
        &&& self.latent == encoded(self.val)
        &&& self.theta == clock(self.val)
    }

    /// A chip that starts at `start_val`.
    pub fn new(start_val: u64) -> (chip: Self)
        ensures
            chip.val == start_val,
            chip.in_step(),
            chip.latent == encoded(start_val),
            chip.theta == clock(start_val),
    {
        let origin = make_constant(0, 0);
        let mut chip = CollatzVirtualChip {
            val: start_val,
            latent: Point { x: origin.clone(), y: origin },
            theta: Angle { tenths: 0 },
        };
        chip.latent = chip.encode(start_val);
        chip.theta = chip.dynamic_clock(start_val);
        chip
    }

    /// Maps a number onto the unit circle: odd numbers to the south-east, even numbers to the
    /// north-west, zero to the origin.
    pub fn encode(&self, num: u64) -> (point: Point)
        ensures
            point == encoded(num),
    {
        if num == 0 {
            let origin = make_constant(0, 0);
            return Point { x: origin.clone(), y: origin };
        }
        let step = make_constant(1, 2);
        let x_raw: Rc<Expr>;
        let y_raw: Rc<Expr>;
        if num % 2 == 1 {
            let ones = self.count_consecutive_ones(num);
            let count = Rc::new(Expr::Count(ones as usize));
            let drift = make_combine(Binary::Mul, &step, &count);
            x_raw = make_combine(Binary::Add, &make_constant(45, 2), &drift);
            y_raw = make_combine(Binary::Add, &make_constant(-85, 2), &drift);
        } else {
            let zeros = count_trailing_zeros(num);
            let count = Rc::new(Expr::Count(zeros as usize));
            let drift = make_combine(Binary::Mul, &step, &count);
            x_raw = make_combine(Binary::Sub, &make_constant(-55, 2), &drift);
            y_raw = make_combine(Binary::Sub, &make_constant(80, 2), &drift);
        }
        let x_squared = make_combine(Binary::Mul, &x_raw, &x_raw);
        let y_squared = make_combine(Binary::Mul, &y_raw, &y_raw);
        let len = make_apply(Unary::Sqrt, &make_combine(Binary::Add, &x_squared, &y_squared));
        Point {
            x: make_combine(Binary::Div, &x_raw, &len),
            y: make_combine(Binary::Div, &y_raw, &len),
        }
    }

    /// The angle by which the chip turns at `num`.
    pub fn dynamic_clock(&self, num: u64) -> (angle: Angle)
        ensures
            angle == clock(num),
            angle.tenths == 1808 <==> exists|k: nat| k >= 2 && num + 1 == #[trigger] pow2(k),
            angle.tenths == 1808 || angle.tenths == 1601,
    {
        proof {
            lemma_clock(num);
        }
        if num > 1 && is_mersenne(num) {
            Angle { tenths: 1808 }
        } else {
            Angle { tenths: 1601 }
        }
    }

    /// Turns a point clockwise by an angle in radians.
    pub fn rotate(&self, coords: &Point, angle: &Rc<Expr>) -> (turned: Point)
        ensures
            turned == rotated(*coords, **angle),
    {
        let cos_a = make_apply(Unary::Cos, angle);
        let sin_a = make_apply(Unary::Sin, angle);
        let x_cos = make_combine(Binary::Mul, &coords.x, &cos_a);
        let y_sin = make_combine(Binary::Mul, &coords.y, &sin_a);
        let x_sin = make_combine(Binary::Mul, &make_apply(Unary::Neg, &coords.x), &sin_a);
        let y_cos = make_combine(Binary::Mul, &coords.y, &cos_a);
        Point {
            x: make_combine(Binary::Add, &x_cos, &y_sin),
            y: make_combine(Binary::Add, &x_sin, &y_cos),
        }
    }

    /// One clock tick. Predicts the next place by turning the present one, moves to the Collatz
    /// successor and takes its place and angle. Returns the new number, the predicted place, the
    /// actual place and the angle of the turn.
    pub fn step(&mut self) -> (tick: (u64, Point, Point, Angle))
        requires
            collatz(old(self).val as nat) <= u64::MAX,
        ensures
            tick.0 == collatz(old(self).val as nat),
            old(self).val % 2 == 0 ==> tick.0 == old(self).val / 2,
            old(self).val % 2 == 1 ==> tick.0 == 3 * old(self).val + 1,
            tick.1 == rotated(old(self).latent, Expr::Radians(old(self).theta)),
            tick.2 == encoded(tick.0),
            tick.3 == old(self).theta,
            final(self).val == tick.0,
            final(self).in_step(),
            final(self).latent == encoded(tick.0),
            final(self).theta == clock(tick.0),
    {
        let current_val = self.val;
        let clock_angle = self.theta;
        let predicted_latent = self.rotate(&self.latent, &Rc::new(Expr::Radians(clock_angle)));
        let next_val: u64 = if current_val % 2 == 1 {
            current_val * 3 + 1
        } else {
            current_val / 2
        };
        self.val = next_val;
        self.latent = self.encode(next_val);
        self.theta = self.dynamic_clock(next_val);
        (next_val, predicted_latent, self.latent.share(), clock_angle)
    }

    /// One clock tick together with what is to be shown of it: where the chip was, how far the
    /// prediction missed, the clock mode, and whether the core loop was entered.
    pub fn tick(&mut self) -> (tick: Tick)
        requires
            collatz(old(self).val as nat) <= u64::MAX,
        ensures
            tick.current_val == old(self).val,
            tick.next_val == collatz(old(self).val as nat),
            old(self).val % 2 == 0 ==> tick.next_val == old(self).val / 2,
            old(self).val % 2 == 1 ==> tick.next_val == 3 * old(self).val + 1,
            tick.current == old(self).latent,
            tick.predicted == rotated(old(self).latent, Expr::Radians(old(self).theta)),
            tick.actual == encoded(tick.next_val),
            tick.angle == old(self).theta,
            *tick.error == distance(tick.predicted, tick.actual),
            tick.mode@ == mode_name(old(self).theta),
            tick.enters_core_loop == (tick.current_val == 4 && tick.next_val == 2),
            final(self).val == tick.next_val,
            final(self).in_step(),
            final(self).latent == encoded(tick.next_val),
            final(self).theta == clock(tick.next_val),
            old(self).theta.tenths > 1700 ==> tick.mode@ == "2-Phase (180°)"@,
            old(self).theta.tenths <= 1700 ==> tick.mode@ == "Multi-Phase (160°)"@,
    {
        let current_val = self.val;
        let current = self.latent.share();
        let (next_val, predicted, actual, angle) = self.step();
        let error = prediction_error(&predicted, &actual);
        Tick {
            current_val,
            next_val,
            current,
            predicted,
            actual,
            angle,
            error,
            mode: clock_mode(angle),
            enters_core_loop: enters_core_loop(current_val, next_val),
        }
    }

    /// Counts the one digits that `num` ends in.
    pub fn count_consecutive_ones(&self, num: u64) -> (count: u32)
        ensures
            count == trailing_ones(num),
            count <= 64,
            (num + 1) as nat % pow2(count as nat) == 0,
            ((num + 1) as nat / pow2(count as nat)) % 2 == 1,
    {
        let mut rest: u64 = num;
        let mut count: u32 = 0;
        proof {
            lemma2_to64();
            lemma_twos_bound((num + 1) as nat, 64);
            lemma_twos((num + 1) as nat);
        }
        while rest % 2 == 1
            invariant
                count + twos((rest + 1) as nat) == trailing_ones(num),
                trailing_ones(num) <= 64,
                (num + 1) as nat % pow2(trailing_ones(num)) == 0,
                ((num + 1) as nat / pow2(trailing_ones(num))) % 2 == 1,
            decreases rest,
        {
            assert((rest + 1) as nat / 2 == (rest / 2 + 1) as nat);
            count += 1;
            rest = rest / 2;
        }
        count
    }
}

/// The chip turns by 180.8 degrees at a number `2^k - 1` with `k` at least 2, and by 160.1 degrees
/// at every other number.
pub proof fn lemma_clock(num: u64)
    ensures
        (exists|k: nat| k >= 2 && num + 1 == #[trigger] pow2(k)) ==> clock(num).tenths == 1808,
        !(exists|k: nat| k >= 2 && num + 1 == #[trigger] pow2(k)) ==> clock(num).tenths == 1601,
{
    lemma2_to64();
    if exists|k: nat| k >= 2 && num + 1 == #[trigger] pow2(k) {
        let k = choose|k: nat| k >= 2 && num + 1 == #[trigger] pow2(k);
        if k > 2 {
            lemma_pow2_strictly_increases(2, k);
        }
        assert(is_power((num + 1) as nat));
    } else if num > 1 && is_power((num + 1) as nat) {
        let k = choose|k: nat| (num + 1) as nat == #[trigger] pow2(k);
        assert(k >= 2);
    }
}

/// Whether all digits of `num` are ones: `num` is `2^k - 1` for some `k`, the largest word among
/// them.
pub fn is_mersenne(num: u64) -> (all_ones: bool)
    ensures
        all_ones == is_power((num + 1) as nat),
        all_ones <==> exists|k: nat| num + 1 == #[trigger] pow2(k),
{
    if num == u64::MAX {
        proof {
            lemma2_to64();
            assert(pow2(64) == num + 1);
        }
        true
    } else {
        is_power_of_two(num + 1)
    }
}

/// The distance by which a predicted place misses the actual one.
pub fn prediction_error(predicted: &Point, actual: &Point) -> (error: Rc<Expr>)
    ensures
        *error == distance(*predicted, *actual),
{
    let dx = make_combine(Binary::Sub, &predicted.x, &actual.x);
    let dy = make_combine(Binary::Sub, &predicted.y, &actual.y);
    let dx_squared = make_apply(Unary::Sqr, &dx);
    let dy_squared = make_apply(Unary::Sqr, &dy);
    make_apply(Unary::Sqrt, &make_combine(Binary::Add, &dx_squared, &dy_squared))
}

/// A chip that starts from a number in `1..2^32` has room for its first 62 ticks, and they take it
/// along the orbit of its start.
pub proof fn lemma_ticks_follow_the_orbit(start: u64, k: nat)
    requires
        1 <= start < 0x1_0000_0000,
        k < 62,
    ensures
        collatz(orbit(start, k) as nat) <= u64::MAX,
        collatz(orbit(start, k) as nat) == orbit(start, k + 1),
{
    lemma_orbit_is_exact(start, k);
    lemma_orbit_is_exact(start, k + 1);
}

/// The name of the clock mode that an angle belongs to.
pub fn clock_mode(angle: Angle) -> (name: &'static str)
    ensures
        name@ == mode_name(angle),
        angle.tenths > 1700 ==> name@ == "2-Phase (180°)"@,
        angle.tenths <= 1700 ==> name@ == "Multi-Phase (160°)"@,
{
    if angle.tenths > 1700 {
        "2-Phase (180°)"
    } else {
        "Multi-Phase (160°)"
    }
}

/// What kind of number a run starts from: one whose digits are all ones, or any other.
pub fn family_label(start: u64) -> (label: &'static str)
    ensures
        label@ == (if is_power((start + 1) as nat) {
            "Họ số Mersenne - Toàn bit 1"@
        } else {
            "Số ngẫu nhiên"@
        }),
        (exists|k: nat| start + 1 == #[trigger] pow2(k)) ==> label@
            == "Họ số Mersenne - Toàn bit 1"@,
        !(exists|k: nat| start + 1 == #[trigger] pow2(k)) ==> label@ == "Số ngẫu nhiên"@,
{
    if is_mersenne(start) {
        "Họ số Mersenne - Toàn bit 1"
    } else {
        "Số ngẫu nhiên"
    }
}

/// Whether a step from `current_val` to `next_val` enters the core loop `4 -> 2 -> 1`.
pub fn enters_core_loop(current_val: u64, next_val: u64) -> (enters: bool)
    ensures
        enters == (current_val == 4 && next_val == 2),
{
    current_val == 4 && next_val == 2
}

} // verus!
