use collatz_probe::chip::{
    clock_mode, enters_core_loop, family_label, is_mersenne, prediction_error, CollatzVirtualChip,
};
use collatz_probe::expr::{Angle, Binary, Decimal, Expr, Point, Unary};
use std::rc::Rc;

fn scalar(e: &Expr) -> f32 {
    match e {
        Expr::Const(d) => d.digits as f32 / 10f32.powi(d.places as i32),
        Expr::Count(n) => *n as f32,
        Expr::Radians(a) => (a.tenths as f32 / 10.0).to_radians(),
        Expr::Apply(Unary::Neg, x) => -scalar(x),
        Expr::Apply(Unary::Sqr, x) => scalar(x) * scalar(x),
        Expr::Apply(Unary::Sqrt, x) => scalar(x).sqrt(),
        Expr::Apply(Unary::Cos, x) => scalar(x).cos(),
        Expr::Apply(Unary::Sin, x) => scalar(x).sin(),
        Expr::Combine(Binary::Add, a, b) => scalar(a) + scalar(b),
        Expr::Combine(Binary::Sub, a, b) => scalar(a) - scalar(b),
        Expr::Combine(Binary::Mul, a, b) => scalar(a) * scalar(b),
        Expr::Combine(Binary::Div, a, b) => scalar(a) / scalar(b),
        other => panic!("unexpected formula {:?}", other),
    }
}

fn coordinates(p: &Point) -> [f32; 2] {
    [scalar(&p.x), scalar(&p.y)]
}

fn radians(tenths: i32) -> Rc<Expr> {
    Rc::new(Expr::Radians(Angle { tenths }))
}

fn by_hand(num: u64) -> [f32; 2] {
    if num == 0 {
        return [0.0, 0.0];
    }
    let (x, y) = if num % 2 == 1 {
        let c = num.trailing_ones() as f32;
        (0.45f32 + 0.01 * c, -0.85f32 + 0.01 * c)
    } else {
        let z = num.trailing_zeros() as f32;
        (-0.55f32 - 0.01 * z, 0.80f32 - 0.01 * z)
    };
    let len = (x * x + y * y).sqrt();
    [x / len, y / len]
}

#[test]
fn zero_sits_at_the_origin() {
    let chip = CollatzVirtualChip::new(0);
    assert_eq!(coordinates(&chip.latent), [0.0, 0.0]);
}

#[test]
fn encoding_gives_the_expected_floats() {
    let chip = CollatzVirtualChip::new(1);
    for num in [0u64, 1, 2, 3, 4, 7, 12, 31, 1000, 8521, 1 << 63, u64::MAX - 1, u64::MAX] {
        assert_eq!(coordinates(&chip.encode(num)), by_hand(num));
    }
}

#[test]
fn encoding_lies_on_the_unit_circle() {
    let chip = CollatzVirtualChip::new(1);
    for num in 1u64..2000 {
        let [x, y] = coordinates(&chip.encode(num));
        assert!((x * x + y * y - 1.0).abs() < 1e-6);
        if num % 2 == 1 {
            assert!(x > 0.0 && y < 0.0);
        } else {
            assert!(x < 0.0 && y > 0.0);
        }
    }
}

#[test]
fn formula_of_an_odd_number() {
    let chip = CollatzVirtualChip::new(1);
    let constant = |digits: i64| Rc::new(Expr::Const(Decimal { digits, places: 2 }));
    let combine = |op, a: &Rc<Expr>, b: &Rc<Expr>| {
        Rc::new(Expr::Combine(op, a.clone(), b.clone()))
    };
    // 23 = 10111 ends in three ones.
    let drift = combine(Binary::Mul, &constant(1), &Rc::new(Expr::Count(3)));
    let x = combine(Binary::Add, &constant(45), &drift);
    let y = combine(Binary::Add, &constant(-85), &drift);
    let xx = combine(Binary::Mul, &x, &x);
    let yy = combine(Binary::Mul, &y, &y);
    let len = Rc::new(Expr::Apply(Unary::Sqrt, combine(Binary::Add, &xx, &yy)));
    let expected = Point {
        x: combine(Binary::Div, &x, &len),
        y: combine(Binary::Div, &y, &len),
    };
    assert_eq!(chip.encode(23), expected);
}

#[test]
fn runs_of_ones() {
    let chip = CollatzVirtualChip::new(1);
    assert_eq!(chip.count_consecutive_ones(0), 0);
    assert_eq!(chip.count_consecutive_ones(12), 0);
    assert_eq!(chip.count_consecutive_ones(23), 3);
    assert_eq!(chip.count_consecutive_ones(31), 5);
    assert_eq!(chip.count_consecutive_ones(u64::MAX), 64);
}

#[test]
fn clock_of_mersenne_numbers() {
    let chip = CollatzVirtualChip::new(1);
    let square = Angle { tenths: 1808 };
    let many = Angle { tenths: 1601 };
    for num in [3u64, 7, 31, (1 << 63) - 1, u64::MAX] {
        assert_eq!(chip.dynamic_clock(num), square);
    }
    for num in [0u64, 1, 2, 4, 12, 30, 32, u64::MAX - 1] {
        assert_eq!(chip.dynamic_clock(num), many);
    }
}

#[test]
fn clock_modes() {
    assert_eq!(clock_mode(Angle { tenths: 1808 }), "2-Phase (180°)");
    assert_eq!(clock_mode(Angle { tenths: 1701 }), "2-Phase (180°)");
    assert_eq!(clock_mode(Angle { tenths: 1700 }), "Multi-Phase (160°)");
    assert_eq!(clock_mode(Angle { tenths: 1601 }), "Multi-Phase (160°)");
}

#[test]
fn families() {
    assert_eq!(family_label(31), "Họ số Mersenne - Toàn bit 1");
    assert_eq!(family_label(0), "Họ số Mersenne - Toàn bit 1");
    assert_eq!(family_label(u64::MAX), "Họ số Mersenne - Toàn bit 1");
    assert_eq!(family_label(12), "Số ngẫu nhiên");
    assert_eq!(family_label(u64::MAX - 1), "Số ngẫu nhiên");
}

#[test]
fn all_ones_in_binary() {
    for k in 0..64 {
        assert!(is_mersenne((1u64 << k) - 1));
    }
    assert!(is_mersenne(u64::MAX));
    for num in [2u64, 4, 5, 6, 8, 12, 1 << 63, (1 << 63) + 1, u64::MAX - 1] {
        assert!(!is_mersenne(num));
    }
}

#[test]
fn the_largest_word_makes_a_chip() {
    let chip = CollatzVirtualChip::new(u64::MAX);
    assert_eq!(chip.val, u64::MAX);
    assert_eq!(chip.theta, Angle { tenths: 1808 });
    assert_eq!(coordinates(&chip.latent), by_hand(u64::MAX));
}

#[test]
fn turns_add_up() {
    let chip = CollatzVirtualChip::new(12);
    for (a, b) in [(1601, 1808), (300, -450), (-1200, 3600), (0, 725)] {
        let twice = chip.rotate(&chip.rotate(&chip.latent, &radians(a)), &radians(b));
        let once = chip.rotate(&chip.latent, &radians(a + b));
        let (p, q) = (coordinates(&twice), coordinates(&once));
        assert!((p[0] - q[0]).abs() < 1e-5 && (p[1] - q[1]).abs() < 1e-5);
    }
}

#[test]
fn a_turn_back_undoes_a_turn() {
    let chip = CollatzVirtualChip::new(31);
    let start = coordinates(&chip.latent);
    for tenths in [1601, 1808, 77, -2500] {
        let away = chip.rotate(&chip.latent, &radians(tenths));
        let [x, y] = coordinates(&away);
        assert!((x - start[0]).abs() + (y - start[1]).abs() > 1e-3);
        let back = coordinates(&chip.rotate(&away, &radians(-tenths)));
        assert!((back[0] - start[0]).abs() < 1e-5 && (back[1] - start[1]).abs() < 1e-5);
        // The angle of a turn may be any formula.
        let negated = Rc::new(Expr::Apply(Unary::Neg, radians(tenths)));
        let again = coordinates(&chip.rotate(&away, &negated));
        assert!((again[0] - start[0]).abs() < 1e-5 && (again[1] - start[1]).abs() < 1e-5);
    }
}

#[test]
fn core_loop_is_entered_from_four_to_two() {
    assert!(enters_core_loop(4, 2));
    assert!(!enters_core_loop(2, 1));
    assert!(!enters_core_loop(4, 1));
}

#[test]
fn a_turn_gives_the_expected_floats() {
    let chip = CollatzVirtualChip::new(12);
    let [x, y] = coordinates(&chip.latent);
    let angle = 160.1f32.to_radians();
    let expected = [x * angle.cos() + y * angle.sin(), -x * angle.sin() + y * angle.cos()];
    let turned = coordinates(&chip.rotate(&chip.latent, &radians(1601)));
    assert_eq!(turned, expected);
    assert!((turned[0] * turned[0] + turned[1] * turned[1] - 1.0).abs() < 1e-6);
}

fn place(x: i64, y: i64) -> Point {
    let whole = |digits: i64| Rc::new(Expr::Const(Decimal { digits, places: 0 }));
    Point { x: whole(x), y: whole(y) }
}

fn near(p: &Point, x: f32, y: f32) -> bool {
    let [px, py] = coordinates(p);
    (px - x).abs() < 1e-5 && (py - y).abs() < 1e-5
}

#[test]
fn right_angles_turn_clockwise() {
    let chip = CollatzVirtualChip::new(1);
    let (east, north) = (place(1, 0), place(0, 1));
    assert!(near(&chip.rotate(&east, &radians(900)), 0.0, -1.0));
    assert!(near(&chip.rotate(&north, &radians(900)), 1.0, 0.0));
    assert!(near(&chip.rotate(&place(3, -2), &radians(900)), -2.0, -3.0));
    assert!(near(&chip.rotate(&place(3, -2), &radians(1800)), -3.0, 2.0));
    assert!(near(&chip.rotate(&place(3, -2), &radians(3600)), 3.0, -2.0));
    assert!(near(&chip.rotate(&east, &radians(-900)), 0.0, 1.0));
}

#[test]
fn a_turn_runs_by_its_angle() {
    let chip = CollatzVirtualChip::new(12);
    let [x, y] = coordinates(&chip.latent);
    for tenths in [100, 450, 1601, 2700] {
        let angle = (tenths as f32 / 10.0).to_radians();
        let [u, v] = coordinates(&chip.rotate(&chip.latent, &radians(tenths)));
        assert!((x * u + y * v - angle.cos()).abs() < 1e-5);
        assert!((x * v - y * u + angle.sin()).abs() < 1e-5);
    }
}

#[test]
fn turns_keep_inner_products_and_distances() {
    let chip = CollatzVirtualChip::new(1);
    let (p, q) = (place(3, -2), place(-1, 5));
    let (p1, q1) = (chip.rotate(&p, &radians(1234)), chip.rotate(&q, &radians(1234)));
    let ([a, b], [c, d]) = (coordinates(&p1), coordinates(&q1));
    assert!((a * c + b * d + 13.0).abs() < 1e-4);
    let before = scalar(&prediction_error(&p, &q));
    let after = scalar(&prediction_error(&p1, &q1));
    assert!((before - 65.0f32.sqrt()).abs() < 1e-5);
    assert!((before - after).abs() < 1e-5);
}

#[test]
fn longer_runs_lie_further_along_the_circle() {
    let chip = CollatzVirtualChip::new(1);
    for k in 1..64 {
        let shorter = coordinates(&chip.encode((1u64 << k) - 1));
        let longer = coordinates(&chip.encode(u64::MAX >> (63 - k)));
        assert!(shorter[0] < longer[0] && shorter[1] < longer[1]);
    }
    for k in 1..63 {
        let shorter = coordinates(&chip.encode(1u64 << k));
        let longer = coordinates(&chip.encode(1u64 << (k + 1)));
        assert!(shorter[0] > longer[0] && shorter[1] > longer[1]);
    }
    assert_eq!(chip.encode(7), chip.encode(23));
    assert_eq!(chip.encode(4), chip.encode(12));
}

#[test]
fn ticks_from_twelve() {
    let mut chip = CollatzVirtualChip::new(12);
    for expected in [6u64, 3, 10, 5, 16, 8, 4, 2, 1, 4] {
        let old_val = chip.val;
        let old_place = chip.latent.share();
        let old_angle = chip.theta;
        let (next, predicted, actual, angle) = chip.step();
        assert_eq!(next, expected);
        assert_eq!(chip.val, expected);
        assert_eq!(angle, old_angle);
        assert_eq!(angle, chip.dynamic_clock(old_val));
        assert_eq!(predicted, chip.rotate(&old_place, &Rc::new(Expr::Radians(old_angle))));
        assert_eq!(actual, chip.encode(next));
        assert_eq!(chip.latent, actual);
        assert_eq!(chip.theta, chip.dynamic_clock(next));
    }
}

#[test]
fn the_largest_odd_step() {
    let mut chip = CollatzVirtualChip::new(6_148_914_691_236_517_203);
    assert_eq!(chip.step().0, 18_446_744_073_709_551_610);
}

#[test]
fn ticks_from_thirty_one_show_what_happened() {
    let mut chip = CollatzVirtualChip::new(31);
    let mut twin = CollatzVirtualChip::new(31);
    for _ in 0..20 {
        let before = twin.latent.share();
        let val = twin.val;
        let (next, predicted, actual, angle) = twin.step();
        let tick = chip.tick();
        assert_eq!((tick.current_val, tick.next_val), (val, next));
        assert_eq!(tick.current, before);
        assert_eq!(tick.predicted, predicted);
        assert_eq!(tick.actual, actual);
        assert_eq!(tick.angle, angle);
        assert_eq!(tick.mode, clock_mode(angle));
        assert_eq!(tick.error, prediction_error(&predicted, &actual));
        assert_eq!(tick.enters_core_loop, val == 4 && next == 2);
        let (p, a) = (coordinates(&predicted), coordinates(&actual));
        let by_hand = ((p[0] - a[0]).powi(2) + (p[1] - a[1]).powi(2)).sqrt();
        assert_eq!(scalar(&tick.error), by_hand);
        assert!(by_hand >= 0.0 && by_hand <= 2.0 + 1e-5);
    }
    assert_eq!(chip, twin);
}

#[test]
fn twelve_enters_the_core_loop_at_its_eighth_tick() {
    let mut chip = CollatzVirtualChip::new(12);
    let entered: Vec<bool> = (0..12).map(|_| chip.tick().enters_core_loop).collect();
    assert_eq!(entered.iter().position(|e| *e), Some(7));
    assert_eq!(entered.iter().filter(|e| **e).count(), 2);
}

#[test]
fn no_error_between_equal_points() {
    let chip = CollatzVirtualChip::new(12);
    assert_eq!(scalar(&prediction_error(&chip.latent, &chip.latent)), 0.0);
}

#[test]
fn small_starts_tick_sixty_two_times() {
    for start in [1u64, 27, 4_294_967_295] {
        let mut chip = CollatzVirtualChip::new(start);
        let mut exact: u128 = start as u128;
        for _ in 0..62 {
            assert_eq!(chip.val as u128, exact);
            exact = if exact % 2 == 0 { exact / 2 } else { 3 * exact + 1 };
            assert!(exact < u64::MAX as u128);
            chip.step();
        }
    }
}
