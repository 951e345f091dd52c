use collatz_probe::collatz::next_value;
use collatz_probe::report::{test_trajectories, trace};

#[test]
fn even_is_halved() {
    assert_eq!(next_value(12), 6);
    assert_eq!(next_value(0), 0);
    assert_eq!(next_value(u64::MAX - 1), (u64::MAX - 1) / 2);
}

#[test]
fn odd_is_tripled_plus_one() {
    assert_eq!(next_value(27), 82);
    assert_eq!(next_value(1), 4);
    assert_eq!(next_value(6_148_914_691_236_517_203), 18_446_744_073_709_551_610);
}

#[test]
fn overflow_restarts_at_one() {
    // The product still fits, the sum does not.
    assert_eq!(next_value(6_148_914_691_236_517_205), 1);
    // The product does not fit.
    assert_eq!(next_value(6_148_914_691_236_517_207), 1);
    assert_eq!(next_value(u64::MAX), 1);
}

#[test]
fn core_loop_has_period_three() {
    let orbit = trace(4, 9);
    let values: Vec<u64> = orbit.points.iter().map(|p| p.val).collect();
    assert_eq!(values, vec![4, 2, 1, 4, 2, 1, 4, 2, 1, 4]);
}

#[test]
fn small_starts_never_overflow() {
    for start in [2u64, 27, 4_294_967_295, 4_294_967_294, 3_000_000_001] {
        let mut exact: u128 = start as u128;
        for point in trace(start, 62).points {
            assert_eq!(point.val as u128, exact);
            assert!(point.val > 0);
            exact = if exact % 2 == 0 { exact / 2 } else { 3 * exact + 1 };
        }
    }
}

#[test]
fn trace_of_twelve() {
    let orbit = trace(12, 4);
    assert_eq!(orbit.start_val, 12);
    let points: Vec<(usize, u64)> = orbit.points.iter().map(|p| (p.step, p.val)).collect();
    assert_eq!(points, vec![(0, 12), (1, 6), (2, 3), (3, 10), (4, 5)]);
}

#[test]
fn trace_of_twenty_seven_has_twenty_one_points() {
    let orbit = trace(27, 20);
    assert_eq!(orbit.points.len(), 21);
    assert_eq!(orbit.points[1].val, 82);
    assert_eq!(orbit.points[20].val, 274);
}

#[test]
fn trace_without_steps() {
    assert_eq!(trace(7, 0).points.len(), 1);
}

#[test]
fn trajectories_of_the_report() {
    let all = test_trajectories();
    let starts: Vec<u64> = all.iter().map(|t| t.start_val).collect();
    assert_eq!(starts, vec![27u64, 12, 1000, 7, 8521]);
    for t in &all {
        assert_eq!(t, &trace(t.start_val, 20));
        assert_eq!(t.points.len(), 21);
    }
}
