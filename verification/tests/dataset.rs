use collatz_probe::dataset::{generate_dataset, Dataset};
use collatz_probe::random::random_start;

fn word(digits: &[u8]) -> u64 {
    let mut read: u64 = 0;
    for i in 0..digits.len() {
        assert!(digits[i] <= 1);
        read += (digits[i] as u64) << i;
    }
    read
}

#[test]
fn transitions_of_six() {
    let mut dataset = Dataset::with_capacity(5, 15);
    dataset.push_trajectory(6, 3);
    // 6 -> 3 -> 10 -> 5
    assert_eq!(dataset.rows, 3);
    assert_eq!(dataset.num_bits, 5);
    assert_eq!(dataset.x_t, vec![0u8, 1, 1, 0, 0, 1, 1, 0, 0, 0, 0, 1, 0, 1, 0]);
    assert_eq!(dataset.x_next, vec![1u8, 1, 0, 0, 0, 0, 1, 0, 1, 0, 1, 0, 1, 0, 0]);
}

#[test]
fn trajectories_follow_one_another() {
    let mut dataset = Dataset::with_capacity(64, 0);
    dataset.push_trajectory(27, 2);
    dataset.push_trajectory(12, 1);
    let firsts: Vec<u64> = dataset.x_t.chunks(64).map(word).collect();
    let seconds: Vec<u64> = dataset.x_next.chunks(64).map(word).collect();
    assert_eq!(firsts, vec![27, 82, 12]);
    assert_eq!(seconds, vec![82, 41, 6]);
}

#[test]
fn no_transitions() {
    let dataset = generate_dataset(0, 20, 64);
    assert_eq!(dataset.rows, 0);
    assert_eq!(dataset.x_t.len(), 0);
    let dataset = generate_dataset(3, 0, 64);
    assert_eq!(dataset.rows, 0);
}

#[test]
fn drawn_transitions_are_collatz_steps() {
    let dataset = generate_dataset(40, 20, 64);
    assert_eq!(dataset.rows, 800);
    assert_eq!(dataset.x_t.len(), 800 * 64);
    assert_eq!(dataset.x_next.len(), 800 * 64);
    let firsts: Vec<u64> = dataset.x_t.chunks(64).map(word).collect();
    let seconds: Vec<u64> = dataset.x_next.chunks(64).map(word).collect();
    for r in 0..800 {
        let n = firsts[r];
        assert!(n > 0);
        assert_eq!(seconds[r], if n % 2 == 0 { n / 2 } else { 3 * n + 1 });
        if r % 20 == 0 {
            assert!(2 <= n && n < 4_294_967_296);
        } else {
            assert_eq!(n, seconds[r - 1]);
        }
    }
}

#[test]
fn starts_are_drawn_from_the_whole_range() {
    let mut smallest = u64::MAX;
    let mut largest = 0;
    for _ in 0..200 {
        let start = random_start();
        assert!(2 <= start && start < 4_294_967_296);
        smallest = smallest.min(start);
        largest = largest.max(start);
    }
    assert!(smallest < 2_147_483_648);
    assert!(largest >= 2_147_483_648);
}
