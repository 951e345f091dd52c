use collatz_probe::bits::{count_trailing_zeros, is_power_of_two, to_binary_vec};

#[test]
fn thirteen_in_binary() {
    assert_eq!(to_binary_vec(13, 6), vec![1u8, 0, 1, 1, 0, 0]);
}

#[test]
fn no_digits() {
    assert_eq!(to_binary_vec(13, 0), Vec::<u8>::new());
}

#[test]
fn low_digits_only() {
    assert_eq!(to_binary_vec(0b1101_0110, 4), vec![0u8, 1, 1, 0]);
}

#[test]
fn all_digits_read_back() {
    for val in [0u64, 1, 27, 8521, 4_294_967_295, u64::MAX - 1, u64::MAX, 1 << 63] {
        let digits = to_binary_vec(val, 64);
        assert_eq!(digits.len(), 64);
        let mut read: u64 = 0;
        for i in 0..64 {
            read += (digits[i] as u64) << i;
        }
        assert_eq!(read, val);
    }
}

#[test]
fn trailing_zeros() {
    assert_eq!(count_trailing_zeros(1), 0);
    assert_eq!(count_trailing_zeros(12), 2);
    assert_eq!(count_trailing_zeros(1000), 3);
    assert_eq!(count_trailing_zeros(1 << 63), 63);
}

#[test]
fn powers_of_two() {
    assert!(!is_power_of_two(0));
    assert!(is_power_of_two(1));
    assert!(is_power_of_two(2));
    assert!(!is_power_of_two(12));
    assert!(is_power_of_two(1 << 63));
    assert!(!is_power_of_two(u64::MAX));
}
