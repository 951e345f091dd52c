use collatz_probe::influence::{bit_label, rank_by_magnitude, top_influences};
use collatz_probe::report::fill_report;
use collatz_probe::text::{push_decimal, replace_all};
use collatz_probe::training::{prints_epoch, TrainingPlan};

#[test]
fn page_with_data() {
    let html = fill_report("<p>REPORT_DATA_PLACEHOLDER</p>", "{\"x\":1}");
    assert_eq!(html, "<p>{\"x\":1}</p>");
}

#[test]
fn every_placeholder_is_filled() {
    let html = fill_report("REPORT_DATA_PLACEHOLDER|ệ|REPORT_DATA_PLACEHOLDER", "é");
    assert_eq!(html, "é|ệ|é");
}

#[test]
fn page_without_placeholder() {
    assert_eq!(fill_report("REPORT_DATA_PLACEHOLDE", "x"), "REPORT_DATA_PLACEHOLDE");
    assert_eq!(fill_report("", "x"), "");
}

#[test]
fn data_is_not_searched_again() {
    let html = fill_report("[REPORT_DATA_PLACEHOLDER]", "REPORT_DATA_PLACEHOLDER");
    assert_eq!(html, "[REPORT_DATA_PLACEHOLDER]");
}

#[test]
fn replacement_goes_from_the_left() {
    for (text, pattern, with) in [
        ("aaaaa", "aa", "b"),
        ("ababab", "bab", "-"),
        ("xyz", "xyz", ""),
        ("xyz", "q", "w"),
        ("ađađa", "đ", "dd"),
    ] {
        assert_eq!(replace_all(text, pattern, with), text.replace(pattern, with));
    }
}

#[test]
fn decimal_numbers() {
    for n in [0usize, 7, 10, 63, 100, 9876543210] {
        let mut text = String::from("n=");
        push_decimal(&mut text, n);
        assert_eq!(text, format!("n={}", n));
    }
}

#[test]
fn labels() {
    assert_eq!(bit_label(0), "LSB (Lẻ/Chẵn)");
    assert_eq!(bit_label(1), "2^1");
    assert_eq!(bit_label(63), "2^63");
}

#[test]
fn ranking_is_stable() {
    let magnitudes = vec![5u32, 9, 5, 0, 9, 7];
    assert_eq!(rank_by_magnitude(&magnitudes), vec![1usize, 4, 5, 0, 2, 3]);
    assert_eq!(rank_by_magnitude(&vec![]), Vec::<usize>::new());
}

#[test]
fn ranking_agrees_with_floats() {
    let weights = [0.5f32, -2.0, 0.0, -0.0, 3.25, -0.5, 1e-30, -1e20];
    let magnitudes: Vec<u32> = weights.iter().map(|w| w.abs().to_bits()).collect();
    let mut expected: Vec<usize> = (0..weights.len()).collect();
    expected.sort_by(|a, b| weights[*b].abs().partial_cmp(&weights[*a].abs()).unwrap());
    assert_eq!(rank_by_magnitude(&magnitudes), expected);
}

#[test]
fn top_three() {
    let magnitudes = vec![1u32, 8, 3, 8, 2];
    let top = top_influences(&magnitudes, 3);
    let listed: Vec<(usize, &str)> = top.iter().map(|t| (t.bit, t.label.as_str())).collect();
    assert_eq!(listed, vec![(1, "2^1"), (3, "2^3"), (2, "2^2")]);
    let all = top_influences(&magnitudes, 5);
    assert_eq!(all[4].bit, 0);
    assert_eq!(all[4].label, "LSB (Lẻ/Chẵn)");
    assert_eq!(top_influences(&magnitudes, 0).len(), 0);
}

#[test]
fn printed_epochs() {
    let printed: Vec<usize> = (1..=31).filter(|e| prints_epoch(*e)).collect();
    assert_eq!(printed, vec![1usize, 10, 20, 30]);
}

#[test]
fn settings() {
    let plan = TrainingPlan::new();
    assert_eq!(plan.num_samples * plan.num_steps, 100_000);
    assert_eq!(plan.num_bits, 64);
    assert_eq!(plan.batch_size, 512);
    assert_eq!(plan.epochs, 150);
    assert_eq!((plan.learning_rate.digits, plan.learning_rate.places), (2, 2));
    assert_eq!((plan.alpha.digits, plan.alpha.places), (5, 1));
    assert_eq!((plan.beta.digits, plan.beta.places), (5, 1));
}
