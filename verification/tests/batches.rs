use collatz_probe::batches::{batches_of, shuffled_batches};

#[test]
fn last_batch_holds_the_rest() {
    let indices = vec![4usize, 2, 0, 1, 3];
    assert_eq!(batches_of(&indices, 2), vec![vec![4u32, 2], vec![0, 1], vec![3]]);
}

#[test]
fn full_batches_leave_no_rest() {
    let indices = vec![3usize, 2, 1, 0];
    assert_eq!(batches_of(&indices, 2), vec![vec![3u32, 2], vec![1, 0]]);
    assert_eq!(batches_of(&indices, 4), vec![vec![3u32, 2, 1, 0]]);
    assert_eq!(batches_of(&indices, 9), vec![vec![3u32, 2, 1, 0]]);
}

#[test]
fn nothing_to_cut() {
    assert_eq!(batches_of(&vec![], 3), Vec::<Vec<u32>>::new());
    assert_eq!(shuffled_batches(0, 3), Vec::<Vec<u32>>::new());
}

#[test]
fn an_epoch_visits_every_sample_once() {
    let batches = shuffled_batches(1000, 64);
    assert_eq!(batches.len(), 16);
    for i in 0..15 {
        assert_eq!(batches[i].len(), 64);
    }
    assert_eq!(batches[15].len(), 40);
    let mut seen: Vec<u32> = batches.concat();
    seen.sort();
    assert_eq!(seen, (0..1000u32).collect::<Vec<u32>>());
}

#[test]
fn epochs_are_shuffled() {
    let natural: Vec<u32> = (0..1000).collect();
    let first = shuffled_batches(1000, 64).concat();
    let second = shuffled_batches(1000, 64).concat();
    assert_ne!(first, natural);
    assert_ne!(first, second);
}
