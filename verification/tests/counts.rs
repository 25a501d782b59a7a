use connect4::counts::{histogram, total_visits};
use connect4::minmax::minmax;
use connect4::Color::Yellow;
use connect4::Position;
use std::collections::BTreeMap;

#[test]
fn counts_are_sorted_by_size() {
    let hist = histogram(&vec![1, 1, 2, 1, 3, 2]);
    let expected: BTreeMap<u64, u32> = [(1, 3), (2, 2), (3, 1)].into_iter().collect();
    assert_eq!(hist, expected);
    assert_eq!(total_visits(&vec![1, 1, 2, 1, 3, 2]), Some(10));
}

#[test]
fn no_counts_no_histogram() {
    assert!(histogram(&Vec::new()).is_empty());
    assert_eq!(total_visits(&Vec::new()), Some(0));
}

#[test]
fn a_sum_beyond_the_counter_is_reported() {
    assert_eq!(total_visits(&vec![u64::MAX]), Some(u64::MAX));
    assert_eq!(total_visits(&vec![u64::MAX, 0]), Some(u64::MAX));
    assert_eq!(total_visits(&vec![u64::MAX, 1]), None);
    assert_eq!(total_visits(&vec![1, u64::MAX, 5]), None);
    assert_eq!(total_visits(&vec![u64::MAX - 6, 1, 5]), Some(u64::MAX));
}

#[test]
fn three_plies_from_the_start_repeat_a_quarter_of_the_work() {
    let mut dupes = BTreeMap::new();
    minmax(&Position::default(), Yellow, 3, &mut dupes);
    let counts: Vec<u64> = dupes.values().copied().collect();
    let hist = histogram(&counts);
    let expected: BTreeMap<u64, u32> = [(1, 190), (2, 105)].into_iter().collect();
    assert_eq!(hist, expected);
    assert_eq!(total_visits(&counts), Some(400));
}
