use chunkbench::sort::{compare, merge, sort_chunk, sort_parallel};
use chunkbench::partition::PartitionError;
use std::cmp::Ordering;

fn counts(v: &[i32]) -> std::collections::BTreeMap<i32, usize> {
    let mut m = std::collections::BTreeMap::new();
    for &x in v {
        *m.entry(x).or_insert(0) += 1;
    }
    m
}

#[test]
fn compare_orders_three_ways() {
    assert_eq!(compare(&1, &2), Ordering::Less);
    assert_eq!(compare(&2, &2), Ordering::Equal);
    assert_eq!(compare(&3, &2), Ordering::Greater);
    assert_eq!(compare(&-5, &5), Ordering::Less);
}

#[test]
fn sort_chunk_touches_only_its_range() {
    let mut v = vec![9, 5, 4, 3, 2, 8];
    sort_chunk(&mut v, 1, 4);
    assert_eq!(v, vec![9, 2, 3, 4, 5, 8]);
}

#[test]
fn sort_chunk_whole_array() {
    let mut v = vec![3, 1, 4, 1, 5, 9, 2, 6];
    sort_chunk(&mut v, 0, 7);
    assert_eq!(v, vec![1, 1, 2, 3, 4, 5, 6, 9]);
}

#[test]
fn sort_chunk_empty_range_changes_nothing() {
    let input = vec![3, 1, 2];
    let mut v = input.clone();
    // start_idx == end_idx + 1: the empty chunk shape
    sort_chunk(&mut v, 2, 1);
    assert_eq!(v, input);
}

#[test]
fn merge_with_empty_right_run() {
    // mid == end: the right run is empty and the window is left as it was
    let mut v = vec![1, 2, 3, 9];
    merge(&mut v, 0, 2, 2);
    assert_eq!(v, vec![1, 2, 3, 9]);
}

#[test]
fn merge_permutes_window_even_on_unsorted_runs() {
    // element preservation and the frame do not depend on the runs being
    // sorted; only sortedness of the output does
    let input = vec![7, 9, 1, 8, 2, 7];
    let mut v = input.clone();
    merge(&mut v, 1, 2, 4);
    assert_eq!(v[0], 7);
    assert_eq!(v[5], 7);
    let mut window: Vec<i32> = v[1..5].to_vec();
    window.sort();
    assert_eq!(window, vec![1, 2, 8, 9]);
}

#[test]
fn merge_two_adjacent_runs() {
    let mut v = vec![1, 3, 5, 2, 4, 6];
    merge(&mut v, 0, 2, 5);
    assert_eq!(v, vec![1, 2, 3, 4, 5, 6]);
}

#[test]
fn merge_leaves_outside_untouched() {
    let mut v = vec![42, 1, 4, 2, 3, 42];
    merge(&mut v, 1, 2, 4);
    assert_eq!(v, vec![42, 1, 2, 3, 4, 42]);
}

#[test]
fn merge_unequal_runs() {
    let mut v = vec![10, 2, 3, 5, 7, 1, 11];
    merge(&mut v, 1, 4, 6);
    assert_eq!(v, vec![10, 1, 2, 3, 5, 7, 11]);
}

#[test]
fn sort_parallel_sorts_and_permutes() {
    let input = vec![
        883, 12, -4, 997, 0, 55, 55, -120, 7, 301, 42, 9, -4, 68, 500, 23, 1, 76, -999, 14,
    ];
    let before = counts(&input);
    for w in [1usize, 2, 4, 7] {
        let mut v = input.clone();
        sort_parallel(&mut v, w).unwrap();
        assert!(v.windows(2).all(|p| p[0] <= p[1]), "not sorted for w={}", w);
        assert_eq!(counts(&v), before, "not a permutation for w={}", w);
    }
}

#[test]
fn worker_counts_agree_on_one_input() {
    let input = vec![5, 3, 8, 1, 9, 2, 7, 4, 6, 0, 5, 3, 8, 1];
    let mut reference = input.clone();
    sort_parallel(&mut reference, 1).unwrap();
    for w in [2usize, 4, 7] {
        let mut v = input.clone();
        sort_parallel(&mut v, w).unwrap();
        assert_eq!(v, reference, "worker count {} disagrees", w);
    }
}

#[test]
fn rerunning_sort_gives_identical_output() {
    let input = vec![4, -1, 4, 2, 2, 0, 9];
    let mut first = input.clone();
    sort_parallel(&mut first, 3).unwrap();
    let mut second = input.clone();
    sort_parallel(&mut second, 3).unwrap();
    assert_eq!(first, second);
    let mut again = first.clone();
    sort_parallel(&mut again, 3).unwrap();
    assert_eq!(again, first);
}

#[test]
fn invalid_worker_counts_leave_array_untouched() {
    let input = vec![3, 2, 1];
    let mut v = input.clone();
    assert_eq!(sort_parallel(&mut v, 0), Err(PartitionError::ZeroWorkers));
    assert_eq!(v, input);
    let mut v = input.clone();
    assert_eq!(sort_parallel(&mut v, 4), Err(PartitionError::TooManyWorkers));
    assert_eq!(v, input);
    let mut empty: Vec<i32> = Vec::new();
    assert_eq!(sort_parallel(&mut empty, 1), Err(PartitionError::TooManyWorkers));
}

#[test]
fn already_sorted_and_reversed_inputs() {
    let mut v: Vec<i32> = (0..20).collect();
    sort_parallel(&mut v, 4).unwrap();
    assert_eq!(v, (0..20).collect::<Vec<i32>>());
    let mut v: Vec<i32> = (0..20).rev().collect();
    sort_parallel(&mut v, 4).unwrap();
    assert_eq!(v, (0..20).collect::<Vec<i32>>());
}
