use chunkbench::partition::{partition, ChunkRange, PartitionError};
use chunkbench::workers::{clamp_worker_count, default_worker_count};

fn ranges(n: usize, w: usize) -> Vec<ChunkRange> {
    partition(n, w).expect("partition should succeed")
}

#[test]
fn even_split() {
    let rs = ranges(10, 2);
    assert_eq!(rs.len(), 2);
    assert_eq!((rs[0].start, rs[0].end), (0, 5));
    assert_eq!((rs[1].start, rs[1].end), (5, 10));
}

#[test]
fn remainder_goes_to_last_chunk() {
    let rs = ranges(10, 3);
    assert_eq!(rs.len(), 3);
    assert_eq!((rs[0].start, rs[0].end), (0, 3));
    assert_eq!((rs[1].start, rs[1].end), (3, 6));
    assert_eq!((rs[2].start, rs[2].end), (6, 10));
}

#[test]
fn single_worker_owns_everything() {
    let rs = ranges(7, 1);
    assert_eq!(rs.len(), 1);
    assert_eq!((rs[0].start, rs[0].end), (0, 7));
}

#[test]
fn one_element_per_worker() {
    let rs = ranges(4, 4);
    for (i, r) in rs.iter().enumerate() {
        assert_eq!((r.start, r.end), (i, i + 1));
    }
}

#[test]
fn unequal_three_way_split_of_four() {
    let rs = ranges(4, 3);
    assert_eq!((rs[0].start, rs[0].end), (0, 1));
    assert_eq!((rs[1].start, rs[1].end), (1, 2));
    assert_eq!((rs[2].start, rs[2].end), (2, 4));
}

#[test]
fn zero_workers_rejected() {
    assert_eq!(partition(10, 0), Err(PartitionError::ZeroWorkers));
}

#[test]
fn more_workers_than_elements_rejected() {
    assert_eq!(partition(3, 4), Err(PartitionError::TooManyWorkers));
    assert_eq!(partition(0, 1), Err(PartitionError::TooManyWorkers));
}

#[test]
fn chunks_are_ordered_disjoint_and_cover_exactly() {
    for n in 1..40usize {
        for w in 1..=n {
            let rs = ranges(n, w);
            assert_eq!(rs.len(), w);
            assert_eq!(rs[0].start, 0);
            assert_eq!(rs[w - 1].end, n);
            let mut total = 0;
            for i in 0..w {
                assert!(rs[i].start < rs[i].end, "chunk {} empty for n={} w={}", i, n, w);
                if i + 1 < w {
                    assert_eq!(rs[i].end, rs[i + 1].start);
                }
                total += rs[i].end - rs[i].start;
            }
            assert_eq!(total, n);
        }
    }
}

#[test]
fn clamp_worker_count_exact_values() {
    assert_eq!(clamp_worker_count(4, 10), 4);
    assert_eq!(clamp_worker_count(4, 4), 4);
    assert_eq!(clamp_worker_count(4, 2), 2);
    assert_eq!(clamp_worker_count(1, 1), 1);
    assert_eq!(clamp_worker_count(64, 3), 3);
}

#[test]
fn default_worker_count_is_clamped() {
    for n in [1usize, 2, 3, 64, 1000] {
        let w = default_worker_count(n);
        assert!(1 <= w && w <= n);
    }
    assert_eq!(default_worker_count(1), 1);
}
