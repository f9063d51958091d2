use chunkbench::sieve::{collect_primes, isqrt, sieve, sieve_part};
use chunkbench::partition::PartitionError;

#[test]
fn isqrt_small_values() {
    assert_eq!(isqrt(0), 0);
    assert_eq!(isqrt(1), 1);
    assert_eq!(isqrt(3), 1);
    assert_eq!(isqrt(4), 2);
    assert_eq!(isqrt(8), 2);
    assert_eq!(isqrt(9), 3);
    assert_eq!(isqrt(30), 5);
    assert_eq!(isqrt(35), 5);
    assert_eq!(isqrt(36), 6);
    assert_eq!(isqrt(100_000), 316);
}

#[test]
fn primes_up_to_thirty_for_every_worker_count() {
    let expected = vec![2usize, 3, 5, 7, 11, 13, 17, 19, 23, 29];
    for w in 1..=29usize {
        let bits = sieve(30, w).unwrap();
        assert_eq!(collect_primes(&bits), expected, "wrong primes for w={}", w);
    }
}

#[test]
fn indices_zero_and_one_never_reported() {
    let bits = sieve(30, 4).unwrap();
    // the sieve itself leaves 0 and 1 at their initial true ...
    assert!(bits[0]);
    assert!(bits[1]);
    // ... and the consumer excludes them explicitly.
    let ps = collect_primes(&bits);
    assert!(!ps.contains(&0));
    assert!(!ps.contains(&1));
    assert_eq!(ps[0], 2);
}

#[test]
fn smallest_bound() {
    let bits = sieve(2, 1).unwrap();
    assert_eq!(collect_primes(&bits), vec![2]);
}

#[test]
fn primes_up_to_one_hundred() {
    let expected = vec![
        2usize, 3, 5, 7, 11, 13, 17, 19, 23, 29, 31, 37, 41, 43, 47, 53, 59, 61, 67, 71, 73, 79,
        83, 89, 97,
    ];
    for w in [1usize, 3, 8] {
        let bits = sieve(100, w).unwrap();
        assert_eq!(collect_primes(&bits), expected);
    }
}

#[test]
fn sieve_part_marks_exactly_the_composites() {
    let mut bits = vec![true; 31];
    sieve_part(&mut bits, 2, 30);
    for k in 2..=30usize {
        let is_prime = [2, 3, 5, 7, 11, 13, 17, 19, 23, 29].contains(&k);
        assert_eq!(bits[k], is_prime, "wrong bit for {}", k);
    }
    assert!(bits[0] && bits[1]);
}

#[test]
fn sieve_part_is_idempotent() {
    let mut once = vec![true; 51];
    sieve_part(&mut once, 2, 50);
    let mut twice = once.clone();
    sieve_part(&mut twice, 2, 50);
    assert_eq!(once, twice);
}

#[test]
fn marking_passes_commute() {
    let mut forward = vec![true; 101];
    sieve_part(&mut forward, 2, 60);
    sieve_part(&mut forward, 2, 100);
    let mut backward = vec![true; 101];
    sieve_part(&mut backward, 2, 100);
    sieve_part(&mut backward, 2, 60);
    assert_eq!(forward, backward);
}

#[test]
fn marking_only_clears_bits() {
    let mut bits = vec![true; 31];
    sieve_part(&mut bits, 2, 30);
    let snapshot = bits.clone();
    sieve_part(&mut bits, 2, 25);
    for k in 0..=30usize {
        assert!(!bits[k] || snapshot[k], "a pass turned bit {} back on", k);
    }
}

#[test]
fn rerunning_sieve_gives_identical_output() {
    let first = sieve(200, 5).unwrap();
    let second = sieve(200, 5).unwrap();
    assert_eq!(first, second);
    // and a different worker count gives the same array
    let third = sieve(200, 7).unwrap();
    assert_eq!(first, third);
}

#[test]
fn invalid_worker_counts_rejected() {
    assert_eq!(sieve(30, 0).unwrap_err(), PartitionError::ZeroWorkers);
    assert_eq!(sieve(30, 30).unwrap_err(), PartitionError::TooManyWorkers);
    assert_eq!(sieve(2, 2).unwrap_err(), PartitionError::TooManyWorkers);
}
