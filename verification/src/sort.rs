//! Comparison sort under the chunked worker pattern: each worker sorts its
//! own chunk in place, leaving one sorted run per chunk at the recorded chunk
//! boundaries; the recombiner then merges the runs pairwise over those
//! boundaries — never over midpoints guessed from a single chunk length —
//! into one sorted sequence.

use vstd::prelude::*;
use vstd::seq_lib::{lemma_multiset_commutative, lemma_sorted_unique};
use vstd::relations::{sorted_by, total_ordering};
use crate::partition::{partition, ChunkRange, PartitionError, lemma_partition_properties};

verus! {

/// `s` is non-decreasing on the index range `[lo, hi)`.
pub open spec fn sorted_between(s: Seq<i32>, lo: int, hi: int) -> bool {
    forall|x: int, y: int| lo <= x < y < hi ==> #[trigger] s[x] <= #[trigger] s[y]
}

/// `s` is non-decreasing throughout.
pub open spec fn sorted(s: Seq<i32>) -> bool {
    sorted_between(s, 0, s.len() as int)
}

/// The three-way comparison the sort kernel orders elements by.
pub fn compare(a: &i32, b: &i32) -> (r: core::cmp::Ordering)
    ensures
        r == core::cmp::Ordering::Less <==> *a < *b,
        r == core::cmp::Ordering::Equal <==> *a == *b,
        r == core::cmp::Ordering::Greater <==> *a > *b,
{
    if *a < *b {
        core::cmp::Ordering::Less
    } else if *a == *b {
        core::cmp::Ordering::Equal
    } else {
        core::cmp::Ordering::Greater
    }
}

/// Swapping two positions of a sequence preserves its multiset of elements.
proof fn lemma_swap_preserves_multiset(s: Seq<i32>, i: int, j: int)
    requires
        0 <= i < j < s.len(),
    ensures
        s.update(i, s[j]).update(j, s[i]).to_multiset() == s.to_multiset(),
{
    broadcast use vstd::seq_lib::group_to_multiset_ensures;
    broadcast use vstd::multiset::group_multiset_axioms;

    let s1 = s.update(i, s[j]);
    let s2 = s1.update(j, s[i]);
    assert(s.to_multiset().contains(s[i])) by {
        assert(s.contains(s[i]));
    };
    assert(s1.to_multiset() == s.to_multiset().remove(s[i]).insert(s[j]));
    assert(s1[j] == s[j]);
    assert(s2.to_multiset() == s1.to_multiset().remove(s[j]).insert(s[i]));
    assert(s2.to_multiset() =~= s.to_multiset());
}

/// Two sequences that agree outside `[lo, hi)` and whose `[lo, hi)` slices
/// hold the same elements hold the same elements overall.
pub proof fn lemma_multiset_from_parts(s1: Seq<i32>, s2: Seq<i32>, lo: int, hi: int)
    requires
        s1.len() == s2.len(),
        0 <= lo <= hi <= s1.len(),
        s1.subrange(lo, hi).to_multiset() == s2.subrange(lo, hi).to_multiset(),
        forall|k: int| 0 <= k < s1.len() && !(lo <= k < hi) ==> s1[k] == #[trigger] s2[k],
    ensures
        s1.to_multiset() == s2.to_multiset(),
{
    let n = s1.len() as int;
    assert(s1 =~= (s1.subrange(0, lo) + s1.subrange(lo, hi)) + s1.subrange(hi, n));
    assert(s2 =~= (s2.subrange(0, lo) + s2.subrange(lo, hi)) + s2.subrange(hi, n));
    lemma_multiset_commutative(s1.subrange(0, lo) + s1.subrange(lo, hi), s1.subrange(hi, n));
    lemma_multiset_commutative(s1.subrange(0, lo), s1.subrange(lo, hi));
    lemma_multiset_commutative(s2.subrange(0, lo) + s2.subrange(lo, hi), s2.subrange(hi, n));
    lemma_multiset_commutative(s2.subrange(0, lo), s2.subrange(lo, hi));
    assert(s1.subrange(0, lo) =~= s2.subrange(0, lo));
    assert(s1.subrange(hi, n) =~= s2.subrange(hi, n));
}

/// One worker's payload: sorts exactly the sub-range `[start_idx, end_idx]`
/// (both ends inclusive) of the array in place, by an insertion sort of
/// adjacent swaps, touching no element outside the sub-range.  The range may
/// be empty (`start_idx == end_idx + 1`), in which case nothing moves.
pub fn sort_chunk(arr: &mut Vec<i32>, start_idx: usize, end_idx: usize)
    requires
        start_idx <= end_idx + 1,
        end_idx < old(arr)@.len(),
    ensures
        final(arr)@.len() == old(arr)@.len(),
        sorted_between(final(arr)@, start_idx as int, end_idx + 1),
        final(arr)@.subrange(start_idx as int, end_idx + 1).to_multiset() == old(arr)@.subrange(
            start_idx as int,
            end_idx + 1,
        ).to_multiset(),
        forall|k: int|
            0 <= k < old(arr)@.len() && !(start_idx <= k <= end_idx) ==> final(arr)@[k] == old(
                arr,
            )@[k],
{
    let ghost orig = arr@;
    if start_idx > end_idx {
        return;
    }
    let len: usize = arr.len();
    let mut i: usize = start_idx + 1;
    while i <= end_idx
        invariant
            start_idx <= end_idx < arr@.len(),
            len == arr@.len(),
            arr@.len() == orig.len(),
            start_idx + 1 <= i <= end_idx + 1,
            sorted_between(arr@, start_idx as int, i as int),
            arr@.to_multiset() == orig.to_multiset(),
            forall|k: int|
                0 <= k < orig.len() && !(start_idx <= k <= end_idx) ==> arr@[k] == #[trigger] orig[k],
        decreases end_idx + 1 - i,
    {
        let mut j: usize = i;
        while j > start_idx && arr[j - 1] > arr[j]
            invariant
                start_idx <= j <= i <= end_idx < arr@.len(),
                arr@.len() == orig.len(),
                arr@.to_multiset() == orig.to_multiset(),
                forall|k: int|
                    0 <= k < orig.len() && !(start_idx <= k <= end_idx) ==> arr@[k]
                        == #[trigger] orig[k],
                forall|x: int, y: int|
                    start_idx <= x < y <= i && y != j ==> #[trigger] arr@[x] <= #[trigger] arr@[y],
            decreases j,
        {
            let a: i32 = arr[j - 1];
            let b: i32 = arr[j];
            let ghost pre = arr@;
            arr.set(j - 1, b);
            arr.set(j, a);
            proof {
                lemma_swap_preserves_multiset(pre, j - 1, j as int);
                assert(arr@ == pre.update(j - 1, b).update(j as int, a));
            }
            j = j - 1;
        }
        i = i + 1;
    }
    proof {
        lemma_subrange_multiset_from_whole(orig, arr@, start_idx as int, end_idx + 1);
    }
}

/// Two sequences that agree outside `[lo, hi)` and hold the same elements
/// overall hold the same elements on `[lo, hi)`.
proof fn lemma_subrange_multiset_from_whole(s1: Seq<i32>, s2: Seq<i32>, lo: int, hi: int)
    requires
        s1.len() == s2.len(),
        0 <= lo <= hi <= s1.len(),
        s1.to_multiset() == s2.to_multiset(),
        forall|k: int| 0 <= k < s1.len() && !(lo <= k < hi) ==> s1[k] == #[trigger] s2[k],
    ensures
        s1.subrange(lo, hi).to_multiset() == s2.subrange(lo, hi).to_multiset(),
{
    broadcast use vstd::multiset::group_multiset_axioms;

    let n = s1.len() as int;
    assert(s1 =~= (s1.subrange(0, lo) + s1.subrange(lo, hi)) + s1.subrange(hi, n));
    assert(s2 =~= (s2.subrange(0, lo) + s2.subrange(lo, hi)) + s2.subrange(hi, n));
    lemma_multiset_commutative(s1.subrange(0, lo) + s1.subrange(lo, hi), s1.subrange(hi, n));
    lemma_multiset_commutative(s1.subrange(0, lo), s1.subrange(lo, hi));
    lemma_multiset_commutative(s2.subrange(0, lo) + s2.subrange(lo, hi), s2.subrange(hi, n));
    lemma_multiset_commutative(s2.subrange(0, lo), s2.subrange(lo, hi));
    assert(s1.subrange(0, lo) =~= s2.subrange(0, lo));
    assert(s1.subrange(hi, n) =~= s2.subrange(hi, n));
    let a = s1.subrange(0, lo).to_multiset();
    let c = s1.subrange(hi, n).to_multiset();
    let b1 = s1.subrange(lo, hi).to_multiset();
    let b2 = s2.subrange(lo, hi).to_multiset();
    assert(a.add(b1).add(c) == a.add(b2).add(c));
    assert forall|x: i32| true implies b1.count(x) == b2.count(x) by {
        assert(a.add(b1).add(c).count(x) == a.count(x) + b1.count(x) + c.count(x));
        assert(a.add(b2).add(c).count(x) == a.count(x) + b2.count(x) + c.count(x));
    }
    assert(b1 =~= b2);
}

/// Copies the element range `[lo, hi)` of `src` into a fresh vector.
fn copy_range(src: &Vec<i32>, lo: usize, hi: usize) -> (r: Vec<i32>)
    requires
        lo <= hi <= src@.len(),
    ensures
        r@ == src@.subrange(lo as int, hi as int),
{
    let mut r: Vec<i32> = Vec::new();
    let mut t: usize = lo;
    while t < hi
        invariant
            lo <= t <= hi <= src@.len(),
            r@ == src@.subrange(lo as int, t as int),
        decreases hi - t,
    {
        r.push(src[t]);
        proof {
            assert(r@ =~= src@.subrange(lo as int, t + 1));
        }
        t = t + 1;
    }
    r
}

/// Recombiner step: merges the two adjacent sorted runs `[start, mid]` and
/// `[mid + 1, end]` (all ends inclusive) of `arr` into one sorted run
/// `[start, end]`, touching no element outside it.
pub fn merge(arr: &mut Vec<i32>, start: usize, mid: usize, end: usize)
    requires
        start <= mid <= end < old(arr)@.len(),
    ensures
        final(arr)@.len() == old(arr)@.len(),
        sorted_between(old(arr)@, start as int, mid + 1) && sorted_between(
            old(arr)@,
            mid + 1,
            end + 1,
        ) ==> sorted_between(final(arr)@, start as int, end + 1),
        final(arr)@.subrange(start as int, end + 1).to_multiset() == old(arr)@.subrange(
            start as int,
            end + 1,
        ).to_multiset(),
        forall|k: int|
            0 <= k < old(arr)@.len() && !(start <= k <= end) ==> final(arr)@[k] == old(arr)@[k],
{
    broadcast use vstd::seq_lib::group_to_multiset_ensures;
    broadcast use vstd::multiset::group_multiset_axioms;

    let ghost orig = arr@;
    let len: usize = arr.len();
    let left: Vec<i32> = copy_range(arr, start, mid + 1);
    let right: Vec<i32> = copy_range(arr, mid + 1, end + 1);
    let llen: usize = left.len();
    let rlen: usize = right.len();
    let mut i: usize = 0;
    let mut j: usize = 0;
    let mut k: usize = start;
    while i < llen || j < rlen
        invariant
            start <= mid <= end < orig.len(),
            len == arr@.len(),
            arr@.len() == orig.len(),
            left@ == orig.subrange(start as int, mid + 1),
            right@ == orig.subrange(mid + 1, end + 1),
            llen == left@.len(),
            rlen == right@.len(),
            i <= llen,
            j <= rlen,
            k == start + i + j,
            forall|t: int| 0 <= t < orig.len() && !(start <= t < k) ==> arr@[t] == #[trigger] orig[t],
            arr@.subrange(start as int, k as int).to_multiset() == left@.take(i as int).to_multiset().add(
                right@.take(j as int).to_multiset(),
            ),
            sorted_between(left@, 0, llen as int) && sorted_between(right@, 0, rlen as int) ==> {
                &&& sorted_between(arr@, start as int, k as int)
                &&& (k > start && i < llen ==> arr@[k - 1] <= left@[i as int])
                &&& (k > start && j < rlen ==> arr@[k - 1] <= right@[j as int])
            },
        decreases (llen - i) + (rlen - j),
    {
        let ghost pre = arr@;
        let take_left: bool = if j >= rlen {
            true
        } else if i >= llen {
            false
        } else {
            left[i] <= right[j]
        };
        if take_left {
            let v: i32 = left[i];
            arr.set(k, v);
            proof {
                assert(arr@.subrange(start as int, k as int) =~= pre.subrange(
                    start as int,
                    k as int,
                ));
                assert(arr@.subrange(start as int, k + 1) =~= pre.subrange(
                    start as int,
                    k as int,
                ).push(v));
                assert(left@.take(i + 1) =~= left@.take(i as int).push(v));
                let lm = left@.take(i as int).to_multiset();
                let rm = right@.take(j as int).to_multiset();
                vstd::seq_lib::to_multiset_build(left@.take(i as int), v);
                assert(left@.take(i as int).push(v).to_multiset() =~= lm.insert(v));
                assert(left@.take(i + 1).to_multiset() == lm.insert(v));
                vstd::seq_lib::to_multiset_build(pre.subrange(start as int, k as int), v);
                assert(pre.subrange(start as int, k as int).push(v).to_multiset() =~= pre.subrange(
                    start as int,
                    k as int,
                ).to_multiset().insert(v));
                assert(pre.subrange(start as int, k as int).to_multiset() == lm.add(rm));
                assert(lm.add(rm).insert(v) =~= lm.insert(v).add(rm)) by {
                    broadcast use vstd::multiset::group_multiset_axioms;
                };
                assert(arr@.subrange(start as int, k + 1).to_multiset() == lm.insert(v).add(rm));
            }
            i = i + 1;
        } else {
            let v: i32 = right[j];
            arr.set(k, v);
            proof {
                assert(arr@.subrange(start as int, k as int) =~= pre.subrange(
                    start as int,
                    k as int,
                ));
                assert(arr@.subrange(start as int, k + 1) =~= pre.subrange(
                    start as int,
                    k as int,
                ).push(v));
                assert(right@.take(j + 1) =~= right@.take(j as int).push(v));
                let lm = left@.take(i as int).to_multiset();
                let rm = right@.take(j as int).to_multiset();
                vstd::seq_lib::to_multiset_build(right@.take(j as int), v);
                assert(right@.take(j as int).push(v).to_multiset() =~= rm.insert(v));
                assert(right@.take(j + 1).to_multiset() == rm.insert(v));
                vstd::seq_lib::to_multiset_build(pre.subrange(start as int, k as int), v);
                assert(pre.subrange(start as int, k as int).push(v).to_multiset() =~= pre.subrange(
                    start as int,
                    k as int,
                ).to_multiset().insert(v));
                assert(pre.subrange(start as int, k as int).to_multiset() == lm.add(rm));
                assert(lm.add(rm).insert(v) =~= lm.add(rm.insert(v))) by {
                    broadcast use vstd::multiset::group_multiset_axioms;
                };
                assert(arr@.subrange(start as int, k + 1).to_multiset() == lm.add(rm.insert(v)));
            }
            j = j + 1;
        }
        k = k + 1;
    }
    proof {
        assert(left@.take(llen as int) =~= left@);
        assert(right@.take(rlen as int) =~= right@);
        assert(orig.subrange(start as int, end + 1) =~= left@ + right@);
        lemma_multiset_commutative(left@, right@);
        if sorted_between(orig, start as int, mid + 1) && sorted_between(orig, mid + 1, end + 1) {
            assert(sorted_between(left@, 0, llen as int)) by {
                assert forall|x: int, y: int|
                    0 <= x < y < llen implies #[trigger] left@[x] <= #[trigger] left@[y] by {
                    assert(left@[x] == orig[start + x]);
                    assert(left@[y] == orig[start + y]);
                }
            };
            assert(sorted_between(right@, 0, rlen as int)) by {
                assert forall|x: int, y: int|
                    0 <= x < y < rlen implies #[trigger] right@[x] <= #[trigger] right@[y] by {
                    assert(right@[x] == orig[mid + 1 + x]);
                    assert(right@[y] == orig[mid + 1 + y]);
                }
            };
        }
    }
}

/// Sorts the whole array under `num_workers` chunk payloads: every worker
/// sorts its own chunk, and the sorted runs are then merged pairwise over the
/// recorded chunk boundaries.
///
/// Succeeds exactly when `1 <= num_workers <= len`; on success the array is a
/// non-decreasing permutation of its old contents, and on failure it is
/// untouched.
pub fn sort_parallel(arr: &mut Vec<i32>, num_workers: usize) -> (res: Result<(), PartitionError>)
    ensures
        res is Ok <==> 1 <= num_workers <= old(arr)@.len(),
        res is Ok ==> sorted(final(arr)@) && final(arr)@.to_multiset() == old(arr)@.to_multiset()
            && final(arr)@.len() == old(arr)@.len(),
        res is Err ==> final(arr)@ == old(arr)@,
        res == Result::<(), PartitionError>::Err(PartitionError::ZeroWorkers) <==> num_workers
            == 0,
        res == Result::<(), PartitionError>::Err(PartitionError::TooManyWorkers) <==> num_workers
            > old(arr)@.len(),
{
    let n: usize = arr.len();
    let ranges: Vec<ChunkRange> = match partition(n, num_workers) {
        Ok(rs) => rs,
        Err(e) => {
            return Err(e);
        },
    };
    let w: usize = ranges.len();
    proof {
        lemma_partition_properties(ranges@, n as int, w as int);
    }
    let ghost orig = arr@;
    let mut t: usize = 0;
    while t < w
        invariant
            w == ranges@.len(),
            1 <= w <= n,
            n == arr@.len(),
            orig.len() == n,
            ranges@[0].start == 0,
            ranges@[w - 1].end == n,
            forall|u: int, v: int|
                0 <= u < v < w ==> (#[trigger] ranges@[u]).end <= (#[trigger] ranges@[v]).start,
            forall|u: int| 0 <= u < w ==> (#[trigger] ranges@[u]).start < ranges@[u].end,
            forall|u: int| 0 <= u < w ==> (#[trigger] ranges@[u]).end <= n,
            t <= w,
            arr@.to_multiset() == orig.to_multiset(),
            forall|u: int|
                0 <= u < t ==> sorted_between(
                    arr@,
                    (#[trigger] ranges@[u]).start as int,
                    ranges@[u].end as int,
                ),
        decreases w - t,
    {
        let c: ChunkRange = ranges[t];
        let ghost pre = arr@;
        sort_chunk(arr, c.start, c.end - 1);
        proof {
            lemma_multiset_from_parts(pre, arr@, c.start as int, c.end as int);
            assert forall|u: int|
                0 <= u < t + 1 implies sorted_between(
                arr@,
                (#[trigger] ranges@[u]).start as int,
                ranges@[u].end as int,
            ) by {
                if u < t {
                    assert(ranges@[u].end <= ranges@[t as int].start);
                    assert forall|x: int, y: int|
                        ranges@[u].start <= x < y < ranges@[u].end implies #[trigger] arr@[x]
                            <= #[trigger] arr@[y] by {
                        assert(arr@[x] == pre[x]);
                        assert(arr@[y] == pre[y]);
                    }
                }
            }
        }
        t = t + 1;
    }
    let mut t: usize = 1;
    while t < w
        invariant
            w == ranges@.len(),
            1 <= w <= n,
            n == arr@.len(),
            orig.len() == n,
            ranges@[0].start == 0,
            ranges@[w - 1].end == n,
            forall|u: int, v: int|
                0 <= u < v < w ==> (#[trigger] ranges@[u]).end <= (#[trigger] ranges@[v]).start,
            forall|u: int| 0 <= u < w ==> (#[trigger] ranges@[u]).start < ranges@[u].end,
            forall|u: int| 0 <= u < w ==> (#[trigger] ranges@[u]).end <= n,
            forall|u: int| 0 <= u < w - 1 ==> (#[trigger] ranges@[u]).end == ranges@[u + 1].start,
            1 <= t <= w,
            arr@.to_multiset() == orig.to_multiset(),
            sorted_between(arr@, 0, ranges@[t - 1].end as int),
            forall|u: int|
                t <= u < w ==> sorted_between(
                    arr@,
                    (#[trigger] ranges@[u]).start as int,
                    ranges@[u].end as int,
                ),
        decreases w - t,
    {
        let c: ChunkRange = ranges[t];
        let prev_end: usize = ranges[t - 1].end;
        let ghost pre = arr@;
        merge(arr, 0, prev_end - 1, c.end - 1);
        proof {
            lemma_multiset_from_parts(pre, arr@, 0, c.end as int);
            assert forall|u: int|
                t + 1 <= u < w implies sorted_between(
                arr@,
                (#[trigger] ranges@[u]).start as int,
                ranges@[u].end as int,
            ) by {
                assert(ranges@[t as int].end <= ranges@[u].start);
                assert forall|x: int, y: int|
                    ranges@[u].start <= x < y < ranges@[u].end implies #[trigger] arr@[x]
                        <= #[trigger] arr@[y] by {
                    assert(arr@[x] == pre[x]);
                    assert(arr@[y] == pre[y]);
                }
            }
        }
        t = t + 1;
    }
    Ok(())
}

/// Any two sorted sequences holding the same elements are the same sequence:
/// a sort's output is unique, whatever worker count or schedule produced it.
pub proof fn lemma_sorted_permutation_unique(s1: Seq<i32>, s2: Seq<i32>)
    requires
        sorted(s1),
        sorted(s2),
        s1.to_multiset() == s2.to_multiset(),
    ensures
        s1 == s2,
{
    let leq = |x: i32, y: i32| x <= y;
    assert(total_ordering(leq)) by {
        assert forall|x: i32, y: i32, z: i32| #[trigger] leq(x, y) && #[trigger] leq(y, z) implies leq(
            x,
            z,
        ) by {}
    }
    assert(sorted_by(s1, leq));
    assert(sorted_by(s2, leq));
    lemma_sorted_unique(s1, s2, leq);
    assert(s1 =~= s2);
}

} // verus!
