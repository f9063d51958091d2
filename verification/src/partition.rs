//! Chunk partitioner: splits a problem of size `n` into `num_workers`
//! contiguous, non-overlapping, gap-free index ranges covering `[0, n)`.
//! The base chunk length is `n / num_workers`; the last chunk ends at `n`
//! and so absorbs the remainder of the integer division.

use vstd::prelude::*;
use vstd::arithmetic::div_mod::{lemma_fundamental_div_mod, lemma_mod_bound};
use vstd::arithmetic::mul::{lemma_mul_inequality, lemma_mul_is_distributive_add_other_way};

verus! {

/// A contiguous index range `[start, end)` assigned exclusively to one worker.
#[derive(Clone, Copy, PartialEq, Eq, Structural, Debug)]
pub struct ChunkRange {
    pub start: usize,
    pub end: usize,
}

/// Why a partition request is rejected, before any worker is started.
#[derive(Clone, Copy, PartialEq, Eq, Structural, Debug)]
pub enum PartitionError {
    /// No worker at all can make no progress.
    ZeroWorkers,
    /// More workers than elements would leave some worker an empty chunk.
    TooManyWorkers,
}

/// The base chunk length: problem size over worker count, rounded down.
pub open spec fn base_chunk(n: int, w: int) -> int {
    n / w
}

/// The chunk layout this library always produces: `w` ranges of
/// `base_chunk(n, w)` elements each, except the last, which ends at `n`.
pub open spec fn is_chunk_layout(rs: Seq<ChunkRange>, n: int, w: int) -> bool {
    &&& rs.len() == w
    &&& forall|i: int| 0 <= i < w ==> (#[trigger] rs[i]).start == i * base_chunk(n, w)
    &&& forall|i: int| 0 <= i < w - 1 ==> (#[trigger] rs[i]).end == (i + 1) * base_chunk(n, w)
    &&& w >= 1 ==> rs[w - 1].end == n
}

/// Whether index `k` falls inside some chunk of `rs`.
pub open spec fn covered_by(rs: Seq<ChunkRange>, k: int) -> bool {
    exists|i: int| 0 <= i < rs.len() && (#[trigger] rs[i]).start <= k < rs[i].end
}

/// The number of indices one chunk owns.
pub open spec fn chunk_len(r: ChunkRange) -> int {
    r.end - r.start
}

/// The total number of indices owned by a sequence of chunks.
pub open spec fn total_len(rs: Seq<ChunkRange>) -> int
    decreases rs.len(),
{
    if rs.len() == 0 {
        0
    } else {
        total_len(rs.drop_last()) + chunk_len(rs.last())
    }
}

/// Splits `[0, n)` into `num_workers` contiguous chunks.
///
/// Succeeds exactly when `1 <= num_workers <= n`, so that every chunk is
/// non-empty; the incompatible worker counts are reported before any worker
/// would be started.
pub fn partition(n: usize, num_workers: usize) -> (res: Result<Vec<ChunkRange>, PartitionError>)
    ensures
        res is Ok <==> 1 <= num_workers <= n,
        res == Result::<Vec<ChunkRange>, PartitionError>::Err(PartitionError::ZeroWorkers) <==> num_workers == 0,
        res == Result::<Vec<ChunkRange>, PartitionError>::Err(PartitionError::TooManyWorkers) <==> num_workers > n,
        res matches Ok(rs) ==> {
            &&& is_chunk_layout(rs@, n as int, num_workers as int)
            &&& rs@.len() == num_workers
            &&& rs@[0].start == 0
            &&& rs@[num_workers - 1].end == n
            &&& forall|i: int| 0 <= i < num_workers - 1 ==> (#[trigger] rs@[i]).end == rs@[i + 1].start
            &&& forall|i: int| 0 <= i < num_workers ==> (#[trigger] rs@[i]).start < rs@[i].end
            &&& forall|i: int| 0 <= i < num_workers ==> (#[trigger] rs@[i]).end <= n
        },
{
    if num_workers == 0 {
        return Err(PartitionError::ZeroWorkers);
    }
    if num_workers > n {
        return Err(PartitionError::TooManyWorkers);
    }
    let w: usize = num_workers;
    let c: usize = n / w;
    proof {
        lemma_fundamental_div_mod(n as int, w as int);
        lemma_mod_bound(n as int, w as int);
        assert(w * c <= n);
        assert(c >= 1) by (nonlinear_arith)
            requires
                n == w * c + (n as int) % (w as int),
                0 <= (n as int) % (w as int),
                (n as int) % (w as int) < w,
                1 <= w,
                w <= n,
        ;
    }
    let mut rs: Vec<ChunkRange> = Vec::new();
    let mut i: usize = 0;
    while i < w
        invariant
            1 <= w <= n,
            c == base_chunk(n as int, w as int),
            c >= 1,
            w * c <= n,
            i <= w,
            rs@.len() == i,
            forall|t: int| 0 <= t < i ==> (#[trigger] rs@[t]).start == t * c,
            forall|t: int| 0 <= t < i && t < w - 1 ==> (#[trigger] rs@[t]).end == (t + 1) * c,
            i == w ==> rs@[w - 1].end == n,
            forall|t: int| 0 <= t < i ==> (#[trigger] rs@[t]).start < rs@[t].end,
            forall|t: int| 0 <= t < i ==> (#[trigger] rs@[t]).end <= n,
        decreases w - i,
    {
        proof {
            lemma_mul_inequality(i as int, w as int, c as int);
            lemma_mul_inequality(i + 1 as int, w as int, c as int);
            lemma_mul_is_distributive_add_other_way(c as int, i as int, 1);
            assert((i + 1) * c == i * c + c);
            assert(i * c <= n);
            assert((i + 1) * c <= n);
        }
        let start: usize = i * c;
        let end: usize = if i == w - 1 { n } else { (i + 1) * c };
        proof {
            if i == w - 1 {
                assert(start + c <= w * c <= n) by {
                    lemma_mul_inequality(i + 1 as int, w as int, c as int);
                };
            }
        }
        rs.push(ChunkRange { start, end });
        i = i + 1;
    }
    Ok(rs)
}

/// The chunks of a partition are pairwise disjoint, ordered, non-empty,
/// bounded by `n`, cover `[0, n)` exactly, and their lengths sum to `n`.
pub proof fn lemma_partition_properties(rs: Seq<ChunkRange>, n: int, w: int)
    requires
        1 <= w <= n,
        is_chunk_layout(rs, n, w),
    ensures
        forall|i: int, j: int| 0 <= i < j < w ==> (#[trigger] rs[i]).end <= (#[trigger] rs[j]).start,
        forall|i: int| 0 <= i < w ==> (#[trigger] rs[i]).start < rs[i].end,
        forall|i: int| 0 <= i < w ==> 0 <= (#[trigger] rs[i]).start && rs[i].end <= n,
        forall|k: int| 0 <= k < n ==> #[trigger] covered_by(rs, k),
        total_len(rs) == n,
{
    let c = base_chunk(n, w);
    lemma_fundamental_div_mod(n, w);
    lemma_mod_bound(n, w);
    assert(w * c <= n);
    assert(c >= 1) by (nonlinear_arith)
        requires
            n == w * c + n % w,
            0 <= n % w,
            n % w < w,
            1 <= w,
            w <= n,
    ;
    assert forall|i: int| 0 <= i < w implies (#[trigger] rs[i]).start < rs[i].end
        && 0 <= rs[i].start && rs[i].end <= n by {
        lemma_mul_inequality(i, w, c);
        lemma_mul_inequality(i + 1, w, c);
        lemma_mul_is_distributive_add_other_way(c, i, 1);
        assert(i * c >= 0) by (nonlinear_arith)
            requires
                i >= 0,
                c >= 1,
        ;
        if i < w - 1 {
            assert(rs[i].end == i * c + c);
        } else {
            assert(rs[i].start + c <= w * c);
        }
    }
    assert forall|i: int, j: int| 0 <= i < j < w implies (#[trigger] rs[i]).end <= (#[trigger] rs[j]).start by {
        lemma_mul_inequality(i + 1, j, c);
    }
    assert forall|k: int| 0 <= k < n implies #[trigger] covered_by(rs, k) by {
        lemma_fundamental_div_mod(k, c);
        lemma_mod_bound(k, c);
        let q = k / c;
        assert(q >= 0) by (nonlinear_arith)
            requires
                k == c * q + k % c,
                0 <= k % c,
                k % c < c,
                k >= 0,
                c >= 1,
        ;
        if q < w - 1 {
            lemma_mul_is_distributive_add_other_way(c, q, 1);
            assert(rs[q].start == q * c == c * q <= k);
            assert(k < c * q + c == (q + 1) * c == rs[q].end);
            assert(rs[q].start <= k < rs[q].end);
        } else {
            lemma_mul_inequality(w - 1, q, c);
            assert(rs[w - 1].start == (w - 1) * c <= q * c == c * q <= k);
            assert(rs[w - 1].start <= k < n == rs[w - 1].end);
        }
    }
    lemma_total_len_prefix(rs, n, w, w);
    assert(rs.take(w) =~= rs);
}

/// The lengths of the first `m` chunks of a partition sum to `m` base chunks,
/// and of all `w` chunks to `n` exactly.
proof fn lemma_total_len_prefix(rs: Seq<ChunkRange>, n: int, w: int, m: int)
    requires
        1 <= w <= n,
        is_chunk_layout(rs, n, w),
        0 <= m <= w,
    ensures
        total_len(rs.take(m)) == if m < w { m * base_chunk(n, w) } else { n },
    decreases m,
{
    let c = base_chunk(n, w);
    lemma_fundamental_div_mod(n, w);
    lemma_mod_bound(n, w);
    if m == 0 {
        assert(rs.take(0) =~= Seq::<ChunkRange>::empty());
        assert(total_len(rs.take(0)) == 0);
    } else {
        lemma_total_len_prefix(rs, n, w, m - 1);
        assert(rs.take(m).drop_last() =~= rs.take(m - 1));
        assert(rs.take(m).last() == rs[m - 1]);
        lemma_mul_is_distributive_add_other_way(c, m - 1, 1);
        assert((m - 1) * c + c == m * c);
        if m < w {
            assert(chunk_len(rs[m - 1]) == m * c - (m - 1) * c);
        } else {
            assert(rs[m - 1].end == n);
            assert(rs[m - 1].start == (m - 1) * c);
        }
    }
}

} // verus!
