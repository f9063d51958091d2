//! Dense matrix multiplication under the chunked worker pattern: each worker
//! owns a block of result rows and reads all of both inputs; the recombiner
//! splices the blocks into the result by position, which is correct exactly
//! because the partitioner's row ranges are disjoint and cover every row.

use vstd::prelude::*;
use vstd::arithmetic::mul::{lemma_mul_inequality, lemma_mul_is_distributive_add_other_way};
use crate::partition::{partition, ChunkRange, PartitionError};

verus! {

/// Largest magnitude an input entry may have.  Together with `MAX_DIM` it
/// keeps every dot product inside `i64`.
pub const ENTRY_LIMIT: i32 = 32767;

/// Largest accepted matrix side.  Together with `ENTRY_LIMIT` it keeps every
/// dot product inside `i64`.
pub const MAX_DIM: usize = 0x7fff_ffff;

/// `m` is a square grid of side `n`.
pub open spec fn is_square(m: Seq<Seq<i32>>, n: int) -> bool {
    &&& m.len() == n
    &&& forall|i: int| 0 <= i < n ==> (#[trigger] m[i]).len() == n
}

/// Every entry of the square grid `m` lies in `[-ENTRY_LIMIT, ENTRY_LIMIT]`.
pub open spec fn entries_bounded(m: Seq<Seq<i32>>, n: int) -> bool {
    forall|i: int, j: int|
        0 <= i < n && 0 <= j < n ==> -(ENTRY_LIMIT as int) <= (#[trigger] m[i][j])
            <= ENTRY_LIMIT as int
}

/// The sum of the first `k` terms of the dot product of row `i` of `a` with
/// column `j` of `b`.
pub open spec fn dot_prefix(a: Seq<Seq<i32>>, b: Seq<Seq<i32>>, i: int, j: int, k: int) -> int
    decreases k,
{
    if k <= 0 {
        0
    } else {
        dot_prefix(a, b, i, j, k - 1) + a[i][k - 1] * b[k - 1][j]
    }
}

/// The entry at row `i`, column `j` of the product of the square matrices
/// `a` and `b`: the full dot product of row `i` of `a` and column `j` of `b`.
pub open spec fn product_entry(a: Seq<Seq<i32>>, b: Seq<Seq<i32>>, i: int, j: int) -> int {
    dot_prefix(a, b, i, j, a.len() as int)
}

/// `r` is exactly the matrix product of `a` and `b`, side `n`.
pub open spec fn is_product(a: Seq<Seq<i32>>, b: Seq<Seq<i32>>, r: Seq<Seq<i64>>, n: int) -> bool {
    &&& r.len() == n
    &&& forall|i: int| 0 <= i < n ==> (#[trigger] r[i]).len() == n
    &&& forall|i: int, j: int|
        0 <= i < n && 0 <= j < n ==> (#[trigger] r[i][j]) == product_entry(a, b, i, j)
}

/// Inputs a multiply accepts: two square matrices of one side, entries
/// bounded so that no dot product can leave `i64`.
pub open spec fn multiply_inputs_ok(a: Seq<Seq<i32>>, b: Seq<Seq<i32>>, n: int) -> bool {
    &&& is_square(a, n)
    &&& is_square(b, n)
    &&& entries_bounded(a, n)
    &&& entries_bounded(b, n)
    &&& n <= MAX_DIM as int
}

/// A partial dot product of `k` bounded terms stays within `k` times the
/// largest possible term.
proof fn lemma_dot_prefix_bound(a: Seq<Seq<i32>>, b: Seq<Seq<i32>>, n: int, i: int, j: int, k: int)
    requires
        multiply_inputs_ok(a, b, n),
        0 <= i < n,
        0 <= j < n,
        0 <= k <= n,
    ensures
        -(k * ((ENTRY_LIMIT as int) * (ENTRY_LIMIT as int))) <= dot_prefix(a, b, i, j, k)
            <= k * ((ENTRY_LIMIT as int) * (ENTRY_LIMIT as int)),
    decreases k,
{
    let lim2 = (ENTRY_LIMIT as int) * (ENTRY_LIMIT as int);
    if k > 0 {
        lemma_dot_prefix_bound(a, b, n, i, j, k - 1);
        let x = a[i][k - 1];
        let y = b[k - 1][j];
        assert(-lim2 <= x * y <= lim2) by (nonlinear_arith)
            requires
                -(ENTRY_LIMIT as int) <= x,
                x <= ENTRY_LIMIT as int,
                -(ENTRY_LIMIT as int) <= y,
                y <= ENTRY_LIMIT as int,
                lim2 == (ENTRY_LIMIT as int) * (ENTRY_LIMIT as int),
        ;
        lemma_mul_is_distributive_add_other_way(lim2, k - 1, 1);
        assert((k - 1) * lim2 + lim2 == k * lim2);
    }
}

/// One worker's payload: computes result rows `[start_row, end_row)` of the
/// product into a full-size buffer whose other rows are zero-filled.
pub fn multiply_row_block(
    a: &Vec<Vec<i32>>,
    b: &Vec<Vec<i32>>,
    start_row: usize,
    end_row: usize,
) -> (r: Vec<Vec<i64>>)
    requires
        multiply_inputs_ok(a.deep_view(), b.deep_view(), a@.len() as int),
        start_row <= end_row <= a@.len(),
    ensures
        r.deep_view().len() == a@.len(),
        forall|i: int| 0 <= i < a@.len() ==> (#[trigger] r.deep_view()[i]).len() == a@.len(),
        forall|i: int, j: int|
            start_row <= i < end_row && 0 <= j < a@.len() ==> (#[trigger] r.deep_view()[i][j])
                == product_entry(a.deep_view(), b.deep_view(), i, j),
        forall|i: int, j: int|
            0 <= i < a@.len() && 0 <= j < a@.len() && !(start_row <= i < end_row) ==> (
            #[trigger] r.deep_view()[i][j]) == 0,
{
    let ghost av = a.deep_view();
    let ghost bv = b.deep_view();
    let n: usize = a.len();
    let mut r: Vec<Vec<i64>> = Vec::new();
    let mut i: usize = 0;
    while i < n
        invariant
            multiply_inputs_ok(av, bv, n as int),
            av == a.deep_view(),
            bv == b.deep_view(),
            n == a@.len(),
            start_row <= end_row <= n,
            i <= n,
            r.deep_view().len() == i,
            forall|t: int| 0 <= t < i ==> (#[trigger] r.deep_view()[t]).len() == n,
            forall|t: int, j: int|
                start_row <= t < end_row && t < i && 0 <= j < n ==> (
                #[trigger] r.deep_view()[t][j]) == product_entry(av, bv, t, j),
            forall|t: int, j: int|
                0 <= t < i && 0 <= j < n && !(start_row <= t < end_row) ==> (
                #[trigger] r.deep_view()[t][j]) == 0,
        decreases n - i,
    {
        let mut row: Vec<i64> = Vec::new();
        if start_row <= i && i < end_row {
            let mut j: usize = 0;
            while j < n
                invariant
                    multiply_inputs_ok(av, bv, n as int),
                    av == a.deep_view(),
                    bv == b.deep_view(),
                    n == a@.len(),
                    0 <= i < n,
                    j <= n,
                    row@.len() == j,
                    forall|u: int| 0 <= u < j ==> (#[trigger] row@[u]) == product_entry(av, bv, i as int, u),
                decreases n - j,
            {
                let mut sum: i64 = 0;
                let mut k: usize = 0;
                while k < n
                    invariant
                        multiply_inputs_ok(av, bv, n as int),
                        av == a.deep_view(),
                        bv == b.deep_view(),
                        n == a@.len(),
                        0 <= i < n,
                        0 <= j < n,
                        k <= n,
                        sum == dot_prefix(av, bv, i as int, j as int, k as int),
                    decreases n - k,
                {
                    proof {
                        let lim2 = (ENTRY_LIMIT as int) * (ENTRY_LIMIT as int);
                        lemma_dot_prefix_bound(av, bv, n as int, i as int, j as int, k as int);
                        lemma_dot_prefix_bound(av, bv, n as int, i as int, j as int, k as int + 1);
                        lemma_mul_inequality(k as int + 1, MAX_DIM as int, lim2);
                        let x = av[i as int][k as int];
                        let y = bv[k as int][j as int];
                        assert(-lim2 <= x * y <= lim2) by (nonlinear_arith)
                            requires
                                -(ENTRY_LIMIT as int) <= x,
                                x <= ENTRY_LIMIT as int,
                                -(ENTRY_LIMIT as int) <= y,
                                y <= ENTRY_LIMIT as int,
                                lim2 == (ENTRY_LIMIT as int) * (ENTRY_LIMIT as int),
                        ;
                    }
                    let prod: i64 = (a[i][k] as i64) * (b[k][j] as i64);
                    sum = sum + prod;
                    k = k + 1;
                }
                row.push(sum);
                j = j + 1;
            }
            let ghost rpre = r@;
            let ghost rpre_deep = r.deep_view();
            r.push(row);
            proof {
                assert forall|t: int| 0 <= t < i + 1 implies (#[trigger] r.deep_view()[t])
                    == (if t < i { rpre_deep[t] } else { row@ }) by {
                    assert(r.deep_view()[t] == r@[t].deep_view());
                    if t == i {
                        assert(r@[t] == row);
                        assert(row.deep_view() =~= row@);
                    } else {
                        assert(r@[t] == rpre[t]);
                        assert(rpre_deep[t] == rpre[t].deep_view());
                    }
                };
            }
        } else {
            let mut j: usize = 0;
            while j < n
                invariant
                    j <= n,
                    row@.len() == j,
                    forall|u: int| 0 <= u < j ==> (#[trigger] row@[u]) == 0,
                decreases n - j,
            {
                row.push(0);
                j = j + 1;
            }
            let ghost rpre = r@;
            let ghost rpre_deep = r.deep_view();
            r.push(row);
            proof {
                assert forall|t: int| 0 <= t < i + 1 implies (#[trigger] r.deep_view()[t])
                    == (if t < i { rpre_deep[t] } else { row@ }) by {
                    assert(r.deep_view()[t] == r@[t].deep_view());
                    if t == i {
                        assert(r@[t] == row);
                        assert(row.deep_view() =~= row@);
                    } else {
                        assert(r@[t] == rpre[t]);
                        assert(rpre_deep[t] == rpre[t].deep_view());
                    }
                };
            }
        }
        i = i + 1;
    }
    r
}

/// Recombiner: copies rows `[start_row, end_row)` of one worker's buffer into
/// the shared result at the same positions.  Splices of distinct workers never
/// collide because their row ranges are disjoint.
pub fn splice_rows(
    result: &mut Vec<Vec<i64>>,
    block: &Vec<Vec<i64>>,
    start_row: usize,
    end_row: usize,
)
    requires
        old(result)@.len() == block@.len(),
        start_row <= end_row <= block@.len(),
    ensures
        final(result)@.len() == old(result)@.len(),
        forall|i: int|
            start_row <= i < end_row ==> (#[trigger] final(result).deep_view()[i])
                == block.deep_view()[i],
        forall|i: int|
            0 <= i < final(result)@.len() && !(start_row <= i < end_row) ==> (
            #[trigger] final(result)@[i]) == old(result)@[i],
{
    let mut i: usize = start_row;
    while i < end_row
        invariant
            result@.len() == old(result)@.len() == block@.len(),
            start_row <= i <= end_row <= block@.len(),
            forall|t: int|
                start_row <= t < i ==> (#[trigger] result.deep_view()[t]) == block.deep_view()[t],
            forall|t: int|
                0 <= t < result@.len() && !(start_row <= t < i) ==> (#[trigger] result@[t])
                    == old(result)@[t],
        decreases end_row - i,
    {
        let row: Vec<i64> = copy_row(&block[i]);
        let ghost pre = result@;
        let ghost pre_deep = result.deep_view();
        result.set(i, row);
        proof {
            assert forall|t: int|
                start_row <= t < i + 1 implies (#[trigger] result.deep_view()[t])
                    == block.deep_view()[t] by {
                assert(result.deep_view()[t] == result@[t].deep_view());
                assert(block.deep_view()[t] == block@[t].deep_view());
                if t < i {
                    assert(result@[t] == pre[t]);
                    assert(pre_deep[t] == pre[t].deep_view());
                    assert(pre_deep[t] == block.deep_view()[t]);
                } else {
                    assert(result@[t] == row);
                    assert(row@ == block@[t]@);
                    assert(row.deep_view() =~= block@[t].deep_view());
                }
            };
        }
        i = i + 1;
    }
}

/// Copies one result row element by element.
fn copy_row(src: &Vec<i64>) -> (r: Vec<i64>)
    ensures
        r@ == src@,
{
    let mut r: Vec<i64> = Vec::new();
    let mut j: usize = 0;
    while j < src.len()
        invariant
            j <= src@.len(),
            r@ == src@.take(j as int),
        decreases src@.len() - j,
    {
        r.push(src[j]);
        proof {
            assert(r@ =~= src@.take(j + 1));
        }
        j = j + 1;
    }
    proof {
        assert(r@ =~= src@);
    }
    r
}

/// Multiplies two square matrices by splitting the result rows over
/// `num_workers` chunk payloads and splicing the partial buffers together.
///
/// Succeeds exactly when `1 <= num_workers <= n`; on success the result is
/// the full matrix product.
pub fn multiply_matrices(
    a: &Vec<Vec<i32>>,
    b: &Vec<Vec<i32>>,
    num_workers: usize,
) -> (res: Result<Vec<Vec<i64>>, PartitionError>)
    requires
        multiply_inputs_ok(a.deep_view(), b.deep_view(), a@.len() as int),
    ensures
        res is Ok <==> 1 <= num_workers <= a@.len(),
        res matches Ok(r) ==> is_product(a.deep_view(), b.deep_view(), r.deep_view(), a@.len() as int),
        res == Result::<Vec<Vec<i64>>, PartitionError>::Err(PartitionError::ZeroWorkers)
            <==> num_workers == 0,
        res == Result::<Vec<Vec<i64>>, PartitionError>::Err(PartitionError::TooManyWorkers)
            <==> num_workers > a@.len(),
{
    let ghost av = a.deep_view();
    let ghost bv = b.deep_view();
    let n: usize = a.len();
    let ranges: Vec<ChunkRange> = match partition(n, num_workers) {
        Ok(rs) => rs,
        Err(e) => {
            return Err(e);
        },
    };
    let mut result: Vec<Vec<i64>> = multiply_row_block(a, b, 0, 0);
    let w: usize = ranges.len();
    let mut t: usize = 0;
    while t < w
        invariant
            multiply_inputs_ok(av, bv, n as int),
            av == a.deep_view(),
            bv == b.deep_view(),
            n == a@.len(),
            w == ranges@.len(),
            1 <= w <= n,
            t <= w,
            ranges@[0].start == 0,
            ranges@[w - 1].end == n,
            forall|u: int| 0 <= u < w - 1 ==> (#[trigger] ranges@[u]).end == ranges@[u + 1].start,
            forall|u: int| 0 <= u < w ==> (#[trigger] ranges@[u]).start < ranges@[u].end,
            forall|u: int| 0 <= u < w ==> (#[trigger] ranges@[u]).end <= n,
            result@.len() == n,
            forall|i: int| 0 <= i < n ==> (#[trigger] result.deep_view()[i]).len() == n,
            forall|i: int, j: int|
                0 <= i < (if t < w { ranges@[t as int].start as int } else { n as int }) && 0 <= j
                    < n ==> (#[trigger] result.deep_view()[i][j]) == product_entry(av, bv, i, j),
        decreases w - t,
    {
        let c: ChunkRange = ranges[t];
        let block: Vec<Vec<i64>> = multiply_row_block(a, b, c.start, c.end);
        let ghost pre = result@;
        let ghost pre_deep = result.deep_view();
        splice_rows(&mut result, &block, c.start, c.end);
        proof {
            assert forall|i: int|
                0 <= i < n implies (#[trigger] result.deep_view()[i]).len() == n by {
                if i < c.start || i >= c.end {
                    assert(result@[i] == pre[i]);
                    assert(result.deep_view()[i] == result@[i].deep_view());
                    assert(pre_deep[i] == pre[i].deep_view());
                } else {
                    assert(result.deep_view()[i] == block.deep_view()[i]);
                }
            };
            assert forall|i: int, j: int|
                0 <= i < (if t + 1 < w { ranges@[t + 1].start as int } else { n as int }) && 0 <= j
                    < n implies (#[trigger] result.deep_view()[i][j]) == product_entry(av, bv, i, j) by {
                if i < c.start {
                    assert(result@[i] == pre[i]);
                    assert(result.deep_view()[i] == result@[i].deep_view());
                    assert(pre_deep[i] == pre[i].deep_view());
                    assert(result.deep_view()[i] == pre_deep[i]);
                } else {
                    assert(result.deep_view()[i] == block.deep_view()[i]);
                }
            };
        }
        t = t + 1;
    }
    Ok(result)
}

/// Every product of the same two matrices is the same matrix, whatever worker
/// count produced it: the product spec pins each cell.
pub proof fn lemma_product_unique(
    a: Seq<Seq<i32>>,
    b: Seq<Seq<i32>>,
    r1: Seq<Seq<i64>>,
    r2: Seq<Seq<i64>>,
    n: int,
)
    requires
        is_product(a, b, r1, n),
        is_product(a, b, r2, n),
    ensures
        r1 == r2,
{
    assert forall|i: int| 0 <= i < n implies r1[i] == r2[i] by {
        assert(r1[i] =~= r2[i]);
    }
    assert(r1 =~= r2);
}

/// Multiplies two square matrices with a single worker in one pass: the
/// straightforward sequential triple loop.
pub fn multiply_matrices_sequential(a: &Vec<Vec<i32>>, b: &Vec<Vec<i32>>) -> (r: Vec<Vec<i64>>)
    requires
        multiply_inputs_ok(a.deep_view(), b.deep_view(), a@.len() as int),
    ensures
        is_product(a.deep_view(), b.deep_view(), r.deep_view(), a@.len() as int),
{
    let n: usize = a.len();
    multiply_row_block(a, b, 0, n)
}

} // verus!
