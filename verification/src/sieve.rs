//! Sieve of Eratosthenes under the chunked worker pattern: every worker
//! shares one boolean array and runs one marking pass over its range.  A pass
//! scans candidate primes from 2 up to the square root of its range end —
//! deliberately from 2, not from the worker's own chunk start, as the
//! benchmark pattern prescribes — and marks their multiples composite.
//! Marking false is idempotent, so overlapping passes stay correct.  The
//! sieve itself leaves indices 0 and 1 at their initial `true`; the consumer
//! excludes them explicitly, never implicitly.

use vstd::prelude::*;
use crate::partition::{partition, ChunkRange, PartitionError};

verus! {

/// Largest accepted sieve bound; keeps all marking arithmetic inside a
/// 32-bit `usize`.
pub const SIEVE_LIMIT: usize = 0xffff_0000;

/// `d` divides `n` exactly.
pub open spec fn divides(d: int, n: int) -> bool {
    exists|m: int| n == #[trigger] (d * m)
}

/// `n` is prime: at least 2, with no divisor strictly between 1 and itself.
pub open spec fn is_prime(n: int) -> bool {
    n >= 2 && forall|d: int| 2 <= d < n ==> !(#[trigger] divides(d, n))
}

/// `i` has a divisor `q` with `2 <= q < p` and `q * q <= i`: a marking pass
/// whose candidate scan has reached `p` has already marked `i`.
pub open spec fn has_small_factor(i: int, p: int) -> bool {
    exists|q: int| 2 <= q < p && q * q <= i && #[trigger] divides(q, i)
}

/// Divisibility is transitive.
proof fn lemma_divides_transitive(a: int, b: int, c: int)
    requires
        divides(a, b),
        divides(b, c),
    ensures
        divides(a, c),
{
    let x = choose|x: int| b == #[trigger] (a * x);
    let y = choose|y: int| c == #[trigger] (b * y);
    assert(c == a * (x * y)) by (nonlinear_arith)
        requires
            b == a * x,
            c == b * y,
    ;
}

/// Every number that is at least 2 and not prime has a divisor no larger
/// than its own square root.
proof fn lemma_composite_has_small_factor(n: int)
    requires
        n >= 2,
        !is_prime(n),
    ensures
        has_small_factor(n, n),
{
    let d = choose|d: int| 2 <= d < n && #[trigger] divides(d, n);
    let m = choose|m: int| n == #[trigger] (d * m);
    assert(m >= 2) by (nonlinear_arith)
        requires
            n == d * m,
            2 <= d,
            d < n,
            n >= 2,
    ;
    assert(m < n) by (nonlinear_arith)
        requires
            n == d * m,
            2 <= d,
            2 <= m,
    ;
    if d * d <= n {
        assert(has_small_factor(n, n));
    } else {
        assert(m * m <= n) by (nonlinear_arith)
            requires
                n == d * m,
                d * d > n,
                2 <= d,
                2 <= m,
        ;
        assert(n == m * d) by (nonlinear_arith)
            requires
                n == d * m,
        ;
        assert(divides(m, n));
        assert(has_small_factor(n, n));
    }
}

/// A prime has no small factor below any cutoff.
proof fn lemma_prime_no_small_factor(i: int, p: int)
    requires
        is_prime(i),
    ensures
        !has_small_factor(i, p),
{
    if has_small_factor(i, p) {
        let q = choose|q: int| 2 <= q < p && q * q <= i && #[trigger] divides(q, i);
        assert(q < i) by (nonlinear_arith)
            requires
                2 <= q,
                q * q <= i,
        ;
        assert(!divides(q, i));
    }
}

/// Raising the candidate cutoff by one adds exactly the multiples of the old
/// cutoff itself.
proof fn lemma_has_small_factor_extend(i: int, p: int)
    requires
        p >= 2,
    ensures
        has_small_factor(i, p + 1) <==> (has_small_factor(i, p) || (divides(p, i) && p * p <= i)),
{
    if has_small_factor(i, p + 1) {
        let q = choose|q: int| 2 <= q < p + 1 && q * q <= i && #[trigger] divides(q, i);
        if q < p {
            assert(has_small_factor(i, p));
        }
    }
    if has_small_factor(i, p) {
        let q = choose|q: int| 2 <= q < p && q * q <= i && #[trigger] divides(q, i);
        assert(has_small_factor(i, p + 1));
    }
    if divides(p, i) && p * p <= i {
        assert(has_small_factor(i, p + 1));
    }
}

/// Integer square root by linear scan: the largest `r` with `r * r <= n`.
pub fn isqrt(n: usize) -> (r: usize)
    requires
        n <= 0xffff_ffff,
    ensures
        r * r <= n < (r + 1) * (r + 1),
        r <= 0xffff,
{
    let mut r: usize = 0;
    let mut next: u64 = 1;
    while next <= n as u64
        invariant
            n <= 0xffff_ffff,
            r * r <= n,
            r <= 0xffff,
            r <= n,
            next == ((r + 1) as int) * ((r + 1) as int),
        decreases n - r,
    {
        r = r + 1;
        proof {
            assert(r <= 0xffff) by (nonlinear_arith)
                requires
                    r * r <= n,
                    n <= 0xffff_ffff,
                    r >= 0,
            ;
            assert(r <= r * r) by (nonlinear_arith)
                requires
                    r >= 1,
            ;
            assert(((r + 1) as int) * ((r + 1) as int) <= 0x10000 * 0x10000) by (nonlinear_arith)
                requires
                    0 <= r + 1 <= 0x10000,
            ;
        }
        next = ((r + 1) as u64) * ((r + 1) as u64);
    }
    r
}

/// One worker's sieve payload over the shared array: for every candidate `p`
/// from 2 to the square root of `end`, if `p` is still unmarked, marks every
/// multiple of `p` in `[p * p, end]` composite.
///
/// It requires only that no prime index has been marked — which every pass
/// preserves — so passes may run in any order, over any chunk ranges; after
/// a pass, the array is exact up to that pass's `end`.
pub fn sieve_part(prime: &mut Vec<bool>, _start: usize, end: usize)
    requires
        1 <= end < old(prime)@.len(),
        end <= SIEVE_LIMIT,
        forall|i: int| 2 <= i <= end && is_prime(i) ==> old(prime)@[i],
    ensures
        final(prime)@.len() == old(prime)@.len(),
        forall|i: int| 2 <= i <= end ==> (final(prime)@[i] <==> is_prime(i)),
        forall|i: int|
            0 <= i < old(prime)@.len() && !(2 <= i <= end) ==> final(prime)@[i] == old(prime)@[i],
        forall|i: int| 0 <= i < old(prime)@.len() ==> ((#[trigger] final(prime)@[i]) ==> old(prime)@[i]),
{
    let len: usize = prime.len();
    let limit: usize = isqrt(end);
    let mut p: usize = 2;
    while p <= limit
        invariant
            1 <= end < prime@.len(),
            len == prime@.len(),
            prime@.len() == old(prime)@.len(),
            end <= SIEVE_LIMIT,
            limit * limit <= end < (limit + 1) * (limit + 1),
            limit <= 0xffff,
            2 <= p <= limit + 1,
            forall|i: int| 2 <= i <= end && is_prime(i) ==> old(prime)@[i],
            forall|i: int|
                2 <= i <= end ==> ((#[trigger] prime@[i]) <==> (old(prime)@[i]
                    && !has_small_factor(i, p as int))),
            forall|i: int|
                0 <= i < prime@.len() && !(2 <= i <= end) ==> prime@[i] == old(prime)@[i],
        decreases limit + 1 - p,
    {
        proof {
            assert(p <= end) by (nonlinear_arith)
                requires
                    2 <= p,
                    p <= limit,
                    limit * limit <= end,
            ;
        }
        if prime[p] {
            let ghost entry = prime@;
            proof {
                assert((p as int) * (p as int) <= 0xffff * 0xffff) by (nonlinear_arith)
                    requires
                        0 <= p <= 0xffff,
                ;
                assert((p as int) * (p as int) <= (limit as int) * (limit as int)) by (nonlinear_arith)
                    requires
                        0 <= p <= limit,
                ;
            }
            let mut m: usize = p * p;
            proof {
                assert(divides(p as int, m as int)) by {
                    assert(m == p * p);
                };
            }
            while m <= end
                invariant
                    2 <= p <= limit,
                    limit * limit <= end,
                    limit <= 0xffff,
                    1 <= end < prime@.len(),
                    len == prime@.len(),
                    prime@.len() == old(prime)@.len(),
                    end <= SIEVE_LIMIT,
                    p * p <= m <= end + p,
                    divides(p as int, m as int),
                    forall|i: int|
                        2 <= i <= end ==> ((#[trigger] prime@[i]) <==> (entry[i] && !(divides(
                            p as int,
                            i,
                        ) && p * p <= i < m))),
                    forall|i: int|
                        0 <= i < prime@.len() && !(2 <= i <= end) ==> prime@[i] == entry[i],
                    entry.len() == prime@.len(),
                decreases end + p - m,
            {
                let ghost pre = prime@;
                proof {
                    assert((p as int) * (p as int) >= 4) by (nonlinear_arith)
                        requires
                            p >= 2,
                    ;
                }
                prime.set(m, false);
                proof {
                    assert forall|i: int|
                        2 <= i <= end implies ((#[trigger] prime@[i]) <==> (entry[i] && !(divides(
                        p as int,
                        i,
                    ) && p * p <= i < m + p))) by {
                        if i == m {
                            assert(!prime@[i]);
                            assert(divides(p as int, i) && p * p <= i < m + p);
                        } else {
                            assert(prime@[i] == pre[i]);
                            if divides(p as int, i) && m <= i < m + p {
                                let x = choose|x: int| i == #[trigger] ((p as int) * x);
                                let y = choose|y: int| m == #[trigger] ((p as int) * y);
                                assert(false) by (nonlinear_arith)
                                    requires
                                        i == (p as int) * x,
                                        m == (p as int) * y,
                                        m < i < m + p,
                                        p >= 2,
                                ;
                            }
                        }
                    }
                    let x = choose|x: int| m == #[trigger] ((p as int) * x);
                    assert(m + p == (p as int) * (x + 1)) by (nonlinear_arith)
                        requires
                            m == (p as int) * x,
                    ;
                    assert(divides(p as int, m as int + p));
                }
                m = m + p;
            }
            proof {
                assert forall|i: int|
                    2 <= i <= end implies ((#[trigger] prime@[i]) <==> (old(prime)@[i]
                        && !has_small_factor(i, p as int + 1))) by {
                    lemma_has_small_factor_extend(i, p as int);
                    assert(prime@[i] <==> (entry[i] && !(divides(p as int, i) && p * p <= i)));
                    assert(entry[i] <==> (old(prime)@[i] && !has_small_factor(i, p as int)));
                }
            }
        } else {
            proof {
                assert(!(old(prime)@[p as int] && !has_small_factor(p as int, p as int)));
                assert forall|i: int|
                    2 <= i <= end implies ((#[trigger] prime@[i]) <==> (old(prime)@[i]
                        && !has_small_factor(i, p as int + 1))) by {
                    lemma_has_small_factor_extend(i, p as int);
                    if divides(p as int, i) && p * p <= i {
                        assert(p as int <= i) by (nonlinear_arith)
                            requires
                                p >= 2,
                                p * p <= i,
                        ;
                        if !old(prime)@[p as int] {
                            assert(!is_prime(p as int));
                            lemma_composite_has_small_factor(p as int);
                        }
                        let q = choose|q: int|
                            2 <= q < p && q * q <= p && #[trigger] divides(q, p as int);
                        lemma_divides_transitive(q, p as int, i);
                        assert(q * q <= i);
                        assert(has_small_factor(i, p as int));
                    }
                }
            }
        }
        p = p + 1;
    }
    proof {
        assert forall|i: int| 2 <= i <= end implies ((#[trigger] prime@[i]) <==> is_prime(i)) by {
            if is_prime(i) {
                lemma_prime_no_small_factor(i, p as int);
            } else {
                lemma_composite_has_small_factor(i);
                let q = choose|q: int| 2 <= q < i && q * q <= i && #[trigger] divides(q, i);
                assert(q <= limit) by (nonlinear_arith)
                    requires
                        q * q <= i,
                        i <= end,
                        end < (limit + 1) * (limit + 1),
                        q >= 0,
                        limit >= 0,
                ;
                assert(q < p && q * q <= i && divides(q, i));
                assert(has_small_factor(i, p as int));
            }
        }
        assert forall|i: int|
            0 <= i < old(prime)@.len() && #[trigger] prime@[i] implies old(prime)@[i] by {
            if 2 <= i <= end {
                assert(is_prime(i));
            }
        }
    }
}

/// `bits` is a finished sieve array for bound `n`: length `n + 1`, indices 0
/// and 1 left at their initial `true`, and every index from 2 to `n` marked
/// exactly by primality.
pub open spec fn is_sieve_output(bits: Seq<bool>, n: int) -> bool {
    &&& bits.len() == n + 1
    &&& bits[0] == true
    &&& bits[1] == true
    &&& forall|i: int| 2 <= i <= n ==> ((#[trigger] bits[i]) <==> is_prime(i))
}

/// Runs the sieve up to `n` inclusive: one shared boolean array, one marking
/// pass per worker chunk, the chunks covering the numbers 2 to `n`.
///
/// Succeeds exactly when `1 <= num_workers <= n - 1`, so that every worker
/// owns at least one number.
pub fn sieve(n: usize, num_workers: usize) -> (res: Result<Vec<bool>, PartitionError>)
    requires
        2 <= n <= SIEVE_LIMIT,
    ensures
        res is Ok <==> 1 <= num_workers && num_workers <= n - 1,
        res matches Ok(bits) ==> is_sieve_output(bits@, n as int),
        res == Result::<Vec<bool>, PartitionError>::Err(PartitionError::ZeroWorkers) <==> num_workers == 0,
        res == Result::<Vec<bool>, PartitionError>::Err(PartitionError::TooManyWorkers) <==> num_workers > n - 1,
{
    let ranges: Vec<ChunkRange> = match partition(n - 1, num_workers) {
        Ok(rs) => rs,
        Err(e) => {
            return Err(e);
        },
    };
    let mut bits: Vec<bool> = Vec::new();
    let mut i: usize = 0;
    while i <= n
        invariant
            i <= n + 1,
            n <= SIEVE_LIMIT,
            bits@.len() == i,
            forall|t: int| 0 <= t < i ==> (#[trigger] bits@[t]) == true,
        decreases n + 1 - i,
    {
        bits.push(true);
        i = i + 1;
    }
    let w: usize = ranges.len();
    let mut t: usize = 0;
    while t < w
        invariant
            w == ranges@.len(),
            1 <= w,
            w <= n - 1,
            2 <= n <= SIEVE_LIMIT,
            bits@.len() == n + 1,
            ranges@[w - 1].end == n - 1,
            forall|u: int| 0 <= u < w ==> (#[trigger] ranges@[u]).start < ranges@[u].end,
            forall|u: int| 0 <= u < w ==> (#[trigger] ranges@[u]).end <= n - 1,
            t <= w,
            bits@[0] == true,
            bits@[1] == true,
            forall|i: int| 2 <= i < bits@.len() && is_prime(i) ==> bits@[i],
            t > 0 ==> forall|i: int|
                2 <= i <= ranges@[t - 1].end + 1 ==> ((#[trigger] bits@[i]) <==> is_prime(i)),
        decreases w - t,
    {
        let c: ChunkRange = ranges[t];
        let ghost pre = bits@;
        sieve_part(&mut bits, c.start + 2, c.end + 1);
        proof {
            assert forall|i: int| 2 <= i < bits@.len() && is_prime(i) implies bits@[i] by {
                if i <= c.end + 1 {
                    lemma_prime_no_small_factor(i, i);
                } else {
                    assert(bits@[i] == pre[i]);
                }
            }
        }
        t = t + 1;
    }
    Ok(bits)
}

/// The consumer of the sieve's array: the indices it reports prime, in
/// increasing order.  Indices 0 and 1 are excluded here explicitly, whatever
/// the array holds for them.
pub fn collect_primes(bits: &Vec<bool>) -> (ps: Vec<usize>)
    ensures
        forall|t: int|
            0 <= t < ps@.len() ==> 2 <= (#[trigger] ps@[t]) && (ps@[t] as int) < bits@.len()
                && bits@[ps@[t] as int],
        forall|t: int, u: int| 0 <= t < u < ps@.len() ==> ps@[t] < ps@[u],
        forall|k: int| 2 <= k < bits@.len() && bits@[k] ==> ps@.contains(k as usize),
{
    let mut ps: Vec<usize> = Vec::new();
    let mut k: usize = 2;
    while k < bits.len()
        invariant
            2 <= k,
            k <= bits@.len() || k == 2,
            forall|t: int|
                0 <= t < ps@.len() ==> 2 <= (#[trigger] ps@[t]) && (ps@[t] as int) < k
                    && bits@[ps@[t] as int],
            forall|t: int, u: int| 0 <= t < u < ps@.len() ==> ps@[t] < ps@[u],
            forall|j: int| 2 <= j < k && bits@[j] ==> ps@.contains(j as usize),
        decreases bits@.len() - k,
    {
        let ghost pre = ps@;
        if bits[k] {
            ps.push(k);
            proof {
                assert forall|j: int| 2 <= j < k + 1 && bits@[j] implies ps@.contains(j as usize) by {
                    if j < k {
                        let t = choose|t: int| 0 <= t < pre.len() && pre[t] == j as usize;
                        assert(ps@[t] == j as usize);
                    } else {
                        assert(ps@[ps@.len() - 1] == k as usize);
                    }
                }
            }
        }
        k = k + 1;
    }
    ps
}

/// The sieve output for a bound is unique: any two finished arrays for the
/// same `n` are identical, whatever worker counts or pass orders produced
/// them.
pub proof fn lemma_sieve_unique(b1: Seq<bool>, b2: Seq<bool>, n: int)
    requires
        n >= 1,
        is_sieve_output(b1, n),
        is_sieve_output(b2, n),
    ensures
        b1 == b2,
{
    assert(b1 =~= b2);
}

} // verus!
