//! Substring search by the Two-Way algorithm of Crochemore and Perrin, and
//! the searcher of string patterns built on it.
//!
//! The needle is split at a critical factorization computed from its
//! maximal suffixes. The searcher then scans the haystack left to right
//! (or right to left), matching the right half of the needle first and
//! the left half second, and skips as far as the factorization allows.
//! Every skip is shown to pass over no occurrence of the needle, from the
//! critical factorization property (`lemma_critical`): so each match
//! reported is the first one after the cursor, and a rejected range holds
//! none.

use vstd::prelude::*;
use vstd::string::StringSliceAdditionalSpecFns;
use vstd::utf8::{is_char_boundary, valid_utf8, is_continuation_byte};

verus! {

// ---------------------------------------------------------------------
// Words, periods and the order of suffixes
// ---------------------------------------------------------------------

/// `p` is a period of `x[lo..hi]`: every byte there equals the byte `p`
/// places further on, as far as both lie in the range.
pub open spec fn has_period(x: Seq<u8>, lo: int, hi: int, p: int) -> bool {
    forall|m: int| lo <= m && m + p < hi ==> #[trigger] x[m] == x[m + p]
}

/// The order of bytes that a suffix comparison uses: the usual one, or
/// the reverse one when `rev` holds.
pub open spec fn byte_lt(u: u8, v: u8, rev: bool) -> bool {
    if rev {
        u > v
    } else {
        u < v
    }
}

/// The suffix of `x` at `s` is below the suffix at `c` in lexicographic
/// order, and the first difference is at offset `d`.
pub open spec fn below_at(x: Seq<u8>, s: int, c: int, d: int, rev: bool) -> bool {
    &&& 0 <= d
    &&& 0 <= s
    &&& s + d < x.len()
    &&& 0 <= c
    &&& c + d < x.len()
    &&& forall|m: int| 0 <= m < d ==> #[trigger] x[s + m] == x[c + m]
    &&& byte_lt(x[s + d], x[c + d], rev)
}

/// The suffix of `x` at `s` is below the suffix at `c`, with a first
/// difference inside both.
pub open spec fn suffix_below(x: Seq<u8>, s: int, c: int, rev: bool) -> bool {
    exists|d: int| #[trigger] below_at(x, s, c, d, rev)
}

/// The suffix of `x` at `s` is below the suffix at `c`, with a first
/// difference less than `bound` bytes in.
pub open spec fn below_within(x: Seq<u8>, s: int, c: int, bound: int, rev: bool) -> bool {
    exists|d: int| #[trigger] below_at(x, s, c, d, rev) && d < bound
}

/// The suffix at `c` is above every suffix that starts before it.
pub open spec fn above_earlier_suffixes(x: Seq<u8>, c: int, rev: bool) -> bool {
    forall|s: int| 0 <= s < c ==> #[trigger] suffix_below(x, s, c, rev)
}

/// Bytes a whole number of periods apart are equal.
proof fn lemma_shift(x: Seq<u8>, lo: int, hi: int, p: int, m: int, u: int)
    requires
        p >= 1,
        u >= 0,
        0 <= lo <= m,
        m + u * p < hi,
        hi <= x.len(),
        has_period(x, lo, hi, p),
    ensures
        x[m] == x[m + u * p],
    decreases u,
{
    if u == 0 {
        assert(u * p == 0) by (nonlinear_arith)
            requires
                u == 0,
        ;
    } else {
        assert(m + u * p == (m + p) + (u - 1) * p) by (nonlinear_arith);
        assert(p <= u * p) by (nonlinear_arith)
            requires
                u >= 1,
                p >= 1,
        ;
        lemma_shift(x, lo, hi, p, m + p, u - 1);
        assert(x[m] == x[m + p]);
    }
}

/// Below-ness is transitive, the first difference moving to the nearer of
/// the two.
proof fn lemma_below_trans(x: Seq<u8>, s: int, c: int, e: int, d1: int, d2: int, rev: bool)
    requires
        below_at(x, s, c, d1, rev),
        below_at(x, c, e, d2, rev),
    ensures
        below_at(x, s, e, if d1 <= d2 { d1 } else { d2 }, rev),
{
    let d = if d1 <= d2 { d1 } else { d2 };
    assert forall|m: int| 0 <= m < d implies #[trigger] x[s + m] == x[e + m] by {
        assert(x[s + m] == x[c + m]);
        assert(x[c + m] == x[e + m]);
    }
}

/// A suffix that agrees with one below `c` up to and at the first
/// difference is below `c` too.
proof fn lemma_below_copy(x: Seq<u8>, s0: int, s: int, c: int, d: int, rev: bool)
    requires
        below_at(x, s0, c, d, rev),
        0 <= s,
        s + d < x.len(),
        forall|m: int| 0 <= m <= d ==> #[trigger] x[s + m] == x[s0 + m],
    ensures
        below_at(x, s, c, d, rev),
{
    assert forall|m: int| 0 <= m < d implies #[trigger] x[s + m] == x[c + m] by {
        assert(x[s + m] == x[s0 + m]);
        assert(x[s0 + m] == x[c + m]);
    }
    assert(x[s + d] == x[s0 + d]);
}

/// The state of the maximal-suffix scan: the candidate suffix starts at
/// `l + 1`, the challenger at `r + 1`, `k` bytes of the challenger have
/// been looked at, `x[l + 1..r + k]` has period `p`, the challenger is
/// `t` periods after the candidate, every earlier suffix is below the
/// candidate, and every suffix that starts inside the candidate's first
/// period is below it with a first difference inside that period.
pub open spec fn maxsuf_inv(x: Seq<u8>, l: int, r: int, k: int, p: int, t: int, rev: bool) -> bool {
    &&& -1 <= l < r
    &&& 1 <= k <= p
    &&& r + k <= x.len()
    &&& t >= 1
    &&& r - l == t * p
    &&& has_period(x, l + 1, r + k, p)
    &&& above_earlier_suffixes(x, l + 1, rev)
    &&& forall|q: int| 0 < q < p ==> #[trigger] below_within(x, l + 1 + q, l + 1, p - q, rev)
}

/// `s` lies `u` whole periods and `q` more bytes after `base`.
proof fn lemma_split(s: int, base: int, p: int) -> (uq: (int, int))
    requires
        p >= 1,
        s >= base,
    ensures
        uq.0 >= 0,
        0 <= uq.1 < p,
        s == base + uq.0 * p + uq.1,
{
    let u = (s - base) / p;
    let q = (s - base) % p;
    assert(s - base == u * p + q && 0 <= q < p && u >= 0) by (nonlinear_arith)
        requires
            p >= 1,
            s - base >= 0,
            u == (s - base) / p,
            q == (s - base) % p,
    ;
    (u, q)
}

/// The first `k - 1` bytes of the challenger repeat those of the
/// candidate, and so do those of any suffix a whole number of periods
/// after the candidate.
proof fn lemma_aligned_agree(x: Seq<u8>, l: int, r: int, k: int, p: int, t: int, rev: bool, s: int, u: int)
    requires
        maxsuf_inv(x, l, r, k, p, t, rev),
        0 <= u <= t,
        s == l + 1 + u * p,
    ensures
        forall|m: int| 0 <= m < r - s + k ==> #[trigger] x[s + m] == x[l + 1 + m],
{
    assert(u * p <= t * p) by (nonlinear_arith)
        requires
            u <= t,
            p >= 1,
    ;
    assert forall|m: int| 0 <= m < r - s + k implies #[trigger] x[s + m] == x[l + 1 + m] by {
        lemma_shift(x, l + 1, r + k, p, l + 1 + m, u);
    }
}

/// Arithmetic of whole periods.
proof fn lemma_blocks(u: int, t: int, p: int)
    requires
        u >= 0,
        p >= 1,
    ensures
        (u + 1) * p == u * p + p,
        u * p >= 0,
        u < t ==> (u + 1) * p <= t * p,
        u <= t ==> u * p <= t * p,
        u * p > 0 ==> u >= 1,
{
    assert((u + 1) * p == u * p + p) by (nonlinear_arith);
    assert(u * p >= 0) by (nonlinear_arith)
        requires
            u >= 0,
            p >= 1,
    ;
    if u < t {
        assert((u + 1) * p <= t * p) by (nonlinear_arith)
            requires
                u + 1 <= t,
                p >= 1,
        ;
    }
    if u <= t {
        assert(u * p <= t * p) by (nonlinear_arith)
            requires
                u <= t,
                p >= 1,
        ;
    }
}

/// The candidate's byte `k - 1` in repeats `t` periods later, at `r + k - p`.
proof fn lemma_candidate_repeats(x: Seq<u8>, l: int, r: int, k: int, p: int, t: int, rev: bool)
    requires
        maxsuf_inv(x, l, r, k, p, t, rev),
    ensures
        x[l + k] == x[r + k - p],
{
    assert(l + k + (t - 1) * p == r + k - p) by (nonlinear_arith)
        requires
            r - l == t * p,
    ;
    lemma_shift(x, l + 1, r + k, p, l + k, t - 1);
}

/// One step of the scan when the challenger's byte is below the
/// candidate's: the candidate stays and its period becomes all of it.
proof fn lemma_step_below(x: Seq<u8>, l: int, r: int, k: int, p: int, t: int, rev: bool)
    requires
        maxsuf_inv(x, l, r, k, p, t, rev),
        r + k < x.len(),
        byte_lt(x[r + k], x[l + k], rev),
    ensures
        maxsuf_inv(x, l, r + k, 1, r + k - l, 1, rev),
{
    let np = r + k - l;
    assert(t * p <= t * p + k - 1);
    assert forall|qq: int| 0 < qq < np implies #[trigger] below_within(x, l + 1 + qq, l + 1, np - qq, rev) by {
        let s = l + 1 + qq;
        let (u, q) = lemma_split(s, l + 1, p);
        assert(u <= t) by (nonlinear_arith)
            requires
                qq == u * p + q,
                qq < t * p + k,
                k <= p,
                0 <= q,
                p >= 1,
                u >= 0,
        ;
        lemma_blocks(u, t, p);
        if q == 0 {
            let d = r + k - s;
            lemma_aligned_agree(x, l, r, k, p, t, rev, s, u);
            assert(x[l + 1 + d] == x[l + k]) by {
                assert(l + k + (t - u) * p == l + 1 + d) by (nonlinear_arith)
                    requires
                        s == l + 1 + u * p,
                        d == r + k - s,
                        r - l == t * p,
                ;
                lemma_blocks(t - u, t, p);
                lemma_shift(x, l + 1, r + k, p, l + k, t - u);
            }
            assert(below_at(x, s, l + 1, d, rev));
            assert(qq + d < np);
        } else if u < t {
            assert(below_within(x, l + 1 + q, l + 1, p - q, rev));
            let d0 = choose|d: int| #[trigger] below_at(x, l + 1 + q, l + 1, d, rev) && d < p - q;
            assert(s + d0 < r + k);
            assert forall|m: int| 0 <= m <= d0 implies #[trigger] x[s + m] == x[l + 1 + q + m] by {
                lemma_shift(x, l + 1, r + k, p, l + 1 + q + m, u);
            }
            lemma_below_copy(x, l + 1 + q, s, l + 1, d0, rev);
            assert(qq + d0 < np);
        } else {
            // The suffix starts inside the challenger's part.
            assert(below_within(x, l + 1 + q, l + 1, p - q, rev));
            let d0 = choose|d: int| #[trigger] below_at(x, l + 1 + q, l + 1, d, rev) && d < p - q;
            let d1 = k - 1 - q;
            assert(s == r + 1 + q);
            assert(0 <= d1);
            assert forall|m: int| 0 <= m < d1 implies #[trigger] x[s + m] == x[l + 1 + q + m] by {
                lemma_shift(x, l + 1, r + k, p, l + 1 + q + m, t);
            }
            assert(below_at(x, s, l + 1 + q, d1, rev));
            lemma_below_trans(x, s, l + 1 + q, l + 1, d1, d0, rev);
        }
    }
    assert forall|s: int| 0 <= s < l + 1 implies #[trigger] suffix_below(x, s, l + 1, rev) by {
        assert(above_earlier_suffixes(x, l + 1, rev));
    }
}

/// One step of the scan when the two bytes are equal and the challenger
/// has not yet matched a whole period.
proof fn lemma_step_equal(x: Seq<u8>, l: int, r: int, k: int, p: int, t: int, rev: bool)
    requires
        maxsuf_inv(x, l, r, k, p, t, rev),
        r + k < x.len(),
        x[r + k] == x[l + k],
    ensures
        k < p ==> maxsuf_inv(x, l, r, k + 1, p, t, rev),
        k == p ==> maxsuf_inv(x, l, r + p, 1, p, t + 1, rev),
{
    lemma_candidate_repeats(x, l, r, k, p, t, rev);
    assert(has_period(x, l + 1, r + k + 1, p));
    assert(r + p - l == (t + 1) * p) by (nonlinear_arith)
        requires
            r - l == t * p,
    ;
    assert forall|s: int| 0 <= s < l + 1 implies #[trigger] suffix_below(x, s, l + 1, rev) by {
        assert(above_earlier_suffixes(x, l + 1, rev));
    }
}

/// One step of the scan when the challenger's byte is above the
/// candidate's: the challenger becomes the candidate.
proof fn lemma_step_above(x: Seq<u8>, l: int, r: int, k: int, p: int, t: int, rev: bool)
    requires
        maxsuf_inv(x, l, r, k, p, t, rev),
        r + k < x.len(),
        byte_lt(x[l + k], x[r + k], rev),
    ensures
        maxsuf_inv(x, r, r + 1, 1, 1, 1, rev),
{
    // The old candidate is below the challenger.
    lemma_aligned_agree(x, l, r, k, p, t, rev, r + 1, t);
    assert(below_at(x, l + 1, r + 1, k - 1, rev)) by {
        assert forall|m: int| 0 <= m < k - 1 implies #[trigger] x[l + 1 + m] == x[r + 1 + m] by {
            assert(x[r + 1 + m] == x[l + 1 + m]);
        }
    }
    assert forall|s: int| 0 <= s < r + 1 implies #[trigger] suffix_below(x, s, r + 1, rev) by {
        if s < l + 1 {
            assert(above_earlier_suffixes(x, l + 1, rev));
            assert(suffix_below(x, s, l + 1, rev));
            let d = choose|d: int| #[trigger] below_at(x, s, l + 1, d, rev);
            lemma_below_trans(x, s, l + 1, r + 1, d, k - 1, rev);
        } else if s == l + 1 {
        } else {
            let (u, q) = lemma_split(s, l + 1, p);
            assert(u < t) by (nonlinear_arith)
                requires
                    s == l + 1 + u * p + q,
                    s < r + 1,
                    r - l == t * p,
                    q >= 0,
                    p >= 1,
            ;
            if q == 0 {
                lemma_aligned_agree(x, l, r, k, p, t, rev, s, u);
                assert(x[s + (k - 1)] == x[l + k]);
                assert forall|m: int| 0 <= m < k - 1 implies #[trigger] x[s + m] == x[r + 1 + m] by {
                    assert(x[s + m] == x[l + 1 + m]);
                    assert(x[r + 1 + m] == x[l + 1 + m]);
                }
                assert(below_at(x, s, r + 1, k - 1, rev));
            } else {
                assert(below_within(x, l + 1 + q, l + 1, p - q, rev));
                let d0 = choose|d: int| #[trigger] below_at(x, l + 1 + q, l + 1, d, rev) && d < p - q;
                lemma_blocks(u, t, p);
                assert(s + d0 < r + k);
                assert forall|m: int| 0 <= m <= d0 implies #[trigger] x[s + m] == x[l + 1 + q + m] by {
                    lemma_shift(x, l + 1, r + k, p, l + 1 + q + m, u);
                }
                lemma_below_copy(x, l + 1 + q, s, l + 1, d0, rev);
                lemma_below_trans(x, s, l + 1, r + 1, d0, k - 1, rev);
            }
        }
    }
    assert(1 == 1 * 1);
}

/// The suffix of `x` at `s` is below the suffix at `c` or a prefix of it.
pub open spec fn below_or_prefix(x: Seq<u8>, s: int, c: int, rev: bool) -> bool {
    ||| suffix_below(x, s, c, rev)
    ||| forall|m: int| 0 <= m < x.len() - s ==> #[trigger] x[s + m] == x[c + m]
}

/// The suffix at `c` is above every suffix that starts after it, or
/// begins with it.
pub open spec fn above_later_suffixes(x: Seq<u8>, c: int, rev: bool) -> bool {
    forall|s: int| c < s < x.len() ==> #[trigger] below_or_prefix(x, s, c, rev)
}

/// No period of `x[lo..]` is shorter than `p`.
pub open spec fn least_period(x: Seq<u8>, lo: int, p: int) -> bool {
    forall|q: int| 1 <= q < p ==> !#[trigger] has_period(x, lo, x.len() as int, q)
}

/// Once the scan is complete, every later suffix is below the candidate
/// or a prefix of it, and the period is the least one of the candidate.
proof fn lemma_scan_complete(x: Seq<u8>, l: int, r: int, k: int, p: int, t: int, rev: bool)
    requires
        maxsuf_inv(x, l, r, k, p, t, rev),
        r + k == x.len(),
    ensures
        above_later_suffixes(x, l + 1, rev),
        least_period(x, l + 1, p),
{
    assert(p <= t * p) by (nonlinear_arith)
        requires
            t >= 1,
            p >= 1,
    ;
    assert forall|s: int| l + 1 < s < x.len() implies #[trigger] below_or_prefix(x, s, l + 1, rev) by {
        let (u, q) = lemma_split(s, l + 1, p);
        assert(u <= t) by (nonlinear_arith)
            requires
                s == l + 1 + u * p + q,
                s < r + k,
                r - l == t * p,
                k <= p,
                0 <= q,
                p >= 1,
                u >= 0,
        ;
        lemma_blocks(u, t, p);
        if q == 0 {
            lemma_aligned_agree(x, l, r, k, p, t, rev, s, u);
        } else {
            assert(below_within(x, l + 1 + q, l + 1, p - q, rev));
            let d0 = choose|d: int| #[trigger] below_at(x, l + 1 + q, l + 1, d, rev) && d < p - q;
            if s + d0 < x.len() {
                assert forall|m: int| 0 <= m <= d0 implies #[trigger] x[s + m] == x[l + 1 + q + m] by {
                    lemma_shift(x, l + 1, r + k, p, l + 1 + q + m, u);
                }
                lemma_below_copy(x, l + 1 + q, s, l + 1, d0, rev);
                assert(suffix_below(x, s, l + 1, rev));
            } else {
                assert forall|m: int| 0 <= m < x.len() - s implies #[trigger] x[s + m] == x[l + 1 + m] by {
                    lemma_shift(x, l + 1, r + k, p, l + 1 + q + m, u);
                    assert(x[l + 1 + q + m] == x[l + 1 + m]);
                }
            }
        }
    }
    assert forall|q: int| 1 <= q < p implies !#[trigger] has_period(x, l + 1, x.len() as int, q) by {
        assert(below_within(x, l + 1 + q, l + 1, p - q, rev));
        let d0 = choose|d: int| #[trigger] below_at(x, l + 1 + q, l + 1, d, rev) && d < p - q;
        if has_period(x, l + 1, x.len() as int, q) {
            assert(x[l + 1 + d0] == x[l + 1 + d0 + q]);
        }
    }
}

/// The maximal suffix of `arr` in lexicographic order (with the order of
/// bytes reversed when `reversed` holds) and a period of it: the result
/// `(i, p)` starts the suffix at `i`; every suffix that starts before `i`
/// is below it, and `p` is a period of `arr[i..]`.
fn maximal_suffix(arr: &[u8], reversed: bool) -> (r: (usize, usize))
    ensures
        arr@.len() == 0 ==> r == (0usize, 1usize),
        arr@.len() > 0 ==> r.1 >= 1 && r.0 + r.1 <= arr@.len(),
        has_period(arr@, r.0 as int, arr@.len() as int, r.1 as int),
        above_earlier_suffixes(arr@, r.0 as int, reversed),
        above_later_suffixes(arr@, r.0 as int, reversed),
        least_period(arr@, r.0 as int, r.1 as int),
{
    let n = arr.len();
    if n == 0 {
        return (0, 1);
    }
    let mut left: usize = usize::MAX;
    let mut right: usize = 0;
    let mut offset: usize = 1;
    let mut period: usize = 1;
    let ghost mut l: int = -1;
    let ghost mut t: int = 1;
    while right + offset < n
        invariant
            n == arr@.len(),
            n >= 1,
            left as int == if l == -1 { usize::MAX as int } else { l },
            maxsuf_inv(arr@, l, right as int, offset as int, period as int, t, reversed),
        decreases 3 * n - (l + right + offset),
    {
        assert(period <= t * period) by (nonlinear_arith)
            requires
                t >= 1,
                period >= 1,
        ;
        let cand = arr[left.wrapping_add(offset)];
        let chal = arr[right + offset];
        let (a, b): (u8, u8) = if reversed {
            (cand, chal)
        } else {
            (chal, cand)
        };
        if a < b {
            proof {
                lemma_step_below(arr@, l, right as int, offset as int, period as int, t, reversed);
                t = 1;
            }
            right += offset;
            offset = 1;
            period = right.wrapping_sub(left);
        } else if a == b {
            proof {
                lemma_step_equal(arr@, l, right as int, offset as int, period as int, t, reversed);
                if offset == period {
                    t = t + 1;
                }
            }
            if offset == period {
                right += offset;
                offset = 1;
            } else {
                offset += 1;
            }
        } else {
            proof {
                lemma_step_above(arr@, l, right as int, offset as int, period as int, t, reversed);
                l = right as int;
                t = 1;
            }
            left = right;
            right += 1;
            offset = 1;
            period = 1;
        }
    }
    proof {
        assert(period <= t * period) by (nonlinear_arith)
            requires
                t >= 1,
                period >= 1,
        ;
        lemma_scan_complete(arr@, l, right as int, offset as int, period as int, t, reversed);
    }
    (left.wrapping_add(1), period)
}

// ---------------------------------------------------------------------
// Critical factorizations
// ---------------------------------------------------------------------

/// The suffix at `c` is above every other suffix of `x`, or begins with it.
pub open spec fn maximal_at(x: Seq<u8>, c: int, rev: bool) -> bool {
    &&& 0 <= c < x.len()
    &&& above_earlier_suffixes(x, c, rev)
    &&& above_later_suffixes(x, c, rev)
}

/// A repetition of length `s` around position `c` of `x`: each byte less
/// than `s` before `c` equals the byte `s` places further on, as far as
/// both lie in `x`.
pub open spec fn local_rep(x: Seq<u8>, c: int, s: int) -> bool {
    forall|j: int| c - s <= j < c && 0 <= j && j + s < x.len() ==> #[trigger] x[j] == x[j + s]
}

/// `c` splits `x` at the later of its two maximal suffixes, one for each
/// order of bytes.
pub open spec fn critical_split(x: Seq<u8>, c: int) -> bool {
    exists|c2: int, rev: bool| #[trigger] maximal_at(x, c, rev) && #[trigger] maximal_other(x, c2, rev) && c2 <= c
}

/// The suffix at `c` is maximal for the order of bytes opposite to `rev`.
pub open spec fn maximal_other(x: Seq<u8>, c: int, rev: bool) -> bool {
    maximal_at(x, c, !rev)
}

/// Two suffixes cannot each be below the other.
proof fn lemma_below_antisym(x: Seq<u8>, a: int, b: int, d1: int, d2: int, rev: bool)
    ensures
        !(below_at(x, a, b, d1, rev) && below_at(x, b, a, d2, rev)),
{
    if below_at(x, a, b, d1, rev) && below_at(x, b, a, d2, rev) {
        if d1 < d2 {
            assert(x[b + d1] == x[a + d1]);
        } else if d2 < d1 {
            assert(x[a + d2] == x[b + d2]);
        }
    }
}

/// Suffixes that agree up to `d` and differ at `d` are ordered there: a
/// later suffix below the one at `c` by `above_later_suffixes` has its
/// first difference exactly at `d`.
proof fn lemma_later_differs(x: Seq<u8>, c: int, s: int, d: int, rev: bool)
    requires
        0 <= c < s,
        0 <= d,
        s + d < x.len(),
        above_later_suffixes(x, c, rev),
        forall|m: int| 0 <= m < d ==> #[trigger] x[s + m] == x[c + m],
        x[s + d] != x[c + d],
    ensures
        byte_lt(x[s + d], x[c + d], rev),
{
    assert(below_or_prefix(x, s, c, rev));
    if suffix_below(x, s, c, rev) {
        let d1 = choose|d1: int| #[trigger] below_at(x, s, c, d1, rev);
        if d1 < d {
            assert(x[s + d1] == x[c + d1]);
        } else if d < d1 {
            assert(x[s + d] == x[c + d]);
        }
    } else {
        assert(x[s + d] == x[c + d]);
    }
}

/// The critical factorization property: at a critical split `c`, every
/// repetition around `c` is longer than the part before `c` and is a
/// period of the whole word.
proof fn lemma_critical(x: Seq<u8>, c: int, c2: int, rev: bool, s: int)
    requires
        maximal_at(x, c, rev),
        maximal_at(x, c2, !rev),
        0 <= c2 <= c,
        s >= 1,
        local_rep(x, c, s),
    ensures
        c < s,
        has_period(x, 0, x.len() as int, s),
{
    let n = x.len() as int;
    if s <= c {
        // The suffix at `c - s` would begin like the one at `c` and be
        // above it.
        assert(suffix_below(x, c - s, c, rev));
        let d1 = choose|d1: int| #[trigger] below_at(x, c - s, c, d1, rev);
        if c + s >= n {
            assert(x[c - s + d1] == x[c + d1]) by {
                assert(local_rep(x, c, s));
                assert(x[(c - s + d1)] == x[(c - s + d1) + s]);
            }
        } else {
            assert(below_or_prefix(x, c + s, c, rev));
            if suffix_below(x, c + s, c, rev) {
                let d = choose|d: int| #[trigger] below_at(x, c + s, c, d, rev);
                assert forall|m: int| 0 <= m < s + d implies #[trigger] x[c + m] == x[c - s + m] by {
                    if m < s {
                        assert(x[c - s + m] == x[(c - s + m) + s]);
                    } else {
                        assert(x[c + s + (m - s)] == x[c + (m - s)]);
                    }
                }
                assert(below_at(x, c, c - s, s + d, rev));
                lemma_below_antisym(x, c - s, c, d1, s + d, rev);
            } else {
                assert forall|m: int| 0 <= m < n - c implies #[trigger] x[c - s + m] == x[c + m] by {
                    if m < s {
                        assert(x[c - s + m] == x[(c - s + m) + s]);
                    } else {
                        assert(x[c + s + (m - s)] == x[c + (m - s)]);
                    }
                }
                assert(x[c - s + d1] == x[c + d1]);
            }
        }
    } else if c + s >= n {
        assert forall|m: int| 0 <= m && m + s < n implies #[trigger] x[m] == x[m + s] by {
            assert(local_rep(x, c, s));
        }
    } else {
        assert(below_or_prefix(x, c + s, c, rev));
        if suffix_below(x, c + s, c, rev) {
            // The other maximal suffix orders the same two bytes the other way.
            let d = choose|d: int| #[trigger] below_at(x, c + s, c, d, rev);
            let e = c - c2 + d;
            assert forall|m: int| 0 <= m < e implies #[trigger] x[c2 + s + m] == x[c2 + m] by {
                if m < c - c2 {
                    assert(x[c2 + m] == x[(c2 + m) + s]);
                } else {
                    assert(x[c + s + (m - (c - c2))] == x[c + (m - (c - c2))]);
                }
            }
            lemma_later_differs(x, c2, c2 + s, e, !rev);
        } else {
            assert forall|m: int| 0 <= m && m + s < n implies #[trigger] x[m] == x[m + s] by {
                if m < c {
                    assert(local_rep(x, c, s));
                } else {
                    assert(x[c + s + (m - c)] == x[c + (m - c)]);
                }
            }
        }
    }
}

/// At a critical split `c` whose right part has least period `p`, a
/// period of the whole word that is longer than `c` and fits in the right
/// part can be brought down to `p`: then `p` is a period of the word.
proof fn lemma_period_descent(x: Seq<u8>, c: int, c2: int, rev: bool, p: int, s: int)
    requires
        maximal_at(x, c, rev),
        maximal_at(x, c2, !rev),
        0 <= c2 <= c,
        p >= 1,
        has_period(x, c, x.len() as int, p),
        least_period(x, c, p),
        has_period(x, 0, x.len() as int, s),
        c < s <= x.len() - c,
    ensures
        has_period(x, 0, x.len() as int, p),
    decreases s,
{
    let n = x.len() as int;
    if s < p {
        assert(has_period(x, c, n, s));
    } else if s > p {
        let s1 = s - p;
        assert forall|j: int| c - s1 <= j < c && 0 <= j && j + s1 < n implies #[trigger] x[j] == x[j + s1] by {
            assert(x[j] == x[j + s]);
            assert(x[j + s1] == x[(j + s1) + p]);
        }
        lemma_critical(x, c, c2, rev, s1);
        lemma_period_descent(x, c, c2, rev, p, s1);
    }
}

// ---------------------------------------------------------------------
// The Two-Way searcher
// ---------------------------------------------------------------------

/// The result of one search step.
#[derive(Clone, Copy, PartialEq, Eq, Debug)]
pub enum SearchStep {
    /// The pattern matches `haystack[a..b]`.
    Match(usize, usize),
    /// `haystack[a..b]` has been passed over.
    Reject(usize, usize),
    /// Every byte of the haystack has been visited.
    Done,
}

/// The needle occurs in the haystack at byte `a`.
pub open spec fn occurs_at(h: Seq<u8>, nd: Seq<u8>, a: int) -> bool {
    0 <= a && a + nd.len() <= h.len() && h.subrange(a, a + nd.len()) == nd
}

/// The set of the low six bits of the bytes of `s`, one bit each, as the
/// searcher's quick filter holds it.
pub open spec fn byteset_of(s: Seq<u8>) -> u64
    decreases s.len(),
{
    if s.len() == 0 {
        0
    } else {
        (1u64 << ((s.last() & 0x3f) as u64)) | byteset_of(s.drop_last())
    }
}

/// Every byte of `s` has its bit set in the filter of `s`.
proof fn lemma_byteset_has(s: Seq<u8>, j: int)
    requires
        0 <= j < s.len(),
    ensures
        (byteset_of(s) >> ((s[j] & 0x3f) as u64)) & 1 != 0,
    decreases s.len(),
{
    let b = s.last();
    let rest = byteset_of(s.drop_last());
    let sb = (b & 0x3f) as u64;
    assert(sb < 64) by (bit_vector)
        requires
            sb == (b & 0x3f) as u64,
    ;
    if j == s.len() - 1 {
        assert(((1u64 << sb) | rest) >> sb & 1 != 0) by (bit_vector)
            requires
                sb < 64,
        ;
    } else {
        lemma_byteset_has(s.drop_last(), j);
        assert(s.drop_last()[j] == s[j]);
        let sj = s[j];
        let k = (sj & 0x3f) as u64;
        assert(k < 64) by (bit_vector)
            requires
                k == (sj & 0x3f) as u64,
        ;
        assert((rest >> k) & 1 != 0 ==> (((1u64 << sb) | rest) >> k) & 1 != 0) by (bit_vector)
            requires
                k < 64,
                sb < 64,
        ;
    }
}

/// No repetition around `c` is shorter than `shift`.
pub open spec fn no_short_rep(x: Seq<u8>, c: int, shift: int) -> bool {
    forall|s: int| 1 <= s < shift ==> !#[trigger] local_rep(x, c, s)
}

/// The needle does not occur at any position from `a` up to `b`.
pub open spec fn none_between(h: Seq<u8>, nd: Seq<u8>, a: int, b: int) -> bool {
    forall|q: int| a <= q < b ==> !#[trigger] occurs_at(h, nd, q)
}

/// No occurrence of the needle ends after `a` and at or before `b`.
pub open spec fn none_ending_between(h: Seq<u8>, nd: Seq<u8>, a: int, b: int) -> bool {
    forall|q: int| a < q + nd.len() <= b ==> !#[trigger] occurs_at(h, nd, q)
}

/// At a critical split, a repetition around it is a period of the word
/// longer than the part before the split.
proof fn lemma_rep_is_period(x: Seq<u8>, c: int, s: int)
    requires
        critical_split(x, c),
        s >= 1,
        local_rep(x, c, s),
    ensures
        c < s,
        has_period(x, 0, x.len() as int, s),
{
    let (c2, rev) = choose|c2: int, rev: bool| #[trigger] maximal_at(x, c, rev) && #[trigger] maximal_other(x, c2, rev) && c2 <= c;
    lemma_critical(x, c, c2, rev, s);
}

/// A window whose last byte is not in the needle's filter holds no
/// occurrence starting in it.
proof fn lemma_skip_byte(h: Seq<u8>, nd: Seq<u8>, pos: int)
    requires
        nd.len() >= 1,
        0 <= pos,
        pos + nd.len() <= h.len(),
        !((byteset_of(nd) >> ((h[pos + nd.len() - 1] & 0x3f) as u64)) & 1 != 0),
    ensures
        none_between(h, nd, pos, pos + nd.len()),
{
    assert forall|q: int| pos <= q < pos + nd.len() implies !#[trigger] occurs_at(h, nd, q) by {
        if occurs_at(h, nd, q) {
            let j = pos + nd.len() - 1 - q;
            assert(h.subrange(q, q + nd.len())[j] == h[pos + nd.len() - 1]);
            lemma_byteset_has(nd, j);
        }
    }
}

/// After the right part of the needle matched up to `i` and failed at
/// `i`, no occurrence starts before the window moves `i - crit + 1` on.
proof fn lemma_right_shift(h: Seq<u8>, nd: Seq<u8>, pos: int, crit: int, i: int)
    requires
        critical_split(nd, crit),
        crit <= i < nd.len(),
        0 <= pos,
        pos + nd.len() <= h.len(),
        forall|j: int| crit <= j < i ==> #[trigger] h[pos + j] == nd[j],
        h[pos + i] != nd[i],
    ensures
        none_between(h, nd, pos, pos + i - crit + 1),
{
    assert forall|q: int| pos <= q < pos + i - crit + 1 implies !#[trigger] occurs_at(h, nd, q) by {
        if occurs_at(h, nd, q) {
            let s = q - pos;
            let w = h.subrange(q, q + nd.len());
            if s == 0 {
                assert(w[i] == h[pos + i]);
            } else {
                assert forall|j: int| crit - s <= j < crit && 0 <= j && j + s < nd.len() implies #[trigger] nd[j] == nd[j + s] by {
                    assert(w[j] == h[q + j]);
                    assert(h[pos + (s + j)] == nd[s + j]);
                }
                lemma_rep_is_period(nd, crit, s);
                assert(nd[i - s] == nd[(i - s) + s]);
                assert(w[i - s] == h[pos + i]);
            }
        }
    }
}

/// After the right part of the needle matched and the left part failed at
/// `i`, no occurrence starts before the window moves `shift` on, when no
/// repetition around `crit` is shorter than `shift`.
proof fn lemma_left_shift(h: Seq<u8>, nd: Seq<u8>, pos: int, crit: int, shift: int, i: int)
    requires
        no_short_rep(nd, crit, shift),
        0 <= i < crit < nd.len(),
        0 <= pos,
        pos + nd.len() <= h.len(),
        forall|j: int| crit <= j < nd.len() ==> #[trigger] h[pos + j] == nd[j],
        h[pos + i] != nd[i],
    ensures
        none_between(h, nd, pos, pos + shift),
{
    assert forall|q: int| pos <= q < pos + shift implies !#[trigger] occurs_at(h, nd, q) by {
        if occurs_at(h, nd, q) {
            let s = q - pos;
            let w = h.subrange(q, q + nd.len());
            if s == 0 {
                assert(w[i] == h[pos + i]);
            } else {
                assert forall|j: int| crit - s <= j < crit && 0 <= j && j + s < nd.len() implies #[trigger] nd[j] == nd[j + s] by {
                    assert(w[j] == h[q + j]);
                    assert(h[pos + (s + j)] == nd[s + j]);
                }
                assert(local_rep(nd, crit, s));
            }
        }
    }
}

/// A window whose first byte is not in the needle's filter holds no
/// occurrence ending in it.
proof fn lemma_skip_byte_back(h: Seq<u8>, nd: Seq<u8>, base: int)
    requires
        nd.len() >= 1,
        0 <= base,
        base + nd.len() <= h.len(),
        !((byteset_of(nd) >> ((h[base] & 0x3f) as u64)) & 1 != 0),
    ensures
        none_ending_between(h, nd, base, base + nd.len()),
{
    assert forall|q: int| base < q + nd.len() <= base + nd.len() implies !#[trigger] occurs_at(h, nd, q) by {
        if occurs_at(h, nd, q) {
            let j = base - q;
            assert(h.subrange(q, q + nd.len())[j] == h[base]);
            lemma_byteset_has(nd, j);
        }
    }
}

/// After the left part of the needle matched down to `i` and failed at
/// `i`, no occurrence ends after the window end moved `crit - i` back.
proof fn lemma_left_shift_back(h: Seq<u8>, nd: Seq<u8>, base: int, crit: int, i: int)
    requires
        critical_split(nd, crit),
        0 <= i < crit < nd.len(),
        0 <= base,
        base + nd.len() <= h.len(),
        forall|j: int| i < j < crit ==> #[trigger] h[base + j] == nd[j],
        h[base + i] != nd[i],
    ensures
        none_ending_between(h, nd, base + nd.len() - (crit - i), base + nd.len()),
{
    assert forall|q: int| base + nd.len() - (crit - i) < q + nd.len() <= base + nd.len() implies !#[trigger] occurs_at(h, nd, q) by {
        if occurs_at(h, nd, q) {
            let t = base - q;
            let w = h.subrange(q, q + nd.len());
            if t == 0 {
                assert(w[i] == h[base + i]);
            } else {
                assert forall|j: int| crit - t <= j < crit && 0 <= j && j + t < nd.len() implies #[trigger] nd[j] == nd[j + t] by {
                    assert(w[j + t] == h[base + j]);
                }
                lemma_rep_is_period(nd, crit, t);
            }
        }
    }
}

/// After the left part of the needle matched and the right part failed at
/// `i`, no occurrence ends after the window end moved `shift` back, when
/// no repetition around `crit` is shorter than `shift`.
proof fn lemma_right_shift_back(h: Seq<u8>, nd: Seq<u8>, base: int, crit: int, shift: int, i: int)
    requires
        no_short_rep(nd, crit, shift),
        0 <= crit <= i < nd.len(),
        0 <= base,
        base + nd.len() <= h.len(),
        forall|j: int| 0 <= j < crit ==> #[trigger] h[base + j] == nd[j],
        h[base + i] != nd[i],
    ensures
        none_ending_between(h, nd, base + nd.len() - shift, base + nd.len()),
{
    assert forall|q: int| base + nd.len() - shift < q + nd.len() <= base + nd.len() implies !#[trigger] occurs_at(h, nd, q) by {
        if occurs_at(h, nd, q) {
            let t = base - q;
            let w = h.subrange(q, q + nd.len());
            if t == 0 {
                assert(w[i] == h[base + i]);
            } else {
                assert forall|j: int| crit - t <= j < crit && 0 <= j && j + t < nd.len() implies #[trigger] nd[j] == nd[j + t] by {
                    assert(w[j + t] == h[base + j]);
                }
                assert(local_rep(nd, crit, t));
            }
        }
    }
}

/// The larger of two numbers.
pub open spec fn max_usize(a: usize, b: usize) -> usize {
    if a >= b {
        a
    } else {
        b
    }
}

/// The state of a search for a needle: a critical factorization of the
/// needle at `crit_pos`, a period, the byte filter, the two cursors, and
/// (for a needle of short period) how much of the needle is known to match
/// at the front cursor already. `memory` is `usize::MAX` for a needle of
/// long period, where it is not used.
#[derive(Clone, Debug)]
struct TwoWaySearcher {
    crit_pos: usize,
    period: usize,
    byteset: u64,
    position: usize,
    end: usize,
    memory: usize,
}

impl TwoWaySearcher {
    /// Whether the needle's period is long, so that `memory` is not used.
    spec fn is_long(&self) -> bool {
        self.memory == usize::MAX
    }

    /// The constants fit the needle: the factorization is inside it, and
    /// for a short period, the period is a period of the whole needle, at
    /// least as long as the left part, and `memory` is 0 or what is left
    /// of the needle after a period.
    spec fn fits(&self, nd: Seq<u8>) -> bool {
        let n = nd.len();
        &&& n >= 1
        &&& self.crit_pos < n
        &&& self.byteset == byteset_of(nd)
        &&& critical_split(nd, self.crit_pos as int)
        &&& no_short_rep(nd, self.crit_pos as int, self.period as int)
        &&& if self.is_long() {
            self.crit_pos >= 1 && self.period == max_usize(self.crit_pos, (n - self.crit_pos) as usize) + 1
        } else {
            &&& self.period >= 1
            &&& self.crit_pos + self.period <= n
            &&& self.period >= self.crit_pos
            &&& has_period(nd, 0, n as int, self.period as int)
            &&& (self.memory == 0 || self.memory == n - self.period)
        }
    }

    /// The cursors lie in the haystack, and what `memory` claims holds.
    spec fn fits_haystack(&self, h: Seq<u8>, nd: Seq<u8>) -> bool {
        &&& self.position <= h.len()
        &&& self.end <= h.len()
        &&& (!self.is_long() && self.position + nd.len() <= h.len()) ==> forall|j: int|
            0 <= j < self.memory ==> #[trigger] h[self.position + j] == nd[j]
    }

    /// Which bytes of the filter are set.
    fn byteset_create(needle: &[u8]) -> (r: u64)
        ensures
            r == byteset_of(needle@),
    {
        let mut a: u64 = 0;
        let mut i: usize = 0;
        while i < needle.len()
            invariant
                i <= needle@.len(),
                a == byteset_of(needle@.subrange(0, i as int)),
            decreases needle@.len() - i,
        {
            let b = needle[i];
            assert((b & 0x3f) < 64) by (bit_vector);
            let ghost pre = needle@.subrange(0, i as int);
            a = (1u64 << ((b & 0x3f) as u64)) | a;
            i = i + 1;
            proof {
                let cur = needle@.subrange(0, i as int);
                assert(cur.drop_last() =~= pre);
                assert(cur.last() == b);
            }
        }
        assert(needle@.subrange(0, needle@.len() as int) =~= needle@);
        a
    }

    /// Whether a byte's low six bits are in the filter.
    fn byteset_contains(&self, byte: u8) -> (r: bool)
        ensures
            r == ((self.byteset >> ((byte & 0x3f) as u64)) & 1 != 0),
    {
        assert((byte & 0x3f) < 64) by (bit_vector);
        (self.byteset >> ((byte & 0x3f) as u64)) & 1 != 0
    }

    /// Whether `needle[..len]` equals `needle[from..from + len]`.
    fn prefix_repeats(needle: &[u8], from: usize, len: usize) -> (r: bool)
        requires
            from + len <= needle@.len(),
        ensures
            r == (needle@.subrange(0, len as int) == needle@.subrange(from as int, from + len)),
    {
        let mut i: usize = 0;
        while i < len
            invariant
                i <= len,
                from + len <= needle@.len(),
                forall|j: int| 0 <= j < i ==> #[trigger] needle@[j] == needle@[from + j],
            decreases len - i,
        {
            if needle[i] != needle[from + i] {
                proof {
                    if needle@.subrange(0, len as int) == needle@.subrange(from as int, from + len) {
                        assert(needle@.subrange(0, len as int)[i as int] == needle@.subrange(from as int, from + len)[i as int]);
                    }
                }
                return false;
            }
            i = i + 1;
        }
        assert(needle@.subrange(0, len as int) =~= needle@.subrange(from as int, from + len));
        true
    }

    /// A searcher for `needle` in a haystack of `end` bytes, with both
    /// cursors at its ends.
    fn new(needle: &[u8], end: usize) -> (r: TwoWaySearcher)
        requires
            needle@.len() >= 1,
        ensures
            r.fits(needle@),
            r.position == 0,
            r.end == end,
            !r.is_long() ==> r.memory == 0,
    {
        let (crit_pos_false, period_false) = TwoWaySearcher::maximal_suffix(needle, false);
        let (crit_pos_true, period_true) = TwoWaySearcher::maximal_suffix(needle, true);
        let ghost rev = !(crit_pos_false > crit_pos_true);
        let (crit_pos, period) = if crit_pos_false > crit_pos_true {
            (crit_pos_false, period_false)
        } else {
            (crit_pos_true, period_true)
        };
        let ghost c2: int = if crit_pos_false > crit_pos_true { crit_pos_true as int } else { crit_pos_false as int };
        let byteset = TwoWaySearcher::byteset_create(needle);
        let n = needle.len();
        assert(has_period(needle@, crit_pos as int, n as int, period as int));
        assert(above_earlier_suffixes(needle@, crit_pos as int, rev));
        assert(critical_split(needle@, crit_pos as int)) by {
            assert(maximal_at(needle@, crit_pos as int, rev));
            assert(maximal_other(needle@, c2, rev));
        }
        if TwoWaySearcher::prefix_repeats(needle, period, crit_pos) {
            proof {
                lemma_short_period(needle@, crit_pos as int, period as int, rev);
                assert forall|s: int| 1 <= s < period implies !#[trigger] local_rep(needle@, crit_pos as int, s) by {
                    if local_rep(needle@, crit_pos as int, s) {
                        lemma_rep_is_period(needle@, crit_pos as int, s);
                        assert(has_period(needle@, crit_pos as int, n as int, s));
                        assert(least_period(needle@, crit_pos as int, period as int));
                    }
                }
            }
            // short period case
            TwoWaySearcher { crit_pos, period, byteset, position: 0, end, memory: 0 }
        } else {
            // long period case: an approximation of the period, and no memory
            let long = if crit_pos >= n - crit_pos { crit_pos } else { n - crit_pos };
            assert(crit_pos >= 1) by {
                if crit_pos == 0 {
                    assert(needle@.subrange(0, 0) =~= needle@.subrange(period as int, period as int));
                }
            }
            assert forall|s: int| 1 <= s < long + 1 implies !#[trigger] local_rep(needle@, crit_pos as int, s) by {
                if local_rep(needle@, crit_pos as int, s) {
                    lemma_rep_is_period(needle@, crit_pos as int, s);
                    assert(maximal_at(needle@, crit_pos as int, rev));
                    assert(maximal_at(needle@, c2, !rev));
                    lemma_period_descent(needle@, crit_pos as int, c2, rev, period as int, s);
                    assert(needle@.subrange(0, crit_pos as int) =~= needle@.subrange(
                        period as int,
                        period + crit_pos,
                    )) by {
                        assert forall|m: int| 0 <= m < crit_pos implies #[trigger] needle@[m] == needle@[m + period] by {
                        }
                    }
                }
            }
            TwoWaySearcher { crit_pos, period: long + 1, byteset, position: 0, end, memory: usize::MAX }
        }
    }

    /// The first byte of `needle[start..]` that differs from the haystack
    /// at `pos`, scanning left to right.
    fn right_mismatch(needle: &[u8], haystack: &[u8], pos: usize, start: usize) -> (r: Option<usize>)
        requires
            start <= needle@.len(),
            pos + needle@.len() <= haystack@.len(),
        ensures
            match r {
                Some(i) => {
                    &&& start <= i < needle@.len()
                    &&& needle@[i as int] != haystack@[pos + i]
                    &&& forall|j: int| start <= j < i ==> #[trigger] haystack@[pos + j] == needle@[j]
                },
                None => forall|j: int| start <= j < needle@.len() ==> #[trigger] haystack@[pos + j] == needle@[j],
            },
    {
        let hl = haystack.len();
        let mut i: usize = start;
        while i < needle.len()
            invariant
                start <= i <= needle@.len(),
                hl == haystack@.len(),
                pos + needle@.len() <= haystack@.len(),
                forall|j: int| start <= j < i ==> #[trigger] haystack@[pos + j] == needle@[j],
            decreases needle@.len() - i,
        {
            if needle[i] != haystack[pos + i] {
                return Some(i);
            }
            i = i + 1;
        }
        None
    }

    /// The last byte of `needle[start..end]` that differs from the haystack
    /// at `pos`, scanning right to left.
    fn left_mismatch(needle: &[u8], haystack: &[u8], pos: usize, start: usize, end: usize) -> (r: Option<usize>)
        requires
            end <= needle@.len(),
            pos + needle@.len() <= haystack@.len(),
        ensures
            match r {
                Some(i) => {
                    &&& start <= i < end
                    &&& needle@[i as int] != haystack@[pos + i]
                    &&& forall|j: int| i < j < end ==> #[trigger] haystack@[pos + j] == needle@[j]
                },
                None => forall|j: int| start <= j < end ==> #[trigger] haystack@[pos + j] == needle@[j],
            },
    {
        let hl = haystack.len();
        let mut i: usize = end;
        while i > start
            invariant
                i <= end <= needle@.len(),
                hl == haystack@.len(),
                pos + needle@.len() <= haystack@.len(),
                forall|j: int| i <= j < end ==> #[trigger] haystack@[pos + j] == needle@[j],
            decreases i,
        {
            if needle[i - 1] != haystack[pos + i - 1] {
                return Some(i - 1);
            }
            i = i - 1;
        }
        None
    }

    /// One search step from the front: the next match of the needle at or
    /// after the front cursor, or, when `early_reject` holds, the bytes
    /// passed over before the first shift of the window.
    fn next(&mut self, haystack: &[u8], needle: &[u8], long_period: bool, early_reject: bool) -> (r: SearchStep)
        requires
            old(self).fits(needle@),
            old(self).fits_haystack(haystack@, needle@),
            long_period == old(self).is_long(),
        ensures
            final(self).fits(needle@),
            final(self).fits_haystack(haystack@, needle@),
            final(self).crit_pos == old(self).crit_pos,
            final(self).period == old(self).period,
            final(self).byteset == old(self).byteset,
            final(self).end == old(self).end,
            final(self).is_long() == old(self).is_long(),
            match r {
                SearchStep::Match(a, b) => {
                    &&& old(self).position <= a
                    &&& early_reject ==> a == old(self).position
                    &&& b == a + needle@.len()
                    &&& occurs_at(haystack@, needle@, a as int)
                    &&& none_between(haystack@, needle@, old(self).position as int, a as int)
                    &&& final(self).position == b
                },
                SearchStep::Reject(a, b) => {
                    &&& a == old(self).position
                    &&& b == final(self).position
                    &&& (a < b || a == haystack@.len())
                    &&& !early_reject ==> b == haystack@.len()
                    &&& none_between(haystack@, needle@, a as int, b as int)
                },
                SearchStep::Done => false,
            },
    {
        let n = needle.len();
        let hl = haystack.len();
        let old_pos = self.position;
        loop
            invariant
                n == needle@.len(),
                hl == haystack@.len(),
                self.fits(needle@),
                self.fits_haystack(haystack@, needle@),
                self.crit_pos == old(self).crit_pos,
                self.period == old(self).period,
                self.byteset == old(self).byteset,
                self.end == old(self).end,
                self.is_long() == old(self).is_long(),
                long_period == self.is_long(),
                old_pos == old(self).position,
                old_pos <= self.position,
                none_between(haystack@, needle@, old_pos as int, self.position as int),
            decreases hl - self.position,
        {
            // Check that we have room to search in
            if n > hl - self.position {
                proof {
                    assert forall|q: int| old_pos <= q < hl implies !#[trigger] occurs_at(haystack@, needle@, q) by {
                        if q >= self.position {
                            assert(q + n > hl);
                        }
                    }
                }
                self.position = hl;
                return SearchStep::Reject(old_pos, self.position);
            }
            if early_reject && old_pos != self.position {
                return SearchStep::Reject(old_pos, self.position);
            }
            let pos = self.position;
            // Quickly skip by large portions unrelated to our substring
            if !self.byteset_contains(haystack[pos + n - 1]) {
                proof {
                    lemma_skip_byte(haystack@, needle@, pos as int);
                }
                self.position = pos + n;
                if !long_period {
                    self.memory = 0;
                }
                continue;
            }
            // See if the right part of the needle matches
            let start = if long_period {
                self.crit_pos
            } else if self.crit_pos >= self.memory {
                self.crit_pos
            } else {
                self.memory
            };
            let right = TwoWaySearcher::right_mismatch(needle, haystack, pos, start);
            if let Some(i) = right {
                proof {
                    assert forall|j: int| self.crit_pos <= j < i implies #[trigger] haystack@[pos + j] == needle@[j] by {
                        if j < start {
                            assert(haystack@[self.position + j] == needle@[j]);
                        }
                    }
                    lemma_right_shift(haystack@, needle@, pos as int, self.crit_pos as int, i as int);
                }
                self.position = pos + (i - self.crit_pos + 1);
                if !long_period {
                    self.memory = 0;
                }
                continue;
            }
            // See if the left part of the needle matches
            let start = if long_period {
                0
            } else {
                self.memory
            };
            let left_start = if long_period {
                0
            } else {
                self.memory
            };
            let left = TwoWaySearcher::left_mismatch(needle, haystack, pos, left_start, self.crit_pos);
            if let Some(i) = left {
                proof {
                    assert forall|j: int| self.crit_pos <= j < n implies #[trigger] haystack@[pos + j] == needle@[j] by {
                        if j < start {
                            assert(haystack@[self.position + j] == needle@[j]);
                        }
                    }
                    lemma_left_shift(haystack@, needle@, pos as int, self.crit_pos as int, self.period as int, i as int);
                    if !long_period {
                        assert forall|j: int| self.crit_pos <= j < n implies #[trigger] haystack@[pos + j] == needle@[j] by {
                            if j < start {
                                assert(haystack@[self.position + j] == needle@[j]);
                            }
                        }
                        lemma_memory_after_shift(haystack@, needle@, pos as int, self.period as int,
                            i as int, self.crit_pos as int, self.memory as int);
                    }
                }
                self.position = pos + self.period;
                if !long_period {
                    self.memory = n - self.period;
                }
                continue;
            }
            // We have found a match!
            proof {
                assert(haystack@.subrange(pos as int, pos + n) =~= needle@) by {
                    assert forall|j: int| 0 <= j < n implies haystack@.subrange(pos as int, pos + n)[j] == needle@[j] by {
                        assert(haystack@.subrange(pos as int, pos + n)[j] == haystack@[pos + j]);
                        if long_period {
                            if j < self.crit_pos {
                                assert(haystack@[pos + j] == needle@[j]);
                            } else {
                                assert(haystack@[pos + j] == needle@[j]);
                            }
                        } else if j < self.memory {
                            assert(haystack@[self.position + j] == needle@[j]);
                        } else if j < self.crit_pos {
                            assert(haystack@[pos + j] == needle@[j]);
                        } else if j < start {
                            assert(haystack@[self.position + j] == needle@[j]);
                        } else {
                            assert(haystack@[pos + j] == needle@[j]);
                        }
                    }
                }
            }
            let match_pos = pos;
            self.position = pos + n;
            if !long_period {
                self.memory = 0;
            }
            return SearchStep::Match(match_pos, match_pos + n);
        }
    }

    /// One search step from the back: the last match of the needle that
    /// ends at or before the back cursor, or, when `early_reject` holds,
    /// the bytes passed over before the first shift of the window.
    fn next_back(&mut self, haystack: &[u8], needle: &[u8], early_reject: bool) -> (r: SearchStep)
        requires
            old(self).fits(needle@),
            old(self).fits_haystack(haystack@, needle@),
        ensures
            final(self).fits(needle@),
            final(self).fits_haystack(haystack@, needle@),
            final(self).crit_pos == old(self).crit_pos,
            final(self).period == old(self).period,
            final(self).byteset == old(self).byteset,
            final(self).position == old(self).position,
            final(self).memory == old(self).memory,
            final(self).end <= old(self).end,
            match r {
                SearchStep::Match(a, b) => {
                    &&& b <= old(self).end
                    &&& early_reject ==> b == old(self).end
                    &&& b == a + needle@.len()
                    &&& occurs_at(haystack@, needle@, a as int)
                    &&& none_ending_between(haystack@, needle@, b as int, old(self).end as int)
                    &&& final(self).end == a
                },
                SearchStep::Reject(a, b) => {
                    &&& b == old(self).end
                    &&& a == final(self).end
                    &&& (a < b || b == 0)
                    &&& !early_reject ==> a == 0
                    &&& none_ending_between(haystack@, needle@, a as int, b as int)
                },
                SearchStep::Done => false,
            },
    {
        let n = needle.len();
        let old_end = self.end;
        loop
            invariant
                n == needle@.len(),
                self.fits(needle@),
                self.end <= old_end,
                old_end == old(self).end,
                old_end <= haystack@.len(),
                self.crit_pos == old(self).crit_pos,
                self.period == old(self).period,
                self.byteset == old(self).byteset,
                self.position == old(self).position,
                self.memory == old(self).memory,
                self.fits_haystack(haystack@, needle@),
                none_ending_between(haystack@, needle@, self.end as int, old_end as int),
            decreases self.end,
        {
            // Check that we have room to search in
            if n > self.end {
                proof {
                    assert forall|q: int| 0 < q + n <= old_end implies !#[trigger] occurs_at(haystack@, needle@, q) by {
                        if q + n <= self.end {
                            assert(q < 0);
                        }
                    }
                }
                self.end = 0;
                return SearchStep::Reject(0, old_end);
            }
            if early_reject && old_end != self.end {
                return SearchStep::Reject(self.end, old_end);
            }
            let base = self.end - n;
            // Quickly skip by large portions unrelated to our substring
            if !self.byteset_contains(haystack[base]) {
                proof {
                    lemma_skip_byte_back(haystack@, needle@, base as int);
                }
                self.end = base;
                continue;
            }
            // See if the left part of the needle matches
            let left = TwoWaySearcher::left_mismatch(needle, haystack, base, 0, self.crit_pos);
            if let Some(i) = left {
                proof {
                    lemma_left_shift_back(haystack@, needle@, base as int, self.crit_pos as int, i as int);
                }
                self.end = self.end - (self.crit_pos - i);
                continue;
            }
            // See if the right part of the needle matches
            let right = TwoWaySearcher::right_mismatch(needle, haystack, base, self.crit_pos);
            if let Some(i) = right {
                proof {
                    lemma_right_shift_back(haystack@, needle@, base as int, self.crit_pos as int, self.period as int, i as int);
                }
                self.end = self.end - self.period;
                continue;
            }
            // We have found a match!
            proof {
                assert(haystack@.subrange(base as int, base + n) =~= needle@) by {
                    assert forall|j: int| 0 <= j < n implies haystack@.subrange(base as int, base + n)[j] == needle@[j] by {
                        assert(haystack@.subrange(base as int, base + n)[j] == haystack@[base + j]);
                        if j < self.crit_pos {
                            assert(haystack@[base + j] == needle@[j]);
                        } else {
                            assert(haystack@[base + j] == needle@[j]);
                        }
                    }
                }
            }
            let match_pos = base;
            self.end = base;
            return SearchStep::Match(match_pos, match_pos + n);
        }
    }

    fn maximal_suffix(arr: &[u8], reversed: bool) -> (r: (usize, usize))
        ensures
            arr@.len() == 0 ==> r == (0usize, 1usize),
            arr@.len() > 0 ==> r.1 >= 1 && r.0 + r.1 <= arr@.len(),
            has_period(arr@, r.0 as int, arr@.len() as int, r.1 as int),
            above_earlier_suffixes(arr@, r.0 as int, reversed),
            above_later_suffixes(arr@, r.0 as int, reversed),
            least_period(arr@, r.0 as int, r.1 as int),
    {
        maximal_suffix(arr, reversed)
    }
}

/// After the left part of the needle failed to match at byte `i`, all of
/// the needle after `i` matched; one period further on, the first
/// `n - p` bytes of the needle therefore match already.
proof fn lemma_memory_after_shift(h: Seq<u8>, nd: Seq<u8>, pos: int, p: int, i: int, crit: int, memory: int)
    requires
        0 <= pos,
        pos + nd.len() <= h.len(),
        1 <= p,
        crit <= p,
        p <= nd.len(),
        0 <= i < crit,
        has_period(nd, 0, nd.len() as int, p),
        forall|j: int| i < j < crit ==> #[trigger] h[pos + j] == nd[j],
        forall|j: int| crit <= j < nd.len() ==> #[trigger] h[pos + j] == nd[j],
    ensures
        forall|j: int| 0 <= j < nd.len() - p ==> #[trigger] h[pos + p + j] == nd[j],
{
    assert forall|j: int| 0 <= j < nd.len() - p implies #[trigger] h[pos + p + j] == nd[j] by {
        assert(h[pos + (p + j)] == nd[p + j]);
        assert(nd[j] == nd[j + p]);
    }
}

/// When the left part of a critical factorization repeats one period
/// later, the period is one of the whole needle, and it is at least as
/// long as the left part (else the maximal suffix would occur earlier,
/// followed by more bytes, and so not be maximal).
proof fn lemma_short_period(x: Seq<u8>, crit: int, p: int, rev: bool)
    requires
        x.len() >= 1,
        p >= 1,
        0 <= crit,
        crit + p <= x.len(),
        has_period(x, crit, x.len() as int, p),
        above_earlier_suffixes(x, crit, rev),
        x.subrange(0, crit) == x.subrange(p, p + crit),
    ensures
        has_period(x, 0, x.len() as int, p),
        p >= crit,
{
    assert forall|m: int| 0 <= m && m + p < x.len() implies #[trigger] x[m] == x[m + p] by {
        if m < crit {
            assert(x.subrange(0, crit)[m] == x[m]);
            assert(x.subrange(p, p + crit)[m] == x[m + p]);
            assert(x.subrange(0, crit)[m] == x.subrange(p, p + crit)[m]);
        } else {
            assert(has_period(x, crit, x.len() as int, p));
            assert(crit <= m && m + p < x.len());
            assert(x[m] == x[m + p]);
        }
    }
    if p < crit {
        let s = crit - p;
        assert(suffix_below(x, s, crit, rev));
        let d = choose|d: int| #[trigger] below_at(x, s, crit, d, rev);
        assert(x[s + d] == x[s + d + p]);
    }
}

// ---------------------------------------------------------------------
// Searching a string for a string
// ---------------------------------------------------------------------

/// The state of the search for an empty needle: it matches the empty
/// string at every character boundary, and rejects every character.
#[derive(Clone, Debug)]
struct EmptyNeedle {
    position: usize,
    end: usize,
    is_match_fw: bool,
    is_match_bw: bool,
}

#[derive(Clone, Debug)]
enum StrSearcherImpl {
    Empty(EmptyNeedle),
    TwoWay(TwoWaySearcher),
}

/// The searcher for a string pattern in a string.
#[derive(Clone, Debug)]
pub struct StrSearcher<'a, 'b> {
    haystack: &'a str,
    needle: &'b str,
    searcher: StrSearcherImpl,
}

/// `b` is the first character boundary of `h` after `a`.
pub open spec fn next_boundary(h: Seq<u8>, a: int, b: int) -> bool {
    &&& a < b <= h.len()
    &&& is_char_boundary(h, b)
    &&& forall|k: int| a < k < b ==> !#[trigger] is_char_boundary(h, k)
}

/// `a` is the last character boundary of `h` before `b`.
pub open spec fn prev_boundary(h: Seq<u8>, a: int, b: int) -> bool {
    &&& 0 <= a < b
    &&& is_char_boundary(h, a)
    &&& forall|k: int| a < k < b ==> !#[trigger] is_char_boundary(h, k)
}

/// Where a window of the haystack matches the first byte of a needle of
/// valid UTF-8, a character starts.
proof fn lemma_window_start_is_boundary(h: Seq<u8>, nd: Seq<u8>, a: int)
    requires
        valid_utf8(h),
        valid_utf8(nd),
        nd.len() >= 1,
        0 <= a,
        a + nd.len() <= h.len(),
        h[a] == nd[0],
    ensures
        is_char_boundary(h, a),
{
    vstd::utf8::is_char_boundary_start_end_of_seq(nd);
    vstd::utf8::is_char_boundary_iff_not_is_continuation_byte(nd, 0);
    vstd::utf8::is_char_boundary_iff_not_is_continuation_byte(h, a);
}

/// Where valid UTF-8 text starts with valid UTF-8 text, the first ends on
/// a character boundary.
proof fn lemma_prefix_boundary(b1: Seq<u8>, b2: Seq<u8>)
    requires
        valid_utf8(b1),
        valid_utf8(b1 + b2),
    ensures
        is_char_boundary(b1 + b2, b1.len() as int),
    decreases b1.len(),
{
    if b1.len() > 0 {
        let l = vstd::utf8::length_of_first_scalar(b1);
        assert((b1 + b2)[0] == b1[0]);
        assert(vstd::utf8::length_of_first_scalar(b1 + b2) == l);
        assert(1 <= l <= b1.len());
        assert(vstd::utf8::pop_first_scalar(b1 + b2) =~= vstd::utf8::pop_first_scalar(b1) + b2);
        lemma_prefix_boundary(vstd::utf8::pop_first_scalar(b1), b2);
    }
}

/// A character boundary of a suffix that starts on a character boundary
/// is one of the whole text.
proof fn lemma_boundary_in_tail(h: Seq<u8>, a: int, j: int)
    requires
        valid_utf8(h),
        0 <= a <= h.len(),
        is_char_boundary(h, a),
        0 <= j <= h.len() - a,
        is_char_boundary(h.subrange(a, h.len() as int), j),
    ensures
        is_char_boundary(h, a + j),
{
    let t = h.subrange(a, h.len() as int);
    vstd::utf8::valid_utf8_split(h, a);
    if a + j == h.len() {
        vstd::utf8::is_char_boundary_start_end_of_seq(h);
    } else {
        vstd::utf8::is_char_boundary_iff_not_is_continuation_byte(t, j);
        vstd::utf8::is_char_boundary_iff_not_is_continuation_byte(h, a + j);
        assert(t[j] == h[a + j]);
    }
}

/// A match of a needle of valid UTF-8 that starts on a character boundary
/// ends on one.
proof fn lemma_match_end_boundary(h: Seq<u8>, nd: Seq<u8>, a: int)
    requires
        valid_utf8(h),
        valid_utf8(nd),
        is_char_boundary(h, a),
        occurs_at(h, nd, a),
    ensures
        is_char_boundary(h, a + nd.len()),
{
    let t = h.subrange(a, h.len() as int);
    let rest = h.subrange(a + nd.len(), h.len() as int);
    vstd::utf8::valid_utf8_split(h, a);
    assert(t =~= nd + rest) by {
        assert(h.subrange(a, a + nd.len()) == nd);
        assert forall|m: int| 0 <= m < nd.len() implies t[m] == nd[m] by {
            assert(h.subrange(a, a + nd.len())[m] == h[a + m]);
        }
    }
    lemma_prefix_boundary(nd, rest);
    lemma_boundary_in_tail(h, a, nd.len() as int);
}

/// The bytes of a string are valid UTF-8, with boundaries at both ends.
proof fn lemma_str_bytes(s: &str)
    ensures
        valid_utf8(s.spec_bytes()),
        is_char_boundary(s.spec_bytes(), 0),
        is_char_boundary(s.spec_bytes(), s.spec_bytes().len() as int),
{
    vstd::utf8::encode_utf8_valid_utf8(s@);
    vstd::utf8::is_char_boundary_start_end_of_seq(s.spec_bytes());
}

/// The first character boundary of `s` after `a`.
fn next_boundary_in(s: &str, a: usize) -> (b: usize)
    requires
        a < s.spec_bytes().len(),
    ensures
        next_boundary(s.spec_bytes(), a as int, b as int),
{
    proof {
        lemma_str_bytes(s);
    }
    let hl = s.as_bytes().len();
    let mut b = a + 1;
    while !s.is_char_boundary(b)
        invariant
            a < b <= hl,
            hl == s.spec_bytes().len(),
            is_char_boundary(s.spec_bytes(), hl as int),
            forall|k: int| a < k < b ==> !#[trigger] is_char_boundary(s.spec_bytes(), k),
        decreases hl - b,
    {
        b = b + 1;
    }
    b
}

/// The last character boundary of `s` before `b`.
fn prev_boundary_in(s: &str, b: usize) -> (a: usize)
    requires
        0 < b <= s.spec_bytes().len(),
    ensures
        prev_boundary(s.spec_bytes(), a as int, b as int),
{
    proof {
        lemma_str_bytes(s);
    }
    let mut a = b - 1;
    while !s.is_char_boundary(a)
        invariant
            a < b,
            is_char_boundary(s.spec_bytes(), 0),
            forall|k: int| a < k < b ==> !#[trigger] is_char_boundary(s.spec_bytes(), k),
        decreases a,
    {
        a = a - 1;
    }
    a
}

impl<'a, 'b> StrSearcher<'a, 'b> {
    /// The bytes searched in.
    pub closed spec fn haystack_bytes(&self) -> Seq<u8> {
        self.haystack.spec_bytes()
    }

    /// The bytes searched for.
    pub closed spec fn needle_bytes(&self) -> Seq<u8> {
        self.needle.spec_bytes()
    }

    /// The front cursor: where the next search from the front starts.
    pub closed spec fn front(&self) -> int {
        match self.searcher {
            StrSearcherImpl::Empty(e) => e.position as int,
            StrSearcherImpl::TwoWay(t) => t.position as int,
        }
    }

    /// The back cursor: where the next search from the back ends.
    pub closed spec fn back(&self) -> int {
        match self.searcher {
            StrSearcherImpl::Empty(e) => e.end as int,
            StrSearcherImpl::TwoWay(t) => t.end as int,
        }
    }

    /// For an empty needle: whether the next step from the front reports
    /// the empty match at the front cursor.
    pub closed spec fn match_front(&self) -> bool {
        match self.searcher {
            StrSearcherImpl::Empty(e) => e.is_match_fw,
            StrSearcherImpl::TwoWay(_) => false,
        }
    }

    /// For an empty needle: whether the next step from the back reports
    /// the empty match at the back cursor.
    pub closed spec fn match_back(&self) -> bool {
        match self.searcher {
            StrSearcherImpl::Empty(e) => e.is_match_bw,
            StrSearcherImpl::TwoWay(_) => false,
        }
    }

    /// The state fits the strings: the cursors lie on character boundaries
    /// of the haystack, and the Two-Way state fits the needle.
    pub closed spec fn wf(&self) -> bool {
        let h = self.haystack.spec_bytes();
        let nd = self.needle.spec_bytes();
        match self.searcher {
            StrSearcherImpl::Empty(e) => {
                &&& nd.len() == 0
                &&& e.position <= h.len()
                &&& e.end <= h.len()
                &&& is_char_boundary(h, e.position as int)
                &&& is_char_boundary(h, e.end as int)
            },
            StrSearcherImpl::TwoWay(t) => {
                &&& nd.len() >= 1
                &&& t.fits(nd)
                &&& t.fits_haystack(h, nd)
                &&& is_char_boundary(h, t.position as int)
                &&& is_char_boundary(h, t.end as int)
            },
        }
    }

    /// Only a searcher for the empty needle has a pending empty match, and
    /// its cursors lie in the haystack.
    pub proof fn lemma_pending_only_empty(&self)
        requires
            self.wf(),
        ensures
            self.match_front() ==> self.needle_bytes().len() == 0,
            self.match_back() ==> self.needle_bytes().len() == 0,
            0 <= self.front() <= self.haystack_bytes().len(),
            0 <= self.back() <= self.haystack_bytes().len(),
    {
    }

    /// A searcher for `needle` in `haystack`, with its front cursor at the
    /// start and its back cursor at the end.
    pub fn new(haystack: &'a str, needle: &'b str) -> (r: StrSearcher<'a, 'b>)
        ensures
            r.wf(),
            r.haystack_bytes() == haystack.spec_bytes(),
            r.needle_bytes() == needle.spec_bytes(),
            r.front() == 0,
            r.back() == haystack.spec_bytes().len(),
            needle.spec_bytes().len() == 0 ==> r.match_front() && r.match_back(),
    {
        proof {
            lemma_str_bytes(haystack);
        }
        if needle.is_empty() {
            proof {
                if needle.spec_bytes().len() > 0 {
                    assert(needle.spec_bytes() == vstd::utf8::encode_utf8(needle@));
                    assert(needle@.len() == 0);
                    assert(needle@ =~= Seq::<char>::empty());
                    assert(vstd::utf8::encode_utf8(needle@) =~= Seq::<u8>::empty());
                }
            }
            StrSearcher {
                haystack: haystack,
                needle: needle,
                searcher: StrSearcherImpl::Empty(EmptyNeedle {
                    position: 0,
                    end: haystack.as_bytes().len(),
                    is_match_fw: true,
                    is_match_bw: true,
                }),
            }
        } else {
            let nb = needle.as_bytes();
            proof {
                if nb@.len() == 0 {
                    vstd::utf8::encode_utf8_decode_utf8(needle@);
                }
            }
            StrSearcher {
                haystack: haystack,
                needle: needle,
                searcher: StrSearcherImpl::TwoWay(TwoWaySearcher::new(nb, haystack.as_bytes().len())),
            }
        }
    }

    /// The string searched in.
    pub fn haystack(&self) -> (r: &'a str)
        ensures
            r.spec_bytes() == self.haystack_bytes(),
    {
        self.haystack
    }

    /// One search step from the front.
    ///
    /// For an empty needle, steps alternate between the empty match at the
    /// front cursor and the rejection of the character after it, until the
    /// end is reached. For a needle of one byte or more: `Done` once the
    /// front cursor is at the end; otherwise a match of the needle at the
    /// front cursor, or the rejection of the bytes from the front cursor
    /// up to a later character boundary, where no occurrence of the needle
    /// starts; the front cursor moves past what is reported. Every range
    /// reported starts and ends on a character boundary.
    pub fn next(&mut self) -> (r: SearchStep)
        requires
            old(self).wf(),
        ensures
            final(self).wf(),
            final(self).haystack_bytes() == old(self).haystack_bytes(),
            final(self).needle_bytes() == old(self).needle_bytes(),
            final(self).back() == old(self).back(),
            final(self).match_back() == old(self).match_back(),
            ({
                let h = old(self).haystack_bytes();
                let nd = old(self).needle_bytes();
                let pos = old(self).front();
                if nd.len() == 0 {
                    &&& if old(self).match_front() {
                        &&& r == SearchStep::Match(pos as usize, pos as usize)
                        &&& final(self).front() == pos
                        &&& !final(self).match_front()
                    } else if pos == h.len() {
                        &&& r == SearchStep::Done
                        &&& final(self).front() == pos
                        &&& !final(self).match_front()
                    } else {
                        &&& final(self).match_front()
                        &&& r == SearchStep::Reject(pos as usize, final(self).front() as usize)
                        &&& next_boundary(h, pos, final(self).front())
                    }
                } else if pos == h.len() {
                    r == SearchStep::Done && final(self).front() == pos
                } else {
                    match r {
                        SearchStep::Match(a, b) => {
                            &&& a == pos
                            &&& b == a + nd.len()
                            &&& occurs_at(h, nd, a as int)
                            &&& is_char_boundary(h, a as int)
                            &&& is_char_boundary(h, b as int)
                            &&& final(self).front() == b
                        },
                        SearchStep::Reject(a, b) => {
                            &&& a == pos
                            &&& pos < b <= h.len()
                            &&& is_char_boundary(h, a as int)
                            &&& is_char_boundary(h, b as int)
                            &&& none_between(h, nd, a as int, b as int)
                            &&& final(self).front() == b
                        },
                        SearchStep::Done => false,
                    }
                }
            }),
    {
        proof {
            lemma_str_bytes(self.haystack);
        }
        let hl = self.haystack.as_bytes().len();
        let haystack = self.haystack;
        let needle = self.needle;
        match &mut self.searcher {
            StrSearcherImpl::Empty(searcher) => {
                // empty needle rejects every char and matches every empty string between them
                let is_match = searcher.is_match_fw;
                let pos = searcher.position;
                if is_match {
                    searcher.is_match_fw = false;
                    SearchStep::Match(pos, pos)
                } else if pos == hl {
                    SearchStep::Done
                } else {
                    searcher.is_match_fw = true;
                    let b = next_boundary_in(haystack, pos);
                    searcher.position = b;
                    SearchStep::Reject(pos, searcher.position)
                }
            },
            StrSearcherImpl::TwoWay(searcher) => {
                // TwoWaySearcher produces valid *Match* indices that split at char boundaries
                // as long as it does correct matching and that haystack and needle are
                // valid UTF-8
                // *Rejects* from the algorithm can fall on any indices, but we will walk them
                // manually to the next character boundary, so that they are utf-8 safe.
                if searcher.position == hl {
                    return SearchStep::Done;
                }
                let is_long = searcher.memory == usize::MAX;
                let hb = haystack.as_bytes();
                let nb = needle.as_bytes();
                match searcher.next(hb, nb, is_long, true) {
                    SearchStep::Reject(a, b0) => {
                        let ghost moved = *searcher;
                        proof {
                            lemma_str_bytes(needle);
                            if !moved.is_long() && moved.memory > 0 && moved.position + nb@.len() <= hb@.len() {
                                assert(hb@[moved.position + 0] == nb@[0]);
                                lemma_window_start_is_boundary(hb@, nb@, moved.position as int);
                            }
                        }
                        // skip to next char boundary
                        let mut b = b0;
                        while !haystack.is_char_boundary(b)
                            invariant
                                b0 <= b <= hl,
                                hl == haystack.spec_bytes().len(),
                                is_char_boundary(haystack.spec_bytes(), hl as int),
                                is_char_boundary(haystack.spec_bytes(), b0 as int) ==> b == b0,
                                forall|k: int| b0 <= k < b ==> !#[trigger] is_char_boundary(haystack.spec_bytes(), k),
                            decreases hl - b,
                        {
                            b = b + 1;
                        }
                        proof {
                            assert forall|q: int| a <= q < b implies !#[trigger] occurs_at(hb@, nb@, q) by {
                                if q >= b0 && occurs_at(hb@, nb@, q) {
                                    assert(hb@.subrange(q, q + nb@.len())[0] == hb@[q]);
                                    lemma_window_start_is_boundary(hb@, nb@, q);
                                }
                            }
                        }
                        if b > searcher.position {
                            searcher.position = b;
                        }
                        SearchStep::Reject(a, b)
                    },
                    SearchStep::Match(a, b) => {
                        proof {
                            lemma_str_bytes(needle);
                            lemma_match_end_boundary(hb@, nb@, a as int);
                        }
                        SearchStep::Match(a, b)
                    },
                    SearchStep::Done => SearchStep::Done,
                }
            },
        }
    }


    /// A measure of the work left from the front.
    pub closed spec fn front_measure(&self) -> int {
        2 * (self.haystack_bytes().len() - self.front()) + if self.match_front() { 1int } else { 0int }
    }

    /// A measure of the work left from the back.
    pub closed spec fn back_measure(&self) -> int {
        2 * self.back() + if self.match_back() { 1int } else { 0int }
    }

    /// The next match from the front: for an empty needle, the empty match
    /// at the front cursor or, when the front cursor was just reported,
    /// at the next character boundary; for a longer needle, the first
    /// match at or after the front cursor. The front cursor moves past it;
    /// `None` once the end is reached.
    pub fn next_match(&mut self) -> (r: Option<(usize, usize)>)
        requires
            old(self).wf(),
        ensures
            final(self).wf(),
            final(self).haystack_bytes() == old(self).haystack_bytes(),
            final(self).needle_bytes() == old(self).needle_bytes(),
            final(self).back() == old(self).back(),
            final(self).match_back() == old(self).match_back(),
            ({
                let h = old(self).haystack_bytes();
                let nd = old(self).needle_bytes();
                let pos = old(self).front();
                match r {
                    Some((a, b)) => {
                        &&& pos <= a
                        &&& b == a + nd.len()
                        &&& occurs_at(h, nd, a as int)
                        &&& is_char_boundary(h, a as int)
                        &&& is_char_boundary(h, b as int)
                        &&& final(self).front() == b
                        &&& (nd.len() > 0 ==> none_between(h, nd, pos, a as int))
                        &&& (nd.len() == 0 ==> {
                            &&& !final(self).match_front()
                            &&& if old(self).match_front() {
                                a == pos
                            } else {
                                next_boundary(h, pos, a as int)
                            }
                        })
                    },
                    None => {
                        &&& final(self).front() == h.len()
                        &&& (nd.len() > 0 ==> none_between(h, nd, pos, h.len() as int))
                        &&& (nd.len() == 0 ==> pos == h.len() && !old(self).match_front())
                    },
                }
            }),
    {
        let haystack = self.haystack;
        let needle = self.needle;
        let is_empty = match &self.searcher {
            StrSearcherImpl::Empty(_) => true,
            StrSearcherImpl::TwoWay(_) => false,
        };
        if is_empty {
            loop
                invariant
                    self.wf(),
                    self.haystack_bytes() == old(self).haystack_bytes(),
                    self.needle_bytes() == old(self).needle_bytes(),
                    self.needle_bytes().len() == 0,
                    self.back() == old(self).back(),
                    self.match_back() == old(self).match_back(),
                    old(self).match_front() ==> self.front() == old(self).front() && self.match_front(),
                    !old(self).match_front() ==> (self.front() == old(self).front() && !self.match_front())
                        || (self.match_front() && next_boundary(old(self).haystack_bytes(), old(self).front(), self.front())),
                    self.front() <= self.haystack_bytes().len(),
                decreases self.front_measure(),
            {
                match self.next() {
                    SearchStep::Match(a, b) => {
                        assert(self.haystack_bytes().subrange(a as int, a as int) =~= self.needle_bytes());
                        return Some((a, b));
                    },
                    SearchStep::Done => return None,
                    SearchStep::Reject(..) => {},
                }
            }
        } else {
            match &mut self.searcher {
                StrSearcherImpl::Empty(_) => None,
                StrSearcherImpl::TwoWay(searcher) => {
                    let is_long = searcher.memory == usize::MAX;
                    let hb = haystack.as_bytes();
                    let nb = needle.as_bytes();
                    let step = if is_long {
                        searcher.next(hb, nb, true, false)
                    } else {
                        searcher.next(hb, nb, false, false)
                    };
                    proof {
                        lemma_str_bytes(haystack);
                        lemma_str_bytes(needle);
                    }
                    match step {
                        SearchStep::Match(a, b) => {
                            proof {
                                assert(hb@.subrange(a as int, b as int)[0] == hb@[a as int]);
                                lemma_window_start_is_boundary(hb@, nb@, a as int);
                                lemma_match_end_boundary(hb@, nb@, a as int);
                            }
                            Some((a, b))
                        },
                        _ => None,
                    }
                },
            }
        }
    }

    /// The next rejected range from the front, skipping matches; `None`
    /// once the end is reached.
    pub fn next_reject(&mut self) -> (r: Option<(usize, usize)>)
        requires
            old(self).wf(),
        ensures
            final(self).wf(),
            final(self).haystack_bytes() == old(self).haystack_bytes(),
            final(self).needle_bytes() == old(self).needle_bytes(),
            final(self).back() == old(self).back(),
            final(self).match_back() == old(self).match_back(),
            match r {
                Some((a, b)) => {
                    &&& old(self).front() <= a < b
                    &&& b <= old(self).haystack_bytes().len()
                    &&& is_char_boundary(old(self).haystack_bytes(), a as int)
                    &&& is_char_boundary(old(self).haystack_bytes(), b as int)
                    &&& (old(self).needle_bytes().len() > 0 ==> none_between(
                        old(self).haystack_bytes(),
                        old(self).needle_bytes(),
                        a as int,
                        b as int,
                    ))
                    &&& final(self).front() == b
                },
                None => final(self).front() == old(self).haystack_bytes().len(),
            },
    {
        loop
            invariant
                self.wf(),
                self.haystack_bytes() == old(self).haystack_bytes(),
                self.needle_bytes() == old(self).needle_bytes(),
                self.back() == old(self).back(),
                self.match_back() == old(self).match_back(),
                old(self).front() <= self.front() <= self.haystack_bytes().len(),
            decreases self.front_measure(),
        {
            proof {
                if self.needle_bytes().len() > 0 {
                    assert(!self.match_front());
                }
            }
            match self.next() {
                SearchStep::Reject(a, b) => return Some((a, b)),
                SearchStep::Done => return None,
                SearchStep::Match(..) => {},
            }
        }
    }

    /// One search step from the back, the mirror of `next`: for a needle
    /// of one byte or more, a match ending at the back cursor, or the
    /// rejection of the bytes from an earlier character boundary up to the
    /// back cursor, where no occurrence of the needle ends; the back cursor
    /// moves before what is reported.
    pub fn next_back(&mut self) -> (r: SearchStep)
        requires
            old(self).wf(),
        ensures
            final(self).wf(),
            final(self).haystack_bytes() == old(self).haystack_bytes(),
            final(self).needle_bytes() == old(self).needle_bytes(),
            final(self).front() == old(self).front(),
            final(self).match_front() == old(self).match_front(),
            ({
                let h = old(self).haystack_bytes();
                let nd = old(self).needle_bytes();
                let end = old(self).back();
                if nd.len() == 0 {
                    &&& if old(self).match_back() {
                        &&& r == SearchStep::Match(end as usize, end as usize)
                        &&& final(self).back() == end
                        &&& !final(self).match_back()
                    } else if end == 0 {
                        &&& r == SearchStep::Done
                        &&& final(self).back() == end
                        &&& !final(self).match_back()
                    } else {
                        &&& final(self).match_back()
                        &&& r == SearchStep::Reject(final(self).back() as usize, end as usize)
                        &&& prev_boundary(h, final(self).back(), end)
                    }
                } else if end == 0 {
                    r == SearchStep::Done && final(self).back() == end
                } else {
                    match r {
                        SearchStep::Match(a, b) => {
                            &&& b == end
                            &&& b == a + nd.len()
                            &&& occurs_at(h, nd, a as int)
                            &&& is_char_boundary(h, a as int)
                            &&& is_char_boundary(h, b as int)
                            &&& final(self).back() == a
                        },
                        SearchStep::Reject(a, b) => {
                            &&& b == end
                            &&& 0 <= a < end
                            &&& is_char_boundary(h, a as int)
                            &&& is_char_boundary(h, b as int)
                            &&& none_ending_between(h, nd, a as int, b as int)
                            &&& final(self).back() == a
                        },
                        SearchStep::Done => false,
                    }
                }
            }),
    {
        proof {
            lemma_str_bytes(self.haystack);
        }
        let haystack = self.haystack;
        let needle = self.needle;
        match &mut self.searcher {
            StrSearcherImpl::Empty(searcher) => {
                let is_match = searcher.is_match_bw;
                let end = searcher.end;
                if is_match {
                    searcher.is_match_bw = false;
                    SearchStep::Match(end, end)
                } else if end == 0 {
                    SearchStep::Done
                } else {
                    searcher.is_match_bw = true;
                    searcher.end = prev_boundary_in(haystack, end);
                    SearchStep::Reject(searcher.end, end)
                }
            },
            StrSearcherImpl::TwoWay(searcher) => {
                if searcher.end == 0 {
                    return SearchStep::Done;
                }
                let hb = haystack.as_bytes();
                let nb = needle.as_bytes();
                match searcher.next_back(hb, nb, true) {
                    SearchStep::Reject(a0, b) => {
                        // skip to next char boundary
                        let mut a = a0;
                        while !haystack.is_char_boundary(a)
                            invariant
                                a <= a0,
                                is_char_boundary(haystack.spec_bytes(), 0),
                                forall|k: int| a < k <= a0 ==> !#[trigger] is_char_boundary(haystack.spec_bytes(), k),
                            decreases a,
                        {
                            a = a - 1;
                        }
                        proof {
                            lemma_str_bytes(needle);
                            assert forall|q: int| a < q + nb@.len() <= b implies !#[trigger] occurs_at(hb@, nb@, q) by {
                                if q + nb@.len() <= a0 && occurs_at(hb@, nb@, q) {
                                    assert(hb@.subrange(q, q + nb@.len())[0] == hb@[q]);
                                    lemma_window_start_is_boundary(hb@, nb@, q);
                                    lemma_match_end_boundary(hb@, nb@, q);
                                }
                            }
                        }
                        if a < searcher.end {
                            searcher.end = a;
                        }
                        SearchStep::Reject(a, b)
                    },
                    SearchStep::Match(a, b) => {
                        proof {
                            lemma_str_bytes(needle);
                            assert(hb@.subrange(a as int, b as int)[0] == hb@[a as int]);
                            lemma_window_start_is_boundary(hb@, nb@, a as int);
                        }
                        SearchStep::Match(a, b)
                    },
                    SearchStep::Done => SearchStep::Done,
                }
            },
        }
    }

    /// The next match from the back, the mirror of `next_match`.
    pub fn next_match_back(&mut self) -> (r: Option<(usize, usize)>)
        requires
            old(self).wf(),
        ensures
            final(self).wf(),
            final(self).haystack_bytes() == old(self).haystack_bytes(),
            final(self).needle_bytes() == old(self).needle_bytes(),
            final(self).front() == old(self).front(),
            final(self).match_front() == old(self).match_front(),
            ({
                let h = old(self).haystack_bytes();
                let nd = old(self).needle_bytes();
                let end = old(self).back();
                match r {
                    Some((a, b)) => {
                        &&& b <= end
                        &&& b == a + nd.len()
                        &&& occurs_at(h, nd, a as int)
                        &&& is_char_boundary(h, a as int)
                        &&& is_char_boundary(h, b as int)
                        &&& final(self).back() == a
                        &&& (nd.len() > 0 ==> none_ending_between(h, nd, b as int, end))
                        &&& (nd.len() == 0 ==> {
                            &&& !final(self).match_back()
                            &&& if old(self).match_back() {
                                b == end
                            } else {
                                prev_boundary(h, b as int, end)
                            }
                        })
                    },
                    None => {
                        &&& final(self).back() == 0
                        &&& (nd.len() > 0 ==> none_ending_between(h, nd, 0, end))
                        &&& (nd.len() == 0 ==> end == 0 && !old(self).match_back())
                    },
                }
            }),
    {
        let haystack = self.haystack;
        let needle = self.needle;
        let is_empty = match &self.searcher {
            StrSearcherImpl::Empty(_) => true,
            StrSearcherImpl::TwoWay(_) => false,
        };
        if is_empty {
            loop
                invariant
                    self.wf(),
                    self.haystack_bytes() == old(self).haystack_bytes(),
                    self.needle_bytes() == old(self).needle_bytes(),
                    self.needle_bytes().len() == 0,
                    self.front() == old(self).front(),
                    self.match_front() == old(self).match_front(),
                    old(self).match_back() ==> self.back() == old(self).back() && self.match_back(),
                    !old(self).match_back() ==> (self.back() == old(self).back() && !self.match_back())
                        || (self.match_back() && prev_boundary(old(self).haystack_bytes(), self.back(), old(self).back())),
                decreases self.back_measure(),
            {
                match self.next_back() {
                    SearchStep::Match(a, b) => {
                        assert(self.haystack_bytes().subrange(a as int, a as int) =~= self.needle_bytes());
                        return Some((a, b));
                    },
                    SearchStep::Done => return None,
                    SearchStep::Reject(..) => {},
                }
            }
        } else {
            match &mut self.searcher {
                StrSearcherImpl::Empty(_) => None,
                StrSearcherImpl::TwoWay(searcher) => {
                    let hb = haystack.as_bytes();
                    let nb = needle.as_bytes();
                    let step = searcher.next_back(hb, nb, false);
                    proof {
                        lemma_str_bytes(haystack);
                        lemma_str_bytes(needle);
                    }
                    match step {
                        SearchStep::Match(a, b) => {
                            proof {
                                assert(hb@.subrange(a as int, b as int)[0] == hb@[a as int]);
                                lemma_window_start_is_boundary(hb@, nb@, a as int);
                                lemma_match_end_boundary(hb@, nb@, a as int);
                            }
                            Some((a, b))
                        },
                        _ => None,
                    }
                },
            }
        }
    }

    /// The next rejected range from the back, skipping matches; `None`
    /// once the start is reached.
    pub fn next_reject_back(&mut self) -> (r: Option<(usize, usize)>)
        requires
            old(self).wf(),
        ensures
            final(self).wf(),
            final(self).haystack_bytes() == old(self).haystack_bytes(),
            final(self).needle_bytes() == old(self).needle_bytes(),
            final(self).front() == old(self).front(),
            final(self).match_front() == old(self).match_front(),
            match r {
                Some((a, b)) => {
                    &&& a < b <= old(self).back()
                    &&& is_char_boundary(old(self).haystack_bytes(), a as int)
                    &&& is_char_boundary(old(self).haystack_bytes(), b as int)
                    &&& (old(self).needle_bytes().len() > 0 ==> none_ending_between(
                        old(self).haystack_bytes(),
                        old(self).needle_bytes(),
                        a as int,
                        b as int,
                    ))
                    &&& final(self).back() == a
                },
                None => final(self).back() == 0,
            },
    {
        loop
            invariant
                self.wf(),
                self.haystack_bytes() == old(self).haystack_bytes(),
                self.needle_bytes() == old(self).needle_bytes(),
                self.front() == old(self).front(),
                self.match_front() == old(self).match_front(),
                0 <= self.back() <= old(self).back(),
            decreases self.back_measure(),
        {
            proof {
                if self.needle_bytes().len() > 0 {
                    assert(!self.match_back());
                }
            }
            match self.next_back() {
                SearchStep::Reject(a, b) => return Some((a, b)),
                SearchStep::Done => return None,
                SearchStep::Match(..) => {},
            }
        }
    }
}

/// Whether `needle` occurs in `haystack`.
pub fn is_contained_in(needle: &str, haystack: &str) -> (r: bool)
    ensures
        r == exists|a: int| occurs_at(haystack.spec_bytes(), needle.spec_bytes(), a),
{
    let mut searcher = StrSearcher::new(haystack, needle);
    let m = searcher.next_match();
    match m {
        Some((a, _)) => {
            assert(occurs_at(haystack.spec_bytes(), needle.spec_bytes(), a as int));
            true
        },
        None => {
            proof {
                let h = haystack.spec_bytes();
                let nd = needle.spec_bytes();
                if nd.len() == 0 {
                    assert(h.subrange(0, 0) =~= nd);
                    assert(occurs_at(h, nd, 0));
                }
                assert forall|a: int| !occurs_at(h, nd, a) by {
                    if 0 <= a < h.len() {
                        assert(!occurs_at(h, nd, a));
                    }
                }
            }
            false
        },
    }
}

/// Whether `needle` is a prefix of `haystack` that ends on a character
/// boundary.
pub fn is_prefix_of(needle: &str, haystack: &str) -> (r: bool)
    ensures
        r == (is_char_boundary(haystack.spec_bytes(), needle.spec_bytes().len() as int)
            && occurs_at(haystack.spec_bytes(), needle.spec_bytes(), 0)),
{
    proof {
        lemma_str_bytes(haystack);
    }
    let nb = needle.as_bytes();
    let hb = haystack.as_bytes();
    let n = nb.len();
    if !haystack.is_char_boundary(n) {
        return false;
    }
    proof {
        if n > hb@.len() {
            assert(!is_char_boundary(hb@, n as int));
        }
    }
    bytes_equal_at(hb, nb, 0)
}

/// Whether `needle` is a suffix of `haystack` that starts on a character
/// boundary.
pub fn is_suffix_of(needle: &str, haystack: &str) -> (r: bool)
    ensures
        r == (needle.spec_bytes().len() <= haystack.spec_bytes().len() && is_char_boundary(
            haystack.spec_bytes(),
            haystack.spec_bytes().len() - needle.spec_bytes().len(),
        ) && occurs_at(
            haystack.spec_bytes(),
            needle.spec_bytes(),
            haystack.spec_bytes().len() - needle.spec_bytes().len(),
        )),
{
    let nb = needle.as_bytes();
    let hb = haystack.as_bytes();
    let n = nb.len();
    let hl = hb.len();
    if n > hl {
        return false;
    }
    if !haystack.is_char_boundary(hl - n) {
        return false;
    }
    bytes_equal_at(hb, nb, hl - n)
}

/// Whether `needle` occurs in `haystack` at byte `a`.
fn bytes_equal_at(haystack: &[u8], needle: &[u8], a: usize) -> (r: bool)
    requires
        a + needle@.len() <= haystack@.len(),
    ensures
        r == occurs_at(haystack@, needle@, a as int),
{
    let n = needle.len();
    let hl = haystack.len();
    let mut i: usize = 0;
    while i < n
        invariant
            i <= n,
            n == needle@.len(),
            hl == haystack@.len(),
            a + n <= haystack@.len(),
            forall|j: int| 0 <= j < i ==> #[trigger] haystack@[a + j] == needle@[j],
        decreases n - i,
    {
        if haystack[a + i] != needle[i] {
            proof {
                if occurs_at(haystack@, needle@, a as int) {
                    assert(haystack@.subrange(a as int, a + n)[i as int] == needle@[i as int]);
                }
            }
            return false;
        }
        i = i + 1;
    }
    assert forall|j: int| 0 <= j < n implies haystack@.subrange(a as int, a + n)[j] == needle@[j] by {
        assert(haystack@[a + j] == needle@[j]);
    }
    assert(haystack@.subrange(a as int, a + n) =~= needle@);
    true
}

} // verus!
