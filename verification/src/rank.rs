//! Ranks: either order as the order of three numbers taken at the first
//! position where two sequences differ.

use std::cmp::Ordering;
use vstd::prelude::*;
use crate::order::natural_order;
use crate::scan::{
    first_mismatch, is_digit, lemma_first_mismatch, lemma_mismatch_after_agreement,
    lemma_mismatch_symmetric, lemma_run_end, lemma_run_end_inside, run_end,
};

verus! {

/// The rank of `x` at position `m`: what places `x` among the sequences
/// that begin with its first `m` bytes. It is made of
/// - the class of what stands at `m`. The end of `x` and anything behind a
///   digit have class 0. Behind text the chunk-by-chunk order (`chunked`)
///   gives a digit class 1 and text class 2. Otherwise a byte below `'0'`
///   has class 1, a digit class 2 and a byte above `'9'` class 3;
/// - the end of the digit run that starts at `m`, `m` itself where none
///   does;
/// - the byte at `m`, -1 at the end of `x`.
pub open spec fn rank(x: Seq<u8>, m: int, chunked: bool) -> (int, int, int) {
    if m >= x.len() {
        (0, m, -1)
    } else {
        let class: int = if m > 0 && is_digit(x[m - 1]) {
            0
        } else if chunked && m > 0 {
            if is_digit(x[m]) {
                1
            } else {
                2
            }
        } else if x[m] < 0x30 {
            1
        } else if is_digit(x[m]) {
            2
        } else {
            3
        };
        (class, run_end(x, m, true), x[m] as int)
    }
}

/// The order of ranks: by class, then by the end of the digit run, then by
/// the byte.
pub open spec fn rank_lt(r: (int, int, int), s: (int, int, int)) -> bool {
    r.0 < s.0 || (r.0 == s.0 && (r.1 < s.1 || (r.1 == s.1 && r.2 < s.2)))
}

/// Whether `x` comes before `y` by rank: by their ranks at the first
/// position where they differ.
pub open spec fn ranks_before(x: Seq<u8>, y: Seq<u8>, chunked: bool) -> bool {
    rank_lt(rank(x, first_mismatch(x, y), chunked), rank(y, first_mismatch(x, y), chunked))
}

/// The single-pass order of two sequences is the order of their ranks.
pub proof fn lemma_natural_order_is_rank_order(x: Seq<u8>, y: Seq<u8>)
    ensures
        natural_order(x, y) == Ordering::Less <==> ranks_before(x, y, false),
        natural_order(x, y) == Ordering::Greater <==> ranks_before(y, x, false),
{
    let p = first_mismatch(x, y);
    lemma_first_mismatch(x, y);
    lemma_mismatch_symmetric(x, y);
    lemma_run_end(x, p, true);
    lemma_run_end(y, p, true);
}

/// Before the position where two sequences first differ their ranks are in
/// the order of the sequences, or equal.
pub proof fn lemma_rank_before_mismatch(x: Seq<u8>, y: Seq<u8>, m: int, chunked: bool)
    requires
        ranks_before(x, y, chunked),
        0 <= m < first_mismatch(x, y),
    ensures
        !rank_lt(rank(y, m, chunked), rank(x, m, chunked)),
{
    let p = first_mismatch(x, y);
    lemma_first_mismatch(x, y);
    // at `m` both hold the same byte behind the same byte: only the ends of
    // their digit runs can tell the ranks apart
    let ex = run_end(x, m, true);
    let ey = run_end(y, m, true);
    lemma_run_end(x, m, true);
    lemma_run_end(y, m, true);
    if ey < ex {
        // then the sequences differ within the run of `y`, where the longer
        // run of `x` would put `x` behind `y`
        assert(p <= ey);
        lemma_run_end_inside(x, m, p, true);
        lemma_run_end_inside(y, m, p, true);
    }
}

/// Ranks in strict order at or before the position where two sequences
/// first differ put the sequences in that order.
pub proof fn lemma_rank_decides(x: Seq<u8>, y: Seq<u8>, m: int, chunked: bool)
    requires
        0 <= m <= first_mismatch(x, y),
        rank_lt(rank(x, m, chunked), rank(y, m, chunked)),
    ensures
        ranks_before(x, y, chunked),
{
    let p = first_mismatch(x, y);
    lemma_first_mismatch(x, y);
    if m < p {
        // at `m` both hold the same byte: the digit run of `x` from there is
        // the shorter one, and the sequences differ before it ends
        let ex = run_end(x, m, true);
        let ey = run_end(y, m, true);
        lemma_run_end(x, m, true);
        lemma_run_end(y, m, true);
        assert(ex < ey);
        assert(p <= ex);
        lemma_run_end_inside(x, m, p, true);
        lemma_run_end_inside(y, m, p, true);
    }
}

/// The order by rank is transitive.
pub proof fn lemma_ranks_before_transitive(a: Seq<u8>, b: Seq<u8>, c: Seq<u8>, chunked: bool)
    requires
        ranks_before(a, b, chunked),
        ranks_before(b, c, chunked),
    ensures
        ranks_before(a, c, chunked),
{
    let i = first_mismatch(a, b);
    let j = first_mismatch(b, c);
    let m = if i <= j {
        i
    } else {
        j
    };
    lemma_first_mismatch(a, b);
    lemma_first_mismatch(b, c);
    lemma_mismatch_after_agreement(a, c, m);
    if m < i {
        lemma_rank_before_mismatch(a, b, m, chunked);
    }
    if m < j {
        lemma_rank_before_mismatch(b, c, m, chunked);
    }
    lemma_rank_decides(a, c, m, chunked);
}

} // verus!
