//! What holds of the two orders, and how they relate.

use std::cmp::Ordering;
use vstd::prelude::*;
use crate::order::{chunked_order, natural_order, reversed};
use crate::rank::{
    lemma_natural_order_is_rank_order, lemma_ranks_before_transitive, ranks_before,
};
use crate::scan::{
    first_mismatch, is_digit, leading_run, lemma_first_mismatch, lemma_leading_run,
    lemma_mismatch_at_end, lemma_mismatch_self, lemma_mismatch_skip, lemma_mismatch_symmetric,
    lemma_mismatch_take, lemma_run_end, lemma_run_end_inside, lemma_run_end_skip,
};

verus! {

/// Whether a digit meets a byte below `'0'` right after shared text: `a` and
/// `b` first differ behind a byte that is no digit, one of them with a
/// digit, the other with a byte of lesser value than any digit (a space,
/// most punctuation, a control byte).
pub open spec fn digit_meets_low_byte(a: Seq<u8>, b: Seq<u8>) -> bool {
    let i = first_mismatch(a, b);
    &&& 0 < i < a.len()
    &&& i < b.len()
    &&& !is_digit(a[i - 1])
    &&& (is_digit(a[i]) && b[i] < 0x30) || (is_digit(b[i]) && a[i] < 0x30)
}

/// Every sequence is equal to itself in the single-pass order.
pub proof fn lemma_natural_order_reflexive(a: Seq<u8>)
    ensures
        natural_order(a, a) == Ordering::Equal,
{
    lemma_mismatch_self(a);
}

/// Only a sequence itself is equal to it in the single-pass order.
pub proof fn lemma_natural_order_equal(a: Seq<u8>, b: Seq<u8>)
    ensures
        natural_order(a, b) == Ordering::Equal <==> a == b,
{
    lemma_first_mismatch(a, b);
    if a == b {
        lemma_mismatch_self(a);
    } else if natural_order(a, b) == Ordering::Equal {
        lemma_mismatch_at_end(a, b);
    }
}

/// Swapping the arguments of the single-pass order reverses the result.
pub proof fn lemma_natural_order_antisymmetric(a: Seq<u8>, b: Seq<u8>)
    ensures
        natural_order(a, b) == reversed(natural_order(b, a)),
{
    lemma_mismatch_symmetric(a, b);
    lemma_first_mismatch(a, b);
}

/// The single-pass order is transitive: from `a` before `b` and `b` before
/// `c` follows `a` before `c`, and likewise where one of the two is an
/// equality.
pub proof fn lemma_natural_order_transitive(a: Seq<u8>, b: Seq<u8>, c: Seq<u8>)
    requires
        natural_order(a, b) != Ordering::Greater,
        natural_order(b, c) != Ordering::Greater,
    ensures
        natural_order(a, c) != Ordering::Greater,
        natural_order(a, b) == Ordering::Less || natural_order(b, c) == Ordering::Less
            ==> natural_order(a, c) == Ordering::Less,
{
    lemma_natural_order_equal(a, b);
    lemma_natural_order_equal(b, c);
    if a != b && b != c {
        lemma_natural_order_is_rank_order(a, b);
        lemma_natural_order_is_rank_order(b, c);
        lemma_natural_order_is_rank_order(a, c);
        lemma_ranks_before_transitive(a, b, c, false);
    }
}

/// Cutting one chunk that both sequences begin with off both changes
/// neither what the single-pass order gives nor whether a digit meets a low
/// byte.
proof fn lemma_skip_shared_chunk(a: Seq<u8>, b: Seq<u8>, n: int)
    requires
        a.len() > 0,
        b.len() > 0,
        n == leading_run(a),
        n == leading_run(b),
        n <= first_mismatch(a, b),
    ensures
        natural_order(a.skip(n), b.skip(n)) == natural_order(a, b),
        digit_meets_low_byte(a.skip(n), b.skip(n)) == digit_meets_low_byte(a, b),
{
    let i = first_mismatch(a, b);
    lemma_first_mismatch(a, b);
    lemma_leading_run(a);
    lemma_leading_run(b);
    lemma_mismatch_skip(a, b, n);
    if i < a.len() && i < b.len() {
        lemma_run_end_skip(a, n, i, true);
        lemma_run_end_skip(b, n, i, true);
    }
}

/// The two orders agree on a pair of sequences exactly when no digit meets
/// a low byte in it. Where one does, the single-pass order goes by the two
/// bytes and puts the digit last, while the chunk-by-chunk order puts the
/// sequence first whose text chunk ends there.
pub proof fn lemma_orders_agree(a: Seq<u8>, b: Seq<u8>)
    ensures
        natural_order(a, b) == chunked_order(a, b) <==> !digit_meets_low_byte(a, b),
        digit_meets_low_byte(a, b) ==> chunked_order(a, b) == reversed(natural_order(a, b)),
    decreases a.len(),
{
    let i = first_mismatch(a, b);
    lemma_first_mismatch(a, b);
    if a.len() > 0 && b.len() > 0 {
        let na = leading_run(a);
        let nb = leading_run(b);
        lemma_leading_run(a);
        lemma_leading_run(b);
        lemma_mismatch_take(a, b, na, nb);
        if i >= na && i >= nb {
            // both first chunks lie in the shared prefix, so they are one
            // chunk, and the orders go on behind it
            assert(na == nb);
            lemma_skip_shared_chunk(a, b, na);
            lemma_orders_agree(a.skip(na), b.skip(nb));
        } else {
            // the first chunks differ, and both orders decide here
            if i > 0 {
                assert(i <= na && i <= nb);
                lemma_run_end_inside(a, 0, i, is_digit(a[0]));
                lemma_run_end_inside(b, 0, i, is_digit(b[0]));
            }
            lemma_run_end(a, i, true);
            lemma_run_end(b, i, true);
        }
    }
}

/// Every sequence is equal to itself in the chunk-by-chunk order, and only
/// itself.
pub proof fn lemma_chunked_order_equal(a: Seq<u8>, b: Seq<u8>)
    ensures
        chunked_order(a, b) == Ordering::Equal <==> a == b,
{
    lemma_orders_agree(a, b);
    lemma_natural_order_equal(a, b);
}

/// Swapping the arguments of the chunk-by-chunk order reverses the result.
pub proof fn lemma_chunked_order_antisymmetric(a: Seq<u8>, b: Seq<u8>)
    ensures
        chunked_order(a, b) == reversed(chunked_order(b, a)),
{
    lemma_orders_agree(a, b);
    lemma_orders_agree(b, a);
    lemma_natural_order_antisymmetric(a, b);
    lemma_mismatch_symmetric(a, b);
    lemma_first_mismatch(a, b);
}

/// The chunk-by-chunk order of two sequences is the order of their ranks.
pub proof fn lemma_chunked_order_is_rank_order(x: Seq<u8>, y: Seq<u8>)
    ensures
        chunked_order(x, y) == Ordering::Less <==> ranks_before(x, y, true),
        chunked_order(x, y) == Ordering::Greater <==> ranks_before(y, x, true),
{
    let p = first_mismatch(x, y);
    lemma_orders_agree(x, y);
    lemma_natural_order_is_rank_order(x, y);
    lemma_first_mismatch(x, y);
    lemma_mismatch_symmetric(x, y);
    lemma_run_end(x, p, true);
    lemma_run_end(y, p, true);
}

/// The chunk-by-chunk order is transitive.
pub proof fn lemma_chunked_order_transitive(a: Seq<u8>, b: Seq<u8>, c: Seq<u8>)
    requires
        chunked_order(a, b) != Ordering::Greater,
        chunked_order(b, c) != Ordering::Greater,
    ensures
        chunked_order(a, c) != Ordering::Greater,
        chunked_order(a, b) == Ordering::Less || chunked_order(b, c) == Ordering::Less
            ==> chunked_order(a, c) == Ordering::Less,
{
    lemma_chunked_order_equal(a, b);
    lemma_chunked_order_equal(b, c);
    if a != b && b != c {
        lemma_chunked_order_is_rank_order(a, b);
        lemma_chunked_order_is_rank_order(b, c);
        lemma_chunked_order_is_rank_order(a, c);
        lemma_ranks_before_transitive(a, b, c, true);
    }
}

/// On sequences with no byte below `'0'`, letters and digits for one, the
/// two orders are one.
pub proof fn lemma_orders_agree_without_low_bytes(a: Seq<u8>, b: Seq<u8>)
    requires
        forall|k: int| 0 <= k < a.len() ==> a[k] >= 0x30,
        forall|k: int| 0 <= k < b.len() ==> b[k] >= 0x30,
    ensures
        natural_order(a, b) == chunked_order(a, b),
{
    lemma_orders_agree(a, b);
}

} // verus!
