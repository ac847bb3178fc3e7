//! The two orders on byte sequences that the comparators compute.

use std::cmp::Ordering;
use vstd::prelude::*;
use crate::scan::{first_mismatch, is_digit, leading_run, lemma_leading_run, run_end};

verus! {

/// The order of two bytes by value.
pub open spec fn byte_order(x: u8, y: u8) -> Ordering {
    if x < y {
        Ordering::Less
    } else if x > y {
        Ordering::Greater
    } else {
        Ordering::Equal
    }
}

/// The order of two sequences by length alone: the longer one is greater.
pub open spec fn len_order(a: Seq<u8>, b: Seq<u8>) -> Ordering {
    if a.len() < b.len() {
        Ordering::Less
    } else if a.len() > b.len() {
        Ordering::Greater
    } else {
        Ordering::Equal
    }
}

/// The same comparison seen from the other side.
pub open spec fn reversed(o: Ordering) -> Ordering {
    match o {
        Ordering::Less => Ordering::Greater,
        Ordering::Equal => Ordering::Equal,
        Ordering::Greater => Ordering::Less,
    }
}

/// Lexicographic order by byte value: the first differing byte decides, and
/// a proper prefix is less than the sequence it begins.
pub open spec fn lex_order(a: Seq<u8>, b: Seq<u8>) -> Ordering {
    let i = first_mismatch(a, b);
    if i >= a.len() || i >= b.len() {
        len_order(a, b)
    } else {
        byte_order(a[i], b[i])
    }
}

/// The chunk-by-chunk order. Both sequences are cut into chunks, maximal runs
/// of digits or of text, and compared chunk by chunk: two digit chunks of
/// different length by length, any other pair lexicographically. The first
/// pair that is not equal decides. Where one sequence runs out, the one with
/// bytes left is greater.
pub open spec fn chunked_order(a: Seq<u8>, b: Seq<u8>) -> Ordering
    decreases a.len(),
{
    if a.len() == 0 || b.len() == 0 {
        len_order(a, b)
    } else {
        let na = leading_run(a);
        let nb = leading_run(b);
        if is_digit(a[0]) && is_digit(b[0]) && na != nb {
            if na < nb {
                Ordering::Less
            } else {
                Ordering::Greater
            }
        } else if lex_order(a.take(na), b.take(nb)) != Ordering::Equal {
            lex_order(a.take(na), b.take(nb))
        } else {
            proof {
                lemma_leading_run(a);
            }
            chunked_order(a.skip(na), b.skip(nb))
        }
    }
}

/// The single-pass order. The sequences are compared at the first position
/// `i` at which they differ:
/// - there is none within the shorter one: the longer sequence is greater;
/// - both bytes are digits: the sequence whose digit run from `i` on is
///   longer is greater, and with runs of one length the bytes at `i` decide;
/// - one byte is a digit that continues a digit run which has just ended in
///   the other sequence: the sequence with the longer run is greater;
/// - otherwise the bytes at `i` decide.
pub open spec fn natural_order(a: Seq<u8>, b: Seq<u8>) -> Ordering {
    let i = first_mismatch(a, b);
    if i >= a.len() || i >= b.len() {
        len_order(a, b)
    } else if is_digit(a[i]) && is_digit(b[i]) {
        let ea = run_end(a, i, true);
        let eb = run_end(b, i, true);
        if ea < eb {
            Ordering::Less
        } else if ea > eb {
            Ordering::Greater
        } else {
            byte_order(a[i], b[i])
        }
    } else if i > 0 && is_digit(b[i]) && is_digit(b[i - 1]) {
        Ordering::Less
    } else if i > 0 && is_digit(a[i]) && is_digit(a[i - 1]) {
        Ordering::Greater
    } else {
        byte_order(a[i], b[i])
    }
}

} // verus!
