//! The chunk-by-chunk comparator.

use std::cmp::Ordering;
use vstd::prelude::*;
use vstd::string::*;
use crate::chunk::natural_chunk;
use crate::laws::{digit_meets_low_byte, lemma_orders_agree};
use crate::order::{chunked_order, lex_order, natural_order};
use crate::scan::{agree, lemma_leading_run, lemma_mismatch_is, pos};

verus! {

/// Compares two byte strings lexicographically, byte by byte.
pub fn compare_bytes(a: &[u8], b: &[u8]) -> (res: Ordering)
    ensures
        res == lex_order(a@, b@),
{
    let mut i: usize = 0;
    while i < a.len() && i < b.len() && a[i] == b[i]
        invariant
            i <= a@.len(),
            i <= b@.len(),
            agree(a@, b@, 0, pos(i)),
        decreases a@.len() - i,
    {
        i += 1;
    }
    proof {
        lemma_mismatch_is(a@, b@, 0, pos(i));
    }
    if i < a.len() && i < b.len() {
        if a[i] < b[i] {
            Ordering::Less
        } else {
            Ordering::Greater
        }
    } else if a.len() < b.len() {
        Ordering::Less
    } else if a.len() > b.len() {
        Ordering::Greater
    } else {
        Ordering::Equal
    }
}

/// A text has no characters exactly when it has no bytes.
proof fn lemma_empty_text(s: &str)
    ensures
        s@.len() == 0 <==> s.spec_bytes().len() == 0,
{
}

/// Compares two texts in natural order chunk by chunk: the first chunks of
/// both are cut off and compared, two digit chunks by length first, until a
/// pair differs or a text runs out.
///
/// The result is that of `natural_cmp` unless a digit meets a byte below
/// `'0'` right after text that both share (see `laws`).
pub fn natural_cmp_old(a: &str, b: &str) -> (res: Ordering)
    ensures
        res == chunked_order(a.spec_bytes(), b.spec_bytes()),
        !digit_meets_low_byte(a.spec_bytes(), b.spec_bytes()) ==> res == natural_order(
            a.spec_bytes(),
            b.spec_bytes(),
        ),
{
    let mut rest_a = a;
    let mut rest_b = b;
    proof {
        lemma_orders_agree(a.spec_bytes(), b.spec_bytes());
        lemma_empty_text(rest_a);
        lemma_empty_text(rest_b);
    }
    while !rest_a.is_empty() && !rest_b.is_empty()
        invariant
            chunked_order(rest_a.spec_bytes(), rest_b.spec_bytes()) == chunked_order(
                a.spec_bytes(),
                b.spec_bytes(),
            ),
            !digit_meets_low_byte(a.spec_bytes(), b.spec_bytes()) ==> chunked_order(
                a.spec_bytes(),
                b.spec_bytes(),
            ) == natural_order(a.spec_bytes(), b.spec_bytes()),
            rest_a@.len() == 0 <==> rest_a.spec_bytes().len() == 0,
            rest_b@.len() == 0 <==> rest_b.spec_bytes().len() == 0,
        decreases rest_a.spec_bytes().len(),
    {
        let chunk_a = natural_chunk(rest_a);
        let chunk_b = natural_chunk(rest_b);
        let head_a = chunk_a.chars.as_bytes();
        let head_b = chunk_b.chars.as_bytes();
        proof {
            lemma_leading_run(rest_a.spec_bytes());
            lemma_leading_run(rest_b.spec_bytes());
        }

        if chunk_a.are_digits && chunk_b.are_digits {
            if head_a.len() < head_b.len() {
                return Ordering::Less;
            } else if head_a.len() > head_b.len() {
                return Ordering::Greater;
            }
        }
        match compare_bytes(head_a, head_b) {
            Ordering::Equal => (),
            v => {
                return v;
            },
        }

        let (_, tail_a) = rest_a.split_at(head_a.len());
        let (_, tail_b) = rest_b.split_at(head_b.len());
        rest_a = tail_a;
        rest_b = tail_b;
        proof {
            lemma_empty_text(rest_a);
            lemma_empty_text(rest_b);
        }
    }

    let left_a = rest_a.as_bytes();
    let left_b = rest_b.as_bytes();
    if left_a.len() < left_b.len() {
        Ordering::Less
    } else if left_a.len() > left_b.len() {
        Ordering::Greater
    } else {
        Ordering::Equal
    }
}

} // verus!
