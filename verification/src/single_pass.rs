//! The single-pass comparator.

use std::cmp::Ordering;
use vstd::prelude::*;
use vstd::string::*;
use crate::laws::{digit_meets_low_byte, lemma_orders_agree};
use crate::order::{byte_order, chunked_order, natural_order};
use crate::scan::{
    agree, first_mismatch, is_digit_byte, lemma_mismatch_is, lemma_run_end_is, lemma_run_longer,
    pos, uniform,
};

verus! {

/// Compares two texts in natural order with one forward scan and without
/// allocating: the texts are walked together up to their first difference,
/// and, where that difference lies between two digits, on to the end of the
/// shorter digit run.
///
/// The result is that of `natural_cmp_old` unless a digit meets a byte below
/// `'0'` right after text that both share (see `laws`).
pub fn natural_cmp(left: &str, right: &str) -> (res: Ordering)
    ensures
        res == natural_order(left.spec_bytes(), right.spec_bytes()),
        !digit_meets_low_byte(left.spec_bytes(), right.spec_bytes()) ==> res == chunked_order(
            left.spec_bytes(),
            right.spec_bytes(),
        ),
{
    let lhs = left.as_bytes();
    let rhs = right.as_bytes();
    proof {
        lemma_orders_agree(lhs@, rhs@);
    }
    let l: usize = if lhs.len() <= rhs.len() {
        lhs.len()
    } else {
        rhs.len()
    };

    // skip the equal bytes
    let mut i: usize = 0;
    while i < l && lhs[i] == rhs[i]
        invariant
            i <= l,
            l <= lhs@.len(),
            l <= rhs@.len(),
            agree(lhs@, rhs@, 0, pos(i)),
        decreases l - i,
    {
        i += 1;
    }
    proof {
        lemma_mismatch_is(lhs@, rhs@, 0, pos(i));
    }
    if i == l {
        // one text begins the other: the longer one wins
        return if lhs.len() < rhs.len() {
            Ordering::Less
        } else if lhs.len() > rhs.len() {
            Ordering::Greater
        } else {
            Ordering::Equal
        };
    }
    let lc = lhs[i];
    let rc = rhs[i];
    let res = if lc < rc {
        Ordering::Less
    } else {
        Ordering::Greater
    };

    let l_digit = is_digit_byte(lc);
    let r_digit = is_digit_byte(rc);
    if !l_digit || !r_digit {
        // a digit run that both texts shared may go on in one of them
        if 0 < i {
            if r_digit {
                if is_digit_byte(rhs[i - 1]) {
                    return Ordering::Less;
                }
            } else if l_digit && is_digit_byte(lhs[i - 1]) {
                return Ordering::Greater;
            }
        }
        return res;
    }
    // two different digits: `res` stands if both digit runs end together,
    // else the longer run wins

    let mut j: usize = i + 1;
    while j < l
        invariant
            i < j <= l,
            l <= lhs@.len(),
            l <= rhs@.len(),
            lhs@ == left.spec_bytes(),
            rhs@ == right.spec_bytes(),
            first_mismatch(lhs@, rhs@) == i,
            !digit_meets_low_byte(lhs@, rhs@) ==> natural_order(lhs@, rhs@) == chunked_order(
                lhs@,
                rhs@,
            ),
            res == byte_order(lhs@[pos(i)], rhs@[pos(i)]),
            uniform(lhs@, pos(i), pos(j), true),
            uniform(rhs@, pos(i), pos(j), true),
        decreases l - j,
    {
        let l_digit = is_digit_byte(lhs[j]);
        let r_digit = is_digit_byte(rhs[j]);
        if !l_digit || !r_digit {
            proof {
                if !l_digit {
                    lemma_run_end_is(lhs@, pos(i), true, pos(j));
                }
                if !r_digit {
                    lemma_run_end_is(rhs@, pos(i), true, pos(j));
                }
                if l_digit {
                    lemma_run_longer(lhs@, pos(i), pos(j));
                }
                if r_digit {
                    lemma_run_longer(rhs@, pos(i), pos(j));
                }
            }
            if !l_digit && !r_digit {
                return res;
            } else if !l_digit {
                return Ordering::Less;
            } else {
                return Ordering::Greater;
            }
        }
        j += 1;
    }

    // the shorter text has ended inside its digit run
    if lhs.len() != l {
        proof {
            lemma_run_end_is(rhs@, pos(i), true, pos(l));
        }
        if is_digit_byte(lhs[l]) {
            proof {
                lemma_run_longer(lhs@, pos(i), pos(l));
            }
            return Ordering::Greater;
        }
        proof {
            lemma_run_end_is(lhs@, pos(i), true, pos(l));
        }
    } else {
        proof {
            lemma_run_end_is(lhs@, pos(i), true, pos(l));
        }
        if rhs.len() != l {
            if is_digit_byte(rhs[l]) {
                proof {
                    lemma_run_longer(rhs@, pos(i), pos(l));
                }
                return Ordering::Less;
            }
        }
        proof {
            lemma_run_end_is(rhs@, pos(i), true, pos(l));
        }
    }
    res
}

} // verus!
