//! Classification of bytes and the positions that a comparison looks at:
//! where two texts first differ, and where a run of like bytes ends.

use vstd::prelude::*;

verus! {

/// Whether `b` is an ASCII decimal digit, `'0'` to `'9'`. Every other byte,
/// those outside ASCII included, is plain text.
pub open spec fn is_digit(b: u8) -> bool {
    0x30 <= b <= 0x39
}

/// Tests a byte for being an ASCII decimal digit.
pub fn is_digit_byte(b: u8) -> (r: bool)
    ensures
        r == is_digit(b),
{
    0x30 <= b && b <= 0x39
}

/// A position of an executable scan as a mathematical index.
pub open spec fn pos(i: usize) -> int {
    i as int
}

/// `a` and `b` hold the same byte at every position of `from..to`.
pub open spec fn agree(a: Seq<u8>, b: Seq<u8>, from: int, to: int) -> bool {
    forall|k: int| from <= k < to ==> a[k] == b[k]
}

/// Every byte of `s` at `from..to` is a digit (`digits`) or none is (`!digits`).
pub open spec fn uniform(s: Seq<u8>, from: int, to: int, digits: bool) -> bool {
    forall|k: int| from <= k < to ==> is_digit(#[trigger] s[k]) == digits
}

/// The first position at or after `from` at which `a` and `b` hold different
/// bytes, or at which the shorter of the two ends.
pub open spec fn mismatch_from(a: Seq<u8>, b: Seq<u8>, from: int) -> int
    decreases a.len() - from,
{
    if 0 <= from < a.len() && from < b.len() && a[from] == b[from] {
        mismatch_from(a, b, from + 1)
    } else {
        from
    }
}

/// The length of the longest common prefix of `a` and `b`.
pub open spec fn first_mismatch(a: Seq<u8>, b: Seq<u8>) -> int {
    mismatch_from(a, b, 0)
}

/// The end of the longest run of bytes of one class (`digits`) that starts at
/// `from`; `from` itself where the byte there is of the other class or `s`
/// has ended.
pub open spec fn run_end(s: Seq<u8>, from: int, digits: bool) -> int
    decreases s.len() - from,
{
    if 0 <= from < s.len() && is_digit(s[from]) == digits {
        run_end(s, from + 1, digits)
    } else {
        from
    }
}

/// The length of the first chunk of `s`: its longest prefix whose bytes are
/// all digits or all text. Zero only for the empty sequence.
pub open spec fn leading_run(s: Seq<u8>) -> int {
    if s.len() == 0 {
        0
    } else {
        run_end(s, 1, is_digit(s[0]))
    }
}

/// What `mismatch_from` finds: a position within both sequences, up to which
/// they agree and at which they do not.
pub proof fn lemma_mismatch_from(a: Seq<u8>, b: Seq<u8>, from: int)
    requires
        0 <= from <= a.len(),
        from <= b.len(),
    ensures
        from <= mismatch_from(a, b, from) <= a.len(),
        mismatch_from(a, b, from) <= b.len(),
        agree(a, b, from, mismatch_from(a, b, from)),
        mismatch_from(a, b, from) < a.len() && mismatch_from(a, b, from) < b.len() ==> a[mismatch_from(
            a,
            b,
            from,
        )] != b[mismatch_from(a, b, from)],
    decreases a.len() - from,
{
    if from < a.len() && from < b.len() && a[from] == b[from] {
        lemma_mismatch_from(a, b, from + 1);
    }
}

/// `mismatch_from` is the only position of that description.
pub proof fn lemma_mismatch_is(a: Seq<u8>, b: Seq<u8>, from: int, at: int)
    requires
        0 <= from <= at <= a.len(),
        at <= b.len(),
        agree(a, b, from, at),
        at == a.len() || at == b.len() || a[at] != b[at],
    ensures
        mismatch_from(a, b, from) == at,
    decreases at - from,
{
    if from < at {
        lemma_mismatch_is(a, b, from + 1, at);
    }
}

/// What `first_mismatch` finds.
pub proof fn lemma_first_mismatch(a: Seq<u8>, b: Seq<u8>)
    ensures
        0 <= first_mismatch(a, b) <= a.len(),
        first_mismatch(a, b) <= b.len(),
        agree(a, b, 0, first_mismatch(a, b)),
        first_mismatch(a, b) < a.len() && first_mismatch(a, b) < b.len() ==> a[first_mismatch(
            a,
            b,
        )] != b[first_mismatch(a, b)],
{
    lemma_mismatch_from(a, b, 0);
}

/// A sequence differs from itself nowhere.
pub proof fn lemma_mismatch_self(a: Seq<u8>)
    ensures
        first_mismatch(a, a) == a.len(),
{
    lemma_mismatch_is(a, a, 0, a.len() as int);
}

/// Two sequences first differ at one position, whichever is taken first.
pub proof fn lemma_mismatch_symmetric(a: Seq<u8>, b: Seq<u8>)
    ensures
        first_mismatch(a, b) == first_mismatch(b, a),
{
    lemma_first_mismatch(a, b);
    lemma_mismatch_is(b, a, 0, first_mismatch(a, b));
}

/// Sequences that first differ at their common end are one sequence.
pub proof fn lemma_mismatch_at_end(a: Seq<u8>, b: Seq<u8>)
    requires
        first_mismatch(a, b) == a.len(),
        a.len() == b.len(),
    ensures
        a == b,
{
    lemma_first_mismatch(a, b);
}

/// Sequences that agree on their first `m` bytes first differ at `m` or
/// later.
pub proof fn lemma_mismatch_after_agreement(x: Seq<u8>, y: Seq<u8>, m: int)
    requires
        0 <= m <= x.len(),
        m <= y.len(),
        agree(x, y, 0, m),
    ensures
        m <= first_mismatch(x, y),
{
    lemma_first_mismatch(x, y);
}

/// Prefixes of two sequences first differ where the sequences do, or where
/// the shorter prefix ends.
pub proof fn lemma_mismatch_take(a: Seq<u8>, b: Seq<u8>, na: int, nb: int)
    requires
        0 <= na <= a.len(),
        0 <= nb <= b.len(),
    ensures
        first_mismatch(a.take(na), b.take(nb)) == vstd::math::min(
            first_mismatch(a, b),
            vstd::math::min(na, nb),
        ),
{
    lemma_first_mismatch(a, b);
    let at = vstd::math::min(first_mismatch(a, b), vstd::math::min(na, nb));
    lemma_mismatch_is(a.take(na), b.take(nb), 0, at);
}

/// Without a prefix on which both agree, two sequences first differ that
/// much earlier.
pub proof fn lemma_mismatch_skip(a: Seq<u8>, b: Seq<u8>, n: int)
    requires
        0 <= n <= first_mismatch(a, b),
    ensures
        first_mismatch(a.skip(n), b.skip(n)) == first_mismatch(a, b) - n,
{
    lemma_first_mismatch(a, b);
    lemma_mismatch_is(a.skip(n), b.skip(n), 0, first_mismatch(a, b) - n);
}

/// What `run_end` finds: the run `from..run_end` is of one class and cannot
/// be made longer.
pub proof fn lemma_run_end(s: Seq<u8>, from: int, digits: bool)
    requires
        0 <= from <= s.len(),
    ensures
        from <= run_end(s, from, digits) <= s.len(),
        uniform(s, from, run_end(s, from, digits), digits),
        run_end(s, from, digits) < s.len() ==> is_digit(s[run_end(s, from, digits)]) != digits,
    decreases s.len() - from,
{
    if from < s.len() && is_digit(s[from]) == digits {
        lemma_run_end(s, from + 1, digits);
    }
}

/// `run_end` is the only position of that description.
pub proof fn lemma_run_end_is(s: Seq<u8>, from: int, digits: bool, end: int)
    requires
        0 <= from <= end <= s.len(),
        uniform(s, from, end, digits),
        end == s.len() || is_digit(s[end]) != digits,
    ensures
        run_end(s, from, digits) == end,
    decreases end - from,
{
    if from < end {
        lemma_run_end_is(s, from + 1, digits, end);
    }
}

/// A run ends at one place from wherever within it one looks.
pub proof fn lemma_run_end_inside(s: Seq<u8>, from: int, mid: int, digits: bool)
    requires
        0 <= from <= mid <= s.len(),
        uniform(s, from, mid, digits),
    ensures
        run_end(s, from, digits) == run_end(s, mid, digits),
{
    lemma_run_end(s, mid, digits);
    lemma_run_end_is(s, from, digits, run_end(s, mid, digits));
}

/// Without its first `n` bytes, a run in a sequence ends that much earlier.
pub proof fn lemma_run_end_skip(s: Seq<u8>, n: int, from: int, digits: bool)
    requires
        0 <= n <= from <= s.len(),
    ensures
        run_end(s.skip(n), from - n, digits) == run_end(s, from, digits) - n,
{
    lemma_run_end(s, from, digits);
    lemma_run_end_is(s.skip(n), from - n, digits, run_end(s, from, digits) - n);
}

/// A run of digits that reaches `at` and has a digit there ends after it.
pub proof fn lemma_run_longer(s: Seq<u8>, from: int, at: int)
    requires
        0 <= from <= at < s.len(),
        uniform(s, from, at + 1, true),
    ensures
        at < run_end(s, from, true) <= s.len(),
    decreases at - from,
{
    if from < at {
        lemma_run_longer(s, from + 1, at);
    } else {
        lemma_run_end(s, from + 1, true);
    }
}

/// The first chunk of a sequence that is not empty is not empty, is of the
/// class of the first byte, and ends where the class changes.
pub proof fn lemma_leading_run(s: Seq<u8>)
    requires
        s.len() > 0,
    ensures
        0 < leading_run(s) <= s.len(),
        uniform(s, 0, leading_run(s), is_digit(s[0])),
        leading_run(s) < s.len() ==> is_digit(s[leading_run(s)]) != is_digit(s[0]),
        leading_run(s) == run_end(s, 0, is_digit(s[0])),
{
    lemma_run_end(s, 1, is_digit(s[0]));
}

} // verus!
