//! Chunks: the runs of digits and of text that a text is cut into.

use vstd::prelude::*;
use vstd::string::*;
use vstd::utf8::*;
use crate::scan::{is_digit, is_digit_byte, leading_run, lemma_run_end_is, pos, uniform};

verus! {

/// A run of bytes of a text, borrowed from it, with the class of the run.
#[derive(PartialEq, Eq, Debug)]
pub struct Chunk<'a> {
    /// The text of the run.
    pub chars: &'a str,
    /// Whether the run is made of ASCII decimal digits.
    pub are_digits: bool,
}

impl<'a> View for Chunk<'a> {
    type V = Seq<u8>;

    /// The bytes that the chunk covers.
    open spec fn view(&self) -> Seq<u8> {
        self.chars.spec_bytes()
    }
}

impl<'a> Chunk<'a> {
    /// Whether the chunk is a run: its bytes are all digits where it is
    /// flagged so and all text where it is not, and an empty chunk counts
    /// as text.
    pub open spec fn is_run(&self) -> bool {
        &&& uniform(self@, 0, self@.len() as int, self.are_digits)
        &&& self@.len() == 0 ==> !self.are_digits
    }

    /// Whether the chunk is the first chunk of `text`: a run at its start
    /// that ends where the text ends or the class of its bytes changes, and
    /// that is empty only if the text is.
    pub open spec fn leads(&self, text: Seq<u8>) -> bool {
        &&& self.is_run()
        &&& self@.len() <= text.len()
        &&& self@ == text.take(self@.len() as int)
        &&& self@.len() == 0 ==> text.len() == 0
        &&& self@.len() < text.len() ==> is_digit(text[self@.len() as int]) != self.are_digits
    }

    /// Puts a chunk together from its bytes and its class.
    pub fn new(chars: &'a str, are_digits: bool) -> (c: Self)
        ensures
            c.chars == chars,
            c.are_digits == are_digits,
    {
        Chunk { chars, are_digits }
    }
}

/// In well-formed UTF-8 a position next to an ASCII byte, before or after
/// it, lies between two characters.
pub proof fn lemma_boundary_beside_ascii(bytes: Seq<u8>, i: int)
    requires
        valid_utf8(bytes),
        0 < i < bytes.len(),
        bytes[i - 1] < 0x80 || bytes[i] < 0x80,
    ensures
        is_char_boundary(bytes, i),
{
    if bytes[i] < 0x80 {
        is_char_boundary_iff_not_is_continuation_byte(bytes, i);
    } else {
        // a character starts at the ASCII byte before `i` and is that byte
        // alone, so that the next one starts at `i`
        is_char_boundary_iff_not_is_continuation_byte(bytes, i - 1);
        valid_utf8_split(bytes, i - 1);
        let tail = bytes.subrange(i - 1, bytes.len() as int);
        assert(valid_utf8(pop_first_scalar(tail)));
        is_char_boundary_iff_is_leading_byte(bytes, i);
    }
}

/// Cuts the first chunk off `a`: its longest prefix made of digits only or
/// of text only. The chunk of an empty text is empty and counts as text.
pub fn natural_chunk(a: &str) -> (c: Chunk<'_>)
    ensures
        c@ == a.spec_bytes().take(leading_run(a.spec_bytes())),
        c.are_digits == (a.spec_bytes().len() > 0 && is_digit(a.spec_bytes()[0])),
        c.leads(a.spec_bytes()),
        is_char_boundary(a.spec_bytes(), c@.len() as int),
{
    let bytes = a.as_bytes();
    proof {
        encode_utf8_valid_utf8(a@);
        is_char_boundary_start_end_of_seq(bytes@);
    }
    if bytes.len() == 0 {
        return Chunk::new(a, false);
    }
    let digits = is_digit_byte(bytes[0]);
    let mut i: usize = 1;
    while i < bytes.len()
        invariant
            0 < i <= bytes@.len(),
            bytes@ == a.spec_bytes(),
            valid_utf8(bytes@),
            digits == is_digit(bytes@[0]),
            uniform(bytes@, 0, pos(i), digits),
        decreases bytes@.len() - i,
    {
        if is_digit_byte(bytes[i]) != digits {
            proof {
                lemma_run_end_is(bytes@, 1, digits, pos(i));
                lemma_boundary_beside_ascii(bytes@, pos(i));
            }
            let (head, _) = a.split_at(i);
            return Chunk::new(head, digits);
        }
        i += 1;
    }
    proof {
        lemma_run_end_is(bytes@, 1, digits, pos(i));
    }
    Chunk::new(a, digits)
}

} // verus!
