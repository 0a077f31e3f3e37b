//! One scalar value held as its UTF-8 bytes.
use crate::classify::width;
use crate::model::starts_with_scalar;
use crate::prefix::lemma_single_scalar;
use crate::ranges::lemma_scalar_ranges;
use crate::text::text_prefix;
use vstd::prelude::*;
use vstd::string::StringSliceAdditionalSpecFns;
use vstd::utf8::{decode_first_scalar, encode_scalar, encode_utf8, encode_utf8_decode_utf8};

verus! {

/// Like `char`, but represented in memory as UTF-8.
///
/// A value holds the encoding of one Unicode scalar value. There is no way
/// to make one from raw bytes: each comes out of
/// [`IncompleteSequence::complete`](crate::IncompleteSequence::complete),
/// which has checked every byte.
#[derive(Copy, Clone)]
pub struct StrChar {
    bytes: [u8; 4],
}

impl View for StrChar {
    type V = Seq<u8>;

    /// The bytes of the encoding: as many as the first of them announces.
    closed spec fn view(&self) -> Seq<u8> {
        self.bytes@.take(width(self.bytes[0]) as int)
    }
}

impl StrChar {
    #[verifier::type_invariant]
    spec fn well_formed(&self) -> bool {
        starts_with_scalar(self.bytes@)
    }

    /// Holds the scalar that the four bytes start with; the bytes behind it
    /// are not looked at.
    pub(crate) fn new(first: u8, second: u8, third: u8, fourth: u8) -> (ch: StrChar)
        requires
            starts_with_scalar(seq![first, second, third, fourth]),
        ensures
            ch@ == seq![first, second, third, fourth].take(width(first) as int),
    {
        let bytes: [u8; 4] = [first, second, third, fourth];
        assert(bytes@ =~= seq![first, second, third, fourth]);
        StrChar { bytes }
    }

    /// The scalar as text: one character, made of exactly the bytes held.
    pub fn as_str(&self) -> (text: &str)
        ensures
            text.spec_bytes() == self@,
            text@.len() == 1,
            text@[0] as u32 == decode_first_scalar(self@),
    {
        proof {
            use_type_invariant(self);
            lemma_scalar_ranges(self.bytes@);
            lemma_single_scalar(self.bytes@);
        }
        let text = text_prefix(self.bytes.as_slice(), width(self.bytes[0]) as usize);
        proof {
            encode_utf8_decode_utf8(text@);
        }
        text
    }

    /// The scalar as a `char`: the one whose UTF-8 encoding is held.
    pub fn to_char(&self) -> (c: char)
        ensures
            c as u32 == decode_first_scalar(self@),
            encode_scalar(c as u32) == self@,
    {
        let text = self.as_str();
        let c = text.chars().next().unwrap();
        proof {
            assert(text@ =~= seq![c]);
            reveal_with_fuel(encode_utf8, 2);
            assert(text@.drop_first() =~= Seq::<char>::empty());
            assert(encode_utf8(text@) =~= encode_scalar(c as u32));
        }
        c
    }
}

impl core::ops::Deref for StrChar {
    type Target = str;

    fn deref(&self) -> (text: &str)
        ensures
            text.spec_bytes() == self@,
    {
        self.as_str()
    }
}

} // verus!
