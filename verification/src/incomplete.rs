//! A scalar cut by the end of a chunk, and its completion on the next one.
use crate::classify::{
    is_continuation_byte, valid_four_bytes_sequence_prefix, valid_three_bytes_sequence_prefix,
    width,
};
use crate::model::{complete_outcome, is_incomplete, CompleteOutcome};
use crate::ranges::lemma_scalar_ranges;
use crate::str_char::StrChar;
use vstd::prelude::*;
use vstd::slice::slice_subrange;
use vstd::utf8::{take_first_scalar, valid_first_scalar};

verus! {

/// The bytes of a scalar that the end of the input cut, all of them checked.
///
/// It holds between one and three bytes, fewer than the first of them
/// announces. A value comes only out of [`decode_step`](crate::decode_step)
/// or [`IncompleteSequence::complete`].
#[derive(Debug)]
pub struct IncompleteSequence {
    len: u8,
    first: u8,
    second: u8,
    third: u8,
}

impl View for IncompleteSequence {
    type V = Seq<u8>;

    /// The bytes captured so far, in order.
    closed spec fn view(&self) -> Seq<u8> {
        seq![self.first, self.second, self.third].take(self.len as int)
    }
}

/// The result of [`IncompleteSequence::complete`].
pub enum CompleteResult<'a> {
    /// A well-formed code point that was split across input chunks.
    Complete { code_point: StrChar, remaining_input: &'a [u8] },
    /// There was a decoding error.
    /// Each such error should be represented as one U+FFFD replacement
    /// character in lossy decoding.
    Error { remaining_input_after_error: &'a [u8] },
    /// There is still not enough input to determine if this is a well-formed
    /// code point or a decoding error.
    /// If at the end of the input, this is a decoding error.
    StillIncomplete(IncompleteSequence),
}

impl<'a> View for CompleteResult<'a> {
    type V = CompleteOutcome;

    open spec fn view(&self) -> CompleteOutcome {
        match *self {
            CompleteResult::Complete { code_point, remaining_input } => CompleteOutcome::Complete {
                code_point: code_point@,
                remaining: remaining_input@,
            },
            CompleteResult::Error { remaining_input_after_error } => CompleteOutcome::Error {
                remaining: remaining_input_after_error@,
            },
            CompleteResult::StillIncomplete(sequence) => CompleteOutcome::StillIncomplete {
                pending: sequence@,
            },
        }
    }
}

impl IncompleteSequence {
    #[verifier::type_invariant]
    spec fn well_formed(&self) -> bool {
        1 <= self.len <= 3 && is_incomplete(self@)
    }

    /// Captures the first `len` of the three bytes.
    pub(crate) fn new(len: u8, first: u8, second: u8, third: u8) -> (sequence: Self)
        requires
            1 <= len <= 3,
            is_incomplete(seq![first, second, third].take(len as int)),
        ensures
            sequence@ == seq![first, second, third].take(len as int),
    {
        IncompleteSequence { len, first, second, third }
    }

    /// Consume more input to attempt to make this incomplete sequence
    /// complete.
    ///
    /// The bytes that are still missing are taken from the front of `input`
    /// and checked one by one. The result is the one that a single scan of
    /// the captured bytes followed by `input` would give for its first
    /// scalar.
    pub fn complete<'a>(self, input: &'a [u8]) -> (r: CompleteResult<'a>)
        ensures
            is_incomplete(self@),
            r@ == complete_outcome(self@, input@),
            r is Complete <==> valid_first_scalar(self@ + input@),
            r matches CompleteResult::Complete { code_point, .. } ==> code_point@
                == take_first_scalar(self@ + input@),
            r matches CompleteResult::StillIncomplete(sequence) ==> is_incomplete(sequence@),
    {
        proof {
            use_type_invariant(&self);
            lemma_scalar_ranges(self@ + input@);
        }
        let ghost s = self@ + input@;
        let first = self.first;
        let mut second = self.second;
        let mut third = self.third;
        let w = width(first);
        let mut position: usize = 0;

        if self.len < 2 {
            if position >= input.len() {
                assert(s =~= self@);
                return CompleteResult::StillIncomplete(self);
            }
            second = input[position];
            let valid = match w {
                2 => is_continuation_byte(second),
                3 => valid_three_bytes_sequence_prefix(first, second),
                _ => valid_four_bytes_sequence_prefix(first, second),
            };
            if !valid {
                let remaining = slice_subrange(input, position, input.len());
                assert(remaining@ =~= input@.skip(1 - self@.len()));
                return CompleteResult::Error { remaining_input_after_error: remaining };
            }
            position += 1;
        }
        assert(s[1] == second);

        let mut fourth: u8 = 0;
        if w > 2 {
            if self.len < 3 {
                if position >= input.len() {
                    let sequence = IncompleteSequence { len: 2, first, second, third };
                    assert(sequence@ =~= s);
                    return CompleteResult::StillIncomplete(sequence);
                }
                third = input[position];
                if !is_continuation_byte(third) {
                    let remaining = slice_subrange(input, position, input.len());
                    assert(remaining@ =~= input@.skip(2 - self@.len()));
                    return CompleteResult::Error { remaining_input_after_error: remaining };
                }
                position += 1;
            }
            assert(s[2] == third);
            if w > 3 {
                if position >= input.len() {
                    let sequence = IncompleteSequence { len: 3, first, second, third };
                    assert(sequence@ =~= s);
                    return CompleteResult::StillIncomplete(sequence);
                }
                fourth = input[position];
                if !is_continuation_byte(fourth) {
                    let remaining = slice_subrange(input, position, input.len());
                    assert(remaining@ =~= input@.skip(3 - self@.len()));
                    return CompleteResult::Error { remaining_input_after_error: remaining };
                }
                position += 1;
            }
        }
        let remaining = slice_subrange(input, position, input.len());
        let ghost four = seq![first, second, third, fourth];
        assert(remaining@ =~= input@.skip(w - self@.len()));
        assert(four.take(w as int) =~= s.take(w as int));
        let ch = StrChar::new(first, second, third, fourth);
        CompleteResult::Complete { code_point: ch, remaining_input: remaining }
    }
}

} // verus!
