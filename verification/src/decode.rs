//! The step decoder: one scan over one chunk.
use crate::classify::{
    is_continuation_byte, valid_four_bytes_sequence_prefix, valid_three_bytes_sequence_prefix,
    width,
};
use crate::incomplete::IncompleteSequence;
use crate::model::{is_incomplete, step_outcome, subpart_len, well_formed_len, StepOutcome};
use crate::laws::{
    prefix_is_the_longest_well_formed, resuming_equals_one_step,
    well_formed_input_is_returned_whole,
};
use crate::prefix::lemma_well_formed_len_valid;
use crate::text::text_prefix;
use vstd::prelude::*;
use vstd::slice::slice_subrange;
use vstd::string::StringSliceAdditionalSpecFns;
use vstd::utf8::{decode_utf8, valid_utf8};

verus! {

/// What [`decode_step`] found behind the well-formed prefix.
#[must_use]
#[derive(Debug)]
pub enum DecodeStepStatus<'a> {
    /// The input was entirely well-formed.
    WellFormed,
    /// There was a decoding error.
    /// Each such error should be represented as one U+FFFD replacement
    /// character in lossy decoding.
    Error { remaining_input_after_error: &'a [u8] },
    /// The end of the input was reached in the middle of an UTF-8 sequence
    /// that is valid so far. More input (up to 3 more bytes) is required to
    /// determine if it is well-formed. If at the end of the input, this is
    /// a decoding error.
    Incomplete(IncompleteSequence),
}

impl<'a> View for DecodeStepStatus<'a> {
    type V = StepOutcome;

    open spec fn view(&self) -> StepOutcome {
        match *self {
            DecodeStepStatus::WellFormed => StepOutcome::WellFormed,
            DecodeStepStatus::Error { remaining_input_after_error } => StepOutcome::Error {
                remaining: remaining_input_after_error@,
            },
            DecodeStepStatus::Incomplete(sequence) => StepOutcome::Incomplete {
                pending: sequence@,
            },
        }
    }
}

/// The result of a step whose scan met, `accepted` bytes into the sequence
/// at `position`, a byte that cannot stand there.
fn stop_with_error<'a>(input: &'a [u8], position: usize, accepted: usize) -> (r: (
    &'a str,
    DecodeStepStatus<'a>,
))
    requires
        position + accepted < input@.len(),
        well_formed_len(input@) == position,
        subpart_len(input@.skip(position as int)) == accepted,
    ensures
        r.0.spec_bytes() == step_outcome(input@).0,
        r.0@ == decode_utf8(step_outcome(input@).0),
        r.1@ == step_outcome(input@).1,
{
    proof {
        lemma_well_formed_len_valid(input@);
    }
    let end = input.len();
    let remaining = slice_subrange(input, position + accepted, end);
    assert(remaining@ =~= input@.skip(position as int).skip(accepted as int));
    (text_prefix(input, position), DecodeStepStatus::Error { remaining_input_after_error: remaining })
}

/// The result of a step whose input ends `len` bytes into the sequence at
/// `position`.
fn stop_incomplete<'a>(
    input: &'a [u8],
    position: usize,
    len: u8,
    first: u8,
    second: u8,
    third: u8,
) -> (r: (&'a str, DecodeStepStatus<'a>))
    requires
        1 <= len <= 3,
        position + len == input@.len(),
        well_formed_len(input@) == position,
        subpart_len(input@.skip(position as int)) == len,
        input@.skip(position as int) == seq![first, second, third].take(len as int),
        len < width(first),
    ensures
        r.0.spec_bytes() == step_outcome(input@).0,
        r.0@ == decode_utf8(step_outcome(input@).0),
        r.1@ == step_outcome(input@).1,
{
    proof {
        lemma_well_formed_len_valid(input@);
    }
    let sequence = IncompleteSequence::new(len, first, second, third);
    (text_prefix(input, position), DecodeStepStatus::Incomplete(sequence))
}

/// Low-level UTF-8 decoding.
///
/// Return the (possibly empty) str slice for the prefix of `input` that was
/// well-formed UTF-8, and details about the rest of the input.
///
/// The prefix is the longest one that is well-formed. Behind it the input
/// either ends (`WellFormed`), or ends inside a scalar whose bytes so far
/// are all acceptable (`Incomplete`, which carries them), or holds a byte
/// that cannot stand at its place (`Error`, whose remainder starts with
/// that byte).
#[verifier::loop_isolation(false)]
pub fn decode_step<'a>(input: &'a [u8]) -> (r: (&'a str, DecodeStepStatus<'a>))
    ensures
        r.0.spec_bytes() == step_outcome(input@).0,
        r.0@ == decode_utf8(step_outcome(input@).0),
        r.1@ == step_outcome(input@).1,
        valid_utf8(r.0.spec_bytes()),
        forall|m: int|
            r.0.spec_bytes().len() < m <= input@.len() ==> !valid_utf8(#[trigger] input@.take(m)),
        r.1 is WellFormed <==> valid_utf8(input@),
        valid_utf8(input@) ==> r.0.spec_bytes() == input@,
        r.1 matches DecodeStepStatus::Incomplete(sequence) ==> is_incomplete(sequence@),
{
    proof {
        prefix_is_the_longest_well_formed(input@);
        well_formed_input_is_returned_whole(input@);
        if step_outcome(input@).1 is Incomplete {
            resuming_equals_one_step(input@, Seq::empty());
        }
    }
    let mut position: usize = 0;
    assert(input@.skip(0) =~= input@);
    loop
        invariant
            position <= input@.len(),
            well_formed_len(input@) == position + well_formed_len(input@.skip(position as int)),
        decreases input@.len() - position,
    {
        let ghost rest = input@.skip(position as int);
        if position >= input.len() {
            // At the end of the input and on a scalar's boundary at once.
            proof {
                lemma_well_formed_len_valid(input@);
            }
            return (text_prefix(input, position), DecodeStepStatus::WellFormed);
        }
        let first = input[position];
        assert(rest[0] == first);
        // ASCII bytes are always valid; only larger bytes need a closer look.
        if first < 128 {
            assert(rest.skip(1) =~= input@.skip(position + 1));
            position += 1;
        } else {
            let w = width(first);
            if w == 0 {
                return stop_with_error(input, position, 0);
            }
            if position + 1 >= input.len() {
                assert(rest =~= seq![first, 0u8, 0u8].take(1));
                return stop_incomplete(input, position, 1, first, 0, 0);
            }
            let second = input[position + 1];
            assert(rest[1] == second);
            let valid = match w {
                2 => is_continuation_byte(second),
                3 => valid_three_bytes_sequence_prefix(first, second),
                _ => valid_four_bytes_sequence_prefix(first, second),
            };
            if !valid {
                return stop_with_error(input, position, 1);
            }
            if w > 2 {
                if position + 2 >= input.len() {
                    assert(rest =~= seq![first, second, 0u8].take(2));
                    return stop_incomplete(input, position, 2, first, second, 0);
                }
                let third = input[position + 2];
                assert(rest[2] == third);
                if !is_continuation_byte(third) {
                    return stop_with_error(input, position, 2);
                }
                if w > 3 {
                    if position + 3 >= input.len() {
                        assert(rest =~= seq![first, second, third].take(3));
                        return stop_incomplete(input, position, 3, first, second, third);
                    }
                    let fourth = input[position + 3];
                    assert(rest[3] == fourth);
                    if !is_continuation_byte(fourth) {
                        return stop_with_error(input, position, 3);
                    }
                }
            }
            assert(rest.skip(w as int) =~= input@.skip(position + w));
            position += w as usize;
        }
    }
}

} // verus!
