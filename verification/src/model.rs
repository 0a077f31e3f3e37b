//! The mathematical model of a decoding step, over plain byte sequences.
//!
//! The model is built on the byte ranges of RFC 3629: which bytes begin a
//! scalar, how far the whole scalars at the front of a chunk reach, how many
//! of the bytes behind them still agree with the start of a scalar, and
//! what a step therefore reports. That these ranges describe well-formed
//! UTF-8 as `vstd::utf8` defines it is proved in `crate::ranges` and
//! `crate::prefix`.
use crate::classify::{
    is_continuation_byte, valid_four_bytes_sequence_prefix, valid_three_bytes_sequence_prefix,
    width,
};
use vstd::prelude::*;

verus! {

/// True when `second` may stand second in a sequence that `first` leads.
pub open spec fn valid_second(first: u8, second: u8) -> bool {
    match width(first) {
        2 => is_continuation_byte(second),
        3 => valid_three_bytes_sequence_prefix(first, second),
        4 => valid_four_bytes_sequence_prefix(first, second),
        _ => false,
    }
}

/// True when the first `k` bytes of `s` are the first `k` bytes of a
/// well-formed scalar: each passes the check that its place calls for, and
/// the leading byte announces at least `k` bytes.
pub open spec fn accepts(s: Seq<u8>, k: int) -> bool {
    &&& 1 <= k <= s.len()
    &&& k <= width(s[0])
    &&& (k >= 2 ==> valid_second(s[0], s[1]))
    &&& (k >= 3 ==> is_continuation_byte(s[2]))
    &&& (k >= 4 ==> is_continuation_byte(s[3]))
}

/// True when `s` starts with one whole well-formed scalar.
pub open spec fn starts_with_scalar(s: Seq<u8>) -> bool {
    s.len() > 0 && accepts(s, width(s[0]) as int)
}

/// The length of the maximal subpart at the front of `s`: how many of its
/// leading bytes agree with the start of a well-formed scalar. It is 0 where
/// `s` is empty or its first byte can lead nothing.
pub open spec fn subpart_len(s: Seq<u8>) -> int {
    if accepts(s, 4) {
        4
    } else if accepts(s, 3) {
        3
    } else if accepts(s, 2) {
        2
    } else if accepts(s, 1) {
        1
    } else {
        0
    }
}

/// True when `p` is the captured part of a scalar that a chunk boundary cut:
/// between one and three bytes that begin a well-formed scalar and are
/// fewer than its leading byte announces.
pub open spec fn is_incomplete(p: Seq<u8>) -> bool {
    accepts(p, p.len() as int) && p.len() < width(p[0])
}

/// The number of bytes at the front of `s` that form whole well-formed
/// scalars, one after the other.
pub open spec fn well_formed_len(s: Seq<u8>) -> int
    decreases s.len(),
{
    if starts_with_scalar(s) {
        width(s[0]) + well_formed_len(s.skip(width(s[0]) as int))
    } else {
        0
    }
}

/// What a step reports beside the well-formed prefix.
pub enum StepOutcome {
    /// The whole input was well-formed.
    WellFormed,
    /// A byte that no well-formed sequence can hold at its place was met;
    /// `remaining` starts with that byte.
    Error { remaining: Seq<u8> },
    /// The input ended inside a scalar; `pending` holds its bytes so far.
    Incomplete { pending: Seq<u8> },
}

/// The well-formed prefix of `s` and the outcome of a step on `s`.
pub open spec fn step_outcome(s: Seq<u8>) -> (Seq<u8>, StepOutcome) {
    let n = well_formed_len(s);
    let rest = s.skip(n);
    let m = subpart_len(rest);
    (
        s.take(n),
        if rest.len() == 0 {
            StepOutcome::WellFormed
        } else if m == rest.len() {
            StepOutcome::Incomplete { pending: rest }
        } else {
            StepOutcome::Error { remaining: rest.skip(m) }
        },
    )
}

/// What resuming a cut scalar on the next chunk reports.
pub enum CompleteOutcome {
    /// The scalar is whole: `code_point` holds its bytes and `remaining`
    /// the part of the chunk behind it.
    Complete { code_point: Seq<u8>, remaining: Seq<u8> },
    /// A byte of the chunk cannot continue the scalar; `remaining` starts
    /// with that byte.
    Error { remaining: Seq<u8> },
    /// The chunk ended before the scalar did; `pending` holds its bytes so
    /// far.
    StillIncomplete { pending: Seq<u8> },
}

/// The outcome of resuming the captured bytes `pending` on the chunk `input`.
pub open spec fn complete_outcome(pending: Seq<u8>, input: Seq<u8>) -> CompleteOutcome {
    let s = pending + input;
    let m = subpart_len(s);
    if starts_with_scalar(s) {
        let w = width(s[0]) as int;
        CompleteOutcome::Complete { code_point: s.take(w), remaining: input.skip(w - pending.len()) }
    } else if m == s.len() {
        CompleteOutcome::StillIncomplete { pending: s }
    } else {
        CompleteOutcome::Error { remaining: input.skip(m - pending.len()) }
    }
}

} // verus!
