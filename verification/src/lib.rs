//! Incremental validation of UTF-8 that arrives in arbitrary chunks.
//!
//! [`decode_step`] scans one chunk and reports its longest well-formed prefix
//! together with what stopped the scan. A scalar cut by the end of a chunk is
//! carried over in an [`IncompleteSequence`] and finished by
//! [`IncompleteSequence::complete`] on the next chunk.
use vstd::prelude::*;

pub mod classify;
pub mod decode;
pub mod incomplete;
pub mod laws;
pub mod model;
pub mod prefix;
pub mod ranges;
pub mod str_char;
pub mod text;

pub use decode::{decode_step, DecodeStepStatus};
pub use incomplete::{CompleteResult, IncompleteSequence};
pub use str_char::StrChar;
pub use classify::{
    is_continuation_byte, valid_four_bytes_sequence_prefix, valid_three_bytes_sequence_prefix,
    width,
};

verus! {

/// The replacement character. A lossy decoder inserts it once for every
/// decoding error.
pub const REPLACEMENT_CHARACTER: &'static str = "\u{FFFD}";

} // verus!
