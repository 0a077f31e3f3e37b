//! Byte classes of UTF-8: the width that a leading byte announces and the
//! ranges that the bytes after it must fall into.
use vstd::prelude::*;

verus! {

/// The number of bytes in a sequence that starts with `first_byte`, or 0
/// where no well-formed sequence starts with it.
pub open spec fn spec_width(first_byte: u8) -> u8 {
    if first_byte <= 0x7F {
        1
    } else if 0xC2 <= first_byte <= 0xDF {
        2
    } else if 0xE0 <= first_byte <= 0xEF {
        3
    } else if 0xF0 <= first_byte <= 0xF4 {
        4
    } else {
        0
    }
}

/// The number of bytes in a sequence that starts with `first_byte`, or 0
/// where no well-formed sequence starts with it.
#[verifier::when_used_as_spec(spec_width)]
pub fn width(first_byte: u8) -> (w: u8)
    ensures
        w == spec_width(first_byte),
{
    if first_byte < 0x80 {
        1
    } else if first_byte < 0xC2 {
        0
    } else if first_byte < 0xE0 {
        2
    } else if first_byte < 0xF0 {
        3
    } else if first_byte < 0xF5 {
        4
    } else {
        0
    }
}

/// True when the two top bits of `b` are `10`.
pub open spec fn spec_is_continuation_byte(b: u8) -> bool {
    0x80 <= b <= 0xBF
}

/// True when the two top bits of `b` are `10`.
#[verifier::when_used_as_spec(spec_is_continuation_byte)]
pub fn is_continuation_byte(b: u8) -> (r: bool)
    ensures
        r == spec_is_continuation_byte(b),
{
    assert((b & 0xC0 == 0x80) <==> (0x80 <= b <= 0xBF)) by (bit_vector);
    b & 0xC0 == 0x80
}

/// True when `second` may follow `first` at the start of a three-byte
/// sequence: a continuation byte that makes neither an overlong form nor a
/// surrogate.
pub open spec fn spec_valid_three_bytes_sequence_prefix(first: u8, second: u8) -> bool {
    ||| first == 0xE0 && 0xA0 <= second <= 0xBF
    ||| 0xE1 <= first <= 0xEC && 0x80 <= second <= 0xBF
    ||| first == 0xED && 0x80 <= second <= 0x9F
    ||| 0xEE <= first <= 0xEF && 0x80 <= second <= 0xBF
}

/// True when `second` may follow `first` at the start of a three-byte
/// sequence.
#[verifier::when_used_as_spec(spec_valid_three_bytes_sequence_prefix)]
pub fn valid_three_bytes_sequence_prefix(first: u8, second: u8) -> (r: bool)
    ensures
        r == spec_valid_three_bytes_sequence_prefix(first, second),
{
    matches!(
        (first, second),
        (0xE0, 0xA0..=0xBF) | (0xE1..=0xEC, 0x80..=0xBF) | (0xED, 0x80..=0x9F) | (
            0xEE..=0xEF,
            0x80..=0xBF,
        )
    )
}

/// True when `second` may follow `first` at the start of a four-byte
/// sequence: a continuation byte that makes neither an overlong form nor a
/// value above U+10FFFF.
pub open spec fn spec_valid_four_bytes_sequence_prefix(first: u8, second: u8) -> bool {
    ||| first == 0xF0 && 0x90 <= second <= 0xBF
    ||| 0xF1 <= first <= 0xF3 && 0x80 <= second <= 0xBF
    ||| first == 0xF4 && 0x80 <= second <= 0x8F
}

/// True when `second` may follow `first` at the start of a four-byte
/// sequence.
#[verifier::when_used_as_spec(spec_valid_four_bytes_sequence_prefix)]
pub fn valid_four_bytes_sequence_prefix(first: u8, second: u8) -> (r: bool)
    ensures
        r == spec_valid_four_bytes_sequence_prefix(first, second),
{
    matches!(
        (first, second),
        (0xF0, 0x90..=0xBF) | (0xF1..=0xF3, 0x80..=0xBF) | (0xF4, 0x80..=0x8F)
    )
}

} // verus!
