//! Why the byte ranges are the right ones: a sequence passes the range
//! checks exactly when its bits decode to a Unicode scalar value in its
//! shortest form, as `vstd::utf8` defines it.
use crate::classify::width;
use crate::model::starts_with_scalar;
use vstd::prelude::*;
use vstd::utf8::{
    codepoint_width_1, codepoint_width_2, codepoint_width_3, codepoint_width_4,
    decode_first_scalar, is_leading_byte_width_1, is_leading_byte_width_2,
    is_leading_byte_width_3, is_leading_byte_width_4, is_scalar, length_of_first_scalar,
    valid_first_scalar,
};

verus! {

proof fn lemma_one_byte(b1: u8)
    by (bit_vector)
    requires
        b1 <= 0x7F,
    ensures
        codepoint_width_1(b1) <= 0x7F,
{
}

proof fn lemma_two_bytes(b1: u8, b2: u8)
    by (bit_vector)
    requires
        0xC0 <= b1 <= 0xDF,
        0x80 <= b2 <= 0xBF,
    ensures
        0x80 <= codepoint_width_2(b1, b2) <==> 0xC2 <= b1,
        codepoint_width_2(b1, b2) <= 0x7FF,
{
}

proof fn lemma_three_bytes(b1: u8, b2: u8, b3: u8)
    by (bit_vector)
    requires
        0xE0 <= b1 <= 0xEF,
        0x80 <= b2 <= 0xBF,
        0x80 <= b3 <= 0xBF,
    ensures
        0x800 <= codepoint_width_3(b1, b2, b3) <==> !(b1 == 0xE0 && b2 <= 0x9F),
        0xD800 <= codepoint_width_3(b1, b2, b3) <= 0xDFFF <==> b1 == 0xED && 0xA0 <= b2,
        codepoint_width_3(b1, b2, b3) <= 0xFFFF,
{
}

proof fn lemma_four_bytes(b1: u8, b2: u8, b3: u8, b4: u8)
    by (bit_vector)
    requires
        0xF0 <= b1 <= 0xF7,
        0x80 <= b2 <= 0xBF,
        0x80 <= b3 <= 0xBF,
        0x80 <= b4 <= 0xBF,
    ensures
        0x10000 <= codepoint_width_4(b1, b2, b3, b4) <==> !(b1 == 0xF0 && b2 <= 0x8F),
        codepoint_width_4(b1, b2, b3, b4) <= 0x10FFFF <==> b1 <= 0xF3 || (b1 == 0xF4 && b2
            <= 0x8F),
{
}

/// The range checks accept the start of `s` as a whole scalar exactly when
/// it is the UTF-8 encoding of a Unicode scalar value. The leading byte then
/// announces the encoding's length, and the value is one that a `char` can
/// hold.
pub proof fn lemma_scalar_ranges(s: Seq<u8>)
    ensures
        starts_with_scalar(s) <==> valid_first_scalar(s),
        valid_first_scalar(s) ==> length_of_first_scalar(s) == width(s[0]),
        valid_first_scalar(s) ==> is_scalar(decode_first_scalar(s)),
{
    if s.len() > 0 {
        let b1 = s[0];
        if is_leading_byte_width_1(b1) {
            lemma_one_byte(b1);
        } else if is_leading_byte_width_2(b1) {
            if s.len() >= 2 && 0x80 <= s[1] <= 0xBF {
                lemma_two_bytes(b1, s[1]);
            }
        } else if is_leading_byte_width_3(b1) {
            if s.len() >= 3 && 0x80 <= s[1] <= 0xBF && 0x80 <= s[2] <= 0xBF {
                lemma_three_bytes(b1, s[1], s[2]);
            }
        } else if is_leading_byte_width_4(b1) {
            if s.len() >= 4 && 0x80 <= s[1] <= 0xBF && 0x80 <= s[2] <= 0xBF && 0x80 <= s[3]
                <= 0xBF {
                lemma_four_bytes(b1, s[1], s[2], s[3]);
            }
        }
    }
}

} // verus!
