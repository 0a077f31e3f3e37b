//! Turning validated bytes into text.
use vstd::pervasive::unreached;
use vstd::prelude::*;
use vstd::slice::slice_subrange;
use vstd::string::StringSliceAdditionalSpecFns;
use vstd::utf8::{decode_utf8, encode_utf8_decode_utf8, valid_utf8};

verus! {

/// The error type of `core::str::from_utf8`. Nothing is read from it.
#[verifier::external_type_specification]
#[verifier::external_body]
pub struct ExUtf8Error(core::str::Utf8Error);

/// `core::str::from_utf8` checks that the bytes are well-formed UTF-8. It
/// succeeds exactly when they are, and the text it then returns is made of
/// the very same bytes.
pub assume_specification[ core::str::from_utf8 ](v: &[u8]) -> (res: Result<
    &str,
    core::str::Utf8Error,
>)
    ensures
        res is Ok <==> valid_utf8(v@),
        res matches Ok(s) ==> s.spec_bytes() == v@,
;

/// The first `end` bytes of `input` as text.
pub(crate) fn text_prefix<'a>(input: &'a [u8], end: usize) -> (text: &'a str)
    requires
        end <= input@.len(),
        valid_utf8(input@.take(end as int)),
    ensures
        text.spec_bytes() == input@.take(end as int),
        text@ == decode_utf8(input@.take(end as int)),
{
    match core::str::from_utf8(slice_subrange(input, 0, end)) {
        Ok(text) => {
            proof {
                encode_utf8_decode_utf8(text@);
            }
            text
        },
        Err(_) => unreached(),
    }
}

} // verus!
