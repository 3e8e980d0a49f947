//! Thin contracts for the few `std` string operations that vstd does not specify.

use vstd::prelude::*;
use vstd::utf8::*;

verus! {

/// `String::push` of `std`: appends one character.
#[verifier::external_body]
pub(crate) fn push_char(s: &mut String, c: char)
    ensures
        final(s)@ == old(s)@.push(c),
{
    s.push(c);
}

/// `String::from_utf8` of `std`: decodes bytes that are valid UTF-8, and fails
/// on any other byte sequence, as its documentation states. The decoded
/// characters are those of vstd's UTF-8 model.
#[verifier::external_body]
pub(crate) fn string_from_utf8(bytes: Vec<u8>) -> (r: Option<String>)
    ensures
        r is Some <==> valid_utf8(bytes@),
        r matches Some(s) ==> s@ == decode_utf8(bytes@),
{
    match String::from_utf8(bytes) {
        Ok(s) => Some(s),
        Err(_) => None,
    }
}

} // verus!
