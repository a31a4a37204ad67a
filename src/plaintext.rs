use vstd::prelude::*;
use vstd::utf8::{decode_utf8, valid_utf8};

verus! {

/// A request body that is not UTF-8 text.
#[derive(Debug, Clone, Copy, PartialEq, Eq, Structural)]
pub struct CouldNotParsePlainText;

/// Relies on String::from_utf8: a string exactly when the bytes are valid
/// UTF-8, holding the characters that they encode.
#[verifier::external_body]
fn utf8_string(buf: Vec<u8>) -> (r: Option<String>)
    ensures
        r is Some <==> valid_utf8(buf@),
        r is Some ==> r->0@ == decode_utf8(buf@),
{
    String::from_utf8(buf).ok()
}

/// The text of a request body, which must be UTF-8.
pub fn plaintext_body(buf: Vec<u8>) -> (r: Result<String, CouldNotParsePlainText>)
    ensures
        r is Ok <==> valid_utf8(buf@),
        r is Ok ==> r->Ok_0@ == decode_utf8(buf@),
{
    match utf8_string(buf) {
        Some(text) => Ok(text),
        None => Err(CouldNotParsePlainText),
    }
}

} // verus!
