use vstd::prelude::*;

verus! {

/// The bytes seen as characters, one character per byte.
pub open spec fn bytes_as_chars(b: Seq<u8>) -> Seq<char> {
    b.map_values(|x: u8| x as char)
}

/// Relies on String::from_utf8: bytes below 128 are valid UTF-8 and decode
/// to exactly one character each, the character with the byte's code.
#[verifier::external_body]
pub(crate) fn ascii_to_string(bytes: Vec<u8>) -> (r: String)
    requires
        forall|i: int| 0 <= i < bytes@.len() ==> bytes@[i] < 128,
    ensures
        r@ == bytes_as_chars(bytes@),
{
    String::from_utf8(bytes).unwrap_or_default()
}

} // verus!
