use base64::Engine;
use vstd::prelude::*;

verus! {

#[verifier::external_type_specification]
#[verifier::external_body]
pub struct ExDecodeError(base64::DecodeError);

/// The standard padded base64 text (RFC 4648 alphabet) of a byte sequence.
pub uninterp spec fn base64_of(bytes: Seq<u8>) -> Seq<u8>;

/// A symbol of the standard base64 alphabet, or the padding `=`.
pub open spec fn is_base64_symbol(c: u8) -> bool {
    (0x41 <= c && c <= 0x5a) || (0x61 <= c && c <= 0x7a) || (0x30 <= c && c <= 0x39) || c == 0x2b
        || c == 0x2f || c == 0x3d
}

/// The largest payload that `encode64` takes: the size of its output is
/// computed with checked arithmetic, which fails far beyond this.
pub const MAX_ENCODED_INPUT: usize = 0x3fff_ffff;

/// Relies on `base64::engine::general_purpose::STANDARD.encode`: padded text
/// over the standard alphabet, from which `decode` reads the input back (so no
/// other input has the same text).
#[verifier::external_body]
pub(crate) fn encode64(bytes: &[u8]) -> (r: Vec<u8>)
    requires
        bytes@.len() <= MAX_ENCODED_INPUT,
    ensures
        r@ == base64_of(bytes@),
        forall|i: int| 0 <= i < r@.len() ==> is_base64_symbol(#[trigger] r@[i]),
        forall|other: Seq<u8>| #[trigger] base64_of(other) == r@ ==> other == bytes@,
{
    base64::engine::general_purpose::STANDARD.encode(bytes).into_bytes()
}

/// Relies on `base64::engine::general_purpose::STANDARD.decode`: with canonical
/// padding required and trailing bits refused, it accepts exactly the texts
/// that `encode` produces, and returns the one input that has the given text.
#[verifier::external_body]
pub(crate) fn decode64(text: &[u8]) -> (r: Result<Vec<u8>, base64::DecodeError>)
    ensures
        match r {
            Ok(v) => forall|b: Seq<u8>| #[trigger] base64_of(b) == text@ <==> b == v@,
            Err(_) => forall|b: Seq<u8>| #[trigger] base64_of(b) != text@,
        },
{
    base64::engine::general_purpose::STANDARD.decode(text)
}

} // verus!
