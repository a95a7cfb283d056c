use vstd::prelude::*;

verus! {

/// The SHA-1 digest of a byte sequence.  The hash is a function of the bytes
/// alone; what it computes is left to the outside implementation.
pub uninterp spec fn sha1_of(bytes: Seq<u8>) -> Seq<u8>;

/// Relies on `sha1::Digest::digest` of the sha1 crate: the 20-byte SHA-1
/// digest of the input, a deterministic function of the input bytes.
#[verifier::external_body]
pub(crate) fn sha1_digest(bytes: &[u8]) -> (r: [u8; 20])
    ensures
        r@ == sha1_of(bytes@),
{
    <sha1::Sha1 as sha1::Digest>::digest(bytes).into()
}

/// The lowercase hex digit for a nibble.
pub open spec fn hex_digit(n: u8) -> char {
    if n < 10 {
        (0x30 + n) as char
    } else {
        (0x57 + n) as char
    }
}

/// Lowercase hexadecimal rendering of a byte sequence, two digits per byte,
/// high nibble first.
pub open spec fn hex_of(bytes: Seq<u8>) -> Seq<char>
    decreases bytes.len(),
{
    if bytes.len() == 0 {
        Seq::empty()
    } else {
        seq![hex_digit(bytes[0] / 16), hex_digit(bytes[0] % 16)] + hex_of(bytes.drop_first())
    }
}

/// Relies on `hex::encode`: two lowercase hex digits per input byte, high
/// nibble first.
#[verifier::external_body]
pub(crate) fn hex_string(bytes: &[u8]) -> (r: String)
    ensures
        r@ == hex_of(bytes@),
{
    hex::encode(bytes)
}

/// Relies on `String::from_utf8`: ASCII bytes are valid UTF-8, and each
/// becomes the character with the same code.
#[verifier::external_body]
pub(crate) fn ascii_to_string(bytes: Vec<u8>) -> (r: String)
    requires
        forall|i: int| 0 <= i < bytes@.len() ==> bytes@[i] < 0x80,
    ensures
        r@.len() == bytes@.len(),
        forall|i: int| 0 <= i < bytes@.len() ==> r@[i] == bytes@[i] as char,
{
    String::from_utf8(bytes).unwrap_or_default()
}

} // verus!
