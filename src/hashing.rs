//! SHA-1 digests and lowercase hexadecimal text.

use sha1::Digest;
use vstd::prelude::*;

verus! {

/// The SHA-1 digest of some bytes.
pub uninterp spec fn sha1_of(data: Seq<u8>) -> Seq<u8>;

/// The lowercase hexadecimal digit for `n` in `0..16`.
pub open spec fn hex_digit(n: int) -> char {
    if n < 10 {
        (48 + n) as char
    } else {
        (87 + n) as char
    }
}

/// Two lowercase hexadecimal digits per byte, most significant first.
pub open spec fn hex_lower(b: Seq<u8>) -> Seq<char>
    decreases b.len(),
{
    if b.len() == 0 {
        Seq::empty()
    } else {
        hex_lower(b.drop_last()) + seq![hex_digit(b.last() as int / 16), hex_digit(b.last() as int % 16)]
    }
}

/// Relies on `sha1::Sha1::digest` (the `digest::Digest` trait): the SHA-1
/// digest of the bytes, whose output type holds 20 bytes.
#[verifier::external_body]
pub(crate) fn sha1_digest(data: &[u8]) -> (r: Vec<u8>)
    ensures
        r@ == sha1_of(data@),
        r@.len() == 20,
{
    sha1::Sha1::digest(data).to_vec()
}

/// Relies on `base16::encode_lower`: two digits from `0123456789abcdef`
/// for each byte, high nibble first.
#[verifier::external_body]
pub(crate) fn base16_lower(b: &[u8]) -> (r: String)
    ensures
        r@ == hex_lower(b@),
{
    base16::encode_lower(b)
}

/// Relies on `hex::encode`: two digits from `0123456789abcdef` for each
/// byte, high nibble first.
#[verifier::external_body]
pub(crate) fn hex_encode(b: &[u8]) -> (r: String)
    ensures
        r@ == hex_lower(b@),
{
    hex::encode(b)
}

} // verus!
