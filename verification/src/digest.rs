//! Content digests: BLAKE3 and its hexadecimal text.
use vstd::prelude::*;

verus! {

/// The BLAKE3 digest of a byte string.
pub uninterp spec fn blake3_of(bytes: Seq<u8>) -> Seq<u8>;

/// `blake3::Hasher` fed with `bytes`: the digest is a function of the bytes, 32 bytes long.
#[verifier::external_body]
pub(crate) fn blake3_digest(bytes: &[u8]) -> (digest: Vec<u8>)
    ensures
        digest@ == blake3_of(bytes@),
        digest@.len() == 32,
{
    blake3::Hasher::new().update(bytes).finalize().as_bytes().to_vec()
}

/// The lower-case hexadecimal digit of `n`.
pub open spec fn hex_digit(n: int) -> char {
    if n < 10 {
        ((48 + n) as u8) as char
    } else {
        ((97 + n - 10) as u8) as char
    }
}

/// The hexadecimal text of `bytes`: two lower-case digits for each.
pub open spec fn hex_text(bytes: Seq<u8>) -> Seq<char> {
    Seq::new(
        2 * bytes.len(),
        |i: int|
            if i % 2 == 0 {
                hex_digit(bytes[i / 2] as int / 16)
            } else {
                hex_digit(bytes[i / 2] as int % 16)
            },
    )
}

/// `hex::encode`: two lower-case hexadecimal digits for each byte, most significant first.
#[verifier::external_body]
pub(crate) fn hex_encode(bytes: &[u8]) -> (text: String)
    ensures
        text@ == hex_text(bytes@),
{
    hex::encode(bytes)
}

} // verus!
