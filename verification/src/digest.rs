//! Content digests: SHA-256 of the raw bytes, written in lower-case
//! hexadecimal.

use vstd::prelude::*;

verus! {

/// The SHA-256 digest of `data`.
pub uninterp spec fn sha256_digest(data: Seq<u8>) -> Seq<u8>;

/// The hexadecimal digit, in lower case, of a value below sixteen.
pub open spec fn hex_digit(n: u8) -> char {
    if n < 10 {
        ((48 + n) as u8) as char
    } else {
        ((87 + n) as u8) as char
    }
}

/// `data` in hexadecimal: two lower-case digits for each byte, the high half
/// first.
pub open spec fn hex_lower(data: Seq<u8>) -> Seq<char> {
    Seq::new(
        2 * data.len(),
        |i: int|
            if i % 2 == 0 {
                hex_digit(data[i / 2] / 16)
            } else {
                hex_digit(data[i / 2] % 16)
            },
    )
}

/// `Sha256::digest` of the `sha2` crate hashes the whole of `data` in one go
/// and returns the 32 bytes of the digest, which depend on `data` alone.
#[verifier::external_body]
pub(crate) fn sha256(data: &[u8]) -> (digest: Vec<u8>)
    ensures
        digest@ == sha256_digest(data@),
        digest@.len() == 32,
{
    <sha2::Sha256 as sha2::Digest>::digest(data).to_vec()
}

/// `hex::encode` writes each byte of `data` as two hexadecimal digits, with
/// the letters a to f in lower case.
#[verifier::external_body]
pub(crate) fn hex_encode(data: &[u8]) -> (text: String)
    ensures
        text@ == hex_lower(data@),
{
    hex::encode(data)
}

/// The SHA-256 digest of `data` in lower-case hexadecimal: 64 characters.
pub fn sha256_hex(data: &[u8]) -> (text: String)
    ensures
        text@ == hex_lower(sha256_digest(data@)),
        text@.len() == 64,
{
    let digest = sha256(data);
    hex_encode(digest.as_slice())
}

} // verus!
