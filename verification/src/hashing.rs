//! The hash by which a file is known to have changed: SHA-256 of its
//! contents, written in hex.
use sha2::Digest;
use vstd::prelude::*;
use vstd::utf8::encode_utf8;

verus! {

/// The SHA-256 digest of a sequence of bytes.
pub uninterp spec fn sha256(data: Seq<u8>) -> Seq<u8>;

/// The hex digit for a value below 16, in lower case.
pub open spec fn hex_digit(value: int) -> char {
    if value < 10 {
        ('0' as int + value) as char
    } else {
        ('a' as int + value - 10) as char
    }
}

/// The bytes in hex: two digits for each byte, the high one first.
pub open spec fn hex_string(data: Seq<u8>) -> Seq<char> {
    Seq::new(
        2 * data.len(),
        |i: int|
            if i % 2 == 0 {
                hex_digit(data[i / 2] as int / 16)
            } else {
                hex_digit(data[i / 2] as int % 16)
            },
    )
}

/// `Digest::digest` of the crate sha2, for `Sha256`. The digest is a
/// function of the bytes alone; the contract gives it the name `sha256` and
/// claims nothing more of it.
#[verifier::external_body]
fn sha256_digest(data: &[u8]) -> (r: Vec<u8>)
    ensures
        r@ == sha256(data@),
{
    sha2::Sha256::digest(data).to_vec()
}

/// `hex::encode`: each byte becomes two hex digits in lower case, the high
/// four bits first.
#[verifier::external_body]
fn hex_encode(data: &[u8]) -> (r: String)
    ensures
        r@ == hex_string(data@),
{
    hex::encode(data)
}

/// The hash of the contents of a file.
pub open spec fn content_hash(content: Seq<char>) -> Seq<char> {
    hex_string(sha256(encode_utf8(content)))
}

/// The hash of the contents of a file: the SHA-256 digest of its bytes, in
/// hex.
pub fn compute_hash(content: &str) -> (r: String)
    ensures
        r@ == content_hash(content@),
{
    let digest = sha256_digest(content.as_bytes());
    hex_encode(digest.as_slice())
}

} // verus!
