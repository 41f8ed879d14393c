//! The digest of the rendered index, by which a change is detected.

use md5::Digest;
use vstd::prelude::*;
use vstd::utf8::encode_utf8;

verus! {

/// The MD5 hash of `data`, as `md5::Md5` computes it: a function of the
/// bytes alone, sixteen bytes long.
pub uninterp spec fn md5_of(data: Seq<u8>) -> Seq<u8>;

/// The hexadecimal digit, in upper case, of a value below sixteen.
pub open spec fn hex_digit_upper(value: int) -> char {
    "0123456789ABCDEF"@[value]
}

/// `data` in hexadecimal, upper case: two digits for each byte, the high
/// half first.
pub open spec fn hex_upper(data: Seq<u8>) -> Seq<char> {
    Seq::new(
        2 * data.len(),
        |i: int|
            if i % 2 == 0 {
                hex_digit_upper(data[i / 2] as int / 16)
            } else {
                hex_digit_upper(data[i / 2] as int % 16)
            },
    )
}

/// The digest of a text: the MD5 hash of its UTF-8 bytes, in upper-case
/// hexadecimal.
pub open spec fn content_digest(content: Seq<char>) -> Seq<char> {
    hex_upper(md5_of(encode_utf8(content)))
}

/// Calls `md5::Md5::digest` (the `Digest::digest` of the `md-5` crate) on
/// `data`. Trusted: the result is the MD5 hash of exactly these bytes, and
/// MD5's output is sixteen bytes long.
#[verifier::external_body]
fn md5_bytes(data: &[u8]) -> (hash: Vec<u8>)
    ensures
        hash@ == md5_of(data@),
        hash@.len() == 16,
{
    md5::Md5::digest(data).to_vec()
}

/// Calls `hex::encode_upper` on `data`. Trusted: each byte becomes two
/// characters of `0123456789ABCDEF`, first the one for its high four bits,
/// then the one for its low four bits, in the order of the bytes.
#[verifier::external_body]
fn hex_encode_upper(data: &Vec<u8>) -> (text: String)
    ensures
        text@ == hex_upper(data@),
{
    hex::encode_upper(data)
}

/// Writes a raw hash in upper-case hexadecimal.
pub fn encode_digest(hash: &Vec<u8>) -> (text: String)
    ensures
        text@ == hex_upper(hash@),
        text@.len() == 2 * hash@.len(),
{
    hex_encode_upper(hash)
}

/// The digest of `bytes`: their MD5 hash in upper-case hexadecimal, 32
/// characters long.
pub fn digest(bytes: &[u8]) -> (text: String)
    ensures
        text@ == hex_upper(md5_of(bytes@)),
        text@.len() == 32,
{
    let hash = md5_bytes(bytes);
    encode_digest(&hash)
}

/// The digest of the text `content`.
pub fn digest_of_text(content: &str) -> (text: String)
    ensures
        text@ == content_digest(content@),
        text@.len() == 32,
{
    digest(content.as_bytes())
}

} // verus!
