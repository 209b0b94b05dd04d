//! Content hashing of photo files, used only to detect renames and moves.

use vstd::prelude::*;

verus! {

/// What the content hash denotes: the hex form of the MD5 digest of the
/// bytes. It depends on the bytes alone.
pub uninterp spec fn md5_hex_of(bytes: Seq<u8>) -> Seq<char>;

/// True for the characters of a lower-case hex rendering.
pub open spec fn is_lower_hex_digit(c: char) -> bool {
    (48 <= c as u32 && c as u32 <= 57) || (97 <= c as u32 && c as u32 <= 102)
}

/// Relies on md5's `Digest::digest`: the digest is a pure function of the
/// input bytes, and its 16 bytes print as 32 lower-case hex digits.
#[verifier::external_body]
fn md5_digest_hex(bytes: &Vec<u8>) -> (r: String)
    ensures
        r@ == md5_hex_of(bytes@),
        r@.len() == 32,
        forall|i: int| 0 <= i < r@.len() ==> is_lower_hex_digit(r@[i]),
{
    let digest = <md5::Md5 as md5::Digest>::digest(bytes.as_slice());
    format!("{:x}", digest)
}

/// The content hash of a file, from its bytes.
pub fn calculate_md5(content: &Vec<u8>) -> (r: String)
    ensures
        r@ == md5_hex_of(content@),
        r@.len() == 32,
        forall|i: int| 0 <= i < r@.len() ==> is_lower_hex_digit(r@[i]),
{
    md5_digest_hex(content)
}

} // verus!
