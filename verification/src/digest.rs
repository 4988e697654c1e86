//! Content digests: the lower-case hexadecimal SHA-256 of a byte string.
//! Repositories are keyed by the digest of their normalized URL, and
//! install scripts are pinned by the digest of their contents.

use vstd::prelude::*;
use sha2::Digest;
use vstd::string::StringSliceAdditionalSpecFns;

verus! {

/// The SHA-256 digest of `data`, as the `sha2` crate computes it.
pub uninterp spec fn sha256(data: Seq<u8>) -> Seq<u8>;

/// The lower-case hexadecimal digit for `n` (below 16).
pub open spec fn hex_digit(n: int) -> char {
    seq!['0', '1', '2', '3', '4', '5', '6', '7', '8', '9', 'a', 'b', 'c', 'd', 'e', 'f'][n]
}

/// Each byte as two lower-case hexadecimal digits, high nibble first.
pub open spec fn hex_lower(data: Seq<u8>) -> Seq<char>
    decreases data.len(),
{
    if data.len() == 0 {
        Seq::empty()
    } else {
        let b = data.last();
        hex_lower(data.drop_last()).push(hex_digit((b / 16) as int)).push(hex_digit((b % 16) as int))
    }
}

/// The hex form of `data` has two characters per byte.
pub proof fn lemma_hex_lower_len(data: Seq<u8>)
    ensures
        hex_lower(data).len() == 2 * data.len(),
    decreases data.len(),
{
    if data.len() > 0 {
        lemma_hex_lower_len(data.drop_last());
    }
}

/// `sha2::Sha256::digest`: the SHA-256 digest of `data`, which is 32 bytes
/// long.
#[verifier::external_body]
fn sha256_digest(data: &[u8]) -> (digest: Vec<u8>)
    ensures
        digest@ == sha256(data@),
        digest@.len() == 32,
{
    sha2::Sha256::digest(data).to_vec()
}

/// `hex::encode`: each byte as two lower-case hexadecimal digits, high
/// nibble first.
#[verifier::external_body]
fn hex_encode(data: &[u8]) -> (text: String)
    ensures
        text@ == hex_lower(data@),
{
    hex::encode(data)
}

/// The lower-case hexadecimal SHA-256 digest of `data`.
pub fn digest_hex(data: &[u8]) -> (res: String)
    ensures
        res@ == hex_lower(sha256(data@)),
        res@.len() == 64,
{
    let digest = sha256_digest(data);
    proof {
        lemma_hex_lower_len(digest@);
    }
    hex_encode(digest.as_slice())
}

/// The lower-case hexadecimal SHA-256 digest of the UTF-8 bytes of `s`.
pub fn hash_string(s: &str) -> (res: String)
    ensures
        res@ == hex_lower(sha256(s.spec_bytes())),
        res@.len() == 64,
{
    digest_hex(s.as_bytes())
}

} // verus!
