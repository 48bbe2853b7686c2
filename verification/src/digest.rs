//! Content hashes: the lower-case hex of the SHA-256 digest of a file's
//! bytes, and the sentinel that stands in for a hash on a file that is
//! recorded without being read.

use sha2::{Digest, Sha256};
use vstd::prelude::*;
use vstd::string::*;
use vstd::utf8::encode_utf8;
use crate::text::{decimal, decimal_string, signed_decimal, signed_decimal_string};

verus! {

/// The SHA-256 digest of a sequence of bytes.
pub uninterp spec fn sha256(data: Seq<u8>) -> Seq<u8>;

/// The lower-case hex digit for a value below sixteen.
pub open spec fn hex_digit(n: int) -> char {
    seq![
        '0',
        '1',
        '2',
        '3',
        '4',
        '5',
        '6',
        '7',
        '8',
        '9',
        'a',
        'b',
        'c',
        'd',
        'e',
        'f',
    ][n]
}

/// The lower-case hex encoding: two digits for each byte, the high half
/// first.
pub open spec fn hex_of(data: Seq<u8>) -> Seq<char> {
    Seq::new(
        2 * data.len(),
        |i: int|
            if i % 2 == 0 {
                hex_digit(data[i / 2] as int / 16)
            } else {
                hex_digit(data[i / 2] as int % 16)
            },
    )
}

/// The content hash of a sequence of bytes.
pub open spec fn hash_of(data: Seq<u8>) -> Seq<char> {
    hex_of(sha256(data))
}

/// The sentinel that a file row holds in place of a hash while the file is
/// recorded at the meta level: `meta:<size>:<mtime>`.
pub open spec fn meta_sentinel(size: u64, mtime: i64) -> Seq<char> {
    "meta:"@ + decimal(size as nat) + ":"@ + signed_decimal(mtime as int)
}

/// Whether a stored hash is a sentinel and no content hash: it begins with
/// `meta:`.
pub open spec fn is_sentinel(hash: Seq<char>) -> bool {
    "meta:"@.is_prefix_of(hash)
}

/// No content hash is a sentinel: a hash is made of hex digits, and a
/// sentinel begins with the letter `m`.
pub proof fn lemma_hash_is_no_sentinel(data: Seq<u8>)
    ensures
        !is_sentinel(hash_of(data)),
{
    reveal_strlit("meta:");
    let digest = sha256(data);
    let hex = hex_of(digest);
    if digest.len() > 0 {
        let n = digest[0] as int / 16;
        assert(0 <= n < 16);
        assert(hex[0] == hex_digit(n));
        assert(hex_digit(n) != 'm');
        assert("meta:"@[0] == 'm');
        if is_sentinel(hex) {
            assert(hex[0] == "meta:"@[0]);
        }
    } else {
        assert(hex.len() == 0);
        assert("meta:"@.len() == 5);
    }
}

/// `Sha256::digest` of the sha2 crate: the SHA-256 digest of the bytes,
/// which is 32 bytes long.
#[verifier::external_body]
fn sha256_digest(data: &[u8]) -> (r: Vec<u8>)
    ensures
        r@ == sha256(data@),
        r@.len() == 32,
{
    Sha256::digest(data).to_vec()
}

/// `hex::encode` of the hex crate: each byte as two lower-case hex digits.
#[verifier::external_body]
fn hex_encode(data: &Vec<u8>) -> (r: String)
    ensures
        r@ == hex_of(data@),
{
    hex::encode(data)
}

/// The content hash of the bytes: 64 hex digits, never a sentinel.
pub fn calculate_hash(data: &[u8]) -> (r: String)
    ensures
        r@ == hash_of(data@),
        r@.len() == 64,
        !is_sentinel(r@),
{
    let digest = sha256_digest(data);
    let r = hex_encode(&digest);
    proof {
        reveal_strlit("meta:");
        assert(r@[0] == hex_digit(digest@[0] as int / 16));
        assert(r@[0] != 'm');
        if is_sentinel(r@) {
            assert(r@.subrange(0, 5)[0] == "meta:"@[0]);
        }
    }
    r
}

/// The content hash of a text: that of its UTF-8 bytes.
pub fn content_hash(text: &str) -> (r: String)
    ensures
        r@ == hash_of(encode_utf8(text@)),
        r@.len() == 64,
        !is_sentinel(r@),
{
    calculate_hash(text.as_bytes())
}

/// The sentinel for a file of the given size and modification time.
pub fn meta_hash(size: u64, mtime: i64) -> (r: String)
    ensures
        r@ == meta_sentinel(size, mtime),
        is_sentinel(r@),
{
    let mut s = String::from_str("meta:");
    let a = decimal_string(size);
    s.append(a.as_str());
    s.append(":");
    let b = signed_decimal_string(mtime);
    s.append(b.as_str());
    proof {
        assert(s@.subrange(0, "meta:"@.len() as int) =~= "meta:"@);
    }
    s
}

} // verus!
