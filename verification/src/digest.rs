//! Digests of byte strings: the SHA-1 checksum that protects log records and the
//! hash that places keys in the hash table.

use byteorder::{BigEndian, ByteOrder};
use sha1::{Digest, Sha1};
use vstd::prelude::*;
use vstd::utf8::*;

verus! {

/// Number of bytes in a SHA-1 digest.
pub const DIGEST_LEN: usize = 20;

/// The SHA-1 digest of a byte sequence, as `sha1::Sha1::digest` computes it.
pub uninterp spec fn sha1_digest(data: Seq<u8>) -> Seq<u8>;

/// The number that a byte sequence spells in big-endian order: the first byte is
/// the most significant.
pub open spec fn be_value(bytes: Seq<u8>) -> nat
    decreases bytes.len(),
{
    if bytes.len() == 0 {
        0
    } else {
        be_value(bytes.drop_last()) * 256 + bytes.last() as nat
    }
}

/// The hash of a key: the first eight bytes of the SHA-1 digest of its UTF-8
/// bytes, read as a big-endian number and cut to the machine's word.
pub open spec fn key_hash(key: Seq<char>) -> usize {
    be_value(sha1_digest(encode_utf8(key)).subrange(0, 8)) as usize
}

/// Calls `sha1::Sha1::digest` on `data`. Trusted: the result is the SHA-1 digest
/// of exactly these bytes, and it is twenty bytes long.
#[verifier::external_body]
pub(crate) fn sha1(data: &[u8]) -> (out: Vec<u8>)
    ensures
        out@ == sha1_digest(data@),
        out@.len() == DIGEST_LEN,
{
    Sha1::digest(data).to_vec()
}

/// Calls `byteorder::BigEndian::read_u64` on `buf`, which panics on fewer than
/// eight bytes. Trusted: the result is the big-endian value of the first eight
/// bytes.
#[verifier::external_body]
pub(crate) fn read_be_u64(buf: &[u8]) -> (n: u64)
    requires
        buf@.len() >= 8,
    ensures
        n as nat == be_value(buf@.subrange(0, 8)),
{
    BigEndian::read_u64(buf)
}

/// Hashes a key for the hash table.
pub fn hash_key(key: &str) -> (hash: usize)
    ensures
        hash == key_hash(key@),
{
    let digest = sha1(key.as_bytes());
    let n = read_be_u64(digest.as_slice());
    #[verifier::truncate]
    (n as usize)
}

} // verus!
