//! SHA-256 digests and signatures, and their hexadecimal form.
use crate::pmtiles::header::{le64, le64_of};
use hmac::{Hmac, Mac};
use sha2::{Digest, Sha256};
use vstd::prelude::*;

verus! {

/// The SHA-256 digest of some data, as the `sha2` crate computes it.
pub uninterp spec fn sha256_of(data: Seq<u8>) -> Seq<u8>;

/// `sha2::Sha256` over the whole of the data: 32 bytes that depend on the data
/// alone.
#[verifier::external_body]
pub(crate) fn sha256(data: &[u8]) -> (hash: [u8; 32])
    ensures
        hash@ == sha256_of(data@),
{
    let mut hasher = Sha256::new();
    hasher.update(data);
    hasher.finalize().into()
}

/// The first eight bytes of a digest as a number, by which digests are found
/// quickly.
pub open spec fn digest_key(hash: Seq<u8>) -> u64 {
    le64(hash, 0) as u64
}

/// The first eight bytes of a digest as a number.
pub fn key_of_digest(hash: &[u8; 32]) -> (key: u64)
    ensures
        key == digest_key(hash@),
{
    le64_of(hash.as_slice(), 0)
}

/// Whether two digests are the same.
pub fn same_digest(a: &[u8; 32], b: &[u8; 32]) -> (same: bool)
    ensures
        same == (a@ == b@),
{
    for i in 0..32
        invariant
            forall|k: int| 0 <= k < i ==> a@[k] == b@[k],
    {
        let i: usize = i;
        if a[i] != b[i] {
            return false;
        }
    }
    assert(a@ =~= b@);
    true
}

/// The HMAC-SHA-256 of a message under a key, as the `hmac` crate computes it.
pub uninterp spec fn hmac_sha256_of(key: Seq<u8>, message: Seq<u8>) -> Seq<u8>;

/// `hmac::Hmac` over SHA-256, which takes a key of any length: 32 bytes that
/// depend on the key and the message alone.
#[verifier::external_body]
pub(crate) fn hmac_sha256(key: &[u8], message: &[u8]) -> (code: [u8; 32])
    ensures
        code@ == hmac_sha256_of(key@, message@),
{
    let mut mac = <Hmac<Sha256> as Mac>::new_from_slice(key).expect("any key length is accepted");
    mac.update(message);
    mac.finalize().into_bytes().into()
}

/// A hexadecimal digit, in lower case.
pub open spec fn hex_digit(d: int) -> char {
    if d < 10 {
        ((48 + d) as u8) as char
    } else {
        ((87 + d) as u8) as char
    }
}

/// Bytes in hexadecimal: two digits each, the high one first.
pub open spec fn hex_of(bytes: Seq<u8>) -> Seq<char> {
    Seq::new(
        2 * bytes.len(),
        |i: int|
            if i % 2 == 0 {
                hex_digit(bytes[i / 2] as int / 16)
            } else {
                hex_digit(bytes[i / 2] as int % 16)
            },
    )
}

/// `hex::encode`: two lower case digits for each byte.
#[verifier::external_body]
pub(crate) fn hex_encode(bytes: &[u8]) -> (text: String)
    ensures
        text@ == hex_of(bytes@),
{
    hex::encode(bytes)
}

/// The number that a hexadecimal digit stands for.
pub open spec fn hex_value(c: char) -> int {
    if '0' <= c <= '9' {
        c as int - '0' as int
    } else {
        c as int - 'a' as int + 10
    }
}

/// Hexadecimal text has two digits for each byte, the high one first, all of them
/// in lower case, so that the bytes can be read back from it.
pub proof fn lemma_hex_spells_the_bytes(bytes: Seq<u8>, i: int)
    requires
        0 <= i < bytes.len(),
    ensures
        hex_of(bytes).len() == 2 * bytes.len(),
        16 * hex_value(hex_of(bytes)[2 * i]) + hex_value(hex_of(bytes)[2 * i + 1]) == bytes[i],
        '0' <= hex_of(bytes)[2 * i] <= '9' || 'a' <= hex_of(bytes)[2 * i] <= 'f',
        '0' <= hex_of(bytes)[2 * i + 1] <= '9' || 'a' <= hex_of(bytes)[2 * i + 1] <= 'f',
{
    assert((2 * i) / 2 == i && (2 * i) % 2 == 0);
    assert((2 * i + 1) / 2 == i && (2 * i + 1) % 2 == 1);
    lemma_hex_digit(bytes[i] as int / 16);
    lemma_hex_digit(bytes[i] as int % 16);
}

proof fn lemma_hex_digit(d: int)
    requires
        0 <= d < 16,
    ensures
        hex_value(hex_digit(d)) == d,
        '0' <= hex_digit(d) <= '9' || 'a' <= hex_digit(d) <= 'f',
{
}

} // verus!
