//! SHA-256, HMAC-SHA-256 and the key that a proxy secret is mixed into.

use sha2::{Digest, Sha256};
use vstd::prelude::*;

use crate::octets::{append, push_zeros, zeros};

verus! {

/// The SHA-256 digest of `data`.
pub uninterp spec fn sha256(data: Seq<u8>) -> [u8; 32];

/// `sha2::Sha256::digest`: the contract says only that the digest is a function of the data,
/// which `sha256` names.
#[verifier::external_body]
fn sha256_digest(data: &[u8]) -> (out: [u8; 32])
    ensures
        out == sha256(data@),
{
    Sha256::digest(data).into()
}

/// The block size of SHA-256 in bytes.
pub const BLOCK_SIZE: usize = 64;

/// An HMAC key brought to one block: hashed first where it is longer, then padded with zeros.
pub open spec fn hmac_key_block(key: Seq<u8>) -> Seq<u8> {
    let short = if key.len() > BLOCK_SIZE {
        sha256(key)@
    } else {
        key
    };
    short + zeros((BLOCK_SIZE - short.len()) as nat)
}

/// Every byte of `data` XORed with `pad`.
pub open spec fn xor_pad(data: Seq<u8>, pad: u8) -> Seq<u8> {
    Seq::new(data.len(), |i: int| pad ^ data[i])
}

/// HMAC-SHA-256 of `data` under `key`.
pub open spec fn hmac(key: Seq<u8>, data: Seq<u8>) -> [u8; 32] {
    let block = hmac_key_block(key);
    sha256(xor_pad(block, 0x5c) + sha256(xor_pad(block, 0x36) + data)@)
}

/// The key of one direction: a digest of the raw key and the proxy secret.
pub open spec fn proxy_key(key: Seq<u8>, secret: Seq<u8>) -> [u8; 32] {
    sha256(key + secret)
}

/// HMAC-SHA-256 of `data` under `key`.
pub fn hmac_sha256(key: &[u8], data: &[u8]) -> (mac: [u8; 32])
    ensures
        mac == hmac(key@, data@),
{
    let mut block: Vec<u8> = Vec::new();
    if key.len() > BLOCK_SIZE {
        let hashed: [u8; 32] = sha256_digest(key);
        append(&mut block, &hashed);
    } else {
        append(&mut block, key);
    }
    let padding: usize = BLOCK_SIZE - block.len();
    push_zeros(&mut block, padding);
    assert(block@ == hmac_key_block(key@));

    let mut inner: Vec<u8> = Vec::new();
    let mut outer: Vec<u8> = Vec::new();
    let mut i: usize = 0;
    while i < BLOCK_SIZE
        invariant
            i <= BLOCK_SIZE == block@.len(),
            inner@ == xor_pad(block@, 0x36).take(i as int),
            outer@ == xor_pad(block@, 0x5c).take(i as int),
        decreases BLOCK_SIZE - i,
    {
        inner.push(0x36 ^ block[i]);
        outer.push(0x5c ^ block[i]);
        i += 1;
        assert(inner@ =~= xor_pad(block@, 0x36).take(i as int));
        assert(outer@ =~= xor_pad(block@, 0x5c).take(i as int));
    }
    assert(inner@ =~= xor_pad(block@, 0x36));
    assert(outer@ =~= xor_pad(block@, 0x5c));

    append(&mut inner, data);
    let inner_digest: [u8; 32] = sha256_digest(&inner);
    append(&mut outer, &inner_digest);
    sha256_digest(&outer)
}

/// Mixes the proxy secret into the key of one direction.
pub fn fixed_proxy_key(key: [u8; 32], secret: &[u8; 16]) -> (fixed: [u8; 32])
    ensures
        fixed == proxy_key(key@, secret@),
{
    let mut input: Vec<u8> = Vec::new();
    append(&mut input, &key);
    append(&mut input, secret);
    assert(input@ =~= key@ + secret@);
    sha256_digest(&input)
}

/// A key longer than a block counts as its digest.
pub proof fn law_hmac_hashes_long_keys(key: Seq<u8>, data: Seq<u8>)
    requires
        key.len() > BLOCK_SIZE,
    ensures
        hmac(key, data) == hmac(sha256(key)@, data),
{
}

/// Zero bytes at the end of a key that still fits in a block do not change the result.
pub proof fn law_hmac_ignores_zero_padding(key: Seq<u8>, extra: nat, data: Seq<u8>)
    requires
        key.len() + extra <= BLOCK_SIZE,
    ensures
        hmac(key + zeros(extra), data) == hmac(key, data),
{
    assert(hmac_key_block(key + zeros(extra)) =~= hmac_key_block(key));
}

} // verus!
