//! Hash functions, the block cipher and the random source that the library
//! draws on. Each function here makes exactly one outside call; what it
//! returns is either named (for the hash functions and the cipher, which are
//! functions of their inputs alone) or left unconstrained (for randomness).
use vstd::prelude::*;
use aes::cipher::generic_array::GenericArray;
use aes::cipher::{BlockEncrypt, KeyInit};
use rand::Rng;
use sha3::Digest;

verus! {

/// The SHA3-256 digest of a byte string.
pub uninterp spec fn sha3_256_digest(data: Seq<u8>) -> Seq<u8>;

/// The Keccak-256 digest of a byte string (the pre-standard padding variant).
pub uninterp spec fn keccak256_digest(data: Seq<u8>) -> Seq<u8>;

/// The BLAKE3 digest (32-byte default output) of a byte string.
pub uninterp spec fn blake3_digest(data: Seq<u8>) -> Seq<u8>;

/// AES-128 encryption of one 16-byte block under a 16-byte key.
pub uninterp spec fn aes128_encrypt_block(key: Seq<u8>, block: Seq<u8>) -> Seq<u8>;

/// Computes `sha3::Sha3_256::digest(data)`. Claimed: the 32 bytes returned are
/// the SHA3-256 digest of exactly the bytes of `data`.
#[verifier::external_body]
pub(crate) fn sha3_256(data: &[u8]) -> (res: [u8; 32])
    ensures
        res@ == sha3_256_digest(data@),
{
    sha3::Sha3_256::digest(data).into()
}

/// Computes `sha3::Keccak256::digest(data)`. Claimed: the 32 bytes returned are
/// the Keccak-256 digest of exactly the bytes of `data`.
#[verifier::external_body]
pub(crate) fn keccak256(data: &[u8]) -> (res: [u8; 32])
    ensures
        res@ == keccak256_digest(data@),
{
    sha3::Keccak256::digest(data).into()
}

/// Computes `blake3::hash(data)`. Claimed: the 32 bytes returned are the
/// BLAKE3 digest of exactly the bytes of `data`.
#[verifier::external_body]
pub(crate) fn blake3_hash(data: &[u8]) -> (res: [u8; 32])
    ensures
        res@ == blake3_digest(data@),
{
    *blake3::hash(data).as_bytes()
}

/// Encrypts one block with `aes::Aes128` keyed by `key` (through
/// `KeyInit::new` and `BlockEncrypt::encrypt_block`). Claimed: the result is
/// the AES-128 encryption of `block` under `key`.
#[verifier::external_body]
pub(crate) fn aes128_encrypt(key: &[u8; 16], block: &[u8; 16]) -> (res: [u8; 16])
    ensures
        res@ == aes128_encrypt_block(key@, block@),
{
    let cipher = aes::Aes128::new(GenericArray::from_slice(key));
    let mut b = GenericArray::clone_from_slice(block);
    cipher.encrypt_block(&mut b);
    b.into()
}

/// Fills 16 bytes from `rand::thread_rng()` with `Rng::fill`. Nothing is
/// claimed of the bytes: they are random.
#[verifier::external_body]
pub(crate) fn random_block() -> (res: [u8; 16]) {
    let mut b = [0u8; 16];
    rand::thread_rng().fill(&mut b);
    b
}

} // verus!
