//! The ciphers that protect the first packets of a QUIC connection: HKDF with
//! SHA-256, AES-128 and AES-128-GCM.

use aes::cipher::{Block, BlockCipherEncrypt, KeyInit};
use aes::Aes128;
use aes_gcm::aead::{Aead, Payload};
use aes_gcm::{Aes128Gcm, Nonce};
use hkdf::Hkdf;
use sha2::Sha256;
use vstd::prelude::*;

verus! {

/// The pseudorandom key that HKDF-Extract with SHA-256 makes of a salt and
/// input key material.
pub uninterp spec fn hkdf_prk(salt: Seq<u8>, ikm: Seq<u8>) -> Seq<u8>;

/// `Hkdf::<Sha256>::extract`: the pseudorandom key, as long as a SHA-256 digest.
#[verifier::external_body]
pub(crate) fn hkdf_extract(salt: &[u8], ikm: &[u8]) -> (r: Vec<u8>)
    ensures
        r@ == hkdf_prk(salt@, ikm@),
        r@.len() == 32,
{
    let (prk, _) = Hkdf::<Sha256>::extract(Some(salt), ikm);
    prk.to_vec()
}

/// The output key material that HKDF-Expand with SHA-256 makes.
pub uninterp spec fn hkdf_okm(prk: Seq<u8>, info: Seq<u8>, len: nat) -> Seq<u8>;

/// `Hkdf::<Sha256>::from_prk` and `expand`: `len` bytes of key material. It is
/// refused exactly when the key is shorter than a digest or more than 255
/// digests are asked for.
#[verifier::external_body]
pub(crate) fn hkdf_expand(prk: &[u8], info: &[u8], len: u16) -> (r: Option<Vec<u8>>)
    ensures
        r is Some <==> (prk@.len() >= 32 && len <= 8160),
        r matches Some(okm) ==> okm@ == hkdf_okm(prk@, info@, len as nat) && okm@.len() == len,
{
    let mut okm = vec![0u8; usize::from(len)];
    Hkdf::<Sha256>::from_prk(prk).ok()?.expand(info, &mut okm).ok()?;
    Some(okm)
}

/// The block that AES-128 makes of a block under a key.
pub uninterp spec fn aes128_block(key: Seq<u8>, block: Seq<u8>) -> Seq<u8>;

/// `Aes128::encrypt_block`: one block of 16 bytes.
#[verifier::external_body]
pub(crate) fn aes128_encrypt(key: &[u8; 16], block: &[u8; 16]) -> (r: [u8; 16])
    ensures
        r@ == aes128_block(key@, block@),
{
    let mut out = Block::<Aes128>::from(*block);
    Aes128::new(&(*key).into()).encrypt_block(&mut out);
    out.into()
}

/// The plaintext that AES-128-GCM finds in a sealed message, or `None` when the
/// message does not authenticate.
pub uninterp spec fn aes128_gcm_plaintext(
    key: Seq<u8>,
    nonce: Seq<u8>,
    aad: Seq<u8>,
    sealed: Seq<u8>,
) -> Option<Seq<u8>>;

pub open spec fn opt_bytes(o: Option<Vec<u8>>) -> Option<Seq<u8>> {
    match o {
        Some(v) => Some(v@),
        None => None,
    }
}

/// `Aes128Gcm::decrypt`: the plaintext, shorter than the message by the 16
/// bytes of the tag, when the tag is right for the key, the nonce and the
/// associated data.
#[verifier::external_body]
pub(crate) fn aes128_gcm_open(key: &[u8; 16], nonce: &[u8; 12], aad: &[u8], sealed: &[u8]) -> (r:
    Option<Vec<u8>>)
    ensures
        opt_bytes(r) == aes128_gcm_plaintext(key@, nonce@, aad@, sealed@),
        r matches Some(v) ==> v@.len() + 16 == sealed@.len(),
{
    let cipher = Aes128Gcm::new(&(*key).into());
    cipher.decrypt(&Nonce::from(*nonce), Payload { msg: sealed, aad }).ok()
}

} // verus!
