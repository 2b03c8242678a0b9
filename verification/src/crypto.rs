//! Trusted interface to the AEAD primitive and the process CSPRNG.
//!
//! Sealing is ChaCha20-Poly1305 (RFC 8439): the ciphertext is the encrypted
//! plaintext followed by a 16-octet authentication tag computed over the
//! ciphertext and the associated data. The 24-octet-nonce variant
//! (XChaCha20-Poly1305) seals the connect token, whose nonce travels on the
//! wire.

use vstd::prelude::*;
use chacha20poly1305::{ChaCha20Poly1305, XChaCha20Poly1305, Key, Nonce, XNonce};
use chacha20poly1305::aead::{Aead, KeyInit, Payload};
use rand::Rng;

verus! {

/// A sealing or opening failure of the AEAD primitive.
#[derive(Debug, Clone, Copy, PartialEq, Eq, Structural)]
pub struct CryptoError;

/// What ChaCha20-Poly1305 sealing returns: a function of key, nonce,
/// associated data and plaintext alone.
pub uninterp spec fn sealed(key: Seq<u8>, nonce: Seq<u8>, aad: Seq<u8>, pt: Seq<u8>) -> Seq<u8>;

/// What XChaCha20-Poly1305 sealing returns: a function of key, nonce,
/// associated data and plaintext alone.
pub uninterp spec fn xsealed(key: Seq<u8>, nonce: Seq<u8>, aad: Seq<u8>, pt: Seq<u8>) -> Seq<u8>;

/// Relies on chacha20poly1305::ChaCha20Poly1305::encrypt: deterministic in
/// key, nonce, associated data and plaintext; the result is the ciphertext
/// with a 16-octet tag appended. Sealing fails only when the plaintext
/// reaches (2^32 - 1) 64-octet cipher blocks.
#[verifier::external_body]
pub(crate) fn chacha_seal(key: &[u8], nonce: &[u8], aad: &[u8], pt: &[u8]) -> (r: Result<
    Vec<u8>,
    CryptoError,
>)
    requires
        key@.len() == 32,
        nonce@.len() == 12,
    ensures
        pt@.len() < 0x3FFFFFFFC0 ==> r is Ok,
        r is Ok ==> r.unwrap()@ == sealed(key@, nonce@, aad@, pt@) && r.unwrap()@.len() == pt@.len()
            + 16,
{
    let cipher = ChaCha20Poly1305::new(Key::from_slice(key));
    match cipher.encrypt(Nonce::from_slice(nonce), Payload { msg: pt, aad }) {
        Ok(v) => Ok(v),
        Err(_) => Err(CryptoError),
    }
}

/// Relies on chacha20poly1305::ChaCha20Poly1305::decrypt: opening a sealed
/// ciphertext under the same key, nonce and associated data returns the
/// sealed plaintext, which is 16 octets shorter than the ciphertext; opening
/// succeeds only on a ciphertext sealing produces, since the tag must
/// authenticate.
#[verifier::external_body]
pub(crate) fn chacha_open(key: &[u8], nonce: &[u8], aad: &[u8], ct: &[u8]) -> (r: Result<
    Vec<u8>,
    CryptoError,
>)
    requires
        key@.len() == 32,
        nonce@.len() == 12,
    ensures
        forall|pt: Seq<u8>|
            ct@ == sealed(key@, nonce@, aad@, pt) ==> r is Ok && r.unwrap()@ == pt,
        r is Ok ==> ct@ == sealed(key@, nonce@, aad@, r.unwrap()@),
        r is Ok ==> r.unwrap()@.len() + 16 == ct@.len(),
{
    let cipher = ChaCha20Poly1305::new(Key::from_slice(key));
    match cipher.decrypt(Nonce::from_slice(nonce), Payload { msg: ct, aad }) {
        Ok(v) => Ok(v),
        Err(_) => Err(CryptoError),
    }
}

/// Relies on chacha20poly1305::XChaCha20Poly1305::encrypt, as `chacha_seal`
/// but with the 24-octet extended nonce; the same block bound governs
/// success.
#[verifier::external_body]
pub(crate) fn xchacha_seal(key: &[u8], nonce: &[u8], aad: &[u8], pt: &[u8]) -> (r: Result<
    Vec<u8>,
    CryptoError,
>)
    requires
        key@.len() == 32,
        nonce@.len() == 24,
    ensures
        pt@.len() < 0x3FFFFFFFC0 ==> r is Ok,
        r is Ok ==> r.unwrap()@ == xsealed(key@, nonce@, aad@, pt@) && r.unwrap()@.len()
            == pt@.len() + 16,
{
    let cipher = XChaCha20Poly1305::new(Key::from_slice(key));
    match cipher.encrypt(XNonce::from_slice(nonce), Payload { msg: pt, aad }) {
        Ok(v) => Ok(v),
        Err(_) => Err(CryptoError),
    }
}

/// Relies on chacha20poly1305::XChaCha20Poly1305::decrypt, as `chacha_open`
/// but with the 24-octet extended nonce.
#[verifier::external_body]
pub(crate) fn xchacha_open(key: &[u8], nonce: &[u8], aad: &[u8], ct: &[u8]) -> (r: Result<
    Vec<u8>,
    CryptoError,
>)
    requires
        key@.len() == 32,
        nonce@.len() == 24,
    ensures
        forall|pt: Seq<u8>|
            ct@ == xsealed(key@, nonce@, aad@, pt) ==> r is Ok && r.unwrap()@ == pt,
        r is Ok ==> ct@ == xsealed(key@, nonce@, aad@, r.unwrap()@),
        r is Ok ==> r.unwrap()@.len() + 16 == ct@.len(),
{
    let cipher = XChaCha20Poly1305::new(Key::from_slice(key));
    match cipher.decrypt(XNonce::from_slice(nonce), Payload { msg: ct, aad }) {
        Ok(v) => Ok(v),
        Err(_) => Err(CryptoError),
    }
}

/// Relies on rand::thread_rng and rand::Rng::fill: fresh random octets.
/// Nothing is promised of the value.
#[verifier::external_body]
pub(crate) fn generate_random_bytes() -> (r: [u8; 32]) {
    let mut arr = [0u8; 32];
    rand::thread_rng().fill(arr.as_mut_slice());
    arr
}

} // verus!
