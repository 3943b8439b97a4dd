//! Trusted bindings to the hash and signature primitives.
//!
//! Each digest and each signature is a function of the input bytes
//! alone; the names below stand for those results, and the wrappers'
//! contracts are the only facts the rest of the library relies on.

use vstd::prelude::*;
use sha2::Digest;
use ed25519_dalek::Signer;

verus! {

/// The 32-byte SHA-256 digest of a byte sequence.
pub uninterp spec fn sha256_of(bytes: Seq<u8>) -> Seq<u8>;

/// The 64-byte SHA-512 digest of a byte sequence.
pub uninterp spec fn sha512_of(bytes: Seq<u8>) -> Seq<u8>;

/// The 32-byte Ed25519 public key derived from 32 secret-key bytes.
pub uninterp spec fn ed25519_pk_of(secret: Seq<u8>) -> Seq<u8>;

/// The 64-byte Ed25519 signature of a message under a secret key.
pub uninterp spec fn ed25519_sig_of(secret: Seq<u8>, msg: Seq<u8>) -> Seq<u8>;

/// Whether Ed25519 verification accepts the signature over the message
/// under the public key.
pub uninterp spec fn ed25519_valid(pk: Seq<u8>, msg: Seq<u8>, sig: Seq<u8>) -> bool;

/// Relies on sha2's `Sha256::digest`: the 32-byte digest depends on the
/// input bytes alone.
#[verifier::external_body]
pub(crate) fn sha256_digest(bytes: &Vec<u8>) -> (r: Vec<u8>)
    ensures
        r@ == sha256_of(bytes@),
        r@.len() == 32,
{
    sha2::Sha256::digest(bytes.as_slice()).to_vec()
}

/// Relies on sha2's `Sha512::digest`: the 64-byte digest depends on the
/// input bytes alone.
#[verifier::external_body]
pub(crate) fn sha512_digest(bytes: &Vec<u8>) -> (r: Vec<u8>)
    ensures
        r@ == sha512_of(bytes@),
        r@.len() == 64,
{
    sha2::Sha512::digest(bytes.as_slice()).to_vec()
}

/// Relies on ed25519-dalek's `SigningKey::verifying_key`: the public key
/// is derived from the 32 secret-key bytes alone.
#[verifier::external_body]
pub(crate) fn ed25519_public_key(secret: &Vec<u8>) -> (r: Vec<u8>)
    requires
        secret@.len() == 32,
    ensures
        r@ == ed25519_pk_of(secret@),
        r@.len() == 32,
{
    let mut k = [0u8; 32];
    k.copy_from_slice(secret.as_slice());
    let sk = ed25519_dalek::SigningKey::from_bytes(&k);
    sk.verifying_key().to_bytes().to_vec()
}

/// Relies on ed25519-dalek's `Signer::sign` for `SigningKey`: signing is
/// deterministic in the secret-key bytes and the message, and the
/// signature it produces verifies under the derived public key, as the
/// crate documents.
#[verifier::external_body]
pub(crate) fn ed25519_sign(secret: &Vec<u8>, msg: &Vec<u8>) -> (r: Vec<u8>)
    requires
        secret@.len() == 32,
    ensures
        r@ == ed25519_sig_of(secret@, msg@),
        r@.len() == 64,
        ed25519_valid(ed25519_pk_of(secret@), msg@, r@),
{
    let mut k = [0u8; 32];
    k.copy_from_slice(secret.as_slice());
    let sk = ed25519_dalek::SigningKey::from_bytes(&k);
    sk.sign(msg.as_slice()).to_bytes().to_vec()
}

/// Relies on ed25519-dalek's `VerifyingKey::verify_strict`: acceptance depends
/// on the public-key bytes, the message and the signature bytes alone;
/// bytes that decode to no valid public key accept nothing.
#[verifier::external_body]
pub(crate) fn ed25519_verify(pk: &Vec<u8>, msg: &Vec<u8>, sig: &Vec<u8>) -> (r: bool)
    requires
        pk@.len() == 32,
        sig@.len() == 64,
    ensures
        r == ed25519_valid(pk@, msg@, sig@),
{
    let mut kb = [0u8; 32];
    kb.copy_from_slice(pk.as_slice());
    let mut sb = [0u8; 64];
    sb.copy_from_slice(sig.as_slice());
    match ed25519_dalek::VerifyingKey::from_bytes(&kb) {
        Err(_) => false,
        Ok(vk) => vk.verify_strict(msg.as_slice(), &ed25519_dalek::Signature::from_bytes(&sb)).is_ok(),
    }
}

} // verus!
