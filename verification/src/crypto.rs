//! Ed25519 identities: signing keys, public keys and signatures.
//!
//! The curve arithmetic is `ed25519-dalek`'s. Three functions below call it; what
//! they return is named here and the rest of the library speaks of those names.

use ed25519_dalek::{Signature, Signer, SigningKey, Verifier, VerifyingKey};
use vstd::prelude::*;

use crate::bytes;
use crate::{PubKey, Sig};

verus! {

/// The public key bytes that `SigningKey::from_bytes(seed).verifying_key()` has.
pub uninterp spec fn ed25519_public(seed: Seq<u8>) -> Seq<u8>;

/// The signature bytes that `SigningKey::from_bytes(seed).sign(msg)` gives.
pub uninterp spec fn ed25519_sign(seed: Seq<u8>, msg: Seq<u8>) -> Seq<u8>;

/// Whether `key` decodes to a public key under which `Verifier::verify` accepts
/// `sig` on `msg`.
pub uninterp spec fn ed25519_verify(key: Seq<u8>, msg: Seq<u8>, sig: Seq<u8>) -> bool;

/// Trusted: the public key of a seed, by `SigningKey::from_bytes`,
/// `SigningKey::verifying_key` and `VerifyingKey::to_bytes`. The key is a function
/// of the seed alone.
#[verifier::external_body]
fn derive_public(seed: &[u8; 32]) -> (r: PubKey)
    ensures
        r@ == ed25519_public(seed@),
{
    SigningKey::from_bytes(seed).verifying_key().to_bytes()
}

/// Trusted: the signature of a message, by `SigningKey::from_bytes` and
/// `Signer::sign`. Signing is deterministic, so the signature is a function of the
/// seed and the message; and it verifies under the public key of that seed.
#[verifier::external_body]
fn sign_bytes(seed: &[u8; 32], msg: &[u8]) -> (r: Sig)
    ensures
        r@ == ed25519_sign(seed@, msg@),
        ed25519_verify(ed25519_public(seed@), msg@, r@),
{
    SigningKey::from_bytes(seed).sign(msg).to_bytes()
}

/// Trusted: whether a signature verifies, by `VerifyingKey::from_bytes` and
/// `Verifier::verify`. Bytes that are no public key verify nothing. The answer is a
/// function of the key, the message and the signature. That nobody without the
/// signing key can make a signature that verifies is not claimed.
#[verifier::external_body]
fn verify_bytes(key: &[u8; 32], msg: &[u8], sig: &[u8; 64]) -> (r: bool)
    ensures
        r == ed25519_verify(key@, msg@, sig@),
{
    match VerifyingKey::from_bytes(key) {
        Ok(k) => k.verify(msg, &Signature::from_bytes(sig)).is_ok(),
        Err(_) => false,
    }
}

/// A signing key, held as its 32-byte seed.
pub struct Keypair {
    seed: [u8; 32],
}

impl View for Keypair {
    type V = Seq<u8>;

    closed spec fn view(&self) -> Seq<u8> {
        self.seed@
    }
}

/// The public key of the signing key with the given seed.
pub open spec fn public_key(seed: Seq<u8>) -> PubKey {
    bytes::arr(ed25519_public(seed))
}

/// The signature on `msg` by the signing key with the given seed.
pub open spec fn signature(seed: Seq<u8>, msg: Seq<u8>) -> Sig {
    bytes::arr(ed25519_sign(seed, msg))
}

/// Whether `sig` is a valid signature on `msg` under `key`.
pub open spec fn authentic(key: PubKey, msg: Seq<u8>, sig: Sig) -> bool {
    ed25519_verify(key@, msg, sig@)
}

impl Keypair {
    /// The signing key with the given seed.
    pub fn from_seed(seed: [u8; 32]) -> (r: Keypair)
        ensures
            r@ == seed@,
    {
        Keypair { seed }
    }

    /// The public half of this key.
    pub fn public(&self) -> (r: PubKey)
        ensures
            r == public_key(self@),
            r@ == ed25519_public(self@),
    {
        let r = derive_public(&self.seed);
        proof {
            bytes::lemma_arr_view(r);
        }
        r
    }

    /// Signs a message. The signature verifies under the public half of this key.
    pub fn sign(&self, msg: &[u8]) -> (r: Sig)
        ensures
            r == signature(self@, msg@),
            ed25519_verify(ed25519_public(self@), msg@, r@),
    {
        let r = sign_bytes(&self.seed, msg);
        proof {
            bytes::lemma_arr_view(r);
        }
        r
    }
}

/// Whether `sig` is a valid signature on `msg` under `key`.
pub fn verify(key: &PubKey, msg: &[u8], sig: &Sig) -> (r: bool)
    ensures
        r == authentic(*key, msg@, *sig),
{
    verify_bytes(key, msg, sig)
}

} // verus!
