//! A signing key: an Ed25519 key pair together with its public key.
use vstd::prelude::*;
use crate::crypto::{ed25519_verifies, to_byte_vec, Crypto, KeyError};

verus! {

/// An Ed25519 key pair and its public key. The only way to make one is
/// `SigningKey::generate` (through `from_keypair`), which reads the public
/// key off the key pair, so the two always belong together.
pub struct SigningKey {
    keypair: ring::signature::Ed25519KeyPair,
    public_key: Vec<u8>,
}

impl SigningKey {
    /// An Ed25519 public key is 32 bytes long.
    #[verifier::type_invariant]
    spec fn inv(&self) -> bool {
        self.public_key@.len() == 32
    }

    /// The public key.
    pub closed spec fn public_key_view(&self) -> Seq<u8> {
        self.public_key@
    }

    /// Relies on `ring::signature::KeyPair::public_key` of an Ed25519 key
    /// pair: the 32-byte public key of `keypair`, kept beside it.
    #[verifier::external_body]
    pub(crate) fn from_keypair(keypair: ring::signature::Ed25519KeyPair) -> (r: SigningKey)
        ensures
            r.public_key_view().len() == 32,
    {
        let public_key = ring::signature::KeyPair::public_key(&keypair).as_ref().to_vec();
        SigningKey { keypair, public_key }
    }

    /// A fresh signing key.
    pub fn generate() -> (r: Result<SigningKey, KeyError>)
        ensures
            r.is_ok() ==> r.unwrap().public_key_view().len() == 32,
    {
        match Crypto::create_keypair() {
            Ok(keypair) => Ok(Self::from_keypair(keypair)),
            Err(e) => Err(e),
        }
    }

    /// The public key.
    pub fn public_key(&self) -> (r: Vec<u8>)
        ensures
            r@ == self.public_key_view(),
            r@.len() == 32,
    {
        proof {
            use_type_invariant(self);
        }
        to_byte_vec(self.public_key.as_slice())
    }

    /// Relies on `ring::signature::Ed25519KeyPair::sign`: a 64-byte signature
    /// of `message` which verifies under the key pair's public key, as ring's
    /// documentation of its `signature` module shows.
    #[verifier::external_body]
    pub(crate) fn sign(&self, message: &[u8]) -> (r: Vec<u8>)
        ensures
            r@.len() == 64,
            ed25519_verifies(message@, r@, self.public_key_view()),
    {
        self.keypair.sign(message).as_ref().to_vec()
    }
}

} // verus!
