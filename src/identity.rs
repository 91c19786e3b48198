//! Node identities: an Ed25519 key pair and an identifier derived from the
//! public key, minted by proof of work.
use vstd::prelude::*;
use crate::config::ID_LEN;
use crate::crypto::{sha256, sha256_of};
use crate::signing::SigningKey;
use crate::id::{leading_zero_bits, meets_difficulty};

verus! {

/// The identifier of the node with public key `public_key`: the first
/// `ID_LEN` bytes of its SHA-256 digest.
pub open spec fn node_id_of(public_key: Seq<u8>) -> Seq<u8> {
    sha256_of(public_key).subrange(0, ID_LEN as int)
}

/// A prefix has no more leading zero bits than the whole.
pub proof fn lemma_prefix_leading_zero_bits(s: Seq<u8>, n: int)
    requires
        0 <= n <= s.len(),
    ensures
        leading_zero_bits(s.subrange(0, n)) <= leading_zero_bits(s),
    decreases n,
{
    let p = s.subrange(0, n);
    if n > 0 {
        assert(p[0] == s[0]);
        if s[0] == 0 {
            assert(p.drop_first() =~= s.drop_first().subrange(0, n - 1));
            lemma_prefix_leading_zero_bits(s.drop_first(), n - 1);
        }
    }
}

/// The identifier of the node with public key `public_key`.
pub fn node_id_from_public_key(public_key: &[u8]) -> (r: [u8; 20])
    ensures
        r@ == node_id_of(public_key@),
        sha256_of(public_key@).len() == 32,
{
    let digest = sha256(public_key);
    let mut id: [u8; 20] = [0u8; 20];
    let mut i: usize = 0;
    while i < ID_LEN
        invariant
            i <= ID_LEN,
            digest@.len() == 32,
            id@.len() == 20,
            forall|j: int| 0 <= j < i ==> id@[j] == digest@[j],
        decreases ID_LEN - i,
    {
        id[i] = digest[i];
        i = i + 1;
    }
    assert(id@ =~= sha256_of(public_key@).subrange(0, ID_LEN as int));
    id
}

/// A node's key pair and the identifier derived from its public key.
pub struct Identity {
    pub keypair: SigningKey,
    pub public_key: Vec<u8>,
    pub id: [u8; 20],
}

impl Identity {
    /// The identity's invariant at proof-of-work difficulty `difficulty`:
    /// the identifier is derived from the 32-byte public key, and the digest
    /// of the public key, like the identifier, starts with at least
    /// `difficulty` zero bits.
    pub open spec fn wf(&self, difficulty: u32) -> bool {
        &&& self.public_key@.len() == 32
        &&& self.public_key@ == self.keypair.public_key_view()
        &&& self.id@ == node_id_of(self.public_key@)
        &&& leading_zero_bits(self.id@) >= difficulty
        &&& leading_zero_bits(sha256_of(self.public_key@)) >= difficulty
    }

    /// Makes key pairs until the identifier of one meets `difficulty`, at most
    /// `max_attempts` times; `None` when none did, or when the random source
    /// failed.
    pub fn generate(difficulty: u32, max_attempts: u64) -> (r: Option<Identity>)
        ensures
            r.is_some() ==> r.unwrap().wf(difficulty),
    {
        let mut attempts: u64 = 0;
        while attempts < max_attempts
            decreases max_attempts - attempts,
        {
            attempts = attempts + 1;
            let keypair = match SigningKey::generate() {
                Ok(k) => k,
                Err(_) => return None,
            };
            let public_key = keypair.public_key();
            let id = node_id_from_public_key(public_key.as_slice());
            if meets_difficulty(id.as_slice(), difficulty) {
                proof {
                    lemma_prefix_leading_zero_bits(sha256_of(public_key@), ID_LEN as int);
                }
                return Some(Identity { keypair, public_key, id });
            }
        }
        None
    }
}

} // verus!
