//! Signatures, digests and the guard of inbound requests:
//! timestamp freshness, signature validity and per-peer nonce replay checks.
use vstd::prelude::*;
use crate::config::{NONCE_INTERVAL, REPLAY_WINDOW};
use crate::signing::SigningKey;

verus! {

#[verifier::external_type_specification]
#[verifier::external_body]
pub struct ExEd25519KeyPair(ring::signature::Ed25519KeyPair);

/// The SHA-256 digest of `data`.
pub uninterp spec fn sha256_of(data: Seq<u8>) -> Seq<u8>;

/// Whether `sig` is a valid Ed25519 signature of `msg` under the public key `pk`.
pub uninterp spec fn ed25519_verifies(msg: Seq<u8>, sig: Seq<u8>, pk: Seq<u8>) -> bool;

/// Relies on `ring::digest::digest` with `SHA256`: the digest of `data`,
/// 32 bytes long.
#[verifier::external_body]
pub(crate) fn sha256(data: &[u8]) -> (r: Vec<u8>)
    ensures
        r@ == sha256_of(data@),
        r@.len() == 32,
{
    ring::digest::digest(&ring::digest::SHA256, data).as_ref().to_vec()
}

/// Relies on `ring::signature::UnparsedPublicKey::verify` with `ED25519`:
/// whether `signature` is a valid signature of `message` under `public_key`.
#[verifier::external_body]
pub(crate) fn signature_verifies(message: &[u8], signature: &[u8], public_key: &[u8]) -> (r: bool)
    ensures
        r == ed25519_verifies(message@, signature@, public_key@),
{
    ring::signature::UnparsedPublicKey::new(&ring::signature::ED25519, public_key).verify(
        message,
        signature,
    ).is_ok()
}

/// Relies on `ring::signature::Ed25519KeyPair::generate_pkcs8` with a
/// `ring::rand::SystemRandom`: a fresh key pair as a PKCS#8 document, or
/// `None` when the system's random source fails.
#[verifier::external_body]
pub(crate) fn generate_pkcs8() -> (r: Option<Vec<u8>>) {
    let rng = ring::rand::SystemRandom::new();
    ring::signature::Ed25519KeyPair::generate_pkcs8(&rng).ok().map(|d| d.as_ref().to_vec())
}

/// Relies on `ring::signature::Ed25519KeyPair::from_pkcs8`: the key pair
/// that a PKCS#8 v2 document holds, or `None` when it is rejected.
#[verifier::external_body]
pub(crate) fn keypair_from_pkcs8(document: &[u8]) -> (r: Option<ring::signature::Ed25519KeyPair>) {
    ring::signature::Ed25519KeyPair::from_pkcs8(document).ok()
}

/// Relies on `std::time::SystemTime::now`: the seconds since the Unix epoch,
/// or 0 when the clock stands before it.
#[verifier::external_body]
pub(crate) fn unix_now() -> (r: i64) {
    match std::time::SystemTime::now().duration_since(std::time::UNIX_EPOCH) {
        Ok(d) => d.as_secs() as i64,
        Err(_) => 0,
    }
}

/// What can go wrong when a key pair is made.
#[derive(Debug, PartialEq, Eq, Structural)]
pub enum KeyError {
    /// The system's random source failed.
    Generation,
    /// The generated document was rejected.
    Parsing,
}

/// A timestamp is fresh at `now` when it is at most `REPLAY_WINDOW` seconds
/// away from it, in either direction.
pub open spec fn timestamp_fresh(now: i64, timestamp: i64) -> bool {
    -(REPLAY_WINDOW as int) <= now as int - timestamp as int <= REPLAY_WINDOW as int
}

/// A nonce is accepted from a peer whose last accepted nonce is `last`:
/// always on first contact, and otherwise when it differs from the last one
/// by at least 1 and at most `NONCE_INTERVAL`.
pub open spec fn nonce_acceptable(last: Option<i64>, nonce: i64) -> bool {
    match last {
        None => true,
        Some(l) => nonce != l && -(NONCE_INTERVAL as int) <= nonce as int - l as int
            <= NONCE_INTERVAL as int,
    }
}

/// The last accepted nonce of `peer` in a ledger, if any.
pub open spec fn ledger_get(ledger: Map<Seq<u8>, i64>, peer: Seq<u8>) -> Option<i64> {
    if ledger.contains_key(peer) {
        Some(ledger[peer])
    } else {
        None
    }
}

/// One peer's last accepted nonce.
#[derive(Debug)]
pub struct NonceEntry {
    pub peer: Vec<u8>,
    pub nonce: i64,
}

/// The last nonce of `peer` among `s`, the later entry winning.
pub open spec fn lookup_nonce(s: Seq<NonceEntry>, peer: Seq<u8>) -> Option<i64>
    decreases s.len(),
{
    if s.len() == 0 {
        None
    } else if s.last().peer@ == peer {
        Some(s.last().nonce)
    } else {
        lookup_nonce(s.drop_last(), peer)
    }
}

/// The position of the last entry of `peer` among `s`, or -1.
pub open spec fn nonce_index(s: Seq<NonceEntry>, peer: Seq<u8>) -> int
    decreases s.len(),
{
    if s.len() == 0 {
        -1
    } else if s.last().peer@ == peer {
        s.len() - 1
    } else {
        nonce_index(s.drop_last(), peer)
    }
}

proof fn lemma_nonce_index(s: Seq<NonceEntry>, peer: Seq<u8>)
    ensures
        -1 <= nonce_index(s, peer) < s.len(),
        nonce_index(s, peer) >= 0 ==> s[nonce_index(s, peer)].peer@ == peer,
        nonce_index(s, peer) >= 0 ==> lookup_nonce(s, peer) == Some(s[nonce_index(s, peer)].nonce),
        nonce_index(s, peer) < 0 ==> lookup_nonce(s, peer).is_none(),
    decreases s.len(),
{
    if s.len() > 0 {
        lemma_nonce_index(s.drop_last(), peer);
    }
}

proof fn lemma_lookup_update(s: Seq<NonceEntry>, peer: Seq<u8>, e: NonceEntry, k: Seq<u8>)
    requires
        nonce_index(s, peer) >= 0,
        e.peer@ == peer,
    ensures
        lookup_nonce(s.update(nonce_index(s, peer), e), k) == if k == peer {
            Some(e.nonce)
        } else {
            lookup_nonce(s, k)
        },
    decreases s.len(),
{
    lemma_nonce_index(s, peer);
    let i = nonce_index(s, peer);
    let t = s.update(i, e);
    if i == s.len() - 1 {
        assert(t.drop_last() =~= s.drop_last());
    } else {
        assert(t.drop_last() =~= s.drop_last().update(i, e));
        lemma_lookup_update(s.drop_last(), peer, e, k);
    }
}

/// Whether two byte strings are equal.
pub fn same_bytes(a: &[u8], b: &[u8]) -> (r: bool)
    ensures
        r == (a@ == b@),
{
    if a.len() != b.len() {
        return false;
    }
    let mut i: usize = 0;
    while i < a.len()
        invariant
            i <= a@.len(),
            a@.len() == b@.len(),
            forall|j: int| 0 <= j < i ==> a@[j] == b@[j],
        decreases a.len() - i,
    {
        if a[i] != b[i] {
            return false;
        }
        i = i + 1;
    }
    assert(a@ =~= b@);
    true
}

/// Copies a byte string into a vector.
pub fn to_byte_vec(s: &[u8]) -> (r: Vec<u8>)
    ensures
        r@ == s@,
{
    let mut r: Vec<u8> = Vec::with_capacity(s.len());
    let mut i: usize = 0;
    while i < s.len()
        invariant
            i <= s@.len(),
            r@ == s@.subrange(0, i as int),
        decreases s.len() - i,
    {
        r.push(s[i]);
        i = i + 1;
        assert(r@ =~= s@.subrange(0, i as int));
    }
    assert(s@.subrange(0, i as int) =~= s@);
    r
}

/// Whether a timestamp is fresh at `now` (see `timestamp_fresh`).
pub fn is_fresh(now: i64, timestamp: i64) -> (r: bool)
    ensures
        r == timestamp_fresh(now, timestamp),
{
    let diff: i128 = now as i128 - timestamp as i128;
    -(REPLAY_WINDOW as i128) <= diff && diff <= REPLAY_WINDOW as i128
}

/// Whether a nonce is accepted after `last` (see `nonce_acceptable`).
pub fn nonce_in_window(last: Option<i64>, nonce: i64) -> (r: bool)
    ensures
        r == nonce_acceptable(last, nonce),
{
    match last {
        None => true,
        Some(l) => {
            let diff: i128 = nonce as i128 - l as i128;
            diff != 0 && -(NONCE_INTERVAL as i128) <= diff && diff <= NONCE_INTERVAL as i128
        },
    }
}

/// The last nonce of each peer: a map from peer identifier to nonce.
#[derive(Debug)]
pub struct NonceLedger {
    entries: Vec<NonceEntry>,
}

impl NonceLedger {
    /// The nonce of each peer recorded.
    pub closed spec fn view(&self) -> Map<Seq<u8>, i64> {
        Map::new(
            |k: Seq<u8>| lookup_nonce(self.entries@, k).is_some(),
            |k: Seq<u8>| lookup_nonce(self.entries@, k).unwrap(),
        )
    }

    /// An empty ledger.
    pub fn new() -> (r: Self)
        ensures
            r.view() == Map::<Seq<u8>, i64>::empty(),
    {
        let r = NonceLedger { entries: Vec::new() };
        assert(r.view() =~= Map::<Seq<u8>, i64>::empty());
        r
    }

    /// The nonce recorded for `id`, if any.
    pub fn get(&self, id: &[u8]) -> (r: Option<i64>)
        ensures
            r == ledger_get(self.view(), id@),
    {
        proof {
            lemma_nonce_index(self.entries@, id@);
        }
        match self.position(id) {
            Some(i) => Some(self.entries[i].nonce),
            None => None,
        }
    }

    fn position(&self, id: &[u8]) -> (r: Option<usize>)
        ensures
            nonce_index(self.entries@, id@) < 0 ==> r.is_none(),
            nonce_index(self.entries@, id@) >= 0 ==> r.is_some(),
            r.is_some() ==> r.unwrap() as int == nonce_index(self.entries@, id@),
            r.is_some() ==> r.unwrap() < self.entries@.len(),
    {
        proof {
            lemma_nonce_index(self.entries@, id@);
        }
        let mut i: usize = self.entries.len();
        assert(self.entries@.subrange(0, i as int) =~= self.entries@);
        while i > 0
            invariant
                i <= self.entries@.len(),
                nonce_index(self.entries@, id@) == nonce_index(self.entries@.subrange(0, i as int), id@),
            decreases i,
        {
            let ghost p = self.entries@.subrange(0, i as int);
            assert(p.drop_last() =~= self.entries@.subrange(0, i - 1));
            assert(p.last() == self.entries@[i - 1]);
            if same_bytes(self.entries[i - 1].peer.as_slice(), id) {
                return Some(i - 1);
            }
            i = i - 1;
        }
        None
    }

    /// Records `nonce` for `id`.
    pub fn set(&mut self, id: &[u8], nonce: i64)
        ensures
            final(self).view() == old(self).view().insert(id@, nonce),
    {
        proof {
            lemma_nonce_index(self.entries@, id@);
        }
        match self.position(id) {
            Some(i) => {
                let entry = NonceEntry { peer: to_byte_vec(id), nonce };
                proof {
                    assert forall|k: Seq<u8>| #[trigger] lookup_nonce(old(self).entries@.update(i as int, entry), k)
                        == if k == id@ {
                        Some(nonce)
                    } else {
                        lookup_nonce(old(self).entries@, k)
                    } by {
                        lemma_lookup_update(old(self).entries@, id@, entry, k);
                    }
                }
                self.entries.set(i, entry);
            },
            None => {
                self.entries.push(NonceEntry { peer: to_byte_vec(id), nonce });
                assert(self.entries@.drop_last() == old(self).entries@);
            },
        }
        assert(self.view() =~= old(self).view().insert(id@, nonce));
    }
}

/// The guard of inbound requests, with the ledger of the last
/// nonce accepted from each peer.
#[derive(Debug)]
pub struct Crypto {
    receiver_nonces: NonceLedger,
}

impl Crypto {
    /// The nonce ledger: the last accepted nonce of each peer seen.
    pub closed spec fn view(&self) -> Map<Seq<u8>, i64> {
        self.receiver_nonces.view()
    }

    /// A guard that has seen no peer.
    pub fn new() -> (r: Self)
        ensures
            r.view() == Map::<Seq<u8>, i64>::empty(),
    {
        Crypto { receiver_nonces: NonceLedger::new() }
    }

    /// The last accepted nonce of `id`, if any.
    pub fn last_nonce(&self, id: &[u8]) -> (r: Option<i64>)
        ensures
            r == ledger_get(self.view(), id@),
    {
        self.receiver_nonces.get(id)
    }

    /// Accepts `nonce` from the peer `id` when it fits the peer's last
    /// accepted nonce (see `nonce_acceptable`), and then records it.
    pub fn validate_and_update_nonce(&mut self, id: &[u8], nonce: i64) -> (r: bool)
        ensures
            r == nonce_acceptable(ledger_get(old(self).view(), id@), nonce),
            r ==> final(self).view() == old(self).view().insert(id@, nonce),
            !r ==> final(self).view() == old(self).view(),
    {
        let last = self.last_nonce(id);
        if !nonce_in_window(last, nonce) {
            return false;
        }
        self.receiver_nonces.set(id, nonce);
        true
    }

    /// Whether `timestamp` is fresh by the system clock.
    pub fn validate_message_timestamp(&self, timestamp: i64) -> (r: bool) {
        is_fresh(unix_now(), timestamp)
    }

    /// Whether `signature` is a valid signature of `message` under `public_key`.
    pub fn validate_message_authenticity(&self, message: &[u8], signature: &[u8], public_key: &[u8]) -> (r:
        bool)
        ensures
            r == ed25519_verifies(message@, signature@, public_key@),
    {
        Self::validate_message(message, signature, public_key)
    }

    /// The guard at the time `now`: the timestamp is fresh, the signature valid
    /// and the nonce acceptable; the nonce is recorded only when all three hold.
    pub fn validate_request_at(
        &mut self,
        now: i64,
        timestamp: i64,
        nonce: i64,
        id: &[u8],
        message: &[u8],
        signature: &[u8],
        public_key: &[u8],
    ) -> (r: bool)
        ensures
            r == (timestamp_fresh(now, timestamp) && ed25519_verifies(message@, signature@, public_key@)
                && nonce_acceptable(ledger_get(old(self).view(), id@), nonce)),
            r ==> final(self).view() == old(self).view().insert(id@, nonce),
            !r ==> final(self).view() == old(self).view(),
    {
        is_fresh(now, timestamp) && self.validate_message_authenticity(message, signature, public_key)
            && self.validate_and_update_nonce(id, nonce)
    }

    /// The guard by the system clock (see `validate_request_at`).
    pub fn validate_request(
        &mut self,
        timestamp: i64,
        nonce: i64,
        id: &[u8],
        message: &[u8],
        signature: &[u8],
        public_key: &[u8],
    ) -> (r: bool)
        ensures
            r ==> ed25519_verifies(message@, signature@, public_key@),
            r ==> nonce_acceptable(ledger_get(old(self).view(), id@), nonce),
            !ed25519_verifies(message@, signature@, public_key@) ==> !r,
            !nonce_acceptable(ledger_get(old(self).view(), id@), nonce) ==> !r,
            r ==> final(self).view() == old(self).view().insert(id@, nonce),
            !r ==> final(self).view() == old(self).view(),
    {
        let now = unix_now();
        self.validate_request_at(now, timestamp, nonce, id, message, signature, public_key)
    }

    /// Makes a fresh Ed25519 key pair.
    pub fn create_keypair() -> (r: Result<ring::signature::Ed25519KeyPair, KeyError>) {
        match generate_pkcs8() {
            None => Err(KeyError::Generation),
            Some(document) => match keypair_from_pkcs8(document.as_slice()) {
                None => Err(KeyError::Parsing),
                Some(keypair) => Ok(keypair),
            },
        }
    }

    /// Whether `signature` is a valid signature of `message` under `public_key`.
    pub fn validate_message(message: &[u8], signature: &[u8], public_key: &[u8]) -> (r: bool)
        ensures
            r == ed25519_verifies(message@, signature@, public_key@),
    {
        signature_verifies(message, signature, public_key)
    }

    /// Signs `message` with `keypair`; the signature verifies under its
    /// public key.
    pub fn sign_message(&self, keypair: &SigningKey, message: &[u8]) -> (r: Vec<u8>)
        ensures
            r@.len() == 64,
            ed25519_verifies(message@, r@, keypair.public_key_view()),
    {
        keypair.sign(message)
    }
}

/// Replay protection: once a nonce from a peer is accepted, the same nonce
/// from that peer is refused; a nonce within `NONCE_INTERVAL` of it, other
/// than itself, is accepted next; one farther away is refused.
pub proof fn lemma_replay_protection(ledger: Map<Seq<u8>, i64>, peer: Seq<u8>, accepted: i64, next: i64)
    ensures
        !nonce_acceptable(ledger_get(ledger.insert(peer, accepted), peer), accepted),
        next != accepted && -(NONCE_INTERVAL as int) <= next - accepted <= NONCE_INTERVAL as int
            ==> nonce_acceptable(ledger_get(ledger.insert(peer, accepted), peer), next),
        (next - accepted > NONCE_INTERVAL as int || accepted - next > NONCE_INTERVAL as int) ==> !nonce_acceptable(
            ledger_get(ledger.insert(peer, accepted), peer),
            next,
        ),
{
    assert(ledger.insert(peer, accepted).contains_key(peer));
}

} // verus!
