//! The sending side: signed, nonce-stamped requests and the retry budget of
//! each send.
use vstd::prelude::*;
use crate::config::TIMEOUT_MAX_ATTEMPTS;
use crate::crypto::{ed25519_verifies, ledger_get, unix_now, Crypto, NonceLedger};
use crate::signing::SigningKey;
use crate::message::{encode_request_message, KIND_FIND_NODE, KIND_FIND_VALUE, KIND_PING, KIND_STORE};
use crate::protocol::{signed_message, Credentials, FindNodeRequest, FindValueRequest, PingRequest, StoreRequest};
use crate::routing_table::PeerAddr;
use crate::sampling::random_i64;

verus! {

/// What a request built for `self_id` from `addr` carries, whatever the
/// clock and the random source gave: the sender's identifier and address, a
/// 32-byte public key, a 64-byte signature, and the nonce that the ledger
/// `before` holds for the sender when it holds one. (Each builder also
/// states that the signature verifies over the request's signed message.)
pub open spec fn credentials_built(
    c: Credentials,
    before: Map<Seq<u8>, i64>,
    self_id: [u8; 20],
    addr: PeerAddr,
) -> bool {
    &&& c.requester_node_id@ == self_id@
    &&& c.requester_address == addr
    &&& c.sender_public_key@.len() == 32
    &&& c.signature@.len() == 64
    &&& before.contains_key(self_id@) ==> c.nonce == before[self_id@]
}

/// The nonce after `n`, wrapping at the end of the range.
pub open spec fn next_nonce(n: i64) -> i64 {
    if n == i64::MAX {
        i64::MIN
    } else {
        (n + 1) as i64
    }
}

/// A nonce map after the nonce of `id` moves on by one; unchanged when `id`
/// has none.
pub open spec fn advanced(nonces: Map<Seq<u8>, i64>, id: Seq<u8>) -> Map<Seq<u8>, i64> {
    match ledger_get(nonces, id) {
        Some(n) => nonces.insert(id, next_nonce(n)),
        None => nonces,
    }
}

/// Builds requests and keeps the nonce that each sender identifier uses next.
#[derive(Debug)]
pub struct Client {
    nonce_map: NonceLedger,
    crypto: Crypto,
}

impl Client {
    /// The next nonce of each sender identifier.
    pub closed spec fn view(&self) -> Map<Seq<u8>, i64> {
        self.nonce_map.view()
    }

    /// A client that has sent nothing.
    pub fn new() -> (r: Self)
        ensures
            r.view() == Map::<Seq<u8>, i64>::empty(),
    {
        Client { nonce_map: NonceLedger::new(), crypto: Crypto::new() }
    }

    /// The next nonce of `node_id`; a random one on first use, which is then
    /// recorded.
    pub fn get_or_generate_nonce(&mut self, node_id: &[u8]) -> (r: i64)
        ensures
            old(self).view().contains_key(node_id@) ==> r == old(self).view()[node_id@],
            final(self).view() == old(self).view().insert(node_id@, r),
    {
        match self.nonce_map.get(node_id) {
            Some(n) => {
                assert(old(self).view().insert(node_id@, n) =~= old(self).view());
                n
            },
            None => {
                let n = random_i64();
                self.nonce_map.set(node_id, n);
                n
            },
        }
    }

    /// Moves the nonce of `node_id` on by one, wrapping at the end of the
    /// range; nothing when `node_id` has none.
    pub fn increment_nonce(&mut self, node_id: &[u8])
        ensures
            final(self).view() == advanced(old(self).view(), node_id@),
    {
        match self.nonce_map.get(node_id) {
            Some(n) => {
                let next: i64 = if n == i64::MAX { i64::MIN } else { n + 1 };
                self.nonce_map.set(node_id, next);
            },
            None => {},
        }
    }

    /// What follows a send: after a delivered request the sender's nonce
    /// moves on; after a failed one it stays.
    pub fn finish_request(&mut self, node_id: &[u8], delivered: bool)
        ensures
            !delivered ==> final(self).view() == old(self).view(),
            delivered ==> final(self).view() == advanced(old(self).view(), node_id@),
    {
        if delivered {
            self.increment_nonce(node_id);
        }
    }

    /// Whether a send that has made `attempts_made` attempts may make another.
    pub fn attempt_allowed(attempts_made: u64) -> (r: bool)
        ensures
            r == (attempts_made < TIMEOUT_MAX_ATTEMPTS),
    {
        attempts_made < TIMEOUT_MAX_ATTEMPTS
    }

    fn credentials(
        &mut self,
        keypair: &SigningKey,
        self_id: [u8; 20],
        self_addr: PeerAddr,
        kind: u8,
        first: &[u8],
        second: &[u8],
    ) -> (r: Credentials)
        ensures
            credentials_built(r, old(self).view(), self_id, self_addr),
            final(self).view() == old(self).view().insert(self_id@, r.nonce),
            r.sender_public_key@ == keypair.public_key_view(),
            ed25519_verifies(signed_message(kind, r, first@, second@), r.signature@, r.sender_public_key@),
    {
        let timestamp = unix_now();
        let nonce = self.get_or_generate_nonce(self_id.as_slice());
        let sender_public_key = keypair.public_key();
        let message = encode_request_message(
            kind,
            timestamp,
            sender_public_key.as_slice(),
            self_id.as_slice(),
            first,
            second,
        );
        let signature = self.crypto.sign_message(keypair, message.as_slice());
        let mut requester_node_id: Vec<u8> = Vec::new();
        let mut i: usize = 0;
        while i < 20
            invariant
                i <= 20,
                self_id@.len() == 20,
                requester_node_id@ == self_id@.subrange(0, i as int),
            decreases 20 - i,
        {
            requester_node_id.push(self_id[i]);
            i = i + 1;
            assert(requester_node_id@ =~= self_id@.subrange(0, i as int));
        }
        assert(self_id@.subrange(0, 20) =~= self_id@);
        Credentials {
            requester_node_id,
            requester_address: self_addr,
            timestamp,
            nonce,
            signature,
            sender_public_key,
        }
    }

    /// A signed ping from the node `self_id` at `self_addr`.
    pub fn create_ping_request(
        &mut self,
        keypair: &SigningKey,
        self_id: [u8; 20],
        self_addr: PeerAddr,
    ) -> (r: PingRequest)
        ensures
            credentials_built(r.credentials, old(self).view(), self_id, self_addr),
            final(self).view() == old(self).view().insert(self_id@, r.credentials.nonce),
            r.credentials.sender_public_key@ == keypair.public_key_view(),
            ed25519_verifies(r.signed(), r.credentials.signature@, r.credentials.sender_public_key@),
    {
        let credentials = self.credentials(keypair, self_id, self_addr, KIND_PING, &[], &[]);
        PingRequest { credentials }
    }

    /// A signed find-node for `target_node_id`.
    pub fn create_find_node_request(
        &mut self,
        keypair: &SigningKey,
        self_id: [u8; 20],
        self_addr: PeerAddr,
        target_node_id: Vec<u8>,
    ) -> (r: FindNodeRequest)
        ensures
            credentials_built(r.credentials, old(self).view(), self_id, self_addr),
            final(self).view() == old(self).view().insert(self_id@, r.credentials.nonce),
            r.credentials.sender_public_key@ == keypair.public_key_view(),
            ed25519_verifies(r.signed(), r.credentials.signature@, r.credentials.sender_public_key@),
            r.target_node_id@ == target_node_id@,
    {
        let credentials = self.credentials(
            keypair,
            self_id,
            self_addr,
            KIND_FIND_NODE,
            target_node_id.as_slice(),
            &[],
        );
        FindNodeRequest { credentials, target_node_id }
    }

    /// A signed store of `value` under `key`.
    pub fn create_store_node_request(
        &mut self,
        keypair: &SigningKey,
        self_id: [u8; 20],
        self_addr: PeerAddr,
        key: Vec<u8>,
        value: Vec<u8>,
    ) -> (r: StoreRequest)
        ensures
            credentials_built(r.credentials, old(self).view(), self_id, self_addr),
            final(self).view() == old(self).view().insert(self_id@, r.credentials.nonce),
            r.credentials.sender_public_key@ == keypair.public_key_view(),
            ed25519_verifies(r.signed(), r.credentials.signature@, r.credentials.sender_public_key@),
            r.key@ == key@,
            r.value@ == value@,
    {
        let credentials = self.credentials(
            keypair,
            self_id,
            self_addr,
            KIND_STORE,
            key.as_slice(),
            value.as_slice(),
        );
        StoreRequest { credentials, key, value }
    }

    /// A signed find-value for `key`.
    pub fn create_find_value_request(
        &mut self,
        keypair: &SigningKey,
        self_id: [u8; 20],
        self_addr: PeerAddr,
        key: Vec<u8>,
    ) -> (r: FindValueRequest)
        ensures
            credentials_built(r.credentials, old(self).view(), self_id, self_addr),
            final(self).view() == old(self).view().insert(self_id@, r.credentials.nonce),
            r.credentials.sender_public_key@ == keypair.public_key_view(),
            ed25519_verifies(r.signed(), r.credentials.signature@, r.credentials.sender_public_key@),
            r.key@ == key@,
    {
        let credentials = self.credentials(keypair, self_id, self_addr, KIND_FIND_VALUE, key.as_slice(), &[]);
        FindValueRequest { credentials, key }
    }
}

} // verus!
