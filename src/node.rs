//! A node's state and the server side of the four operations.
use vstd::prelude::*;
use crate::client::Client;
use crate::crypto::{ed25519_verifies, ledger_get, nonce_acceptable, timestamp_fresh, unix_now, Crypto};
use crate::config::K;
use crate::identity::Identity;
use crate::lookup::Lookup;
use crate::protocol::{
    Credentials, FindNodeRequest, FindNodeResponse, FindValueRequest, FindValueResponse, PingRequest,
    PingResponse, RequestError, StoreRequest, StoreResponse,
};
use crate::config::{N, PING_TIMER_LOWER, PING_TIMER_UPPER, REFRESH_TIMER_LOWER, REFRESH_TIMER_UPPER};
use crate::routing_table::{sorted_by_distance, unique_ids, append_nodes, bans_after_adjust_in, bans_after_contact, index_of_id, merged_view, view_after_adjust_in, view_after_contact, lemma_without_id, same_id, same_ip, without_id, NodeInfo, PeerAddr, RoutingTable};
use crate::sampling::uniform_inclusive;
use crate::signing::SigningKey;
use crate::storage::Storage;

verus! {

/// A node: its identity and address, its store, its routing table, its
/// request guard and its client.
pub struct Node {
    pub keypair: SigningKey,
    pub id: [u8; 20],
    pub addr: PeerAddr,
    pub storage: Storage,
    pub routing_table: RoutingTable,
    pub crypto: Crypto,
    pub client: Client,
}

/// The answer to a store, and the peers that the store is to be forwarded to.
#[derive(Debug)]
pub struct StoreOutcome {
    pub response: StoreResponse,
    pub forward_to: Vec<NodeInfo>,
}

/// What a find-node comes to: an answer at once, or a lookup to run.
#[derive(Debug)]
pub enum FindNodeStep {
    Answer(FindNodeResponse),
    Lookup(Lookup),
}

/// Stores of `value` under `key` are forwarded: the store does not hold
/// that value under that key yet.
pub open spec fn store_fans_out(storage: Map<Seq<u8>, Seq<u8>>, key: Seq<u8>, value: Seq<u8>) -> bool {
    !(storage.contains_key(key) && storage[key] == value)
}

/// Two addresses are the same: same IP address and port.
pub open spec fn same_addr_spec(a: PeerAddr, b: PeerAddr) -> bool {
    a.v6 == b.v6 && a.ip@ == b.ip@ && a.port == b.port
}

/// The entries of `s` whose address is not `addr`, in their order.
pub open spec fn away_from(s: Seq<NodeInfo>, addr: PeerAddr) -> Seq<NodeInfo>
    decreases s.len(),
{
    if s.len() == 0 {
        s
    } else if same_addr_spec(s.last().addr, addr) {
        away_from(s.drop_last(), addr)
    } else {
        away_from(s.drop_last(), addr).push(s.last())
    }
}

/// `after` is the table `before` once a valid request with credentials `c`
/// was taken in (see `view_after_contact`).
pub open spec fn recorded_contact(before: RoutingTable, after: RoutingTable, c: Credentials) -> bool {
    forall|id: [u8; 20]|
        id@ == c.requester_node_id@ ==> after.view() == #[trigger] view_after_contact(
            before.view(),
            before.banned_ids@,
            before.own_id,
            id,
            c.requester_address,
        ) && after.banned_ids@ == bans_after_contact(
            before.view(),
            before.banned_ids@,
            before.own_id,
            id,
            c.requester_address,
        ) && after.own_id == before.own_id
}

/// `after` is the table `before` once a request with credentials `c` was
/// refused: the sender lost one point of reputation.
pub open spec fn recorded_refusal(before: RoutingTable, after: RoutingTable, c: Credentials) -> bool {
    forall|id: [u8; 20]|
        id@ == c.requester_node_id@ ==> after.view() == #[trigger] view_after_adjust_in(before.view(), before.own_id, id, -1i32)
            && after.banned_ids@ == bans_after_adjust_in(
            before.view(),
            before.banned_ids@,
            before.own_id,
            id,
            -1i32,
        ) && after.own_id == before.own_id
}

/// A request with credentials `c` over the signed message `msg` passes the
/// guard at the time `now`, given the nonce ledger `ledger`: a well-formed
/// requester identifier, a fresh timestamp, a valid signature and an
/// acceptable nonce.
pub open spec fn request_accepted(ledger: Map<Seq<u8>, i64>, c: Credentials, msg: Seq<u8>, now: i64) -> bool {
    &&& c.requester_node_id@.len() == 20
    &&& timestamp_fresh(now, c.timestamp)
    &&& ed25519_verifies(msg, c.signature@, c.sender_public_key@)
    &&& nonce_acceptable(ledger_get(ledger, c.requester_node_id@), c.nonce)
}

/// What every handled request leaves behind, whatever the clock said: the
/// node stays well formed; a malformed request changes nothing; a refused
/// one costs its sender a point and records no nonce; an accepted one had a
/// valid signature and an acceptable nonce, records the nonce and records
/// the sender (see `recorded_contact`).
pub open spec fn guarded<T>(
    before: Node,
    after: Node,
    c: Credentials,
    msg: Seq<u8>,
    well_formed: bool,
    r: Result<T, RequestError>,
) -> bool {
    &&& after.wf()
    &&& after.id == before.id
    &&& after.addr == before.addr
    &&& (r == Err::<T, RequestError>(RequestError::Malformed)) == !well_formed
    &&& r == Err::<T, RequestError>(RequestError::Malformed) ==> after.routing_table == before.routing_table
        && after.crypto == before.crypto && after.storage == before.storage
    &&& r == Err::<T, RequestError>(RequestError::Unauthenticated) ==> recorded_refusal(
        before.routing_table,
        after.routing_table,
        c,
    ) && after.crypto.view() == before.crypto.view() && after.storage == before.storage
    &&& well_formed && !(ed25519_verifies(msg, c.signature@, c.sender_public_key@) && nonce_acceptable(
        ledger_get(before.crypto.view(), c.requester_node_id@),
        c.nonce,
    )) ==> r == Err::<T, RequestError>(RequestError::Unauthenticated)
    &&& r.is_ok() ==> ed25519_verifies(msg, c.signature@, c.sender_public_key@) && nonce_acceptable(
        ledger_get(before.crypto.view(), c.requester_node_id@),
        c.nonce,
    )
    &&& r.is_ok() ==> after.crypto.view() == before.crypto.view().insert(c.requester_node_id@, c.nonce)
    &&& r.is_ok() ==> recorded_contact(before.routing_table, after.routing_table, c)
}

/// The outcome of a ping: the guard's (see `guarded`), and on success this
/// node's identifier, with the store untouched.
pub open spec fn ping_outcome(
    before: Node,
    after: Node,
    request: PingRequest,
    r: Result<PingResponse, RequestError>,
) -> bool {
    &&& guarded(
        before,
        after,
        request.credentials,
        request.signed(),
        request.credentials.requester_node_id@.len() == 20,
        r,
    )
    &&& after.storage == before.storage
    &&& r.is_ok() ==> r.unwrap().is_online && r.unwrap().node_id == before.id
}

/// The outcome of a store: the guard's (see `guarded`); on success the value
/// lands, and the store is forwarded to the closest peers of the key but for
/// any at this node's address, unless the store held that value already.
pub open spec fn store_outcome(
    before: Node,
    after: Node,
    request: StoreRequest,
    r: Result<StoreOutcome, RequestError>,
) -> bool {
    &&& guarded(
        before,
        after,
        request.credentials,
        request.signed(),
        request.credentials.requester_node_id@.len() == 20 && request.key@.len() <= usize::MAX / 8,
        r,
    )
    &&& r.is_ok() ==> r.unwrap().response.success
    &&& r.is_ok() ==> after.storage.view() == before.storage.view().insert(request.key@, request.value@)
    &&& r.is_ok() && !store_fans_out(before.storage.view(), request.key@, request.value@)
        ==> r.unwrap().forward_to@.len() == 0
    &&& r.is_ok() && store_fans_out(before.storage.view(), request.key@, request.value@) ==> exists|
        c: Seq<NodeInfo>,
    |
        after.routing_table.is_closest_answer(request.key@, c) && r.unwrap().forward_to@ == away_from(
            c,
            before.addr,
        )
}

/// The outcome of a find-value: the guard's (see `guarded`), with the store
/// untouched; on success the stored value and no peers, or else an empty
/// value and the closest peers of the key.
pub open spec fn find_value_outcome(
    before: Node,
    after: Node,
    request: FindValueRequest,
    r: Result<FindValueResponse, RequestError>,
) -> bool {
    &&& guarded(
        before,
        after,
        request.credentials,
        request.signed(),
        request.credentials.requester_node_id@.len() == 20 && request.key@.len() <= usize::MAX / 8,
        r,
    )
    &&& after.storage == before.storage
    &&& r.is_ok() && before.storage.view().contains_key(request.key@) ==> r.unwrap().value@
        == before.storage.view()[request.key@] && r.unwrap().nodes@.len() == 0
    &&& r.is_ok() && !before.storage.view().contains_key(request.key@) ==> r.unwrap().value@.len() == 0
        && after.routing_table.is_closest_answer(request.key@, r.unwrap().nodes@)
}

/// The target of a find-node is this node or a peer of the table `t`.
pub open spec fn target_known(t: RoutingTable, own: [u8; 20], target: Seq<u8>) -> bool {
    target == own@ || exists|x: [u8; 20]| x@ == target && #[trigger] t.holds(x)
}

/// The outcome of a find-node: the guard's (see `guarded`), with the store
/// untouched; on success, every known peer at once exactly when the target
/// is known, and otherwise a lookup seeded with a closest answer for the
/// target, sorted, at most `K` long, which does not query the requester.
pub open spec fn find_node_outcome(
    before: Node,
    after: Node,
    request: FindNodeRequest,
    r: Result<FindNodeStep, RequestError>,
) -> bool {
    &&& guarded(
        before,
        after,
        request.credentials,
        request.signed(),
        request.credentials.requester_node_id@.len() == 20 && request.target_node_id@.len() == 20,
        r,
    )
    &&& after.storage == before.storage
    &&& r matches Ok(FindNodeStep::Answer(a)) ==> a.nodes@ == after.routing_table.all_nodes()
    &&& r.is_ok() ==> (r matches Ok(FindNodeStep::Answer(_))) == target_known(
        after.routing_table,
        before.id,
        request.target_node_id@,
    )
    &&& r matches Ok(FindNodeStep::Lookup(l)) ==> {
        &&& l.wf()
        &&& !l.done
        &&& l.target@ == request.target_node_id@
        &&& l.own_id == before.id
        &&& l.round@ == l.candidates@
        &&& l.next == 0
        &&& sorted_by_distance(l.candidates@, l.target@)
        &&& l.candidates@.len() <= K
        &&& exists|c: Seq<NodeInfo>|
            after.routing_table.is_closest_answer(request.target_node_id@, c) && forall|k: int|
                0 <= k < l.candidates@.len() ==> c.contains(#[trigger] l.candidates@[k])
        &&& l.queried@.len() == 1
        &&& l.queried@[0]@ == request.credentials.requester_node_id@
    }
}

/// Store idempotence: once a store of `value` under `key` has landed, a
/// second one is not forwarded again.
pub proof fn lemma_store_idempotent(storage: Map<Seq<u8>, Seq<u8>>, key: Seq<u8>, value: Seq<u8>)
    ensures
        !store_fans_out(storage.insert(key, value), key, value),
{
}

/// The identifier that `bytes` spells, when it is `ID_LEN` bytes long.
pub fn to_node_id(bytes: &[u8]) -> (r: Option<[u8; 20]>)
    ensures
        r.is_some() == (bytes@.len() == 20),
        r.is_some() ==> r.unwrap()@ == bytes@,
{
    if bytes.len() != 20 {
        return None;
    }
    let mut id: [u8; 20] = [0u8; 20];
    let mut i: usize = 0;
    while i < 20
        invariant
            i <= 20,
            bytes@.len() == 20,
            id@.len() == 20,
            forall|j: int| 0 <= j < i ==> id@[j] == bytes@[j],
        decreases 20 - i,
    {
        id[i] = bytes[i];
        i = i + 1;
    }
    assert(id@ =~= bytes@);
    Some(id)
}

/// Whether two addresses are the same.
pub fn same_addr(a: &PeerAddr, b: &PeerAddr) -> (r: bool)
    ensures
        r == same_addr_spec(*a, *b),
{
    same_ip(a, b) && a.port == b.port
}

/// The entries of `s` whose address is not `addr`.
pub fn without_addr(s: &Vec<NodeInfo>, addr: &PeerAddr) -> (r: Vec<NodeInfo>)
    ensures
        r@ == away_from(s@, *addr),
{
    let mut r: Vec<NodeInfo> = Vec::new();
    let mut i: usize = 0;
    while i < s.len()
        invariant
            i <= s@.len(),
            r@ == away_from(s@.subrange(0, i as int), *addr),
        decreases s.len() - i,
    {
        let ghost p = s@.subrange(0, i + 1);
        assert(p.drop_last() =~= s@.subrange(0, i as int));
        if !same_addr(&s[i].addr, addr) {
            r.push(s[i]);
        }
        i = i + 1;
    }
    assert(s@.subrange(0, i as int) =~= s@);
    r
}

impl Node {
    /// The node's invariant: its routing table is well formed and is the
    /// table of this node.
    pub open spec fn wf(&self) -> bool {
        &&& self.routing_table.wf()
        &&& self.routing_table.own_id == self.id
    }

    /// A node with identity `identity` at `addr`, knowing no peer and storing
    /// nothing.
    pub fn new(identity: Identity, addr: PeerAddr) -> (r: Node)
        ensures
            r.wf(),
            r.id == identity.id,
            r.addr == addr,
            r.storage.view() == Map::<Seq<u8>, Seq<u8>>::empty(),
            r.routing_table.all_nodes().len() == 0,
            forall|i: int| 0 <= i < crate::config::N_BITS ==> #[trigger] r.routing_table.view()[i].len() == 0,
            r.routing_table.banned_ids@ == Seq::<[u8; 20]>::empty(),
            r.crypto.view() == Map::<Seq<u8>, i64>::empty(),
            r.client.view() == Map::<Seq<u8>, i64>::empty(),
    {
        let routing_table = RoutingTable::new(identity.id);
        proof {
            lemma_empty_nodes_upto(routing_table, crate::config::N_BITS as int);
        }
        Node {
            keypair: identity.keypair,
            id: identity.id,
            addr,
            storage: Storage::new(),
            routing_table,
            crypto: Crypto::new(),
            client: Client::new(),
        }
    }

    /// This node's own entry.
    pub fn self_info(&self) -> (r: NodeInfo)
        ensures
            r.id == self.id,
            r.addr == self.addr,
            r.reputation == 0,
    {
        NodeInfo::new(self.id, self.addr)
    }

    /// Adds the peers of `nodes` that are not this node and not known yet.
    pub fn update_routing_table(&mut self, nodes: &Vec<NodeInfo>)
        requires
            old(self).wf(),
        ensures
            final(self).wf(),
            final(self).routing_table.view() == merged_view(
                old(self).routing_table.view(),
                old(self).routing_table.banned_ids@,
                old(self).id,
                nodes@,
            ),
            final(self).id == old(self).id,
            final(self).addr == old(self).addr,
            final(self).routing_table.banned_ids@ == old(self).routing_table.banned_ids@,
            final(self).storage == old(self).storage,
            final(self).crypto == old(self).crypto,
            final(self).client == old(self).client,
    {
        let mut i: usize = 0;
        while i < nodes.len()
            invariant
                self.wf(),
                i <= nodes@.len(),
                self.id == old(self).id,
                self.addr == old(self).addr,
                self.routing_table.banned_ids@ == old(self).routing_table.banned_ids@,
                self.storage == old(self).storage,
                self.crypto == old(self).crypto,
                self.client == old(self).client,
                self.routing_table.view() == merged_view(
                    old(self).routing_table.view(),
                    old(self).routing_table.banned_ids@,
                    old(self).id,
                    nodes@.subrange(0, i as int),
                ),
            decreases nodes.len() - i,
        {
            let n = nodes[i];
            proof {
                let sub = nodes@.subrange(0, i + 1);
                assert(sub.drop_last() =~= nodes@.subrange(0, i as int));
                assert(sub.last() == n);
                self.routing_table.lemma_in_terms_of_view(n);
            }
            if !same_id(&n.id, &self.id) && !self.routing_table.contains(&n.id) {
                self.routing_table.add_node(n);
            }
            i = i + 1;
        }
        assert(nodes@.subrange(0, i as int) =~= nodes@);
    }

    /// Takes in what a bootstrap exchange gave: the bootstrap peer, which
    /// answered the ping, then the peers that it reported.
    pub fn absorb_bootstrap(&mut self, bootstrap: NodeInfo, nodes: &Vec<NodeInfo>)
        requires
            old(self).wf(),
        ensures
            final(self).wf(),
            final(self).routing_table.view() == merged_view(
                old(self).routing_table.view(),
                old(self).routing_table.banned_ids@,
                old(self).id,
                seq![bootstrap] + nodes@,
            ),
            final(self).id == old(self).id,
            final(self).addr == old(self).addr,
            final(self).routing_table.banned_ids@ == old(self).routing_table.banned_ids@,
            final(self).storage == old(self).storage,
            final(self).crypto == old(self).crypto,
            final(self).client == old(self).client,
    {
        let mut all: Vec<NodeInfo> = Vec::new();
        all.push(bootstrap);
        append_nodes(&mut all, nodes);
        assert(all@ =~= seq![bootstrap] + nodes@);
        self.update_routing_table(&all);
    }

    /// Removes the peer `id`, which failed to answer.
    pub fn evict(&mut self, id: &[u8; 20])
        requires
            old(self).wf(),
        ensures
            final(self).wf(),
            !final(self).routing_table.holds(*id),
            final(self).routing_table.view() == old(self).routing_table.view().update(
                old(self).routing_table.bucket_of(*id),
                without_id(old(self).routing_table.view()[old(self).routing_table.bucket_of(*id)], *id),
            ),
            final(self).id == old(self).id,
            final(self).addr == old(self).addr,
            final(self).storage == old(self).storage,
            final(self).crypto == old(self).crypto,
            final(self).client == old(self).client,
    {
        self.routing_table.remove_node(id);
        proof {
            let t = self.routing_table;
            t.lemma_locate(*id);
            lemma_without_id(old(self).routing_table.view()[t.bucket_of(*id)], *id);
            assert(t.view()[t.bucket_of(*id)] == without_id(old(self).routing_table.view()[t.bucket_of(*id)], *id));
            if index_of_id(t.view()[t.bucket_of(*id)], *id) >= 0 {
                let k = index_of_id(t.view()[t.bucket_of(*id)], *id);
                assert(t.view()[t.bucket_of(*id)][k].id@ != id@);
            }
        }
    }

    /// What follows a probe of `peer` (a refresh or a liveness ping): a peer
    /// that did not answer is removed; one that answered stays as it is.
    pub fn on_probe_result(&mut self, peer: &[u8; 20], answered: bool)
        requires
            old(self).wf(),
        ensures
            final(self).wf(),
            final(self).id == old(self).id,
            final(self).addr == old(self).addr,
            final(self).storage == old(self).storage,
            final(self).crypto == old(self).crypto,
            final(self).client == old(self).client,
            answered ==> final(self).routing_table == old(self).routing_table,
            !answered ==> !final(self).routing_table.holds(*peer),
            !answered ==> final(self).routing_table.view() == old(self).routing_table.view().update(
                old(self).routing_table.bucket_of(*peer),
                without_id(old(self).routing_table.view()[old(self).routing_table.bucket_of(*peer)], *peer),
            ),
    {
        if !answered {
            self.evict(peer);
        }
    }

    /// The pause before the next routing table refresh, in seconds, drawn
    /// uniformly.
    pub fn next_refresh_delay() -> (r: u64)
        ensures
            REFRESH_TIMER_LOWER <= r <= REFRESH_TIMER_UPPER,
    {
        uniform_inclusive(REFRESH_TIMER_LOWER, REFRESH_TIMER_UPPER)
    }

    /// The pause before the next liveness sweep, in seconds, drawn uniformly.
    pub fn next_ping_delay() -> (r: u64)
        ensures
            PING_TIMER_LOWER <= r <= PING_TIMER_UPPER,
    {
        uniform_inclusive(PING_TIMER_LOWER, PING_TIMER_UPPER)
    }

    /// The peer that the next refresh asks for its table: a random known one.
    pub fn refresh_target(&self) -> (r: Option<NodeInfo>)
        requires
            self.wf(),
        ensures
            r.is_none() == (self.routing_table.all_nodes().len() == 0),
            r.is_some() ==> self.routing_table.all_nodes().contains(r.unwrap()),
    {
        self.routing_table.random_node()
    }

    /// The peers that the next liveness sweep pings: `N` random known ones,
    /// or all when fewer are known.
    pub fn liveness_targets(&self) -> (r: Vec<NodeInfo>)
        requires
            self.wf(),
        ensures
            r@.len() == if N < self.routing_table.all_nodes().len() {
                N as nat
            } else {
                self.routing_table.all_nodes().len()
            },
            forall|k: int| 0 <= k < r@.len() ==> self.routing_table.all_nodes().contains(#[trigger] r@[k]),
            unique_ids(r@),
    {
        self.routing_table.random_nodes(N)
    }
}

proof fn lemma_same_id_view(x: [u8; 20], y: [u8; 20])
    requires
        x@ == y@,
    ensures
        x == y,
{
    assert forall|i: int| 0 <= i < 20 implies x[i] == y[i] by {
        assert(x@[i] == y@[i]);
    }
    assert(x =~= y);
}

proof fn lemma_empty_nodes_upto(t: RoutingTable, b: int)
    requires
        0 <= b <= crate::config::N_BITS,
        t.buckets@.len() == crate::config::N_BITS,
        forall|c: int| 0 <= c < crate::config::N_BITS ==> #[trigger] t.view()[c] == Seq::<NodeInfo>::empty(),
    ensures
        t.nodes_upto(b).len() == 0,
    decreases b,
{
    if b > 0 {
        lemma_empty_nodes_upto(t, b - 1);
        assert(t.view()[b - 1] == Seq::<NodeInfo>::empty());
    }
}

/// The server side of the four operations.
pub struct RequestHandler;

impl RequestHandler {
    /// The guard that every request passes first. A requester identifier of
    /// the wrong length is malformed and changes nothing. A request that the
    /// guard refuses costs its sender one point of reputation. An accepted one
    /// adds its sender to the table when unknown, and earns it one point.
    fn authorize(node: &mut Node, c: &Credentials, message: &Vec<u8>, now: i64) -> (r: Result<
        [u8; 20],
        RequestError,
    >)
        requires
            old(node).wf(),
        ensures
            r.is_ok() == request_accepted(old(node).crypto.view(), *c, message@, now),
            final(node).wf(),
            final(node).id == old(node).id,
            final(node).addr == old(node).addr,
            final(node).storage == old(node).storage,
            final(node).client == old(node).client,
            (r == Err::<[u8; 20], RequestError>(RequestError::Malformed)) == (c.requester_node_id@.len() != 20),
            r == Err::<[u8; 20], RequestError>(RequestError::Malformed) ==> final(node).crypto == old(node).crypto
                && final(node).routing_table == old(node).routing_table,
            r.is_ok() ==> r.unwrap()@ == c.requester_node_id@,
            r.is_ok() ==> ed25519_verifies(message@, c.signature@, c.sender_public_key@),
            r.is_ok() ==> nonce_acceptable(ledger_get(old(node).crypto.view(), c.requester_node_id@), c.nonce),
            r.is_ok() ==> final(node).crypto.view() == old(node).crypto.view().insert(
                c.requester_node_id@,
                c.nonce,
            ),
            c.requester_node_id@.len() == 20 && !(ed25519_verifies(message@, c.signature@, c.sender_public_key@)
                && nonce_acceptable(ledger_get(old(node).crypto.view(), c.requester_node_id@), c.nonce))
                ==> r == Err::<[u8; 20], RequestError>(RequestError::Unauthenticated),
            r == Err::<[u8; 20], RequestError>(RequestError::Unauthenticated) ==> final(node).crypto.view()
                == old(node).crypto.view(),
            r.is_ok() ==> recorded_contact(old(node).routing_table, final(node).routing_table, *c),
            r == Err::<[u8; 20], RequestError>(RequestError::Unauthenticated) ==> recorded_refusal(
                old(node).routing_table,
                final(node).routing_table,
                *c,
            ),
    {
        let id = match to_node_id(c.requester_node_id.as_slice()) {
            Some(id) => id,
            None => return Err(RequestError::Malformed),
        };
        if !node.crypto.validate_request_at(
            now,
            c.timestamp,
            c.nonce,
            c.requester_node_id.as_slice(),
            message.as_slice(),
            c.signature.as_slice(),
            c.sender_public_key.as_slice(),
        ) {
            node.routing_table.adjust_reputation(&id, -1);
            proof {
                assert forall|x: [u8; 20]| x@ == c.requester_node_id@ implies node.routing_table.view()
                    == #[trigger] view_after_adjust_in(
                    old(node).routing_table.view(),
                    old(node).routing_table.own_id,
                    x,
                    -1i32,
                ) && node.routing_table.banned_ids@ == bans_after_adjust_in(
                    old(node).routing_table.view(),
                    old(node).routing_table.banned_ids@,
                    old(node).routing_table.own_id,
                    x,
                    -1i32,
                ) && node.routing_table.own_id == old(node).routing_table.own_id by {
                    lemma_same_id_view(x, id);
                }
            }
            return Err(RequestError::Unauthenticated);
        }
        let newcomer = NodeInfo::new(id, c.requester_address);
        proof {
            node.routing_table.lemma_in_terms_of_view(newcomer);
        }
        if !node.routing_table.contains(&id) {
            node.routing_table.add_node(newcomer);
        }
        node.routing_table.adjust_reputation(&id, 1);
        proof {
            assert forall|x: [u8; 20]| x@ == c.requester_node_id@ implies node.routing_table.view()
                == #[trigger] view_after_contact(
                old(node).routing_table.view(),
                old(node).routing_table.banned_ids@,
                old(node).routing_table.own_id,
                x,
                c.requester_address,
            ) && node.routing_table.banned_ids@ == bans_after_contact(
                old(node).routing_table.view(),
                old(node).routing_table.banned_ids@,
                old(node).routing_table.own_id,
                x,
                c.requester_address,
            ) && node.routing_table.own_id == old(node).routing_table.own_id by {
                lemma_same_id_view(x, id);
            }
        }
        Ok(id)
    }

    /// Answers a ping with this node's identifier, judging its timestamp
    /// against the time `now`.
    pub fn handle_ping_at(node: &mut Node, request: &PingRequest, now: i64) -> (r: Result<
        PingResponse,
        RequestError,
    >)
        requires
            old(node).wf(),
        ensures
            ping_outcome(*old(node), *final(node), *request, r),
            r.is_ok() == request_accepted(old(node).crypto.view(), request.credentials, request.signed(), now),
    {
        let message = request.message();
        match Self::authorize(node, &request.credentials, &message, now) {
            Err(e) => Err(e),
            Ok(_) => Ok(PingResponse { is_online: true, node_id: node.id }),
        }
    }

    /// Answers a ping by the system clock (see `handle_ping_at`).
    pub fn handle_ping(node: &mut Node, request: &PingRequest) -> (r: Result<PingResponse, RequestError>)
        requires
            old(node).wf(),
        ensures
            ping_outcome(*old(node), *final(node), *request, r),
    {
        Self::handle_ping_at(node, request, unix_now())
    }

    /// Stores `value` under `key`, judging the timestamp against `now`. When
    /// the store held that value already, nothing is forwarded; otherwise the
    /// store is to be forwarded to the closest peers of the key, but for any
    /// at this node's own address.
    pub fn handle_store_at(node: &mut Node, request: &StoreRequest, now: i64) -> (r: Result<
        StoreOutcome,
        RequestError,
    >)
        requires
            old(node).wf(),
        ensures
            store_outcome(*old(node), *final(node), *request, r),
            r.is_ok() == (request.key@.len() <= usize::MAX / 8 && request_accepted(
                old(node).crypto.view(),
                request.credentials,
                request.signed(),
                now,
            )),
    {
        if request.key.len() > usize::MAX / 8 {
            return Err(RequestError::Malformed);
        }
        let message = request.message();
        match Self::authorize(node, &request.credentials, &message, now) {
            Err(e) => Err(e),
            Ok(_) => {
                let fans_out = !node.storage.holds_value(request.key.as_slice(), request.value.as_slice());
                node.storage.insert(request.key.as_slice(), request.value.as_slice());
                let forward_to = if fans_out {
                    let closest = node.routing_table.find_closest(request.key.as_slice());
                    without_addr(&closest, &node.addr)
                } else {
                    Vec::new()
                };
                Ok(StoreOutcome { response: StoreResponse { success: true }, forward_to })
            },
        }
    }

    /// Handles a store by the system clock (see `handle_store_at`).
    pub fn handle_store(node: &mut Node, request: &StoreRequest) -> (r: Result<StoreOutcome, RequestError>)
        requires
            old(node).wf(),
        ensures
            store_outcome(*old(node), *final(node), *request, r),
    {
        Self::handle_store_at(node, request, unix_now())
    }

    /// Answers with the value of `key` and no peers when it is stored here;
    /// otherwise with an empty value and the closest peers of the key. The
    /// timestamp is judged against `now`.
    pub fn handle_find_value_at(node: &mut Node, request: &FindValueRequest, now: i64) -> (r: Result<
        FindValueResponse,
        RequestError,
    >)
        requires
            old(node).wf(),
        ensures
            find_value_outcome(*old(node), *final(node), *request, r),
            r.is_ok() == (request.key@.len() <= usize::MAX / 8 && request_accepted(
                old(node).crypto.view(),
                request.credentials,
                request.signed(),
                now,
            )),
    {
        if request.key.len() > usize::MAX / 8 {
            return Err(RequestError::Malformed);
        }
        let message = request.message();
        match Self::authorize(node, &request.credentials, &message, now) {
            Err(e) => Err(e),
            Ok(_) => match node.storage.get(request.key.as_slice()) {
                Some(value) => Ok(FindValueResponse { value, nodes: Vec::new() }),
                None => {
                    let nodes = node.routing_table.find_closest(request.key.as_slice());
                    Ok(FindValueResponse { value: Vec::new(), nodes })
                },
            },
        }
    }

    /// Handles a find-value by the system clock (see `handle_find_value_at`).
    pub fn handle_find_value(node: &mut Node, request: &FindValueRequest) -> (r: Result<
        FindValueResponse,
        RequestError,
    >)
        requires
            old(node).wf(),
        ensures
            find_value_outcome(*old(node), *final(node), *request, r),
    {
        Self::handle_find_value_at(node, request, unix_now())
    }

    /// Answers at once with every known peer when the target is this node or
    /// a known peer; otherwise starts an iterative lookup seeded with the
    /// closest peers of the target, which never queries the requester. The
    /// timestamp is judged against `now`.
    pub fn handle_find_node_at(node: &mut Node, request: &FindNodeRequest, now: i64) -> (r: Result<
        FindNodeStep,
        RequestError,
    >)
        requires
            old(node).wf(),
        ensures
            find_node_outcome(*old(node), *final(node), *request, r),
            r.is_ok() == (request.target_node_id@.len() == 20 && request_accepted(
                old(node).crypto.view(),
                request.credentials,
                request.signed(),
                now,
            )),
    {
        let target = match to_node_id(request.target_node_id.as_slice()) {
            Some(t) => t,
            None => return Err(RequestError::Malformed),
        };
        let message = request.message();
        let requester = match Self::authorize(node, &request.credentials, &message, now) {
            Err(e) => return Err(e),
            Ok(id) => id,
        };
        proof {
            node.routing_table.lemma_locate(target);
        }
        let known = node.routing_table.contains(&target);
        if same_id(&target, &node.id) || known {
            let nodes = node.routing_table.get_all_nodes();
            return Ok(FindNodeStep::Answer(FindNodeResponse { nodes }));
        }
        proof {
            assert forall|t: [u8; 20]| t@ == request.target_node_id@ implies !node.routing_table.holds(t) by {
                lemma_same_id_view(t, target);
            }
        }
        let closest = node.routing_table.find_closest(target.as_slice());
        Ok(FindNodeStep::Lookup(Lookup::new(target, node.id, &closest, requester)))
    }

    /// Handles a find-node by the system clock (see `handle_find_node_at`).
    pub fn handle_find_node(node: &mut Node, request: &FindNodeRequest) -> (r: Result<FindNodeStep, RequestError>)
        requires
            old(node).wf(),
        ensures
            find_node_outcome(*old(node), *final(node), *request, r),
    {
        Self::handle_find_node_at(node, request, unix_now())
    }

    /// The answer of a finished lookup: its candidates (sorted and at most `K`
    /// once `Lookup::finish_round` has run), or this node's own entry when it
    /// found none.
    pub fn finish_find_node(node: &Node, lookup: &Lookup) -> (r: FindNodeResponse)
        ensures
            lookup.candidates@.len() > 0 ==> r.nodes@ == lookup.candidates@,
            lookup.settled() ==> sorted_by_distance(r.nodes@, lookup.target@) && r.nodes@.len() <= K,
            r.nodes@.len() >= 1,
            lookup.candidates@.len() == 0 ==> r.nodes@ == seq![(NodeInfo { id: node.id, addr: node.addr, reputation: 0 })],
    {
        FindNodeResponse { nodes: lookup.result(node.self_info()) }
    }
}

} // verus!
