//! The routing table: one bounded bucket of peers per XOR-distance class.
use std::collections::VecDeque;
use vstd::prelude::*;
use crate::config::{K, MAX_NODES_PER_IP, N_BITS, REPUTATION_THRESHOLD};
use crate::id::{be_value, bucket_index, bucket_index_of, closer_or_equal, distance, xor_bytes, xor_seq};
use crate::sampling::{random_below, sample_indices};

verus! {

/// A peer's network address: an IP address and a port.
#[derive(Clone, Copy, Debug)]
pub struct PeerAddr {
    /// The address bytes; an IPv4 address fills the first four.
    pub ip: [u8; 16],
    /// Whether `ip` holds an IPv6 address.
    pub v6: bool,
    pub port: u16,
}

/// A known peer.
#[derive(Clone, Copy, Debug)]
pub struct NodeInfo {
    pub id: [u8; 20],
    pub addr: PeerAddr,
    /// Raised on each valid request of the peer, lowered on each invalid one.
    pub reputation: i32,
}

/// A bucket: peers in order of last contact, the least recent first.
#[derive(Debug)]
pub struct Bucket {
    pub nodes: VecDeque<NodeInfo>,
}

/// The routing table of the node `own_id`.
#[derive(Debug)]
pub struct RoutingTable {
    pub buckets: Vec<Bucket>,
    pub own_id: [u8; 20],
    /// Peers removed for their reputation; they are never taken back.
    pub banned_ids: Vec<[u8; 20]>,
}

/// Two addresses have the same IP address.
pub open spec fn same_ip_spec(a: PeerAddr, b: PeerAddr) -> bool {
    a.v6 == b.v6 && a.ip@ == b.ip@
}

/// The entries of `s` whose identifier is not `id`, in their order.
pub open spec fn without_id(s: Seq<NodeInfo>, id: [u8; 20]) -> Seq<NodeInfo>
    decreases s.len(),
{
    if s.len() == 0 {
        s
    } else if s.last().id@ == id@ {
        without_id(s.drop_last(), id)
    } else {
        without_id(s.drop_last(), id).push(s.last())
    }
}

/// The position of the last entry of `s` with identifier `id`, or -1.
pub open spec fn index_of_id(s: Seq<NodeInfo>, id: [u8; 20]) -> int
    decreases s.len(),
{
    if s.len() == 0 {
        -1
    } else if s.last().id@ == id@ {
        s.len() - 1
    } else {
        index_of_id(s.drop_last(), id)
    }
}

/// No two entries of `s` share an identifier.
pub open spec fn unique_ids(s: Seq<NodeInfo>) -> bool {
    forall|i: int, j: int| 0 <= i < j < s.len() ==> s[i].id@ != s[j].id@
}

/// A bucket's entries after `node` is seen: a known peer moves to the tail;
/// a new one is appended, and when the bucket is full the head is evicted.
pub open spec fn bucket_after_add(s: Seq<NodeInfo>, node: NodeInfo) -> Seq<NodeInfo> {
    let i = index_of_id(s, node.id);
    if i >= 0 {
        without_id(s, node.id).push(s[i])
    } else if s.len() >= K {
        s.drop_first().push(node)
    } else {
        s.push(node)
    }
}

/// Number of entries of `s` whose IP address is that of `addr`.
pub open spec fn count_ip(s: Seq<NodeInfo>, addr: PeerAddr) -> nat
    decreases s.len(),
{
    if s.len() == 0 {
        0
    } else {
        count_ip(s.drop_last(), addr) + if same_ip_spec(s.last().addr, addr) {
            1nat
        } else {
            0nat
        }
    }
}

/// `a` plus `delta`, held within the range of `i32`.
pub open spec fn saturating_add_i32(a: i32, delta: i32) -> i32 {
    let s = a as int + delta as int;
    if s > i32::MAX {
        i32::MAX
    } else if s < i32::MIN {
        i32::MIN
    } else {
        s as i32
    }
}

/// `s` is sorted by non-decreasing XOR distance of its identifiers to `target`.
pub open spec fn sorted_by_distance(s: Seq<NodeInfo>, target: Seq<u8>) -> bool {
    forall|i: int, j: int|
        0 <= i < j < s.len() ==> distance(s[i].id@, target) <= distance(s[j].id@, target)
}

/// What removing an identifier from a bucket's entries keeps, and where the
/// identifier stood.
pub proof fn lemma_without_id(s: Seq<NodeInfo>, id: [u8; 20])
    ensures
        without_id(s, id).len() <= s.len(),
        forall|k: int| 0 <= k < without_id(s, id).len() ==> #[trigger] without_id(s, id)[k].id@ != id@,
        forall|k: int| 0 <= k < without_id(s, id).len() ==> s.contains(#[trigger] without_id(s, id)[k]),
        index_of_id(s, id) < 0 ==> without_id(s, id) == s,
        index_of_id(s, id) < s.len(),
        index_of_id(s, id) >= 0 ==> s[index_of_id(s, id)].id@ == id@,
        index_of_id(s, id) < 0 ==> forall|k: int| 0 <= k < s.len() ==> #[trigger] s[k].id@ != id@,
        unique_ids(s) ==> unique_ids(without_id(s, id)),
        unique_ids(s) && index_of_id(s, id) >= 0 ==> without_id(s, id).len() == s.len() - 1,
    decreases s.len(),
{
    if s.len() > 0 {
        let p = s.drop_last();
        lemma_without_id(p, id);
        let w = without_id(p, id);
        assert forall|k: int| 0 <= k < w.len() implies s.contains(#[trigger] w[k]) by {
            let m = choose|m: int| 0 <= m < p.len() && p[m] == w[k];
            assert(s[m] == w[k]);
        }
        assert(s.contains(s.last())) by {
            assert(s[s.len() - 1] == s.last());
        }
        if unique_ids(s) {
            assert(unique_ids(p)) by {
                assert forall|i: int, j: int| 0 <= i < j < p.len() implies p[i].id@ != p[j].id@ by {
                    assert(p[i] == s[i] && p[j] == s[j]);
                }
            }
            if s.last().id@ != id@ {
                let r = w.push(s.last());
                assert forall|i: int, j: int| 0 <= i < j < r.len() implies r[i].id@ != r[j].id@ by {
                    if j == r.len() - 1 {
                        let m = choose|m: int| 0 <= m < p.len() && p[m] == w[i];
                        assert(s[m] == p[m]);
                        assert(s[s.len() - 1] == s.last());
                    }
                }
            } else {
                assert(index_of_id(p, id) < 0) by {
                    if index_of_id(p, id) >= 0 {
                        let m = index_of_id(p, id);
                        assert(s[m] == p[m]);
                        assert(s[s.len() - 1] == s.last());
                    }
                }
            }
        }
        let r = without_id(s, id);
        if s.last().id@ == id@ {
            assert(r == w);
            assert forall|k: int| 0 <= k < r.len() implies #[trigger] r[k].id@ != id@ by {
                assert(r[k] == w[k]);
            }
        } else {
            assert(r == w.push(s.last()));
            assert forall|k: int| 0 <= k < r.len() implies #[trigger] r[k].id@ != id@ by {
                if k < w.len() {
                    assert(r[k] == w[k]);
                    assert(w[k].id@ != id@);
                } else {
                    assert(r[k] == s.last());
                }
            }
        }
        if index_of_id(s, id) < 0 {
            assert(s.last().id@ != id@);
            assert(index_of_id(p, id) < 0);
            assert(s == p.push(s.last()));
            assert forall|k: int| 0 <= k < s.len() implies #[trigger] s[k].id@ != id@ by {
                if k < p.len() {
                    assert(s[k] == p[k]);
                } else {
                    assert(s[k] == s.last());
                }
            }
        }
    }
}

/// Number of entries in the buckets `lo..hi` of `v`.
pub open spec fn entries_between(v: Seq<Seq<NodeInfo>>, lo: int, hi: int) -> nat
    decreases hi - lo,
{
    if hi <= lo {
        0
    } else {
        entries_between(v, lo, hi - 1) + v[hi - 1].len()
    }
}

proof fn lemma_entries_low(v: Seq<Seq<NodeInfo>>, lo: int, hi: int)
    requires
        lo < hi,
    ensures
        entries_between(v, lo, hi) == v[lo].len() + entries_between(v, lo + 1, hi),
    decreases hi - lo,
{
    assert(entries_between(v, lo, hi) == entries_between(v, lo, hi - 1) + v[hi - 1].len());
    if hi - 1 > lo {
        lemma_entries_low(v, lo, hi - 1);
        assert(entries_between(v, lo + 1, hi) == entries_between(v, lo + 1, hi - 1) + v[hi - 1].len());
    } else {
        assert(entries_between(v, lo, lo) == 0);
        assert(entries_between(v, lo + 1, lo + 1) == 0);
    }
}

proof fn lemma_entries_mono(v: Seq<Seq<NodeInfo>>, lo: int, hi: int, lo2: int, hi2: int)
    requires
        lo2 <= lo <= hi <= hi2,
    ensures
        entries_between(v, lo, hi) <= entries_between(v, lo2, hi2),
    decreases (hi2 - hi) + (lo - lo2),
{
    if hi < hi2 {
        lemma_entries_mono(v, lo, hi, lo2, hi2 - 1);
    } else if lo2 < lo {
        lemma_entries_low(v, lo2, hi2);
        lemma_entries_mono(v, lo, hi, lo2 + 1, hi2);
    }
}

proof fn lemma_flatten_len(v: Seq<Seq<NodeInfo>>, b: int)
    requires
        0 <= b,
    ensures
        flatten_upto(v, b).len() == entries_between(v, 0, b),
    decreases b,
{
    if b > 0 {
        lemma_flatten_len(v, b - 1);
    }
}

/// The entries of the buckets below `b` of `v`, in bucket order.
pub open spec fn flatten_upto(v: Seq<Seq<NodeInfo>>, b: int) -> Seq<NodeInfo>
    decreases b,
{
    if b <= 0 {
        Seq::empty()
    } else {
        flatten_upto(v, b - 1) + v[b - 1]
    }
}

/// Number of entries of the buckets below `b` of `v` with the IP address of `addr`.
pub open spec fn ip_count_in(v: Seq<Seq<NodeInfo>>, b: int, addr: PeerAddr) -> nat
    decreases b,
{
    if b <= 0 {
        0
    } else {
        ip_count_in(v, b - 1, addr) + count_ip(v[b - 1], addr)
    }
}

/// Some entry of the buckets `v` has identifier `id`.
pub open spec fn holds_in(v: Seq<Seq<NodeInfo>>, id: [u8; 20]) -> bool {
    exists|b: int, j: int| 0 <= b < v.len() && 0 <= j < v[b].len() && #[trigger] v[b][j].id@ == id@
}

/// A table with buckets `v`, banned identifiers `banned` and own identifier
/// `own` admits `node` (see `RoutingTable::admits`).
pub open spec fn admits_in(v: Seq<Seq<NodeInfo>>, banned: Seq<[u8; 20]>, own: [u8; 20], node: NodeInfo) -> bool {
    &&& node.id@ != own@
    &&& ip_count_in(v, N_BITS as int, node.addr) < MAX_NODES_PER_IP
    &&& !(exists|k: int| 0 <= k < banned.len() && banned[k]@ == node.id@)
}

/// The buckets `v` of the table of `own` after `node` is added to the bucket
/// of its identifier.
pub open spec fn view_after_add_in(v: Seq<Seq<NodeInfo>>, own: [u8; 20], node: NodeInfo) -> Seq<Seq<NodeInfo>> {
    let b = bucket_index_of(node.id@, own@) as int;
    v.update(b, bucket_after_add(v[b], node))
}

/// The buckets `v` after each entry of `nodes`, in order, is added when it
/// is not `own`, not held yet, and admitted.
pub open spec fn merged_view(
    v: Seq<Seq<NodeInfo>>,
    banned: Seq<[u8; 20]>,
    own: [u8; 20],
    nodes: Seq<NodeInfo>,
) -> Seq<Seq<NodeInfo>>
    decreases nodes.len(),
{
    if nodes.len() == 0 {
        v
    } else {
        let m = merged_view(v, banned, own, nodes.drop_last());
        let n = nodes.last();
        if n.id@ == own@ || holds_in(m, n.id) || !admits_in(m, banned, own, n) {
            m
        } else {
            view_after_add_in(m, own, n)
        }
    }
}

/// The buckets `v` of the table of `own` after `delta` is added to the
/// reputation of the entry `id`: unchanged when there is none; without it
/// when its reputation falls below `REPUTATION_THRESHOLD`.
pub open spec fn view_after_adjust_in(v: Seq<Seq<NodeInfo>>, own: [u8; 20], id: [u8; 20], delta: i32) -> Seq<
    Seq<NodeInfo>,
> {
    let b = bucket_index_of(id@, own@) as int;
    let s = v[b];
    let i = index_of_id(s, id);
    if i < 0 {
        v
    } else {
        let rep = saturating_add_i32(s[i].reputation, delta);
        if rep < REPUTATION_THRESHOLD {
            v.update(b, without_id(s, id))
        } else {
            v.update(b, s.update(i, NodeInfo { reputation: rep, ..s[i] }))
        }
    }
}

/// The banned identifiers after the adjustment of `view_after_adjust_in`.
pub open spec fn bans_after_adjust_in(
    v: Seq<Seq<NodeInfo>>,
    banned: Seq<[u8; 20]>,
    own: [u8; 20],
    id: [u8; 20],
    delta: i32,
) -> Seq<[u8; 20]> {
    let s = v[bucket_index_of(id@, own@) as int];
    let i = index_of_id(s, id);
    if i >= 0 && saturating_add_i32(s[i].reputation, delta) < REPUTATION_THRESHOLD {
        banned.push(id)
    } else {
        banned
    }
}

/// The buckets after a valid request from the peer `id` at `addr`: the peer
/// is added when unknown and admitted, then earns one point of reputation.
pub open spec fn view_after_contact(
    v: Seq<Seq<NodeInfo>>,
    banned: Seq<[u8; 20]>,
    own: [u8; 20],
    id: [u8; 20],
    addr: PeerAddr,
) -> Seq<Seq<NodeInfo>> {
    let n = NodeInfo { id, addr, reputation: 0 };
    let v1 = if holds_in(v, id) || !admits_in(v, banned, own, n) {
        v
    } else {
        view_after_add_in(v, own, n)
    };
    view_after_adjust_in(v1, own, id, 1)
}

/// The banned identifiers after a valid request from the peer `id` at `addr`.
pub open spec fn bans_after_contact(
    v: Seq<Seq<NodeInfo>>,
    banned: Seq<[u8; 20]>,
    own: [u8; 20],
    id: [u8; 20],
    addr: PeerAddr,
) -> Seq<[u8; 20]> {
    let n = NodeInfo { id, addr, reputation: 0 };
    let v1 = if holds_in(v, id) || !admits_in(v, banned, own, n) {
        v
    } else {
        view_after_add_in(v, own, n)
    };
    bans_after_adjust_in(v1, banned, own, id, 1)
}

proof fn lemma_count_ip_le_len(s: Seq<NodeInfo>, addr: PeerAddr)
    ensures
        count_ip(s, addr) <= s.len(),
    decreases s.len(),
{
    if s.len() > 0 {
        lemma_count_ip_le_len(s.drop_last(), addr);
    }
}

proof fn lemma_ip_count_single(m: Seq<Seq<NodeInfo>>, i: int, bb: int, addr: PeerAddr)
    requires
        0 <= bb <= m.len(),
        forall|x: int| 0 <= x < m.len() && x != i ==> #[trigger] m[x].len() == 0,
        0 <= i < m.len() ==> m[i].len() <= 1,
    ensures
        ip_count_in(m, bb, addr) <= 1,
        (i < 0 || i >= bb) ==> ip_count_in(m, bb, addr) == 0,
    decreases bb,
{
    if bb > 0 {
        lemma_ip_count_single(m, i, bb - 1, addr);
        lemma_count_ip_le_len(m[bb - 1], addr);
    }
}

/// Bootstrapping: a table with no entries and no bans that takes in the
/// bootstrap peer `b` and then `c`, the peer that `b` reported, holds both
/// afterwards, when neither is this node and the two differ.
pub proof fn lemma_bootstrap_learns_both(v: Seq<Seq<NodeInfo>>, own: [u8; 20], b: NodeInfo, c: NodeInfo)
    requires
        v.len() == N_BITS,
        forall|i: int| 0 <= i < N_BITS ==> #[trigger] v[i].len() == 0,
        b.id@ != own@,
        c.id@ != own@,
        b.id@ != c.id@,
    ensures
        holds_in(merged_view(v, Seq::empty(), own, seq![b, c]), b.id),
        holds_in(merged_view(v, Seq::empty(), own, seq![b, c]), c.id),
{
    let banned = Seq::<[u8; 20]>::empty();
    let nodes = seq![b, c];
    assert(nodes.drop_last() =~= seq![b]);
    assert(nodes.last() == c);
    assert(seq![b].drop_last() =~= Seq::<NodeInfo>::empty());
    assert(seq![b].last() == b);
    let ib = bucket_index_of(b.id@, own@) as int;
    let ic = bucket_index_of(c.id@, own@) as int;
    // First step: `b` enters an empty table.
    assert(merged_view(v, banned, own, Seq::<NodeInfo>::empty()) == v);
    assert(!holds_in(v, b.id));
    lemma_ip_count_single(v, -1, N_BITS as int, b.addr);
    assert(admits_in(v, banned, own, b));
    assert(v[ib].len() == 0);
    assert(index_of_id(v[ib], b.id) == -1);
    assert(bucket_after_add(v[ib], b) =~= seq![b]);
    let m1 = v.update(ib, seq![b]);
    assert(merged_view(v, banned, own, seq![b]) == m1);
    // Second step: `c` enters a table that holds only `b`.
    assert forall|x: int| 0 <= x < m1.len() && x != ib implies #[trigger] m1[x].len() == 0 by {
        assert(m1[x] == v[x]);
    }
    assert(!holds_in(m1, c.id)) by {
        if holds_in(m1, c.id) {
            let (x, j) = choose|x: int, j: int| 0 <= x < m1.len() && 0 <= j < m1[x].len() && #[trigger] m1[x][j].id@
                == c.id@;
            if x != ib {
                assert(m1[x].len() == 0);
            } else {
                assert(m1[x][j] == b);
            }
        }
    }
    lemma_ip_count_single(m1, ib, N_BITS as int, c.addr);
    assert(admits_in(m1, banned, own, c));
    let bucket = bucket_after_add(m1[ic], c);
    let fin = m1.update(ic, bucket);
    assert(merged_view(v, banned, own, nodes) == fin);
    if ic == ib {
        assert(index_of_id(seq![b], c.id) == -1) by {
            assert(seq![b].last() == b);
            assert(index_of_id(seq![b].drop_last(), c.id) == -1);
        }
        assert(bucket =~= seq![b, c]);
        assert(fin[ib][0].id@ == b.id@);
        assert(fin[ib][1].id@ == c.id@);
    } else {
        assert(index_of_id(m1[ic], c.id) == -1);
        assert(bucket =~= seq![c]);
        assert(fin[ib] == m1[ib]);
        assert(fin[ib][0].id@ == b.id@);
        assert(fin[ic][0].id@ == c.id@);
    }
}

/// Appends the entries of `src` to `dst`.
pub fn append_nodes(dst: &mut Vec<NodeInfo>, src: &Vec<NodeInfo>)
    ensures
        final(dst)@ == old(dst)@ + src@,
{
    let mut i: usize = 0;
    while i < src.len()
        invariant
            i <= src@.len(),
            dst@ == old(dst)@ + src@.subrange(0, i as int),
        decreases src.len() - i,
    {
        dst.push(src[i]);
        i = i + 1;
        assert(dst@ =~= old(dst)@ + src@.subrange(0, i as int));
    }
    assert(src@.subrange(0, i as int) =~= src@);
}

/// Appends the entries of the bucket queue `src` to `dst`.
fn append_deque(dst: &mut Vec<NodeInfo>, src: &VecDeque<NodeInfo>)
    ensures
        final(dst)@ == old(dst)@ + src@,
{
    let mut i: usize = 0;
    while i < src.len()
        invariant
            i <= src@.len(),
            dst@ == old(dst)@ + src@.subrange(0, i as int),
        decreases src@.len() - i,
    {
        dst.push(src[i]);
        i = i + 1;
        assert(dst@ =~= old(dst)@ + src@.subrange(0, i as int));
    }
    assert(src@.subrange(0, i as int) =~= src@);
}

/// Whether two identifiers are equal.
pub fn same_id(a: &[u8; 20], b: &[u8; 20]) -> (r: bool)
    ensures
        r == (a@ == b@),
{
    let mut i: usize = 0;
    while i < 20
        invariant
            i <= 20,
            a@.len() == 20,
            b@.len() == 20,
            forall|j: int| 0 <= j < i ==> a@[j] == b@[j],
        decreases 20 - i,
    {
        if a[i] != b[i] {
            return false;
        }
        i = i + 1;
    }
    assert(a@ =~= b@);
    true
}

/// Whether two addresses have the same IP address.
pub fn same_ip(a: &PeerAddr, b: &PeerAddr) -> (r: bool)
    ensures
        r == same_ip_spec(*a, *b),
{
    if a.v6 != b.v6 {
        return false;
    }
    let mut i: usize = 0;
    while i < 16
        invariant
            i <= 16,
            a.ip@.len() == 16,
            b.ip@.len() == 16,
            forall|j: int| 0 <= j < i ==> a.ip@[j] == b.ip@[j],
        decreases 16 - i,
    {
        if a.ip[i] != b.ip[i] {
            return false;
        }
        i = i + 1;
    }
    assert(a.ip@ =~= b.ip@);
    true
}

impl NodeInfo {
    /// A newly observed peer, with reputation zero.
    pub fn new(id: [u8; 20], addr: PeerAddr) -> (r: Self)
        ensures
            r.id == id,
            r.addr == addr,
            r.reputation == 0,
    {
        NodeInfo { id, addr, reputation: 0 }
    }
}

impl PartialEq for NodeInfo {
    /// Entries are the same peer when their identifiers are equal.
    fn eq(&self, other: &NodeInfo) -> (r: bool) {
        same_id(&self.id, &other.id)
    }
}

impl vstd::std_specs::cmp::PartialEqSpecImpl for NodeInfo {
    open spec fn obeys_eq_spec() -> bool {
        true
    }

    open spec fn eq_spec(&self, other: &NodeInfo) -> bool {
        self.id@ == other.id@
    }
}

impl Bucket {
    /// A bucket's invariant: at most `K` entries, no identifier twice.
    pub open spec fn wf(&self) -> bool {
        &&& self.nodes@.len() <= K
        &&& unique_ids(self.nodes@)
    }

    /// An empty bucket.
    pub fn new() -> (r: Self)
        ensures
            r.nodes@ == Seq::<NodeInfo>::empty(),
            r.wf(),
    {
        Bucket { nodes: VecDeque::with_capacity(K) }
    }

    /// The position of the entry with identifier `id`, if there is one.
    pub fn position(&self, id: &[u8; 20]) -> (r: Option<usize>)
        ensures
            index_of_id(self.nodes@, *id) < 0 ==> r.is_none(),
            index_of_id(self.nodes@, *id) >= 0 ==> r.is_some(),
            r.is_some() ==> r.unwrap() as int == index_of_id(self.nodes@, *id),
    {
        let mut i: usize = self.nodes.len();
        assert(self.nodes@.subrange(0, i as int) =~= self.nodes@);
        while i > 0
            invariant
                i <= self.nodes@.len(),
                index_of_id(self.nodes@, *id) == index_of_id(self.nodes@.subrange(0, i as int), *id),
            decreases i,
        {
            let ghost p = self.nodes@.subrange(0, i as int);
            assert(p.drop_last() =~= self.nodes@.subrange(0, i - 1));
            assert(p.last() == self.nodes@[i - 1]);
            if same_id(&self.nodes[i - 1].id, id) {
                return Some(i - 1);
            }
            i = i - 1;
        }
        None
    }

    /// Removes the entry with identifier `node_id`, if there is one.
    pub fn remove(&mut self, node_id: &[u8; 20])
        ensures
            final(self).nodes@ == without_id(old(self).nodes@, *node_id),
    {
        let mut kept: VecDeque<NodeInfo> = VecDeque::with_capacity(self.nodes.len());
        let mut i: usize = 0;
        while i < self.nodes.len()
            invariant
                i <= self.nodes@.len(),
                kept@ == without_id(self.nodes@.subrange(0, i as int), *node_id),
            decreases self.nodes.len() - i,
        {
            let ghost p = self.nodes@.subrange(0, i + 1);
            assert(p.drop_last() =~= self.nodes@.subrange(0, i as int));
            if !same_id(&self.nodes[i].id, node_id) {
                kept.push_back(self.nodes[i]);
            }
            i = i + 1;
        }
        assert(self.nodes@.subrange(0, i as int) =~= self.nodes@);
        self.nodes = kept;
    }

    /// Sets the reputation of the entry at position `i`.
    pub fn set_reputation(&mut self, i: usize, reputation: i32)
        requires
            i < old(self).nodes@.len(),
        ensures
            final(self).nodes@ == old(self).nodes@.update(
                i as int,
                NodeInfo { reputation, ..old(self).nodes@[i as int] },
            ),
    {
        let n = self.nodes[i];
        let _ = self.nodes.remove(i);
        self.nodes.insert(i, NodeInfo { reputation, ..n });
        assert(self.nodes@ =~= old(self).nodes@.update(i as int, NodeInfo { reputation, ..n }));
    }

    /// Records contact with `node`: a known peer moves to the tail; a new
    /// one is appended, evicting the head when the bucket is full.
    pub fn add(&mut self, node: NodeInfo)
        requires
            old(self).wf(),
        ensures
            final(self).wf(),
            final(self).nodes@ == bucket_after_add(old(self).nodes@, node),
    {
        proof {
            lemma_without_id(self.nodes@, node.id);
        }
        match self.position(&node.id) {
            Some(i) => {
                let known = self.nodes[i];
                self.remove(&node.id);
                self.nodes.push_back(known);
                proof {
                    let w = without_id(old(self).nodes@, node.id);
                    assert forall|a: int, b: int| 0 <= a < b < self.nodes@.len() implies self.nodes@[a].id@
                        != self.nodes@[b].id@ by {
                        if b == self.nodes@.len() - 1 {
                            assert(w[a].id@ != node.id@);
                        }
                    }
                }
            },
            None => {
                if self.nodes.len() >= K {
                    let _ = self.nodes.pop_front();
                    assert(self.nodes@ =~= old(self).nodes@.drop_first());
                }
                let ghost before = self.nodes@;
                self.nodes.push_back(node);
                proof {
                    assert forall|a: int, b: int| 0 <= a < b < self.nodes@.len() implies self.nodes@[a].id@
                        != self.nodes@[b].id@ by {
                        if b == self.nodes@.len() - 1 {
                            if old(self).nodes@.len() >= K {
                                assert(before[a] == old(self).nodes@[a + 1]);
                                assert(old(self).nodes@[a + 1].id@ != node.id@);
                            } else {
                                assert(old(self).nodes@[a].id@ != node.id@);
                            }
                        } else if old(self).nodes@.len() >= K {
                            assert(before[a] == old(self).nodes@[a + 1]);
                            assert(before[b] == old(self).nodes@[b + 1]);
                        }
                    }
                }
            },
        }
    }
}


/// Sorts `v` by non-decreasing XOR distance to `target`, keeping the order of
/// entries at equal distance.
pub fn sort_by_distance(v: &Vec<NodeInfo>, target: &[u8]) -> (r: Vec<NodeInfo>)
    ensures
        sorted_by_distance(r@, target@),
        r@.to_multiset() == v@.to_multiset(),
        unique_ids(v@) ==> unique_ids(r@),
{
    broadcast use vstd::seq_lib::group_to_multiset_ensures;

    let mut r: Vec<NodeInfo> = Vec::with_capacity(v.len());
    let mut i: usize = 0;
    while i < v.len()
        invariant
            i <= v@.len(),
            sorted_by_distance(r@, target@),
            r@.to_multiset() == v@.subrange(0, i as int).to_multiset(),
            forall|k: int| 0 <= k < r@.len() ==> exists|m: int| 0 <= m < i && #[trigger] r@[k] == v@[m],
            unique_ids(v@) ==> unique_ids(r@),
        decreases v.len() - i,
    {
        let x = v[i];
        let mut pos: usize = 0;
        let mut searching = true;
        while searching
            invariant
                pos <= r@.len(),
                forall|k: int| 0 <= k < pos ==> distance(r@[k].id@, target@) <= distance(x.id@, target@),
                !searching ==> pos == r@.len() || distance(x.id@, target@) < distance(r@[pos as int].id@, target@),
            decreases r@.len() - pos + if searching { 1int } else { 0int },
        {
            if pos == r.len() {
                searching = false;
            } else if closer_or_equal(r[pos].id.as_slice(), x.id.as_slice(), target) {
                pos = pos + 1;
            } else {
                searching = false;
            }
        }
        let ghost before = r@;
        r.insert(pos, x);
        proof {
            assert forall|a: int, b: int| 0 <= a < b < r@.len() implies distance(r@[a].id@, target@)
                <= distance(r@[b].id@, target@) by {
                if b < pos {
                    assert(r@[a] == before[a]);
                    assert(r@[b] == before[b]);
                } else if b == pos {
                    assert(r@[a] == before[a]);
                } else {
                    assert(r@[b] == before[b - 1]);
                    if a < pos {
                        assert(r@[a] == before[a]);
                        assert(distance(before[a].id@, target@) <= distance(x.id@, target@));
                        assert(distance(before[pos as int].id@, target@) <= distance(before[b - 1].id@, target@));
                    } else if a == pos {
                        assert(distance(before[pos as int].id@, target@) <= distance(before[b - 1].id@, target@));
                    } else {
                        assert(r@[a] == before[a - 1]);
                    }
                }
            }
            assert(v@.subrange(0, i + 1) =~= v@.subrange(0, i as int).push(x));
            vstd::seq_lib::to_multiset_insert(before, pos as int, x);
            assert forall|k: int| 0 <= k < r@.len() implies exists|m: int| 0 <= m < i + 1 && #[trigger] r@[k]
                == v@[m] by {
                if k < pos {
                    assert(r@[k] == before[k]);
                } else if k == pos {
                    assert(r@[k] == v@[i as int]);
                } else {
                    assert(r@[k] == before[k - 1]);
                }
            }
            if unique_ids(v@) {
                assert forall|a: int, b: int| 0 <= a < b < r@.len() implies r@[a].id@ != r@[b].id@ by {
                    if a != pos && b != pos {
                        let aa = if a < pos { a } else { a - 1 };
                        let bb = if b < pos { b } else { b - 1 };
                        assert(r@[a] == before[aa]);
                        assert(r@[b] == before[bb]);
                    } else if a == pos {
                        let bb = b - 1;
                        assert(r@[b] == before[bb]);
                        let m = choose|m: int| 0 <= m < i && #[trigger] before[bb] == v@[m];
                        assert(x == v@[i as int]);
                    } else {
                        assert(r@[a] == before[a]);
                        let m = choose|m: int| 0 <= m < i && #[trigger] before[a] == v@[m];
                        assert(x == v@[i as int]);
                    }
                }
            }
            vstd::seq_lib::to_multiset_build(v@.subrange(0, i as int), x);
        }
        i = i + 1;
    }
    assert(v@.subrange(0, i as int) =~= v@);
    r
}

impl RoutingTable {
    /// The table's entries, bucket by bucket.
    pub open spec fn view(&self) -> Seq<Seq<NodeInfo>> {
        Seq::new(self.buckets@.len(), |b: int| self.buckets@[b].nodes@)
    }

    /// The entries of the buckets below `b`, in bucket order.
    pub open spec fn nodes_upto(&self, b: int) -> Seq<NodeInfo> {
        flatten_upto(self.view(), b)
    }

    /// Every entry of the table, in bucket order.
    pub open spec fn all_nodes(&self) -> Seq<NodeInfo> {
        self.nodes_upto(N_BITS as int)
    }

    /// Number of entries below bucket `b` with the IP address of `addr`.
    pub open spec fn ip_count_upto(&self, b: int, addr: PeerAddr) -> nat {
        ip_count_in(self.view(), b, addr)
    }

    /// Number of entries with the IP address of `addr`.
    pub open spec fn ip_count(&self, addr: PeerAddr) -> nat {
        self.ip_count_upto(N_BITS as int, addr)
    }

    /// The identifier `id` has been banned.
    pub open spec fn is_banned(&self, id: [u8; 20]) -> bool {
        exists|k: int| 0 <= k < self.banned_ids@.len() && self.banned_ids@[k]@ == id@
    }

    /// Some entry has identifier `id`.
    pub open spec fn holds(&self, id: [u8; 20]) -> bool {
        exists|b: int, j: int|
            0 <= b < self.view().len() && 0 <= j < self.view()[b].len() && #[trigger] self.view()[b][j].id@
                == id@
    }

    /// The table's own predicates, stated over its buckets.
    pub proof fn lemma_in_terms_of_view(&self, node: NodeInfo)
        ensures
            self.admits(node) == admits_in(self.view(), self.banned_ids@, self.own_id, node),
            self.holds(node.id) == holds_in(self.view(), node.id),
            self.view_after_add(node) == view_after_add_in(self.view(), self.own_id, node),
    {
    }

    /// `n` is an entry of the table.
    pub open spec fn in_table(&self, n: NodeInfo) -> bool {
        exists|b: int, j: int| 0 <= b < N_BITS && 0 <= j < self.view()[b].len() && self.view()[b][j] == n
    }

    /// The bucket that an identifier belongs in.
    pub open spec fn bucket_of(&self, id: [u8; 20]) -> int {
        bucket_index_of(id@, self.own_id@) as int
    }

    /// The table's invariant: `N_BITS` buckets, each well formed; each entry
    /// in the bucket of its identifier, never the own identifier, never a
    /// banned one.
    pub open spec fn wf(&self) -> bool {
        &&& self.buckets@.len() == N_BITS
        &&& forall|b: int| 0 <= b < N_BITS ==> #[trigger] self.buckets@[b].wf()
        &&& forall|b: int, j: int|
            0 <= b < N_BITS && 0 <= j < self.buckets@[b].nodes@.len() ==> {
                let n = #[trigger] self.buckets@[b].nodes@[j];
                &&& n.id@ != self.own_id@
                &&& bucket_index_of(n.id@, self.own_id@) == b
                &&& !self.is_banned(n.id)
            }
    }

    /// The buckets that the ring search reaches at distance `d` from bucket `p`.
    pub open spec fn ring_layer(&self, p: int, d: int) -> Seq<NodeInfo> {
        let lower = if p >= d { self.view()[p - d] } else { Seq::empty() };
        let upper = if d > 0 && p + d < N_BITS { self.view()[p + d] } else { Seq::empty() };
        lower + upper
    }

    /// What the ring search around bucket `p` has gathered before distance `d`.
    pub open spec fn ring_upto(&self, p: int, d: int) -> Seq<NodeInfo>
        decreases d,
    {
        if d <= 0 {
            Seq::empty()
        } else {
            self.ring_upto(p, d - 1) + self.ring_layer(p, d - 1)
        }
    }

    /// The ring search stops at distance `d`: `K` entries are gathered, or no
    /// bucket is left.
    pub open spec fn ring_done(&self, p: int, d: int) -> bool {
        self.ring_upto(p, d).len() >= K || !(p >= d || p + d < N_BITS)
    }

    /// What the ring search around bucket `p` gathers, going on from distance `d`.
    pub open spec fn ring_from(&self, p: int, d: int) -> Seq<NodeInfo>
        decreases N_BITS - d,
    {
        if d >= N_BITS || self.ring_done(p, d) {
            self.ring_upto(p, d)
        } else {
            self.ring_from(p, d + 1)
        }
    }

    /// The candidates of a closest-peers query: the entries that the ring
    /// search gathers around the bucket of `target`.
    pub open spec fn closest_candidates(&self, target: Seq<u8>) -> Seq<NodeInfo> {
        self.ring_from(bucket_index_of(target, self.own_id@) as int, 0)
    }

    /// The ring search around `p`, before distance `d`, has gathered the
    /// buckets `max(0, p - d + 1)..min(N_BITS, p + d)`.
    proof fn lemma_ring_len(&self, p: int, d: int)
        requires
            self.buckets@.len() == N_BITS,
            0 <= p < N_BITS,
            0 <= d,
        ensures
            self.ring_upto(p, d).len() == entries_between(
                self.view(),
                if p - d + 1 > 0 { p - d + 1 } else { 0 },
                if p + d < N_BITS { p + d } else { N_BITS as int },
            ),
        decreases d,
    {
        let v = self.view();
        if d > 0 {
            let e = d - 1;
            self.lemma_ring_len(p, e);
            let lower = if p >= e { v[p - e] } else { Seq::<NodeInfo>::empty() };
            let upper = if e > 0 && p + e < N_BITS { v[p + e] } else { Seq::<NodeInfo>::empty() };
            assert(self.ring_layer(p, e) == lower + upper);
            assert(self.ring_upto(p, d) == self.ring_upto(p, e) + (lower + upper));
            let lo = if p - e + 1 > 0 { p - e + 1 } else { 0 };
            let hi = if p + e < N_BITS { p + e } else { N_BITS as int };
            let lo2 = if p - d + 1 > 0 { p - d + 1 } else { 0 };
            let hi2 = if p + d < N_BITS { p + d } else { N_BITS as int };
            if e == 0 {
                assert(entries_between(v, p, p + 1) == entries_between(v, p, p) + v[p].len());
            } else {
                let mid = entries_between(v, lo, hi2);
                if p + e < N_BITS {
                    assert(mid == entries_between(v, lo, hi) + v[p + e].len());
                } else {
                    assert(hi2 == hi);
                }
                if p >= e {
                    lemma_entries_low(v, lo2, hi2);
                    assert(lo2 == p - e && lo == p - e + 1);
                } else {
                    assert(lo2 == lo);
                }
            }
        }
    }

    /// The candidates of a query hold `K` entries or more, or every entry.
    pub proof fn lemma_candidates_len(&self, target: Seq<u8>)
        requires
            self.wf(),
        ensures
            self.closest_candidates(target).len() <= self.all_nodes().len(),
            self.closest_candidates(target).len() >= K || self.closest_candidates(target).len()
                == self.all_nodes().len(),
    {
        let p = bucket_index_of(target, self.own_id@) as int;
        self.lemma_ring_from_stops(p, 0);
        let d = choose|d: int|
            0 <= d <= N_BITS && self.ring_done(p, d) && self.ring_from(p, 0) == #[trigger] self.ring_upto(p, d);
        self.lemma_ring_len(p, d);
        lemma_flatten_len(self.view(), N_BITS as int);
        let lo = if p - d + 1 > 0 { p - d + 1 } else { 0 };
        let hi = if p + d < N_BITS { p + d } else { N_BITS as int };
        lemma_entries_mono(self.view(), lo, hi, 0, N_BITS as int);
    }

    proof fn lemma_ring_from_stops(&self, p: int, d: int)
        requires
            0 <= p < N_BITS,
            0 <= d <= N_BITS,
        ensures
            exists|e: int|
                d <= e <= N_BITS && self.ring_done(p, e) && self.ring_from(p, d) == #[trigger] self.ring_upto(p, e),
        decreases N_BITS - d,
    {
        if d >= N_BITS || self.ring_done(p, d) {
            assert(self.ring_done(p, d));
            assert(self.ring_from(p, d) == self.ring_upto(p, d));
        } else {
            self.lemma_ring_from_stops(p, d + 1);
        }
    }

    proof fn lemma_ring_members(&self, p: int, d: int)
        requires
            self.buckets@.len() == N_BITS,
            0 <= p < N_BITS,
        ensures
            forall|k: int| 0 <= k < self.ring_upto(p, d).len() ==> self.in_table(#[trigger] self.ring_upto(p, d)[k]),
        decreases d,
    {
        if d > 0 {
            self.lemma_ring_members(p, d - 1);
            let prev = self.ring_upto(p, d - 1);
            let lower = if p >= d - 1 { self.view()[p - (d - 1)] } else { Seq::empty() };
            let upper = if d - 1 > 0 && p + (d - 1) < N_BITS { self.view()[p + (d - 1)] } else { Seq::empty() };
            assert(self.ring_layer(p, d - 1) == lower + upper);
            let all = self.ring_upto(p, d);
            assert(all == prev + (lower + upper));
            assert forall|k: int| 0 <= k < all.len() implies self.in_table(#[trigger] all[k]) by {
                if k < prev.len() {
                    assert(all[k] == prev[k]);
                } else if k < prev.len() + lower.len() {
                    let b = p - (d - 1);
                    assert(all[k] == self.view()[b][k - prev.len()]);
                } else {
                    let b = p + (d - 1);
                    assert(all[k] == self.view()[b][k - prev.len() - lower.len()]);
                }
            }
        }
    }

    proof fn lemma_ring_unique(&self, p: int, d: int)
        requires
            self.wf(),
            0 <= p < N_BITS,
            0 <= d,
        ensures
            unique_ids(self.ring_upto(p, d)),
            forall|k: int|
                0 <= k < self.ring_upto(p, d).len() ==> {
                    let bi = bucket_index_of((#[trigger] self.ring_upto(p, d)[k]).id@, self.own_id@) as int;
                    bi - p < d && p - bi < d
                },
        decreases d,
    {
        if d > 0 {
            self.lemma_ring_unique(p, d - 1);
            let prev = self.ring_upto(p, d - 1);
            let e = d - 1;
            let lower = if p >= e { self.view()[p - e] } else { Seq::empty() };
            let upper = if e > 0 && p + e < N_BITS { self.view()[p + e] } else { Seq::empty() };
            assert(self.ring_layer(p, e) == lower + upper);
            let all = self.ring_upto(p, d);
            assert(all == prev + (lower + upper));
            let pl = prev.len();
            let ll = lower.len();
            assert forall|k: int| pl <= k < all.len() implies {
                let bi = bucket_index_of((#[trigger] all[k]).id@, self.own_id@) as int;
                &&& (k < pl + ll ==> bi == p - e)
                &&& (k >= pl + ll ==> bi == p + e)
            } by {
                if k < pl + ll {
                    assert(all[k] == self.buckets@[p - e].nodes@[k - pl]);
                } else {
                    assert(all[k] == self.buckets@[p + e].nodes@[k - pl - ll]);
                }
            }
            assert forall|k: int| 0 <= k < all.len() implies {
                let bi = bucket_index_of((#[trigger] all[k]).id@, self.own_id@) as int;
                bi - p < d && p - bi < d
            } by {
                if k < pl {
                    assert(all[k] == prev[k]);
                }
            }
            assert forall|x: int, y: int| 0 <= x < y < all.len() implies all[x].id@ != all[y].id@ by {
                if y < pl {
                    assert(all[x] == prev[x] && all[y] == prev[y]);
                } else if x < pl {
                    assert(all[x] == prev[x]);
                } else if y < pl + ll {
                    assert(self.buckets@[p - e].wf());
                    assert(all[x] == self.buckets@[p - e].nodes@[x - pl]);
                    assert(all[y] == self.buckets@[p - e].nodes@[y - pl]);
                } else if x >= pl + ll {
                    assert(self.buckets@[p + e].wf());
                    assert(all[x] == self.buckets@[p + e].nodes@[x - pl - ll]);
                    assert(all[y] == self.buckets@[p + e].nodes@[y - pl - ll]);
                }
            }
        }
    }

    /// `r` answers a closest-peers query for `target`: at most `K` of the
    /// candidates (all of them when there are fewer), no identifier twice,
    /// sorted by XOR distance to the target, none farther than a candidate
    /// left out, none this node.
    pub open spec fn is_closest_answer(&self, target: Seq<u8>, r: Seq<NodeInfo>) -> bool {
        let c = self.closest_candidates(target);
        &&& r.len() == if c.len() < K { c.len() } else { K as nat }
        &&& sorted_by_distance(r, target)
        &&& unique_ids(r)
        &&& forall|k: int| 0 <= k < r.len() ==> c.contains(#[trigger] r[k])
        &&& forall|x: NodeInfo, k: int|
            #![trigger c.contains(x), r[k]]
            c.contains(x) && !r.contains(x) && 0 <= k < r.len() ==> distance(r[k].id@, target) <= distance(
                x.id@,
                target,
            )
        &&& forall|k: int| 0 <= k < r.len() ==> self.in_table(#[trigger] r[k])
        &&& forall|k: int| 0 <= k < r.len() ==> (#[trigger] r[k]).id@ != self.own_id@
    }

    /// The XOR distance between two identifiers, as the big-endian bytes of
    /// the integer (over the length of the shorter one).
    pub fn xor_distance(id1: &[u8], id2: &[u8]) -> (r: Vec<u8>)
        ensures
            r@ == xor_seq(id1@, id2@),
            be_value(r@) == distance(id1@, id2@),
    {
        xor_bytes(id1, id2)
    }

    /// An empty table for the node `own_id`.
    pub fn new(own_id: [u8; 20]) -> (r: Self)
        ensures
            r.wf(),
            r.own_id == own_id,
            r.banned_ids@ == Seq::<[u8; 20]>::empty(),
            forall|b: int| 0 <= b < N_BITS ==> #[trigger] r.view()[b] == Seq::<NodeInfo>::empty(),
    {
        let mut buckets: Vec<Bucket> = Vec::with_capacity(N_BITS);
        let mut b: usize = 0;
        while b < N_BITS
            invariant
                b <= N_BITS,
                buckets@.len() == b,
                forall|c: int| 0 <= c < b ==> #[trigger] buckets@[c].nodes@ == Seq::<NodeInfo>::empty(),
            decreases N_BITS - b,
        {
            buckets.push(Bucket::new());
            b = b + 1;
        }
        let r = RoutingTable { buckets, own_id, banned_ids: Vec::new() };
        assert forall|b: int| 0 <= b < N_BITS implies #[trigger] r.view()[b] == Seq::<NodeInfo>::empty() by {
            assert(r.view()[b] == r.buckets@[b].nodes@);
        }
        r
    }

    /// Whether `id` has been banned.
    pub fn is_banned_id(&self, id: &[u8; 20]) -> (r: bool)
        ensures
            r == self.is_banned(*id),
    {
        let mut k: usize = 0;
        while k < self.banned_ids.len()
            invariant
                k <= self.banned_ids@.len(),
                forall|m: int| 0 <= m < k ==> self.banned_ids@[m]@ != id@,
            decreases self.banned_ids.len() - k,
        {
            if same_id(&self.banned_ids[k], id) {
                return true;
            }
            k = k + 1;
        }
        false
    }

    /// Whether some entry has identifier `node_id`.
    pub fn contains(&self, node_id: &[u8; 20]) -> (r: bool)
        requires
            self.wf(),
        ensures
            r == self.holds(*node_id),
    {
        let b = bucket_index(node_id.as_slice(), self.own_id.as_slice());
        let found = self.buckets[b].position(node_id);
        proof {
            self.lemma_locate(*node_id);
        }
        found.is_some()
    }

    /// With the invariant, an entry with identifier `id` can only stand in
    /// the bucket of `id`, at its last position for that identifier.
    pub proof fn lemma_locate(&self, id: [u8; 20])
        requires
            self.wf(),
        ensures
            0 <= self.bucket_of(id) < N_BITS,
            self.holds(id) <==> index_of_id(self.view()[self.bucket_of(id)], id) >= 0,
            index_of_id(self.view()[self.bucket_of(id)], id) >= 0 ==> self.view()[self.bucket_of(id)][index_of_id(
                self.view()[self.bucket_of(id)],
                id,
            )].id@ == id@,
    {
        let b = self.bucket_of(id);
        let s = self.view()[b];
        lemma_without_id(s, id);
        if self.holds(id) {
            let (bb, j) = choose|bb: int, j: int|
                0 <= bb < self.view().len() && 0 <= j < self.view()[bb].len() && #[trigger] self.view()[bb][j].id@
                    == id@;
            assert(self.buckets@[bb].nodes@[j] == self.view()[bb][j]);
            assert(bb == b);
        }
        if index_of_id(s, id) >= 0 {
            assert(self.view()[b][index_of_id(s, id)].id@ == id@);
        }
    }
}


impl RoutingTable {
    /// `node` may enter the table: it is not this node, its IP address has
    /// fewer than `MAX_NODES_PER_IP` entries, and it is not banned.
    pub open spec fn admits(&self, node: NodeInfo) -> bool {
        &&& node.id@ != self.own_id@
        &&& self.ip_count(node.addr) < MAX_NODES_PER_IP
        &&& !self.is_banned(node.id)
    }

    /// The entries after `node` is added to the bucket of its identifier.
    pub open spec fn view_after_add(&self, node: NodeInfo) -> Seq<Seq<NodeInfo>> {
        let b = self.bucket_of(node.id);
        self.view().update(b, bucket_after_add(self.view()[b], node))
    }

    /// The reputation of the entry with identifier `id` after `delta` is added.
    pub open spec fn adjusted_reputation(&self, id: [u8; 20], delta: i32) -> i32 {
        let s = self.view()[self.bucket_of(id)];
        saturating_add_i32(s[index_of_id(s, id)].reputation, delta)
    }

    /// Counts the entries whose IP address is that of `addr`.
    pub fn count_nodes_by_ip(&self, addr: &PeerAddr) -> (r: usize)
        requires
            self.wf(),
        ensures
            r == self.ip_count(*addr),
    {
        let mut total: usize = 0;
        let mut b: usize = 0;
        while b < N_BITS
            invariant
                self.wf(),
                b <= N_BITS,
                total == self.ip_count_upto(b as int, *addr),
                total <= b * K,
            decreases N_BITS - b,
        {
            let nodes = &self.buckets[b].nodes;
            assert(self.buckets@[b as int].wf());
            let mut c: usize = 0;
            let mut j: usize = 0;
            while j < nodes.len()
                invariant
                    j <= nodes@.len(),
                    nodes@.len() <= K,
                    c == count_ip(nodes@.subrange(0, j as int), *addr),
                    c <= j,
                decreases nodes.len() - j,
            {
                assert(nodes@.subrange(0, j + 1).drop_last() =~= nodes@.subrange(0, j as int));
                if same_ip(&nodes[j].addr, addr) {
                    c = c + 1;
                }
                j = j + 1;
            }
            assert(nodes@.subrange(0, j as int) =~= nodes@);
            assert(self.view()[b as int] == nodes@);
            total = total + c;
            b = b + 1;
        }
        total
    }

    /// Records contact with `node`, if the table admits it: it goes to the
    /// tail of the bucket of its identifier (see `Bucket::add`).
    pub fn add_node(&mut self, node: NodeInfo)
        requires
            old(self).wf(),
        ensures
            final(self).wf(),
            final(self).own_id == old(self).own_id,
            final(self).banned_ids@ == old(self).banned_ids@,
            old(self).admits(node) ==> final(self).view() == old(self).view_after_add(node),
            !old(self).admits(node) ==> final(self).view() == old(self).view(),
    {
        if same_id(&node.id, &self.own_id) {
            return;
        }
        if self.count_nodes_by_ip(&node.addr) >= MAX_NODES_PER_IP {
            return;
        }
        if self.is_banned_id(&node.id) {
            return;
        }
        let b = bucket_index(node.id.as_slice(), self.own_id.as_slice());
        proof {
            assert(old(self).buckets@[b as int].wf());
            lemma_without_id(old(self).view()[b as int], node.id);
        }
        self.buckets[b].add(node);
        proof {
            let s = old(self).view()[b as int];
            let t = self.view()[b as int];
            assert(old(self).buckets@[b as int].nodes@ == s);
            assert(t == bucket_after_add(s, node));
            assert forall|j: int| 0 <= j < t.len() implies t[j] == node || s.contains(t[j]) by {
                let i = index_of_id(s, node.id);
                if i >= 0 {
                    if j < t.len() - 1 {
                        assert(t[j] == without_id(s, node.id)[j]);
                    } else {
                        assert(s[i] == t[j]);
                    }
                } else if s.len() >= K {
                    if j < t.len() - 1 {
                        assert(t[j] == s[j + 1]);
                    }
                } else if j < t.len() - 1 {
                    assert(t[j] == s[j]);
                }
            }
            assert forall|c: int, j: int|
                0 <= c < N_BITS && 0 <= j < self.buckets@[c].nodes@.len() implies {
                let n = #[trigger] self.buckets@[c].nodes@[j];
                &&& n.id@ != self.own_id@
                &&& bucket_index_of(n.id@, self.own_id@) == c
                &&& !self.is_banned(n.id)
            } by {
                if c == b {
                    assert(self.buckets@[c].nodes@[j] == t[j]);
                    if t[j] != node {
                        let m = choose|m: int| 0 <= m < s.len() && s[m] == t[j];
                        assert(old(self).buckets@[c].nodes@[m] == s[m]);
                    }
                } else {
                    assert(self.buckets@[c] == old(self).buckets@[c]);
                }
            }
            assert forall|c: int| 0 <= c < N_BITS implies #[trigger] self.buckets@[c].wf() by {
                if c != b {
                    assert(self.buckets@[c] == old(self).buckets@[c]);
                }
            }
            assert(self.view() =~= old(self).view_after_add(node));
        }
    }

    /// Removes the entry with identifier `node_id`, if there is one.
    pub fn remove_node(&mut self, node_id: &[u8; 20])
        requires
            old(self).wf(),
        ensures
            final(self).wf(),
            final(self).own_id == old(self).own_id,
            final(self).banned_ids@ == old(self).banned_ids@,
            final(self).view() == old(self).view().update(
                old(self).bucket_of(*node_id),
                without_id(old(self).view()[old(self).bucket_of(*node_id)], *node_id),
            ),
    {
        let b = bucket_index(node_id.as_slice(), self.own_id.as_slice());
        proof {
            assert(old(self).buckets@[b as int].wf());
            lemma_without_id(old(self).view()[b as int], *node_id);
        }
        self.buckets[b].remove(node_id);
        proof {
            let s = old(self).view()[b as int];
            let t = self.view()[b as int];
            assert(old(self).buckets@[b as int].nodes@ == s);
            assert forall|c: int, j: int|
                0 <= c < N_BITS && 0 <= j < self.buckets@[c].nodes@.len() implies {
                let n = #[trigger] self.buckets@[c].nodes@[j];
                &&& n.id@ != self.own_id@
                &&& bucket_index_of(n.id@, self.own_id@) == c
                &&& !self.is_banned(n.id)
            } by {
                if c == b {
                    assert(self.buckets@[c].nodes@[j] == t[j]);
                    let m = choose|m: int| 0 <= m < s.len() && s[m] == t[j];
                    assert(old(self).buckets@[c].nodes@[m] == s[m]);
                } else {
                    assert(self.buckets@[c] == old(self).buckets@[c]);
                }
            }
            assert forall|c: int| 0 <= c < N_BITS implies #[trigger] self.buckets@[c].wf() by {
                if c != b {
                    assert(self.buckets@[c] == old(self).buckets@[c]);
                }
            }
            assert(self.view() =~= old(self).view().update(b as int, without_id(s, *node_id)));
        }
    }
}


impl RoutingTable {
    /// Adds `adjustment` to the reputation of the entry with identifier
    /// `node_id`, if there is one. An entry whose reputation falls below
    /// `REPUTATION_THRESHOLD` is removed and its identifier banned for good.
    pub fn adjust_reputation(&mut self, node_id: &[u8; 20], adjustment: i32)
        requires
            old(self).wf(),
        ensures
            final(self).wf(),
            final(self).own_id == old(self).own_id,
            final(self).view() == view_after_adjust_in(old(self).view(), old(self).own_id, *node_id, adjustment),
            final(self).banned_ids@ == bans_after_adjust_in(
                old(self).view(),
                old(self).banned_ids@,
                old(self).own_id,
                *node_id,
                adjustment,
            ),
            ({
                let b = old(self).bucket_of(*node_id);
                let s = old(self).view()[b];
                let i = index_of_id(s, *node_id);
                let rep = old(self).adjusted_reputation(*node_id, adjustment);
                &&& i < 0 ==> final(self).view() == old(self).view() && final(self).banned_ids@
                    == old(self).banned_ids@
                &&& i >= 0 && rep < REPUTATION_THRESHOLD ==> final(self).banned_ids@
                    == old(self).banned_ids@.push(*node_id) && final(self).view() == old(self).view().update(
                    b,
                    without_id(s, *node_id),
                )
                &&& i >= 0 && rep >= REPUTATION_THRESHOLD ==> final(self).banned_ids@
                    == old(self).banned_ids@ && final(self).view() == old(self).view().update(
                    b,
                    s.update(i, NodeInfo { reputation: rep, ..s[i] }),
                )
            }),
    {
        let b = bucket_index(node_id.as_slice(), self.own_id.as_slice());
        proof {
            assert(old(self).buckets@[b as int].wf());
            lemma_without_id(old(self).view()[b as int], *node_id);
            assert(old(self).buckets@[b as int].nodes@ == old(self).view()[b as int]);
        }
        match self.buckets[b].position(node_id) {
            None => {},
            Some(i) => {
                let n = self.buckets[b].nodes[i];
                let sum: i64 = n.reputation as i64 + adjustment as i64;
                let rep: i32 = if sum > i32::MAX as i64 {
                    i32::MAX
                } else if sum < i32::MIN as i64 {
                    i32::MIN
                } else {
                    sum as i32
                };
                if rep < REPUTATION_THRESHOLD {
                    self.banned_ids.push(*node_id);
                    self.remove_banned_entry(b, node_id);
                } else {
                    self.buckets[b].set_reputation(i, rep);
                    proof {
                        let s = old(self).view()[b as int];
                        let t = self.view()[b as int];
                        assert(self.buckets@[b as int].nodes@ == t);
                        assert(t == s.update(i as int, NodeInfo { reputation: rep, ..n }));
                        assert forall|c: int, j: int|
                            0 <= c < N_BITS && 0 <= j < self.buckets@[c].nodes@.len() implies {
                            let m = #[trigger] self.buckets@[c].nodes@[j];
                            &&& m.id@ != self.own_id@
                            &&& bucket_index_of(m.id@, self.own_id@) == c
                            &&& !self.is_banned(m.id)
                        } by {
                            if c == b {
                                assert(old(self).buckets@[c].nodes@[j] == s[j]);
                            } else {
                                assert(self.buckets@[c] == old(self).buckets@[c]);
                            }
                        }
                        assert forall|c: int| 0 <= c < N_BITS implies #[trigger] self.buckets@[c].wf() by {
                            if c != b {
                                assert(self.buckets@[c] == old(self).buckets@[c]);
                            } else {
                                assert forall|x: int, y: int| 0 <= x < y < t.len() implies t[x].id@
                                    != t[y].id@ by {
                                    assert(old(self).buckets@[b as int].nodes@[x] == s[x]);
                                    assert(old(self).buckets@[b as int].nodes@[y] == s[y]);
                                }
                            }
                        }
                        assert(self.view() =~= old(self).view().update(b as int, t));
                    }
                }
            },
        }
    }

    /// Removes from bucket `b` the entry of an identifier that was just banned.
    fn remove_banned_entry(&mut self, b: usize, node_id: &[u8; 20])
        requires
            b == old(self).bucket_of(*node_id),
            old(self).buckets@.len() == N_BITS,
            old(self).banned_ids@.len() > 0,
            old(self).banned_ids@.last() == *node_id,
            forall|c: int| 0 <= c < N_BITS ==> #[trigger] old(self).buckets@[c].wf(),
            forall|c: int, j: int|
                0 <= c < N_BITS && 0 <= j < old(self).buckets@[c].nodes@.len() ==> {
                    let n = #[trigger] old(self).buckets@[c].nodes@[j];
                    &&& n.id@ != old(self).own_id@
                    &&& bucket_index_of(n.id@, old(self).own_id@) == c
                    &&& (!old(self).is_banned(n.id) || n.id@ == node_id@)
                },
        ensures
            final(self).wf(),
            final(self).own_id == old(self).own_id,
            final(self).banned_ids@ == old(self).banned_ids@,
            final(self).view() == old(self).view().update(b as int, without_id(old(self).view()[b as int], *node_id)),
    {
        proof {
            assert(old(self).buckets@[b as int].nodes@ == old(self).view()[b as int]);
            lemma_without_id(old(self).view()[b as int], *node_id);
        }
        self.buckets[b].remove(node_id);
        proof {
            let s = old(self).view()[b as int];
            let t = self.view()[b as int];
            assert(self.buckets@[b as int].nodes@ == t);
            assert forall|c: int, j: int|
                0 <= c < N_BITS && 0 <= j < self.buckets@[c].nodes@.len() implies {
                let m = #[trigger] self.buckets@[c].nodes@[j];
                &&& m.id@ != self.own_id@
                &&& bucket_index_of(m.id@, self.own_id@) == c
                &&& !self.is_banned(m.id)
            } by {
                if c == b {
                    let k = choose|k: int| 0 <= k < s.len() && s[k] == t[j];
                    assert(old(self).buckets@[c].nodes@[k] == s[k]);
                    assert(t[j].id@ != node_id@);
                } else {
                    assert(self.buckets@[c] == old(self).buckets@[c]);
                    assert(self.buckets@[c].nodes@[j].id@ != node_id@);
                }
            }
            assert forall|c: int| 0 <= c < N_BITS implies #[trigger] self.buckets@[c].wf() by {
                assert(old(self).buckets@[b as int].wf());
                if c != b {
                    assert(self.buckets@[c] == old(self).buckets@[c]);
                }
            }
            assert(self.view() =~= old(self).view().update(b as int, t));
        }
    }
}


impl RoutingTable {
    proof fn lemma_nodes_upto(&self, b: int)
        requires
            self.wf(),
            0 <= b <= N_BITS,
        ensures
            forall|k: int| 0 <= k < self.nodes_upto(b).len() ==> self.in_table(#[trigger] self.nodes_upto(b)[k]),
            forall|k: int|
                0 <= k < self.nodes_upto(b).len() ==> (#[trigger] self.nodes_upto(b)[k]).id@ != self.own_id@
                    && bucket_index_of(self.nodes_upto(b)[k].id@, self.own_id@) < b && !self.is_banned(
                    self.nodes_upto(b)[k].id,
                ),
            unique_ids(self.nodes_upto(b)),
        decreases b,
    {
        if b > 0 {
            self.lemma_nodes_upto(b - 1);
            let prev = self.nodes_upto(b - 1);
            let cur = self.view()[b - 1];
            let all = self.nodes_upto(b);
            assert(all == prev + cur);
            assert(cur == self.buckets@[b - 1].nodes@);
            assert(self.buckets@[b - 1].wf());
            assert forall|k: int| 0 <= k < all.len() implies self.in_table(#[trigger] all[k]) && all[k].id@
                != self.own_id@ && bucket_index_of(all[k].id@, self.own_id@) < b && !self.is_banned(all[k].id) by {
                if k < prev.len() {
                    assert(all[k] == prev[k]);
                } else {
                    assert(all[k] == cur[k - prev.len()]);
                    assert(self.buckets@[b - 1].nodes@[k - prev.len()] == cur[k - prev.len()]);
                }
            }
            assert forall|x: int, y: int| 0 <= x < y < all.len() implies all[x].id@ != all[y].id@ by {
                if y < prev.len() {
                    assert(all[x] == prev[x] && all[y] == prev[y]);
                } else if x < prev.len() {
                    assert(all[x] == prev[x]);
                    assert(all[y] == cur[y - prev.len()]);
                    assert(self.buckets@[b - 1].nodes@[y - prev.len()] == cur[y - prev.len()]);
                } else {
                    assert(all[x] == cur[x - prev.len()]);
                    assert(all[y] == cur[y - prev.len()]);
                }
            }
        }
    }

    /// A banned identifier has no entry in the table, is absent from
    /// `all_nodes`, and is refused by `add_node` (which never unbans).
    pub proof fn lemma_banned_absent(&self, id: [u8; 20])
        requires
            self.wf(),
            self.is_banned(id),
        ensures
            !self.holds(id),
            forall|n: NodeInfo| n.id == id ==> !#[trigger] self.admits(n),
            forall|k: int| 0 <= k < self.all_nodes().len() ==> (#[trigger] self.all_nodes()[k]).id@ != id@,
    {
        self.lemma_nodes_upto(N_BITS as int);
        if self.holds(id) {
            let (b, j) = choose|b: int, j: int|
                0 <= b < self.view().len() && 0 <= j < self.view()[b].len() && #[trigger] self.view()[b][j].id@
                    == id@;
            assert(self.buckets@[b].nodes@[j] == self.view()[b][j]);
        }
        assert forall|k: int| 0 <= k < self.all_nodes().len() implies (#[trigger] self.all_nodes()[k]).id@
            != id@ by {
            if self.all_nodes()[k].id@ == id@ {
                assert(self.all_nodes()[k].id == id) by {
                    assert(self.all_nodes()[k].id@ =~= id@);
                }
            }
        }
    }

    /// The entry with identifier `target_id`, if there is one.
    pub fn get_node(&self, target_id: &[u8; 20]) -> (r: Option<NodeInfo>)
        requires
            self.wf(),
        ensures
            r.is_some() == self.holds(*target_id),
            r.is_some() ==> r == Some(
                self.view()[self.bucket_of(*target_id)][index_of_id(
                    self.view()[self.bucket_of(*target_id)],
                    *target_id,
                )],
            ),
            r.is_some() ==> r.unwrap().id@ == target_id@,
    {
        let b = bucket_index(target_id.as_slice(), self.own_id.as_slice());
        proof {
            self.lemma_locate(*target_id);
            lemma_without_id(self.view()[b as int], *target_id);
            assert(self.buckets@[b as int].nodes@ == self.view()[b as int]);
        }
        let bucket = &self.buckets[b];
        assert(bucket.nodes@ == self.view()[self.bucket_of(*target_id)]);
        match bucket.position(target_id) {
            Some(i) => {
                let n = bucket.nodes[i];
                assert(i as int == index_of_id(bucket.nodes@, *target_id));
                assert(n == bucket.nodes@[i as int]);
                Some(n)
            },
            None => None,
        }
    }

    /// Every entry, bucket by bucket.
    pub fn get_all_nodes(&self) -> (r: Vec<NodeInfo>)
        requires
            self.wf(),
        ensures
            r@ == self.all_nodes(),
    {
        let mut r: Vec<NodeInfo> = Vec::new();
        let mut b: usize = 0;
        while b < N_BITS
            invariant
                self.wf(),
                b <= N_BITS,
                r@ == self.nodes_upto(b as int),
            decreases N_BITS - b,
        {
            append_deque(&mut r, &self.buckets[b].nodes);
            assert(self.view()[b as int] == self.buckets@[b as int].nodes@);
            b = b + 1;
        }
        r
    }

    /// Up to `K` entries near `target_id`: the buckets around the bucket of
    /// the target are gathered, nearest bucket first, lower before higher,
    /// until `K` entries are found or no bucket is left; these are sorted by
    /// XOR distance to the target and the first `K` kept.
    pub fn find_closest(&self, target_id: &[u8]) -> (r: Vec<NodeInfo>)
        requires
            self.wf(),
            target_id@.len() <= usize::MAX / 8,
        ensures
            self.is_closest_answer(target_id@, r@),
            r@.len() == if self.all_nodes().len() < K { self.all_nodes().len() } else { K as nat },
    {
        broadcast use vstd::seq_lib::group_to_multiset_ensures;

        let p = bucket_index(target_id, self.own_id.as_slice());
        let ghost pi = p as int;
        let mut gathered: Vec<NodeInfo> = Vec::new();
        let mut d: usize = 0;
        while gathered.len() < K && (p >= d || p + d < N_BITS)
            invariant
                self.wf(),
                p < N_BITS,
                pi == p as int,
                d <= N_BITS,
                gathered@ == self.ring_upto(pi, d as int),
                self.ring_from(pi, 0) == self.ring_from(pi, d as int),
            decreases N_BITS - d,
        {
            proof {
                assert(self.ring_from(pi, d as int) == self.ring_from(pi, d + 1));
            }
            let ghost before = gathered@;
            if p >= d {
                append_deque(&mut gathered, &self.buckets[p - d].nodes);
                assert(self.view()[pi - d] == self.buckets@[p - d].nodes@);
            }
            let ghost mid = gathered@;
            if p + d < N_BITS && d > 0 {
                append_deque(&mut gathered, &self.buckets[p + d].nodes);
                assert(self.view()[pi + d] == self.buckets@[p + d].nodes@);
            }
            assert(gathered@ =~= before + self.ring_layer(pi, d as int));
            d = d + 1;
        }
        proof {
            assert(self.ring_from(pi, d as int) == self.ring_upto(pi, d as int));
            self.lemma_ring_members(pi, d as int);
            self.lemma_ring_unique(pi, d as int);
            self.lemma_candidates_len(target_id@);
        }
        let mut sorted = sort_by_distance(&gathered, target_id);
        let ghost full = sorted@;
        sorted.truncate(K);
        proof {
            let c = gathered@;
            vstd::seq_lib::to_multiset_len(full);
            vstd::seq_lib::to_multiset_len(c);
            assert(c == self.closest_candidates(target_id@));
            assert forall|k: int| 0 <= k < sorted@.len() implies c.contains(#[trigger] sorted@[k]) by {
                assert(sorted@[k] == full[k]);
                assert(full.contains(full[k]));
                vstd::seq_lib::to_multiset_contains(full, full[k]);
                vstd::seq_lib::to_multiset_contains(c, full[k]);
            }
            assert forall|k: int| 0 <= k < sorted@.len() implies self.in_table(#[trigger] sorted@[k]) by {
                assert(c.contains(sorted@[k]));
                let m = choose|m: int| 0 <= m < c.len() && c[m] == sorted@[k];
                assert(self.in_table(c[m]));
            }
            assert forall|k: int| 0 <= k < sorted@.len() implies (#[trigger] sorted@[k]).id@ != self.own_id@ by {
                assert(self.in_table(sorted@[k]));
                let (b, j) = choose|b: int, j: int|
                    0 <= b < N_BITS && 0 <= j < self.view()[b].len() && self.view()[b][j] == sorted@[k];
                assert(self.buckets@[b].nodes@[j] == self.view()[b][j]);
            }
            assert forall|x: NodeInfo, k: int|
                #![trigger c.contains(x), sorted@[k]]
                c.contains(x) && !sorted@.contains(x) && 0 <= k < sorted@.len() implies distance(
                sorted@[k].id@,
                target_id@,
            ) <= distance(x.id@, target_id@) by {
                vstd::seq_lib::to_multiset_contains(full, x);
                vstd::seq_lib::to_multiset_contains(c, x);
                assert(full.contains(x));
                let m = choose|m: int| 0 <= m < full.len() && full[m] == x;
                if m < sorted@.len() {
                    assert(sorted@[m] == x);
                }
                assert(sorted@[k] == full[k]);
            }
        }
        sorted
    }

    /// A random entry, or `None` when the table is empty.
    pub fn random_node(&self) -> (r: Option<NodeInfo>)
        requires
            self.wf(),
        ensures
            r.is_none() == (self.all_nodes().len() == 0),
            r.is_some() ==> self.all_nodes().contains(r.unwrap()),
    {
        let all = self.get_all_nodes();
        if all.len() == 0 {
            None
        } else {
            let i = random_below(all.len());
            assert(all@.contains(all@[i as int]));
            Some(all[i])
        }
    }

    /// `n` entries chosen at random, or every entry when there are fewer.
    pub fn random_nodes(&self, n: usize) -> (r: Vec<NodeInfo>)
        requires
            self.wf(),
        ensures
            r@.len() == if n < self.all_nodes().len() { n as nat } else { self.all_nodes().len() },
            forall|k: int| 0 <= k < r@.len() ==> self.all_nodes().contains(#[trigger] r@[k]),
            unique_ids(r@),
    {
        let all = self.get_all_nodes();
        proof {
            self.lemma_nodes_upto(N_BITS as int);
        }
        let amount = if n < all.len() { n } else { all.len() };
        let picks = sample_indices(all.len(), amount);
        let mut r: Vec<NodeInfo> = Vec::with_capacity(amount);
        let mut k: usize = 0;
        while k < picks.len()
            invariant
                k <= picks@.len(),
                picks@.len() == amount,
                all@ == self.all_nodes(),
                unique_ids(all@),
                forall|m: int| 0 <= m < picks@.len() ==> picks@[m] < all@.len(),
                forall|a: int, b: int| 0 <= a < b < picks@.len() ==> picks@[a] != picks@[b],
                r@.len() == k,
                forall|m: int| 0 <= m < k ==> #[trigger] r@[m] == all@[picks@[m] as int],
            decreases picks.len() - k,
        {
            r.push(all[picks[k]]);
            k = k + 1;
        }
        assert forall|m: int| 0 <= m < r@.len() implies all@.contains(#[trigger] r@[m]) by {
            assert(r@[m] == all@[picks@[m] as int]);
        }
        assert forall|a: int, b: int| 0 <= a < b < r@.len() implies r@[a].id@ != r@[b].id@ by {
            assert(r@[a] == all@[picks@[a] as int]);
            assert(r@[b] == all@[picks@[b] as int]);
            assert(picks@[a] != picks@[b]);
        }
        r
    }
}

} // verus!
