//! The iterative peer lookup, as a state machine: the caller sends the
//! queries that it hands out and feeds back the answers; each round queries
//! the candidates not yet asked, and the lookup ends when a round brings no
//! peer closer to the target than the best one known before it.
use vstd::prelude::*;
use crate::config::K;
use crate::id::{closer_or_equal, distance};
use crate::routing_table::{
    append_nodes, index_of_id, same_id, sort_by_distance, sorted_by_distance, NodeInfo,
};

verus! {

/// `c` with the entries of `nodes` appended in order, each only when it is
/// not the node `own` and its identifier is not in the list yet.
pub open spec fn merge_into(c: Seq<NodeInfo>, nodes: Seq<NodeInfo>, own: [u8; 20]) -> Seq<NodeInfo>
    decreases nodes.len(),
{
    if nodes.len() == 0 {
        c
    } else {
        let m = merge_into(c, nodes.drop_last(), own);
        let n = nodes.last();
        if n.id@ == own@ || index_of_id(m, n.id) >= 0 {
            m
        } else {
            m.push(n)
        }
    }
}

/// `new` keeps the `K` closest entries of `old` to `target` (all of them when
/// there are fewer), sorted by XOR distance: each comes from `old`, and none
/// is farther than an entry of `old` left out.
pub open spec fn kept_closest(old: Seq<NodeInfo>, new: Seq<NodeInfo>, target: Seq<u8>) -> bool {
    &&& new.len() == if old.len() < K { old.len() } else { K as nat }
    &&& sorted_by_distance(new, target)
    &&& forall|k: int| 0 <= k < new.len() ==> old.contains(#[trigger] new[k])
    &&& forall|x: NodeInfo, k: int|
        #![trigger old.contains(x), new[k]]
        old.contains(x) && !new.contains(x) && 0 <= k < new.len() ==> distance(new[k].id@, target) <= distance(
            x.id@,
            target,
        )
}

/// The state of one iterative lookup.
#[derive(Debug)]
pub struct Lookup {
    /// The identifier looked for.
    pub target: [u8; 20],
    /// The node that runs the lookup; it never queries itself.
    pub own_id: [u8; 20],
    /// The closest peers known, at most `K` of them between rounds.
    pub candidates: Vec<NodeInfo>,
    /// Peers already asked, or never to be asked.
    pub queried: Vec<[u8; 20]>,
    /// The candidates as the current round began.
    pub round: Vec<NodeInfo>,
    /// Position in `round` of the next peer to consider.
    pub next: usize,
    /// The closest candidate as the current round began.
    pub round_best: Option<[u8; 20]>,
    /// Whether the lookup has converged.
    pub done: bool,
}

proof fn lemma_index_of_id(s: Seq<NodeInfo>, id: [u8; 20])
    ensures
        -1 <= index_of_id(s, id) < s.len(),
        index_of_id(s, id) >= 0 ==> s[index_of_id(s, id)].id@ == id@,
        index_of_id(s, id) < 0 ==> forall|k: int| 0 <= k < s.len() ==> #[trigger] s[k].id@ != id@,
    decreases s.len(),
{
    if s.len() > 0 {
        lemma_index_of_id(s.drop_last(), id);
        if index_of_id(s, id) < 0 {
            assert forall|k: int| 0 <= k < s.len() implies #[trigger] s[k].id@ != id@ by {
                if k < s.len() - 1 {
                    assert(s[k] == s.drop_last()[k]);
                }
            }
        }
    }
}

proof fn lemma_merge_members(c: Seq<NodeInfo>, nodes: Seq<NodeInfo>, own: [u8; 20])
    ensures
        forall|k: int|
            0 <= k < merge_into(c, nodes, own).len() ==> c.contains(#[trigger] merge_into(c, nodes, own)[k])
                || nodes.contains(merge_into(c, nodes, own)[k]),
    decreases nodes.len(),
{
    if nodes.len() > 0 {
        lemma_merge_members(c, nodes.drop_last(), own);
        let m = merge_into(c, nodes.drop_last(), own);
        let r = merge_into(c, nodes, own);
        assert forall|k: int| 0 <= k < r.len() implies c.contains(#[trigger] r[k]) || nodes.contains(r[k]) by {
            if k < m.len() {
                assert(r[k] == m[k]);
                if !c.contains(m[k]) {
                    let j = choose|j: int| 0 <= j < nodes.drop_last().len() && nodes.drop_last()[j] == m[k];
                    assert(nodes[j] == m[k]);
                }
            } else {
                assert(r[k] == nodes.last());
                assert(nodes[nodes.len() - 1] == nodes.last());
            }
        }
    }
}

fn position_of(s: &Vec<NodeInfo>, id: &[u8; 20]) -> (r: bool)
    ensures
        r == (index_of_id(s@, *id) >= 0),
{
    let mut i: usize = s.len();
    assert(s@.subrange(0, i as int) =~= s@);
    while i > 0
        invariant
            i <= s@.len(),
            index_of_id(s@, *id) == index_of_id(s@.subrange(0, i as int), *id),
        decreases i,
    {
        let ghost p = s@.subrange(0, i as int);
        assert(p.drop_last() =~= s@.subrange(0, i - 1));
        assert(p.last() == s@[i - 1]);
        if same_id(&s[i - 1].id, id) {
            return true;
        }
        i = i - 1;
    }
    false
}

fn contains_id(ids: &Vec<[u8; 20]>, id: &[u8; 20]) -> (r: bool)
    ensures
        r == exists|k: int| 0 <= k < ids@.len() && ids@[k]@ == id@,
{
    let mut k: usize = 0;
    while k < ids.len()
        invariant
            k <= ids@.len(),
            forall|m: int| 0 <= m < k ==> ids@[m]@ != id@,
        decreases ids.len() - k,
    {
        if same_id(&ids[k], id) {
            return true;
        }
        k = k + 1;
    }
    false
}

impl Lookup {
    /// The lookup's invariant: no candidate is this node, and the round
    /// position stays within the round.
    pub open spec fn wf(&self) -> bool {
        &&& forall|k: int| 0 <= k < self.candidates@.len() ==> (#[trigger] self.candidates@[k]).id@ != self.own_id@
        &&& self.next <= self.round@.len()
    }

    /// The candidates are sorted by XOR distance to the target and at most
    /// `K` long, as between rounds.
    pub open spec fn settled(&self) -> bool {
        &&& sorted_by_distance(self.candidates@, self.target@)
        &&& self.candidates@.len() <= K
    }

    /// `id` has been asked, or is never to be asked.
    pub open spec fn was_queried(&self, id: [u8; 20]) -> bool {
        exists|k: int| 0 <= k < self.queried@.len() && self.queried@[k]@ == id@
    }

    /// Adds the entries of `nodes` to the candidates (see `merge_into`).
    pub fn on_response(&mut self, nodes: &Vec<NodeInfo>)
        requires
            old(self).wf(),
        ensures
            final(self).wf(),
            final(self).candidates@ == merge_into(old(self).candidates@, nodes@, old(self).own_id),
            final(self).target == old(self).target,
            final(self).own_id == old(self).own_id,
            final(self).queried@ == old(self).queried@,
            final(self).round@ == old(self).round@,
            final(self).next == old(self).next,
            final(self).round_best == old(self).round_best,
            final(self).done == old(self).done,
    {
        let mut i: usize = 0;
        while i < nodes.len()
            invariant
                i <= nodes@.len(),
                self.wf(),
                self.candidates@ == merge_into(old(self).candidates@, nodes@.subrange(0, i as int), self.own_id),
                self.target == old(self).target,
                self.own_id == old(self).own_id,
                self.queried@ == old(self).queried@,
                self.round@ == old(self).round@,
                self.next == old(self).next,
                self.round_best == old(self).round_best,
                self.done == old(self).done,
            decreases nodes.len() - i,
        {
            let n = nodes[i];
            let ghost sub = nodes@.subrange(0, i + 1);
            assert(sub.drop_last() =~= nodes@.subrange(0, i as int));
            assert(sub.last() == n);
            proof {
                lemma_index_of_id(self.candidates@, n.id);
            }
            if !same_id(&n.id, &self.own_id) && !position_of(&self.candidates, &n.id) {
                let ghost before = self.candidates@;
                self.candidates.push(n);
                proof {
                    assert forall|k: int| 0 <= k < self.candidates@.len() implies (
                    #[trigger] self.candidates@[k]).id@ != self.own_id@ by {
                        if k < before.len() {
                            assert(self.candidates@[k] == before[k]);
                        }
                    }
                }
            }
            i = i + 1;
        }
        assert(nodes@.subrange(0, i as int) =~= nodes@);
    }

    /// Sorts the candidates by distance to the target and keeps the first `K`.
    fn settle(&mut self)
        requires
            old(self).wf(),
        ensures
            final(self).wf(),
            kept_closest(old(self).candidates@, final(self).candidates@, old(self).target@),
            sorted_by_distance(final(self).candidates@, final(self).target@),
            final(self).candidates@.len() <= K,
            old(self).candidates@.len() > 0 ==> final(self).candidates@.len() > 0,
            forall|k: int| 0 <= k < final(self).candidates@.len() ==> old(self).candidates@.contains(
                #[trigger] final(self).candidates@[k],
            ),
            final(self).target == old(self).target,
            final(self).own_id == old(self).own_id,
            final(self).queried@ == old(self).queried@,
            final(self).round@ == old(self).round@,
            final(self).next == old(self).next,
            final(self).round_best == old(self).round_best,
            final(self).done == old(self).done,
    {
        broadcast use vstd::seq_lib::group_to_multiset_ensures;

        let mut sorted = sort_by_distance(&self.candidates, self.target.as_slice());
        let ghost full = sorted@;
        proof {
            vstd::seq_lib::to_multiset_len(full);
            vstd::seq_lib::to_multiset_len(self.candidates@);
            assert forall|k: int| 0 <= k < full.len() implies self.candidates@.contains(#[trigger] full[k]) by {
                assert(full.contains(full[k]));
                vstd::seq_lib::to_multiset_contains(full, full[k]);
                vstd::seq_lib::to_multiset_contains(self.candidates@, full[k]);
            }
        }
        sorted.truncate(K);
        proof {
            assert forall|k: int| 0 <= k < sorted@.len() implies old(self).candidates@.contains(
                #[trigger] sorted@[k],
            ) by {
                assert(sorted@[k] == full[k]);
            }
            let c = old(self).candidates@;
            assert forall|x: NodeInfo, k: int|
                #![trigger c.contains(x), sorted@[k]]
                c.contains(x) && !sorted@.contains(x) && 0 <= k < sorted@.len() implies distance(
                sorted@[k].id@,
                self.target@,
            ) <= distance(x.id@, self.target@) by {
                vstd::seq_lib::to_multiset_contains(full, x);
                vstd::seq_lib::to_multiset_contains(c, x);
                let m = choose|m: int| 0 <= m < full.len() && full[m] == x;
                if m < sorted@.len() {
                    assert(sorted@[m] == x);
                }
                assert(sorted@[k] == full[k]);
            }
        }
        self.candidates = sorted;
        proof {
            assert forall|k: int| 0 <= k < self.candidates@.len() implies (
            #[trigger] self.candidates@[k]).id@ != self.own_id@ by {
                let m = choose|m: int| 0 <= m < old(self).candidates@.len() && old(self).candidates@[m]
                    == self.candidates@[k];
            }
            assert forall|a: int, b: int| 0 <= a < b < self.candidates@.len() implies distance(
                self.candidates@[a].id@,
                self.target@,
            ) <= distance(self.candidates@[b].id@, self.target@) by {
                assert(self.candidates@[a] == full[a] && self.candidates@[b] == full[b]);
            }
        }
    }

    /// Begins a round over the current candidates.
    fn start_round(&mut self)
        requires
            old(self).wf(),
        ensures
            final(self).wf(),
            final(self).round@ == old(self).candidates@,
            final(self).next == 0,
            old(self).candidates@.len() > 0 ==> final(self).round_best == Some(old(self).candidates@[0].id),
            old(self).candidates@.len() == 0 ==> final(self).round_best.is_none(),
            final(self).candidates@ == old(self).candidates@,
            final(self).target == old(self).target,
            final(self).own_id == old(self).own_id,
            final(self).queried@ == old(self).queried@,
            final(self).done == old(self).done,
    {
        let mut round: Vec<NodeInfo> = Vec::new();
        append_nodes(&mut round, &self.candidates);
        self.round = round;
        self.next = 0;
        self.round_best = if self.candidates.len() > 0 {
            Some(self.candidates[0].id)
        } else {
            None
        };
    }

    /// A lookup for `target` run by the node `own_id` on behalf of the peer
    /// `requester`, seeded with `seed`; the requester is never queried.
    pub fn new(target: [u8; 20], own_id: [u8; 20], seed: &Vec<NodeInfo>, requester: [u8; 20]) -> (r: Self)
        ensures
            r.wf(),
            r.target == target,
            r.own_id == own_id,
            r.queried@ == seq![requester],
            sorted_by_distance(r.candidates@, target@),
            r.candidates@.len() <= K,
            forall|k: int| 0 <= k < r.candidates@.len() ==> seed@.contains(#[trigger] r.candidates@[k]),
            merge_into(Seq::empty(), seed@, own_id).len() > 0 ==> r.candidates@.len() > 0,
            r.round@ == r.candidates@,
            r.next == 0,
            !r.done,
    {
        let mut queried: Vec<[u8; 20]> = Vec::new();
        queried.push(requester);
        let mut r = Lookup {
            target,
            own_id,
            candidates: Vec::new(),
            queried,
            round: Vec::new(),
            next: 0,
            round_best: None,
            done: false,
        };
        r.on_response(seed);
        proof {
            lemma_merge_members(Seq::empty(), seed@, own_id);
        }
        r.settle();
        r.start_round();
        r
    }

    /// The next peer of the current round to query, marked as queried; `None`
    /// when the round has no peer left that was not asked yet.
    pub fn next_query(&mut self) -> (r: Option<NodeInfo>)
        requires
            old(self).wf(),
        ensures
            final(self).wf(),
            r.is_some() ==> !old(self).was_queried(r.unwrap().id) && final(self).was_queried(r.unwrap().id),
            r.is_some() ==> old(self).round@.contains(r.unwrap()),
            r.is_some() ==> r.unwrap().id@ != old(self).own_id@,
            r.is_none() ==> final(self).next == final(self).round@.len(),
            r.is_none() ==> forall|k: int|
                old(self).next <= k < old(self).round@.len() ==> final(self).was_queried(
                    #[trigger] old(self).round@[k].id,
                ) || old(self).round@[k].id@ == old(self).own_id@,
            final(self).candidates@ == old(self).candidates@,
            final(self).round@ == old(self).round@,
            final(self).target == old(self).target,
            final(self).own_id == old(self).own_id,
            final(self).round_best == old(self).round_best,
            final(self).done == old(self).done,
            old(self).queried@.len() <= final(self).queried@.len(),
            forall|k: int| 0 <= k < old(self).queried@.len() ==> final(self).queried@[k] == old(self).queried@[k],
    {
        while self.next < self.round.len()
            invariant
                self.wf(),
                old(self).next <= self.next,
                self.candidates@ == old(self).candidates@,
                self.round@ == old(self).round@,
                self.target == old(self).target,
                self.own_id == old(self).own_id,
                self.round_best == old(self).round_best,
                self.done == old(self).done,
                old(self).queried@.len() <= self.queried@.len(),
                forall|k: int| 0 <= k < old(self).queried@.len() ==> self.queried@[k] == old(self).queried@[k],
                forall|k: int|
                    old(self).next <= k < self.next ==> self.was_queried(#[trigger] self.round@[k].id)
                        || self.round@[k].id@ == self.own_id@,
            decreases self.round.len() - self.next,
        {
            let n = self.round[self.next];
            self.next = self.next + 1;
            if !contains_id(&self.queried, &n.id) {
                let ghost before = self.queried@;
                self.queried.push(n.id);
                assert(self.queried@[before.len() as int] == n.id);
                if !same_id(&n.id, &self.own_id) {
                    assert(self.round@[self.next - 1] == n);
                    assert(!old(self).was_queried(n.id)) by {
                        if old(self).was_queried(n.id) {
                            let m = choose|m: int| 0 <= m < old(self).queried@.len() && old(self).queried@[m]@ == n.id@;
                            assert(before[m] == old(self).queried@[m]);
                        }
                    }
                    return Some(n);
                }
                assert forall|k: int|
                    old(self).next <= k < self.next implies self.was_queried(#[trigger] self.round@[k].id)
                        || self.round@[k].id@ == self.own_id@ by {
                    if k < self.next - 1 && self.round@[k].id@ != self.own_id@ {
                        let m = choose|m: int| 0 <= m < before.len() && before[m]@ == self.round@[k].id@;
                        assert(self.queried@[m] == before[m]);
                    }
                }
            }
        }
        None
    }

    /// Ends the current round: the candidates are sorted and cut to `K`, and
    /// the lookup is done unless the closest candidate is now strictly closer
    /// to the target than the best one known when the round began; if not
    /// done, the next round begins.
    pub fn finish_round(&mut self)
        requires
            old(self).wf(),
        ensures
            final(self).wf(),
            kept_closest(old(self).candidates@, final(self).candidates@, old(self).target@),
            final(self).settled(),
            final(self).done == !(final(self).candidates@.len() > 0 && (old(self).round_best is None
                || distance(final(self).candidates@[0].id@, old(self).target@) < distance(
                old(self).round_best.unwrap()@,
                old(self).target@,
            ))),
            !final(self).done ==> final(self).round@ == final(self).candidates@ && final(self).next == 0
                && final(self).round_best == Some(final(self).candidates@[0].id),
            final(self).target == old(self).target,
            final(self).own_id == old(self).own_id,
            final(self).queried@ == old(self).queried@,
    {
        self.settle();
        let improved = if self.candidates.len() == 0 {
            false
        } else {
            match self.round_best {
                None => true,
                Some(best) => !closer_or_equal(best.as_slice(), self.candidates[0].id.as_slice(), self.target.as_slice()),
            }
        };
        self.done = !improved;
        if improved {
            self.start_round();
        }
    }

    /// The lookup's answer: the candidates, or `fallback` (the node itself)
    /// when there are none.
    pub fn result(&self, fallback: NodeInfo) -> (r: Vec<NodeInfo>)
        ensures
            self.candidates@.len() > 0 ==> r@ == self.candidates@,
            self.candidates@.len() == 0 ==> r@ == seq![fallback],
    {
        let mut r: Vec<NodeInfo> = Vec::new();
        if self.candidates.len() == 0 {
            r.push(fallback);
            assert(r@ =~= seq![fallback]);
        } else {
            append_nodes(&mut r, &self.candidates);
            assert(r@ =~= self.candidates@);
        }
        r
    }
}

} // verus!
