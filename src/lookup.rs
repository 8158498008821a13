use vstd::prelude::*;
use crate::distance::{NodeId, dist_lt, xor_distance, distance};
use crate::closest::{select_closest, is_closest_selection, chosen};
use crate::routing::NodeInfo;

verus! {

/// How far a candidate of a lookup has come.
#[derive(Clone, Copy, Debug, PartialEq, Eq, Structural)]
pub enum PeerStatus {
    /// Known, not asked yet.
    Fresh,
    /// Asked, no answer yet.
    Pending,
    /// Answered.
    Responded,
    /// Did not answer in time, or answered with something unreadable.
    Failed,
}

/// What a contacted peer did, as a trace records it.
#[derive(Clone, Copy, Debug, PartialEq, Eq, Structural)]
pub enum TraceOutcome {
    NoResponse,
    /// Answered with this many closer peers.
    Nodes(u64),
    Content,
}

#[derive(Clone, Copy, Debug, PartialEq, Eq, Structural)]
pub struct TraceEvent {
    pub peer: NodeId,
    pub outcome: TraceOutcome,
}

/// The record of one lookup: who asked for what, each peer contacted and what it did,
/// who delivered the content, and in how many rounds.
#[derive(Clone, Debug)]
pub struct QueryTrace {
    pub origin: NodeId,
    pub target: NodeId,
    pub events: Vec<TraceEvent>,
    pub responder: Option<NodeId>,
    pub hops: u64,
}

impl QueryTrace {
    /// A trace of a lookup that has contacted nobody yet.
    pub fn new(origin: NodeId, target: NodeId) -> (r: QueryTrace)
        ensures
            r.origin == origin,
            r.target == target,
            r.events@ == Seq::<TraceEvent>::empty(),
            r.responder is None,
            r.hops == 0,
    {
        QueryTrace { origin, target, events: Vec::new(), responder: None, hops: 0 }
    }

    /// Records that a peer delivered the content.
    pub fn node_responded_with_content(&mut self, peer: NodeId)
        ensures
            final(self).origin == old(self).origin,
            final(self).target == old(self).target,
            final(self).events@ == old(self).events@,
            final(self).responder == Some(peer),
            final(self).hops == old(self).hops,
    {
        self.responder = Some(peer);
    }
}

/// The state of an iterative find-content lookup: the candidates found so far, each
/// with its status, the content once a peer delivered it, and the optional trace.
pub struct ContentLookup {
    local_id: NodeId,
    target: NodeId,
    candidates: Vec<NodeInfo>,
    status: Vec<PeerStatus>,
    content: Option<Vec<u8>>,
    trace: Option<QueryTrace>,
    rounds: u64,
}

pub open spec fn ids_of(c: Seq<NodeInfo>) -> Seq<NodeId> {
    c.map_values(|n: NodeInfo| n.node_id)
}

pub open spec fn has_id(c: Seq<NodeInfo>, id: NodeId) -> bool {
    exists|i: int| 0 <= i < c.len() && (#[trigger] c[i]).node_id == id
}

/// Some candidate equal to `n` was fresh.
pub open spec fn was_fresh(c: Seq<NodeInfo>, st: Seq<PeerStatus>, n: NodeInfo) -> bool {
    exists|i: int| 0 <= i < c.len() && i < st.len() && c[i] == n && st[i] == PeerStatus::Fresh
}

/// The statuses after the candidate with identifier `from`, if any, takes status `st`.
pub open spec fn status_after(c: Seq<NodeInfo>, st: Seq<PeerStatus>, from: NodeId, s: PeerStatus) -> Seq<PeerStatus> {
    Seq::new(st.len(), |i: int| if i < c.len() && c[i].node_id == from { s } else { st[i] })
}

/// `n` is the trace `o`, if there is one, with the event `ev` added, and with
/// `found` as its responder and `hops` as its hop count where `found` is given.
pub open spec fn trace_step(o: Option<QueryTrace>, n: Option<QueryTrace>, ev: TraceEvent, found: Option<(NodeId, u64)>) -> bool {
    match (o, n) {
        (Some(o), Some(n)) => {
            &&& n.origin == o.origin
            &&& n.target == o.target
            &&& n.events@ == o.events@.push(ev)
            &&& match found {
                Some((p, h)) => n.responder == Some(p) && n.hops == h,
                None => n.responder == o.responder && n.hops == o.hops,
            }
        },
        (None, None) => true,
        _ => false,
    }
}

/// The candidates whose status is `Responded`, in order.
pub open spec fn responded_of(c: Seq<NodeInfo>, st: Seq<PeerStatus>) -> Seq<NodeInfo>
    decreases c.len(),
{
    if c.len() == 0 || st.len() == 0 {
        Seq::empty()
    } else {
        let rest = responded_of(c.drop_last(), st.drop_last());
        if st.last() == PeerStatus::Responded {
            rest.push(c.last())
        } else {
            rest
        }
    }
}

/// `x` is strictly closer to `target` than every peer of `before`.
pub open spec fn closer_than_all(target: NodeId, x: NodeInfo, before: Seq<NodeInfo>) -> bool {
    forall|i: int| 0 <= i < before.len() ==> dist_lt(
        xor_distance(target, x.node_id),
        xor_distance(target, (#[trigger] before[i]).node_id),
    )
}

/// Some peer of `after` is strictly closer to `target` than every peer of `before`.
pub open spec fn found_closer_spec(target: NodeId, before: Seq<NodeInfo>, after: Seq<NodeInfo>) -> bool {
    exists|j: int| 0 <= j < after.len() && closer_than_all(target, #[trigger] after[j], before)
}

/// Whether a round found a peer closer to `target` than all known before it; a
/// find-nodes lookup stops after a round that did not.
pub fn found_closer(target: &NodeId, before: &Vec<NodeInfo>, after: &Vec<NodeInfo>) -> (r: bool)
    ensures
        r == found_closer_spec(*target, before@, after@),
{
    let mut j: usize = 0;
    while j < after.len()
        invariant
            j <= after@.len(),
            forall|k: int| 0 <= k < j ==> !closer_than_all(*target, #[trigger] after@[k], before@),
        decreases after@.len() - j,
    {
        let dj = distance(target, &after[j].node_id);
        let mut i: usize = 0;
        let mut closer = true;
        while i < before.len()
            invariant
                i <= before@.len(),
                j < after@.len(),
                dj == xor_distance(*target, after@[j as int].node_id),
                closer == forall|k: int| 0 <= k < i ==> dist_lt(
                    xor_distance(*target, after@[j as int].node_id),
                    xor_distance(*target, (#[trigger] before@[k]).node_id),
                ),
            decreases before@.len() - i,
        {
            let di = distance(target, &before[i].node_id);
            if !dj.lt(&di) {
                closer = false;
            }
            i = i + 1;
        }
        assert(closer == closer_than_all(*target, after@[j as int], before@));
        if closer {
            return true;
        }
        j = j + 1;
    }
    false
}

impl ContentLookup {
    pub closed spec fn local(&self) -> NodeId {
        self.local_id
    }

    pub closed spec fn target_spec(&self) -> NodeId {
        self.target
    }

    pub closed spec fn candidates_spec(&self) -> Seq<NodeInfo> {
        self.candidates@
    }

    pub closed spec fn status_spec(&self) -> Seq<PeerStatus> {
        self.status@
    }

    pub closed spec fn content_spec(&self) -> Option<Seq<u8>> {
        match self.content {
            Some(c) => Some(c@),
            None => None,
        }
    }

    pub closed spec fn trace_spec(&self) -> Option<QueryTrace> {
        self.trace
    }

    pub closed spec fn rounds_spec(&self) -> u64 {
        self.rounds
    }

    pub closed spec fn wf(&self) -> bool {
        &&& self.candidates@.len() == self.status@.len()
        &&& forall|i: int| 0 <= i < self.candidates@.len() ==> (#[trigger] self.candidates@[i]).node_id != self.local_id
        &&& forall|i: int, j: int|
            0 <= i < j < self.candidates@.len() ==> (#[trigger] self.candidates@[i]).node_id != (#[trigger] self.candidates@[j]).node_id
    }

    /// The lookup is over: content arrived, or no candidate is left to ask or to wait for.
    pub open spec fn done_spec(&self) -> bool {
        self.content_spec() is Some || forall|i: int|
            0 <= i < self.status_spec().len() ==> {
                let s = #[trigger] self.status_spec()[i];
                s == PeerStatus::Responded || s == PeerStatus::Failed
            }
    }

    fn index_of(&self, id: &NodeId) -> (r: Option<usize>)
        ensures
            match r {
                Some(i) => i < self.candidates@.len() && self.candidates@[i as int].node_id == *id,
                None => !has_id(self.candidates@, *id),
            },
    {
        let mut i: usize = 0;
        while i < self.candidates.len()
            invariant
                i <= self.candidates@.len(),
                forall|j: int| 0 <= j < i ==> (#[trigger] self.candidates@[j]).node_id != *id,
            decreases self.candidates@.len() - i,
        {
            if self.candidates[i].node_id == *id {
                return Some(i);
            }
            i = i + 1;
        }
        None
    }

    /// Adds a peer as a fresh candidate unless it is the local node or already known.
    fn add_candidate(&mut self, node: NodeInfo) -> (added: bool)
        requires
            old(self).wf(),
        ensures
            final(self).wf(),
            final(self).local() == old(self).local(),
            final(self).target_spec() == old(self).target_spec(),
            final(self).content_spec() == old(self).content_spec(),
            final(self).trace_spec() == old(self).trace_spec(),
            final(self).rounds_spec() == old(self).rounds_spec(),
            added == (node.node_id != old(self).local() && !has_id(old(self).candidates_spec(), node.node_id)),
            added ==> final(self).candidates_spec() == old(self).candidates_spec().push(node)
                && final(self).status_spec() == old(self).status_spec().push(PeerStatus::Fresh),
            !added ==> final(self).candidates_spec() == old(self).candidates_spec()
                && final(self).status_spec() == old(self).status_spec(),
    {
        if node.node_id == self.local_id {
            return false;
        }
        match self.index_of(&node.node_id) {
            Some(_) => false,
            None => {
                self.candidates.push(node);
                self.status.push(PeerStatus::Fresh);
                true
            },
        }
    }

    /// A lookup for `target`, seeded with the peers of `seeds` (the local node and repeated
    /// identifiers left out), all fresh, with a trace if `traced`.
    pub fn new(local_id: NodeId, target: NodeId, seeds: &Vec<NodeInfo>, traced: bool) -> (r: ContentLookup)
        ensures
            r.wf(),
            r.local() == local_id,
            r.target_spec() == target,
            r.content_spec() is None,
            r.rounds_spec() == 0,
            traced ==> (r.trace_spec() matches Some(t) && t.origin == local_id && t.target == target
                && t.events@.len() == 0 && t.responder is None),
            !traced ==> r.trace_spec() is None,
            forall|i: int| 0 <= i < r.status_spec().len() ==> #[trigger] r.status_spec()[i] == PeerStatus::Fresh,
            forall|i: int| 0 <= i < r.candidates_spec().len() ==> seeds@.contains(#[trigger] r.candidates_spec()[i]),
            forall|j: int| 0 <= j < seeds@.len() && (#[trigger] seeds@[j]).node_id != local_id
                ==> has_id(r.candidates_spec(), seeds@[j].node_id),
    {
        let trace = if traced { Some(QueryTrace::new(local_id, target)) } else { None };
        let mut r = ContentLookup {
            local_id,
            target,
            candidates: Vec::new(),
            status: Vec::new(),
            content: None,
            trace,
            rounds: 0,
        };
        let mut j: usize = 0;
        while j < seeds.len()
            invariant
                r.wf(),
                r.local() == local_id,
                r.target_spec() == target,
                r.content_spec() is None,
                r.rounds_spec() == 0,
                r.trace_spec() == trace,
                j <= seeds@.len(),
                forall|i: int| 0 <= i < r.status_spec().len() ==> #[trigger] r.status_spec()[i] == PeerStatus::Fresh,
                forall|i: int| 0 <= i < r.candidates_spec().len() ==> seeds@.contains(#[trigger] r.candidates_spec()[i]),
                forall|k: int| 0 <= k < j && (#[trigger] seeds@[k]).node_id != local_id
                    ==> has_id(r.candidates_spec(), seeds@[k].node_id),
            decreases seeds@.len() - j,
        {
            let ghost pre = r.candidates_spec();
            let added = r.add_candidate(seeds[j]);
            proof {
                if added {
                    assert(r.candidates_spec()[pre.len() as int] == seeds@[j as int]);
                    assert forall|k: int| 0 <= k < j && (#[trigger] seeds@[k]).node_id != local_id
                        implies has_id(r.candidates_spec(), seeds@[k].node_id) by {
                        let i = choose|i: int| 0 <= i < pre.len() && (#[trigger] pre[i]).node_id == seeds@[k].node_id;
                        assert(r.candidates_spec()[i] == pre[i]);
                    }
                    assert forall|i: int| 0 <= i < r.candidates_spec().len() implies seeds@.contains(#[trigger] r.candidates_spec()[i]) by {
                        if i < pre.len() {
                            assert(r.candidates_spec()[i] == pre[i]);
                        } else {
                            assert(seeds@[j as int] == r.candidates_spec()[i]);
                        }
                    }
                }
            }
            j = j + 1;
        }
        r
    }

    /// Starts a round: marks as asked, and returns, the at most `alpha` fresh candidates
    /// closest to the target, closest first. Nothing is asked once content has arrived.
    pub fn next_queries(&mut self, alpha: usize) -> (r: Vec<NodeInfo>)
        requires
            old(self).wf(),
        ensures
            final(self).wf(),
            final(self).local() == old(self).local(),
            final(self).target_spec() == old(self).target_spec(),
            final(self).candidates_spec() == old(self).candidates_spec(),
            final(self).content_spec() == old(self).content_spec(),
            final(self).trace_spec() == old(self).trace_spec(),
            final(self).rounds_spec() == if r@.len() > 0 && old(self).rounds_spec() < u64::MAX {
                (old(self).rounds_spec() + 1) as u64
            } else {
                old(self).rounds_spec()
            },
            r@.len() <= alpha,
            forall|i: int| 0 <= i < old(self).status_spec().len() && #[trigger] old(self).status_spec()[i] == PeerStatus::Fresh
                && old(self).content_spec() is None && !has_id(r@, old(self).candidates_spec()[i].node_id)
                ==> r@.len() == alpha && (alpha == 0 || dist_lt(
                    xor_distance(old(self).target_spec(), r@[r@.len() - 1].node_id),
                    xor_distance(old(self).target_spec(), old(self).candidates_spec()[i].node_id),
                )),
            old(self).content_spec() is Some ==> r@.len() == 0,
            old(self).content_spec() is None && alpha > 0
                && (exists|i: int| 0 <= i < old(self).status_spec().len() && #[trigger] old(self).status_spec()[i] == PeerStatus::Fresh)
                ==> r@.len() > 0,
            forall|k: int| 0 <= k < r@.len() ==> was_fresh(old(self).candidates_spec(), old(self).status_spec(), #[trigger] r@[k]),
            forall|i: int| 0 <= i < final(self).status_spec().len() ==> #[trigger] final(self).status_spec()[i] == (
                if has_id(r@, old(self).candidates_spec()[i].node_id) { PeerStatus::Pending } else { old(self).status_spec()[i] }),
            forall|k: int, l: int| 0 <= k < l < r@.len() ==> dist_lt(
                xor_distance(old(self).target_spec(), (#[trigger] r@[k]).node_id),
                xor_distance(old(self).target_spec(), (#[trigger] r@[l]).node_id),
            ),
    {
        let mut r: Vec<NodeInfo> = Vec::new();
        if self.content.is_some() {
            proof {
                assert forall|i: int| 0 <= i < self.status_spec().len() implies #[trigger] self.status_spec()[i] == (
                    if has_id(r@, self.candidates_spec()[i].node_id) { PeerStatus::Pending } else { self.status_spec()[i] }) by {}
            }
            return r;
        }
        let ghost pre = *self;
        let mut pos: Vec<usize> = Vec::new();
        let mut ids: Vec<NodeId> = Vec::new();
        let mut i: usize = 0;
        while i < self.candidates.len()
            invariant
                self.wf(),
                i <= self.candidates@.len(),
                pos@.len() == ids@.len(),
                forall|k: int| 0 <= k < pos@.len() ==> (#[trigger] pos@[k]) < i && self.status@[pos@[k] as int] == PeerStatus::Fresh
                    && ids@[k] == self.candidates@[pos@[k] as int].node_id,
                forall|k: int, l: int| 0 <= k < l < pos@.len() ==> (#[trigger] pos@[k]) < (#[trigger] pos@[l]),
                forall|m: int| 0 <= m < i && self.status@[m] == PeerStatus::Fresh ==> exists|k: int| 0 <= k < pos@.len() && #[trigger] pos@[k] == m,
            decreases self.candidates@.len() - i,
        {
            let ghost prev = pos@;
            if self.status[i] == PeerStatus::Fresh {
                pos.push(i);
                ids.push(self.candidates[i].node_id);
                assert(pos@[pos@.len() - 1] == i);
            }
            proof {
                assert forall|m: int| 0 <= m < i + 1 && self.status@[m] == PeerStatus::Fresh implies
                    exists|k: int| 0 <= k < pos@.len() && #[trigger] pos@[k] == m by {
                    if m < i {
                        let k = choose|k: int| 0 <= k < prev.len() && #[trigger] prev[k] == m;
                        assert(pos@[k] == prev[k]);
                    } else {
                        assert(pos@[pos@.len() - 1] == i);
                    }
                }
            }
            i = i + 1;
        }
        let sel = select_closest(&self.target, &ids, alpha);
        let mut k: usize = 0;
        while k < sel.len()
            invariant
                self.wf(),
                self.local_id == pre.local_id,
                self.target == pre.target,
                self.candidates@ == pre.candidates@,
                self.content == pre.content,
                self.trace == pre.trace,
                self.rounds == pre.rounds,
                is_closest_selection(pre.target, ids@, alpha as nat, sel@),
                pos@.len() == ids@.len(),
                forall|m: int| 0 <= m < pos@.len() ==> (#[trigger] pos@[m]) < pre.candidates@.len() && pre.status@[pos@[m] as int] == PeerStatus::Fresh
                    && ids@[m] == pre.candidates@[pos@[m] as int].node_id,
                forall|c: int| 0 <= c < pre.status@.len() && pre.status@[c] == PeerStatus::Fresh
                    ==> exists|m: int| 0 <= m < pos@.len() && #[trigger] pos@[m] == c,
                k <= sel@.len(),
                r@.len() == k,
                forall|m: int| 0 <= m < k ==> #[trigger] r@[m] == pre.candidates@[pos@[sel@[m] as int] as int],
                forall|c: int| 0 <= c < self.status@.len() ==> #[trigger] self.status@[c] == (
                    if has_id(r@, pre.candidates@[c].node_id) { PeerStatus::Pending } else { pre.status@[c] }),
            decreases sel@.len() - k,
        {
            let p = pos[sel[k]];
            let ghost prev = r@;
            r.push(self.candidates[p]);
            self.status.set(p, PeerStatus::Pending);
            proof {
                assert(r@[k as int] == pre.candidates@[p as int]);
                assert forall|c: int| 0 <= c < self.status@.len() implies #[trigger] self.status@[c] == (
                    if has_id(r@, pre.candidates@[c].node_id) { PeerStatus::Pending } else { pre.status@[c] }) by {
                    if c == p {
                        assert(has_id(r@, pre.candidates@[c].node_id));
                    } else {
                        if has_id(r@, pre.candidates@[c].node_id) {
                            let m = choose|m: int| 0 <= m < r@.len() && (#[trigger] r@[m]).node_id == pre.candidates@[c].node_id;
                            if m < prev.len() {
                                assert(prev[m] == r@[m]);
                                assert(has_id(prev, pre.candidates@[c].node_id));
                            } else {
                                assert(r@[m] == pre.candidates@[p as int]);
                            }
                        } else {
                            assert forall|m: int| 0 <= m < prev.len() implies (#[trigger] prev[m]).node_id != pre.candidates@[c].node_id by {
                                assert(prev[m] == r@[m]);
                            }
                        }
                    }
                }
            }
            k = k + 1;
        }
        if r.len() > 0 && self.rounds < u64::MAX {
            self.rounds = self.rounds + 1;
        }
        proof {
            assert forall|m: int| 0 <= m < r@.len() implies was_fresh(pre.candidates@, pre.status@, #[trigger] r@[m]) by {
                assert(r@[m] == pre.candidates@[pos@[sel@[m] as int] as int]);
            }
            assert forall|a: int, b: int| 0 <= a < b < r@.len() implies dist_lt(
                xor_distance(pre.target, (#[trigger] r@[a]).node_id),
                xor_distance(pre.target, (#[trigger] r@[b]).node_id),
            ) by {
                assert(r@[a].node_id == ids@[sel@[a] as int]);
                assert(r@[b].node_id == ids@[sel@[b] as int]);
            }
            assert forall|c: int| 0 <= c < pre.status_spec().len() && #[trigger] pre.status_spec()[c] == PeerStatus::Fresh
                && pre.content_spec() is None && !has_id(r@, pre.candidates_spec()[c].node_id)
                implies r@.len() == alpha && (alpha == 0 || dist_lt(
                    xor_distance(pre.target_spec(), r@[r@.len() - 1].node_id),
                    xor_distance(pre.target_spec(), pre.candidates_spec()[c].node_id),
                )) by {
                let m = choose|m: int| 0 <= m < pos@.len() && #[trigger] pos@[m] == c;
                assert(ids@[m] == pre.candidates@[c].node_id);
                if chosen(ids@, sel@, ids@[m]) {
                    let k = choose|k: int| 0 <= k < sel@.len() && ids@[sel@[k] as int] == ids@[m];
                    assert(r@[k].node_id == ids@[sel@[k] as int]);
                    assert(has_id(r@, pre.candidates_spec()[c].node_id));
                } else if alpha > 0 {
                    assert(r@[r@.len() - 1].node_id == ids@[sel@[sel@.len() - 1] as int]);
                }
            }
            if alpha > 0 && exists|c: int| 0 <= c < pre.status@.len() && #[trigger] pre.status@[c] == PeerStatus::Fresh {
                let c = choose|c: int| 0 <= c < pre.status@.len() && #[trigger] pre.status@[c] == PeerStatus::Fresh;
                let m = choose|m: int| 0 <= m < pos@.len() && #[trigger] pos@[m] == c;
                assert(ids@.len() > 0);
                assert(ids@[m] == ids@[m]);
            }
        }
        r
    }

    /// Sets the status of the candidate `from`, if it is one; tells its position.
    fn mark(&mut self, from: &NodeId, st: PeerStatus) -> (r: Option<usize>)
        requires
            old(self).wf(),
        ensures
            final(self).wf(),
            final(self).local() == old(self).local(),
            final(self).target_spec() == old(self).target_spec(),
            final(self).candidates_spec() == old(self).candidates_spec(),
            final(self).content_spec() == old(self).content_spec(),
            final(self).trace_spec() == old(self).trace_spec(),
            final(self).rounds_spec() == old(self).rounds_spec(),
            final(self).status_spec() == status_after(old(self).candidates_spec(), old(self).status_spec(), *from, st),
    {
        let ghost pre = self.status@;
        match self.index_of(from) {
            Some(i) => {
                self.status.set(i, st);
                assert(self.status@ =~= status_after(self.candidates@, pre, *from, st));
                Some(i)
            },
            None => {
                assert(self.status@ =~= status_after(self.candidates@, pre, *from, st));
                None
            },
        }
    }

    fn record(&mut self, ev: TraceEvent)
        ensures
            final(self).local() == old(self).local(),
            final(self).target_spec() == old(self).target_spec(),
            final(self).candidates_spec() == old(self).candidates_spec(),
            final(self).status_spec() == old(self).status_spec(),
            final(self).content_spec() == old(self).content_spec(),
            final(self).rounds_spec() == old(self).rounds_spec(),
            trace_step(old(self).trace_spec(), final(self).trace_spec(), ev, None),
            final(self).wf() == old(self).wf(),
    {
        match self.trace.take() {
            Some(mut t) => {
                t.events.push(ev);
                self.trace = Some(t);
            },
            None => {},
        }
    }

    /// The peer `from` answered with the peers `nodes`: it has responded, and each new
    /// peer becomes a fresh candidate.
    pub fn on_nodes(&mut self, from: &NodeId, nodes: &Vec<NodeInfo>)
        requires
            old(self).wf(),
        ensures
            final(self).wf(),
            final(self).local() == old(self).local(),
            final(self).target_spec() == old(self).target_spec(),
            final(self).content_spec() == old(self).content_spec(),
            final(self).rounds_spec() == old(self).rounds_spec(),
            trace_step(old(self).trace_spec(), final(self).trace_spec(),
                TraceEvent { peer: *from, outcome: TraceOutcome::Nodes(nodes@.len() as u64) }, None),
            final(self).candidates_spec().subrange(0, old(self).candidates_spec().len() as int) == old(self).candidates_spec(),
            final(self).status_spec().subrange(0, old(self).status_spec().len() as int)
                == status_after(old(self).candidates_spec(), old(self).status_spec(), *from, PeerStatus::Responded),
            forall|i: int| old(self).status_spec().len() <= i < final(self).status_spec().len()
                ==> #[trigger] final(self).status_spec()[i] == PeerStatus::Fresh,
            forall|i: int| old(self).candidates_spec().len() <= i < final(self).candidates_spec().len()
                ==> nodes@.contains(#[trigger] final(self).candidates_spec()[i]),
            forall|j: int| 0 <= j < nodes@.len() && (#[trigger] nodes@[j]).node_id != old(self).local()
                ==> has_id(final(self).candidates_spec(), nodes@[j].node_id),
    {
        self.record(TraceEvent { peer: *from, outcome: TraceOutcome::Nodes(nodes.len() as u64) });
        self.mark(from, PeerStatus::Responded);
        let ghost c0 = self.candidates@;
        let ghost s0 = self.status@;
        let mut j: usize = 0;
        while j < nodes.len()
            invariant
                self.wf(),
                j <= nodes@.len(),
                self.candidates@.subrange(0, c0.len() as int) == c0,
                self.status@.subrange(0, s0.len() as int) == s0,
                c0.len() == s0.len(),
                c0.len() <= self.candidates@.len(),
                forall|i: int| s0.len() <= i < self.status@.len() ==> #[trigger] self.status@[i] == PeerStatus::Fresh,
                forall|i: int| c0.len() <= i < self.candidates@.len() ==> nodes@.contains(#[trigger] self.candidates@[i]),
                forall|k: int| 0 <= k < j && (#[trigger] nodes@[k]).node_id != self.local_id
                    ==> has_id(self.candidates@, nodes@[k].node_id),
                self.local_id == old(self).local_id,
                self.target == old(self).target,
                self.content_spec() == old(self).content_spec(),
                self.rounds == old(self).rounds,
                trace_step(old(self).trace_spec(), self.trace_spec(),
                    TraceEvent { peer: *from, outcome: TraceOutcome::Nodes(nodes@.len() as u64) }, None),
                s0 == status_after(old(self).candidates_spec(), old(self).status_spec(), *from, PeerStatus::Responded),
                c0 == old(self).candidates@,
            decreases nodes@.len() - j,
        {
            let ghost pre = self.candidates@;
            let ghost spre = self.status@;
            let added = self.add_candidate(nodes[j]);
            proof {
                if added {
                    assert(self.candidates@[pre.len() as int] == nodes@[j as int]);
                    assert(self.candidates@.subrange(0, c0.len() as int) =~= pre.subrange(0, c0.len() as int));
                    assert(self.status@.subrange(0, s0.len() as int) =~= spre.subrange(0, s0.len() as int));
                    assert forall|k: int| 0 <= k < j && (#[trigger] nodes@[k]).node_id != self.local_id
                        implies has_id(self.candidates@, nodes@[k].node_id) by {
                        let i = choose|i: int| 0 <= i < pre.len() && (#[trigger] pre[i]).node_id == nodes@[k].node_id;
                        assert(self.candidates@[i] == pre[i]);
                    }
                    assert forall|i: int| c0.len() <= i < self.candidates@.len() implies nodes@.contains(#[trigger] self.candidates@[i]) by {
                        if i < pre.len() {
                            assert(self.candidates@[i] == pre[i]);
                        } else {
                            assert(nodes@[j as int] == self.candidates@[i]);
                        }
                    }
                    assert forall|i: int| s0.len() <= i < self.status@.len() implies #[trigger] self.status@[i] == PeerStatus::Fresh by {
                        if i < spre.len() {
                            assert(self.status@[i] == spre[i]);
                        }
                    }
                }
            }
            j = j + 1;
        }
    }

    /// The peer `from` delivered content: it has responded, and the first content to
    /// arrive is kept, with `from` as the trace's responder.
    pub fn on_content(&mut self, from: &NodeId, content: Vec<u8>)
        requires
            old(self).wf(),
        ensures
            final(self).wf(),
            final(self).local() == old(self).local(),
            final(self).target_spec() == old(self).target_spec(),
            final(self).candidates_spec() == old(self).candidates_spec(),
            final(self).rounds_spec() == old(self).rounds_spec(),
            final(self).status_spec() == status_after(old(self).candidates_spec(), old(self).status_spec(), *from, PeerStatus::Responded),
            old(self).content_spec() is Some ==> final(self).content_spec() == old(self).content_spec()
                && trace_step(old(self).trace_spec(), final(self).trace_spec(), TraceEvent { peer: *from, outcome: TraceOutcome::Content }, None),
            old(self).content_spec() is None ==> final(self).content_spec() == Some(content@)
                && trace_step(old(self).trace_spec(), final(self).trace_spec(),
                    TraceEvent { peer: *from, outcome: TraceOutcome::Content }, Some((*from, old(self).rounds_spec()))),
    {
        self.record(TraceEvent { peer: *from, outcome: TraceOutcome::Content });
        self.mark(from, PeerStatus::Responded);
        if self.content.is_none() {
            self.content = Some(content);
            match self.trace.take() {
                Some(mut t) => {
                    t.node_responded_with_content(*from);
                    t.hops = self.rounds;
                    self.trace = Some(t);
                },
                None => {},
            }
        }
    }

    /// The peer `from` did not answer in time, or answered with something unreadable:
    /// it leaves this lookup.
    pub fn on_failure(&mut self, from: &NodeId)
        requires
            old(self).wf(),
        ensures
            final(self).wf(),
            final(self).local() == old(self).local(),
            final(self).target_spec() == old(self).target_spec(),
            final(self).candidates_spec() == old(self).candidates_spec(),
            final(self).content_spec() == old(self).content_spec(),
            final(self).rounds_spec() == old(self).rounds_spec(),
            final(self).status_spec() == status_after(old(self).candidates_spec(), old(self).status_spec(), *from, PeerStatus::Failed),
            trace_step(old(self).trace_spec(), final(self).trace_spec(), TraceEvent { peer: *from, outcome: TraceOutcome::NoResponse }, None),
    {
        self.record(TraceEvent { peer: *from, outcome: TraceOutcome::NoResponse });
        self.mark(from, PeerStatus::Failed);
    }

    /// Whether the lookup is over.
    pub fn is_done(&self) -> (r: bool)
        ensures
            r == self.done_spec(),
    {
        if self.content.is_some() {
            return true;
        }
        let mut i: usize = 0;
        while i < self.status.len()
            invariant
                self.content is None,
                i <= self.status@.len(),
                forall|j: int| 0 <= j < i ==> {
                    let s = #[trigger] self.status@[j];
                    s == PeerStatus::Responded || s == PeerStatus::Failed
                },
            decreases self.status@.len() - i,
        {
            if self.status[i] == PeerStatus::Fresh || self.status[i] == PeerStatus::Pending {
                assert(self.content_spec() is None);
                let ghost st = self.status_spec()[i as int];
                assert(st == self.status@[i as int]);
                assert(!(st == PeerStatus::Responded || st == PeerStatus::Failed));
                return false;
            }
            i = i + 1;
        }
        true
    }

    /// The content that arrived, if any, and the trace.
    pub fn finish(self) -> (r: (Option<Vec<u8>>, Option<QueryTrace>))
        ensures
            match r.0 {
                Some(c) => self.content_spec() == Some(c@),
                None => self.content_spec() is None,
            },
            r.1 == self.trace_spec(),
    {
        (self.content, self.trace)
    }

    /// A lookup with no candidate and no content is over, and has no one left to ask.
    pub proof fn lemma_empty_lookup(&self)
        requires
            self.wf(),
            self.candidates_spec().len() == 0,
            self.content_spec() is None,
        ensures
            self.done_spec(),
            forall|n: NodeInfo| !was_fresh(self.candidates_spec(), self.status_spec(), n),
    {
    }

    /// The candidates that have answered, in order of discovery.
    pub fn responded(&self) -> (r: Vec<NodeInfo>)
        requires
            self.wf(),
        ensures
            r@ == responded_of(self.candidates_spec(), self.status_spec()),
    {
        let mut r: Vec<NodeInfo> = Vec::new();
        let mut i: usize = 0;
        while i < self.candidates.len()
            invariant
                self.wf(),
                i <= self.candidates@.len(),
                r@ == responded_of(self.candidates@.subrange(0, i as int), self.status@.subrange(0, i as int)),
            decreases self.candidates@.len() - i,
        {
            proof {
                assert(self.candidates@.subrange(0, i + 1).drop_last() =~= self.candidates@.subrange(0, i as int));
                assert(self.status@.subrange(0, i + 1).drop_last() =~= self.status@.subrange(0, i as int));
            }
            if self.status[i] == PeerStatus::Responded {
                r.push(self.candidates[i]);
            }
            i = i + 1;
        }
        assert(self.candidates@.subrange(0, i as int) =~= self.candidates@);
        assert(self.status@.subrange(0, i as int) =~= self.status@);
        r
    }

    /// The candidates found so far, in order of discovery.
    pub fn candidates(&self) -> (r: Vec<NodeInfo>)
        ensures
            r@ == self.candidates_spec(),
    {
        let mut r: Vec<NodeInfo> = Vec::new();
        let mut i: usize = 0;
        while i < self.candidates.len()
            invariant
                i <= self.candidates@.len(),
                r@ == self.candidates@.subrange(0, i as int),
            decreases self.candidates@.len() - i,
        {
            r.push(self.candidates[i]);
            assert(r@ =~= self.candidates@.subrange(0, i + 1));
            i = i + 1;
        }
        assert(r@ =~= self.candidates@);
        r
    }

    /// The number of rounds started.
    pub fn rounds(&self) -> (r: u64)
        ensures
            r == self.rounds_spec(),
    {
        self.rounds
    }

    /// A well-formed lookup has one status per candidate, and no candidate is the local
    /// node or repeats an identifier.
    pub proof fn lemma_wf_facts(&self)
        requires
            self.wf(),
        ensures
            self.status_spec().len() == self.candidates_spec().len(),
            forall|i: int| 0 <= i < self.candidates_spec().len() ==> (#[trigger] self.candidates_spec()[i]).node_id != self.local(),
            forall|i: int, j: int| 0 <= i < j < self.candidates_spec().len()
                ==> (#[trigger] self.candidates_spec()[i]).node_id != (#[trigger] self.candidates_spec()[j]).node_id,
    {
    }
}

} // verus!
