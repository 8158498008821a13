use vstd::prelude::*;
use crate::distance::{Distance, NodeId, distance, bucket_index, bucket_of, dist_lt, is_zero, xor_distance};
use crate::closest::{select_closest, is_closest_selection, chosen};

verus! {

/// What a peer can be reached by: its identifier, endpoint and record sequence number.
#[derive(Clone, Copy, Debug, PartialEq, Eq, Structural)]
pub struct NodeInfo {
    pub node_id: NodeId,
    pub ip: u32,
    pub port: u16,
    pub enr_seq: u64,
}

/// A known peer: how to reach it, when it last answered, and the radius it advertised.
#[derive(Clone, Copy, Debug, PartialEq, Eq, Structural)]
pub struct PeerRecord {
    pub node: NodeInfo,
    pub last_seen: u64,
    pub radius: Distance,
}

/// What `insert_or_update` did.
#[derive(Clone, Copy, Debug, PartialEq, Eq, Structural)]
pub enum InsertOutcome {
    /// The peer is the local node, which the table never holds.
    IsLocal,
    /// The peer was known; its record was replaced by the new one.
    Updated,
    /// The peer was new and its bucket had room.
    Inserted,
    /// The peer's bucket was full; the named stale peer made room for it.
    Replaced(NodeId),
    /// The peer's bucket was full of fresh peers; the table is unchanged.
    Rejected,
}

pub const NUM_BUCKETS: usize = 256;

/// The bucket that a peer belongs in, as seen from `local`.
pub open spec fn bucket_for(local: NodeId, id: NodeId) -> int {
    bucket_of(xor_distance(local, id)) as int
}

/// A peer is stale when it has not answered for longer than `stale_after` at time `now`.
pub open spec fn is_stale(p: PeerRecord, stale_after: u64, now: u64) -> bool {
    (p.last_seen as int + stale_after as int) < (now as int)
}

pub open spec fn position_of(s: Seq<PeerRecord>, id: NodeId) -> Option<int> {
    if exists|i: int| 0 <= i < s.len() && (#[trigger] s[i]).node.node_id == id {
        Some(choose|i: int| 0 <= i < s.len() && (#[trigger] s[i]).node.node_id == id)
    } else {
        None
    }
}

/// A record of `r` has the identifier `id`, or `r` holds `n` records, all closer to
/// `target` than `id`.
pub open spec fn covers(target: NodeId, n: nat, r: Seq<PeerRecord>, id: NodeId) -> bool {
    (exists|k: int| 0 <= k < r.len() && r[k].node.node_id == id)
    || (r.len() == n && (n == 0 || dist_lt(
        xor_distance(target, r[r.len() - 1].node.node_id),
        xor_distance(target, id),
    )))
}

/// What `insert_or_update(peer, now)` does to the table `o`, leaving `n` and answering `r`.
/// A known peer's record is replaced; a new peer joins a bucket with room; in a full
/// bucket it replaces the stale peer seen longest ago, or is rejected if none is stale.
/// The local node is never inserted; other buckets, the capacity and the staleness
/// limit stay as they were.
pub open spec fn insert_outcome(o: RoutingTable, n: RoutingTable, peer: PeerRecord, now: u64, r: InsertOutcome) -> bool {
    &&& n.local() == o.local()
    &&& n.capacity_spec() == o.capacity_spec()
    &&& n.stale_after_spec() == o.stale_after_spec()
    &&& ({
        let id = peer.node.node_id;
        let b = bucket_for(o.local(), id);
        let ob = o.bucket(b);
        let nb = n.bucket(b);
        let cap = o.capacity_spec();
        let stale_after = o.stale_after_spec();
        if is_zero(xor_distance(o.local(), id)) {
            &&& r == InsertOutcome::IsLocal
            &&& n == o
        } else {
            &&& 0 <= b < NUM_BUCKETS
            &&& forall|c: int| 0 <= c < NUM_BUCKETS && c != b ==> #[trigger] n.bucket(c) == o.bucket(c)
            &&& match position_of(ob, id) {
                Some(i) => r == InsertOutcome::Updated && nb == ob.update(i, peer),
                None => if ob.len() < cap {
                    r == InsertOutcome::Inserted && nb == ob.push(peer)
                } else if exists|i: int| 0 <= i < ob.len() && is_stale(#[trigger] ob[i], stale_after, now) {
                    exists|i: int| {
                        &&& 0 <= i < ob.len()
                        &&& is_stale(#[trigger] ob[i], stale_after, now)
                        &&& forall|j: int| 0 <= j < ob.len() ==> ob[i].last_seen <= (#[trigger] ob[j]).last_seen
                        &&& r == InsertOutcome::Replaced(ob[i].node.node_id)
                        &&& nb == ob.update(i, peer)
                    }
                } else {
                    r == InsertOutcome::Rejected && nb == ob
                },
            }
        }
    })
}

/// The routing table: peers in buckets by distance from the local node.
pub struct RoutingTable {
    local_id: NodeId,
    buckets: Vec<Vec<PeerRecord>>,
    capacity: usize,
    stale_after: u64,
}

impl RoutingTable {
    pub closed spec fn local(&self) -> NodeId {
        self.local_id
    }

    pub closed spec fn capacity_spec(&self) -> nat {
        self.capacity as nat
    }

    pub closed spec fn stale_after_spec(&self) -> u64 {
        self.stale_after
    }

    /// The peers of bucket `b`, where bucket b holds distances in [2^b, 2^(b+1)).
    pub closed spec fn bucket(&self, b: int) -> Seq<PeerRecord> {
        self.buckets@[b]@
    }

    pub closed spec fn wf(&self) -> bool {
        &&& self.buckets@.len() == NUM_BUCKETS
        &&& self.capacity >= 1
        &&& forall|b: int| 0 <= b < NUM_BUCKETS ==> (#[trigger] self.buckets@[b])@.len() <= self.capacity
        &&& forall|b: int, i: int|
            0 <= b < NUM_BUCKETS && 0 <= i < self.buckets@[b]@.len() ==> {
                let id = (#[trigger] self.buckets@[b]@[i]).node.node_id;
                &&& !is_zero(xor_distance(self.local_id, id))
                &&& bucket_for(self.local_id, id) == b
            }
        &&& forall|b: int, i: int, j: int|
            0 <= b < NUM_BUCKETS && 0 <= i < j < self.buckets@[b]@.len() ==>
                (#[trigger] self.buckets@[b]@[i]).node.node_id != (#[trigger] self.buckets@[b]@[j]).node.node_id
    }

    /// The table holds a record with this identifier.
    pub open spec fn has(&self, id: NodeId) -> bool {
        exists|b: int, i: int|
            0 <= b < NUM_BUCKETS && 0 <= i < self.bucket(b).len() && (#[trigger] self.bucket(b)[i]).node.node_id == id
    }

    /// An empty table around the local node.
    pub fn new(local_id: NodeId, capacity: usize, stale_after: u64) -> (r: RoutingTable)
        requires
            capacity >= 1,
        ensures
            r.wf(),
            r.local() == local_id,
            r.capacity_spec() == capacity,
            r.stale_after_spec() == stale_after,
            forall|b: int| 0 <= b < NUM_BUCKETS ==> (#[trigger] r.bucket(b)).len() == 0,
    {
        let mut buckets: Vec<Vec<PeerRecord>> = Vec::new();
        let mut i: usize = 0;
        while i < NUM_BUCKETS
            invariant
                i <= NUM_BUCKETS,
                buckets@.len() == i,
                forall|b: int| 0 <= b < i ==> (#[trigger] buckets@[b])@.len() == 0,
            decreases NUM_BUCKETS - i,
        {
            buckets.push(Vec::new());
            i = i + 1;
        }
        RoutingTable { local_id, buckets, capacity, stale_after }
    }

    pub fn local_id(&self) -> (r: NodeId)
        ensures
            r == self.local(),
    {
        self.local_id
    }

    fn copy_bucket(&self, b: usize) -> (r: Vec<PeerRecord>)
        requires
            b < self.buckets@.len(),
        ensures
            r@ == self.buckets@[b as int]@,
    {
        let mut r: Vec<PeerRecord> = Vec::new();
        let mut i: usize = 0;
        while i < self.buckets[b].len()
            invariant
                b < self.buckets@.len(),
                i <= self.buckets@[b as int]@.len(),
                r@ == self.buckets@[b as int]@.subrange(0, i as int),
            decreases self.buckets@[b as int]@.len() - i,
        {
            r.push(self.buckets[b][i]);
            assert(r@ =~= self.buckets@[b as int]@.subrange(0, i + 1));
            i = i + 1;
        }
        assert(r@ =~= self.buckets@[b as int]@);
        r
    }

    fn find_in(bucket: &Vec<PeerRecord>, id: &NodeId) -> (r: Option<usize>)
        ensures
            match r {
                Some(i) => i < bucket@.len() && bucket@[i as int].node.node_id == *id,
                None => forall|i: int| 0 <= i < bucket@.len() ==> (#[trigger] bucket@[i]).node.node_id != *id,
            },
    {
        let mut i: usize = 0;
        while i < bucket.len()
            invariant
                i <= bucket@.len(),
                forall|j: int| 0 <= j < i ==> (#[trigger] bucket@[j]).node.node_id != *id,
            decreases bucket@.len() - i,
        {
            if bucket[i].node.node_id == *id {
                return Some(i);
            }
            i = i + 1;
        }
        None
    }

    /// Records a peer that answered. A known peer's record is replaced. A new peer
    /// joins its bucket if there is room; in a full bucket it takes the place of the
    /// stale peer seen longest ago, and is rejected if no peer there is stale.
    pub fn insert_or_update(&mut self, peer: PeerRecord, now: u64) -> (r: InsertOutcome)
        requires
            old(self).wf(),
        ensures
            final(self).wf(),
            insert_outcome(*old(self), *final(self), peer, now, r),
    {
        let id = peer.node.node_id;
        let d = distance(&self.local_id, &id);
        if d.is_zero() {
            return InsertOutcome::IsLocal;
        }
        let b = bucket_index(&d) as usize;
        let ghost pre = *self;
        let ghost ob = pre.bucket(b as int);
        let mut bk = self.copy_bucket(b);
        let outcome;
        match Self::find_in(&bk, &id) {
            Some(i) => {
                proof {
                    let k = choose|k: int| 0 <= k < ob.len() && (#[trigger] ob[k]).node.node_id == id;
                    assert(k == i as int);
                }
                bk.set(i, peer);
                outcome = InsertOutcome::Updated;
            },
            None => {
                assert(position_of(ob, id) is None);
                if bk.len() < self.capacity {
                    bk.push(peer);
                    outcome = InsertOutcome::Inserted;
                } else {
                    let mut oldest: usize = 0;
                    let mut j: usize = 1;
                    while j < bk.len()
                        invariant
                            bk@ == ob,
                            ob.len() >= 1,
                            1 <= j <= ob.len(),
                            oldest < j,
                            forall|k: int| 0 <= k < j ==> ob[oldest as int].last_seen <= (#[trigger] ob[k]).last_seen,
                        decreases ob.len() - j,
                    {
                        if bk[j].last_seen < bk[oldest].last_seen {
                            oldest = j;
                        }
                        j = j + 1;
                    }
                    let e = bk[oldest];
                    if (e.last_seen as u128) + (self.stale_after as u128) < (now as u128) {
                        bk.set(oldest, peer);
                        outcome = InsertOutcome::Replaced(e.node.node_id);
                    } else {
                        assert forall|i: int| 0 <= i < ob.len() implies !is_stale(#[trigger] ob[i], pre.stale_after, now) by {
                            assert(ob[oldest as int].last_seen <= ob[i].last_seen);
                        }
                        return InsertOutcome::Rejected;
                    }
                }
            },
        }
        self.buckets.set(b, bk);
        proof {
            assert forall|c: int| 0 <= c < NUM_BUCKETS && c != b implies #[trigger] self.bucket(c) == pre.bucket(c) by {}
            assert forall|c: int, i: int| 0 <= c < NUM_BUCKETS && 0 <= i < self.buckets@[c]@.len() implies {
                let x = (#[trigger] self.buckets@[c]@[i]).node.node_id;
                &&& !is_zero(xor_distance(self.local_id, x))
                &&& bucket_for(self.local_id, x) == c
            } by {
                if c != b {
                    assert(self.buckets@[c] == pre.buckets@[c]);
                } else if self.buckets@[c]@[i] != peer {
                    assert(exists|k: int| 0 <= k < ob.len() && ob[k] == self.buckets@[c]@[i]);
                }
            }
            assert forall|c: int, i: int, j: int|
                0 <= c < NUM_BUCKETS && 0 <= i < j < self.buckets@[c]@.len() implies
                (#[trigger] self.buckets@[c]@[i]).node.node_id != (#[trigger] self.buckets@[c]@[j]).node.node_id by {
                if c != b {
                    assert(self.buckets@[c] == pre.buckets@[c]);
                } else {
                    assert(self.buckets@[c]@ == bk@);
                }
            }
        }
        outcome
    }

    /// Drops the peer with this identifier; tells whether it was there.
    pub fn remove(&mut self, id: &NodeId) -> (r: bool)
        requires
            old(self).wf(),
        ensures
            final(self).wf(),
            r == old(self).has(*id),
            !final(self).has(*id),
            !r ==> *final(self) == *old(self),
            r ==> exists|b: int, i: int| {
                &&& 0 <= b < NUM_BUCKETS
                &&& 0 <= i < old(self).bucket(b).len()
                &&& (#[trigger] old(self).bucket(b)[i]).node.node_id == *id
                &&& final(self).bucket(b) == old(self).bucket(b).remove(i)
                &&& forall|c: int| 0 <= c < NUM_BUCKETS && c != b ==> #[trigger] final(self).bucket(c) == old(self).bucket(c)
            },
            final(self).local() == old(self).local(),
            final(self).capacity_spec() == old(self).capacity_spec(),
            final(self).stale_after_spec() == old(self).stale_after_spec(),
    {
        let ghost pre = *self;
        let d = distance(&self.local_id, id);
        if d.is_zero() {
            proof {
                assert forall|b: int, i: int| 0 <= b < NUM_BUCKETS && 0 <= i < pre.bucket(b).len() implies
                    (#[trigger] pre.bucket(b)[i]).node.node_id != *id by {
                    assert(!is_zero(xor_distance(pre.local_id, pre.buckets@[b]@[i].node.node_id)));
                }
            }
            return false;
        }
        let b = bucket_index(&d) as usize;
        let mut bk = self.copy_bucket(b);
        let ghost ob = bk@;
        proof {
            assert forall|c: int, i: int| 0 <= c < NUM_BUCKETS && c != b && 0 <= i < pre.bucket(c).len() implies
                (#[trigger] pre.bucket(c)[i]).node.node_id != *id by {
                assert(bucket_for(pre.local_id, pre.buckets@[c]@[i].node.node_id) == c);
            }
        }
        match Self::find_in(&bk, id) {
            None => {
                false
            },
            Some(i) => {
                bk.remove(i);
                self.buckets.set(b, bk);
                proof {
                    assert forall|c: int| 0 <= c < NUM_BUCKETS && c != b implies #[trigger] self.buckets@[c] == pre.buckets@[c] by {}
                    assert forall|k: int| 0 <= k < self.bucket(b as int).len() implies
                        (#[trigger] self.bucket(b as int)[k]).node.node_id != *id by {
                        if k < i {
                            assert(self.bucket(b as int)[k] == ob[k]);
                        } else {
                            assert(self.bucket(b as int)[k] == ob[k + 1]);
                        }
                    }
                    assert forall|c: int, k: int| 0 <= c < NUM_BUCKETS && 0 <= k < self.buckets@[c]@.len() implies {
                        let x = (#[trigger] self.buckets@[c]@[k]).node.node_id;
                        &&& !is_zero(xor_distance(self.local_id, x))
                        &&& bucket_for(self.local_id, x) == c
                    } by {
                        if c == b {
                            if k < i {
                                assert(self.buckets@[c]@[k] == ob[k]);
                            } else {
                                assert(self.buckets@[c]@[k] == ob[k + 1]);
                            }
                        }
                    }
                    assert forall|c: int, k: int, l: int|
                        0 <= c < NUM_BUCKETS && 0 <= k < l < self.buckets@[c]@.len() implies
                        (#[trigger] self.buckets@[c]@[k]).node.node_id != (#[trigger] self.buckets@[c]@[l]).node.node_id by {
                        if c == b {
                            let k2 = if k < i { k } else { k + 1 };
                            let l2 = if l < i { l } else { l + 1 };
                            assert(self.buckets@[c]@[k] == ob[k2]);
                            assert(self.buckets@[c]@[l] == ob[l2]);
                        }
                    }
                    assert(self.bucket(b as int) =~= ob.remove(i as int));
                    assert(pre.bucket(b as int)[i as int].node.node_id == *id);
                }
                true
            },
        }
    }

    /// The records of buckets 0 to n - 1, bucket by bucket.
    pub closed spec fn records_upto(&self, n: int) -> Seq<PeerRecord>
        decreases n,
    {
        if n <= 0 {
            Seq::empty()
        } else {
            self.records_upto(n - 1) + self.bucket(n - 1)
        }
    }

    /// Every record of the table, bucket by bucket.
    pub open spec fn records(&self) -> Seq<PeerRecord> {
        self.records_upto(NUM_BUCKETS as int)
    }

    /// Some bucket below `n` holds the record `p`.
    pub open spec fn in_buckets_below(&self, n: int, p: PeerRecord) -> bool {
        exists|b: int, i: int| 0 <= b < n && 0 <= i < self.bucket(b).len() && #[trigger] self.bucket(b)[i] == p
    }

    /// The table holds the record `p`.
    pub open spec fn in_table(&self, p: PeerRecord) -> bool {
        self.in_buckets_below(NUM_BUCKETS as int, p)
    }

    proof fn lemma_records_upto(&self, n: int)
        requires
            0 <= n <= NUM_BUCKETS,
        ensures
            forall|m: int| 0 <= m < self.records_upto(n).len() ==> self.in_buckets_below(n, #[trigger] self.records_upto(n)[m]),
            forall|b: int, i: int| 0 <= b < n && 0 <= i < self.bucket(b).len() ==> self.records_upto(n).contains(#[trigger] self.bucket(b)[i]),
        decreases n,
    {
        if n > 0 {
            self.lemma_records_upto(n - 1);
            let p = self.records_upto(n - 1);
            let q = self.bucket(n - 1);
            assert(self.records_upto(n) == p + q);
            assert forall|m: int| 0 <= m < self.records_upto(n).len() implies self.in_buckets_below(n, #[trigger] self.records_upto(n)[m]) by {
                if m < p.len() {
                    assert(self.records_upto(n)[m] == p[m]);
                    assert(self.in_buckets_below(n - 1, p[m]));
                } else {
                    assert(self.records_upto(n)[m] == q[m - p.len()]);
                    assert(self.bucket(n - 1)[m - p.len()] == q[m - p.len()]);
                }
            }
            assert forall|b: int, i: int| 0 <= b < n && 0 <= i < self.bucket(b).len() implies self.records_upto(n).contains(#[trigger] self.bucket(b)[i]) by {
                if b < n - 1 {
                    assert(p.contains(self.bucket(b)[i]));
                    let m = choose|m: int| 0 <= m < p.len() && p[m] == self.bucket(b)[i];
                    assert(self.records_upto(n)[m] == p[m]);
                } else {
                    assert(self.records_upto(n)[p.len() + i] == q[i]);
                }
            }
        }
    }

    /// In a well-formed table, every peer of bucket b is at a distance in [2^b, 2^(b+1))
    /// from the local node, is not the local node, and appears once in its bucket; no
    /// bucket holds more than the capacity.
    pub proof fn lemma_bucket_facts(&self)
        requires
            self.wf(),
        ensures
            forall|b: int, i: int| 0 <= b < NUM_BUCKETS && 0 <= i < self.bucket(b).len() ==> {
                let id = (#[trigger] self.bucket(b)[i]).node.node_id;
                &&& bucket_for(self.local(), id) == b
                &&& !is_zero(xor_distance(self.local(), id))
                &&& id != self.local()
            },
            forall|b: int| 0 <= b < NUM_BUCKETS ==> (#[trigger] self.bucket(b)).len() <= self.capacity_spec(),
            forall|b: int, i: int, j: int| 0 <= b < NUM_BUCKETS && 0 <= i < j < self.bucket(b).len()
                ==> (#[trigger] self.bucket(b)[i]).node.node_id != (#[trigger] self.bucket(b)[j]).node.node_id,
    {
        crate::distance::lemma_distance_zero_iff_equal(self.local_id, self.local_id);
        assert forall|b: int, i: int| 0 <= b < NUM_BUCKETS && 0 <= i < self.bucket(b).len() implies {
            let id = (#[trigger] self.bucket(b)[i]).node.node_id;
            &&& bucket_for(self.local(), id) == b
            &&& !is_zero(xor_distance(self.local(), id))
            &&& id != self.local()
        } by {
            assert(self.buckets@[b]@[i] == self.bucket(b)[i]);
        }
        assert forall|b: int, i: int, j: int| 0 <= b < NUM_BUCKETS && 0 <= i < j < self.bucket(b).len()
            implies (#[trigger] self.bucket(b)[i]).node.node_id != (#[trigger] self.bucket(b)[j]).node.node_id by {
            assert(self.buckets@[b]@[i] == self.bucket(b)[i]);
            assert(self.buckets@[b]@[j] == self.bucket(b)[j]);
        }
        assert forall|b: int| 0 <= b < NUM_BUCKETS implies (#[trigger] self.bucket(b)).len() <= self.capacity_spec() by {
            assert(self.buckets@[b]@.len() <= self.capacity);
        }
    }

    proof fn lemma_records_upto_distinct(&self, n: int)
        requires
            self.wf(),
            0 <= n <= NUM_BUCKETS,
        ensures
            forall|m: int| 0 <= m < self.records_upto(n).len() ==>
                bucket_for(self.local(), (#[trigger] self.records_upto(n)[m]).node.node_id) < n,
            forall|m: int, l: int| 0 <= m < l < self.records_upto(n).len() ==>
                (#[trigger] self.records_upto(n)[m]).node.node_id != (#[trigger] self.records_upto(n)[l]).node.node_id,
        decreases n,
    {
        self.lemma_bucket_facts();
        if n > 0 {
            self.lemma_records_upto_distinct(n - 1);
            let p = self.records_upto(n - 1);
            let q = self.bucket(n - 1);
            let all = self.records_upto(n);
            assert(all == p + q);
            assert forall|m: int| 0 <= m < all.len() implies bucket_for(self.local(), (#[trigger] all[m]).node.node_id) < n by {
                if m < p.len() {
                    assert(all[m] == p[m]);
                } else {
                    assert(all[m] == q[m - p.len()]);
                }
            }
            assert forall|m: int, l: int| 0 <= m < l < all.len() implies
                (#[trigger] all[m]).node.node_id != (#[trigger] all[l]).node.node_id by {
                if l < p.len() {
                    assert(all[m] == p[m]);
                    assert(all[l] == p[l]);
                } else if m < p.len() {
                    assert(all[m] == p[m]);
                    assert(all[l] == q[l - p.len()]);
                    assert(bucket_for(self.local(), p[m].node.node_id) < n - 1);
                } else {
                    assert(all[m] == q[m - p.len()]);
                    assert(all[l] == q[l - p.len()]);
                }
            }
        }
    }

    /// The records of a well-formed table: exactly the peers of its buckets, each listed
    /// once, none of them the local node, each in the bucket of its distance.
    pub proof fn lemma_records(&self)
        requires
            self.wf(),
        ensures
            forall|m: int| 0 <= m < self.records().len() ==> self.in_table(#[trigger] self.records()[m]),
            forall|b: int, i: int| 0 <= b < NUM_BUCKETS && 0 <= i < self.bucket(b).len() ==> self.records().contains(#[trigger] self.bucket(b)[i]),
            forall|m: int| 0 <= m < self.records().len() ==> {
                let id = (#[trigger] self.records()[m]).node.node_id;
                &&& id != self.local()
                &&& !is_zero(xor_distance(self.local(), id))
                &&& 0 <= bucket_for(self.local(), id) < NUM_BUCKETS
                &&& self.bucket(bucket_for(self.local(), id)).contains(self.records()[m])
            },
            forall|m: int, l: int| 0 <= m < l < self.records().len() ==>
                (#[trigger] self.records()[m]).node.node_id != (#[trigger] self.records()[l]).node.node_id,
    {
        self.lemma_records_upto(NUM_BUCKETS as int);
        self.lemma_records_upto_distinct(NUM_BUCKETS as int);
        self.lemma_bucket_facts();
        assert forall|m: int| 0 <= m < self.records().len() implies {
            let id = (#[trigger] self.records()[m]).node.node_id;
            &&& id != self.local()
            &&& !is_zero(xor_distance(self.local(), id))
            &&& 0 <= bucket_for(self.local(), id) < NUM_BUCKETS
            &&& self.bucket(bucket_for(self.local(), id)).contains(self.records()[m])
        } by {
            assert(self.in_buckets_below(NUM_BUCKETS as int, self.records()[m]));
            let (b, i) = choose|b: int, i: int| 0 <= b < NUM_BUCKETS && 0 <= i < self.bucket(b).len()
                && #[trigger] self.bucket(b)[i] == self.records()[m];
            assert(self.bucket(b)[i] == self.records()[m]);
        }
    }

    /// Every record of the table, bucket by bucket, for diagnostics.
    pub fn bucket_snapshot(&self) -> (r: Vec<PeerRecord>)
        requires
            self.wf(),
        ensures
            r@ == self.records(),
            forall|m: int| 0 <= m < r@.len() ==> self.in_table(#[trigger] r@[m]),
            forall|b: int, i: int| 0 <= b < NUM_BUCKETS && 0 <= i < self.bucket(b).len() ==> r@.contains(#[trigger] self.bucket(b)[i]),
            forall|m: int| 0 <= m < r@.len() ==> {
                let id = (#[trigger] r@[m]).node.node_id;
                &&& id != self.local()
                &&& !is_zero(xor_distance(self.local(), id))
                &&& 0 <= bucket_for(self.local(), id) < NUM_BUCKETS
                &&& self.bucket(bucket_for(self.local(), id)).contains(r@[m])
            },
            forall|m: int, l: int| 0 <= m < l < r@.len() ==>
                (#[trigger] r@[m]).node.node_id != (#[trigger] r@[l]).node.node_id,
    {
        proof {
            self.lemma_records();
        }
        let mut r: Vec<PeerRecord> = Vec::new();
        let mut b: usize = 0;
        while b < NUM_BUCKETS
            invariant
                self.wf(),
                b <= NUM_BUCKETS,
                r@ == self.records_upto(b as int),
            decreases NUM_BUCKETS - b,
        {
            let mut i: usize = 0;
            while i < self.buckets[b].len()
                invariant
                    self.wf(),
                    b < NUM_BUCKETS,
                    i <= self.bucket(b as int).len(),
                    r@ == self.records_upto(b as int) + self.bucket(b as int).subrange(0, i as int),
                decreases self.bucket(b as int).len() - i,
            {
                r.push(self.buckets[b][i]);
                assert(r@ =~= self.records_upto(b as int) + self.bucket(b as int).subrange(0, i + 1));
                i = i + 1;
            }
            assert(self.bucket(b as int).subrange(0, i as int) =~= self.bucket(b as int));
            b = b + 1;
        }
        proof {
            assert forall|m: int| 0 <= m < r@.len() implies self.in_table(#[trigger] r@[m]) && {
                let id = r@[m].node.node_id;
                &&& id != self.local()
                &&& !is_zero(xor_distance(self.local(), id))
                &&& 0 <= bucket_for(self.local(), id) < NUM_BUCKETS
                &&& self.bucket(bucket_for(self.local(), id)).contains(r@[m])
            } by {
                assert(r@[m] == self.records()[m]);
            }
        }
        r
    }

    /// Up to `n` peers of the table closest to `target`, closest first. A peer left
    /// out is farther than every peer returned, and only left out when `n` were returned.
    pub fn closest_peers(&self, target: &NodeId, n: usize) -> (r: Vec<PeerRecord>)
        requires
            self.wf(),
        ensures
            r@.len() <= n,
            forall|k: int| 0 <= k < r@.len() ==> self.in_table(#[trigger] r@[k]),
            forall|k: int| 0 <= k < r@.len() ==> (#[trigger] r@[k]).node.node_id != self.local(),
            forall|k: int, l: int| 0 <= k < l < r@.len() ==> dist_lt(
                xor_distance(*target, (#[trigger] r@[k]).node.node_id),
                xor_distance(*target, (#[trigger] r@[l]).node.node_id),
            ),
            forall|b: int, i: int| 0 <= b < NUM_BUCKETS && 0 <= i < self.bucket(b).len() ==>
                covers(*target, n as nat, r@, (#[trigger] self.bucket(b)[i]).node.node_id),
    {
        let all = self.bucket_snapshot();
        proof {
            self.lemma_records_upto(NUM_BUCKETS as int);
        }
        let mut ids: Vec<NodeId> = Vec::new();
        let mut m: usize = 0;
        while m < all.len()
            invariant
                m <= all@.len(),
                ids@.len() == m,
                forall|j: int| 0 <= j < m ==> #[trigger] ids@[j] == all@[j].node.node_id,
            decreases all@.len() - m,
        {
            ids.push(all[m].node.node_id);
            m = m + 1;
        }
        let sel = select_closest(target, &ids, n);
        let mut r: Vec<PeerRecord> = Vec::new();
        let mut k: usize = 0;
        while k < sel.len()
            invariant
                is_closest_selection(*target, ids@, n as nat, sel@),
                ids@.len() == all@.len(),
                forall|j: int| 0 <= j < ids@.len() ==> #[trigger] ids@[j] == all@[j].node.node_id,
                k <= sel@.len(),
                r@.len() == k,
                forall|j: int| 0 <= j < k ==> #[trigger] r@[j] == all@[sel@[j] as int],
            decreases sel@.len() - k,
        {
            r.push(all[sel[k]]);
            k = k + 1;
        }
        proof {
            self.lemma_closest_peers(*target, n, all@, ids@, sel@, r@);
        }
        r
    }

    proof fn lemma_closest_peers(&self, target: NodeId, n: usize, all: Seq<PeerRecord>, ids: Seq<NodeId>, sel: Seq<usize>, r: Seq<PeerRecord>)
        requires
            self.wf(),
            all == self.records(),
            is_closest_selection(target, ids, n as nat, sel),
            ids.len() == all.len(),
            forall|j: int| 0 <= j < ids.len() ==> #[trigger] ids[j] == all[j].node.node_id,
            r.len() == sel.len(),
            forall|j: int| 0 <= j < r.len() ==> #[trigger] r[j] == all[sel[j] as int],
        ensures
            forall|k: int| 0 <= k < r.len() ==> self.in_table(#[trigger] r[k]),
            forall|k: int| 0 <= k < r.len() ==> (#[trigger] r[k]).node.node_id != self.local(),
            forall|k: int, l: int| 0 <= k < l < r.len() ==> dist_lt(
                xor_distance(target, (#[trigger] r[k]).node.node_id),
                xor_distance(target, (#[trigger] r[l]).node.node_id),
            ),
            forall|b: int, i: int| 0 <= b < NUM_BUCKETS && 0 <= i < self.bucket(b).len() ==>
                covers(target, n as nat, r, (#[trigger] self.bucket(b)[i]).node.node_id),
    {
        self.lemma_records_upto(NUM_BUCKETS as int);
        assert forall|k: int| 0 <= k < r.len() implies self.in_table(#[trigger] r[k]) by {
            assert(r[k] == self.records()[sel[k] as int]);
        }
        assert forall|k: int| 0 <= k < r.len() implies (#[trigger] r[k]).node.node_id != self.local() by {
            assert(self.in_table(r[k]));
            let (b, i) = choose|b: int, i: int|
                0 <= b < NUM_BUCKETS && 0 <= i < self.bucket(b).len() && #[trigger] self.bucket(b)[i] == r[k];
            assert(self.buckets@[b]@[i] == r[k]);
            crate::distance::lemma_distance_zero_iff_equal(self.local_id, self.local_id);
        }
        assert forall|k: int, l: int| 0 <= k < l < r.len() implies dist_lt(
            xor_distance(target, (#[trigger] r[k]).node.node_id),
            xor_distance(target, (#[trigger] r[l]).node.node_id),
        ) by {
            assert(ids[sel[k] as int] == r[k].node.node_id);
            assert(ids[sel[l] as int] == r[l].node.node_id);
        }
        assert forall|b: int, i: int| 0 <= b < NUM_BUCKETS && 0 <= i < self.bucket(b).len() implies
            covers(target, n as nat, r, (#[trigger] self.bucket(b)[i]).node.node_id) by {
            assert(self.records().contains(self.bucket(b)[i]));
            let m = choose|m: int| 0 <= m < all.len() && all[m] == self.bucket(b)[i];
            assert(ids[m] == self.bucket(b)[i].node.node_id);
            assert(chosen(ids, sel, ids[m]) || (sel.len() == n && (n == 0 || dist_lt(
                xor_distance(target, ids[sel[sel.len() - 1] as int]),
                xor_distance(target, ids[m]),
            ))));
            if chosen(ids, sel, ids[m]) {
                let k = choose|k: int| 0 <= k < sel.len() && ids[sel[k] as int] == ids[m];
                assert(r[k].node.node_id == ids[sel[k] as int]);
                assert(0 <= k < r.len() && r[k].node.node_id == self.bucket(b)[i].node.node_id);
            } else if n > 0 {
                assert(r[r.len() - 1] == all[sel[sel.len() - 1] as int]);
                assert(r[r.len() - 1].node.node_id == ids[sel[sel.len() - 1] as int]);
            }
        }
    }

    /// No bucket of a well-formed table holds more peers than the capacity, however many
    /// distinct peers at the same distance were inserted.
    pub proof fn lemma_bucket_bounded(&self, b: int)
        requires
            self.wf(),
            0 <= b < NUM_BUCKETS,
        ensures
            self.bucket(b).len() <= self.capacity_spec(),
    {
        assert(self.buckets@[b]@.len() <= self.capacity);
    }

    /// A well-formed table never holds the local node.
    pub proof fn lemma_local_absent(&self)
        requires
            self.wf(),
        ensures
            !self.has(self.local()),
    {
        crate::distance::lemma_distance_zero_iff_equal(self.local_id, self.local_id);
        if self.has(self.local_id) {
            let (b, i) = choose|b: int, i: int|
                0 <= b < NUM_BUCKETS && 0 <= i < self.bucket(b).len() && (#[trigger] self.bucket(b)[i]).node.node_id == self.local_id;
            assert(self.buckets@[b]@[i].node.node_id == self.local_id);
        }
    }
}

} // verus!
