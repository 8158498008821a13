use vstd::prelude::*;
use crate::closest::{select_closest, is_closest_selection, chosen};
use crate::content::{content_id, content_id_of};
use crate::distance::{NodeId, distance, dist_le, dist_lt, xor_distance};
use crate::routing::{NodeInfo, PeerRecord, RoutingTable};

verus! {

/// The peer claims to hold content at the identifier `cid`: it is within the peer's radius.
pub open spec fn covers_id(p: PeerRecord, cid: NodeId) -> bool {
    dist_le(xor_distance(p.node.node_id, cid), p.radius)
}

/// The table holds a peer reached by `n` whose radius covers `cid`.
pub open spec fn eligible_target(table: RoutingTable, cid: NodeId, n: NodeInfo) -> bool {
    exists|m: int| 0 <= m < table.records().len() && table.records()[m].node == n && covers_id(table.records()[m], cid)
}

pub open spec fn has_node_id(s: Seq<NodeInfo>, id: NodeId) -> bool {
    exists|k: int| 0 <= k < s.len() && s[k].node_id == id
}

/// The total number of peers over all plans.
pub open spec fn total_targets(plans: Seq<Vec<NodeInfo>>) -> int
    decreases plans.len(),
{
    if plans.len() == 0 {
        0
    } else {
        total_targets(plans.drop_last()) + plans.last()@.len()
    }
}

/// `plan` lists, closest first, the at most `fanout` peers (never the local node) of the table nearest to `cid`
/// among those whose radius covers it: a covering peer left out is farther than every
/// peer listed, and only left out when `fanout` peers are listed.
pub open spec fn is_gossip_plan(table: RoutingTable, cid: NodeId, fanout: nat, plan: Seq<NodeInfo>) -> bool {
    &&& plan.len() <= fanout
    &&& forall|k: int| 0 <= k < plan.len() ==> eligible_target(table, cid, #[trigger] plan[k])
    &&& forall|k: int| 0 <= k < plan.len() ==> (#[trigger] plan[k]).node_id != table.local()
    &&& forall|k: int, l: int| 0 <= k < l < plan.len() ==> dist_lt(
        xor_distance(cid, (#[trigger] plan[k]).node_id),
        xor_distance(cid, (#[trigger] plan[l]).node_id),
    )
    &&& forall|m: int| 0 <= m < table.records().len() && covers_id(#[trigger] table.records()[m], cid) ==>
        has_node_id(plan, table.records()[m].node.node_id) || (plan.len() == fanout && (fanout == 0 || dist_lt(
            xor_distance(cid, plan[plan.len() - 1].node_id),
            xor_distance(cid, table.records()[m].node.node_id),
        )))
}

/// The peers to push content with identifier `cid` to: the at most `fanout` peers of the
/// table closest to `cid` among those whose radius covers it, closest first.
pub fn gossip_targets(table: &RoutingTable, cid: &NodeId, fanout: usize) -> (r: Vec<NodeInfo>)
    requires
        table.wf(),
    ensures
        is_gossip_plan(*table, *cid, fanout as nat, r@),
{
    let all = table.bucket_snapshot();
    let mut eligible: Vec<NodeInfo> = Vec::new();
    let mut ids: Vec<NodeId> = Vec::new();
    let mut m: usize = 0;
    while m < all.len()
        invariant
            all@ == table.records(),
            m <= all@.len(),
            eligible@.len() == ids@.len(),
            forall|k: int| 0 <= k < eligible@.len() ==> #[trigger] ids@[k] == eligible@[k].node_id,
            forall|k: int| 0 <= k < eligible@.len() ==> exists|q: int|
                0 <= q < all@.len() && all@[q].node == #[trigger] eligible@[k] && covers_id(all@[q], *cid),
            forall|q: int| 0 <= q < m && covers_id(#[trigger] all@[q], *cid) ==> ids@.contains(all@[q].node.node_id),
        decreases all@.len() - m,
    {
        let p = all[m];
        let d = distance(&p.node.node_id, cid);
        let ghost prev_ids = ids@;
        if d.le(&p.radius) {
            eligible.push(p.node);
            ids.push(p.node.node_id);
            proof {
                crate::distance::lemma_distance_symmetric(p.node.node_id, *cid);
                assert(ids@[ids@.len() - 1] == p.node.node_id);
                assert forall|q: int| 0 <= q < m + 1 && covers_id(#[trigger] all@[q], *cid) implies ids@.contains(all@[q].node.node_id) by {
                    if q < m {
                        let z = choose|z: int| 0 <= z < prev_ids.len() && prev_ids[z] == all@[q].node.node_id;
                        assert(ids@[z] == prev_ids[z]);
                    }
                }
                assert forall|k: int| 0 <= k < eligible@.len() implies exists|q: int|
                    0 <= q < all@.len() && all@[q].node == #[trigger] eligible@[k] && covers_id(all@[q], *cid) by {
                    if k == eligible@.len() - 1 {
                        assert(all@[m as int].node == eligible@[k]);
                    }
                }
            }
        }
        else {
            proof {
                crate::distance::lemma_distance_symmetric(p.node.node_id, *cid);
            }
        }
        m = m + 1;
    }
    let sel = select_closest(cid, &ids, fanout);
    let mut r: Vec<NodeInfo> = Vec::new();
    let mut k: usize = 0;
    while k < sel.len()
        invariant
            is_closest_selection(*cid, ids@, fanout as nat, sel@),
            eligible@.len() == ids@.len(),
            forall|j: int| 0 <= j < eligible@.len() ==> #[trigger] ids@[j] == eligible@[j].node_id,
            k <= sel@.len(),
            r@.len() == k,
            forall|j: int| 0 <= j < k ==> #[trigger] r@[j] == eligible@[sel@[j] as int],
            forall|q: int| 0 <= q < all@.len() && covers_id(#[trigger] all@[q], *cid) ==> ids@.contains(all@[q].node.node_id),
            all@ == table.records(),
        decreases sel@.len() - k,
    {
        r.push(eligible[sel[k]]);
        k = k + 1;
    }
    proof {
        assert forall|a: int| 0 <= a < r@.len() implies exists|q: int|
            0 <= q < table.records().len() && table.records()[q].node == #[trigger] r@[a]
            && covers_id(table.records()[q], *cid) by {
            assert(r@[a] == eligible@[sel@[a] as int]);
        }
        assert forall|a: int| 0 <= a < r@.len() implies (#[trigger] r@[a]).node_id != table.local() by {
            assert(r@[a] == eligible@[sel@[a] as int]);
            let q = choose|q: int| 0 <= q < all@.len() && all@[q].node == #[trigger] eligible@[sel@[a] as int] && covers_id(all@[q], *cid);
            assert(all@[q].node.node_id != table.local());
        }
        assert forall|a: int, b: int| 0 <= a < b < r@.len() implies dist_lt(
            xor_distance(*cid, (#[trigger] r@[a]).node_id),
            xor_distance(*cid, (#[trigger] r@[b]).node_id),
        ) by {
            assert(r@[a].node_id == ids@[sel@[a] as int]);
            assert(r@[b].node_id == ids@[sel@[b] as int]);
        }
        assert forall|m: int| 0 <= m < table.records().len() && covers_id(#[trigger] table.records()[m], *cid) implies
            has_node_id(r@, table.records()[m].node.node_id) || (r@.len() == fanout && (fanout == 0 || dist_lt(
                xor_distance(*cid, r@[r@.len() - 1].node_id),
                xor_distance(*cid, table.records()[m].node.node_id),
            ))) by {
            let z = choose|z: int| 0 <= z < ids@.len() && ids@[z] == all@[m].node.node_id;
            if chosen(ids@, sel@, ids@[z]) {
                let k = choose|k: int| 0 <= k < sel@.len() && ids@[sel@[k] as int] == ids@[z];
                assert(r@[k].node_id == ids@[sel@[k] as int]);
            } else if fanout > 0 {
                assert(r@[r@.len() - 1].node_id == ids@[sel@[sel@.len() - 1] as int]);
            }
        }
    }
    r
}

/// Plans a push of each content key to its gossip targets, and counts the peers targeted.
pub fn propagate(table: &RoutingTable, keys: &Vec<Vec<u8>>, fanout: usize) -> (r: (Vec<Vec<NodeInfo>>, u128))
    requires
        table.wf(),
    ensures
        r.0@.len() == keys@.len(),
        r.1 == total_targets(r.0@),
        r.1 <= fanout as int * keys@.len(),
        forall|i: int| 0 <= i < keys@.len() ==> is_gossip_plan(*table, content_id_of(keys@[i]@), fanout as nat, (#[trigger] r.0@[i])@),
        forall|i: int, k: int, l: int| 0 <= i < keys@.len() && 0 <= k < l < r.0@[i]@.len()
            ==> (#[trigger] r.0@[i]@[k]).node_id != (#[trigger] r.0@[i]@[l]).node_id,
{
    let mut plans: Vec<Vec<NodeInfo>> = Vec::new();
    let mut count: u128 = 0;
    let mut i: usize = 0;
    while i < keys.len()
        invariant
            table.wf(),
            i <= keys@.len(),
            plans@.len() == i,
            count == total_targets(plans@),
            count <= fanout as int * i,
            forall|j: int| 0 <= j < i ==> is_gossip_plan(*table, content_id_of(keys@[j]@), fanout as nat, (#[trigger] plans@[j])@),
            forall|j: int, k: int, l: int| 0 <= j < i && 0 <= k < l < plans@[j]@.len()
                ==> (#[trigger] plans@[j]@[k]).node_id != (#[trigger] plans@[j]@[l]).node_id,
        decreases keys@.len() - i,
    {
        let cid = content_id(&keys[i]);
        let targets = gossip_targets(table, &cid, fanout);
        proof {
            assert forall|k: int, l: int| 0 <= k < l < targets@.len() implies
                (#[trigger] targets@[k]).node_id != (#[trigger] targets@[l]).node_id by {
                assert(dist_lt(xor_distance(cid, targets@[k].node_id), xor_distance(cid, targets@[l].node_id)));
            }
            assert(count + targets@.len() <= fanout as int * (i + 1)) by (nonlinear_arith)
                requires
                    count <= fanout as int * i,
                    targets@.len() <= fanout,
            ;
            assert(fanout as int * (i + 1) <= u128::MAX) by (nonlinear_arith)
                requires
                    fanout <= u64::MAX,
                    i + 1 <= u64::MAX,
            ;
        }
        count = count + targets.len() as u128;
        let ghost prev = plans@;
        plans.push(targets);
        proof {
            assert(plans@.drop_last() =~= prev);
            assert forall|j: int| 0 <= j < i + 1 implies is_gossip_plan(*table, content_id_of(keys@[j]@), fanout as nat, (#[trigger] plans@[j])@) by {
                if j < i { assert(plans@[j] == prev[j]); }
            }
            assert forall|j: int, k: int, l: int| 0 <= j < i + 1 && 0 <= k < l < plans@[j]@.len()
                implies (#[trigger] plans@[j]@[k]).node_id != (#[trigger] plans@[j]@[l]).node_id by {
                if j < i { assert(plans@[j] == prev[j]); }
            }
        }
        i = i + 1;
    }
    (plans, count)
}

} // verus!
