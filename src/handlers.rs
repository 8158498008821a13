use vstd::prelude::*;
use crate::closest::{select_closest, is_closest_selection, chosen};
use crate::content::{content_id, content_id_of};
use crate::distance::{Distance, NodeId, dist_lt, is_zero, xor_distance};
use crate::gossip::{propagate, is_gossip_plan, total_targets};
use crate::hex::{hex_encode, hex_text};
use crate::lookup::{ContentLookup, PeerStatus, QueryTrace, has_id, status_after};
use crate::routing::{InsertOutcome, NodeInfo, PeerRecord, RoutingTable, insert_outcome};
use crate::store::{ContentStore, StoreError};

verus! {

/// The most peers a recursive find-nodes answer holds.
pub const MAX_FIND_NODES: usize = 16;

/// How a request to one peer failed.
#[derive(Clone, Copy, Debug, PartialEq, Eq, Structural)]
pub enum RequestError {
    /// The peer did not answer in time.
    Timeout,
    /// The peer's answer could not be read as the expected shape.
    Decoding,
}

/// A request to one named peer.
#[derive(Clone, Copy, Debug, PartialEq, Eq, Structural)]
pub enum RequestKind {
    FindContent,
    FindNodes,
    Offer,
    PopulatedOffer,
    Ping,
}

/// Why a request from a client failed.
#[derive(Clone, Copy, Debug, PartialEq, Eq, Structural)]
pub enum RpcError {
    /// The named peer did not answer the request in time.
    Timeout(RequestKind),
    /// The named peer answered with something unreadable.
    Decoding(RequestKind),
    /// A trace was asked for and none was made.
    MissingTrace,
}

/// What a peer answers to a find-content request.
#[derive(Clone, Debug)]
pub enum ContentReply {
    /// A connection to stream the content over.
    ConnectionId(u16),
    /// The content itself.
    Content(Vec<u8>),
    /// Peers closer to the content.
    Enrs(Vec<NodeInfo>),
}

/// What a peer answers to a ping.
#[derive(Clone, Copy, Debug, PartialEq, Eq, Structural)]
pub struct Pong {
    pub enr_seq: u64,
    pub data_radius: Distance,
}

/// What a ping reports to the client.
#[derive(Clone, Copy, Debug, PartialEq, Eq, Structural)]
pub struct PongInfo {
    pub enr_seq: u32,
    pub data_radius: Distance,
}

/// The answer to a recursive find-content request: the content as "0x"-prefixed hex text
/// ("0x" alone when absent), with the trace when one was asked for.
#[derive(Clone, Debug)]
pub struct FindContentResponse {
    pub content: Vec<u8>,
    pub trace: Option<QueryTrace>,
}

/// How a recursive find-content lookup starts.
pub enum LookupStart {
    /// The local store holds the content: no peer is asked.
    Local(Vec<u8>, Option<QueryTrace>),
    /// The lookup goes to the network, from this state.
    Network(ContentLookup),
}

pub open spec fn request_error(e: RequestError, kind: RequestKind) -> RpcError {
    match e {
        RequestError::Timeout => RpcError::Timeout(kind),
        RequestError::Decoding => RpcError::Decoding(kind),
    }
}

fn map_request_error(e: RequestError, kind: RequestKind) -> (r: RpcError)
    ensures
        r == request_error(e, kind),
{
    match e {
        RequestError::Timeout => RpcError::Timeout(kind),
        RequestError::Decoding => RpcError::Decoding(kind),
    }
}

/// The content stored locally under a key, as hex text; "0x" when there is none.
pub fn local_content(store: &ContentStore, key: &Vec<u8>) -> (r: Vec<u8>)
    requires
        store.wf(),
    ensures
        r@ == hex_text(match store.lookup(key@) {
            Some(v) => v,
            None => Seq::empty(),
        }),
{
    match store.get(key) {
        Some(v) => hex_encode(&v),
        None => {
            let empty: Vec<u8> = Vec::new();
            hex_encode(&empty)
        },
    }
}

/// Up to `limit` locally stored keys from position `offset`.
pub fn paginate_local_content_keys(store: &ContentStore, offset: u64, limit: u64) -> (r: Vec<Vec<u8>>)
    requires
        store.wf(),
    ensures
        r@.map_values(|k: Vec<u8>| k@) == store.key_seq().subrange(
            if offset as int <= store.key_seq().len() { offset as int } else { store.key_seq().len() as int },
            if offset as int + limit as int <= store.key_seq().len() { offset as int + limit as int } else { store.key_seq().len() as int },
        ),
{
    store.paginate(offset, limit)
}

/// Stores content locally under its key; a refusal of the store is passed on.
pub fn store(content_store: &mut ContentStore, key: Vec<u8>, value: Vec<u8>) -> (r: Result<bool, StoreError>)
    requires
        old(content_store).wf(),
    ensures
        final(content_store).wf(),
        r is Err <==> (!old(content_store).has(key@)
            && old(content_store).key_seq().len() >= old(content_store).max_entries_spec()),
        r is Err ==> r == Err::<bool, StoreError>(StoreError::Full) && *final(content_store) == *old(content_store),
        r is Ok ==> r == Ok::<bool, StoreError>(true) && final(content_store).lookup(key@) == Some(value@)
            && forall|k: Seq<u8>| k != key@ ==> #[trigger] final(content_store).lookup(k) == old(content_store).lookup(k),
{
    match content_store.put(key, value) {
        Ok(()) => Ok(true),
        Err(e) => Err(e),
    }
}

/// Starts a recursive find-content lookup. Content held locally is answered at once,
/// with no peer asked; a trace, if asked for, then names the local node as responder
/// after zero hops. Otherwise the lookup starts from `seeds`, towards the key's content id.
pub fn begin_recursive_find_content(
    store: &ContentStore,
    key: &Vec<u8>,
    local_id: NodeId,
    seeds: &Vec<NodeInfo>,
    is_trace: bool,
) -> (r: LookupStart)
    requires
        store.wf(),
    ensures
        match store.lookup(key@) {
            Some(v) => r matches LookupStart::Local(c, t) && c@ == v && (is_trace ==> (t matches Some(t)
                && t.origin == local_id && t.target == content_id_of(key@) && t.events@.len() == 0
                && t.responder == Some(local_id) && t.hops == 0)) && (!is_trace ==> t is None),
            None => r matches LookupStart::Network(l) && l.wf() && l.local() == local_id
                && l.target_spec() == content_id_of(key@) && l.content_spec() is None
                && l.rounds_spec() == 0
                && (is_trace ==> (l.trace_spec() matches Some(t) && t.origin == local_id
                    && t.target == content_id_of(key@) && t.events@.len() == 0 && t.responder is None))
                && (!is_trace ==> l.trace_spec() is None)
                && (forall|i: int| 0 <= i < l.status_spec().len() ==> #[trigger] l.status_spec()[i] == PeerStatus::Fresh)
                && (forall|i: int| 0 <= i < l.candidates_spec().len() ==> seeds@.contains(#[trigger] l.candidates_spec()[i]))
                && forall|j: int| 0 <= j < seeds@.len() && (#[trigger] seeds@[j]).node_id != local_id
                    ==> has_id(l.candidates_spec(), seeds@[j].node_id),
        },
{
    let target = content_id(key);
    match store.get(key) {
        Some(v) => {
            if is_trace {
                let mut t = QueryTrace::new(local_id, target);
                t.node_responded_with_content(local_id);
                LookupStart::Local(v, Some(t))
            } else {
                LookupStart::Local(v, None)
            }
        },
        None => LookupStart::Network(ContentLookup::new(local_id, target, seeds, is_trace)),
    }
}

/// Shapes the outcome of a recursive find-content lookup. Without tracing, the content's
/// hex text. With tracing, that text and the trace; a missing trace is an error.
pub fn recursive_find_content(content: Option<Vec<u8>>, trace: Option<QueryTrace>, is_trace: bool) -> (r: Result<FindContentResponse, RpcError>)
    ensures
        (is_trace && trace is None) <==> r == Err::<FindContentResponse, RpcError>(RpcError::MissingTrace),
        !(is_trace && trace is None) ==> r is Ok,
        r matches Ok(resp) ==> resp.content@ == hex_text(match content {
            Some(c) => c@,
            None => Seq::empty(),
        }) && (is_trace ==> resp.trace == trace) && (!is_trace ==> resp.trace is None),
{
    if is_trace && trace.is_none() {
        return Err(RpcError::MissingTrace);
    }
    let text = match content {
        Some(c) => hex_encode(&c),
        None => {
            let empty: Vec<u8> = Vec::new();
            hex_encode(&empty)
        },
    };
    if is_trace {
        Ok(FindContentResponse { content: text, trace })
    } else {
        Ok(FindContentResponse { content: text, trace: None })
    }
}

/// Rounds after which a lookup gives up.
pub const LOOKUP_MAX_ROUNDS: u64 = 32;

/// Whether a lookup should start another round: it is not over and has rounds left.
pub fn lookup_continues(l: &ContentLookup) -> (r: bool)
    ensures
        r == (!l.done_spec() && l.rounds_spec() < LOOKUP_MAX_ROUNDS),
{
    !l.is_done() && l.rounds() < LOOKUP_MAX_ROUNDS
}

/// Feeds a peer's reply to a find-content request into a lookup. Content is taken;
/// closer peers become candidates; a connection id (content streamed over another
/// channel, which a lookup does not open), an unreadable answer or a timeout drop the
/// peer from the lookup.
pub fn on_find_content_reply(l: &mut ContentLookup, from: &NodeId, reply: Result<ContentReply, RequestError>)
    requires
        old(l).wf(),
    ensures
        final(l).wf(),
        final(l).local() == old(l).local(),
        final(l).target_spec() == old(l).target_spec(),
        final(l).rounds_spec() == old(l).rounds_spec(),
        match reply {
            Ok(ContentReply::Content(c)) => {
                &&& final(l).candidates_spec() == old(l).candidates_spec()
                &&& final(l).status_spec() == status_after(old(l).candidates_spec(), old(l).status_spec(), *from, PeerStatus::Responded)
                &&& final(l).content_spec() == if old(l).content_spec() is Some { old(l).content_spec() } else { Some(c@) }
            },
            Ok(ContentReply::Enrs(nodes)) => {
                &&& final(l).content_spec() == old(l).content_spec()
                &&& final(l).candidates_spec().subrange(0, old(l).candidates_spec().len() as int) == old(l).candidates_spec()
                &&& final(l).status_spec().subrange(0, old(l).status_spec().len() as int)
                    == status_after(old(l).candidates_spec(), old(l).status_spec(), *from, PeerStatus::Responded)
                &&& forall|j: int| 0 <= j < nodes@.len() && (#[trigger] nodes@[j]).node_id != old(l).local()
                    ==> has_id(final(l).candidates_spec(), nodes@[j].node_id)
            },
            _ => {
                &&& final(l).content_spec() == old(l).content_spec()
                &&& final(l).candidates_spec() == old(l).candidates_spec()
                &&& final(l).status_spec() == status_after(old(l).candidates_spec(), old(l).status_spec(), *from, PeerStatus::Failed)
            },
        },
{
    match reply {
        Ok(ContentReply::Content(c)) => l.on_content(from, c),
        Ok(ContentReply::Enrs(nodes)) => l.on_nodes(from, &nodes),
        _ => l.on_failure(from),
    }
}

/// The answer of a named peer to a find-content request.
pub fn find_content(reply: Result<ContentReply, RequestError>) -> (r: Result<ContentReply, RpcError>)
    ensures
        match reply {
            Ok(c) => r matches Ok(d) && d == c,
            Err(e) => r == Err::<ContentReply, RpcError>(request_error(e, RequestKind::FindContent)),
        },
{
    match reply {
        Ok(c) => Ok(c),
        Err(e) => Err(map_request_error(e, RequestKind::FindContent)),
    }
}

/// The answer of a named peer to a find-nodes request.
pub fn find_nodes(reply: Result<Vec<NodeInfo>, RequestError>) -> (r: Result<Vec<NodeInfo>, RpcError>)
    ensures
        match reply {
            Ok(n) => r matches Ok(m) && m@ == n@,
            Err(e) => r matches Err(x) && x == request_error(e, RequestKind::FindNodes),
        },
{
    match reply {
        Ok(n) => Ok(n),
        Err(e) => Err(map_request_error(e, RequestKind::FindNodes)),
    }
}

/// The accept record a named peer returned for an offer, one flag per offered key.
pub fn offer(reply: Result<Vec<bool>, RequestError>, populated: bool) -> (r: Result<Vec<bool>, RpcError>)
    ensures
        match reply {
            Ok(a) => r matches Ok(b) && b@ == a@,
            Err(e) => r matches Err(x) && x == request_error(e,
                if populated { RequestKind::PopulatedOffer } else { RequestKind::Offer }),
        },
{
    match reply {
        Ok(a) => Ok(a),
        Err(e) => Err(map_request_error(e, if populated { RequestKind::PopulatedOffer } else { RequestKind::Offer })),
    }
}

/// The gossip targets of one content item, and how many peers they are.
pub fn gossip(table: &RoutingTable, key: &Vec<u8>, fanout: usize) -> (r: (Vec<NodeInfo>, u128))
    requires
        table.wf(),
    ensures
        is_gossip_plan(*table, content_id_of(key@), fanout as nat, r.0@),
        r.1 == r.0@.len(),
        r.1 <= fanout,
{
    let mut keys: Vec<Vec<u8>> = Vec::new();
    let k = key.clone();
    assert(k@ =~= key@);
    keys.push(k);
    let (mut plans, count) = propagate(table, &keys, fanout);
    proof {
        assert(plans@.drop_last().len() == 0);
        assert(total_targets(plans@.drop_last()) == 0);
        assert(total_targets(plans@) == plans@[0]@.len());
        assert(is_gossip_plan(*table, content_id_of(keys@[0]@), fanout as nat, plans@[0]@));
    }
    let plan = plans.remove(0);
    (plan, count)
}

/// The record that a pong from `peer` leaves in the table.
pub open spec fn pong_record(peer: NodeInfo, pong: Pong, now: u64) -> PeerRecord {
    PeerRecord {
        node: NodeInfo { enr_seq: pong.enr_seq, ..peer },
        last_seen: now,
        radius: pong.data_radius,
    }
}

/// The outcome of pinging `peer`. A pong refreshes the peer's record with its sequence
/// number, its radius and the time; a failure leaves the table as it was.
pub fn ping(table: &mut RoutingTable, peer: NodeInfo, reply: Result<Pong, RequestError>, now: u64) -> (r: Result<PongInfo, RpcError>)
    requires
        old(table).wf(),
    ensures
        final(table).wf(),
        final(table).local() == old(table).local(),
        match reply {
            Ok(p) => {
                &&& r matches Ok(info) && info.enr_seq == p.enr_seq as u32 && info.data_radius == p.data_radius
                &&& exists|o: InsertOutcome| insert_outcome(*old(table), *final(table), pong_record(peer, p, now), now, o)
            },
            Err(e) => r matches Err(x) && x == request_error(e, RequestKind::Ping) && *final(table) == *old(table),
        },
{
    match reply {
        Ok(p) => {
            let rec = PeerRecord {
                node: NodeInfo { node_id: peer.node_id, ip: peer.ip, port: peer.port, enr_seq: p.enr_seq },
                last_seen: now,
                radius: p.data_radius,
            };
            let o = table.insert_or_update(rec, now);
            assert(rec == pong_record(peer, p, now));
            Ok(PongInfo { enr_seq: p.enr_seq as u32, data_radius: p.data_radius })
        },
        Err(e) => Err(map_request_error(e, RequestKind::Ping)),
    }
}

/// The answer to a recursive find-nodes request: of the peers a lookup found, the at
/// most sixteen distinct ones closest to `target`, closest first.
pub fn recursive_find_nodes(target: &NodeId, nodes: &Vec<NodeInfo>) -> (r: Vec<NodeInfo>)
    ensures
        r@.len() <= MAX_FIND_NODES,
        forall|k: int| 0 <= k < r@.len() ==> nodes@.contains(#[trigger] r@[k]),
        forall|k: int, l: int| 0 <= k < l < r@.len() ==> dist_lt(
            xor_distance(*target, (#[trigger] r@[k]).node_id),
            xor_distance(*target, (#[trigger] r@[l]).node_id),
        ),
        forall|j: int| 0 <= j < nodes@.len() ==> has_id(r@, (#[trigger] nodes@[j]).node_id)
            || (r@.len() == MAX_FIND_NODES && dist_lt(
                xor_distance(*target, r@[r@.len() - 1].node_id),
                xor_distance(*target, nodes@[j].node_id),
            )),
{
    let mut ids: Vec<NodeId> = Vec::new();
    let mut m: usize = 0;
    while m < nodes.len()
        invariant
            m <= nodes@.len(),
            ids@.len() == m,
            forall|j: int| 0 <= j < m ==> #[trigger] ids@[j] == nodes@[j].node_id,
        decreases nodes@.len() - m,
    {
        ids.push(nodes[m].node_id);
        m = m + 1;
    }
    let sel = select_closest(target, &ids, MAX_FIND_NODES);
    let mut r: Vec<NodeInfo> = Vec::new();
    let mut k: usize = 0;
    while k < sel.len()
        invariant
            is_closest_selection(*target, ids@, MAX_FIND_NODES as nat, sel@),
            ids@.len() == nodes@.len(),
            forall|j: int| 0 <= j < ids@.len() ==> #[trigger] ids@[j] == nodes@[j].node_id,
            k <= sel@.len(),
            r@.len() == k,
            forall|j: int| 0 <= j < k ==> #[trigger] r@[j] == nodes@[sel@[j] as int],
        decreases sel@.len() - k,
    {
        r.push(nodes[sel[k]]);
        k = k + 1;
    }
    proof {
        assert forall|a: int| 0 <= a < r@.len() implies nodes@.contains(#[trigger] r@[a]) by {
            assert(r@[a] == nodes@[sel@[a] as int]);
        }
        assert forall|a: int, b: int| 0 <= a < b < r@.len() implies dist_lt(
            xor_distance(*target, (#[trigger] r@[a]).node_id),
            xor_distance(*target, (#[trigger] r@[b]).node_id),
        ) by {
            assert(r@[a].node_id == ids@[sel@[a] as int]);
            assert(r@[b].node_id == ids@[sel@[b] as int]);
        }
        assert forall|j: int| 0 <= j < nodes@.len() implies has_id(r@, (#[trigger] nodes@[j]).node_id)
            || (r@.len() == MAX_FIND_NODES && dist_lt(
                xor_distance(*target, r@[r@.len() - 1].node_id),
                xor_distance(*target, nodes@[j].node_id),
            )) by {
            assert(ids@[j] == nodes@[j].node_id);
            if chosen(ids@, sel@, ids@[j]) {
                let k = choose|k: int| 0 <= k < sel@.len() && ids@[sel@[k] as int] == ids@[j];
                assert(r@[k].node_id == ids@[sel@[k] as int]);
            } else {
                assert(r@[r@.len() - 1].node_id == ids@[sel@[sel@.len() - 1] as int]);
            }
        }
    }
    r
}

} // verus!
