use portal_overlay::distance::{bucket_index, distance, Distance, NodeId};
use portal_overlay::content::{content_id, id_from_digest};
use portal_overlay::get_peertest_id_for_node;
use portal_overlay::gossip::{gossip_targets, propagate};
use portal_overlay::handlers::{
    begin_recursive_find_content, find_content, find_nodes, gossip, local_content, offer,
    paginate_local_content_keys, ping, recursive_find_content, recursive_find_nodes, store,
    lookup_continues, on_find_content_reply, ContentReply, LookupStart, Pong, RequestError,
    RequestKind, RpcError, LOOKUP_MAX_ROUNDS,
};
use portal_overlay::hex::hex_encode;
use portal_overlay::lookup::{found_closer, ContentLookup, QueryTrace, TraceOutcome};
use portal_overlay::offer::select_accepted;
use portal_overlay::routing::{InsertOutcome, NodeInfo, PeerRecord, RoutingTable};
use portal_overlay::store::{ContentStore, StoreError};

fn id(lo: u128) -> NodeId {
    NodeId { hi: 0, lo }
}

fn node(lo: u128) -> NodeInfo {
    NodeInfo { node_id: id(lo), ip: 0x7f000001, port: 9000, enr_seq: 1 }
}

fn peer(lo: u128, last_seen: u64) -> PeerRecord {
    PeerRecord { node: node(lo), last_seen, radius: Distance { hi: u128::MAX, lo: u128::MAX } }
}

fn full_radius() -> Distance {
    Distance { hi: u128::MAX, lo: u128::MAX }
}

#[test]
fn distance_is_symmetric_and_zero_on_equal_ids() {
    let a = NodeId { hi: 0x1234, lo: 0xff00 };
    let b = NodeId { hi: 0x00ff, lo: 0x0f0f };
    assert_eq!(distance(&a, &b), distance(&b, &a));
    assert_eq!(distance(&a, &b), Distance { hi: 0x12cb, lo: 0xf00f });
    assert!(distance(&a, &a).is_zero());
    assert!(!distance(&a, &b).is_zero());
}

#[test]
fn distance_order_compares_high_half_first() {
    let small = Distance { hi: 0, lo: u128::MAX };
    let large = Distance { hi: 1, lo: 0 };
    assert!(small.lt(&large));
    assert!(!large.lt(&small));
    assert!(small.le(&small));
}

#[test]
fn bucket_index_is_floor_log2() {
    assert_eq!(bucket_index(&Distance { hi: 0, lo: 1 }), 0);
    assert_eq!(bucket_index(&Distance { hi: 0, lo: 2 }), 1);
    assert_eq!(bucket_index(&Distance { hi: 0, lo: 3 }), 1);
    assert_eq!(bucket_index(&Distance { hi: 0, lo: 1 << 127 }), 127);
    assert_eq!(bucket_index(&Distance { hi: 1, lo: 0 }), 128);
    assert_eq!(bucket_index(&Distance { hi: u128::MAX, lo: 0 }), 255);
}

#[test]
fn content_id_is_sha256_of_the_key() {
    let empty: Vec<u8> = Vec::new();
    let cid = content_id(&empty);
    assert_eq!(cid.hi, 0xe3b0c44298fc1c149afbf4c8996fb924);
    assert_eq!(cid.lo, 0x27ae41e4649b934ca495991b7852b855);
    let key = vec![0u8, 1, 2, 3];
    assert_eq!(content_id(&key), content_id(&key.clone()));
    assert_ne!(content_id(&key), content_id(&vec![0u8, 1, 2, 4]));
}

#[test]
fn hex_encode_prefixes_and_lowercases() {
    assert_eq!(hex_encode(&vec![0xde, 0xad, 0x01]), b"0xdead01".to_vec());
    assert_eq!(hex_encode(&Vec::new()), b"0x".to_vec());
}

#[test]
fn peertest_ids_leave_room_for_the_bootnode() {
    let enr = String::from("enr:-abc");
    assert_eq!(get_peertest_id_for_node(1, None), 1);
    assert_eq!(get_peertest_id_for_node(1, Some(&enr)), 2);
    assert_eq!(get_peertest_id_for_node(254, Some(&enr)), 255);
}

#[test]
fn store_then_local_content_round_trips() {
    let mut s = ContentStore::new(full_radius(), 100);
    let key = vec![1u8, 2, 3];
    assert_eq!(store(&mut s, key.clone(), vec![0xab, 0xcd]), Ok(true));
    assert_eq!(local_content(&s, &key), b"0xabcd".to_vec());
    assert_eq!(local_content(&s, &vec![9u8]), b"0x".to_vec());
    assert_eq!(store(&mut s, key.clone(), vec![0x01]), Ok(true));
    assert_eq!(local_content(&s, &key), b"0x01".to_vec());
}

#[test]
fn paginate_walks_keys_in_insertion_order() {
    let mut s = ContentStore::new(full_radius(), 100);
    for k in 0u8..5 {
        s.put(vec![k], vec![k]).unwrap();
    }
    assert_eq!(paginate_local_content_keys(&s, 1, 2), vec![vec![1u8], vec![2u8]]);
    assert_eq!(paginate_local_content_keys(&s, 4, 10), vec![vec![4u8]]);
    assert!(paginate_local_content_keys(&s, 7, 10).is_empty());
    assert!(paginate_local_content_keys(&s, 0, 0).is_empty());
}

#[test]
fn full_bucket_of_fresh_peers_rejects_newcomers() {
    let mut t = RoutingTable::new(id(0), 2, 100);
    // distances 4..8 all fall in bucket 2
    assert_eq!(t.insert_or_update(peer(4, 50), 60), InsertOutcome::Inserted);
    assert_eq!(t.insert_or_update(peer(5, 55), 60), InsertOutcome::Inserted);
    assert_eq!(t.insert_or_update(peer(6, 60), 60), InsertOutcome::Rejected);
    assert_eq!(t.insert_or_update(peer(7, 60), 60), InsertOutcome::Rejected);
    assert_eq!(t.bucket_snapshot().len(), 2);
    assert_eq!(t.insert_or_update(peer(4, 60), 60), InsertOutcome::Updated);
    assert_eq!(t.bucket_snapshot().len(), 2);
}

#[test]
fn full_bucket_evicts_the_stalest_peer() {
    let mut t = RoutingTable::new(id(0), 2, 100);
    t.insert_or_update(peer(4, 10), 10);
    t.insert_or_update(peer(5, 5), 10);
    assert_eq!(t.insert_or_update(peer(6, 200), 200), InsertOutcome::Replaced(id(5)));
    let ids: Vec<NodeId> = t.bucket_snapshot().iter().map(|p| p.node.node_id).collect();
    assert_eq!(ids, vec![id(4), id(6)]);
}

#[test]
fn table_never_holds_the_local_node() {
    let mut t = RoutingTable::new(id(7), 4, 100);
    assert_eq!(t.insert_or_update(peer(7, 1), 1), InsertOutcome::IsLocal);
    assert!(t.bucket_snapshot().is_empty());
}

#[test]
fn remove_drops_a_known_peer() {
    let mut t = RoutingTable::new(id(0), 4, 100);
    t.insert_or_update(peer(4, 1), 1);
    t.insert_or_update(peer(9, 1), 1);
    assert!(t.remove(&id(4)));
    assert!(!t.remove(&id(4)));
    assert_eq!(t.bucket_snapshot().len(), 1);
}

#[test]
fn closest_peers_are_sorted_distinct_and_bounded() {
    let mut t = RoutingTable::new(id(0), 16, 100);
    for lo in [1u128, 2, 3, 8, 9, 12, 100, 1000] {
        t.insert_or_update(peer(lo, 1), 1);
    }
    let target = id(8);
    let r = t.closest_peers(&target, 3);
    let ids: Vec<u128> = r.iter().map(|p| p.node.node_id.lo).collect();
    assert_eq!(ids, vec![8, 9, 12]);
    let all = t.closest_peers(&target, 100);
    assert_eq!(all.len(), 8);
    assert!(all.iter().all(|p| p.node.node_id != id(0)));
    assert!(t.closest_peers(&target, 0).is_empty());
}

#[test]
fn local_hit_answers_without_asking_peers() {
    let mut s = ContentStore::new(full_radius(), 100);
    let key = vec![0x00u8, 0x11];
    s.put(key.clone(), vec![0x42]).unwrap();
    let seeds = vec![node(3), node(4)];
    match begin_recursive_find_content(&s, &key, id(1), &seeds, true) {
        LookupStart::Local(content, Some(trace)) => {
            assert_eq!(content, vec![0x42]);
            assert_eq!(trace.responder, Some(id(1)));
            assert_eq!(trace.origin, id(1));
            assert_eq!(trace.hops, 0);
            assert!(trace.events.is_empty());
            let resp = recursive_find_content(Some(content), Some(trace), true).unwrap();
            assert_eq!(resp.content, b"0x42".to_vec());
        }
        _ => panic!("expected a local answer with a trace"),
    }
}

#[test]
fn empty_lookup_ends_absent_with_an_empty_trace() {
    let s = ContentStore::new(full_radius(), 100);
    let key = vec![5u8];
    let seeds: Vec<NodeInfo> = Vec::new();
    match begin_recursive_find_content(&s, &key, id(1), &seeds, true) {
        LookupStart::Network(mut l) => {
            assert!(l.next_queries(3).is_empty());
            assert!(l.is_done());
            let (content, trace) = l.finish();
            assert!(content.is_none());
            let trace = trace.unwrap();
            assert_eq!(trace.responder, None);
            assert!(trace.events.is_empty());
            let resp = recursive_find_content(content, Some(trace), true).unwrap();
            assert_eq!(resp.content, b"0x".to_vec());
        }
        _ => panic!("expected a network lookup"),
    }
}

#[test]
fn trace_requested_but_missing_is_an_error() {
    assert_eq!(recursive_find_content(Some(vec![1]), None, true).err(), Some(RpcError::MissingTrace));
    let plain = recursive_find_content(Some(vec![1]), None, false).unwrap();
    assert_eq!(plain.content, b"0x01".to_vec());
    assert!(plain.trace.is_none());
}

#[test]
fn ping_then_traced_lookup_reaches_the_peer_in_one_hop() {
    let a = id(1);
    let b = node(6);
    let mut table = RoutingTable::new(a, 16, 100);
    let radius = Distance { hi: u128::MAX, lo: 0 };
    let info = ping(&mut table, b, Ok(Pong { enr_seq: 7, data_radius: radius }), 10).unwrap();
    assert_eq!(info.enr_seq, 7);
    assert_eq!(info.data_radius, radius);
    let snap = table.bucket_snapshot();
    assert_eq!(snap.len(), 1);
    assert_eq!(snap[0].node.node_id, b.node_id);
    assert_eq!(snap[0].radius, radius);
    assert_eq!(snap[0].node.enr_seq, 7);

    let s = ContentStore::new(full_radius(), 100);
    let key = vec![0xaau8];
    let cid = content_id(&key);
    let seeds: Vec<NodeInfo> = table.closest_peers(&cid, 16).iter().map(|p| p.node).collect();
    let mut l = match begin_recursive_find_content(&s, &key, a, &seeds, true) {
        LookupStart::Network(l) => l,
        _ => panic!("expected a network lookup"),
    };
    let asked = l.next_queries(3);
    assert_eq!(asked.len(), 1);
    assert_eq!(asked[0].node_id, b.node_id);
    assert!(!l.is_done());
    l.on_content(&b.node_id, vec![0xbe, 0xef]);
    assert!(l.is_done());
    assert!(l.next_queries(3).is_empty());
    let (content, trace) = l.finish();
    let trace = trace.unwrap();
    assert_eq!(content, Some(vec![0xbe, 0xef]));
    assert_eq!(trace.responder, Some(b.node_id));
    assert_eq!(trace.hops, 1);
    assert_eq!(trace.events.len(), 1);
    assert_eq!(trace.events[0].outcome, TraceOutcome::Content);
}

#[test]
fn ping_timeout_leaves_the_table_alone() {
    let mut table = RoutingTable::new(id(1), 16, 100);
    let r = ping(&mut table, node(6), Err(RequestError::Timeout), 10);
    assert_eq!(r.err(), Some(RpcError::Timeout(RequestKind::Ping)));
    assert!(table.bucket_snapshot().is_empty());
}

#[test]
fn lookup_follows_closer_peers_and_drops_failed_ones() {
    let target = id(0x100);
    let mut l = ContentLookup::new(id(1), target, &vec![node(2), node(3)], false);
    let first = l.next_queries(1);
    assert_eq!(first, vec![node(2)]);
    l.on_failure(&id(2));
    let second = l.next_queries(4);
    assert_eq!(second, vec![node(3)]);
    l.on_nodes(&id(3), &vec![node(0x101), node(1), node(3)]);
    assert!(!l.is_done());
    let third = l.next_queries(4);
    assert_eq!(third, vec![node(0x101)]);
    l.on_nodes(&id(0x101), &Vec::new());
    assert!(l.is_done());
    let (content, trace) = l.finish();
    assert!(content.is_none());
    assert!(trace.is_none());
}

#[test]
fn untraced_lookup_records_nothing() {
    let trace = QueryTrace::new(id(1), id(2));
    assert!(trace.events.is_empty());
    assert_eq!(trace.responder, None);
}

#[test]
fn recursive_find_nodes_returns_sixteen_sorted_distinct() {
    let mut nodes = Vec::new();
    for lo in (1u128..=20).rev() {
        nodes.push(node(lo));
        nodes.push(node(lo));
    }
    let target = id(0);
    let r = recursive_find_nodes(&target, &nodes);
    let ids: Vec<u128> = r.iter().map(|n| n.node_id.lo).collect();
    assert_eq!(ids, (1u128..=16).collect::<Vec<u128>>());
    let few = recursive_find_nodes(&target, &vec![node(5), node(3), node(5)]);
    let ids: Vec<u128> = few.iter().map(|n| n.node_id.lo).collect();
    assert_eq!(ids, vec![3, 5]);
}

#[test]
fn nothing_accepted_means_nothing_sent() {
    let bodies = vec![vec![1u8], vec![2u8], vec![3u8]];
    assert!(select_accepted(&bodies, &vec![false, false, false]).is_empty());
    assert_eq!(select_accepted(&bodies, &vec![true, false, true]), vec![vec![1u8], vec![3u8]]);
}

#[test]
fn offer_and_find_errors_name_the_request() {
    assert_eq!(offer(Err(RequestError::Timeout), false).err(), Some(RpcError::Timeout(RequestKind::Offer)));
    assert_eq!(offer(Err(RequestError::Timeout), true).err(), Some(RpcError::Timeout(RequestKind::PopulatedOffer)));
    assert_eq!(offer(Ok(vec![true, false]), false).unwrap(), vec![true, false]);
    assert_eq!(find_nodes(Err(RequestError::Decoding)).err(), Some(RpcError::Decoding(RequestKind::FindNodes)));
    assert_eq!(find_nodes(Ok(vec![node(3)])).unwrap(), vec![node(3)]);
    assert!(matches!(find_content(Err(RequestError::Timeout)), Err(RpcError::Timeout(RequestKind::FindContent))));
    assert!(matches!(find_content(Ok(ContentReply::Content(vec![1]))), Ok(ContentReply::Content(c)) if c == vec![1]));
}

#[test]
fn gossip_targets_each_peer_once_within_fanout() {
    let mut t = RoutingTable::new(id(0), 16, 100);
    for lo in 1u128..=10 {
        t.insert_or_update(peer(lo, 1), 1);
    }
    let keys = vec![vec![1u8], vec![2u8], vec![3u8]];
    let (plans, count) = propagate(&t, &keys, 4);
    assert_eq!(plans.len(), 3);
    assert_eq!(count, 12);
    for p in &plans {
        assert_eq!(p.len(), 4);
        for (i, a) in p.iter().enumerate() {
            for b in &p[i + 1..] {
                assert_ne!(a.node_id, b.node_id);
            }
        }
    }
    let (targets, count) = gossip(&t, &vec![1u8], 4);
    assert_eq!(count, 4);
    assert_eq!(targets.len(), 4);
    assert_eq!(gossip(&t, &vec![1u8], 40).1, 10);
}

#[test]
fn gossip_skips_peers_whose_radius_misses_the_content() {
    let mut t = RoutingTable::new(id(0), 16, 100);
    let mut narrow = peer(3, 1);
    narrow.radius = Distance { hi: 0, lo: 0 };
    t.insert_or_update(narrow, 1);
    t.insert_or_update(peer(5, 1), 1);
    let cid = content_id(&vec![7u8]);
    let r = gossip_targets(&t, &cid, 4);
    assert_eq!(r, vec![node(5)]);
}

#[test]
fn discovery_ports_follow_peertest_ids() {
    assert_eq!(portal_overlay::peertest_discovery_port(1), 9001);
    assert_eq!(portal_overlay::peertest_discovery_port(255), 9255);
}

#[test]
fn responded_lists_answering_peers_in_discovery_order() {
    let mut l = ContentLookup::new(id(1), id(0x40), &vec![node(2), node(3), node(4)], true);
    let asked = l.next_queries(3);
    assert_eq!(asked.len(), 3);
    l.on_nodes(&id(4), &vec![node(0x41)]);
    l.on_failure(&id(3));
    l.on_nodes(&id(2), &Vec::new());
    let ids: Vec<u128> = l.responded().iter().map(|n| n.node_id.lo).collect();
    assert_eq!(ids, vec![2, 4]);
    let (_, trace) = l.finish();
    let trace = trace.unwrap();
    let outcomes: Vec<TraceOutcome> = trace.events.iter().map(|e| e.outcome).collect();
    assert_eq!(outcomes, vec![TraceOutcome::Nodes(1), TraceOutcome::NoResponse, TraceOutcome::Nodes(0)]);
    assert_eq!(trace.responder, None);
}

#[test]
fn only_the_first_content_is_kept() {
    let mut l = ContentLookup::new(id(1), id(0x40), &vec![node(2), node(3)], true);
    l.next_queries(2);
    l.on_content(&id(3), vec![1]);
    l.on_content(&id(2), vec![2]);
    let (content, trace) = l.finish();
    assert_eq!(content, Some(vec![1]));
    assert_eq!(trace.unwrap().responder, Some(id(3)));
}

#[test]
fn trace_names_the_content_responder() {
    let mut trace = QueryTrace::new(id(1), id(2));
    trace.node_responded_with_content(id(9));
    assert_eq!(trace.responder, Some(id(9)));
    assert_eq!(trace.hops, 0);
}

#[test]
fn id_from_digest_reads_big_endian_halves() {
    let mut h = vec![0u8; 32];
    h[15] = 1;
    h[0] = 0x80;
    h[31] = 0x02;
    h[16] = 0xff;
    let id = id_from_digest(&h);
    assert_eq!(id.hi, (1u128 << 127) | 1);
    assert_eq!(id.lo, (0xffu128 << 120) | 2);
}

#[test]
fn found_closer_compares_against_all_known_peers() {
    let target = id(0);
    assert!(found_closer(&target, &vec![node(8), node(5)], &vec![node(8), node(5), node(3)]));
    assert!(!found_closer(&target, &vec![node(8), node(5)], &vec![node(8), node(5), node(6)]));
    assert!(found_closer(&target, &Vec::new(), &vec![node(9)]));
    assert!(!found_closer(&target, &Vec::new(), &Vec::new()));
}

#[test]
fn replies_drive_the_lookup() {
    let mut l = ContentLookup::new(id(1), id(0x40), &vec![node(2), node(3), node(4)], true);
    assert!(lookup_continues(&l));
    l.next_queries(3);
    on_find_content_reply(&mut l, &id(2), Ok(ContentReply::ConnectionId(7)));
    on_find_content_reply(&mut l, &id(3), Ok(ContentReply::Enrs(vec![node(0x41)])));
    assert_eq!(l.candidates().len(), 4);
    on_find_content_reply(&mut l, &id(4), Err(RequestError::Timeout));
    assert!(lookup_continues(&l));
    l.next_queries(3);
    on_find_content_reply(&mut l, &id(0x41), Ok(ContentReply::Content(vec![7])));
    assert!(!lookup_continues(&l));
    assert_eq!(l.rounds(), 2);
    let (content, trace) = l.finish();
    assert_eq!(content, Some(vec![7]));
    let trace = trace.unwrap();
    assert_eq!(trace.hops, 2);
    assert_eq!(trace.responder, Some(id(0x41)));
    assert!(LOOKUP_MAX_ROUNDS > 0);
}

#[test]
fn snapshot_lists_each_peer_once_in_its_bucket() {
    let mut t = RoutingTable::new(id(0), 2, 100);
    for lo in [1u128, 2, 3, 4, 5, 6, 7, 1u128 << 100] {
        t.insert_or_update(peer(lo, 1), 1);
    }
    let snap = t.bucket_snapshot();
    let ids: Vec<u128> = snap.iter().map(|p| p.node.node_id.lo).collect();
    assert_eq!(ids, vec![1, 2, 3, 4, 5, 1u128 << 100]);
}

#[test]
fn full_store_refuses_new_keys_but_takes_updates() {
    let mut s = ContentStore::new(full_radius(), 1);
    assert_eq!(store(&mut s, vec![1u8], vec![1u8]), Ok(true));
    assert_eq!(store(&mut s, vec![2u8], vec![2u8]), Err(StoreError::Full));
    assert_eq!(local_content(&s, &vec![2u8]), b"0x".to_vec());
    assert_eq!(store(&mut s, vec![1u8], vec![3u8]), Ok(true));
    assert_eq!(local_content(&s, &vec![1u8]), b"0x03".to_vec());
}
