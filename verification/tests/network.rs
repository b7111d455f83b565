use stateless_history_node::chain::{ChainError, ChainTracker, ChainUpdate, Hash256, HeaderStub};
use stateless_history_node::cli::compute_target_range;
use stateless_history_node::follow::{
    advanced_head, after_ingest, already_present, follow_step, normalize_chunk_sizes, AfterIngest, FollowAction,
    FollowEvent, TailFeeder,
};
use stateless_history_node::p2p::{
    assemble_payloads, best_head, order_headers, p2p_limits, place_results, plan_head_probe, ChunkCountError,
    HeaderCountMismatch, HeaderFetchPlan, HeaderRequest, PartialFetch, PeerPool, PeerSelector, PoolPeer, PoolWait,
    RoundRobinPeerSelector, MAX_HEADERS_PER_REQUEST, enough_peers, peer_cache_expire_before, peer_head_ready, pool_wait_step,
};
use stateless_history_node::peers::{PeerCache, PeerCacheBuffer, StoredPeer};

fn h(value: u64) -> Hash256 {
    Hash256 { hi: 0, lo: value as u128 }
}

fn header(number: u64, hash: u64, parent: u64) -> HeaderStub {
    HeaderStub { number, hash: h(hash), parent_hash: h(parent) }
}

#[test]
fn chain_rejects_non_contiguous_child() {
    let mut tracker = ChainTracker::new();
    tracker.insert_header(header(0, 1, 0)).unwrap();
    assert_eq!(
        tracker.insert_header(header(5, 2, 1)),
        Err(ChainError::NonContiguousNumber { expected: 1, got: 5 })
    );
    assert_eq!(tracker.head(), Some(header(0, 1, 0)));
}

#[test]
fn chain_reorg_removes_every_number_above_ancestor() {
    let mut tracker = ChainTracker::new();
    tracker.insert_header(header(10, 1, 0)).unwrap();
    tracker.insert_header(header(11, 2, 1)).unwrap();
    tracker.insert_header(header(12, 3, 2)).unwrap();
    tracker.insert_header(header(13, 4, 3)).unwrap();
    let fork = header(12, 30, 2);
    assert_eq!(
        tracker.insert_header(fork),
        Ok(ChainUpdate::Reorg { ancestor_number: 11, removed_numbers: vec![12, 13], new_head: fork })
    );
    assert_eq!(tracker.canonical_hash(12), Some(h(30)));
    assert_eq!(tracker.canonical_hash(13), None);
    assert_eq!(tracker.canonical_hash(11), Some(h(2)));
}

#[test]
fn round_robin_returns_to_first_peer_after_a_cycle() {
    let mut selector = RoundRobinPeerSelector::new(vec!["a".to_string(), "b".to_string()]);
    let picks: Vec<_> = (0..5).map(|_| selector.next_peer().unwrap()).collect();
    assert_eq!(picks, vec!["a", "b", "a", "b", "a"]);
    let mut empty = RoundRobinPeerSelector::default();
    assert_eq!(empty.next_peer(), None);
}

#[test]
fn tail_feeder_schedules_contiguous_ranges() {
    let mut feeder = TailFeeder::new(100);
    assert_eq!(feeder.on_head(150, 64), None);
    assert_eq!(feeder.on_head(170, 64), Some((101, 106)));
    assert_eq!(feeder.on_head(175, 64), Some((107, 111)));
    assert_eq!(feeder.on_head(175, 64), None);
    assert_eq!(feeder.next_to_schedule, 112);
}

#[test]
fn follow_mode_decisions() {
    assert_eq!(follow_step(false, FollowEvent::Synced), FollowAction::StartRpc);
    assert_eq!(follow_step(true, FollowEvent::Synced), FollowAction::Wait);
    assert_eq!(follow_step(true, FollowEvent::Shutdown), FollowAction::Stop);
    assert_eq!(follow_step(false, FollowEvent::LoopDone), FollowAction::Stop);
}

#[test]
fn chunk_sizes_are_normalized() {
    assert_eq!(normalize_chunk_sizes(16, None), (16, 64));
    assert_eq!(normalize_chunk_sizes(16, Some(8)), (8, 8));
    assert_eq!(normalize_chunk_sizes(0, None), (0, 1));
    assert_eq!(normalize_chunk_sizes(u64::MAX, None), (u64::MAX, u64::MAX));
}

#[test]
fn head_advances_only_past_last_head() {
    assert_eq!(advanced_head(100, &vec![90, 120, 110]), Some(120));
    assert_eq!(advanced_head(100, &vec![90, 100]), None);
    assert_eq!(advanced_head(100, &vec![]), None);
}

#[test]
fn target_range_stops_at_safe_head() {
    assert_eq!(compute_target_range(10, None, 100, 64), 10..=36);
    assert_eq!(compute_target_range(10, Some(20), 100, 64), 10..=20);
    assert_eq!(compute_target_range(10, Some(50), 100, 64), 10..=36);
    assert_eq!(compute_target_range(10, None, 30, 64), 10..=0);
}

#[test]
fn header_fetch_is_chunked() {
    let mut plan = HeaderFetchPlan::new(100, 1500, false);
    assert_eq!(plan.next_request(), Some(HeaderRequest { start_block: 100, limit: MAX_HEADERS_PER_REQUEST }));
    assert_eq!(plan.on_response(1024), Ok(()));
    assert_eq!(plan.next_request(), Some(HeaderRequest { start_block: 1124, limit: 476 }));
    assert_eq!(plan.on_response(10), Ok(()));
    assert_eq!(plan.next_request(), None);
    assert_eq!(plan.requests, 2);
}

#[test]
fn strict_header_fetch_fails_on_short_answer() {
    let mut plan = HeaderFetchPlan::new(0, 5, true);
    let err = plan.on_response(3).unwrap_err();
    assert_eq!(err, HeaderCountMismatch { expected: 5, got: 3 });
    assert_eq!(err.message(), "header count mismatch: expected 5, got 3");
    assert_eq!(plan.next_request(), None);
}

#[test]
fn partial_fetch_moves_cursor_and_rejects_excess() {
    let mut fetch = PartialFetch::new(10);
    assert_eq!(fetch.next_request(), Some((0, 10)));
    assert_eq!(fetch.on_response(4), Ok(()));
    assert_eq!(fetch.next_request(), None);
    assert_eq!(fetch.cursor, 4);

    let mut fetch = PartialFetch::new(3);
    assert_eq!(fetch.on_response(5), Err(ChunkCountError { requested: 3, got: 5 }));

    let mut fetch = PartialFetch::new(3);
    assert_eq!(fetch.on_response(3), Ok(()));
    assert_eq!(fetch.next_request(), None);
    assert_eq!(fetch.requests, 1);
}

#[test]
fn results_are_placed_at_cursor() {
    let mut results: Vec<Option<u32>> = vec![None; 5];
    place_results(&mut results, 1, vec![7, 8]);
    assert_eq!(results, vec![None, Some(7), Some(8), None, None]);
}

#[test]
fn headers_are_put_in_block_order() {
    let (ordered, missing) = order_headers(10, 14, &vec![12, 10, 14, 12]);
    assert_eq!(ordered, vec![1, 3, 2]);
    assert_eq!(missing, vec![11, 13]);
}

#[test]
fn payloads_need_matching_bodies_and_receipts() {
    let (accepted, missing) =
        assemble_payloads(&vec![10, 11, 12], &vec![Some(2), Some(1), None], &vec![Some(2), Some(3), Some(0)]);
    assert_eq!(accepted, vec![0]);
    assert_eq!(missing, vec![11, 12]);
}

#[test]
fn head_probe_plan_and_result() {
    let plan = plan_head_probe(5, 7, 100, 3, 0).expect("peers exist");
    assert_eq!(plan.start, 101);
    assert_eq!(plan.limit, 1);
    assert_eq!(plan.peers, vec![2, 3, 4]);
    let plan = plan_head_probe(2, 1, 100, 5, 5000).expect("peers exist");
    assert_eq!(plan.peers, vec![1, 0]);
    assert_eq!(plan.limit, MAX_HEADERS_PER_REQUEST);
    assert_eq!(plan_head_probe(0, 0, 100, 3, 10), None);
    assert_eq!(best_head(100, &vec![None, Some(102), Some(90)]), 102);
    assert_eq!(best_head(100, &vec![]), 100);
}

#[test]
fn network_limits() {
    let limits = p2p_limits();
    assert_eq!(limits.max_outbound, 400);
    assert_eq!(limits.max_concurrent_dials, 200);
    assert_eq!(limits.request_timeout_ms, 4000);
    assert_eq!(limits.max_headers_per_request, 1024);
    assert_eq!(limits.peer_cache_max, 5000);
}

fn peer(id: &str, addr: &str, seen: u64) -> StoredPeer {
    StoredPeer {
        peer_id: id.to_string(),
        tcp_addr: addr.to_string(),
        udp_addr: None,
        last_seen_ms: seen,
        aimd_batch_limit: None,
    }
}

#[test]
fn peer_cache_upserts_and_loads_newest_first() {
    let mut cache = PeerCache::new();
    cache.upsert_peer(peer("a", "1.1.1.1:30303", 100));
    cache.upsert_peer(peer("b", "2.2.2.2:30303", 300));
    cache.upsert_peer(peer("c", "3.3.3.3:30303", 50));
    cache.upsert_peer(peer("a", "1.1.1.9:30303", 200));
    let load = cache.load_peers(60, 10);
    assert_eq!(load.total, 3);
    assert_eq!(load.expired, 1);
    assert_eq!(load.capped, 0);
    let ids: Vec<_> = load.peers.iter().map(|p| p.peer_id.clone()).collect();
    assert_eq!(ids, vec!["b", "a"]);
    assert_eq!(load.peers[1].tcp_addr, "1.1.1.9:30303");
    let load = cache.load_peers(0, 1);
    assert_eq!(load.capped, 1);
    assert_eq!(load.peers.len(), 1);
    assert_eq!(load.peers[0].peer_id, "b");
}

#[test]
fn peer_batch_limits_are_recorded() {
    let mut cache = PeerCache::new();
    cache.upsert_peer(peer("a", "1.1.1.1:30303", 100));
    cache.update_peer_batch_limits(&vec![("a".to_string(), 64), ("zz".to_string(), 8)]);
    let snapshot = cache.snapshot();
    assert_eq!(snapshot.len(), 1);
    assert_eq!(snapshot[0].aimd_batch_limit, Some(64));
}

#[test]
fn peer_buffer_merges_until_closed() {
    let mut buffer = PeerCacheBuffer::new();
    buffer.upsert(peer("a", "1.1.1.1:30303", 100));
    let mut later = peer("a", "1.1.1.2:30303", 50);
    later.udp_addr = Some("1.1.1.2:30301".to_string());
    buffer.upsert(later);
    let drained = buffer.close_and_drain();
    assert_eq!(drained.len(), 1);
    assert_eq!(drained[0].last_seen_ms, 100);
    assert_eq!(drained[0].tcp_addr, "1.1.1.2:30303");
    assert_eq!(drained[0].udp_addr, Some("1.1.1.2:30301".to_string()));
    buffer.upsert(peer("b", "2.2.2.2:30303", 1));
    assert!(buffer.close_and_drain().is_empty());
}

#[test]
fn run_continues_after_ingest() {
    assert_eq!(after_ingest(true, false), AfterIngest::Follow);
    assert_eq!(after_ingest(true, true), AfterIngest::Finalize { stop_helpers: true });
    assert_eq!(after_ingest(false, false), AfterIngest::Finalize { stop_helpers: false });
    assert_eq!(already_present(100, 30), 70);
    assert_eq!(already_present(10, 30), 0);
}

fn pool_peer(id: &str, head: u64) -> PoolPeer {
    PoolPeer { peer_id: id.to_string(), eth_version: 68, head_number: head }
}

#[test]
fn peer_pool_keeps_one_entry_per_id() {
    let mut pool = PeerPool::new();
    pool.add_peer(pool_peer("a", 10));
    pool.add_peer(pool_peer("b", 20));
    pool.add_peer(pool_peer("a", 99));
    assert_eq!(pool.len(), 2);
    assert_eq!(pool.get_peer_head("a"), Some(10));
    pool.update_peer_head("a", 15);
    pool.update_peer_head("zz", 1);
    assert_eq!(pool.get_peer_head("a"), Some(15));
    pool.remove_peer("a");
    assert_eq!(pool.get_peer_head("a"), None);
    assert_eq!(pool.snapshot(), vec![pool_peer("b", 20)]);
}

#[test]
fn waiting_for_peers() {
    assert_eq!(pool_wait_step(3, 2, false), PoolWait::Ready(3));
    assert_eq!(pool_wait_step(1, 2, false), PoolWait::Wait);
    assert_eq!(pool_wait_step(1, 2, true), PoolWait::Ready(1));
    assert_eq!(pool_wait_step(0, 2, true), PoolWait::NoPeers);
    assert_eq!(peer_cache_expire_before(1_000), 0);
    assert_eq!(peer_cache_expire_before(700_000_000), 700_000_000 - 604_800_000);
}

#[test]
fn waiting_for_peers_and_their_head() {
    assert!(enough_peers(0, 0));
    assert!(!enough_peers(2, 3));
    assert!(enough_peers(3, 3));
    assert_eq!(peer_head_ready(&vec![], 0, None, 0), Some(0));
    assert_eq!(peer_head_ready(&vec![], 1, None, 0), None);
    assert_eq!(peer_head_ready(&vec![90, 164, 120], 100, None, 64), Some(164));
    assert_eq!(peer_head_ready(&vec![90, 163, 120], 100, None, 64), None);
    assert_eq!(peer_head_ready(&vec![500], 100, Some(99), 64), None);
    assert_eq!(peer_head_ready(&vec![500], 100, Some(150), 64), Some(500));
    assert_eq!(peer_head_ready(&vec![50], 0, None, 64), Some(50));
}
