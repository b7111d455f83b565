use stateless_history_node::bitset::Bitset;
use stateless_history_node::chain::{
    ChainError, ChainTracker, ChainUpdate, Hash256, HeadTracker, HeaderStub, MemoryHeadTracker,
};
use stateless_history_node::metrics::{range_len, total_blocks_to_head};
use stateless_history_node::p2p::{PeerSelector, RoundRobinPeerSelector};

fn hash_from_u64(value: u64) -> Hash256 {
    Hash256 { hi: 0, lo: value as u128 }
}

fn zero_hash() -> Hash256 {
    Hash256 { hi: 0, lo: 0 }
}

#[test]
fn memory_head_tracker_roundtrip() {
    let mut tracker = MemoryHeadTracker::default();
    assert_eq!(tracker.head(), None);
    tracker.set_head(42);
    assert_eq!(tracker.head(), Some(42));
}

#[test]
fn chain_tracker_extends_canonical() {
    let mut tracker = ChainTracker::new();
    let genesis = HeaderStub { number: 0, hash: hash_from_u64(1), parent_hash: zero_hash() };
    let one = HeaderStub { number: 1, hash: hash_from_u64(2), parent_hash: hash_from_u64(1) };

    assert_eq!(tracker.insert_header(genesis), Ok(ChainUpdate::Initialized { head: genesis }));
    assert_eq!(tracker.insert_header(one), Ok(ChainUpdate::Extended { new_head: one }));
    assert_eq!(tracker.canonical_hash(1), Some(hash_from_u64(2)));
}

#[test]
fn chain_tracker_detects_reorg() {
    let mut tracker = ChainTracker::new();
    let genesis = HeaderStub { number: 0, hash: hash_from_u64(1), parent_hash: zero_hash() };
    let one = HeaderStub { number: 1, hash: hash_from_u64(2), parent_hash: hash_from_u64(1) };
    let two = HeaderStub { number: 2, hash: hash_from_u64(3), parent_hash: hash_from_u64(2) };
    let two_alt = HeaderStub { number: 2, hash: hash_from_u64(4), parent_hash: hash_from_u64(2) };

    tracker.insert_header(genesis).unwrap();
    tracker.insert_header(one).unwrap();
    tracker.insert_header(two).unwrap();

    let update = tracker.insert_header(two_alt).unwrap();
    assert_eq!(
        update,
        ChainUpdate::Reorg { ancestor_number: 1, removed_numbers: vec![2], new_head: two_alt }
    );
    assert_eq!(tracker.head(), Some(two_alt));
    assert_eq!(tracker.canonical_hash(2), Some(hash_from_u64(4)));
}

#[test]
fn chain_tracker_rejects_unknown_parent() {
    let mut tracker = ChainTracker::new();
    let genesis = HeaderStub { number: 0, hash: hash_from_u64(1), parent_hash: zero_hash() };
    tracker.insert_header(genesis).unwrap();
    let header = HeaderStub { number: 2, hash: hash_from_u64(10), parent_hash: hash_from_u64(9) };
    assert_eq!(tracker.insert_header(header), Err(ChainError::UnknownParent(hash_from_u64(9))));
}

#[test]
fn total_blocks_handles_empty_range() {
    assert_eq!(total_blocks_to_head(10, 9), 0);
    assert_eq!(total_blocks_to_head(10, 10), 1);
    assert_eq!(total_blocks_to_head(10, 12), 3);
}

#[test]
fn range_len_counts_inclusive() {
    assert_eq!(range_len(&(5..=5)), 1);
    assert_eq!(range_len(&(5..=7)), 3);
}

#[test]
fn round_robin_cycles_peers() {
    let mut selector = RoundRobinPeerSelector::new(vec![
        "peer-a".to_string(),
        "peer-b".to_string(),
        "peer-c".to_string(),
    ]);
    let selected = vec![
        selector.next_peer(),
        selector.next_peer(),
        selector.next_peer(),
        selector.next_peer(),
    ];
    assert_eq!(
        selected,
        vec![
            Some("peer-a".to_string()),
            Some("peer-b".to_string()),
            Some("peer-c".to_string()),
            Some("peer-a".to_string()),
        ]
    );
}

#[test]
fn bitset_set_clear_and_count() {
    let mut bitset = Bitset::new(10);
    assert_eq!(bitset.count_ones(), 0);
    assert!(bitset.set(3));
    assert!(bitset.is_set(3));
    assert_eq!(bitset.count_ones(), 1);
    assert!(bitset.clear(3));
    assert!(!bitset.is_set(3));
    assert_eq!(bitset.count_ones(), 0);
}

#[test]
fn round_robin_hands_each_peer_once_per_turn() {
    let peers: Vec<String> = (0..5).map(|i| format!("peer-{i}")).collect();
    let mut selector = RoundRobinPeerSelector::new(peers.clone());
    for k in 0..12 {
        assert_eq!(selector.next_peer(), Some(peers[k % 5].clone()));
    }
    let mut turn: Vec<String> = (0..5).map(|_| selector.next_peer().unwrap()).collect();
    turn.sort();
    assert_eq!(turn, peers);
}

#[test]
fn chain_reorg_onto_older_canonical_block() {
    let mut tracker = ChainTracker::new();
    for n in 0..5u64 {
        let parent = if n == 0 { zero_hash() } else { hash_from_u64(n - 1) };
        tracker.insert_header(HeaderStub { number: n, hash: hash_from_u64(n), parent_hash: parent }).unwrap();
    }
    let fork = HeaderStub { number: 3, hash: hash_from_u64(100), parent_hash: hash_from_u64(2) };
    assert_eq!(
        tracker.insert_header(fork),
        Ok(ChainUpdate::Reorg { ancestor_number: 2, removed_numbers: vec![3, 4], new_head: fork })
    );
    assert_eq!(tracker.canonical_hash(3), Some(hash_from_u64(100)));
    assert_eq!(tracker.canonical_hash(4), None);
    assert_eq!(tracker.canonical_hash(0), Some(hash_from_u64(0)));
    let bad = HeaderStub { number: 5, hash: hash_from_u64(101), parent_hash: hash_from_u64(1) };
    assert_eq!(
        tracker.insert_header(bad),
        Err(ChainError::NonContiguousNumber { expected: 2, got: 5 })
    );
}
