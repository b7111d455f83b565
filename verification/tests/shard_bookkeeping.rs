use stateless_history_node::bitset::Bitset;
use stateless_history_node::peers::{PeerCache, StoredPeer};
use stateless_history_node::shard::{
    compaction_row_count, max_entry_offset, sum_counts_at, tally_rows, CompactionTally, RowSource, ShardMeta, ShardState,
};
use stateless_history_node::cli::{HeadSource, ReorgStrategy, RetentionMode};
use stateless_history_node::table::{group_by_shard, shard_start, DirtyShardInfo, ShardTable, StorageConfigKey, StorageMeta};
use stateless_history_node::wal::{next_index_entry, WalIndexEntry};

fn empty_shard(start: u64, size: u64) -> ShardState {
    ShardState { meta: ShardMeta::new_empty(start, size), bitset: Bitset::new(size as usize) }
}

fn table_with_blocks(shard_size: u64, blocks: &[u64]) -> ShardTable {
    let mut table = ShardTable::new(shard_size);
    for &b in blocks {
        let (i, _) = table.get_or_create_shard(shard_start(b, shard_size));
        table.apply_follow_write(i, b, 1, 1, 2);
    }
    table
}

#[test]
fn compaction_tally_picks_the_log_first() {
    let mut tally = CompactionTally::new(10);
    assert_eq!(tally.record_row(100, 0, false, false, 5), RowSource::Empty);
    assert_eq!(tally.tail_block, None);
    assert_eq!(tally.record_row(100, 3, true, true, 2), RowSource::Wal);
    assert_eq!(tally.record_row(100, 1, false, true, 4), RowSource::Existing);
    assert_eq!(tally.tail_block, Some(103));
    assert_eq!(tally.total_transactions, 6);
    assert_eq!(tally.total_receipts, 6);
    assert!(tally.bitset.is_set(1));
    assert!(tally.bitset.is_set(3));
    assert!(!tally.bitset.is_set(0));
    assert_eq!(tally.bitset.count_ones(), 2);
}

#[test]
fn finishing_a_compaction_installs_the_tally() {
    let mut shard = empty_shard(100, 10);
    shard.meta.sorted = false;
    shard.meta.total_logs = 9;
    let mut tally = CompactionTally::new(10);
    for offset in 0..10 {
        tally.record_row(100, offset, offset % 2 == 0, false, 1);
    }
    shard.finish_compaction(tally, 108);
    assert_eq!(shard.meta.present_count, 5);
    assert!(!shard.meta.complete);
    assert!(shard.meta.sorted);
    assert!(!shard.meta.sealed);
    assert_eq!(shard.meta.tail_block, Some(108));
    assert_eq!(shard.meta.total_transactions, 5);
    assert_eq!(shard.meta.total_receipts, 5);
    assert_eq!(shard.meta.total_logs, 9);
    assert!(shard.meta.compaction_phase.is_none());
}

#[test]
fn sealing_needs_a_tail() {
    let mut shard = empty_shard(0, 4);
    assert!(!shard.seal("abc".to_string()));
    assert!(!shard.meta.sealed);
    assert!(shard.meta.content_hash.is_none());
    shard.meta.tail_block = Some(3);
    assert!(shard.seal("abc".to_string()));
    assert!(shard.meta.sealed);
    assert_eq!(shard.meta.content_hash.as_deref(), Some("abc"));
    assert_eq!(shard.meta.content_hash_algo, "sha256");
}

#[test]
fn compaction_rows_cover_log_and_segments() {
    assert_eq!(compaction_row_count(None, 0), None);
    assert_eq!(compaction_row_count(Some(0), 0), Some(1));
    assert_eq!(compaction_row_count(Some(4), 3), Some(5));
    assert_eq!(compaction_row_count(None, 7), Some(7));
    assert_eq!(compaction_row_count(Some(2), 10), Some(10));
    assert_eq!(compaction_row_count(Some(usize::MAX), 0), Some(usize::MAX));
}

#[test]
fn highest_entry_offset() {
    let entries: Vec<Option<u8>> = vec![None, Some(1), None, Some(2), None];
    assert_eq!(max_entry_offset(&entries), Some(3));
    let none: Vec<Option<u8>> = vec![None, None];
    assert_eq!(max_entry_offset(&none), None);
    let empty: Vec<Option<u8>> = Vec::new();
    assert_eq!(max_entry_offset(&empty), None);
}

#[test]
fn log_takes_absent_blocks_once() {
    let mut shard = empty_shard(10, 10);
    shard.bitset.set(2);
    let numbers = vec![12, 13, 13, 15, 99];
    let members = vec![0, 1, 2, 3];
    assert_eq!(shard.select_wal_records(&numbers, &members), vec![1, 3]);
    assert!(shard.select_wal_records(&numbers, &vec![]).is_empty());
}

#[test]
fn log_append_marks_sorted_shard_dirty() {
    let mut shard = empty_shard(0, 10);
    shard.meta.sealed = true;
    shard.meta.content_hash = Some("h".to_string());
    assert!(!shard.record_wal_append(false, 0));
    assert!(shard.meta.sorted);
    assert!(shard.meta.sealed);
    assert!(shard.record_wal_append(false, 3));
    assert_eq!(shard.meta.total_logs, 3);
    assert!(shard.record_wal_append(true, 0));
    assert!(!shard.meta.sorted);
    assert!(!shard.meta.sealed);
    assert!(shard.meta.content_hash.is_none());
    assert!(!shard.record_wal_append(true, 0));
}

#[test]
fn counts_sum_at_positions() {
    let counts = vec![1, 2, 3, u64::MAX];
    assert_eq!(sum_counts_at(&counts, &vec![0, 2, 2]), Some(7));
    assert_eq!(sum_counts_at(&counts, &vec![]), Some(0));
    assert_eq!(sum_counts_at(&counts, &vec![3, 0]), None);
    assert_eq!(sum_counts_at(&counts, &vec![3]), Some(u64::MAX));
}

#[test]
fn dirty_and_sealable_shards() {
    let mut table = table_with_blocks(2, &[0, 1, 2, 4, 5]);
    assert_eq!(table.shards.len(), 3);
    assert_eq!(table.count_shards_to_seal(), 2);
    table.shards[2].meta.sorted = false;
    assert_eq!(table.count_shards_to_seal(), 1);
    assert_eq!(
        table.dirty_shards(&vec![0, 7, 0]),
        vec![
            DirtyShardInfo { shard_start: 2, wal_bytes: 7 },
            DirtyShardInfo { shard_start: 4, wal_bytes: 0 },
        ]
    );
    assert_eq!(table.dirty_complete_shards(&vec![true, true, false]), vec![0, 4]);
    table.shards[0].meta.sealed = true;
    assert_eq!(table.count_shards_to_seal(), 0);
}

#[test]
fn blocks_group_by_shard_in_order_of_appearance() {
    let groups = group_by_shard(&vec![25, 3, 21, 7, 40], 10);
    assert_eq!(groups, vec![(20, vec![0, 2]), (0, vec![1, 3]), (40, vec![4])]);
    assert!(group_by_shard(&vec![], 10).is_empty());
}

#[test]
fn log_index_steps_over_records() {
    let mut header = Vec::new();
    header.extend_from_slice(&42u64.to_le_bytes());
    header.extend_from_slice(&5u32.to_le_bytes());
    assert_eq!(
        next_index_entry(&header, 100, 121),
        Some((WalIndexEntry { block_number: 42, record_offset: 100, payload_len: 5 }, 121))
    );
    assert_eq!(next_index_entry(&header, 100, 120), None);
    assert_eq!(next_index_entry(&header, u64::MAX - 3, u64::MAX), Some((
        WalIndexEntry { block_number: 42, record_offset: u64::MAX - 3, payload_len: 5 },
        u64::MAX
    )));
}

fn peer(id: &str, last_seen_ms: u64) -> StoredPeer {
    StoredPeer {
        peer_id: id.to_string(),
        tcp_addr: "127.0.0.1:30303".to_string(),
        udp_addr: None,
        last_seen_ms,
        aimd_batch_limit: None,
    }
}

#[test]
fn cache_from_peers_keeps_the_later_entry() {
    let cache = PeerCache::from_peers(vec![peer("a", 1), peer("b", 2), peer("a", 3)]);
    let snapshot = cache.snapshot();
    assert_eq!(snapshot.len(), 2);
    let a = snapshot.iter().find(|p| p.peer_id == "a").expect("a is cached");
    assert_eq!(a.last_seen_ms, 3);
    assert!(snapshot.iter().any(|p| p.peer_id == "b" && p.last_seen_ms == 2));
}

#[test]
fn wal_write_plan_takes_each_absent_block_once() {
    let mut table = table_with_blocks(10, &[11]);
    let numbers = vec![14u64, 11, 14, 25, 12];
    let plan = table.plan_wal_write(&numbers);
    let mut written: Vec<u64> = plan.iter().map(|&p| numbers[p]).collect();
    written.sort();
    assert_eq!(written, vec![12, 14, 25]);
    assert_eq!(plan.len(), 3);
    assert!(table.has_block(11));
    assert!(!table.has_block(12));
    assert!(!table.has_block(14));
    assert!(!table.has_block(25));
    assert!(table.find_shard(20).is_some());
    assert!(table.find_shard(10).is_some());
}

#[test]
fn wal_write_plan_of_nothing_is_empty() {
    let mut table = table_with_blocks(10, &[3]);
    let plan = table.plan_wal_write(&Vec::new());
    assert!(plan.is_empty());
    let plan = table.plan_wal_write(&vec![3u64, 3]);
    assert!(plan.is_empty());
    assert!(table.has_block(3));
}

#[test]
fn written_blocks_raise_the_highest_present_block() {
    let key = StorageConfigKey {
        retention_mode: RetentionMode::Full,
        head_source: HeadSource::P2p,
        reorg_strategy: ReorgStrategy::Delete,
    };
    let mut meta = StorageMeta {
        schema_version: 2,
        chain_id: 1,
        storage_key: key,
        shard_size: 10,
        max_present_block: Some(20),
        head_seen: None,
    };
    let numbers = vec![14u64, 11, 25, 12];
    assert!(!meta.bump_for_written(&numbers, &vec![0, 1]));
    assert_eq!(meta.max_present_block, Some(20));
    assert!(meta.bump_for_written(&numbers, &vec![3, 2, 0]));
    assert_eq!(meta.max_present_block, Some(25));
    meta.max_present_block = None;
    assert!(!meta.bump_for_written(&numbers, &Vec::new()));
    assert_eq!(meta.max_present_block, None);
    assert!(meta.bump_for_written(&numbers, &vec![1]));
    assert_eq!(meta.max_present_block, Some(11));
}

#[test]
fn compaction_row_loop_prefers_the_log_and_counts_what_it_takes() {
    let wal = vec![None, Some(2u64), None, Some(5)];
    let existing = vec![Some(1u64), Some(9), None];
    let (tally, sources) = tally_rows(100, 10, &wal, &existing, 5);
    assert_eq!(
        sources,
        vec![RowSource::Existing, RowSource::Wal, RowSource::Empty, RowSource::Wal, RowSource::Empty]
    );
    assert_eq!(tally.total_transactions, 8);
    assert_eq!(tally.total_receipts, 8);
    assert_eq!(tally.tail_block, Some(103));
    assert!(tally.bitset.is_set(0) && tally.bitset.is_set(1) && tally.bitset.is_set(3));
    assert!(!tally.bitset.is_set(2) && !tally.bitset.is_set(4));
    assert_eq!(tally.bitset.count_ones(), 3);
    let (empty, none) = tally_rows(100, 10, &wal, &existing, 0);
    assert!(none.is_empty());
    assert_eq!(empty.tail_block, None);
    assert_eq!(empty.total_transactions, 0);
}
