use stateless_history_node::bitset::Bitset;
use stateless_history_node::bundle::{
    encode_bundle_payload, index_bundle_slices, parse_bundle_payload, read_bytes_range, ByteRange, WalBundleRecord,
    WalBundleSlices, WalError,
};
use stateless_history_node::codec::{bincode_vec_len, decode_u64, encode_u64_value, read_u32, read_u64, CodecError};
use stateless_history_node::hash::{sort_file_names, to_hex, ShardHasher};
use stateless_history_node::shard::{
    compute_shard_disk_bytes, CompactionTally, RowSource, recover_shard, CompactionPhase, DirAction, RepairReport, ShardArtifact, ShardFiles,
    ShardMeta, ShardRecoveryResult, ShardRepairInfo,
};
use stateless_history_node::table::{
    open_meta, shard_start, MetaMismatch, OpenMetaError, ShardTable, StorageConfigKey, StorageMeta, SCHEMA_VERSION,
};
use stateless_history_node::records::segment_totals;
use stateless_history_node::cli::{HeadSource, ReorgStrategy, RetentionMode};
use stateless_history_node::wal::{checked_record, decode_records, encode_records, frame_payload_end, WalRecord};

fn record(block_number: u64, payload: &[u8]) -> WalRecord {
    WalRecord { block_number, payload: payload.to_vec() }
}

#[test]
fn wal_records_roundtrip() {
    let mut log = Vec::new();
    encode_records(&mut log, &[record(5, b"hello"), record(6, b"world")]);
    assert_eq!(log.len(), 2 * (16 + 5));
    let (records, used) = decode_records(&log);
    assert_eq!(used, log.len());
    assert_eq!(records.len(), 2);
    assert_eq!(records[0].block_number, 5);
    assert_eq!(records[0].payload, b"hello".to_vec());
    assert_eq!(records[1].block_number, 6);
    assert_eq!(records[1].payload, b"world".to_vec());
}

#[test]
fn wal_decode_stops_at_partial_tail() {
    let mut log = Vec::new();
    encode_records(&mut log, &[record(1, b"abc")]);
    let whole = log.len();
    let mut extra = Vec::new();
    encode_records(&mut extra, &[record(2, b"defgh")]);
    log.extend_from_slice(&extra[..10]);
    let (records, used) = decode_records(&log);
    assert_eq!(records.len(), 1);
    assert_eq!(used, whole);
}

#[test]
fn wal_decode_stops_at_corrupt_crc() {
    let mut log = Vec::new();
    encode_records(&mut log, &[record(1, b"abc"), record(2, b"xyz")]);
    let first = 16 + 3;
    // Flip a payload byte of the second record.
    log[first + 12] ^= 0xff;
    let (records, used) = decode_records(&log);
    assert_eq!(records.len(), 1);
    assert_eq!(used, first);
}

#[test]
fn wal_frame_and_crc_checks() {
    let mut log = Vec::new();
    encode_records(&mut log, &[record(9, b"pay")]);
    assert_eq!(frame_payload_end(&log, 0), Some(15));
    assert_eq!(frame_payload_end(&log[..18], 0), None);
    let stored = u32::from_le_bytes([log[15], log[16], log[17], log[18]]);
    let good = checked_record(&log, 0, 15, stored).expect("intact record");
    assert_eq!(good.block_number, 9);
    assert_eq!(good.payload, b"pay".to_vec());
    assert!(checked_record(&log, 0, 15, stored.wrapping_add(1)).is_none());
}

fn sample_bundle(number: u64) -> WalBundleRecord {
    WalBundleRecord {
        number,
        header: vec![1, 2, 3],
        tx_hashes: vec![],
        tx_meta: vec![9],
        tx_meta_uncompressed_len: 10,
        receipts: vec![4, 5],
        receipts_uncompressed_len: 20,
        size: vec![8],
    }
}

#[test]
fn bundle_payload_roundtrip() {
    let bytes = encode_bundle_payload(&sample_bundle(7));
    assert_eq!(bytes.len(), 63);
    let (number, slices, end) = parse_bundle_payload(&bytes, 0, bytes.len()).expect("bundle decodes");
    assert_eq!(number, 7);
    assert_eq!(end, 63);
    assert_eq!(
        slices,
        WalBundleSlices {
            header: ByteRange { start: 16, end: 19 },
            tx_hashes: ByteRange { start: 27, end: 27 },
            tx_meta: ByteRange { start: 35, end: 36 },
            tx_meta_uncompressed_len: 10,
            receipts: ByteRange { start: 48, end: 50 },
            receipts_uncompressed_len: 20,
            size: ByteRange { start: 62, end: 63 },
        }
    );
    assert_eq!(&bytes[slices.header.as_range()], &[1, 2, 3]);
    assert_eq!(slices.receipts.len(), 2);
}

#[test]
fn bundle_field_past_end_is_truncated() {
    let bytes = [5u8, 0, 0, 0, 0, 0, 0, 0, 1, 2];
    let mut pos = 0;
    assert_eq!(read_bytes_range(&bytes, &mut pos, bytes.len()), Err(CodecError::TruncatedBytes { need: 5, have: 2 }));
    let mut pos = 4;
    assert_eq!(read_bytes_range(&bytes, &mut pos, bytes.len()), Err(CodecError::TruncatedU64));
}

#[test]
fn bundle_index_of_shard_log() {
    let payload = encode_bundle_payload(&sample_bundle(7));
    let mut log = Vec::new();
    encode_records(&mut log, &[WalRecord { block_number: 7, payload }]);
    let entries = index_bundle_slices(&log, 5, 4).expect("log indexes").expect("shard has bundles");
    assert_eq!(entries.len(), 4);
    assert!(entries[0].is_none() && entries[1].is_none() && entries[3].is_none());
    let slices = entries[2].expect("block 7 indexed");
    assert_eq!(slices.header, ByteRange { start: 28, end: 31 });
    assert_eq!(index_bundle_slices(&log, 100, 4), Ok(None));
}

#[test]
fn bundle_index_rejects_number_mismatch() {
    let payload = encode_bundle_payload(&sample_bundle(7));
    let mut log = Vec::new();
    encode_records(&mut log, &[WalRecord { block_number: 8, payload }]);
    assert_eq!(
        index_bundle_slices(&log, 0, 16),
        Err(WalError::NumberMismatch { offset: 0, header: 8, payload: 7 })
    );
}

#[test]
fn u64_codec_values() {
    assert_eq!(encode_u64_value(258), vec![2, 1, 0, 0, 0, 0, 0, 0]);
    assert_eq!(decode_u64(&encode_u64_value(u64::MAX)), Ok(u64::MAX));
    assert_eq!(decode_u64(&[1, 2, 3]), Err(CodecError::InvalidU64Length));
    let mut pos = 0;
    assert_eq!(read_u32(&[1, 2], &mut pos, 2), Err(CodecError::TruncatedU32));
    let mut pos = 1;
    assert_eq!(read_u64(&[0, 1, 0, 0, 0, 0, 0, 0, 0], &mut pos, 9), Ok(1));
    assert_eq!(pos, 9);
    assert_eq!(bincode_vec_len(&[3, 0, 0, 0, 0, 0, 0, 0, 0xaa]), 3);
    assert_eq!(bincode_vec_len(&[3, 0]), 0);
}

#[test]
fn bitset_from_bytes_keeps_bits() {
    let bitset = Bitset::from_bytes(vec![0b0000_0101, 0b1000_0000], 16);
    assert!(bitset.is_set(0));
    assert!(!bitset.is_set(1));
    assert!(bitset.is_set(2));
    assert!(bitset.is_set(15));
    assert!(!bitset.is_set(14));
    assert_eq!(bitset.count_ones(), 3);
    assert_eq!(bitset.bytes(), &[0b0000_0101, 0b1000_0000]);
}

#[test]
fn bitset_set_twice_reports_no_change() {
    let mut bitset = Bitset::new(9);
    assert_eq!(bitset.bytes().len(), 2);
    assert!(bitset.set(8));
    assert!(!bitset.set(8));
    assert!(!bitset.clear(7));
    assert_eq!(bitset.count_ones(), 1);
}

fn files(sorted: bool, sorted_old: bool, sorted_tmp: bool, bitset: bool, bitset_old: bool, bitset_tmp: bool, wal: bool) -> ShardFiles {
    ShardFiles { sorted, sorted_old, sorted_tmp, bitset, bitset_old, bitset_tmp, wal }
}

#[test]
fn recovery_of_interrupted_swap_restores_old_copies() {
    let mut meta = ShardMeta::new_empty(0, 10);
    meta.compaction_phase = Some(CompactionPhase::Swapping);
    let (result, actions) = recover_shard(&mut meta, files(false, true, true, true, false, false, true));
    assert_eq!(result, ShardRecoveryResult::RecoveredSwapping);
    assert_eq!(
        actions,
        vec![
            DirAction::Rename { from: ShardArtifact::SortedOld, to: ShardArtifact::Sorted },
            DirAction::Remove(ShardArtifact::SortedTmp),
        ]
    );
    assert!(meta.compaction_phase.is_none());
    assert!(!meta.sorted);
}

#[test]
fn recovery_of_each_phase() {
    let mut meta = ShardMeta::new_empty(0, 10);
    meta.compaction_phase = Some(CompactionPhase::Writing);
    let (result, actions) = recover_shard(&mut meta, files(true, false, true, true, false, true, true));
    assert_eq!(result, ShardRecoveryResult::RecoveredWriting);
    assert_eq!(actions, vec![DirAction::Remove(ShardArtifact::SortedTmp), DirAction::Remove(ShardArtifact::BitsetTmp)]);

    let mut meta = ShardMeta::new_empty(0, 10);
    meta.sorted = false;
    meta.compaction_phase = Some(CompactionPhase::Cleanup);
    let (result, actions) = recover_shard(&mut meta, files(true, true, false, true, true, false, true));
    assert_eq!(result, ShardRecoveryResult::RecoveredCleanup);
    assert_eq!(
        actions,
        vec![
            DirAction::Remove(ShardArtifact::SortedOld),
            DirAction::Remove(ShardArtifact::BitsetOld),
            DirAction::Remove(ShardArtifact::Wal),
        ]
    );
    assert!(meta.sorted);

    let mut meta = ShardMeta::new_empty(0, 10);
    let (result, actions) = recover_shard(&mut meta, files(true, false, false, true, false, false, false));
    assert_eq!(result, ShardRecoveryResult::Clean);
    assert!(actions.is_empty());
    assert!(!result.needs_recovery());

    let mut meta = ShardMeta::new_empty(0, 10);
    let (result, actions) = recover_shard(&mut meta, files(true, false, false, true, true, false, false));
    assert_eq!(result, ShardRecoveryResult::CleanedOrphans);
    assert_eq!(actions, vec![DirAction::Remove(ShardArtifact::BitsetOld)]);

    let mut meta = ShardMeta::new_empty(0, 10);
    meta.compaction_phase = Some(CompactionPhase::parse("merging"));
    let (result, actions) = recover_shard(&mut meta, files(true, false, false, true, false, false, false));
    assert_eq!(result, ShardRecoveryResult::CleanedOrphans);
    assert!(actions.is_empty());
    assert!(!meta.sorted);
}

#[test]
fn compaction_phase_names_roundtrip() {
    assert_eq!(CompactionPhase::parse("writing"), CompactionPhase::Writing);
    assert_eq!(CompactionPhase::parse("swapping").name(), "swapping");
    assert_eq!(CompactionPhase::parse("cleanup").name(), "cleanup");
    assert_eq!(CompactionPhase::parse("odd"), CompactionPhase::Other("odd".to_string()));
}

#[test]
fn repair_report_counts() {
    let report = RepairReport {
        shards: vec![
            ShardRepairInfo { shard_start: 0, result: ShardRecoveryResult::Clean, original_phase: None },
            ShardRepairInfo {
                shard_start: 10,
                result: ShardRecoveryResult::RecoveredWriting,
                original_phase: Some("writing".to_string()),
            },
            ShardRepairInfo { shard_start: 20, result: ShardRecoveryResult::CleanedOrphans, original_phase: None },
        ],
    };
    assert_eq!(report.total_count(), 3);
    assert_eq!(report.repaired_count(), 2);
    assert_eq!(report.clean_count(), 1);
    assert_eq!(ShardRecoveryResult::RecoveredCleanup.description(), "completed interrupted cleanup");
    assert_eq!(ShardRecoveryResult::Clean.description(), "OK");
}

#[test]
fn disk_bytes_saturate() {
    let sizes = compute_shard_disk_bytes(1, 2, 3, 4, 5);
    assert_eq!(sizes.headers, 1);
    assert_eq!(sizes.transactions, 5);
    assert_eq!(sizes.receipts, 4);
    assert_eq!(sizes.total, 15);
    let sizes = compute_shard_disk_bytes(u64::MAX, 1, 0, 0, 0);
    assert_eq!(sizes.total, u64::MAX);
}

fn table_with_blocks(shard_size: u64, blocks: &[u64]) -> ShardTable {
    let mut table = ShardTable::new(shard_size);
    for &b in blocks {
        let start = shard_start(b, shard_size);
        let (i, _) = table.get_or_create_shard(start);
        table.apply_follow_write(i, b, 1, 1, 2);
    }
    table
}

#[test]
fn shard_start_rounds_down() {
    assert_eq!(shard_start(0, 10), 0);
    assert_eq!(shard_start(19, 10), 10);
    assert_eq!(shard_start(20, 10), 20);
}

#[test]
fn missing_blocks_and_ranges() {
    let table = table_with_blocks(10, &[3, 4, 12]);
    assert!(table.has_block(3));
    assert!(!table.has_block(5));
    assert!(!table.has_block(25));
    assert_eq!(table.missing_blocks_in_range(2, 13), vec![2, 5, 6, 7, 8, 9, 10, 11, 13]);
    assert_eq!(table.missing_blocks_in_range(5, 4), Vec::<u64>::new());
    let (ranges, missing) = table.missing_ranges_in_range(2, 13);
    assert_eq!(ranges, vec![2..=2, 5..=9, 10..=11, 13..=13]);
    assert_eq!(missing, 9);
    let (ranges, missing) = table.missing_ranges_in_range(20, 24);
    assert_eq!(ranges, vec![20..=24]);
    assert_eq!(missing, 5);
    assert_eq!(table.first_absent_block(3, 4), None);
    assert_eq!(table.first_absent_block(3, 9), Some(5));
}

#[test]
fn rollback_removes_blocks_above_ancestor() {
    let mut table = table_with_blocks(10, &[1, 2, 3, 11, 12]);
    assert_eq!(table.recompute_max_present(), Some(12));
    assert_eq!(table.rollback_to(2), Some(2));
    assert!(table.has_block(2));
    assert!(!table.has_block(3));
    assert!(!table.has_block(11));
    assert!(!table.has_block(12));
}

#[test]
fn follow_write_target_skips_present_blocks() {
    let mut table = table_with_blocks(10, &[4]);
    assert_eq!(table.follow_write_target(4), None);
    let i = table.follow_write_target(15).expect("block 15 is new");
    assert_eq!(table.shards[i].meta.shard_start, 10);
    assert_eq!(table.shards.len(), 2);
}

#[test]
fn aggregate_stats_sums_shards() {
    let table = table_with_blocks(10, &[1, 2, 11]);
    let stats = table.aggregate_stats().expect("sums fit");
    assert_eq!(stats.total_blocks, 3);
    assert_eq!(stats.total_transactions, 3);
    assert_eq!(stats.total_receipts, 3);
    assert_eq!(stats.total_logs, 6);
    assert_eq!(stats.total_shards, 2);
    assert_eq!(stats.compacted_shards, 2);
}

#[test]
fn storage_meta_mismatches() {
    let key = StorageConfigKey {
        retention_mode: RetentionMode::Full,
        head_source: HeadSource::P2p,
        reorg_strategy: ReorgStrategy::Delete,
    };
    let meta = StorageMeta {
        schema_version: 2,
        chain_id: 1,
        storage_key: key,
        shard_size: 10_000,
        max_present_block: None,
        head_seen: None,
    };
    assert_eq!(meta.validate(1, key, 10_000), Ok(()));
    assert_eq!(meta.validate(5, key, 10_000), Err(MetaMismatch::ChainId { expected: 5, got: 1 }));
    assert_eq!(meta.validate(1, key, 100), Err(MetaMismatch::ShardSize { expected: 100, got: 10_000 }));
    let mut bumped = meta;
    assert!(bumped.bump_max_present(7));
    assert!(!bumped.bump_max_present(3));
    assert_eq!(bumped.max_present_block, Some(7));
}

#[test]
fn shard_hash_matches_sha256_of_framed_input() {
    let mut hasher = ShardHasher::new(10_000, 16, 10_015, &[0xff, 0x7f]);
    hasher.begin_file(b"headers", 3);
    hasher.add_bytes(b"abc");
    assert_eq!(hasher.finish(), "f6230b441a8222463077f9f3281b2a951f8ee2e5047338e34091b54c1eebfe71");
}

#[test]
fn hex_text_is_lowercase_pairs() {
    assert_eq!(to_hex(&[0x00, 0xab, 0x0f, 0xf0]), "00ab0ff0");
    assert_eq!(to_hex(&[]), "");
}

#[test]
fn file_names_sort_bytewise() {
    let names = vec!["receipts".to_string(), "block_sizes".to_string(), "headers".to_string(), "Zeta".to_string()];
    assert_eq!(
        sort_file_names(names),
        vec!["Zeta".to_string(), "block_sizes".to_string(), "headers".to_string(), "receipts".to_string()]
    );
}

#[test]
fn written_block_reads_back_present() {
    let mut table = ShardTable::new(10);
    assert!(!table.has_block(17));
    let i = table.follow_write_target(17).expect("block 17 is absent");
    table.apply_follow_write(i, 17, 3, 3, 9);
    assert!(table.has_block(17));
    assert!(!table.has_block(16));
    assert_eq!(table.follow_write_target(17), None);
    let shard = &table.shards[i];
    assert_eq!(shard.meta.present_count, 1);
    assert_eq!(shard.meta.total_logs, 9);
    assert_eq!(shard.meta.tail_block, Some(17));
    assert!(shard.meta.sorted && !shard.meta.sealed);
}

#[test]
fn bitset_file_contents() {
    let fresh = Bitset::from_file(None, 12).expect("no file gives an empty bitset");
    assert_eq!(fresh.bytes(), &[0, 0]);
    let loaded = Bitset::from_file(Some(vec![0b10, 0]), 12).expect("right length");
    assert!(loaded.is_set(1));
    assert_eq!(
        Bitset::from_file(Some(vec![0; 3]), 12).unwrap_err(),
        stateless_history_node::bitset::BitsetSizeMismatch { expected: 2, got: 3 }
    );
}

#[test]
fn opening_metadata() {
    let key = StorageConfigKey {
        retention_mode: RetentionMode::Full,
        head_source: HeadSource::P2p,
        reorg_strategy: ReorgStrategy::Delete,
    };
    let fresh = open_meta(None, 1, key, 10_000).expect("fresh metadata");
    assert_eq!(fresh.schema_version, SCHEMA_VERSION);
    assert_eq!(fresh.shard_size, 10_000);
    assert_eq!(fresh.max_present_block, None);
    let mut old = fresh;
    old.schema_version = 1;
    assert_eq!(open_meta(Some(old), 1, key, 10_000), Err(OpenMetaError::SchemaVersion { expected: 2, got: 1 }));
    assert_eq!(
        open_meta(Some(old), 1, key, 64),
        Err(OpenMetaError::Mismatch(MetaMismatch::ShardSize { expected: 64, got: 10_000 }))
    );
    let mut stored = fresh;
    stored.max_present_block = Some(5);
    assert_eq!(open_meta(Some(stored), 1, key, 10_000), Ok(stored));
}

#[test]
fn segment_sizes_summed_by_group() {
    let totals = segment_totals(&vec![[1, 2, 3, 4, 5], [10, 20, 30, 40, 50]]).expect("fits");
    let names: Vec<_> = totals.iter().map(|s| s.name.as_str()).collect();
    assert_eq!(names, vec!["headers", "tx_hashes", "tx_meta", "receipts", "block_sizes"]);
    let bytes: Vec<_> = totals.iter().map(|s| s.bytes).collect();
    assert_eq!(bytes, vec![11, 22, 33, 44, 55]);
    assert!(segment_totals(&vec![[u64::MAX, 0, 0, 0, 0], [1, 0, 0, 0, 0]]).is_none());
    assert_eq!(segment_totals(&vec![]).unwrap().iter().map(|s| s.bytes).sum::<u64>(), 0);
}

#[test]
fn wal_truncates_partial_tail() {
    let mut log = Vec::new();
    encode_records(&mut log, &[record(1, b"hello"), record(2, b"world")]);
    let truncated = log.len() - 3;
    let (records, used) = decode_records(&log[..truncated]);
    assert_eq!(records.len(), 1);
    assert_eq!(records[0].block_number, 1);
    assert_eq!(used, 16 + 5);
}

#[test]
fn bitset_flush_and_load() {
    let mut bitset = Bitset::new(16);
    bitset.set(5);
    let loaded = Bitset::from_file(Some(bitset.bytes().to_vec()), 16).expect("load");
    assert!(loaded.is_set(5));
    assert_eq!(loaded.count_ones(), 1);
}

#[test]
fn wal_replay_triggers_compaction() {
    let mut table = ShardTable::new(10);
    let (i, _) = table.get_or_create_shard(0);
    let numbers = vec![5];
    let selected = table.shards[i].select_wal_records(&numbers, &vec![0]);
    assert_eq!(selected, vec![0]);
    assert!(table.shards[i].record_wal_append(true, 0));
    assert!(!table.has_block(5));
    let mut tally = CompactionTally::new(10);
    for offset in 0..10 {
        tally.record_row(0, offset, offset == 5, false, 0);
    }
    table.shards[i].finish_compaction(tally, 5);
    assert!(table.has_block(5));
}

#[test]
fn compaction_rewrites_sorted_segments() {
    let mut tally = CompactionTally::new(10);
    let wal = [0usize, 2];
    for offset in 0..3 {
        let src = tally.record_row(0, offset, wal.contains(&offset), false, 0);
        assert_eq!(src == RowSource::Empty, offset == 1);
    }
    assert!(tally.bitset.is_set(0));
    assert!(!tally.bitset.is_set(1));
    assert!(tally.bitset.is_set(2));
    assert_eq!(tally.tail_block, Some(2));
}

#[test]
fn repair_on_clean_storage_reports_ok() {
    let mut meta = ShardMeta::new_empty(0, 10);
    let (result, actions) = recover_shard(&mut meta, files(true, false, false, true, false, false, false));
    assert!(actions.is_empty());
    assert!(!result.needs_recovery());
    let report = RepairReport {
        shards: vec![ShardRepairInfo { shard_start: 0, result, original_phase: None }],
    };
    assert_eq!(report.shards.len(), 1);
    assert_eq!(report.repaired_count(), 0);
    assert_eq!(report.clean_count(), 1);
}

#[test]
fn repair_empty_storage_returns_empty_report() {
    let report = RepairReport { shards: Vec::new() };
    assert!(report.shards.is_empty());
    assert_eq!(report.total_count(), 0);
    assert_eq!(report.repaired_count(), 0);
    assert_eq!(report.clean_count(), 0);
}

#[test]
fn bundle_index_of_out_of_order_log() {
    let records: Vec<WalRecord> = [7u64, 5, 6, 5]
        .iter()
        .map(|&n| WalRecord { block_number: n, payload: encode_bundle_payload(&sample_bundle(n)) })
        .collect();
    let mut log = Vec::new();
    encode_records(&mut log, &records);
    let entries = index_bundle_slices(&log, 4, 4).expect("log indexes").expect("shard has bundles");
    assert_eq!(entries.len(), 4);
    assert!(entries[0].is_none());
    assert_eq!(entries[3].expect("block 7").header, ByteRange { start: 28, end: 31 });
    assert_eq!(entries[2].expect("block 6").header, ByteRange { start: 2 * 79 + 28, end: 2 * 79 + 31 });
    assert_eq!(entries[1].expect("block 5, last record wins").header, ByteRange { start: 3 * 79 + 28, end: 3 * 79 + 31 });
}

#[test]
fn missing_blocks_at_the_top_of_the_range() {
    let table = ShardTable::new(10);
    assert_eq!(table.missing_blocks_in_range(u64::MAX - 2, u64::MAX), vec![u64::MAX - 2, u64::MAX - 1, u64::MAX]);
    let (ranges, count) = table.missing_ranges_in_range(u64::MAX - 2, u64::MAX);
    assert_eq!(ranges, vec![(u64::MAX - 2)..=u64::MAX]);
    assert_eq!(count, 3);
    let wide = ShardTable::new(1u64 << 63);
    let (ranges, count) = wide.missing_ranges_in_range(0, u64::MAX);
    assert_eq!(ranges, vec![0..=((1u64 << 63) - 1), (1u64 << 63)..=u64::MAX]);
    assert_eq!(count, u64::MAX);
}

#[test]
fn rollback_reports_highest_kept_block() {
    let mut table = table_with_blocks(10, &[1, 5, 14, 15]);
    assert_eq!(table.rollback_to(12), Some(5));
    assert!(table.has_block(1) && table.has_block(5));
    let mut table = table_with_blocks(10, &[14]);
    assert_eq!(table.rollback_to(3), None);
}

#[test]
fn log_selection_takes_each_absent_block_once() {
    let mut table = ShardTable::new(10);
    let (i, _) = table.get_or_create_shard(10);
    table.apply_follow_write(i, 11, 0, 0, 0);
    let numbers = vec![14, 11, 14, 12, 12, 19];
    let chosen = table.shards[i].select_wal_records(&numbers, &vec![0, 1, 2, 3, 4, 5]);
    assert_eq!(chosen, vec![0, 3, 5]);
}

#[test]
fn bitset_set_then_clear_restores_bytes() {
    let mut bitset = Bitset::new(20);
    bitset.set(3);
    let before = bitset.bytes().to_vec();
    let count = bitset.count_ones();
    assert!(bitset.set(17));
    assert_eq!(bitset.count_ones(), count + 1);
    assert!(bitset.clear(17));
    assert_eq!(bitset.count_ones(), count);
    assert_eq!(bitset.bytes(), &before[..]);
    assert!(!bitset.clear(17));
    assert_eq!(bitset.count_ones(), 1);
}

fn crc32_bitwise(data: &[u8]) -> u32 {
    let mut c: u32 = 0xFFFF_FFFF;
    for &b in data {
        c ^= b as u32;
        for _ in 0..8 {
            c = if c & 1 == 1 { (c >> 1) ^ 0xEDB8_8320 } else { c >> 1 };
        }
    }
    !c
}

#[test]
fn wal_record_trailer_is_ieee_crc32() {
    assert_eq!(crc32_bitwise(b"123456789"), 0xCBF4_3926);
    let mut log = Vec::new();
    encode_records(&mut log, &[record(9, b"123456789")]);
    let covered = &log[..log.len() - 4];
    assert_eq!(&log[log.len() - 4..], &crc32_bitwise(covered).to_le_bytes());
}

#[test]
fn wal_appends_of_many_chunks_read_back_in_order() {
    let chunks: Vec<Vec<WalRecord>> = vec![
        vec![record(3, b"a"), record(1, b"bb")],
        vec![],
        vec![record(2, b"")],
        vec![record(3, b"again"), record(9, b"z")],
    ];
    let mut log = Vec::new();
    let mut expected: Vec<(u64, Vec<u8>)> = Vec::new();
    for chunk in &chunks {
        let before = log.clone();
        encode_records(&mut log, chunk);
        assert_eq!(&log[..before.len()], &before[..]);
        expected.extend(chunk.iter().map(|r| (r.block_number, r.payload.clone())));
    }
    let (records, used) = decode_records(&log);
    assert_eq!(used, log.len());
    let got: Vec<(u64, Vec<u8>)> = records.iter().map(|r| (r.block_number, r.payload.clone())).collect();
    assert_eq!(got, expected);
    let (none, used) = decode_records(&[]);
    assert!(none.is_empty());
    assert_eq!(used, 0);
}
