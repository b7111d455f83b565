use stateless_history_node::bitset::Bitset;
use stateless_history_node::chain::{Hash256, HashIndex};
use stateless_history_node::codec::append_bytes;
use stateless_history_node::harness::{parse_u64_from, BlockStats, BlockTable, NamedTable, ProbeRun};
use stateless_history_node::logging::{DedupWriter, WriterAction};
use stateless_history_node::peers::{copy_peer, StoredPeer};
use stateless_history_node::shard::{SegmentSizes, ShardMeta, ShardState};
use stateless_history_node::table::ShardTable;
use stateless_history_node::text::{chars_eq, chars_of, chars_start_with, str_eq, string_from_chars};

fn h(n: u128) -> Hash256 {
    Hash256 { hi: 0, lo: n }
}

#[test]
fn hash_index_inserts_replaces_and_removes() {
    let mut index: HashIndex<u64> = HashIndex::new();
    assert_eq!(index.get(h(1)), None);
    index.insert(h(1), 10);
    index.insert(h(2), 20);
    index.insert(h(1), 11);
    assert_eq!(index.get(h(1)), Some(11));
    assert_eq!(index.get(h(2)), Some(20));
    index.remove(h(1));
    assert_eq!(index.get(h(1)), None);
    assert_eq!(index.get(h(2)), Some(20));
    index.remove(h(3));
    assert_eq!(index.get(h(2)), Some(20));
}

#[test]
fn named_table_keeps_one_value_per_name() {
    let mut table: NamedTable<u32> = NamedTable::new();
    table.insert("geth", 1);
    table.insert("reth", 2);
    table.insert("geth", 3);
    assert_eq!(table.get("geth"), Some(3));
    assert_eq!(table.get("reth"), Some(2));
    assert_eq!(table.get("erigon"), None);
}

#[test]
fn block_table_orders_entries() {
    let stats = |total: u64| BlockStats { total, header_ok: 0, receipts_ok: 0, header_ms_sum: 0, receipts_ms_sum: 0 };
    let mut table = BlockTable::new();
    table.put(30, stats(3));
    table.put(10, stats(1));
    table.put(20, stats(2));
    table.put(10, stats(4));
    assert_eq!(table.get(10), Some(stats(4)));
    assert_eq!(table.get(15), None);
    let keys: Vec<u64> = table.sorted_entries().iter().map(|(k, _)| *k).collect();
    assert_eq!(keys, vec![10, 20, 30]);
}

#[test]
fn known_blocks_are_marked_once() {
    let mut run = ProbeRun::new(&vec![5, 6], vec![5]);
    assert!(!run.mark_known_block(5));
    assert!(run.mark_known_block(7));
    assert!(!run.mark_known_block(7));
    assert_eq!(run.known_blocks, vec![5, 7]);
}

#[test]
fn decimal_suffixes_parse_like_str_parse() {
    let chars: Vec<char> = "--run-secs=120".chars().collect();
    assert_eq!(parse_u64_from(&chars, 11), Some(120));
    assert_eq!(parse_u64_from(&chars, 10), None);
    assert_eq!(parse_u64_from(&chars, chars.len()), None);
    let plus: Vec<char> = "+7".chars().collect();
    assert_eq!(parse_u64_from(&plus, 0), Some(7));
    let big: Vec<char> = "18446744073709551616".chars().collect();
    assert_eq!(parse_u64_from(&big, 0), None);
    let max: Vec<char> = "18446744073709551615".chars().collect();
    assert_eq!(parse_u64_from(&max, 0), Some(u64::MAX));
}

#[test]
fn writer_flushes_on_timeout_and_disconnect() {
    let mut writer = DedupWriter::new();
    assert_eq!(writer.on_timeout(), vec![]);
    writer.on_record(1, false, false);
    writer.on_record(1, true, false);
    assert_eq!(
        writer.on_timeout(),
        vec![WriterAction::WriteHeld { count: Some(2) }, WriterAction::FlushFile, WriterAction::ResetFlushTimer]
    );
    assert_eq!(writer.on_timeout(), vec![]);
    writer.on_record(2, false, false);
    assert_eq!(writer.on_disconnect(), vec![WriterAction::WriteHeld { count: None }, WriterAction::FlushFile]);
    assert_eq!(writer.on_disconnect(), vec![WriterAction::FlushFile]);
}

#[test]
fn shard_meta_updates() {
    let mut meta = ShardMeta::new_empty(20, 10);
    meta.set_disk_bytes(SegmentSizes { headers: 1, transactions: 2, receipts: 3, total: 6 });
    assert_eq!(
        (meta.disk_bytes_headers, meta.disk_bytes_transactions, meta.disk_bytes_receipts, meta.disk_bytes_total),
        (1, 2, 3, 6)
    );
    assert!(meta.sorted);
    meta.mark_wal_pending();
    assert!(!meta.sorted);
    assert!(!meta.sealed);
}

fn shard_with(start: u64, size: u64, offsets: &[usize]) -> ShardState {
    let mut bitset = Bitset::new(size as usize);
    for &o in offsets {
        bitset.set(o);
    }
    ShardState { meta: ShardMeta::new_empty(start, size), bitset }
}

#[test]
fn shard_state_reconciles_and_repairs() {
    let mut shard = shard_with(100, 4, &[0, 1, 2, 3]);
    assert!(!shard.ready_to_seal());
    shard.reconcile_meta();
    assert_eq!(shard.meta.present_count, 4);
    assert!(shard.meta.complete);
    assert!(shard.ready_to_seal());
    assert!(!shard.is_dirty(0));
    assert!(shard.is_dirty(1));
    shard.repair_from_wal(false);
    assert!(shard.meta.sorted);
    shard.repair_from_wal(true);
    assert!(!shard.meta.sorted);
    assert!(shard.is_dirty(0));
    assert!(!shard.ready_to_seal());
}

#[test]
fn shard_highest_block_and_rollback() {
    let mut shard = shard_with(100, 10, &[1, 4, 7]);
    shard.reconcile_meta();
    assert_eq!(shard.max_present(10), Some(107));
    assert_eq!(shard.max_present(5), Some(104));
    assert_eq!(shard.max_present(1), None);
    shard.apply_rollback(104);
    assert_eq!(shard.max_present(10), Some(104));
    assert_eq!(shard.meta.present_count, 2);
    assert_eq!(shard.meta.tail_block, Some(104));
    shard.apply_rollback(50);
    assert_eq!(shard.max_present(10), None);
    assert_eq!(shard.meta.present_count, 0);
    assert_eq!(shard.meta.tail_block, None);
}

#[test]
fn table_finds_shards_by_start() {
    let mut table = ShardTable::new(10);
    table.get_or_create_shard(30);
    table.get_or_create_shard(10);
    table.get_or_create_shard(20);
    let i = table.find_shard(20).expect("shard 20 exists");
    assert_eq!(table.shards[i].meta.shard_start, 20);
    assert_eq!(table.find_shard(40), None);
    assert_eq!(table.find_shard(0), None);
}

#[test]
fn bytes_append_in_order() {
    let mut out = vec![1u8];
    append_bytes(&mut out, &[2, 3]);
    append_bytes(&mut out, &[]);
    assert_eq!(out, vec![1, 2, 3]);
}

#[test]
fn peers_copy_whole() {
    let p = StoredPeer {
        peer_id: "id".to_string(),
        tcp_addr: "1.2.3.4:30303".to_string(),
        udp_addr: Some("1.2.3.4:30301".to_string()),
        last_seen_ms: 9,
        aimd_batch_limit: Some(32),
    };
    assert_eq!(copy_peer(&p), p);
}

#[test]
fn text_helpers() {
    let chars = chars_of("h\u{e9}llo");
    assert_eq!(chars, vec!['h', '\u{e9}', 'l', 'l', 'o']);
    assert_eq!(string_from_chars(&chars), "h\u{e9}llo");
    assert!(chars_eq(&chars, &chars_of("h\u{e9}llo")));
    assert!(!chars_eq(&chars, &chars_of("hello")));
    assert!(str_eq("abc", "abc"));
    assert!(!str_eq("abc", "abd"));
    assert!(!str_eq("abc", "ab"));
    assert!(chars_start_with(&chars, &['h', '\u{e9}']));
    assert!(!chars_start_with(&['h'], &['h', 'i']));
    assert!(chars_start_with(&chars, &[]));
}
