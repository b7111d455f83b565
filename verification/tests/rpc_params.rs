use stateless_history_node::chain::Hash256;
use stateless_history_node::rpc::{
    check_block_by_number_params, check_logs_params, format_block, BlockHeaderFields, collect_block_logs, ensure_empty_params, format_log, log_matches,
    logs_block_range, parse_address_filter, parse_block_tag, parse_quantity, parse_topics_filter,
    resolve_block_tag_optional, resolve_block_tag_required, Address20, BlockTag, DerivedLog, FilterParam, JsonScalar,
    LogEntry, ParamShape, RpcConfig, RpcError,
};
use stateless_history_node::text::{decimal_string, quantity_hex};
use stateless_history_node::table::{shard_start, ShardTable};

fn s(text: &str) -> JsonScalar {
    JsonScalar::Str(text.to_string())
}

const ADDR: &str = "0x00000000000000000000000000000000deadbeef";
const TOPIC: &str = "0x000000000000000000000000000000000000000000000000000000000000abcd";

#[test]
fn quantities_parse_as_hex() {
    assert_eq!(parse_quantity("0x0"), Ok(0));
    assert_eq!(parse_quantity("0x2a"), Ok(42));
    assert_eq!(parse_quantity("0xFF"), Ok(255));
    assert_eq!(parse_quantity("0x"), Ok(0));
    assert_eq!(parse_quantity("0x0x10"), Ok(16));
    assert_eq!(parse_quantity("0x+f"), Ok(15));
    assert_eq!(parse_quantity("0xffffffffffffffff"), Ok(u64::MAX));
    assert_eq!(parse_quantity("0x10000000000000000"), Err(RpcError::InvalidParams("invalid block number")));
    assert_eq!(parse_quantity("0xzz"), Err(RpcError::InvalidParams("invalid block number")));
    assert_eq!(parse_quantity("42"), Err(RpcError::InvalidParams("block number must be hex quantity")));
}

#[test]
fn block_tags() {
    assert_eq!(parse_block_tag(Some("latest")), Ok(BlockTag::Latest));
    assert_eq!(parse_block_tag(Some("earliest")), Ok(BlockTag::Earliest));
    assert_eq!(parse_block_tag(Some("0x7")), Ok(BlockTag::Number(7)));
    assert_eq!(
        parse_block_tag(Some("pending")),
        Err(RpcError::InvalidParams("pending block tag is not supported"))
    );
    assert_eq!(parse_block_tag(None), Err(RpcError::InvalidParams("block tag must be a string")));
    assert_eq!(resolve_block_tag_optional(BlockTag::Latest, None), Ok(None));
    assert_eq!(resolve_block_tag_optional(BlockTag::Earliest, None), Ok(Some(0)));
    assert_eq!(resolve_block_tag_required(BlockTag::Latest, 9), Ok(9));
    assert_eq!(resolve_block_tag_required(BlockTag::Number(3), 9), Ok(3));
}

#[test]
fn error_codes_and_messages() {
    assert_eq!(RpcError::InvalidParams("x").code(), -32602);
    assert_eq!(RpcError::InvalidParams("bad thing").message(), "bad thing");
    assert_eq!(RpcError::Internal.code(), -32000);
    assert_eq!(RpcError::Internal.message(), "internal error");
    assert_eq!(RpcError::MissingBlock(4).code(), -32001);
    assert_eq!(RpcError::MissingBlock(4).message(), "missing block in requested range");
}

#[test]
fn default_rpc_config() {
    let config = RpcConfig::default();
    assert_eq!(config.chain_id, 1);
    assert_eq!(config.max_request_body_bytes, 10 * 1024 * 1024);
    assert_eq!(config.max_response_body_bytes, 100 * 1024 * 1024);
    assert_eq!(config.max_connections, 100);
    assert_eq!(config.max_batch_requests, 100);
    assert_eq!(config.max_blocks_per_filter, 10_000);
    assert_eq!(config.max_logs_per_response, 100_000);
}

#[test]
fn parameter_shapes() {
    assert_eq!(ensure_empty_params(ParamShape::Absent, "no params"), Ok(()));
    assert_eq!(ensure_empty_params(ParamShape::Array(0), "no params"), Ok(()));
    assert_eq!(ensure_empty_params(ParamShape::Array(1), "no params"), Err(RpcError::InvalidParams("no params")));
    assert_eq!(ensure_empty_params(ParamShape::Other, "no params"), Err(RpcError::InvalidParams("no params")));
    assert_eq!(check_block_by_number_params(Some(2), Some(false)), Ok(()));
    assert_eq!(
        check_block_by_number_params(Some(2), Some(true)),
        Err(RpcError::InvalidParams("eth_getBlockByNumber only supports includeTransactions=false"))
    );
    assert_eq!(
        check_block_by_number_params(Some(1), None),
        Err(RpcError::InvalidParams("eth_getBlockByNumber expects [blockTag, includeTransactions]"))
    );
    assert_eq!(check_logs_params(Some(1), true, false), Ok(()));
    assert_eq!(
        check_logs_params(Some(1), true, true),
        Err(RpcError::InvalidParams("eth_getLogs does not support blockHash yet"))
    );
    assert_eq!(check_logs_params(None, true, false), Err(RpcError::InvalidParams("eth_getLogs expects a single filter object")));
}

#[test]
fn logs_ranges() {
    assert_eq!(logs_block_range(None, None, 50, 10_000), Ok(Some((0, 50))));
    assert_eq!(logs_block_range(Some(BlockTag::Number(5)), Some(BlockTag::Number(5)), 50, 10_000), Ok(Some((5, 5))));
    assert_eq!(logs_block_range(Some(BlockTag::Number(9)), Some(BlockTag::Number(5)), 50, 10_000), Ok(None));
    assert_eq!(
        logs_block_range(Some(BlockTag::Number(0)), Some(BlockTag::Number(10_000)), 50, 10_000),
        Err(RpcError::InvalidParams("block range exceeds max_blocks_per_filter"))
    );
    assert_eq!(
        logs_block_range(Some(BlockTag::Number(0)), Some(BlockTag::Number(10_000)), 50, 0),
        Ok(Some((0, 10_000)))
    );
}

fn addr() -> Address20 {
    Address20 { hi: 0, lo: 0xdeadbeef }
}

fn topic() -> Hash256 {
    Hash256 { hi: 0, lo: 0xabcd }
}

#[test]
fn address_filters_parse_through_alloy() {
    assert_eq!(parse_address_filter(&FilterParam::Scalar(s(ADDR))), Ok(vec![addr()]));
    let upper = "0X00000000000000000000000000000000DEADBEEF";
    assert_eq!(parse_address_filter(&FilterParam::Scalar(s(upper))), Ok(vec![addr()]));
    assert_eq!(
        parse_address_filter(&FilterParam::Array(vec![s(ADDR), s("0x1234")])),
        Err(RpcError::InvalidParams("invalid address"))
    );
    assert_eq!(
        parse_address_filter(&FilterParam::Scalar(JsonScalar::Other)),
        Err(RpcError::InvalidParams("address must be a string or array"))
    );
    assert_eq!(
        parse_address_filter(&FilterParam::Array(vec![JsonScalar::Null])),
        Err(RpcError::InvalidParams("address must be a string"))
    );
}

#[test]
fn topic_filters_parse_through_alloy() {
    let topics = vec![FilterParam::Scalar(s(TOPIC)), FilterParam::Scalar(JsonScalar::Null)];
    assert_eq!(parse_topics_filter(Some(&topics)), Ok(vec![Some(vec![topic()]), None]));
    let bad = vec![FilterParam::Scalar(s("0xabcd"))];
    assert_eq!(parse_topics_filter(Some(&bad)), Err(RpcError::InvalidParams("invalid topic hash")));
    assert_eq!(parse_topics_filter(None), Err(RpcError::InvalidParams("topics must be an array")));
}

#[test]
fn logs_match_address_and_topic0() {
    let addrs = vec![addr()];
    let filters = vec![Some(vec![topic()])];
    assert!(log_matches(addr(), &vec![topic()], Some(&addrs), Some(&filters)));
    assert!(!log_matches(Address20 { hi: 1, lo: 0 }, &vec![topic()], Some(&addrs), Some(&filters)));
    assert!(!log_matches(addr(), &vec![], Some(&addrs), Some(&filters)));
    assert!(log_matches(addr(), &vec![], None, None));
    assert!(log_matches(addr(), &vec![Hash256 { hi: 0, lo: 1 }], None, Some(&vec![None])));
}

fn log(a: Address20, t: Hash256) -> LogEntry {
    LogEntry { address: a, topics: vec![t], data: vec![1] }
}

#[test]
fn block_logs_are_derived_and_capped() {
    let other = Address20 { hi: 9, lo: 9 };
    let receipts = vec![vec![log(addr(), topic()), log(other, topic())], vec![log(addr(), topic())]];
    let tx_hashes = vec![Hash256 { hi: 0, lo: 100 }, Hash256 { hi: 0, lo: 101 }];
    let addrs = vec![addr()];
    let mut out: Vec<DerivedLog> = Vec::new();
    let block_hash = Hash256 { hi: 7, lo: 7 };
    assert_eq!(collect_block_logs(5, block_hash, &receipts, &tx_hashes, Some(&addrs), None, 0, &mut out), Ok(()));
    assert_eq!(out.len(), 2);
    assert_eq!(out[0].transaction_index, 0);
    assert_eq!(out[0].log_index, 0);
    assert_eq!(out[1].transaction_index, 1);
    assert_eq!(out[1].log_index, 0);
    assert_eq!(out[1].transaction_hash, Hash256 { hi: 0, lo: 101 });
    assert_eq!(out[1].block_number, 5);
    assert!(!out[1].removed);

    let mut capped: Vec<DerivedLog> = Vec::new();
    assert_eq!(
        collect_block_logs(5, block_hash, &receipts, &tx_hashes, None, None, 2, &mut capped),
        Err(RpcError::InvalidParams("response exceeds max_logs_per_response"))
    );

    let mut skipped: Vec<DerivedLog> = Vec::new();
    assert_eq!(collect_block_logs(5, block_hash, &receipts, &tx_hashes[..1].to_vec(), None, None, 0, &mut skipped), Ok(()));
    assert!(skipped.is_empty());
}

#[test]
fn numbers_as_text() {
    assert_eq!(quantity_hex(0), "0x0");
    assert_eq!(quantity_hex(42), "0x2a");
    assert_eq!(quantity_hex(1000), "0x3e8");
    assert_eq!(decimal_string(0), "0");
    assert_eq!(decimal_string(123), "123");
    assert_eq!(decimal_string(u64::MAX), "18446744073709551615");
}

#[test]
fn logs_are_formatted_as_hex() {
    let log = DerivedLog {
        address: addr(),
        topics: vec![topic()],
        data: vec![1, 0xab],
        block_number: 5,
        block_hash: Hash256 { hi: 1 << 120, lo: 0 },
        transaction_hash: Hash256 { hi: 0, lo: 101 },
        transaction_index: 26,
        log_index: 0,
        removed: false,
    };
    let rpc = format_log(&log);
    assert_eq!(rpc.address, ADDR);
    assert_eq!(rpc.topics, vec![TOPIC.to_string()]);
    assert_eq!(rpc.data, "0x01ab");
    assert_eq!(rpc.block_number, "0x5");
    assert_eq!(rpc.block_hash, format!("0x01{}", "0".repeat(62)));
    assert_eq!(rpc.transaction_hash, format!("0x{}65", "0".repeat(62)));
    assert_eq!(rpc.transaction_index, "0x1a");
    assert_eq!(rpc.log_index, "0x0");
    assert!(!rpc.removed);
}

fn repeated(byte: u8) -> Hash256 {
    let half = u128::from_be_bytes([byte; 16]);
    Hash256 { hi: half, lo: half }
}

fn header(number: u64) -> BlockHeaderFields {
    BlockHeaderFields {
        number,
        parent_hash: Hash256 { hi: 0, lo: 0 },
        nonce: 0x42,
        ommers_hash: repeated(0x1d),
        timestamp: 0,
        logs_bloom: vec![0u8; 256],
        transactions_root: repeated(0x56),
        state_root: repeated(0x57),
        receipts_root: repeated(0x58),
        beneficiary: Address20 { hi: 0, lo: 0xdeadbeef },
        difficulty: Hash256 { hi: 0, lo: 0 },
        extra_data: vec![0xab, 0x01],
        gas_limit: 30_000_000,
        gas_used: 21_000,
        mix_hash: Hash256 { hi: 0, lo: 1 },
        base_fee_per_gas: None,
        withdrawals_root: None,
        blob_gas_used: None,
        excess_blob_gas: None,
        parent_beacon_block_root: None,
    }
}

#[test]
fn eth_get_block_by_number_returns_header() {
    let mut h = header(7);
    h.timestamp = 1000;
    let txs = vec![repeated(0x11), repeated(0x22)];
    let block = format_block(&h, repeated(0xaa), &txs, 123);
    assert_eq!(block.number, "0x7");
    assert_eq!(block.timestamp, "0x3e8");
    assert_eq!(block.hash, format!("0x{}", "aa".repeat(32)));
    assert_eq!(block.transactions, vec![format!("0x{}", "11".repeat(32)), format!("0x{}", "22".repeat(32))]);
    assert_eq!(block.total_difficulty, "0x0");
    assert_eq!(block.size, "0x7b");
    assert_eq!(block.nonce, "0x0000000000000042");
    assert_eq!(block.sha3_uncles, format!("0x{}", "1d".repeat(32)));
    assert_eq!(block.logs_bloom, format!("0x{}", "0".repeat(512)));
    assert_eq!(block.state_root, format!("0x{}", "57".repeat(32)));
    assert_eq!(block.transactions_root, format!("0x{}", "56".repeat(32)));
    assert_eq!(block.receipts_root, format!("0x{}", "58".repeat(32)));
    assert_eq!(block.mix_hash, format!("0x{}1", "0".repeat(63)));
    assert_eq!(block.parent_hash, format!("0x{}", "0".repeat(64)));
    assert_eq!(block.miner, ADDR);
    assert_eq!(block.difficulty, "0x0");
    assert_eq!(block.extra_data, "0xab01");
    assert_eq!(block.gas_limit, "0x1c9c380");
    assert_eq!(block.gas_used, "0x5208");
    assert!(block.uncles.is_empty());
    assert_eq!(block.base_fee_per_gas, None);
    assert_eq!(block.blob_gas_used, None);
}

#[test]
fn eth_get_block_by_number_includes_withdrawals() {
    let mut h = header(9);
    h.withdrawals_root = Some(repeated(0x55));
    h.base_fee_per_gas = Some(7);
    h.blob_gas_used = Some(0x20000);
    h.excess_blob_gas = Some(0);
    h.parent_beacon_block_root = Some(repeated(0x01));
    let block = format_block(&h, repeated(0), &Vec::new(), 0);
    assert!(block.withdrawals.is_none());
    assert_eq!(block.withdrawals_root, Some(format!("0x{}", "55".repeat(32))));
    assert_eq!(block.base_fee_per_gas, Some("0x7".to_string()));
    assert_eq!(block.blob_gas_used, Some("0x20000".to_string()));
    assert_eq!(block.excess_blob_gas, Some("0x0".to_string()));
    assert_eq!(block.parent_beacon_block_root, Some(format!("0x{}", "01".repeat(32))));
    assert!(block.transactions.is_empty());
    assert_eq!(block.size, "0x0");
}

#[test]
fn block_difficulty_is_a_minimal_quantity() {
    let mut h = header(1);
    h.difficulty = Hash256 { hi: 0, lo: 0x0400_0000_0000 };
    assert_eq!(format_block(&h, repeated(0), &Vec::new(), 0).difficulty, "0x40000000000");
    h.difficulty = Hash256 { hi: 0, lo: 1u128 << 64 };
    assert_eq!(format_block(&h, repeated(0), &Vec::new(), 0).difficulty, "0x10000000000000000");
    h.difficulty = Hash256 { hi: 1, lo: 0 };
    assert_eq!(format_block(&h, repeated(0), &Vec::new(), 0).difficulty, format!("0x1{}", "0".repeat(32)));
    h.difficulty = Hash256 { hi: u128::MAX, lo: u128::MAX };
    assert_eq!(format_block(&h, repeated(0), &Vec::new(), 0).difficulty, format!("0x{}", "f".repeat(64)));
}

#[test]
fn eth_chain_id_success() {
    assert_eq!(ensure_empty_params(ParamShape::Absent, "eth_chainId expects no params"), Ok(()));
    assert_eq!(quantity_hex(1), "0x1");
}

#[test]
fn eth_chain_id_rejects_params() {
    let err = ensure_empty_params(ParamShape::Array(1), "eth_chainId expects no params").unwrap_err();
    assert_eq!(err.code(), -32602);
}

#[test]
fn eth_block_number_returns_last_indexed() {
    assert_eq!(quantity_hex(42), "0x2a");
}

#[test]
fn eth_get_block_by_number_rejects_include_transactions() {
    let err = check_block_by_number_params(Some(2), Some(true)).unwrap_err();
    assert_eq!(err.code(), -32602);
}

#[test]
fn eth_get_logs_filters_address_and_topic0() {
    let zero = Address20 { hi: 0, lo: 0 };
    let topic0 = repeated(0x11);
    let addresses = parse_address_filter(&FilterParam::Scalar(s(&format!("0x{}", "00".repeat(20))))).unwrap();
    let topics = parse_topics_filter(Some(&vec![FilterParam::Scalar(s(&format!("0x{}", "11".repeat(32))))])).unwrap();
    let range = logs_block_range(Some(BlockTag::Number(5)), Some(BlockTag::Number(5)), 5, 10_000).unwrap();
    assert_eq!(range, Some((5, 5)));
    let receipts = vec![vec![LogEntry { address: zero, topics: vec![topic0], data: vec![0x01] }]];
    let mut out: Vec<DerivedLog> = Vec::new();
    collect_block_logs(5, repeated(0), &receipts, &vec![repeated(0x33)], Some(&addresses), Some(&topics), 100_000, &mut out)
        .unwrap();
    assert_eq!(out.len(), 1);
    assert_eq!(format_log(&out[0]).block_number, "0x5");
}

#[test]
fn eth_get_logs_rejects_large_range() {
    let err = logs_block_range(Some(BlockTag::Number(0)), Some(BlockTag::Number(10_001)), 0, 10_000).unwrap_err();
    assert_eq!(err.code(), -32602);
}

#[test]
fn eth_get_logs_errors_on_missing_block() {
    let mut table = ShardTable::new(10);
    let (i, _) = table.get_or_create_shard(shard_start(1, 10));
    table.apply_follow_write(i, 1, 0, 0, 0);
    let (from, to) = logs_block_range(Some(BlockTag::Number(0)), Some(BlockTag::Number(1)), 1, 10_000).unwrap().unwrap();
    let missing = table.first_absent_block(from, to).expect("block 0 is not stored");
    assert_eq!(missing, 0);
    assert_eq!(RpcError::MissingBlock(missing).code(), -32001);
}

#[test]
fn eth_get_logs_allows_unlimited_limits() {
    let range = logs_block_range(Some(BlockTag::Number(1)), Some(BlockTag::Number(1)), 1, 0).unwrap();
    assert_eq!(range, Some((1, 1)));
    let receipts = vec![vec![LogEntry { address: Address20 { hi: 0x1111_1111, lo: u128::from_be_bytes([0x11; 16]) }, topics: vec![repeated(0x42)], data: vec![0x01] }]];
    let mut out: Vec<DerivedLog> = Vec::new();
    assert_eq!(collect_block_logs(1, repeated(0), &receipts, &vec![repeated(0x33)], None, None, 0, &mut out), Ok(()));
    assert_eq!(out.len(), 1);
}
