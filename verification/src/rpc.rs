//! JSON-RPC parameter handling: the server limits, error codes, block tags
//! and quantities, and the `eth_getLogs` filters.

use vstd::prelude::*;
use crate::cli::{
    DEFAULT_RPC_MAX_BATCH_REQUESTS, DEFAULT_RPC_MAX_BLOCKS_PER_FILTER, DEFAULT_RPC_MAX_CONNECTIONS,
    DEFAULT_RPC_MAX_LOGS_PER_RESPONSE, DEFAULT_RPC_MAX_REQUEST_BODY_BYTES, DEFAULT_RPC_MAX_RESPONSE_BODY_BYTES,
};
use crate::chain::Hash256;
use crate::text::{chars_of, hex_chars, quantity_hex, str_eq, string_from_chars};
use crate::hash::{hex_text, to_hex};

verus! {

/// Limits and identity of the JSON-RPC server.
#[derive(Debug, Clone, Copy, PartialEq, Eq)]
pub struct RpcConfig {
    pub chain_id: u64,
    pub max_request_body_bytes: u32,
    pub max_response_body_bytes: u32,
    pub max_connections: u32,
    pub max_batch_requests: u32,
    pub max_blocks_per_filter: u64,
    pub max_logs_per_response: u64,
}

impl Default for RpcConfig {
    fn default() -> (res: Self)
        ensures
            res.chain_id == 1,
            res.max_request_body_bytes == DEFAULT_RPC_MAX_REQUEST_BODY_BYTES,
            res.max_response_body_bytes == DEFAULT_RPC_MAX_RESPONSE_BODY_BYTES,
            res.max_connections == DEFAULT_RPC_MAX_CONNECTIONS,
            res.max_batch_requests == DEFAULT_RPC_MAX_BATCH_REQUESTS,
            res.max_blocks_per_filter == DEFAULT_RPC_MAX_BLOCKS_PER_FILTER,
            res.max_logs_per_response == DEFAULT_RPC_MAX_LOGS_PER_RESPONSE,
    {
        RpcConfig {
            chain_id: 1,
            max_request_body_bytes: DEFAULT_RPC_MAX_REQUEST_BODY_BYTES,
            max_response_body_bytes: DEFAULT_RPC_MAX_RESPONSE_BODY_BYTES,
            max_connections: DEFAULT_RPC_MAX_CONNECTIONS,
            max_batch_requests: DEFAULT_RPC_MAX_BATCH_REQUESTS,
            max_blocks_per_filter: DEFAULT_RPC_MAX_BLOCKS_PER_FILTER,
            max_logs_per_response: DEFAULT_RPC_MAX_LOGS_PER_RESPONSE,
        }
    }
}

/// A JSON-RPC error.
#[derive(Debug, Clone, Copy, PartialEq, Eq)]
pub enum RpcError {
    /// Invalid parameters (-32602), with its message.
    InvalidParams(&'static str),
    /// A storage failure (-32000).
    Internal,
    /// A block of the requested range is not stored (-32001).
    MissingBlock(u64),
}

impl RpcError {
    /// The JSON-RPC error code.
    pub fn code(&self) -> (res: i32)
        ensures
            res == match self {
                RpcError::InvalidParams(_) => -32602i32,
                RpcError::Internal => -32000i32,
                RpcError::MissingBlock(_) => -32001i32,
            },
    {
        match self {
            RpcError::InvalidParams(_) => -32602,
            RpcError::Internal => -32000,
            RpcError::MissingBlock(_) => -32001,
        }
    }

    /// The error message.
    pub fn message(&self) -> (res: &'static str)
        ensures
            match self {
                RpcError::InvalidParams(m) => res@ == m@,
                RpcError::Internal => res@ == "internal error"@,
                RpcError::MissingBlock(_) => res@ == "missing block in requested range"@,
            },
    {
        match self {
            RpcError::InvalidParams(m) => m,
            RpcError::Internal => "internal error",
            RpcError::MissingBlock(_) => "missing block in requested range",
        }
    }
}

/// The value of a hexadecimal digit, or -1.
pub open spec fn hex_value(c: char) -> int {
    if '0' <= c && c <= '9' {
        c as int - '0' as int
    } else if 'a' <= c && c <= 'f' {
        c as int - 'a' as int + 10
    } else if 'A' <= c && c <= 'F' {
        c as int - 'A' as int + 10
    } else {
        -1
    }
}

/// Whether every character is a hexadecimal digit.
pub open spec fn all_hex(s: Seq<char>) -> bool {
    forall|i: int| 0 <= i < s.len() ==> hex_value(#[trigger] s[i]) >= 0
}

/// The number written by hexadecimal digits, most significant first.
pub open spec fn hex_number(s: Seq<char>) -> int
    decreases s.len(),
{
    if s.len() == 0 {
        0
    } else {
        hex_number(s.drop_last()) * 16 + hex_value(s.last())
    }
}

/// `s` with every leading `0x` removed.
pub open spec fn strip_0x(s: Seq<char>) -> Seq<char>
    decreases s.len(),
{
    if s.len() >= 2 && s[0] == '0' && s[1] == 'x' {
        strip_0x(s.subrange(2, s.len() as int))
    } else {
        s
    }
}

/// What parsing `digits` as an unsigned hexadecimal number gives (as
/// `u64::from_str_radix` with radix 16 does): one leading `+` is allowed,
/// at least one digit must follow, every character must be a digit, and the
/// number must fit in `u64`.
pub open spec fn parse_hex_u64(s: Seq<char>) -> Option<u64> {
    let digits = if s.len() > 0 && s[0] == '+' { s.subrange(1, s.len() as int) } else { s };
    if digits.len() == 0 || !all_hex(digits) || hex_number(digits) > u64::MAX {
        None
    } else {
        Some(hex_number(digits) as u64)
    }
}

/// What `parse_quantity` gives for `s`.
pub open spec fn quantity_spec(s: Seq<char>) -> Result<u64, RpcError> {
    if !(s.len() >= 2 && s[0] == '0' && s[1] == 'x') {
        Err(RpcError::InvalidParams("block number must be hex quantity"))
    } else if strip_0x(s).len() == 0 {
        Ok(0)
    } else {
        match parse_hex_u64(strip_0x(s)) {
            Some(v) => Ok(v),
            None => Err(RpcError::InvalidParams("invalid block number")),
        }
    }
}

proof fn lemma_hex_number_nonneg(s: Seq<char>)
    requires
        all_hex(s),
    ensures
        hex_number(s) >= 0,
    decreases s.len(),
{
    if s.len() > 0 {
        assert(all_hex(s.drop_last()));
        lemma_hex_number_nonneg(s.drop_last());
    }
}

fn hex_digit_value(c: char) -> (res: Option<u64>)
    ensures
        hex_value(c) >= 0 ==> res == Some(hex_value(c) as u64),
        hex_value(c) < 0 ==> res is None,
{
    if '0' <= c && c <= '9' {
        Some((c as u32 - '0' as u32) as u64)
    } else if 'a' <= c && c <= 'f' {
        Some((c as u32 - 'a' as u32 + 10) as u64)
    } else if 'A' <= c && c <= 'F' {
        Some((c as u32 - 'A' as u32 + 10) as u64)
    } else {
        None
    }
}

/// Parses `chars[from..]` as `u64::from_str_radix(.., 16)` does.
fn parse_hex_digits(chars: &Vec<char>, from: usize) -> (res: Option<u64>)
    requires
        from <= chars@.len(),
    ensures
        res == parse_hex_u64(chars@.subrange(from as int, chars@.len() as int)),
{
    let ghost s = chars@.subrange(from as int, chars@.len() as int);
    let mut i = from;
    if i < chars.len() && chars[i] == '+' {
        i = i + 1;
    }
    let ghost digits = chars@.subrange(i as int, chars@.len() as int);
    proof {
        if s.len() > 0 && s[0] == '+' {
            assert(digits =~= s.subrange(1, s.len() as int));
        } else {
            assert(digits =~= s);
        }
    }
    if i == chars.len() {
        return None;
    }
    assert(parse_hex_u64(s) == (if digits.len() == 0 || !all_hex(digits) || hex_number(digits) > u64::MAX {
        None
    } else {
        Some(hex_number(digits) as u64)
    }));
    let start = i;
    let mut acc: u64 = 0;
    while i < chars.len()
        invariant
            start <= i <= chars@.len(),
            start < chars@.len(),
            digits == chars@.subrange(start as int, chars@.len() as int),
            from <= chars@.len(),
            s == chars@.subrange(from as int, chars@.len() as int),
            parse_hex_u64(s) == (if digits.len() == 0 || !all_hex(digits) || hex_number(digits) > u64::MAX {
                None
            } else {
                Some(hex_number(digits) as u64)
            }),
            all_hex(chars@.subrange(start as int, i as int)),
            acc == hex_number(chars@.subrange(start as int, i as int)),
        decreases chars@.len() - i,
    {
        let ghost pre = chars@.subrange(start as int, i as int);
        let ghost next = chars@.subrange(start as int, i + 1);
        proof {
            assert(next.drop_last() =~= pre);
            assert(next.last() == chars@[i as int]);
        }
        match hex_digit_value(chars[i]) {
            None => {
                proof {
                    assert(digits[i - start] == chars@[i as int]);
                    assert(hex_value(digits[i - start]) < 0);
                    assert(!all_hex(digits));
                }
                return None;
            },
            Some(d) => {
                proof {
                    assert forall|k: int| 0 <= k < next.len() implies hex_value(#[trigger] next[k]) >= 0 by {
                        if k < pre.len() {
                            assert(next[k] == pre[k]);
                        }
                    }
                }
                if acc > (u64::MAX - d) / 16 {
                    proof {
                        assert(hex_number(next) == acc * 16 + d);
                        assert(acc * 16 + d > u64::MAX) by (nonlinear_arith)
                            requires
                                acc > (u64::MAX - d) / 16,
                                d <= 15,
                        ;
                        assert(digits.subrange(0, (i + 1 - start) as int) =~= next);
                        lemma_hex_prefix_grows(digits, (i + 1 - start) as int);
                    }
                    return None;
                }
                acc = acc * 16 + d;
            },
        }
        i = i + 1;
    }
    proof {
        assert(chars@.subrange(start as int, i as int) =~= digits);
    }
    Some(acc)
}

/// The number written by all of `s` is at least that written by a prefix,
/// when every digit is valid.
proof fn lemma_hex_prefix_grows(s: Seq<char>, k: int)
    requires
        0 <= k <= s.len(),
        all_hex(s.subrange(0, k)),
    ensures
        all_hex(s) ==> hex_number(s) >= hex_number(s.subrange(0, k)),
    decreases s.len() - k,
{
    if all_hex(s) && k < s.len() {
        let p = s.subrange(0, k);
        let q = s.subrange(0, k + 1);
        assert(q.drop_last() =~= p);
        assert forall|j: int| 0 <= j < q.len() implies hex_value(#[trigger] q[j]) >= 0 by {
            assert(q[j] == s[j]);
        }
        lemma_hex_number_nonneg(p);
        lemma_hex_prefix_grows(s, k + 1);
    } else if all_hex(s) {
        assert(s.subrange(0, k) =~= s);
    }
}

/// Parses a block number given as an Ethereum quantity: it must start with
/// `0x`; every leading `0x` is then removed; nothing left means 0;
/// otherwise the rest is read in hexadecimal (see `quantity_spec`).
pub fn parse_quantity(value: &str) -> (res: Result<u64, RpcError>)
    ensures
        res == quantity_spec(value@),
{
    let chars = chars_of(value);
    if !(chars.len() >= 2 && chars[0] == '0' && chars[1] == 'x') {
        return Err(RpcError::InvalidParams("block number must be hex quantity"));
    }
    let mut from: usize = 0;
    proof {
        assert(chars@.subrange(0, chars@.len() as int) =~= chars@);
    }
    while chars.len() - from >= 2 && chars[from] == '0' && chars[from + 1] == 'x'
        invariant
            from <= chars@.len(),
            strip_0x(chars@) == strip_0x(chars@.subrange(from as int, chars@.len() as int)),
        decreases chars@.len() - from,
    {
        proof {
            let t = chars@.subrange(from as int, chars@.len() as int);
            assert(t.subrange(2, t.len() as int) =~= chars@.subrange(from + 2, chars@.len() as int));
        }
        from = from + 2;
    }
    proof {
        let t = chars@.subrange(from as int, chars@.len() as int);
        assert(strip_0x(t) == t);
    }
    if from == chars.len() {
        proof {
            assert(chars@.subrange(from as int, chars@.len() as int).len() == 0);
        }
        return Ok(0);
    }
    match parse_hex_digits(&chars, from) {
        Some(v) => Ok(v),
        None => Err(RpcError::InvalidParams("invalid block number")),
    }
}


/// A block selector: a number, the latest stored block, or the first.
#[derive(Debug, Clone, Copy, PartialEq, Eq)]
pub enum BlockTag {
    Number(u64),
    Latest,
    Earliest,
}

/// What `parse_block_tag` gives for a parameter that is a string `s`.
pub open spec fn block_tag_spec(s: Seq<char>) -> Result<BlockTag, RpcError> {
    if s == "latest"@ {
        Ok(BlockTag::Latest)
    } else if s == "earliest"@ {
        Ok(BlockTag::Earliest)
    } else if s == "pending"@ {
        Err(RpcError::InvalidParams("pending block tag is not supported"))
    } else {
        match quantity_spec(s) {
            Ok(v) => Ok(BlockTag::Number(v)),
            Err(e) => Err(e),
        }
    }
}

/// Parses a block tag parameter; `tag` is `None` when the parameter is not
/// a string.
pub fn parse_block_tag(tag: Option<&str>) -> (res: Result<BlockTag, RpcError>)
    ensures
        tag is None ==> res == Err::<BlockTag, RpcError>(RpcError::InvalidParams("block tag must be a string")),
        tag matches Some(t) ==> res == block_tag_spec(t@),
{
    let t = match tag {
        Some(t) => t,
        None => {
            return Err(RpcError::InvalidParams("block tag must be a string"));
        },
    };
    if str_eq(t, "latest") {
        Ok(BlockTag::Latest)
    } else if str_eq(t, "earliest") {
        Ok(BlockTag::Earliest)
    } else if str_eq(t, "pending") {
        Err(RpcError::InvalidParams("pending block tag is not supported"))
    } else {
        match parse_quantity(t) {
            Ok(v) => Ok(BlockTag::Number(v)),
            Err(e) => Err(e),
        }
    }
}

/// The block a tag selects, when the latest block may be unknown.
pub fn resolve_block_tag_optional(tag: BlockTag, latest: Option<u64>) -> (res: Result<Option<u64>, RpcError>)
    ensures
        res == Ok::<Option<u64>, RpcError>(match tag {
            BlockTag::Latest => latest,
            BlockTag::Earliest => Some(0u64),
            BlockTag::Number(v) => Some(v),
        }),
{
    Ok(match tag {
        BlockTag::Latest => latest,
        BlockTag::Earliest => Some(0),
        BlockTag::Number(v) => Some(v),
    })
}

/// The block a tag selects.
pub fn resolve_block_tag_required(tag: BlockTag, latest: u64) -> (res: Result<u64, RpcError>)
    ensures
        res == Ok::<u64, RpcError>(match tag {
            BlockTag::Latest => latest,
            BlockTag::Earliest => 0u64,
            BlockTag::Number(v) => v,
        }),
{
    Ok(match tag {
        BlockTag::Latest => latest,
        BlockTag::Earliest => 0,
        BlockTag::Number(v) => v,
    })
}

/// The shape of a request's parameters.
#[derive(Debug, Clone, Copy, PartialEq, Eq)]
pub enum ParamShape {
    Absent,
    Null,
    Array(usize),
    Object(usize),
    Other,
}

/// Refuses parameters for methods that take none: only absent, `null`,
/// an empty array or an empty object pass.
pub fn ensure_empty_params(params: ParamShape, message: &'static str) -> (res: Result<(), RpcError>)
    ensures
        res is Ok <==> match params {
            ParamShape::Absent | ParamShape::Null => true,
            ParamShape::Array(n) | ParamShape::Object(n) => n == 0,
            ParamShape::Other => false,
        },
        res is Err ==> res == Err::<(), RpcError>(RpcError::InvalidParams(message)),
{
    let empty = match params {
        ParamShape::Absent | ParamShape::Null => true,
        ParamShape::Array(n) | ParamShape::Object(n) => n == 0,
        ParamShape::Other => false,
    };
    if !empty {
        return Err(RpcError::InvalidParams(message));
    }
    Ok(())
}

/// Checks the parameters of `eth_getBlockByNumber`: `param_count` is the
/// length of the parameter array (`None` when they are not an array) and
/// `include_txs` the second parameter when it is a boolean.
pub fn check_block_by_number_params(param_count: Option<usize>, include_txs: Option<bool>) -> (res: Result<(), RpcError>)
    ensures
        param_count != Some(2usize) ==> res == Err::<(), RpcError>(RpcError::InvalidParams(
            "eth_getBlockByNumber expects [blockTag, includeTransactions]")),
        param_count == Some(2usize) && include_txs is None ==> res == Err::<(), RpcError>(RpcError::InvalidParams(
            "includeTransactions must be a boolean")),
        param_count == Some(2usize) && include_txs == Some(true) ==> res == Err::<(), RpcError>(RpcError::InvalidParams(
            "eth_getBlockByNumber only supports includeTransactions=false")),
        param_count == Some(2usize) && include_txs == Some(false) ==> res is Ok,
{
    match param_count {
        Some(2) => {},
        _ => {
            return Err(RpcError::InvalidParams("eth_getBlockByNumber expects [blockTag, includeTransactions]"));
        },
    }
    match include_txs {
        None => Err(RpcError::InvalidParams("includeTransactions must be a boolean")),
        Some(true) => Err(RpcError::InvalidParams("eth_getBlockByNumber only supports includeTransactions=false")),
        Some(false) => Ok(()),
    }
}

/// Checks the parameters of `eth_getLogs`: a single filter object
/// (`param_count` is `None` when they are not an array), without
/// `blockHash`.
pub fn check_logs_params(param_count: Option<usize>, filter_is_object: bool, has_block_hash: bool) -> (res: Result<(), RpcError>)
    ensures
        param_count != Some(1usize) ==> res == Err::<(), RpcError>(RpcError::InvalidParams("eth_getLogs expects a single filter object")),
        param_count == Some(1usize) && !filter_is_object ==> res == Err::<(), RpcError>(RpcError::InvalidParams(
            "eth_getLogs expects a filter object")),
        param_count == Some(1usize) && filter_is_object && has_block_hash ==> res == Err::<(), RpcError>(RpcError::InvalidParams(
            "eth_getLogs does not support blockHash yet")),
        param_count == Some(1usize) && filter_is_object && !has_block_hash ==> res is Ok,
{
    match param_count {
        Some(1) => {},
        _ => {
            return Err(RpcError::InvalidParams("eth_getLogs expects a single filter object"));
        },
    }
    if !filter_is_object {
        return Err(RpcError::InvalidParams("eth_getLogs expects a filter object"));
    }
    if has_block_hash {
        return Err(RpcError::InvalidParams("eth_getLogs does not support blockHash yet"));
    }
    Ok(())
}

/// The block range of a logs query: from the `fromBlock` tag (0 when
/// absent) to the `toBlock` tag (the latest block when absent). `None` when
/// the range is empty; an error when it spans more than
/// `max_blocks_per_filter` blocks (0 means no limit).
pub fn logs_block_range(from: Option<BlockTag>, to: Option<BlockTag>, latest: u64, max_blocks_per_filter: u64)
    -> (res: Result<Option<(u64, u64)>, RpcError>)
    ensures
        ({
            let f: u64 = match from {
                Some(BlockTag::Latest) => latest,
                Some(BlockTag::Earliest) => 0,
                Some(BlockTag::Number(v)) => v,
                None => 0,
            };
            let t: u64 = match to {
                Some(BlockTag::Latest) => latest,
                Some(BlockTag::Earliest) => 0,
                Some(BlockTag::Number(v)) => v,
                None => latest,
            };
            let span = if t - f + 1 > u64::MAX { u64::MAX as int } else { t - f + 1 };
            &&& f > t ==> res == Ok::<Option<(u64, u64)>, RpcError>(None)
            &&& f <= t && max_blocks_per_filter != 0 && span > max_blocks_per_filter ==> res == Err::<Option<(u64, u64)>, RpcError>(
                RpcError::InvalidParams("block range exceeds max_blocks_per_filter"))
            &&& f <= t && !(max_blocks_per_filter != 0 && span > max_blocks_per_filter) ==> res == Ok::<Option<(u64, u64)>, RpcError>(Some((f, t)))
        }),
{
    let f = match from {
        Some(tag) => match resolve_block_tag_required(tag, latest) {
            Ok(v) => v,
            Err(e) => {
                return Err(e);
            },
        },
        None => 0,
    };
    let t = match to {
        Some(tag) => match resolve_block_tag_required(tag, latest) {
            Ok(v) => v,
            Err(e) => {
                return Err(e);
            },
        },
        None => latest,
    };
    if f > t {
        return Ok(None);
    }
    let span = (t - f).saturating_add(1);
    if max_blocks_per_filter != 0 && span > max_blocks_per_filter {
        return Err(RpcError::InvalidParams("block range exceeds max_blocks_per_filter"));
    }
    Ok(Some((f, t)))
}


/// A 20-byte account address, as big-endian parts: `hi` holds bytes 0..4
/// and `lo` bytes 4..20.
#[derive(Debug, Clone, Copy, PartialEq, Eq, Structural)]
pub struct Address20 {
    pub hi: u32,
    pub lo: u128,
}

/// `s` without one leading `0x` or `0X`.
pub open spec fn strip_hex_prefix(s: Seq<char>) -> Seq<char> {
    if s.len() >= 2 && s[0] == '0' && (s[1] == 'x' || s[1] == 'X') {
        s.subrange(2, s.len() as int)
    } else {
        s
    }
}

/// Whether `s` writes `n` bytes in hexadecimal: an optional `0x` or `0X`,
/// then exactly `2 * n` hexadecimal digits (either case).
pub open spec fn hex_bytes_ok(s: Seq<char>, n: nat) -> bool {
    strip_hex_prefix(s).len() == 2 * n && all_hex(strip_hex_prefix(s))
}

/// The hash written by `s` (see `hex_bytes_ok`).
pub open spec fn hash_of_hex(s: Seq<char>) -> Hash256 {
    let t = strip_hex_prefix(s);
    Hash256 { hi: hex_number(t.subrange(0, 32)) as u128, lo: hex_number(t.subrange(32, 64)) as u128 }
}

/// The address written by `s` (see `hex_bytes_ok`).
pub open spec fn address_of_hex(s: Seq<char>) -> Address20 {
    let t = strip_hex_prefix(s);
    Address20 { hi: hex_number(t.subrange(0, 8)) as u32, lo: hex_number(t.subrange(8, 40)) as u128 }
}

/// Parses a 32-byte hash; calls `B256::from_str` of alloy-primitives, which
/// decodes with `const_hex::decode_to_array`: an optional `0x`/`0X` prefix,
/// then exactly 64 hexadecimal digits of either case, read big-endian.
#[verifier::external_body]
fn b256_from_hex(raw: &str) -> (res: Option<Hash256>)
    ensures
        hex_bytes_ok(raw@, 32) ==> res == Some(hash_of_hex(raw@)),
        !hex_bytes_ok(raw@, 32) ==> res is None,
{
    match raw.parse::<alloy_primitives::B256>() {
        Ok(b) => Some(Hash256 {
            hi: u128::from_be_bytes(b.0[..16].try_into().unwrap()),
            lo: u128::from_be_bytes(b.0[16..].try_into().unwrap()),
        }),
        Err(_) => None,
    }
}

/// Parses a 20-byte address; calls `Address::from_str` of alloy-primitives,
/// which decodes with `const_hex::decode_to_array`: an optional `0x`/`0X`
/// prefix, then exactly 40 hexadecimal digits of either case, read
/// big-endian.
#[verifier::external_body]
fn address_from_hex(raw: &str) -> (res: Option<Address20>)
    ensures
        hex_bytes_ok(raw@, 20) ==> res == Some(address_of_hex(raw@)),
        !hex_bytes_ok(raw@, 20) ==> res is None,
{
    match raw.parse::<alloy_primitives::Address>() {
        Ok(a) => Some(Address20 {
            hi: u32::from_be_bytes(a.0 .0[..4].try_into().unwrap()),
            lo: u128::from_be_bytes(a.0 .0[4..].try_into().unwrap()),
        }),
        Err(_) => None,
    }
}

/// A JSON value where a string is expected: `null`, a string, or anything
/// else.
#[derive(Debug, Clone, PartialEq, Eq)]
pub enum JsonScalar {
    Null,
    Str(String),
    Other,
}

/// A filter parameter: a single value or an array of values.
#[derive(Debug, Clone, PartialEq, Eq)]
pub enum FilterParam {
    Scalar(JsonScalar),
    Array(Vec<JsonScalar>),
}

/// What parsing one address parameter gives.
pub open spec fn address_spec(v: JsonScalar) -> Result<Address20, RpcError> {
    match v {
        JsonScalar::Str(s) => if hex_bytes_ok(s@, 20) {
            Ok(address_of_hex(s@))
        } else {
            Err(RpcError::InvalidParams("invalid address"))
        },
        _ => Err(RpcError::InvalidParams("address must be a string")),
    }
}

/// What parsing one topic parameter gives.
pub open spec fn topic_spec(v: JsonScalar) -> Result<Hash256, RpcError> {
    match v {
        JsonScalar::Str(s) => if hex_bytes_ok(s@, 32) {
            Ok(hash_of_hex(s@))
        } else {
            Err(RpcError::InvalidParams("invalid topic hash"))
        },
        _ => Err(RpcError::InvalidParams("topic must be a string")),
    }
}

/// Parses each value in turn; the first error wins.
pub open spec fn addresses_spec(vs: Seq<JsonScalar>) -> Result<Seq<Address20>, RpcError>
    decreases vs.len(),
{
    if vs.len() == 0 {
        Ok(Seq::empty())
    } else {
        match addresses_spec(vs.drop_last()) {
            Err(e) => Err(e),
            Ok(prev) => match address_spec(vs.last()) {
                Err(e) => Err(e),
                Ok(a) => Ok(prev.push(a)),
            },
        }
    }
}

/// Parses each value in turn; the first error wins.
pub open spec fn topics_list_spec(vs: Seq<JsonScalar>) -> Result<Seq<Hash256>, RpcError>
    decreases vs.len(),
{
    if vs.len() == 0 {
        Ok(Seq::empty())
    } else {
        match topics_list_spec(vs.drop_last()) {
            Err(e) => Err(e),
            Ok(prev) => match topic_spec(vs.last()) {
                Err(e) => Err(e),
                Ok(a) => Ok(prev.push(a)),
            },
        }
    }
}

fn parse_address(v: &JsonScalar) -> (res: Result<Address20, RpcError>)
    ensures
        res == address_spec(*v),
{
    match v {
        JsonScalar::Str(s) => match address_from_hex(s.as_str()) {
            Some(a) => Ok(a),
            None => Err(RpcError::InvalidParams("invalid address")),
        },
        _ => Err(RpcError::InvalidParams("address must be a string")),
    }
}

fn parse_b256(v: &JsonScalar) -> (res: Result<Hash256, RpcError>)
    ensures
        res == topic_spec(*v),
{
    match v {
        JsonScalar::Str(s) => match b256_from_hex(s.as_str()) {
            Some(h) => Ok(h),
            None => Err(RpcError::InvalidParams("invalid topic hash")),
        },
        _ => Err(RpcError::InvalidParams("topic must be a string")),
    }
}

/// Parses the `address` filter: one address or an array of them.
pub fn parse_address_filter(p: &FilterParam) -> (res: Result<Vec<Address20>, RpcError>)
    ensures
        match p {
            FilterParam::Scalar(JsonScalar::Str(s)) => match address_spec(JsonScalar::Str(*s)) {
                Ok(a) => res matches Ok(v) && v@ == seq![a],
                Err(e) => res == Err::<Vec<Address20>, RpcError>(e),
            },
            FilterParam::Scalar(_) => res == Err::<Vec<Address20>, RpcError>(RpcError::InvalidParams("address must be a string or array")),
            FilterParam::Array(vs) => match addresses_spec(vs@) {
                Ok(s) => res matches Ok(v) && v@ == s,
                Err(e) => res == Err::<Vec<Address20>, RpcError>(e),
            },
        },
{
    match p {
        FilterParam::Scalar(JsonScalar::Str(_)) => {
            let a = match p {
                FilterParam::Scalar(v) => parse_address(v),
                _ => Err(RpcError::Internal),
            };
            match a {
                Ok(a) => {
                    let mut out = Vec::new();
                    out.push(a);
                    Ok(out)
                },
                Err(e) => Err(e),
            }
        },
        FilterParam::Scalar(_) => Err(RpcError::InvalidParams("address must be a string or array")),
        FilterParam::Array(vs) => {
            let mut out: Vec<Address20> = Vec::new();
            let mut i: usize = 0;
            while i < vs.len()
                invariant
                    i <= vs@.len(),
                    *p == FilterParam::Array(*vs),
                    addresses_spec(vs@.take(i as int)) == Ok::<Seq<Address20>, RpcError>(out@),
                decreases vs@.len() - i,
            {
                proof {
                    assert(vs@.take(i + 1).drop_last() =~= vs@.take(i as int));
                }
                match parse_address(&vs[i]) {
                    Ok(a) => out.push(a),
                    Err(e) => {
                        proof {
                            assert(vs@.take(i + 1).last() == vs@[i as int]);
                            assert(addresses_spec(vs@.take(i + 1)) == Err::<Seq<Address20>, RpcError>(e));
                            lemma_addresses_prefix_error(vs@, i as int + 1);
                        }
                        return Err(e);
                    },
                }
                i = i + 1;
            }
            proof {
                assert(vs@.take(vs@.len() as int) =~= vs@);
            }
            Ok(out)
        },
    }
}

/// An error on a prefix is the error of the whole.
proof fn lemma_addresses_prefix_error(vs: Seq<JsonScalar>, k: int)
    requires
        0 <= k <= vs.len(),
        addresses_spec(vs.take(k)) is Err,
    ensures
        addresses_spec(vs) == addresses_spec(vs.take(k)),
    decreases vs.len() - k,
{
    if k < vs.len() {
        assert(vs.take(k + 1).drop_last() =~= vs.take(k));
        lemma_addresses_prefix_error(vs, k + 1);
    } else {
        assert(vs.take(k) =~= vs);
    }
}

/// An error on a prefix is the error of the whole.
proof fn lemma_topics_prefix_error(vs: Seq<JsonScalar>, k: int)
    requires
        0 <= k <= vs.len(),
        topics_list_spec(vs.take(k)) is Err,
    ensures
        topics_list_spec(vs) == topics_list_spec(vs.take(k)),
    decreases vs.len() - k,
{
    if k < vs.len() {
        assert(vs.take(k + 1).drop_last() =~= vs.take(k));
        lemma_topics_prefix_error(vs, k + 1);
    } else {
        assert(vs.take(k) =~= vs);
    }
}

/// What one entry of the `topics` filter gives: `None` (any topic) for
/// `null` or an empty array, the accepted topics otherwise.
pub open spec fn topic_entry_spec(p: FilterParam) -> Result<Option<Seq<Hash256>>, RpcError> {
    match p {
        FilterParam::Scalar(JsonScalar::Null) => Ok(None),
        FilterParam::Scalar(JsonScalar::Str(s)) => match topic_spec(JsonScalar::Str(s)) {
            Ok(h) => Ok(Some(seq![h])),
            Err(e) => Err(e),
        },
        FilterParam::Scalar(JsonScalar::Other) => Err(RpcError::InvalidParams("topic entries must be null, string, or array")),
        FilterParam::Array(vs) => if vs@.len() == 0 {
            Ok(None)
        } else {
            match topics_list_spec(vs@) {
                Ok(s) => Ok(Some(s)),
                Err(e) => Err(e),
            }
        },
    }
}

/// The view of a parsed topics filter.
pub open spec fn topics_view(t: Seq<Option<Vec<Hash256>>>) -> Seq<Option<Seq<Hash256>>> {
    t.map_values(|o: Option<Vec<Hash256>>| match o {
        Some(v) => Some(v@),
        None => None,
    })
}

/// Parses the entries in turn; the first error wins.
pub open spec fn topics_filter_spec(ps: Seq<FilterParam>) -> Result<Seq<Option<Seq<Hash256>>>, RpcError>
    decreases ps.len(),
{
    if ps.len() == 0 {
        Ok(Seq::empty())
    } else {
        match topics_filter_spec(ps.drop_last()) {
            Err(e) => Err(e),
            Ok(prev) => match topic_entry_spec(ps.last()) {
                Err(e) => Err(e),
                Ok(t) => Ok(prev.push(t)),
            },
        }
    }
}

proof fn lemma_topics_filter_prefix_error(ps: Seq<FilterParam>, k: int)
    requires
        0 <= k <= ps.len(),
        topics_filter_spec(ps.take(k)) is Err,
    ensures
        topics_filter_spec(ps) == topics_filter_spec(ps.take(k)),
    decreases ps.len() - k,
{
    if k < ps.len() {
        assert(ps.take(k + 1).drop_last() =~= ps.take(k));
        lemma_topics_filter_prefix_error(ps, k + 1);
    } else {
        assert(ps.take(k) =~= ps);
    }
}

fn parse_topic_entry(p: &FilterParam) -> (res: Result<Option<Vec<Hash256>>, RpcError>)
    ensures
        match topic_entry_spec(*p) {
            Ok(None) => res == Ok::<Option<Vec<Hash256>>, RpcError>(None),
            Ok(Some(s)) => res matches Ok(Some(v)) && v@ == s,
            Err(e) => res == Err::<Option<Vec<Hash256>>, RpcError>(e),
        },
{
    match p {
        FilterParam::Scalar(JsonScalar::Null) => Ok(None),
        FilterParam::Scalar(JsonScalar::Str(_)) => {
            let h = match p {
                FilterParam::Scalar(v) => parse_b256(v),
                _ => Err(RpcError::Internal),
            };
            match h {
                Ok(h) => {
                    let mut v = Vec::new();
                    v.push(h);
                    Ok(Some(v))
                },
                Err(e) => Err(e),
            }
        },
        FilterParam::Scalar(JsonScalar::Other) => Err(RpcError::InvalidParams("topic entries must be null, string, or array")),
        FilterParam::Array(vs) => {
            if vs.len() == 0 {
                return Ok(None);
            }
            let mut out: Vec<Hash256> = Vec::new();
            let mut i: usize = 0;
            while i < vs.len()
                invariant
                    i <= vs@.len(),
                    vs@.len() > 0,
                    *p == FilterParam::Array(*vs),
                    topics_list_spec(vs@.take(i as int)) == Ok::<Seq<Hash256>, RpcError>(out@),
                decreases vs@.len() - i,
            {
                proof {
                    assert(vs@.take(i + 1).drop_last() =~= vs@.take(i as int));
                }
                match parse_b256(&vs[i]) {
                    Ok(h) => out.push(h),
                    Err(e) => {
                        proof {
                            assert(vs@.take(i + 1).last() == vs@[i as int]);
                            assert(topics_list_spec(vs@.take(i + 1)) == Err::<Seq<Hash256>, RpcError>(e));
                            lemma_topics_prefix_error(vs@, i as int + 1);
                        }
                        return Err(e);
                    },
                }
                i = i + 1;
            }
            proof {
                assert(vs@.take(vs@.len() as int) =~= vs@);
            }
            Ok(Some(out))
        },
    }
}

/// Parses the `topics` filter; `topics` is `None` when the parameter is not
/// an array.
pub fn parse_topics_filter(topics: Option<&Vec<FilterParam>>) -> (res: Result<Vec<Option<Vec<Hash256>>>, RpcError>)
    ensures
        topics is None ==> res == Err::<Vec<Option<Vec<Hash256>>>, RpcError>(RpcError::InvalidParams("topics must be an array")),
        topics matches Some(ps) ==> match topics_filter_spec(ps@) {
            Ok(s) => res matches Ok(v) && topics_view(v@) == s,
            Err(e) => res == Err::<Vec<Option<Vec<Hash256>>>, RpcError>(e),
        },
{
    let ps = match topics {
        Some(ps) => ps,
        None => {
            return Err(RpcError::InvalidParams("topics must be an array"));
        },
    };
    let mut out: Vec<Option<Vec<Hash256>>> = Vec::new();
    let mut i: usize = 0;
    proof {
        assert(ps@.take(0) =~= Seq::<FilterParam>::empty());
        assert(topics_view(out@) =~= Seq::<Option<Seq<Hash256>>>::empty());
    }
    while i < ps.len()
        invariant
            i <= ps@.len(),
            topics == Some(ps),
            topics_filter_spec(ps@.take(i as int)) == Ok::<Seq<Option<Seq<Hash256>>>, RpcError>(topics_view(out@)),
        decreases ps@.len() - i,
    {
        proof {
            assert(ps@.take(i + 1).drop_last() =~= ps@.take(i as int));
        }
        match parse_topic_entry(&ps[i]) {
            Ok(t) => {
                let ghost o0 = out@;
                out.push(t);
                proof {
                    assert(topics_view(out@) =~= topics_view(o0).push(match t {
                        Some(v) => Some(v@),
                        None => None,
                    }));
                }
            },
            Err(e) => {
                proof {
                    assert(ps@.take(i + 1).last() == ps@[i as int]);
                    assert(topics_filter_spec(ps@.take(i + 1)) == Err::<Seq<Option<Seq<Hash256>>>, RpcError>(e));
                    lemma_topics_filter_prefix_error(ps@, i as int + 1);
                }
                return Err(e);
            },
        }
        i = i + 1;
    }
    proof {
        assert(ps@.take(ps@.len() as int) =~= ps@);
    }
    Ok(out)
}

/// Whether a log passes the filters: its address is among `addresses`
/// (when given), and for each topic position with accepted values, the log
/// has a topic there among them.
pub open spec fn log_matches_spec(address: Address20, topics: Seq<Hash256>, addresses: Option<Seq<Address20>>,
    filters: Option<Seq<Option<Seq<Hash256>>>>) -> bool {
    &&& addresses matches Some(a) ==> a.contains(address)
    &&& filters matches Some(f) ==> forall|i: int| 0 <= i < f.len() ==> (#[trigger] f[i] matches Some(vals) ==> (i < topics.len()
        && vals.contains(topics[i])))
}

fn contains_address(v: &Vec<Address20>, a: Address20) -> (res: bool)
    ensures
        res == v@.contains(a),
{
    let mut i: usize = 0;
    while i < v.len()
        invariant
            i <= v@.len(),
            forall|j: int| 0 <= j < i ==> v@[j] != a,
        decreases v@.len() - i,
    {
        if v[i] == a {
            proof {
                assert(v@[i as int] == a);
            }
            return true;
        }
        i = i + 1;
    }
    false
}

fn contains_hash(v: &Vec<Hash256>, h: Hash256) -> (res: bool)
    ensures
        res == v@.contains(h),
{
    let mut i: usize = 0;
    while i < v.len()
        invariant
            i <= v@.len(),
            forall|j: int| 0 <= j < i ==> v@[j] != h,
        decreases v@.len() - i,
    {
        if v[i] == h {
            proof {
                assert(v@[i as int] == h);
            }
            return true;
        }
        i = i + 1;
    }
    false
}

/// A log passes the filters exactly when its address is among the listed
/// addresses (if any are listed) and, at every topic position whose filter
/// lists values, the log has a topic that is among them; positions whose
/// filter is empty accept any topic, or none.
pub proof fn lemma_log_matches_meaning(address: Address20, topics: Seq<Hash256>, addresses: Option<Seq<Address20>>,
    filters: Option<Seq<Option<Seq<Hash256>>>>)
    ensures
        log_matches_spec(address, topics, addresses, filters) ==> (addresses matches Some(a) ==> a.contains(address)),
        log_matches_spec(address, topics, addresses, filters) ==> (filters matches Some(f) ==> forall|i: int|
            0 <= i < f.len() && #[trigger] f[i] is Some ==> i < topics.len() && f[i]->0.contains(topics[i])),
        (addresses matches Some(a) ==> a.contains(address)) && (filters matches Some(f) ==> forall|i: int|
            0 <= i < f.len() && #[trigger] f[i] is Some ==> i < topics.len() && f[i]->0.contains(topics[i]))
            ==> log_matches_spec(address, topics, addresses, filters),
{
    if let Some(f) = filters {
        if log_matches_spec(address, topics, addresses, filters) {
            assert forall|i: int| 0 <= i < f.len() && #[trigger] f[i] is Some implies i < topics.len() && f[i]->0.contains(topics[i]) by {
                assert(f[i] matches Some(vals) ==> (i < topics.len() && vals.contains(topics[i])));
            }
        }
        if (addresses matches Some(a) ==> a.contains(address)) && (forall|i: int|
            0 <= i < f.len() && #[trigger] f[i] is Some ==> i < topics.len() && f[i]->0.contains(topics[i])) {
            assert forall|i: int| 0 <= i < f.len() implies (#[trigger] f[i] matches Some(vals) ==> (i < topics.len()
                && vals.contains(topics[i]))) by {
                if f[i] is Some {
                    assert(i < topics.len() && f[i]->0.contains(topics[i]));
                }
            }
        }
    }
}

/// Whether a log passes the filters (see `log_matches_spec`): its address
/// is listed when addresses are given, and at every position whose topic
/// filter lists values its topic is one of them.
pub fn log_matches(address: Address20, topics: &Vec<Hash256>, addresses: Option<&Vec<Address20>>,
    filters: Option<&Vec<Option<Vec<Hash256>>>>) -> (res: bool)
    ensures
        res == log_matches_spec(address, topics@, match addresses {
            Some(a) => Some(a@),
            None => None,
        }, match filters {
            Some(f) => Some(topics_view(f@)),
            None => None,
        }),
        res <==> ((addresses matches Some(a) ==> a@.contains(address)) && (filters matches Some(f) ==> forall|i: int|
            0 <= i < f@.len() && #[trigger] f@[i] is Some ==> i < topics@.len() && f@[i]->0@.contains(topics@[i]))),
{
    let ghost av = match addresses {
        Some(a) => Some(a@),
        None => None,
    };
    let ghost fv = match filters {
        Some(f) => Some(topics_view(f@)),
        None => None,
    };
    proof {
        lemma_log_matches_meaning(address, topics@, av, fv);
        if let Some(f) = filters {
            assert forall|i: int| 0 <= i < f@.len() implies (#[trigger] f@[i] is Some <==> topics_view(f@)[i] is Some)
                && (f@[i] is Some ==> topics_view(f@)[i]->0 == f@[i]->0@) by {}
        }
    }
    let res = log_matches_body(address, topics, addresses, filters);
    proof {
        if let Some(f) = filters {
            let t = topics_view(f@);
            if res {
                assert forall|i: int| 0 <= i < f@.len() && #[trigger] f@[i] is Some implies i < topics@.len()
                    && f@[i]->0@.contains(topics@[i]) by {
                    assert(t[i] is Some);
                }
            } else if addresses matches Some(a) ==> a@.contains(address) {
                assert(!(forall|i: int| 0 <= i < t.len() && #[trigger] t[i] is Some ==> i < topics@.len() && t[i]->0.contains(topics@[i])));
                let i = choose|i: int| !(0 <= i < t.len() && #[trigger] t[i] is Some ==> i < topics@.len() && t[i]->0.contains(topics@[i]));
                assert(f@[i] is Some);
            }
        }
    }
    res
}

fn log_matches_body(address: Address20, topics: &Vec<Hash256>, addresses: Option<&Vec<Address20>>,
    filters: Option<&Vec<Option<Vec<Hash256>>>>) -> (res: bool)
    ensures
        res == log_matches_spec(address, topics@, match addresses {
            Some(a) => Some(a@),
            None => None,
        }, match filters {
            Some(f) => Some(topics_view(f@)),
            None => None,
        }),
{
    if let Some(addrs) = addresses {
        if !contains_address(addrs, address) {
            return false;
        }
    }
    if let Some(fs) = filters {
        let mut i: usize = 0;
        while i < fs.len()
            invariant
                i <= fs@.len(),
                filters == Some(fs),
                addresses matches Some(a) ==> a@.contains(address),
                forall|j: int| 0 <= j < i ==> (#[trigger] topics_view(fs@)[j] matches Some(vals) ==> (j < topics@.len()
                    && vals.contains(topics@[j]))),
            decreases fs@.len() - i,
        {
            match &fs[i] {
                None => {},
                Some(vals) => {
                    if i >= topics.len() {
                        proof {
                            let f = topics_view(fs@);
                            assert(f[i as int] == Some(vals@));
                            assert(!(f[i as int] matches Some(v) ==> (i < topics@.len() && v.contains(topics@[i as int]))));
                        }
                        return false;
                    }
                    if !contains_hash(vals, topics[i]) {
                        proof {
                            let f = topics_view(fs@);
                            assert(f[i as int] == Some(vals@));
                            assert(!(f[i as int] matches Some(v) ==> (i < topics@.len() && v.contains(topics@[i as int]))));
                        }
                        return false;
                    }
                },
            }
            i = i + 1;
        }
    }
    true
}


/// A log of a receipt: its address, topics and data.
#[derive(Debug, Clone, PartialEq, Eq)]
pub struct LogEntry {
    pub address: Address20,
    pub topics: Vec<Hash256>,
    pub data: Vec<u8>,
}

/// A log with its position in the chain, as `eth_getLogs` reports it.
#[derive(Debug, Clone, PartialEq, Eq)]
pub struct DerivedLog {
    pub address: Address20,
    pub topics: Vec<Hash256>,
    pub data: Vec<u8>,
    pub block_number: u64,
    pub block_hash: Hash256,
    pub transaction_hash: Hash256,
    pub transaction_index: u64,
    pub log_index: u64,
    pub removed: bool,
}

/// The positions `(transaction, log)` of the logs of the first `n`
/// receipts that pass the filters, in order.
pub open spec fn matched_logs(receipts: Seq<Vec<LogEntry>>, n: int, addresses: Option<Seq<Address20>>,
    filters: Option<Seq<Option<Seq<Hash256>>>>) -> Seq<(int, int)>
    decreases n,
{
    if n <= 0 {
        Seq::empty()
    } else {
        matched_logs(receipts, n - 1, addresses, filters) + matched_in_receipt(receipts[n - 1]@, n - 1, receipts[n - 1]@.len() as int,
            addresses, filters)
    }
}

/// The positions of the first `m` logs of receipt `t` that pass the
/// filters.
pub open spec fn matched_in_receipt(logs: Seq<LogEntry>, t: int, m: int, addresses: Option<Seq<Address20>>,
    filters: Option<Seq<Option<Seq<Hash256>>>>) -> Seq<(int, int)>
    decreases m,
{
    if m <= 0 {
        Seq::empty()
    } else {
        let prev = matched_in_receipt(logs, t, m - 1, addresses, filters);
        if log_matches_spec(logs[m - 1].address, logs[m - 1].topics@, addresses, filters) {
            prev.push((t, m - 1))
        } else {
            prev
        }
    }
}

/// `d` reports log `l` of transaction `t` of the block.
pub open spec fn derived_from(d: DerivedLog, e: LogEntry, block_number: u64, block_hash: Hash256, tx_hash: Hash256, t: int, l: int) -> bool {
    &&& d.address == e.address
    &&& d.topics@ == e.topics@
    &&& d.data@ == e.data@
    &&& d.block_number == block_number
    &&& d.block_hash == block_hash
    &&& d.transaction_hash == tx_hash
    &&& d.transaction_index == t
    &&& d.log_index == l
    &&& !d.removed
}

fn copy_hashes(v: &Vec<Hash256>) -> (res: Vec<Hash256>)
    ensures
        res@ == v@,
{
    let mut out = Vec::new();
    let mut i: usize = 0;
    while i < v.len()
        invariant
            i <= v@.len(),
            out@ == v@.take(i as int),
        decreases v@.len() - i,
    {
        out.push(v[i]);
        proof {
            assert(v@.take(i + 1) =~= v@.take(i as int).push(v@[i as int]));
        }
        i = i + 1;
    }
    proof {
        assert(v@.take(v@.len() as int) =~= v@);
    }
    out
}

fn copy_bytes(v: &Vec<u8>) -> (res: Vec<u8>)
    ensures
        res@ == v@,
{
    let mut out = Vec::new();
    let mut i: usize = 0;
    while i < v.len()
        invariant
            i <= v@.len(),
            out@ == v@.take(i as int),
        decreases v@.len() - i,
    {
        out.push(v[i]);
        proof {
            assert(v@.take(i + 1) =~= v@.take(i as int).push(v@[i as int]));
        }
        i = i + 1;
    }
    proof {
        assert(v@.take(v@.len() as int) =~= v@);
    }
    out
}

/// `out` extended by the logs of positions `ps`.
pub open spec fn appended_logs(before: Seq<DerivedLog>, after: Seq<DerivedLog>, ps: Seq<(int, int)>,
    receipts: Seq<Vec<LogEntry>>, tx_hashes: Seq<Hash256>, block_number: u64, block_hash: Hash256) -> bool {
    &&& after.len() == before.len() + ps.len()
    &&& after.subrange(0, before.len() as int) == before
    &&& forall|k: int| 0 <= k < ps.len() ==> {
        let (t, l) = #[trigger] ps[k];
        derived_from(after[before.len() + k], receipts[t]@[l], block_number, block_hash, tx_hashes[t], t, l)
    }
}

/// Adds to `out` the logs of one block that pass the filters: nothing when
/// the block has not as many receipts as transaction hashes; an error when
/// the response would hold more than `max_logs` logs (0 means no limit).
pub fn collect_block_logs(
    block_number: u64,
    block_hash: Hash256,
    receipts: &Vec<Vec<LogEntry>>,
    tx_hashes: &Vec<Hash256>,
    addresses: Option<&Vec<Address20>>,
    filters: Option<&Vec<Option<Vec<Hash256>>>>,
    max_logs: u64,
    out: &mut Vec<DerivedLog>,
) -> (res: Result<(), RpcError>)
    ensures
        ({
            let av = match addresses { Some(a) => Some(a@), None => None };
            let fv = match filters { Some(f) => Some(topics_view(f@)), None => None };
            let ps = if receipts@.len() == tx_hashes@.len() {
                matched_logs(receipts@, receipts@.len() as int, av, fv)
            } else {
                Seq::empty()
            };
            &&& res is Err <==> (max_logs != 0 && ps.len() > 0 && old(out)@.len() + ps.len() > max_logs)
            &&& res is Err ==> res == Err::<(), RpcError>(RpcError::InvalidParams("response exceeds max_logs_per_response"))
            &&& res is Ok ==> appended_logs(old(out)@, final(out)@, ps, receipts@, tx_hashes@, block_number, block_hash)
        }),
{
    let ghost av = match addresses { Some(a) => Some(a@), None => None };
    let ghost fv = match filters { Some(f) => Some(topics_view(f@)), None => None };
    let ghost start = out@;
    if receipts.len() != tx_hashes.len() {
        proof {
            assert(out@.subrange(0, out@.len() as int) =~= out@);
        }
        return Ok(());
    }
    let mut t: usize = 0;
    proof {
        assert(out@.subrange(0, out@.len() as int) =~= out@);
        assert(matched_logs(receipts@, 0, av, fv) =~= Seq::<(int, int)>::empty());
    }
    while t < receipts.len()
        invariant
            receipts@.len() == tx_hashes@.len(),
            start == old(out)@,
            t <= receipts@.len(),
            av == match addresses { Some(a) => Some(a@), None => None },
            fv == match filters { Some(f) => Some(topics_view(f@)), None => None },
            max_logs == 0 || start.len() + matched_logs(receipts@, t as int, av, fv).len() <= max_logs
                || matched_logs(receipts@, t as int, av, fv).len() == 0,
            appended_logs(start, out@, matched_logs(receipts@, t as int, av, fv), receipts@, tx_hashes@, block_number, block_hash),
        decreases receipts@.len() - t,
    {
        let logs = &receipts[t];
        let mut l: usize = 0;
        let ghost before_t = matched_logs(receipts@, t as int, av, fv);
        while l < logs.len()
            invariant
                receipts@.len() == tx_hashes@.len(),
                start == old(out)@,
                t < receipts@.len(),
                *logs == receipts@[t as int],
                l <= logs@.len(),
                av == match addresses { Some(a) => Some(a@), None => None },
                fv == match filters { Some(f) => Some(topics_view(f@)), None => None },
                before_t == matched_logs(receipts@, t as int, av, fv),
                max_logs == 0 || start.len() + (before_t + matched_in_receipt(logs@, t as int, l as int, av, fv)).len() <= max_logs
                    || (before_t + matched_in_receipt(logs@, t as int, l as int, av, fv)).len() == 0,
                appended_logs(start, out@, before_t + matched_in_receipt(logs@, t as int, l as int, av, fv), receipts@,
                    tx_hashes@, block_number, block_hash),
            decreases logs@.len() - l,
        {
            let e = &logs[l];
            let ghost cur = before_t + matched_in_receipt(logs@, t as int, l as int, av, fv);
            if log_matches(e.address, &e.topics, addresses, filters) {
                let d = DerivedLog {
                    address: e.address,
                    topics: copy_hashes(&e.topics),
                    data: copy_bytes(&e.data),
                    block_number,
                    block_hash,
                    transaction_hash: tx_hashes[t],
                    transaction_index: t as u64,
                    log_index: l as u64,
                    removed: false,
                };
                let ghost o0 = out@;
                out.push(d);
                proof {
                    let nxt = before_t + matched_in_receipt(logs@, t as int, l as int + 1, av, fv);
                    assert(nxt =~= cur.push((t as int, l as int)));
                    assert(out@.subrange(0, start.len() as int) =~= o0.subrange(0, start.len() as int));
                    assert forall|k: int| 0 <= k < nxt.len() implies {
                        let (tt, ll) = #[trigger] nxt[k];
                        derived_from(out@[start.len() + k], receipts@[tt]@[ll], block_number, block_hash, tx_hashes@[tt], tt, ll)
                    } by {
                        if k < cur.len() {
                            assert(nxt[k] == cur[k]);
                            assert(out@[start.len() + k] == o0[start.len() + k]);
                        }
                    }
                }
                if max_logs != 0 && out.len() as u64 > max_logs {
                    proof {
                        lemma_matched_logs_grow(receipts@, t as int, l as int + 1, av, fv);
                        let nxt = before_t + matched_in_receipt(logs@, t as int, l as int + 1, av, fv);
                        assert(out@.len() == start.len() + nxt.len());
                        assert(nxt.len() >= 1);
                    }
                    return Err(RpcError::InvalidParams("response exceeds max_logs_per_response"));
                }
            } else {
                proof {
                    assert(before_t + matched_in_receipt(logs@, t as int, l as int + 1, av, fv) =~= cur);
                }
            }
            l = l + 1;
        }
        proof {
            assert(matched_logs(receipts@, t as int + 1, av, fv) =~= before_t + matched_in_receipt(logs@, t as int,
                logs@.len() as int, av, fv));
        }
        t = t + 1;
    }
    Ok(())
}

/// The matches of a prefix of the block are a prefix of the block's
/// matches.
proof fn lemma_matched_logs_grow(receipts: Seq<Vec<LogEntry>>, t: int, l: int, av: Option<Seq<Address20>>,
    fv: Option<Seq<Option<Seq<Hash256>>>>)
    requires
        0 <= t < receipts.len(),
        0 <= l <= receipts[t]@.len(),
    ensures
        (matched_logs(receipts, t, av, fv) + matched_in_receipt(receipts[t]@, t, l, av, fv)).len()
            <= matched_logs(receipts, receipts.len() as int, av, fv).len(),
    decreases receipts.len() - t, receipts[t]@.len() - l,
{
    if l < receipts[t]@.len() {
        lemma_matched_logs_grow(receipts, t, l + 1, av, fv);
    } else if t + 1 < receipts.len() {
        lemma_matched_logs_grow(receipts, t + 1, 0, av, fv);
    }
}


/// The big-endian bytes of a `u128`.
pub open spec fn be_bytes_u128(v: u128) -> Seq<u8> {
    Seq::new(16, |i: int| ((v >> (8 * (15 - i)) as u128) & 0xff) as u8)
}

/// The big-endian bytes of a `u32`.
pub open spec fn be_bytes_u32(v: u32) -> Seq<u8> {
    Seq::new(4, |i: int| ((v >> (8 * (3 - i)) as u32) & 0xff) as u8)
}

/// The 32 bytes of a hash.
pub open spec fn hash_bytes(h: Hash256) -> Seq<u8> {
    be_bytes_u128(h.hi) + be_bytes_u128(h.lo)
}

/// The 20 bytes of an address.
pub open spec fn address_bytes(a: Address20) -> Seq<u8> {
    be_bytes_u32(a.hi) + be_bytes_u128(a.lo)
}

/// `0x` and the lowercase hexadecimal digits of `bytes`, two per byte.
pub open spec fn prefixed_hex(bytes: Seq<u8>) -> Seq<char> {
    seq!['0', 'x'] + hex_text(bytes)
}

fn push_be_u128(out: &mut Vec<u8>, v: u128)
    ensures
        final(out)@ == old(out)@ + be_bytes_u128(v),
{
    let mut i: u32 = 0;
    while i < 16
        invariant
            i <= 16,
            out@ == old(out)@ + be_bytes_u128(v).take(i as int),
        decreases 16 - i,
    {
        out.push(((v >> (8 * (15 - i))) & 0xff) as u8);
        proof {
            assert(be_bytes_u128(v).take(i + 1) =~= be_bytes_u128(v).take(i as int).push(((v >> (8 * (15 - i)) as u128) & 0xff) as u8));
        }
        i = i + 1;
    }
    proof {
        assert(be_bytes_u128(v).take(16) =~= be_bytes_u128(v));
    }
}

fn push_be_u32(out: &mut Vec<u8>, v: u32)
    ensures
        final(out)@ == old(out)@ + be_bytes_u32(v),
{
    let mut i: u32 = 0;
    while i < 4
        invariant
            i <= 4,
            out@ == old(out)@ + be_bytes_u32(v).take(i as int),
        decreases 4 - i,
    {
        out.push(((v >> (8 * (3 - i))) & 0xff) as u8);
        proof {
            assert(be_bytes_u32(v).take(i + 1) =~= be_bytes_u32(v).take(i as int).push(((v >> (8 * (3 - i)) as u32) & 0xff) as u8));
        }
        i = i + 1;
    }
    proof {
        assert(be_bytes_u32(v).take(4) =~= be_bytes_u32(v));
    }
}

fn prefixed_hex_string(bytes: &[u8]) -> (res: String)
    ensures
        res@ == prefixed_hex(bytes@),
{
    let digits = chars_of(to_hex(bytes).as_str());
    let mut chars: Vec<char> = Vec::new();
    chars.push('0');
    chars.push('x');
    chars.extend_from_slice(digits.as_slice());
    proof {
        assert(chars@ =~= prefixed_hex(bytes@));
    }
    string_from_chars(chars.as_slice())
}

fn hash_text(h: Hash256) -> (res: String)
    ensures
        res@ == prefixed_hex(hash_bytes(h)),
{
    let mut bytes: Vec<u8> = Vec::new();
    push_be_u128(&mut bytes, h.hi);
    push_be_u128(&mut bytes, h.lo);
    proof {
        assert(bytes@ =~= hash_bytes(h));
    }
    prefixed_hex_string(bytes.as_slice())
}

/// A log as `eth_getLogs` answers it: hashes, address and data as `0x`
/// and lowercase hexadecimal bytes, numbers as quantities.
#[derive(Debug, Clone, PartialEq, Eq)]
pub struct RpcLog {
    pub address: String,
    pub topics: Vec<String>,
    pub data: String,
    pub block_number: String,
    pub block_hash: String,
    pub transaction_hash: String,
    pub transaction_index: String,
    pub log_index: String,
    pub removed: bool,
}

/// The answer form of a log (see `RpcLog`).
pub fn format_log(log: &DerivedLog) -> (res: RpcLog)
    ensures
        res.address@ == prefixed_hex(address_bytes(log.address)),
        res.topics@.len() == log.topics@.len(),
        forall|i: int| 0 <= i < log.topics@.len() ==> (#[trigger] res.topics@[i])@ == prefixed_hex(hash_bytes(log.topics@[i])),
        res.data@ == prefixed_hex(log.data@),
        res.block_number@ == seq!['0', 'x'] + hex_chars(log.block_number as nat),
        res.block_hash@ == prefixed_hex(hash_bytes(log.block_hash)),
        res.transaction_hash@ == prefixed_hex(hash_bytes(log.transaction_hash)),
        res.transaction_index@ == seq!['0', 'x'] + hex_chars(log.transaction_index as nat),
        res.log_index@ == seq!['0', 'x'] + hex_chars(log.log_index as nat),
        res.removed == log.removed,
{
    let mut abytes: Vec<u8> = Vec::new();
    push_be_u32(&mut abytes, log.address.hi);
    push_be_u128(&mut abytes, log.address.lo);
    proof {
        assert(abytes@ =~= address_bytes(log.address));
    }
    let mut topics: Vec<String> = Vec::new();
    let mut i: usize = 0;
    while i < log.topics.len()
        invariant
            i <= log.topics@.len(),
            topics@.len() == i,
            forall|j: int| 0 <= j < i ==> (#[trigger] topics@[j])@ == prefixed_hex(hash_bytes(log.topics@[j])),
        decreases log.topics@.len() - i,
    {
        topics.push(hash_text(log.topics[i]));
        i = i + 1;
    }
    RpcLog {
        address: prefixed_hex_string(abytes.as_slice()),
        topics,
        data: prefixed_hex_string(log.data.as_slice()),
        block_number: quantity_hex(log.block_number),
        block_hash: hash_text(log.block_hash),
        transaction_hash: hash_text(log.transaction_hash),
        transaction_index: quantity_hex(log.transaction_index),
        log_index: quantity_hex(log.log_index),
        removed: log.removed,
    }
}

/// The big-endian bytes of a `u64`.
pub open spec fn be_bytes_u64(v: u64) -> Seq<u8> {
    Seq::new(8, |i: int| ((v >> (8 * (7 - i)) as u64) & 0xff) as u8)
}

fn push_be_u64(out: &mut Vec<u8>, v: u64)
    ensures
        final(out)@ == old(out)@ + be_bytes_u64(v),
{
    let mut i: u32 = 0;
    while i < 8
        invariant
            i <= 8,
            out@ == old(out)@ + be_bytes_u64(v).take(i as int),
        decreases 8 - i,
    {
        out.push(((v >> (8 * (7 - i))) & 0xff) as u8);
        proof {
            assert(be_bytes_u64(v).take(i + 1) =~= be_bytes_u64(v).take(i as int).push(((v >> (8 * (7 - i)) as u64) & 0xff) as u8));
        }
        i = i + 1;
    }
    proof {
        assert(be_bytes_u64(v).take(8) =~= be_bytes_u64(v));
    }
}

/// Hexadecimal digits without their leading zeros, keeping the last digit.
pub open spec fn trim_hex_zeros(s: Seq<char>) -> Seq<char>
    decreases s.len(),
{
    if s.len() > 1 && s[0] == '0' {
        trim_hex_zeros(s.drop_first())
    } else {
        s
    }
}

/// A 256-bit unsigned number, given by its 32 big-endian bytes, written as
/// `0x` and its lowercase hexadecimal digits without leading zeros (`0x0`
/// for zero).
pub open spec fn u256_quantity(v: Hash256) -> Seq<char> {
    seq!['0', 'x'] + trim_hex_zeros(hex_text(hash_bytes(v)))
}

fn u256_quantity_text(v: Hash256) -> (res: String)
    ensures
        res@ == u256_quantity(v),
{
    let mut bytes: Vec<u8> = Vec::new();
    push_be_u128(&mut bytes, v.hi);
    push_be_u128(&mut bytes, v.lo);
    proof {
        assert(bytes@ =~= hash_bytes(v));
    }
    let digits = chars_of(to_hex(bytes.as_slice()).as_str());
    let mut i: usize = 0;
    proof {
        assert(digits@.skip(0) =~= digits@);
    }
    while digits.len() - i > 1 && digits[i] == '0'
        invariant
            i <= digits@.len(),
            trim_hex_zeros(digits@) == trim_hex_zeros(digits@.skip(i as int)),
        decreases digits@.len() - i,
    {
        proof {
            assert(digits@.skip(i as int).drop_first() =~= digits@.skip(i as int + 1));
        }
        i = i + 1;
    }
    proof {
        assert(trim_hex_zeros(digits@.skip(i as int)) == digits@.skip(i as int));
    }
    let mut chars: Vec<char> = Vec::new();
    chars.push('0');
    chars.push('x');
    let mut k: usize = i;
    while k < digits.len()
        invariant
            i <= k <= digits@.len(),
            chars@ == seq!['0', 'x'] + digits@.subrange(i as int, k as int),
        decreases digits@.len() - k,
    {
        chars.push(digits[k]);
        proof {
            assert(digits@.subrange(i as int, k + 1) =~= digits@.subrange(i as int, k as int).push(digits@[k as int]));
        }
        k = k + 1;
    }
    proof {
        assert(digits@.subrange(i as int, digits@.len() as int) =~= digits@.skip(i as int));
    }
    string_from_chars(chars.as_slice())
}

/// The header fields that `eth_getBlockByNumber` reports, as plain values:
/// hashes and the difficulty as 32 big-endian bytes, the nonce as the
/// big-endian number of its 8 bytes.
#[derive(Debug, Clone, PartialEq, Eq)]
pub struct BlockHeaderFields {
    pub number: u64,
    pub parent_hash: Hash256,
    pub nonce: u64,
    pub ommers_hash: Hash256,
    pub timestamp: u64,
    pub logs_bloom: Vec<u8>,
    pub transactions_root: Hash256,
    pub state_root: Hash256,
    pub receipts_root: Hash256,
    pub beneficiary: Address20,
    pub difficulty: Hash256,
    pub extra_data: Vec<u8>,
    pub gas_limit: u64,
    pub gas_used: u64,
    pub mix_hash: Hash256,
    pub base_fee_per_gas: Option<u64>,
    pub withdrawals_root: Option<Hash256>,
    pub blob_gas_used: Option<u64>,
    pub excess_blob_gas: Option<u64>,
    pub parent_beacon_block_root: Option<Hash256>,
}

/// A block as `eth_getBlockByNumber` answers it (without transactions
/// bodies): hashes, bloom, address and extra data as `0x` and lowercase
/// hexadecimal bytes, numbers as quantities. Withdrawals are not stored,
/// so they are always absent.
#[derive(Debug, Clone, PartialEq, Eq)]
pub struct RpcBlock {
    pub number: String,
    pub hash: String,
    pub parent_hash: String,
    pub nonce: String,
    pub sha3_uncles: String,
    pub timestamp: String,
    pub logs_bloom: String,
    pub transactions_root: String,
    pub state_root: String,
    pub receipts_root: String,
    pub miner: String,
    pub difficulty: String,
    pub total_difficulty: String,
    pub extra_data: String,
    pub size: String,
    pub gas_limit: String,
    pub gas_used: String,
    pub transactions: Vec<String>,
    pub uncles: Vec<String>,
    pub mix_hash: String,
    pub base_fee_per_gas: Option<String>,
    pub withdrawals_root: Option<String>,
    pub withdrawals: Option<Vec<String>>,
    pub blob_gas_used: Option<String>,
    pub excess_blob_gas: Option<String>,
    pub parent_beacon_block_root: Option<String>,
}

/// `0x` and the lowercase hexadecimal digits of `n`.
pub open spec fn quantity(n: u64) -> Seq<char> {
    seq!['0', 'x'] + hex_chars(n as nat)
}

fn optional_quantity(v: Option<u64>) -> (res: Option<String>)
    ensures
        match v {
            Some(n) => res matches Some(s) && s@ == quantity(n),
            None => res is None,
        },
{
    match v {
        Some(n) => Some(quantity_hex(n)),
        None => None,
    }
}

fn optional_hash(v: Option<Hash256>) -> (res: Option<String>)
    ensures
        match v {
            Some(h) => res matches Some(s) && s@ == prefixed_hex(hash_bytes(h)),
            None => res is None,
        },
{
    match v {
        Some(h) => Some(hash_text(h)),
        None => None,
    }
}

/// Whether an optional answer field holds the text `f` gives of the
/// optional value.
pub open spec fn optional_text<T>(res: Option<String>, v: Option<T>, f: spec_fn(T) -> Seq<char>) -> bool {
    match v {
        Some(x) => res matches Some(s) && s@ == f(x),
        None => res is None,
    }
}

/// The answer to `eth_getBlockByNumber` for a stored block: its header
/// fields, its hash, the hashes of its transactions and its size in bytes.
/// The total difficulty is reported as `0x0`; the uncles as empty; the
/// withdrawals as absent.
pub fn format_block(header: &BlockHeaderFields, hash: Hash256, tx_hashes: &Vec<Hash256>, size: u64) -> (res: RpcBlock)
    ensures
        res.number@ == quantity(header.number),
        res.hash@ == prefixed_hex(hash_bytes(hash)),
        res.parent_hash@ == prefixed_hex(hash_bytes(header.parent_hash)),
        res.nonce@ == prefixed_hex(be_bytes_u64(header.nonce)),
        res.sha3_uncles@ == prefixed_hex(hash_bytes(header.ommers_hash)),
        res.timestamp@ == quantity(header.timestamp),
        res.logs_bloom@ == prefixed_hex(header.logs_bloom@),
        res.transactions_root@ == prefixed_hex(hash_bytes(header.transactions_root)),
        res.state_root@ == prefixed_hex(hash_bytes(header.state_root)),
        res.receipts_root@ == prefixed_hex(hash_bytes(header.receipts_root)),
        res.miner@ == prefixed_hex(address_bytes(header.beneficiary)),
        res.difficulty@ == u256_quantity(header.difficulty),
        res.total_difficulty@ == seq!['0', 'x', '0'],
        res.extra_data@ == prefixed_hex(header.extra_data@),
        res.size@ == quantity(size),
        res.gas_limit@ == quantity(header.gas_limit),
        res.gas_used@ == quantity(header.gas_used),
        res.transactions@.len() == tx_hashes@.len(),
        forall|i: int| 0 <= i < tx_hashes@.len() ==> (#[trigger] res.transactions@[i])@ == prefixed_hex(hash_bytes(tx_hashes@[i])),
        res.uncles@.len() == 0,
        res.mix_hash@ == prefixed_hex(hash_bytes(header.mix_hash)),
        optional_text(res.base_fee_per_gas, header.base_fee_per_gas, |n: u64| quantity(n)),
        optional_text(res.withdrawals_root, header.withdrawals_root, |h: Hash256| prefixed_hex(hash_bytes(h))),
        res.withdrawals is None,
        optional_text(res.blob_gas_used, header.blob_gas_used, |n: u64| quantity(n)),
        optional_text(res.excess_blob_gas, header.excess_blob_gas, |n: u64| quantity(n)),
        optional_text(res.parent_beacon_block_root, header.parent_beacon_block_root, |h: Hash256| prefixed_hex(hash_bytes(h))),
{
    let mut transactions: Vec<String> = Vec::new();
    let mut i: usize = 0;
    while i < tx_hashes.len()
        invariant
            i <= tx_hashes@.len(),
            transactions@.len() == i,
            forall|j: int| 0 <= j < i ==> (#[trigger] transactions@[j])@ == prefixed_hex(hash_bytes(tx_hashes@[j])),
        decreases tx_hashes@.len() - i,
    {
        transactions.push(hash_text(tx_hashes[i]));
        i = i + 1;
    }
    let mut nonce_bytes: Vec<u8> = Vec::new();
    push_be_u64(&mut nonce_bytes, header.nonce);
    let mut miner_bytes: Vec<u8> = Vec::new();
    push_be_u32(&mut miner_bytes, header.beneficiary.hi);
    push_be_u128(&mut miner_bytes, header.beneficiary.lo);
    proof {
        assert(miner_bytes@ =~= address_bytes(header.beneficiary));
    }
    let mut total_difficulty: Vec<char> = Vec::new();
    total_difficulty.push('0');
    total_difficulty.push('x');
    total_difficulty.push('0');
    proof {
        assert(total_difficulty@ =~= seq!['0', 'x', '0']);
    }
    let base_fee_per_gas = optional_quantity(header.base_fee_per_gas);
    let withdrawals_root = optional_hash(header.withdrawals_root);
    let blob_gas_used = optional_quantity(header.blob_gas_used);
    let excess_blob_gas = optional_quantity(header.excess_blob_gas);
    let parent_beacon_block_root = optional_hash(header.parent_beacon_block_root);
    RpcBlock {
        number: quantity_hex(header.number),
        hash: hash_text(hash),
        parent_hash: hash_text(header.parent_hash),
        nonce: prefixed_hex_string(nonce_bytes.as_slice()),
        sha3_uncles: hash_text(header.ommers_hash),
        timestamp: quantity_hex(header.timestamp),
        logs_bloom: prefixed_hex_string(header.logs_bloom.as_slice()),
        transactions_root: hash_text(header.transactions_root),
        state_root: hash_text(header.state_root),
        receipts_root: hash_text(header.receipts_root),
        miner: prefixed_hex_string(miner_bytes.as_slice()),
        difficulty: u256_quantity_text(header.difficulty),
        total_difficulty: string_from_chars(total_difficulty.as_slice()),
        extra_data: prefixed_hex_string(header.extra_data.as_slice()),
        size: quantity_hex(size),
        gas_limit: quantity_hex(header.gas_limit),
        gas_used: quantity_hex(header.gas_used),
        transactions,
        uncles: Vec::new(),
        mix_hash: hash_text(header.mix_hash),
        base_fee_per_gas,
        withdrawals_root,
        withdrawals: None,
        blob_gas_used,
        excess_blob_gas,
        parent_beacon_block_root,
    }
}

} // verus!
