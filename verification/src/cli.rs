//! Configuration values of the node and the range a historical sync covers.

use vstd::prelude::*;

verus! {

pub const DEFAULT_RPC_MAX_REQUEST_BODY_BYTES: u32 = 10485760;
pub const DEFAULT_RPC_MAX_RESPONSE_BODY_BYTES: u32 = 104857600;
pub const DEFAULT_RPC_MAX_CONNECTIONS: u32 = 100;
pub const DEFAULT_RPC_MAX_BATCH_REQUESTS: u32 = 100;
pub const DEFAULT_RPC_MAX_BLOCKS_PER_FILTER: u64 = 10000;
pub const DEFAULT_RPC_MAX_LOGS_PER_RESPONSE: u64 = 100000;
pub const DEFAULT_START_BLOCK: u64 = 10000000;
pub const DEFAULT_FAST_SYNC_CHUNK_SIZE: u64 = 16;
pub const DEFAULT_FAST_SYNC_MAX_INFLIGHT: u32 = 15;
pub const DEFAULT_FAST_SYNC_MAX_BUFFERED_BLOCKS: u64 = 2048;
pub const DEFAULT_FAST_SYNC_MAX_LOOKAHEAD_BLOCKS: u64 = 50000;
pub const DEFAULT_FAST_SYNC_BATCH_TIMEOUT_MS: u64 = 5000;
pub const DEFAULT_DB_WRITE_BATCH_BLOCKS: u64 = 512;
pub const DEFAULT_SHARD_SIZE: u64 = 10000;

/// Retention mode for stored history.
#[derive(Debug, Clone, Copy, PartialEq, Eq, Structural)]
pub enum RetentionMode {
    /// Store headers, tx hashes, and full receipts/logs.
    Full,
}

/// Source of the canonical head signal.
#[derive(Debug, Clone, Copy, PartialEq, Eq, Structural)]
pub enum HeadSource {
    /// Best-effort head from the P2P view.
    P2p,
}

/// Strategy to apply on reorg rollback.
#[derive(Debug, Clone, Copy, PartialEq, Eq, Structural)]
pub enum ReorgStrategy {
    /// Delete data above the common ancestor.
    Delete,
}

/// Benchmark mode for probe runs.
#[derive(Debug, Clone, Copy, PartialEq, Eq, Structural)]
pub enum BenchmarkMode {
    /// Normal operation (no benchmark).
    Disabled,
    /// Harness-like probe mode (headers + receipts only, no DB, no RPC).
    Probe,
    /// Full ingest benchmark (full processing + DB writes, exits after range).
    Ingest,
}

/// Arguments of `db stats`.
#[derive(Debug, Clone)]
pub struct DbStatsArgs {
    /// Override data directory for stats.
    pub data_dir: Option<String>,
    /// Print JSON instead of a table.
    pub json: bool,
}

/// Database inspection commands.
#[derive(Debug, Clone)]
pub enum DbCommand {
    /// Print storage statistics.
    Stats(DbStatsArgs),
}

/// Top-level commands.
#[derive(Debug, Clone)]
pub enum Command {
    /// Database/static-file inspection commands.
    Db(DbCommand),
}

/// The highest block a historical sync may target: the head seen at
/// startup minus the rollback window (never below 0).
pub open spec fn safe_head(head_at_startup: u64, rollback_window: u64) -> u64 {
    if head_at_startup >= rollback_window { (head_at_startup - rollback_window) as u64 } else { 0 }
}

/// The last block a historical sync targets: the requested end (the safe
/// head when none is given), capped at the safe head.
pub open spec fn target_end(end_block: Option<u64>, head: u64, rollback_window: u64) -> u64 {
    match end_block {
        Some(e) => if e <= safe_head(head, rollback_window) { e } else { safe_head(head, rollback_window) },
        None => safe_head(head, rollback_window),
    }
}

/// The blocks a historical sync covers: from `start_block` to the requested
/// end (the safe head when none is given), capped at the safe head.
pub fn compute_target_range(start_block: u64, end_block: Option<u64>, head_at_startup: u64, rollback_window: u64)
    -> (res: std::ops::RangeInclusive<u64>)
    ensures
        res@.start == start_block,
        res@.end == target_end(end_block, head_at_startup, rollback_window),
        !res@.exhausted,
{
    let safe = head_at_startup.saturating_sub(rollback_window);
    let requested_end = match end_block {
        Some(e) => e,
        None => safe,
    };
    let end = if requested_end <= safe { requested_end } else { safe };
    std::ops::RangeInclusive::new(start_block, end)
}

} // verus!
