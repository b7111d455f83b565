//! Verified core of a stateless Ethereum history node: the sharded storage
//! formats and bookkeeping, canonical chain tracking, request planning for the
//! peer-to-peer layer and the JSON-RPC parameter handling.

pub mod bitset;
pub mod bundle;
pub mod chain;
pub mod checksum;
pub mod cli;
pub mod follow;
pub mod harness;
pub mod hash;
pub mod logging;
pub mod codec;
pub mod compaction;
pub mod metrics;
pub mod p2p;
pub mod procfs;
pub mod peers;
pub mod records;
pub mod rpc;
pub mod shard;
pub mod sound;
pub mod table;
pub mod text;
pub mod wal;
