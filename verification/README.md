# stateless-history-node (verified core)

The storage formats, bookkeeping and decision logic of a stateless Ethereum
history node, written in Verus with their contracts proved.

## Layout

- `src/` — the verified library.
  - Storage: `wal` (framed, CRC-checked log records), `bundle` (block bundle
    payloads and their shard index), `codec` (little-endian fields),
    `bitset` (presence bitsets), `shard` (shard metadata, recovery after an
    interrupted compaction, compaction tallies), `compaction` (the
    compaction file protocol and its crash-safety proof), `table` (the
    shard table: presence, missing ranges, rollback, follow-mode and
    log-append writes, metadata validation), `records` (segment size
    totals), `hash`
    (content-hash input, file-name order).
  - Chain and network: `chain` (canonical chain tracking and reorgs),
    `p2p` (request planning, peer pool, head probes), `peers` (peer cache),
    `follow` (follow-mode decisions), `cli` (sync target range).
  - RPC: `rpc` (parameters, block tags, log filters, answer formatting).
  - Reporting: `logging` (log filters, deduplicating writer, run report
    values, TUI field text), `metrics` (ranges, percentiles), `procfs`
    (parsing of `/proc` readings), `harness` (the receipt probe harness),
    `sound` (WAV container), `text` (characters and numbers as text).
- `tests/` — tests run against the compiled library.
- `app/` — the command-line program: argument parsing, file I/O, serde
  copies of library types, and what depends on floating point.
