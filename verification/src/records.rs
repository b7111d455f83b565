//! Small records the store keeps or reports.

use vstd::prelude::*;

verus! {

/// The encoded size of a block.
#[derive(Debug, Clone, Copy, PartialEq, Eq, Structural)]
pub struct StoredBlockSize {
    pub size: u64,
}

/// Where a log sits: its block and its index in the block.
#[derive(Debug, Clone, Copy, PartialEq, Eq, Structural)]
pub struct LogIndexEntry {
    pub block_number: u64,
    pub log_index: u64,
}

/// The on-disk size of one segment group.
#[derive(Debug, Clone, PartialEq, Eq)]
pub struct SegmentDiskStats {
    pub name: String,
    pub bytes: u64,
}

/// The on-disk sizes of a store.
#[derive(Debug, Clone, PartialEq, Eq)]
pub struct StorageDiskStats {
    pub total_bytes: u64,
    pub meta_bytes: u64,
    pub peers_bytes: u64,
    pub static_total_bytes: u64,
    pub segments: Vec<SegmentDiskStats>,
}


/// The segment groups of a shard, in the order sizes are given and
/// reported.
pub open spec fn segment_name(k: int) -> Seq<char> {
    if k == 0 {
        "headers"@
    } else if k == 1 {
        "tx_hashes"@
    } else if k == 2 {
        "tx_meta"@
    } else if k == 3 {
        "receipts"@
    } else {
        "block_sizes"@
    }
}

/// The sum of group `k` over the first `n` shards.
pub open spec fn group_sum(sizes: Seq<[u64; 5]>, k: int, n: int) -> int
    decreases n,
{
    if n <= 0 {
        0
    } else {
        group_sum(sizes, k, n - 1) + sizes[n - 1]@[k]
    }
}

proof fn lemma_group_sum_grows(sizes: Seq<[u64; 5]>, k: int, n: int)
    requires
        0 <= n <= sizes.len(),
    ensures
        forall|m: int| 0 <= m <= n ==> group_sum(sizes, k, m) <= group_sum(sizes, k, n),
        group_sum(sizes, k, n) >= 0,
    decreases n,
{
    if n > 0 {
        lemma_group_sum_grows(sizes, k, n - 1);
    }
}

/// The on-disk size of each segment group over all shards, from the sizes
/// of each shard's groups (in the order of `segment_name`); `None` when a
/// total does not fit in `u64`.
pub fn segment_totals(sizes: &Vec<[u64; 5]>) -> (res: Option<Vec<SegmentDiskStats>>)
    ensures
        res is None <==> exists|k: int| 0 <= k < 5 && #[trigger] group_sum(sizes@, k, sizes@.len() as int) > u64::MAX,
        res matches Some(v) ==> v@.len() == 5 && forall|k: int| 0 <= k < 5 ==> (#[trigger] v@[k]).name@ == segment_name(k)
            && v@[k].bytes == group_sum(sizes@, k, sizes@.len() as int),
{
    let mut totals: Vec<u64> = vec![0u64, 0u64, 0u64, 0u64, 0u64];
    let mut i: usize = 0;
    while i < sizes.len()
        invariant
            i <= sizes@.len(),
            totals@.len() == 5,
            forall|k: int| 0 <= k < 5 ==> #[trigger] totals@[k] == group_sum(sizes@, k, i as int),
        decreases sizes@.len() - i,
    {
        let row = sizes[i];
        let mut k: usize = 0;
        while k < 5
            invariant
                i < sizes@.len(),
                row == sizes@[i as int],
                k <= 5,
                totals@.len() == 5,
                forall|j: int| 0 <= j < k ==> #[trigger] totals@[j] == group_sum(sizes@, j, i + 1),
                forall|j: int| k <= j < 5 ==> #[trigger] totals@[j] == group_sum(sizes@, j, i as int),
            decreases 5 - k,
        {
            match totals[k].checked_add(row[k]) {
                Some(t) => {
                    totals.set(k, t);
                },
                None => {
                    proof {
                        lemma_group_sum_grows(sizes@, k as int, sizes@.len() as int);
                        assert(group_sum(sizes@, k as int, i + 1) > u64::MAX);
                    }
                    return None;
                },
            }
            k = k + 1;
        }
        i = i + 1;
    }
    proof {
        reveal_strlit("headers");
        reveal_strlit("tx_hashes");
        reveal_strlit("tx_meta");
        reveal_strlit("receipts");
        reveal_strlit("block_sizes");
    }
    let out: Vec<SegmentDiskStats> = vec![
        SegmentDiskStats { name: "headers".to_owned(), bytes: totals[0] },
        SegmentDiskStats { name: "tx_hashes".to_owned(), bytes: totals[1] },
        SegmentDiskStats { name: "tx_meta".to_owned(), bytes: totals[2] },
        SegmentDiskStats { name: "receipts".to_owned(), bytes: totals[3] },
        SegmentDiskStats { name: "block_sizes".to_owned(), bytes: totals[4] },
    ];
    proof {
        assert forall|k: int| 0 <= k < 5 implies (#[trigger] out@[k]).name@ == segment_name(k)
            && out@[k].bytes == group_sum(sizes@, k, sizes@.len() as int) by {
            if k == 0 {
            } else if k == 1 {
            } else if k == 2 {
            } else if k == 3 {
            } else {
            }
        }
    }
    Some(out)
}

} // verus!
