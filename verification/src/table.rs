//! The shards of a store, kept in order of their first block, and the
//! queries and updates that span shards.

use vstd::prelude::*;
use crate::bitset::{bit_in, bit_of};
use crate::bitset::{Bitset, count_true};
use crate::cli::{HeadSource, ReorgStrategy, RetentionMode};
use crate::shard::{
    lemma_wal_selection, max_set_below, rollback_start_offset, rolled_back, selection_absent_members, selection_covers,
    selection_distinct, wal_selection, ShardMeta, ShardState,
};

verus! {

/// First block of the shard holding `block`.
pub open spec fn shard_start_of(block: int, shard_size: int) -> int {
    (block / shard_size) * shard_size
}

/// A block lies in the shard starting at `start` exactly when the shard's
/// range `start..start + size` holds it.
pub proof fn lemma_in_shard(block: int, start: int, size: int)
    requires
        size > 0,
        start >= 0,
        start % size == 0,
        start <= block < start + size,
    ensures
        shard_start_of(block, size) == start,
{
    let q = start / size;
    vstd::arithmetic::div_mod::lemma_fundamental_div_mod(start, size);
    assert(start == q * size) by (nonlinear_arith)
        requires
            start == size * q + start % size,
            start % size == 0,
    ;
    assert(block == q * size + (block - start));
    vstd::arithmetic::div_mod::lemma_fundamental_div_mod_converse(block, size, q, block - start);
}

/// The shard start of a block is a multiple of the shard size at most the
/// block and less than a shard below it.
pub proof fn lemma_shard_start_bounds(block: int, size: int)
    requires
        size > 0,
        block >= 0,
    ensures
        0 <= shard_start_of(block, size) <= block,
        block < shard_start_of(block, size) + size,
        shard_start_of(block, size) % size == 0,
{
    let q = block / size;
    vstd::arithmetic::div_mod::lemma_fundamental_div_mod(block, size);
    vstd::arithmetic::div_mod::lemma_mod_bound(block, size);
    vstd::arithmetic::div_mod::lemma_div_pos_is_pos(block, size);
    assert(q * size == size * q) by (nonlinear_arith);
    assert(q * size >= 0) by (nonlinear_arith)
        requires
            q >= 0,
            size > 0,
    ;
    vstd::arithmetic::div_mod::lemma_fundamental_div_mod_converse(q * size, size, q, 0);
}

/// Every bit of a byte holding `0xFF` is set.
pub proof fn lemma_full_byte_bits(bytes: Seq<u8>, q: int, k: int)
    requires
        0 <= q < bytes.len(),
        bytes[q] == 0xFFu8,
        0 <= k < 8,
    ensures
        bit_in(bytes, 8 * q + k),
{
    vstd::arithmetic::div_mod::lemma_fundamental_div_mod_converse(8 * q + k, 8, q, k);
    let kk = k as u8;
    assert((0xFFu8 >> kk) & 1u8 == 1u8) by (bit_vector)
        requires
            kk < 8,
    ;
}

/// Between two distinct multiples of `m` lies at least `m`.
pub proof fn lemma_next_multiple(a: int, b: int, m: int)
    requires
        m > 0,
        a >= 0,
        b >= 0,
        a % m == 0,
        b % m == 0,
        a < b,
    ensures
        a + m <= b,
{
    vstd::arithmetic::div_mod::lemma_fundamental_div_mod(a, m);
    vstd::arithmetic::div_mod::lemma_fundamental_div_mod(b, m);
    let qa = a / m;
    let qb = b / m;
    assert(a + m <= b) by (nonlinear_arith)
        requires
            a == m * qa,
            b == m * qb,
            a < b,
            m > 0,
    ;
}

/// First block of the shard holding `block_number`.
pub fn shard_start(block_number: u64, shard_size: u64) -> (res: u64)
    requires
        shard_size > 0,
    ensures
        res == shard_start_of(block_number as int, shard_size as int),
{
    proof {
        lemma_shard_start_bounds(block_number as int, shard_size as int);
    }
    (block_number / shard_size) * shard_size
}

/// The blocks `a..=b`.
pub open spec fn run_blocks(a: u64, b: u64) -> Seq<u64> {
    Seq::new((b - a + 1) as nat, |i: int| (a + i) as u64)
}

/// The blocks of a sequence of runs, run after run.
pub open spec fn flatten_runs(rs: Seq<(u64, u64)>) -> Seq<u64>
    decreases rs.len(),
{
    if rs.len() == 0 {
        Seq::empty()
    } else {
        flatten_runs(rs.drop_last()) + run_blocks(rs.last().0, rs.last().1)
    }
}

/// A count of blocks as a `u64`, saturating at `u64::MAX`.
pub open spec fn saturated_count(n: nat) -> u64 {
    if n > u64::MAX { u64::MAX } else { n as u64 }
}

/// The runs of a range listing: `(start, end)` of each.
pub open spec fn range_bounds(rs: Seq<std::ops::RangeInclusive<u64>>) -> Seq<(u64, u64)> {
    rs.map_values(|r: std::ops::RangeInclusive<u64>| (r@.start, r@.end))
}

/// A strictly increasing sequence within `lo..hi` has at most `hi - lo`
/// elements.
pub proof fn lemma_increasing_len(out: Seq<u64>, lo: int, hi: int)
    requires
        forall|p: int, q: int| 0 <= p < q < out.len() ==> out[p] < out[q],
        forall|p: int| 0 <= p < out.len() ==> lo <= #[trigger] out[p] < hi,
    ensures
        out.len() <= if hi >= lo { hi - lo } else { 0 },
    decreases out.len(),
{
    if out.len() > 0 {
        let o2 = out.drop_last();
        lemma_increasing_len(o2, lo, out.last() as int);
    }
}

/// The shards of a store, ordered by their first block.
#[derive(Debug)]
pub struct ShardTable {
    pub shard_size: u64,
    pub shards: Vec<ShardState>,
}

impl ShardTable {
    /// Every shard is well formed, has the table's size and starts on a
    /// multiple of it, and the shards are in strictly increasing order.
    pub open spec fn wf(&self) -> bool {
        &&& self.shard_size > 0
        &&& forall|i: int| 0 <= i < self.shards@.len() ==> {
            let s = #[trigger] self.shards@[i];
            &&& s.wf()
            &&& s.meta.shard_size == self.shard_size
            &&& s.meta.shard_start % self.shard_size == 0
        }
        &&& forall|i: int, j: int|
            0 <= i < j < self.shards@.len() ==> self.shards@[i].meta.shard_start < self.shards@[j].meta.shard_start
    }

    /// Whether a shard starting at `start` exists.
    pub open spec fn holds_shard(&self, start: int) -> bool {
        exists|i: int| 0 <= i < self.shards@.len() && #[trigger] self.shards@[i].meta.shard_start == start
    }

    /// Whether the bit of `block` is set in its shard.
    pub open spec fn block_present(&self, block: u64) -> bool {
        let s = shard_start_of(block as int, self.shard_size as int);
        exists|i: int|
            0 <= i < self.shards@.len() && #[trigger] self.shards@[i].meta.shard_start == s
                && self.shards@[i].bitset@[block - s]
    }

    /// Whether a scan for missing blocks reports `block`: its shard does not
    /// exist, or it is not marked complete and the block's bit is clear.
    pub open spec fn block_missing(&self, block: u64) -> bool {
        let s = shard_start_of(block as int, self.shard_size as int);
        forall|i: int|
            0 <= i < self.shards@.len() && #[trigger] self.shards@[i].meta.shard_start == s
                ==> !self.shards@[i].meta.complete && !self.shards@[i].bitset@[block - s]
    }

    /// `out` lists, in strictly increasing order, exactly the missing
    /// blocks `b` with `lo <= b < hi`.
    pub open spec fn lists_missing(&self, out: Seq<u64>, lo: int, hi: int) -> bool {
        &&& forall|i: int, j: int| 0 <= i < j < out.len() ==> out[i] < out[j]
        &&& forall|i: int| 0 <= i < out.len() ==> lo <= #[trigger] out[i] < hi && self.block_missing(out[i])
        &&& forall|b: u64| lo <= b < hi && #[trigger] self.block_missing(b) ==> out.contains(b)
    }

    /// Only one shard starts at a given block.
    pub proof fn lemma_unique_start(&self, i: int, j: int)
        requires
            self.wf(),
            0 <= i < self.shards@.len(),
            0 <= j < self.shards@.len(),
            self.shards@[i].meta.shard_start == self.shards@[j].meta.shard_start,
        ensures
            i == j,
    {
        if i < j {
        } else if j < i {
        }
    }

    /// Whether a block of shard `i` is missing depends on that shard alone.
    pub proof fn lemma_missing_in_shard(&self, i: int, b: u64)
        requires
            self.wf(),
            0 <= i < self.shards@.len(),
            self.shards@[i].meta.shard_start <= b < self.shards@[i].meta.shard_start + self.shard_size,
        ensures
            shard_start_of(b as int, self.shard_size as int) == self.shards@[i].meta.shard_start,
            self.block_missing(b) == (!self.shards@[i].meta.complete
                && !self.shards@[i].bitset@[b - self.shards@[i].meta.shard_start]),
            self.block_present(b) == self.shards@[i].bitset@[b - self.shards@[i].meta.shard_start],
    {
        let s = self.shards@[i];
        lemma_in_shard(b as int, s.meta.shard_start as int, self.shard_size as int);
        assert forall|j: int| 0 <= j < self.shards@.len() && #[trigger] self.shards@[j].meta.shard_start == s.meta.shard_start
            implies j == i by {
            self.lemma_unique_start(i, j);
        }
    }

    /// A block whose shard does not exist is missing.
    pub proof fn lemma_missing_no_shard(&self, b: u64)
        requires
            !self.holds_shard(shard_start_of(b as int, self.shard_size as int)),
        ensures
            self.block_missing(b),
            !self.block_present(b),
    {
    }

    /// The blocks of `start..=end` still to be fetched, in increasing
    /// order: those whose shard does not exist, or whose shard is not
    /// complete and whose bit is clear. Empty when `end < start`. Bytes of
    /// the bitset with every bit set are passed over whole.
    pub fn missing_blocks_in_range(&self, start: u64, end: u64) -> (res: Vec<u64>)
        requires
            self.wf(),
        ensures
            self.lists_missing(res@, start as int, end + 1),
    {
        let mut out: Vec<u64> = Vec::new();
        if end < start {
            return out;
        }
        let size = self.shard_size;
        proof {
            lemma_shard_start_bounds(start as int, size as int);
            lemma_shard_start_bounds(end as int, size as int);
        }
        let first = shard_start(start, size);
        let last = shard_start(end, size);
        let mut cur = first;
        proof {
            if first > last {
                lemma_next_multiple(last as int, first as int, size as int);
            }
        }
        loop
            invariant_except_break
                self.lists_missing(out@, start as int, cur as int),
            invariant
                self.wf(),
                size == self.shard_size,
                start <= end,
                first <= start < first + size,
                last <= end < last + size,
                first <= cur <= last,
                cur % size == 0,
                last % size == 0,
            ensures
                self.lists_missing(out@, start as int, end + 1),
            decreases last - cur,
        {
            let shard_end = if cur <= u64::MAX - (size - 1) { cur + (size - 1) } else { u64::MAX };
            let local_start = if start > cur { start } else { cur };
            let local_end = if end < shard_end { end } else { shard_end };
            proof {
                self.lemma_lists_missing_extend(out@, start as int, cur as int, local_start as int);
            }
            match self.find_shard(cur) {
                None => {
                    let mut b = local_start;
                    loop
                        invariant_except_break
                            self.lists_missing(out@, start as int, b as int),
                        invariant
                            self.wf(),
                            size == self.shard_size,
                            cur % size == 0,
                            cur <= local_start <= b <= local_end,
                            start <= local_start,
                            local_end <= end,
                            local_end < cur + size,
                            !self.holds_shard(cur as int),
                        ensures
                            self.lists_missing(out@, start as int, local_end + 1),
                        decreases local_end - b,
                    {
                        proof {
                            lemma_in_shard(b as int, cur as int, size as int);
                            self.lemma_missing_no_shard(b);
                            self.lemma_lists_missing_push(out@, start as int, b);
                        }
                        out.push(b);
                        if b == local_end {
                            break;
                        }
                        b = b + 1;
                    }
                },
                Some(i) => {
                    let shard = &self.shards[i];
                    proof {
                        shard.bitset.lemma_view();
                    }
                    if shard.meta.complete {
                        proof {
                            assert forall|b: u64| start <= b && local_start <= b < local_end + 1
                                implies !#[trigger] self.block_missing(b) by {
                                self.lemma_missing_in_shard(i as int, b);
                            }
                            self.lemma_lists_missing_extend(out@, start as int, local_start as int, local_end + 1);
                        }
                    } else {
                        let bytes = shard.bitset.bytes();
                        let off_end = (local_end - cur) as usize;
                        let mut off = (local_start - cur) as usize;
                        while off <= off_end
                            invariant
                                self.wf(),
                                size == self.shard_size,
                                i < self.shards@.len(),
                                *shard == self.shards@[i as int],
                                shard.meta.shard_start == cur,
                                !shard.meta.complete,
                                bytes@ == shard.bitset.raw(),
                                shard.bitset.raw().len() == crate::bitset::bytes_for_bits(shard.bitset.size()),
                                shard.bitset.size() == size,
                                size <= usize::MAX,
                                forall|k: int| 0 <= k < shard.bitset.size() ==> #[trigger] shard.bitset@[k] == bit_in(shard.bitset.raw(), k),
                                local_start - cur <= off <= off_end + 1,
                                off_end == local_end - cur,
                                start <= local_start,
                                local_end <= end,
                                local_end < cur + size,
                                self.lists_missing(out@, start as int, cur + off),
                            decreases off_end + 1 - off,
                        {
                            if off % 8 == 0 && off_end >= 7 && off <= off_end - 7 && bytes[off / 8] == 0xFFu8 {
                                proof {
                                    assert forall|b: u64| start <= b && cur + off <= b < cur + off + 8
                                        implies !#[trigger] self.block_missing(b) by {
                                        self.lemma_missing_in_shard(i as int, b);
                                        lemma_full_byte_bits(bytes@, (off / 8) as int, b - cur - off);
                                    }
                                    self.lemma_lists_missing_extend(out@, start as int, cur + off, cur + off + 8);
                                }
                                off = off + 8;
                            } else {
                                let b = cur + off as u64;
                                proof {
                                    self.lemma_missing_in_shard(i as int, b);
                                }
                                if !shard.bitset.is_set(off) {
                                    proof {
                                        self.lemma_lists_missing_push(out@, start as int, b);
                                    }
                                    out.push(b);
                                } else {
                                    proof {
                                        self.lemma_lists_missing_extend(out@, start as int, b as int, b + 1);
                                    }
                                }
                                off = off + 1;
                            }
                        }
                    }
                },
            }
            if cur == last {
                break;
            }
            proof {
                lemma_next_multiple(cur as int, last as int, size as int);
                vstd::arithmetic::div_mod::lemma_mod_add_multiples_vanish(cur as int, size as int);
            }
            cur = cur + size;
        }
        out
    }

    /// A listing stays exact when its range grows over blocks that are not
    /// missing.
    pub proof fn lemma_lists_missing_extend(&self, out: Seq<u64>, lo: int, hi: int, hi2: int)
        requires
            self.lists_missing(out, lo, hi),
            hi <= hi2,
            forall|b: u64| lo <= b && hi <= b < hi2 ==> !#[trigger] self.block_missing(b),
        ensures
            self.lists_missing(out, lo, hi2),
    {
    }

    /// Appending the next block, when it is missing, keeps a listing exact.
    pub proof fn lemma_lists_missing_push(&self, out: Seq<u64>, lo: int, b: u64)
        requires
            self.lists_missing(out, lo, b as int),
            lo <= b,
            self.block_missing(b),
        ensures
            self.lists_missing(out.push(b), lo, b + 1),
    {
        let o2 = out.push(b);
        assert forall|x: u64| lo <= x < b + 1 && #[trigger] self.block_missing(x) implies o2.contains(x) by {
            if x < b {
                let k = choose|k: int| 0 <= k < out.len() && out[k] == x;
                assert(o2[k] == x);
            } else {
                assert(o2[out.len() as int] == x);
            }
        }
    }

    /// Every run lies in one shard, starts no later than it ends, and two
    /// consecutive runs are either in different shards or apart.
    pub open spec fn runs_split(&self, rs: Seq<(u64, u64)>) -> bool {
        &&& forall|k: int| 0 <= k < rs.len() ==> {
            let r = #[trigger] rs[k];
            &&& r.0 <= r.1
            &&& shard_start_of(r.0 as int, self.shard_size as int) == shard_start_of(r.1 as int, self.shard_size as int)
        }
        &&& forall|k: int, l: int| #![trigger rs[k], rs[l]] 0 <= k && l == k + 1 && l < rs.len() ==>
            rs[k].1 + 1 < rs[l].0
                || shard_start_of(rs[k].1 as int, self.shard_size as int) != shard_start_of(rs[l].0 as int, self.shard_size as int)
    }

    /// Appending the missing blocks `a..=b` keeps a listing exact.
    pub proof fn lemma_lists_missing_run(&self, out: Seq<u64>, lo: int, a: u64, b: u64)
        requires
            self.lists_missing(out, lo, a as int),
            lo <= a <= b,
            forall|x: u64| a <= x <= b ==> #[trigger] self.block_missing(x),
        ensures
            self.lists_missing(out + run_blocks(a, b), lo, b + 1),
    {
        let run = run_blocks(a, b);
        let o2 = out + run;
        assert forall|i: int| 0 <= i < run.len() implies #[trigger] run[i] == a + i by {}
        assert forall|i: int, j: int| 0 <= i < j < o2.len() implies o2[i] < o2[j] by {
            if j < out.len() {
            } else if i < out.len() {
                assert(o2[j] == run[j - out.len()]);
            } else {
                assert(o2[i] == run[i - out.len()]);
                assert(o2[j] == run[j - out.len()]);
            }
        }
        assert forall|i: int| 0 <= i < o2.len() implies lo <= #[trigger] o2[i] < b + 1 && self.block_missing(o2[i]) by {
            if i >= out.len() {
                assert(o2[i] == run[i - out.len()]);
            }
        }
        assert forall|x: u64| lo <= x < b + 1 && #[trigger] self.block_missing(x) implies o2.contains(x) by {
            if x < a {
                let k = choose|k: int| 0 <= k < out.len() && out[k] == x;
                assert(o2[k] == x);
            } else {
                assert(o2[out.len() + (x - a)] == x);
            }
        }
    }

    /// The maximal runs of missing blocks of `start..=end`, a run ending
    /// at each shard boundary, and their total number of blocks.
    fn missing_runs(&self, start: u64, end: u64) -> (res: (Vec<(u64, u64)>, u64))
        requires
            self.wf(),
        ensures
            self.lists_missing(flatten_runs(res.0@), start as int, end + 1),
            self.runs_split(res.0@),
            res.1 == saturated_count(flatten_runs(res.0@).len()),
    {
        let mut runs: Vec<(u64, u64)> = Vec::new();
        let mut missing: u64 = 0;
        if end < start {
            return (runs, missing);
        }
        let size = self.shard_size;
        proof {
            lemma_shard_start_bounds(start as int, size as int);
            lemma_shard_start_bounds(end as int, size as int);
        }
        let first = shard_start(start, size);
        let last = shard_start(end, size);
        let mut cur = first;
        proof {
            if first > last {
                lemma_next_multiple(last as int, first as int, size as int);
            }
        }
        loop
            invariant_except_break
                self.lists_missing(flatten_runs(runs@), start as int, cur as int),
                runs@.len() > 0 ==> runs@.last().1 < cur,
                forall|k: int| 0 <= k < runs@.len() ==> #[trigger] runs@[k].1 < cur,
            invariant
                self.wf(),
                size == self.shard_size,
                start <= end,
                first <= start < first + size,
                last <= end < last + size,
                first <= cur <= last,
                cur % size == 0,
                last % size == 0,
                self.runs_split(runs@),
                missing == saturated_count(flatten_runs(runs@).len()),
            ensures
                self.lists_missing(flatten_runs(runs@), start as int, end + 1),
                self.runs_split(runs@),
                missing == saturated_count(flatten_runs(runs@).len()),
            decreases last - cur,
        {
            let shard_end = if cur <= u64::MAX - (size - 1) { cur + (size - 1) } else { u64::MAX };
            let local_start = if start > cur { start } else { cur };
            let local_end = if end < shard_end { end } else { shard_end };
            let ghost runs0 = runs@;
            proof {
                self.lemma_lists_missing_extend(flatten_runs(runs@), start as int, cur as int, local_start as int);
                if runs@.len() > 0 {
                    lemma_shard_start_bounds(runs@.last().1 as int, size as int);
                }
                lemma_in_shard(local_start as int, cur as int, size as int);
                lemma_in_shard(local_end as int, cur as int, size as int);
            }
            match self.find_shard(cur) {
                None => {
                    proof {
                        assert forall|x: u64| local_start <= x <= local_end implies #[trigger] self.block_missing(x) by {
                            lemma_in_shard(x as int, cur as int, size as int);
                            self.lemma_missing_no_shard(x);
                        }
                        self.lemma_lists_missing_run(flatten_runs(runs@), start as int, local_start, local_end);
                        lemma_increasing_len(flatten_runs(runs@) + run_blocks(local_start, local_end), start as int, local_end + 1);
                    }
                    runs.push((local_start, local_end));
                    missing = missing.saturating_add(local_end.saturating_sub(local_start).saturating_add(1));
                    proof {
                        assert(runs@.drop_last() =~= runs0);
                    }
                },
                Some(i) => {
                    let shard = &self.shards[i];
                    proof {
                        shard.bitset.lemma_view();
                    }
                    if shard.meta.complete {
                        proof {
                            assert forall|b: u64| start <= b && local_start <= b < local_end + 1
                                implies !#[trigger] self.block_missing(b) by {
                                self.lemma_missing_in_shard(i as int, b);
                            }
                            self.lemma_lists_missing_extend(flatten_runs(runs@), start as int, local_start as int, local_end + 1);
                        }
                    } else {
                        self.append_shard_runs(i, cur, start, local_start, local_end, &mut runs, &mut missing);
                    }
                },
            }
            if cur == last {
                break;
            }
            proof {
                lemma_next_multiple(cur as int, last as int, size as int);
                vstd::arithmetic::div_mod::lemma_mod_add_multiples_vanish(cur as int, size as int);
            }
            cur = cur + size;
        }
        (runs, missing)
    }

    /// Appends the runs of missing blocks of `local_start..=local_end`, in
    /// shard `i` starting at `cur` (not complete), to `runs`, and counts
    /// them into `missing`.
    #[verifier::rlimit(40)]
    fn append_shard_runs(
        &self,
        i: usize,
        cur: u64,
        start: u64,
        local_start: u64,
        local_end: u64,
        runs: &mut Vec<(u64, u64)>,
        missing: &mut u64,
    )
        requires
            self.wf(),
            i < self.shards@.len(),
            self.shards@[i as int].meta.shard_start == cur,
            !self.shards@[i as int].meta.complete,
            cur <= local_start <= local_end < cur + self.shard_size,
            start <= local_start,
            self.lists_missing(flatten_runs(old(runs)@), start as int, local_start as int),
            self.runs_split(old(runs)@),
            forall|k: int| 0 <= k < old(runs)@.len() ==> #[trigger] old(runs)@[k].1 < cur,
            *old(missing) == saturated_count(flatten_runs(old(runs)@).len()),
        ensures
            self.lists_missing(flatten_runs(final(runs)@), start as int, local_end + 1),
            self.runs_split(final(runs)@),
            forall|k: int| 0 <= k < final(runs)@.len() ==> #[trigger] final(runs)@[k].1 <= local_end,
            *final(missing) == saturated_count(flatten_runs(final(runs)@).len()),
    {
        let size = self.shard_size;
        let shard = &self.shards[i];
        proof {
            shard.bitset.lemma_view();
            if runs@.len() > 0 {
                assert(runs@[runs@.len() - 1].1 < cur);
            }
        }
        let end = local_end;
        let off_end = (local_end - cur) as usize;
        let mut off = (local_start - cur) as usize;
        let mut current: Option<u64> = None;
        let ghost mut listed = flatten_runs(runs@);
        proof {
            assert(self.lists_missing(listed, start as int, local_start as int));
            assert forall|j: int| 0 <= j < listed.len() implies start <= #[trigger] listed[j] < local_start by {}
            lemma_increasing_len(listed, start as int, local_start as int);
        }
        while off <= off_end
            invariant
                self.wf(),
                size == self.shard_size,
                i < self.shards@.len(),
                *shard == self.shards@[i as int],
                shard.meta.shard_start == cur,
                !shard.meta.complete,
                shard.bitset.size() == size,
                size <= usize::MAX,
                local_start - cur <= off <= off_end + 1,
                off_end == local_end - cur,
                cur <= local_start,
                start <= local_start,
                local_end <= end,
                local_end < cur + size,
                cur % size == 0,
                self.lists_missing(listed, start as int, cur + off),
                self.runs_split(runs@),
                listed == flatten_runs(runs@) + match current {
                    Some(c) => run_blocks(c, (cur + off - 1) as u64),
                    None => Seq::empty(),
                },
                current matches Some(c) ==> local_start <= c < cur + off,
                current matches Some(c) ==> (c == local_start || !self.block_missing((c - 1) as u64)),
                current is None && off > local_start - cur ==> !self.block_missing((cur + off - 1) as u64),
                runs@.len() > 0 ==> runs@.last().1 < cur + off,
                runs@.len() > 0 ==> (runs@.last().1 < cur || !self.block_missing((runs@.last().1 + 1) as u64)),
                runs@.len() > 0 ==> (runs@.last().1 < cur || cur <= runs@.last().1),
                forall|k: int| 0 <= k < runs@.len() ==> #[trigger] runs@[k].1 < cur + off,
                runs@.len() > 0 ==> (current matches Some(c) ==> (runs@.last().1 + 1 < c
                    || shard_start_of(runs@.last().1 as int, size as int) != shard_start_of(c as int, size as int))),
                *missing == saturated_count(listed.len()),
                listed.len() <= cur + off - start,
            decreases off_end + 1 - off,
        {
            let b = cur + off as u64;
            proof {
                self.lemma_missing_in_shard(i as int, b);
                lemma_in_shard(b as int, cur as int, size as int);
                if runs@.len() > 0 {
                    lemma_shard_start_bounds(runs@.last().1 as int, size as int);
                }
            }
            if !shard.bitset.is_set(off) {
                proof {
                    self.lemma_lists_missing_push(listed, start as int, b);
                    let l2 = listed.push(b);
                    match current {
                        Some(c) => {
                            assert(run_blocks(c, b) =~= run_blocks(c, (b - 1) as u64).push(b));
                            assert(l2 =~= flatten_runs(runs@) + run_blocks(c, b));
                        },
                        None => {
                            assert(l2 =~= flatten_runs(runs@) + run_blocks(b, b));
                        },
                    }
                    listed = l2;
                }
                *missing = (*missing).saturating_add(1);
                if current.is_none() {
                    current = Some(b);
                }
            } else {
                proof {
                    self.lemma_lists_missing_extend(listed, start as int, b as int, b + 1);
                }
                if let Some(c) = current {
                    let ghost r0 = runs@;
                    runs.push((c, b - 1));
                    current = None;
                    proof {
                        assert(runs@.drop_last() =~= r0);
                        lemma_in_shard(c as int, cur as int, size as int);
                        lemma_in_shard((b - 1) as int, cur as int, size as int);
                    }
                }
            }
            proof {
                lemma_increasing_len(listed, start as int, cur + off + 1);
            }
            off = off + 1;
        }
        if let Some(c) = current {
            let ghost r0 = runs@;
            runs.push((c, local_end));
            proof {
                assert(runs@.drop_last() =~= r0);
                lemma_in_shard(c as int, cur as int, size as int);
                lemma_in_shard(local_end as int, cur as int, size as int);
            }
        }

    }

    /// The maximal runs of missing blocks (see `block_missing`) of
    /// `start..=end`, split at shard boundaries, in increasing order, and
    /// the number of missing blocks (saturating at `u64::MAX`). Empty when
    /// `end < start`.
    pub fn missing_ranges_in_range(&self, start: u64, end: u64) -> (res: (Vec<std::ops::RangeInclusive<u64>>, u64))
        requires
            self.wf(),
        ensures
            self.lists_missing(flatten_runs(range_bounds(res.0@)), start as int, end + 1),
            self.runs_split(range_bounds(res.0@)),
            res.1 == saturated_count(flatten_runs(range_bounds(res.0@)).len()),
    {
        let (runs, missing) = self.missing_runs(start, end);
        let mut out: Vec<std::ops::RangeInclusive<u64>> = Vec::new();
        let mut k: usize = 0;
        while k < runs.len()
            invariant
                k <= runs@.len(),
                range_bounds(out@) == runs@.subrange(0, k as int),
            decreases runs@.len() - k,
        {
            let (a, b) = runs[k];
            let ghost o0 = out@;
            let r = std::ops::RangeInclusive::new(a, b);
            assert(range_bounds(o0).len() == o0.len());
            out.push(r);
            proof {
                assert(out@ == o0.push(r));
                assert(range_bounds(out@)[k as int] == (a, b));
                assert forall|j: int| 0 <= j < k implies range_bounds(out@)[j] == range_bounds(o0)[j] by {}
                assert(range_bounds(out@) =~= runs@.subrange(0, k + 1));
            }
            k = k + 1;
        }
        proof {
            assert(runs@.subrange(0, runs@.len() as int) =~= runs@);
        }
        (out, missing)
    }

    /// An empty table of shards of `shard_size` blocks.
    pub fn new(shard_size: u64) -> (res: ShardTable)
        requires
            shard_size > 0,
        ensures
            res.wf(),
            res.shard_size == shard_size,
            res.shards@.len() == 0,
    {
        ShardTable { shard_size, shards: Vec::new() }
    }

    /// Position of the shard starting at `start`, if any.
    pub fn find_shard(&self, start: u64) -> (res: Option<usize>)
        requires
            self.wf(),
        ensures
            match res {
                Some(i) => i < self.shards@.len() && self.shards@[i as int].meta.shard_start == start,
                None => !self.holds_shard(start as int),
            },
    {
        let mut lo: usize = 0;
        let mut hi: usize = self.shards.len();
        while lo < hi
            invariant
                self.wf(),
                lo <= hi <= self.shards@.len(),
                forall|i: int| 0 <= i < lo ==> #[trigger] self.shards@[i].meta.shard_start < start,
                forall|i: int| hi <= i < self.shards@.len() ==> #[trigger] self.shards@[i].meta.shard_start > start,
            decreases hi - lo,
        {
            let mid = lo + (hi - lo) / 2;
            let s = self.shards[mid].meta.shard_start;
            if s == start {
                return Some(mid);
            } else if s < start {
                lo = mid + 1;
            } else {
                hi = mid;
            }
        }
        None
    }

    /// Whether block `number` is present (its bit is set in its shard).
    pub fn has_block(&self, number: u64) -> (res: bool)
        requires
            self.wf(),
        ensures
            res == self.block_present(number),
    {
        proof {
            lemma_shard_start_bounds(number as int, self.shard_size as int);
        }
        let start = shard_start(number, self.shard_size);
        match self.find_shard(start) {
            None => false,
            Some(i) => {
                proof {
                    self.shards@[i as int].bitset.lemma_view();
                }
                let res = self.shards[i].bitset.is_set((number - start) as usize);
                proof {
                    assert forall|j: int|
                        0 <= j < self.shards@.len() && #[trigger] self.shards@[j].meta.shard_start == start
                        implies j == i by {
                        if j < i {
                        } else if j > i {
                        }
                    }
                }
                res
            },
        }
    }
}


/// A counter of shard metadata summed over the shards of a store.
#[derive(Debug, Clone, Copy, PartialEq, Eq)]
pub enum MetaCounter {
    Blocks,
    Transactions,
    Receipts,
    Logs,
    DiskHeaders,
    DiskTransactions,
    DiskReceipts,
    DiskTotal,
}

/// The value of a counter in one shard's metadata.
pub open spec fn counter_value(m: ShardMeta, c: MetaCounter) -> int {
    match c {
        MetaCounter::Blocks => m.present_count as int,
        MetaCounter::Transactions => m.total_transactions as int,
        MetaCounter::Receipts => m.total_receipts as int,
        MetaCounter::Logs => m.total_logs as int,
        MetaCounter::DiskHeaders => m.disk_bytes_headers as int,
        MetaCounter::DiskTransactions => m.disk_bytes_transactions as int,
        MetaCounter::DiskReceipts => m.disk_bytes_receipts as int,
        MetaCounter::DiskTotal => m.disk_bytes_total as int,
    }
}

/// The sum of a counter over shards.
pub open spec fn counter_sum(shards: Seq<ShardState>, c: MetaCounter) -> int
    decreases shards.len(),
{
    if shards.len() == 0 {
        0
    } else {
        counter_sum(shards.drop_last(), c) + counter_value(shards.last().meta, c)
    }
}

/// The number of shards satisfying a flag test.
pub open spec fn count_sorted(shards: Seq<ShardState>) -> nat
    decreases shards.len(),
{
    if shards.len() == 0 {
        0
    } else {
        count_sorted(shards.drop_last()) + if shards.last().meta.sorted { 1nat } else { 0nat }
    }
}

/// The number of shards ready to be sealed: complete, sorted, not sealed.
pub open spec fn count_ready_to_seal(shards: Seq<ShardState>) -> nat
    decreases shards.len(),
{
    if shards.len() == 0 {
        0
    } else {
        count_ready_to_seal(shards.drop_last()) + if shards.last().meta.complete && shards.last().meta.sorted
            && !shards.last().meta.sealed { 1nat } else { 0nat }
    }
}

/// Statistics summed over all shards.
#[derive(Debug, Clone, Copy, PartialEq, Eq)]
pub struct StorageAggregateStats {
    pub total_blocks: u64,
    pub total_transactions: u64,
    pub total_receipts: u64,
    pub total_logs: u64,
    pub total_shards: u64,
    pub compacted_shards: u64,
    pub disk_bytes_headers: u64,
    pub disk_bytes_transactions: u64,
    pub disk_bytes_receipts: u64,
    pub disk_bytes_total: u64,
}

/// `acc` carries the running sum of a counter, or `None` once it no longer
/// fits in `u64`.
pub open spec fn carries(acc: Option<u64>, sum: int) -> bool {
    match acc {
        Some(v) => v == sum,
        None => sum > u64::MAX,
    }
}

fn add_counter(acc: Option<u64>, x: u64) -> (res: Option<u64>)
    ensures
        forall|sum: int| sum >= 0 && carries(acc, sum) ==> carries(res, sum + x),
{
    match acc {
        Some(v) => v.checked_add(x),
        None => None,
    }
}

/// Sums of a counter never go below zero.
pub proof fn lemma_counter_sum_nonneg(shards: Seq<ShardState>, c: MetaCounter)
    ensures
        counter_sum(shards, c) >= 0,
    decreases shards.len(),
{
    if shards.len() > 0 {
        lemma_counter_sum_nonneg(shards.drop_last(), c);
    }
}

/// The sums start at zero over no shards, and adding a shard adds its own
/// metadata field to each: present blocks, transactions, receipts, logs,
/// and header, transaction, receipt and total disk bytes.
pub proof fn lemma_counter_sums_add_fields(shards: Seq<ShardState>, s: ShardState)
    ensures
        forall|c: MetaCounter| #[trigger] counter_sum(Seq::<ShardState>::empty(), c) == 0,
        counter_sum(shards.push(s), MetaCounter::Blocks) == counter_sum(shards, MetaCounter::Blocks) + s.meta.present_count,
        counter_sum(shards.push(s), MetaCounter::Transactions) == counter_sum(shards, MetaCounter::Transactions)
            + s.meta.total_transactions,
        counter_sum(shards.push(s), MetaCounter::Receipts) == counter_sum(shards, MetaCounter::Receipts) + s.meta.total_receipts,
        counter_sum(shards.push(s), MetaCounter::Logs) == counter_sum(shards, MetaCounter::Logs) + s.meta.total_logs,
        counter_sum(shards.push(s), MetaCounter::DiskHeaders) == counter_sum(shards, MetaCounter::DiskHeaders)
            + s.meta.disk_bytes_headers,
        counter_sum(shards.push(s), MetaCounter::DiskTransactions) == counter_sum(shards, MetaCounter::DiskTransactions)
            + s.meta.disk_bytes_transactions,
        counter_sum(shards.push(s), MetaCounter::DiskReceipts) == counter_sum(shards, MetaCounter::DiskReceipts)
            + s.meta.disk_bytes_receipts,
        counter_sum(shards.push(s), MetaCounter::DiskTotal) == counter_sum(shards, MetaCounter::DiskTotal)
            + s.meta.disk_bytes_total,
{
    assert(shards.push(s).drop_last() =~= shards);
}

/// Counting shards: none over no shards, and adding a shard adds one to
/// the sorted count exactly when it is sorted, and one to the count ready
/// to seal exactly when it is complete, sorted and not sealed.
pub proof fn lemma_shard_counts_add(shards: Seq<ShardState>, s: ShardState)
    ensures
        count_sorted(Seq::<ShardState>::empty()) == 0,
        count_ready_to_seal(Seq::<ShardState>::empty()) == 0,
        count_sorted(shards.push(s)) == count_sorted(shards) + (if s.meta.sorted { 1int } else { 0int }),
        count_ready_to_seal(shards.push(s)) == count_ready_to_seal(shards)
            + (if s.meta.complete && s.meta.sorted && !s.meta.sealed { 1int } else { 0int }),
{
    assert(shards.push(s).drop_last() =~= shards);
}

/// A store of one shard reports that shard's own counters.
pub proof fn lemma_counter_sums_one_shard(s: ShardState)
    ensures
        counter_sum(seq![s], MetaCounter::Blocks) == s.meta.present_count,
        counter_sum(seq![s], MetaCounter::Transactions) == s.meta.total_transactions,
        counter_sum(seq![s], MetaCounter::Receipts) == s.meta.total_receipts,
        counter_sum(seq![s], MetaCounter::Logs) == s.meta.total_logs,
        counter_sum(seq![s], MetaCounter::DiskHeaders) == s.meta.disk_bytes_headers,
        counter_sum(seq![s], MetaCounter::DiskTransactions) == s.meta.disk_bytes_transactions,
        counter_sum(seq![s], MetaCounter::DiskReceipts) == s.meta.disk_bytes_receipts,
        counter_sum(seq![s], MetaCounter::DiskTotal) == s.meta.disk_bytes_total,
{
    lemma_counter_sums_add_fields(Seq::<ShardState>::empty(), s);
    assert(Seq::<ShardState>::empty().push(s) =~= seq![s]);
}

/// Running sums of the eight counters.
struct CounterSums {
    blocks: Option<u64>,
    txs: Option<u64>,
    receipts: Option<u64>,
    logs: Option<u64>,
    dh: Option<u64>,
    dt: Option<u64>,
    dr: Option<u64>,
    dtotal: Option<u64>,
}

impl CounterSums {
    spec fn carries_all(&self, p: Seq<ShardState>) -> bool {
        &&& carries(self.blocks, counter_sum(p, MetaCounter::Blocks))
        &&& carries(self.txs, counter_sum(p, MetaCounter::Transactions))
        &&& carries(self.receipts, counter_sum(p, MetaCounter::Receipts))
        &&& carries(self.logs, counter_sum(p, MetaCounter::Logs))
        &&& carries(self.dh, counter_sum(p, MetaCounter::DiskHeaders))
        &&& carries(self.dt, counter_sum(p, MetaCounter::DiskTransactions))
        &&& carries(self.dr, counter_sum(p, MetaCounter::DiskReceipts))
        &&& carries(self.dtotal, counter_sum(p, MetaCounter::DiskTotal))
    }

    fn add_shard(&mut self, Ghost(p): Ghost<Seq<ShardState>>, s: &ShardState)
        requires
            old(self).carries_all(p),
        ensures
            final(self).carries_all(p.push(*s)),
    {
        let m = &s.meta;
        self.blocks = add_counter_of(self.blocks, Ghost(p), s, Ghost(MetaCounter::Blocks), m.present_count as u64);
        self.txs = add_counter_of(self.txs, Ghost(p), s, Ghost(MetaCounter::Transactions), m.total_transactions);
        self.receipts = add_counter_of(self.receipts, Ghost(p), s, Ghost(MetaCounter::Receipts), m.total_receipts);
        self.logs = add_counter_of(self.logs, Ghost(p), s, Ghost(MetaCounter::Logs), m.total_logs);
        self.dh = add_counter_of(self.dh, Ghost(p), s, Ghost(MetaCounter::DiskHeaders), m.disk_bytes_headers);
        self.dt = add_counter_of(self.dt, Ghost(p), s, Ghost(MetaCounter::DiskTransactions), m.disk_bytes_transactions);
        self.dr = add_counter_of(self.dr, Ghost(p), s, Ghost(MetaCounter::DiskReceipts), m.disk_bytes_receipts);
        self.dtotal = add_counter_of(self.dtotal, Ghost(p), s, Ghost(MetaCounter::DiskTotal), m.disk_bytes_total);
    }
}

/// Adds one shard's value `x` of counter `c` to the running sum over `p`.
fn add_counter_of(acc: Option<u64>, Ghost(p): Ghost<Seq<ShardState>>, s: &ShardState, Ghost(c): Ghost<MetaCounter>, x: u64) -> (res: Option<u64>)
    requires
        carries(acc, counter_sum(p, c)),
        x == counter_value(s.meta, c),
    ensures
        carries(res, counter_sum(p.push(*s), c)),
{
    proof {
        assert(p.push(*s).drop_last() =~= p);
        lemma_counter_sum_nonneg(p, c);
    }
    add_counter(acc, x)
}

impl ShardTable {
    /// Sums of the shards' counters, the number of shards and of sorted
    /// shards; `None` when a sum does not fit in `u64`.
    pub fn aggregate_stats(&self) -> (res: Option<StorageAggregateStats>)
        requires
            self.wf(),
        ensures
            ({
                let s = self.shards@;
                let fits = counter_sum(s, MetaCounter::Blocks) <= u64::MAX
                    && counter_sum(s, MetaCounter::Transactions) <= u64::MAX
                    && counter_sum(s, MetaCounter::Receipts) <= u64::MAX
                    && counter_sum(s, MetaCounter::Logs) <= u64::MAX
                    && counter_sum(s, MetaCounter::DiskHeaders) <= u64::MAX
                    && counter_sum(s, MetaCounter::DiskTransactions) <= u64::MAX
                    && counter_sum(s, MetaCounter::DiskReceipts) <= u64::MAX
                    && counter_sum(s, MetaCounter::DiskTotal) <= u64::MAX;
                &&& res is Some <==> fits
                &&& res matches Some(st) ==> {
                    &&& st.total_blocks == counter_sum(s, MetaCounter::Blocks)
                    &&& st.total_transactions == counter_sum(s, MetaCounter::Transactions)
                    &&& st.total_receipts == counter_sum(s, MetaCounter::Receipts)
                    &&& st.total_logs == counter_sum(s, MetaCounter::Logs)
                    &&& st.total_shards == s.len()
                    &&& st.compacted_shards == count_sorted(s)
                    &&& st.disk_bytes_headers == counter_sum(s, MetaCounter::DiskHeaders)
                    &&& st.disk_bytes_transactions == counter_sum(s, MetaCounter::DiskTransactions)
                    &&& st.disk_bytes_receipts == counter_sum(s, MetaCounter::DiskReceipts)
                    &&& st.disk_bytes_total == counter_sum(s, MetaCounter::DiskTotal)
                }
            }),
    {
        let mut acc = CounterSums {
            blocks: Some(0),
            txs: Some(0),
            receipts: Some(0),
            logs: Some(0),
            dh: Some(0),
            dt: Some(0),
            dr: Some(0),
            dtotal: Some(0),
        };
        let mut sorted: u64 = 0;
        let mut k: usize = 0;
        let n = self.shards.len();
        proof {
            assert(self.shards@.take(0) =~= Seq::<ShardState>::empty());
        }
        while k < n
            invariant
                n == self.shards@.len(),
                k <= n,
                n <= usize::MAX,
                acc.carries_all(self.shards@.take(k as int)),
                sorted == count_sorted(self.shards@.take(k as int)),
                sorted <= k,
            decreases n - k,
        {
            proof {
                assert(self.shards@.take(k + 1) =~= self.shards@.take(k as int).push(self.shards@[k as int]));
                assert(self.shards@.take(k + 1).drop_last() =~= self.shards@.take(k as int));
            }
            acc.add_shard(Ghost(self.shards@.take(k as int)), &self.shards[k]);
            if self.shards[k].meta.sorted {
                sorted = sorted + 1;
            }
            k = k + 1;
        }
        proof {
            assert(self.shards@.take(n as int) =~= self.shards@);
        }
        match (acc.blocks, acc.txs, acc.receipts, acc.logs, acc.dh, acc.dt, acc.dr, acc.dtotal) {
            (Some(b), Some(t), Some(r), Some(l), Some(h), Some(x), Some(y), Some(z)) => Some(StorageAggregateStats {
                total_blocks: b,
                total_transactions: t,
                total_receipts: r,
                total_logs: l,
                total_shards: n as u64,
                compacted_shards: sorted,
                disk_bytes_headers: h,
                disk_bytes_transactions: x,
                disk_bytes_receipts: y,
                disk_bytes_total: z,
            }),
            _ => None,
        }
    }

    /// The number of shards ready to be sealed.
    pub fn count_shards_to_seal(&self) -> (res: u64)
        requires
            self.wf(),
        ensures
            res == count_ready_to_seal(self.shards@),
    {
        let mut count: u64 = 0;
        let mut k: usize = 0;
        let n = self.shards.len();
        while k < n
            invariant
                n == self.shards@.len(),
                k <= n,
                n <= usize::MAX,
                count == count_ready_to_seal(self.shards@.take(k as int)),
                count <= k,
            decreases n - k,
        {
            proof {
                assert(self.shards@.take(k + 1).drop_last() =~= self.shards@.take(k as int));
            }
            if self.shards[k].ready_to_seal() {
                count = count + 1;
            }
            k = k + 1;
        }
        proof {
            assert(self.shards@.take(n as int) =~= self.shards@);
        }
        count
    }
}


/// The highest present block of a shard, if any.
pub open spec fn shard_max_block(s: ShardState) -> Option<int> {
    match max_set_below(s.bitset@, s.meta.shard_size as int) {
        Some(o) => Some(s.meta.shard_start + o),
        None => None,
    }
}

/// The highest present block of a shard lies in the shard.
pub proof fn lemma_max_set_below_bounds(bits: Seq<bool>, n: int)
    ensures
        max_set_below(bits, n) matches Some(o) ==> 0 <= o < n && o < bits.len() && bits[o],
    decreases n,
{
    if n > 0 {
        lemma_max_set_below_bounds(bits, n - 1);
    }
}

/// The highest present block over shards, if any.
pub open spec fn max_present_over(shards: Seq<ShardState>) -> Option<int>
    decreases shards.len(),
{
    if shards.len() == 0 {
        None
    } else {
        let rest = max_present_over(shards.drop_last());
        match (rest, shard_max_block(shards.last())) {
            (None, x) => x,
            (x, None) => x,
            (Some(a), Some(b)) => Some(if a >= b { a } else { b }),
        }
    }
}

/// A freshly created shard: empty metadata (see `ShardMeta::new_empty`) and
/// an all-clear bitset of `size` bits.
pub open spec fn is_fresh_shard(s: ShardState, start: u64, size: u64) -> bool {
    &&& s.wf()
    &&& s.meta.shard_start == start
    &&& s.meta.shard_size == size
    &&& s.meta.present_count == 0
    &&& !s.meta.complete
    &&& s.meta.sorted
    &&& !s.meta.sealed
    &&& s.meta.tail_block is None
    &&& s.meta.content_hash is None
    &&& s.meta.compaction_phase is None
    &&& s.meta.total_transactions == 0
    &&& s.meta.total_receipts == 0
    &&& s.meta.total_logs == 0
    &&& s.meta.disk_bytes_total == 0
    &&& s.bitset.padding_clear()
    &&& forall|i: int| 0 <= i < size ==> !#[trigger] s.bitset@[i]
}

/// A shard with pending log data to compact.
#[derive(Debug, Clone, Copy, PartialEq, Eq)]
pub struct DirtyShardInfo {
    pub shard_start: u64,
    pub wal_bytes: u64,
}

/// The dirty shards (log not empty, or not sorted) with their log sizes.
pub open spec fn dirty_list(shards: Seq<ShardState>, wal_bytes: Seq<u64>) -> Seq<DirtyShardInfo>
    decreases shards.len(),
{
    if shards.len() == 0 || wal_bytes.len() < shards.len() {
        Seq::empty()
    } else {
        let n = shards.len() - 1;
        let rest = dirty_list(shards.drop_last(), wal_bytes);
        if wal_bytes[n] > 0 || !shards[n].meta.sorted {
            rest.push(DirtyShardInfo { shard_start: shards[n].meta.shard_start, wal_bytes: wal_bytes[n] })
        } else {
            rest
        }
    }
}

/// The complete shards that still have a log or are not sorted.
pub open spec fn dirty_complete_list(shards: Seq<ShardState>, wal_exists: Seq<bool>) -> Seq<u64>
    decreases shards.len(),
{
    if shards.len() == 0 || wal_exists.len() < shards.len() {
        Seq::empty()
    } else {
        let n = shards.len() - 1;
        let rest = dirty_complete_list(shards.drop_last(), wal_exists);
        if shards[n].meta.complete && (wal_exists[n] || !shards[n].meta.sorted) {
            rest.push(shards[n].meta.shard_start)
        } else {
            rest
        }
    }
}

/// What rolling the whole table back to `ancestor_number` leaves: the same
/// shards, each that reaches above the ancestor rolled back (see
/// `rolled_back`), the others unchanged.
pub open spec fn table_rolled_back(before: ShardTable, after: ShardTable, ancestor_number: u64) -> bool {
    &&& after.wf()
    &&& after.shard_size == before.shard_size
    &&& after.shards@.len() == before.shards@.len()
    &&& forall|i: int| 0 <= i < before.shards@.len() ==> {
        let o = #[trigger] before.shards@[i];
        let n = after.shards@[i];
        if ancestor_number < o.meta.shard_start + before.shard_size - 1 {
            rolled_back(o, n, ancestor_number)
        } else {
            n == o
        }
    }
}

/// A rollback to `ancestor_number` keeps exactly the present blocks that
/// are not above it: afterwards a block is present if and only if it was
/// present before and is at most the ancestor.
pub proof fn lemma_rollback_presence(before: ShardTable, after: ShardTable, ancestor_number: u64, b: u64)
    requires
        before.wf(),
        table_rolled_back(before, after, ancestor_number),
    ensures
        after.block_present(b) == (before.block_present(b) && b <= ancestor_number),
{
    let size = before.shard_size as int;
    let s = shard_start_of(b as int, size);
    lemma_shard_start_bounds(b as int, size);
    if before.holds_shard(s) {
        let i = choose|i: int| 0 <= i < before.shards@.len() && #[trigger] before.shards@[i].meta.shard_start == s;
        let o = before.shards@[i];
        let n = after.shards@[i];
        assert(n.meta.shard_start == o.meta.shard_start);
        before.lemma_missing_in_shard(i, b);
        after.lemma_missing_in_shard(i, b);
        o.bitset.lemma_view();
        n.bitset.lemma_view();
        let off = b - s;
        if ancestor_number < o.meta.shard_start + size - 1 {
            let so = rollback_start_offset(o.meta.shard_start, ancestor_number);
            assert(n.bitset@[off] == if off >= so { false } else { o.bitset@[off] });
        }
    } else {
        before.lemma_missing_no_shard(b);
        assert(!after.holds_shard(s)) by {
            if after.holds_shard(s) {
                let j = choose|j: int| 0 <= j < after.shards@.len() && #[trigger] after.shards@[j].meta.shard_start == s;
                assert(before.shards@[j].meta.shard_start == s);
            }
        }
        after.lemma_missing_no_shard(b);
    }
}

/// A set bit below `n` is at most the highest one `max_set_below` finds.
pub proof fn lemma_max_set_below_max(bits: Seq<bool>, n: int, o: int)
    requires
        0 <= o < n,
        o < bits.len(),
        bits[o],
    ensures
        max_set_below(bits, n) matches Some(m) && o <= m,
    decreases n,
{
    if n - 1 < bits.len() && bits[n - 1] {
    } else {
        lemma_max_set_below_max(bits, n - 1, o);
    }
}

impl ShardTable {
    /// Whether `b` is present through one of the first `j` shards.
    pub open spec fn present_in_first(&self, j: int, b: u64) -> bool {
        let s = shard_start_of(b as int, self.shard_size as int);
        exists|i: int|
            0 <= i < j && #[trigger] self.shards@[i].meta.shard_start == s && self.shards@[i].bitset@[b - s]
    }

    /// `max_present_over` of the first `j` shards is their highest present
    /// block: present itself, and no present block above it.
    pub proof fn lemma_max_present_prefix(&self, j: int)
        requires
            self.wf(),
            0 <= j <= self.shards@.len(),
        ensures
            max_present_over(self.shards@.take(j)) matches Some(m) ==> 0 <= m <= u64::MAX && self.present_in_first(j, m as u64),
            forall|b: u64| #[trigger] self.present_in_first(j, b) ==> (max_present_over(self.shards@.take(j)) matches Some(m) && b <= m),
        decreases j,
    {
        if j > 0 {
            self.lemma_max_present_prefix(j - 1);
            let sh = self.shards@.take(j);
            assert(sh.drop_last() =~= self.shards@.take(j - 1));
            let last = self.shards@[j - 1];
            assert(sh.last() == last);
            let size = self.shard_size as int;
            lemma_max_set_below_bounds(last.bitset@, size);
            match shard_max_block(last) {
                Some(x) => {
                    let o = x - last.meta.shard_start;
                    lemma_in_shard(x, last.meta.shard_start as int, size);
                    assert(self.present_in_first(j, x as u64));
                },
                None => {},
            }
            match max_present_over(self.shards@.take(j - 1)) {
                Some(m) => {
                    let i = choose|i: int| 0 <= i < j - 1 && #[trigger] self.shards@[i].meta.shard_start
                        == shard_start_of(m, size) && self.shards@[i].bitset@[m - shard_start_of(m, size)];
                    assert(self.present_in_first(j, m as u64));
                },
                None => {},
            }
            assert forall|b: u64| #[trigger] self.present_in_first(j, b) implies (max_present_over(self.shards@.take(j)) matches Some(m) && b <= m) by {
                let st = shard_start_of(b as int, size);
                let i = choose|i: int| 0 <= i < j && #[trigger] self.shards@[i].meta.shard_start == st && self.shards@[i].bitset@[b - st];
                if i < j - 1 {
                    assert(self.present_in_first(j - 1, b));
                } else {
                    lemma_shard_start_bounds(b as int, size);
                    last.bitset.lemma_view();
                    lemma_max_set_below_max(last.bitset@, size, b - st);
                }
            }
        }
    }

    /// The highest present block of the table, as `max_present_over`
    /// computes it: present itself, no present block above it, and `None`
    /// exactly when no block is present.
    pub proof fn lemma_max_present(&self)
        requires
            self.wf(),
        ensures
            max_present_over(self.shards@) matches Some(m) ==> 0 <= m <= u64::MAX && self.block_present(m as u64)
                && forall|b: u64| #[trigger] self.block_present(b) ==> b <= m,
            max_present_over(self.shards@) is None ==> forall|b: u64| !#[trigger] self.block_present(b),
    {
        let n = self.shards@.len() as int;
        self.lemma_max_present_prefix(n);
        assert(self.shards@.take(n) =~= self.shards@);
        assert forall|b: u64| #[trigger] self.block_present(b) implies self.present_in_first(n, b) by {}
        match max_present_over(self.shards@) {
            Some(m) => {
                assert(self.present_in_first(n, m as u64));
            },
            None => {},
        }
    }
}

impl ShardTable {
    /// The highest present block over all shards.
    pub fn recompute_max_present(&self) -> (res: Option<u64>)
        requires
            self.wf(),
        ensures
            match max_present_over(self.shards@) {
                Some(m) => res == Some(m as u64),
                None => res is None,
            },
            res matches Some(m) ==> self.block_present(m) && forall|b: u64| #[trigger] self.block_present(b) ==> b <= m,
            res is None ==> forall|b: u64| !#[trigger] self.block_present(b),
    {
        proof {
            self.lemma_max_present();
        }
        let mut best: Option<u64> = None;
        let mut k: usize = 0;
        let n = self.shards.len();
        while k < n
            invariant
                self.wf(),
                n == self.shards@.len(),
                k <= n,
                match max_present_over(self.shards@.take(k as int)) {
                    Some(m) => best == Some(m as u64) && 0 <= m <= u64::MAX,
                    None => best is None,
                },
            decreases n - k,
        {
            proof {
                assert(self.shards@.take(k + 1).drop_last() =~= self.shards@.take(k as int));
                assert(self.shards@[k as int].wf());
                lemma_max_set_below_bounds(self.shards@[k as int].bitset@, self.shard_size as int);
            }
            let m = self.shards[k].max_present(self.shard_size);
            best = match (best, m) {
                (None, x) => x,
                (x, None) => x,
                (Some(a), Some(b)) => Some(if a >= b { a } else { b }),
            };
            k = k + 1;
        }
        proof {
            assert(self.shards@.take(n as int) =~= self.shards@);
        }
        best
    }

    /// The dirty shards, in order, given the size of each shard's log.
    pub fn dirty_shards(&self, wal_bytes: &Vec<u64>) -> (res: Vec<DirtyShardInfo>)
        requires
            self.wf(),
            wal_bytes@.len() == self.shards@.len(),
        ensures
            res@ == dirty_list(self.shards@, wal_bytes@),
    {
        let mut out: Vec<DirtyShardInfo> = Vec::new();
        let mut k: usize = 0;
        let n = self.shards.len();
        while k < n
            invariant
                self.wf(),
                n == self.shards@.len(),
                wal_bytes@.len() == n,
                k <= n,
                out@ == dirty_list(self.shards@.take(k as int), wal_bytes@),
            decreases n - k,
        {
            proof {
                assert(self.shards@.take(k + 1).drop_last() =~= self.shards@.take(k as int));
            }
            if self.shards[k].is_dirty(wal_bytes[k]) {
                out.push(DirtyShardInfo { shard_start: self.shards[k].meta.shard_start, wal_bytes: wal_bytes[k] });
            }
            k = k + 1;
        }
        proof {
            assert(self.shards@.take(n as int) =~= self.shards@);
        }
        out
    }

    /// The starts of the complete shards that still have a log or are not
    /// sorted, in order, given whether each shard's log exists.
    pub fn dirty_complete_shards(&self, wal_exists: &Vec<bool>) -> (res: Vec<u64>)
        requires
            self.wf(),
            wal_exists@.len() == self.shards@.len(),
        ensures
            res@ == dirty_complete_list(self.shards@, wal_exists@),
    {
        let mut out: Vec<u64> = Vec::new();
        let mut k: usize = 0;
        let n = self.shards.len();
        while k < n
            invariant
                self.wf(),
                n == self.shards@.len(),
                wal_exists@.len() == n,
                k <= n,
                out@ == dirty_complete_list(self.shards@.take(k as int), wal_exists@),
            decreases n - k,
        {
            proof {
                assert(self.shards@.take(k + 1).drop_last() =~= self.shards@.take(k as int));
            }
            let m = &self.shards[k].meta;
            if m.complete && (wal_exists[k] || !m.sorted) {
                out.push(m.shard_start);
            }
            k = k + 1;
        }
        proof {
            assert(self.shards@.take(n as int) =~= self.shards@);
        }
        out
    }

    /// The position of the shard starting at `shard_start`, creating it
    /// (empty) when it does not exist; also whether it was created.
    pub fn get_or_create_shard(&mut self, shard_start: u64) -> (res: (usize, bool))
        requires
            old(self).wf(),
            shard_start % old(self).shard_size == 0,
            shard_start + old(self).shard_size <= u64::MAX,
            old(self).shard_size <= usize::MAX,
        ensures
            final(self).wf(),
            final(self).shard_size == old(self).shard_size,
            res.0 < final(self).shards@.len(),
            final(self).shards@[res.0 as int].meta.shard_start == shard_start,
            res.1 == !old(self).holds_shard(shard_start as int),
            !res.1 ==> final(self).shards@ == old(self).shards@,
            res.1 ==> final(self).shards@ == old(self).shards@.insert(res.0 as int, final(self).shards@[res.0 as int]),
            res.1 ==> final(self).shards@.len() == old(self).shards@.len() + 1,
            res.1 ==> forall|j: int| 0 <= j < res.0 ==> #[trigger] final(self).shards@[j] == old(self).shards@[j],
            res.1 ==> forall|j: int| res.0 < j < final(self).shards@.len() ==> #[trigger] final(self).shards@[j] == old(self).shards@[j - 1],
            res.1 ==> is_fresh_shard(final(self).shards@[res.0 as int], shard_start, old(self).shard_size),
    {
        if let Some(i) = self.find_shard(shard_start) {
            return (i, false);
        }
        let mut pos: usize = 0;
        while pos < self.shards.len() && self.shards[pos].meta.shard_start < shard_start
            invariant
                self.wf(),
                pos <= self.shards@.len(),
                forall|i: int| 0 <= i < pos ==> #[trigger] self.shards@[i].meta.shard_start < shard_start,
            decreases self.shards@.len() - pos,
        {
            pos = pos + 1;
        }
        let size = self.shard_size;
        let meta = ShardMeta::new_empty(shard_start, size);
        let bitset = Bitset::new(size as usize);
        let state = ShardState { meta, bitset };
        let ghost old_shards = self.shards@;
        self.shards.insert(pos, state);
        proof {
            assert forall|j: int| 0 <= j < pos implies #[trigger] self.shards@[j] == old_shards[j] by {}
            assert forall|j: int| pos < j < self.shards@.len() implies #[trigger] self.shards@[j] == old_shards[j - 1] by {}
            assert forall|i: int| pos < i < self.shards@.len() implies #[trigger] self.shards@[i].meta.shard_start > shard_start by {
                assert(self.shards@[i] == old_shards[i - 1]);
                if pos < old_shards.len() {
                    assert(old_shards[pos as int].meta.shard_start >= shard_start);
                    assert(old_shards[pos as int].meta.shard_start != shard_start);
                }
            }
        }
        (pos, true)
    }

    /// Rolls every shard that holds blocks above `ancestor_number` back to
    /// it (see `rolled_back`), and returns the highest block still present.
    pub fn rollback_to(&mut self, ancestor_number: u64) -> (res: Option<u64>)
        requires
            old(self).wf(),
        ensures
            final(self).wf(),
            table_rolled_back(*old(self), *final(self), ancestor_number),
            forall|b: u64| #[trigger] final(self).block_present(b) == (old(self).block_present(b) && b <= ancestor_number),
            match max_present_over(final(self).shards@) {
                Some(m) => res == Some(m as u64),
                None => res is None,
            },
            res matches Some(m) ==> m <= ancestor_number && old(self).block_present(m)
                && forall|b: u64| #[trigger] old(self).block_present(b) && b <= ancestor_number ==> b <= m,
            res is None ==> forall|b: u64| #[trigger] old(self).block_present(b) ==> b > ancestor_number,
    {
        let size = self.shard_size;
        let n = self.shards.len();
        let mut k: usize = 0;
        while k < n
            invariant
                self.wf(),
                self.shard_size == size,
                size == old(self).shard_size,
                n == self.shards@.len(),
                n == old(self).shards@.len(),
                k <= n,
                forall|i: int| 0 <= i < n ==> #[trigger] self.shards@[i].meta.shard_start == old(self).shards@[i].meta.shard_start,
                forall|i: int| 0 <= i < k ==> {
                    let o = #[trigger] old(self).shards@[i];
                    let c = self.shards@[i];
                    if ancestor_number < o.meta.shard_start + size - 1 {
                        rolled_back(o, c, ancestor_number)
                    } else {
                        c == o
                    }
                },
                forall|i: int| k <= i < n ==> #[trigger] self.shards@[i] == old(self).shards@[i],
            decreases n - k,
        {
            let shard_end = self.shards[k].meta.shard_start + (size - 1);
            if ancestor_number < shard_end {
                let ghost before = self.shards@;
                let mut st = self.shards.remove(k);
                proof {
                    assert(st == before[k as int]);
                }
                st.apply_rollback(ancestor_number);
                self.shards.insert(k, st);
                proof {
                    assert forall|i: int| 0 <= i < n && i != k implies #[trigger] self.shards@[i] == before[i] by {}
                }
            }
            k = k + 1;
        }
        proof {
            assert forall|b: u64| #[trigger] self.block_present(b) == (old(self).block_present(b) && b <= ancestor_number) by {
                lemma_rollback_presence(*old(self), *self, ancestor_number, b);
            }
        }
        let res = self.recompute_max_present();
        proof {
            match res {
                Some(m) => {
                    assert(self.block_present(m));
                    assert forall|b: u64| #[trigger] old(self).block_present(b) && b <= ancestor_number implies b <= m by {
                        assert(self.block_present(b));
                    }
                },
                None => {
                    assert forall|b: u64| #[trigger] old(self).block_present(b) implies b > ancestor_number by {
                        assert(!self.block_present(b));
                    }
                },
            }
        }
        res
    }
}

/// The store-wide metadata (`meta.json`).
#[derive(Debug, Clone, Copy, PartialEq, Eq)]
pub struct StorageConfigKey {
    pub retention_mode: RetentionMode,
    pub head_source: HeadSource,
    pub reorg_strategy: ReorgStrategy,
}

/// The store-wide metadata.
#[derive(Debug, Clone, Copy, PartialEq, Eq)]
pub struct StorageMeta {
    pub schema_version: u64,
    pub chain_id: u64,
    pub storage_key: StorageConfigKey,
    pub shard_size: u64,
    pub max_present_block: Option<u64>,
    pub head_seen: Option<u64>,
}

/// Why stored metadata does not match the configuration.
#[derive(Debug, Clone, Copy, PartialEq, Eq)]
pub enum MetaMismatch {
    ChainId { expected: u64, got: u64 },
    StorageConfig { expected: StorageConfigKey, got: StorageConfigKey },
    ShardSize { expected: u64, got: u64 },
}

/// The version of the store's layout that this library reads and writes.
pub const SCHEMA_VERSION: u64 = 2;

/// Why a store's metadata cannot be opened with a configuration.
#[derive(Debug, Clone, Copy, PartialEq, Eq)]
pub enum OpenMetaError {
    /// The stored metadata was made for another configuration.
    Mismatch(MetaMismatch),
    /// The store has another layout version.
    SchemaVersion { expected: u64, got: u64 },
}

/// The metadata a store is opened with: the stored one, or, when none is
/// stored, fresh metadata for the configuration. It must match the
/// configuration (see `StorageMeta::validate`) and then have the current
/// layout version.
pub fn open_meta(stored: Option<StorageMeta>, chain_id: u64, key: StorageConfigKey, shard_size: u64) -> (res: Result<StorageMeta, OpenMetaError>)
    ensures
        ({
            let m = match stored {
                Some(m) => m,
                None => StorageMeta {
                    schema_version: SCHEMA_VERSION,
                    chain_id,
                    storage_key: key,
                    shard_size,
                    max_present_block: None,
                    head_seen: None,
                },
            };
            &&& m.chain_id != chain_id ==> res == Err::<StorageMeta, OpenMetaError>(OpenMetaError::Mismatch(
                MetaMismatch::ChainId { expected: chain_id, got: m.chain_id }))
            &&& m.chain_id == chain_id && m.storage_key != key ==> res == Err::<StorageMeta, OpenMetaError>(
                OpenMetaError::Mismatch(MetaMismatch::StorageConfig { expected: key, got: m.storage_key }))
            &&& m.chain_id == chain_id && m.storage_key == key && m.shard_size != shard_size ==> res == Err::<StorageMeta, OpenMetaError>(
                OpenMetaError::Mismatch(MetaMismatch::ShardSize { expected: shard_size, got: m.shard_size }))
            &&& m.chain_id == chain_id && m.storage_key == key && m.shard_size == shard_size && m.schema_version != SCHEMA_VERSION
                ==> res == Err::<StorageMeta, OpenMetaError>(OpenMetaError::SchemaVersion { expected: SCHEMA_VERSION, got: m.schema_version })
            &&& m.chain_id == chain_id && m.storage_key == key && m.shard_size == shard_size && m.schema_version == SCHEMA_VERSION
                ==> res == Ok::<StorageMeta, OpenMetaError>(m)
        }),
{
    let m = match stored {
        Some(m) => m,
        None => StorageMeta {
            schema_version: SCHEMA_VERSION,
            chain_id,
            storage_key: key,
            shard_size,
            max_present_block: None,
            head_seen: None,
        },
    };
    match m.validate(chain_id, key, shard_size) {
        Err(e) => Err(OpenMetaError::Mismatch(e)),
        Ok(()) => if m.schema_version != SCHEMA_VERSION {
            Err(OpenMetaError::SchemaVersion { expected: SCHEMA_VERSION, got: m.schema_version })
        } else {
            Ok(m)
        },
    }
}

impl StorageMeta {
    /// Checks the stored metadata against the configured chain, storage
    /// settings and shard size, in that order; the first mismatch is the
    /// error.
    pub fn validate(&self, chain_id: u64, key: StorageConfigKey, shard_size: u64) -> (res: Result<(), MetaMismatch>)
        ensures
            self.chain_id != chain_id ==> res == Err::<(), MetaMismatch>(MetaMismatch::ChainId { expected: chain_id, got: self.chain_id }),
            self.chain_id == chain_id && self.storage_key != key ==> res == Err::<(), MetaMismatch>(
                MetaMismatch::StorageConfig { expected: key, got: self.storage_key }),
            self.chain_id == chain_id && self.storage_key == key && self.shard_size != shard_size ==> res == Err::<(), MetaMismatch>(
                MetaMismatch::ShardSize { expected: shard_size, got: self.shard_size }),
            self.chain_id == chain_id && self.storage_key == key && self.shard_size == shard_size ==> res is Ok,
    {
        if self.chain_id != chain_id {
            return Err(MetaMismatch::ChainId { expected: chain_id, got: self.chain_id });
        }
        let same_key = self.storage_key.retention_mode == key.retention_mode
            && self.storage_key.head_source == key.head_source
            && self.storage_key.reorg_strategy == key.reorg_strategy;
        if !same_key {
            return Err(MetaMismatch::StorageConfig { expected: key, got: self.storage_key });
        }
        if self.shard_size != shard_size {
            return Err(MetaMismatch::ShardSize { expected: shard_size, got: self.shard_size });
        }
        Ok(())
    }

    /// Raises the highest present block to `block`; returns whether it
    /// changed (and the metadata must be saved).
    pub fn bump_max_present(&mut self, block: u64) -> (changed: bool)
        ensures
            changed == match old(self).max_present_block {
                None => true,
                Some(c) => block > c,
            },
            final(self).max_present_block == if changed { Some(block) } else { old(self).max_present_block },
            final(self).head_seen == old(self).head_seen,
            final(self).shard_size == old(self).shard_size,
            final(self).chain_id == old(self).chain_id,
            final(self).storage_key == old(self).storage_key,
            final(self).schema_version == old(self).schema_version,
    {
        match self.max_present_block {
            None => {
                self.max_present_block = Some(block);
                true
            },
            Some(current) => {
                if block > current {
                    self.max_present_block = Some(block);
                    true
                } else {
                    false
                }
            },
        }
    }

    /// Raises the highest present block to each block of `numbers` at the
    /// positions `written`, in turn, as a log append does for the blocks it
    /// wrote; returns whether it changed.
    pub fn bump_for_written(&mut self, numbers: &Vec<u64>, written: &Vec<usize>) -> (changed: bool)
        requires
            forall|k: int| 0 <= k < written@.len() ==> #[trigger] written@[k] < numbers@.len(),
        ensures
            final(self).max_present_block == raise_max(old(self).max_present_block, written_blocks(numbers@, written@)),
            changed == (final(self).max_present_block != old(self).max_present_block),
            written@.len() > 0 ==> (final(self).max_present_block matches Some(m)
                && (forall|k: int| 0 <= k < written@.len() ==> numbers@[#[trigger] written@[k] as int] <= m)
                && (old(self).max_present_block matches Some(c) ==> c <= m)),
            final(self).head_seen == old(self).head_seen,
            final(self).shard_size == old(self).shard_size,
            final(self).chain_id == old(self).chain_id,
            final(self).storage_key == old(self).storage_key,
            final(self).schema_version == old(self).schema_version,
    {
        let before = self.max_present_block;
        let ghost start = self.max_present_block;
        let ghost vals = written_blocks(numbers@, written@);
        let mut i: usize = 0;
        while i < written.len()
            invariant
                i <= written@.len(),
                vals == written_blocks(numbers@, written@),
                forall|k: int| 0 <= k < written@.len() ==> #[trigger] written@[k] < numbers@.len(),
                self.max_present_block == raise_max(start, vals.take(i as int)),
                self.head_seen == old(self).head_seen,
                self.shard_size == old(self).shard_size,
                self.chain_id == old(self).chain_id,
                self.storage_key == old(self).storage_key,
                self.schema_version == old(self).schema_version,
                start == old(self).max_present_block,
            decreases written@.len() - i,
        {
            let b = numbers[written[i]];
            proof {
                assert(vals.take(i as int + 1).drop_last() =~= vals.take(i as int));
            }
            self.bump_max_present(b);
            i = i + 1;
        }
        proof {
            assert(vals.take(i as int) =~= vals);
            lemma_raise_max_bounds(start, vals);
            assert forall|k: int| 0 <= k < written@.len() implies #[trigger] numbers@[written@[k] as int] == vals[k] by {}
        }
        match (before, self.max_present_block) {
            (None, None) => false,
            (Some(a), Some(b)) => a != b,
            _ => true,
        }
    }
}

/// The blocks of `numbers` at the positions `written`.
pub open spec fn written_blocks(numbers: Seq<u64>, written: Seq<usize>) -> Seq<u64> {
    written.map_values(|p: usize| numbers[p as int])
}

/// The highest of `cur` and the blocks `vals`.
pub open spec fn raise_max(cur: Option<u64>, vals: Seq<u64>) -> Option<u64>
    decreases vals.len(),
{
    if vals.len() == 0 {
        cur
    } else {
        let b = vals.last();
        match raise_max(cur, vals.drop_last()) {
            None => Some(b),
            Some(c) => if b > c { Some(b) } else { Some(c) },
        }
    }
}

/// `raise_max` of a non-empty list is at least each of its blocks and at
/// least the starting value.
pub proof fn lemma_raise_max_bounds(cur: Option<u64>, vals: Seq<u64>)
    ensures
        vals.len() > 0 ==> raise_max(cur, vals) is Some,
        raise_max(cur, vals) matches Some(m) ==> (forall|k: int| 0 <= k < vals.len() ==> #[trigger] vals[k] <= m)
            && (cur matches Some(c) ==> c <= m),
    decreases vals.len(),
{
    if vals.len() > 0 {
        let rest = vals.drop_last();
        lemma_raise_max_bounds(cur, rest);
        if let Some(m) = raise_max(cur, vals) {
            assert forall|k: int| 0 <= k < vals.len() implies #[trigger] vals[k] <= m by {
                if k < vals.len() - 1 {
                    assert(rest[k] == vals[k]);
                }
            }
        }
    }
}


/// Whether `c` is one of `starts`.
pub open spec fn has_start(starts: Seq<u64>, c: int) -> bool {
    exists|h: int| 0 <= h < starts.len() && starts[h] == c
}

/// Groups the positions of `numbers` by the shard of their block: one group
/// per shard, in order of first appearance, each listing its positions in
/// increasing order.
pub fn group_by_shard(numbers: &Vec<u64>, shard_size: u64) -> (res: Vec<(u64, Vec<usize>)>)
    requires
        shard_size > 0,
    ensures
        forall|g: int, h: int| 0 <= g < h < res@.len() ==> res@[g].0 != res@[h].0,
        forall|g: int| 0 <= g < res@.len() ==> {
            let grp = #[trigger] res@[g];
            &&& forall|p: int, q: int| 0 <= p < q < grp.1@.len() ==> grp.1@[p] < grp.1@[q]
            &&& forall|p: int| 0 <= p < grp.1@.len() ==> #[trigger] grp.1@[p] < numbers@.len()
            &&& forall|i: int| 0 <= i < numbers@.len() ==> (grp.1@.contains(i as usize)
                <==> shard_start_of(numbers@[i] as int, shard_size as int) == grp.0)
        },
        forall|i: int| 0 <= i < numbers@.len() ==> has_start(
            res@.map_values(|grp: (u64, Vec<usize>)| grp.0), #[trigger] shard_start_of(numbers@[i] as int, shard_size as int)),
{
    let n = numbers.len();
    let mut starts: Vec<u64> = Vec::new();
    let mut i: usize = 0;
    while i < n
        invariant
            n == numbers@.len(),
            i <= n,
            shard_size > 0,
            forall|g: int, h: int| 0 <= g < h < starts@.len() ==> starts@[g] != starts@[h],
            forall|j: int| 0 <= j < i ==> has_start(starts@, #[trigger] shard_start_of(numbers@[j] as int, shard_size as int)),
        decreases n - i,
    {
        proof {
            lemma_shard_start_bounds(numbers@[i as int] as int, shard_size as int);
        }
        let st = shard_start(numbers[i], shard_size);
        let mut found = false;
        let mut g: usize = 0;
        while g < starts.len()
            invariant
                g <= starts@.len(),
                found == exists|h: int| 0 <= h < g && starts@[h] == st,
            decreases starts@.len() - g,
        {
            if starts[g] == st {
                found = true;
            }
            g = g + 1;
        }
        let ghost s0 = starts@;
        if !found {
            starts.push(st);
        }
        proof {
            assert forall|j: int| 0 <= j < i + 1 implies has_start(starts@, #[trigger] shard_start_of(numbers@[j] as int, shard_size as int)) by {
                let c = shard_start_of(numbers@[j] as int, shard_size as int);
                if j == i {
                    if found {
                        let h = choose|h: int| 0 <= h < starts@.len() && starts@[h] == st;
                        assert(starts@[h] == c);
                    } else {
                        assert(starts@[starts@.len() - 1] == c);
                    }
                } else {
                    assert(has_start(s0, c));
                    let h = choose|h: int| 0 <= h < s0.len() && s0[h] == c;
                    assert(starts@[h] == c);
                }
            }
        }
        i = i + 1;
    }
    let mut res: Vec<(u64, Vec<usize>)> = Vec::new();
    let mut g: usize = 0;
    while g < starts.len()
        invariant
            n == numbers@.len(),
            shard_size > 0,
            g <= starts@.len(),
            res@.len() == g,
            forall|a: int, b: int| 0 <= a < b < starts@.len() ==> starts@[a] != starts@[b],
            forall|j: int| 0 <= j < n ==> has_start(starts@, #[trigger] shard_start_of(numbers@[j] as int, shard_size as int)),
            forall|a: int| 0 <= a < g ==> #[trigger] res@[a].0 == starts@[a],
            forall|a: int| 0 <= a < g ==> {
                let grp = #[trigger] res@[a];
                &&& forall|p: int, q: int| 0 <= p < q < grp.1@.len() ==> grp.1@[p] < grp.1@[q]
                &&& forall|p: int| 0 <= p < grp.1@.len() ==> #[trigger] grp.1@[p] < numbers@.len()
                &&& forall|j: int| 0 <= j < numbers@.len() ==> (grp.1@.contains(j as usize)
                    <==> shard_start_of(numbers@[j] as int, shard_size as int) == grp.0)
            },
        decreases starts@.len() - g,
    {
        let st = starts[g];
        let mut members: Vec<usize> = Vec::new();
        let mut j: usize = 0;
        while j < n
            invariant
                n == numbers@.len(),
                shard_size > 0,
                j <= n,
                forall|p: int, q: int| 0 <= p < q < members@.len() ==> members@[p] < members@[q],
                forall|p: int| 0 <= p < members@.len() ==> #[trigger] members@[p] < j,
                forall|k: int| 0 <= k < j ==> (members@.contains(k as usize)
                    <==> shard_start_of(numbers@[k] as int, shard_size as int) == st),
            decreases n - j,
        {
            proof {
                lemma_shard_start_bounds(numbers@[j as int] as int, shard_size as int);
            }
            let ghost m0 = members@;
            if shard_start(numbers[j], shard_size) == st {
                members.push(j);
            }
            proof {
                assert forall|k: int| 0 <= k < j + 1 implies (members@.contains(k as usize)
                    <==> shard_start_of(numbers@[k] as int, shard_size as int) == st) by {
                    if members@.contains(k as usize) && k < j {
                        let p = choose|p: int| 0 <= p < members@.len() && members@[p] == k as usize;
                        if p == m0.len() {
                        } else {
                            assert(m0[p] == k as usize);
                        }
                    }
                    if k < j && m0.contains(k as usize) {
                        let p = choose|p: int| 0 <= p < m0.len() && m0[p] == k as usize;
                        assert(members@[p] == k as usize);
                    }
                    if k == j && shard_start_of(numbers@[k] as int, shard_size as int) == st {
                        assert(members@[members@.len() - 1] == j);
                    }
                }
            }
            j = j + 1;
        }
        res.push((st, members));
        g = g + 1;
    }
    proof {
        let ks = res@.map_values(|grp: (u64, Vec<usize>)| grp.0);
        assert(ks =~= starts@);
    }
    res
}

/// What a log append of the blocks `numbers` must take, as positions into
/// `numbers`: only blocks not present in `before`, no block twice, and every
/// block not present once.
pub open spec fn wal_plan_ok(before: ShardTable, numbers: Seq<u64>, plan: Seq<usize>) -> bool {
    &&& forall|k: int| 0 <= k < plan.len() ==> #[trigger] plan[k] < numbers.len()
        && !before.block_present(numbers[plan[k] as int])
    &&& forall|p: int, q: int| 0 <= p < q < plan.len() ==> numbers[#[trigger] plan[p] as int] != numbers[#[trigger] plan[q] as int]
    &&& forall|i: int| 0 <= i < numbers.len() && !before.block_present(#[trigger] numbers[i])
        ==> exists|k: int| 0 <= k < plan.len() && numbers[plan[k] as int] == numbers[i]
}

/// Whether one of the first `g` groups is for the shard starting at `st`.
pub open spec fn start_in_first(groups: Seq<(u64, Vec<usize>)>, g: int, st: int) -> bool {
    exists|h: int| 0 <= h < g && #[trigger] groups[h].0 == st
}

/// The groups of `group_by_shard`: distinct shard starts, each listing
/// exactly the positions of `numbers` whose block is in that shard, and
/// every block's shard among them.
pub open spec fn groups_ok(numbers: Seq<u64>, gs: Seq<(u64, Vec<usize>)>, size: int) -> bool {
    &&& forall|a: int, c: int| 0 <= a < c < gs.len() ==> gs[a].0 != gs[c].0
    &&& forall|h: int| 0 <= h < gs.len() ==> {
        let grp = #[trigger] gs[h];
        &&& forall|p: int| 0 <= p < grp.1@.len() ==> #[trigger] grp.1@[p] < numbers.len()
        &&& forall|i: int| 0 <= i < numbers.len() ==> (grp.1@.contains(i as usize)
            <==> shard_start_of(numbers[i] as int, size) == grp.0)
    }
    &&& forall|i: int| 0 <= i < numbers.len() ==> has_start(
        gs.map_values(|grp: (u64, Vec<usize>)| grp.0), #[trigger] shard_start_of(numbers[i] as int, size))
}

/// The plan after the first `g` groups: blocks not present in `t`, each
/// once, in the shards of those groups, and every such block of those
/// shards taken.
#[verifier::opaque]
pub open spec fn plan_inv(t: ShardTable, numbers: Seq<u64>, gs: Seq<(u64, Vec<usize>)>, g: int, size: int, out: Seq<usize>) -> bool {
    &&& forall|k: int| 0 <= k < out.len() ==> #[trigger] out[k] < numbers.len() && !t.block_present(numbers[out[k] as int])
        && start_in_first(gs, g, shard_start_of(numbers[out[k] as int] as int, size))
    &&& forall|p: int, q: int| 0 <= p < q < out.len() ==> numbers[#[trigger] out[p] as int] != numbers[#[trigger] out[q] as int]
    &&& forall|i: int| 0 <= i < numbers.len() && !t.block_present(#[trigger] numbers[i])
        && start_in_first(gs, g, shard_start_of(numbers[i] as int, size))
        ==> exists|k: int| 0 <= k < out.len() && numbers[out[k] as int] == numbers[i]
}

proof fn lemma_group_member(numbers: Seq<u64>, gs: Seq<(u64, Vec<usize>)>, size: int, g: int, k: int)
    requires
        groups_ok(numbers, gs, size),
        0 <= g < gs.len(),
        0 <= k < gs[g].1@.len(),
    ensures
        gs[g].1@[k] < numbers.len(),
        shard_start_of(numbers[gs[g].1@[k] as int] as int, size) == gs[g].0,
{
    let grp = gs[g];
    assert(grp.1@[k] < numbers.len());
    assert(grp.1@.contains(grp.1@[k]));
}

proof fn lemma_plan_extend(t: ShardTable, numbers: Seq<u64>, gs: Seq<(u64, Vec<usize>)>, g: int, size: int,
    out: Seq<usize>, sh: ShardState, sv: Seq<usize>)
    requires
        groups_ok(numbers, gs, size),
        0 <= g < gs.len(),
        numbers.len() <= usize::MAX,
        plan_inv(t, numbers, gs, g, size, out),
        sh.meta.shard_start == gs[g].0,
        forall|b: u64| shard_start_of(b as int, size) == gs[g].0 ==> #[trigger] t.block_present(b) == sh.bitset@[b - gs[g].0],
        sv == wal_selection(sh, numbers, gs[g].1@),
    ensures
        plan_inv(t, numbers, gs, g + 1, size, out + sv),
{
    reveal(plan_inv);
    lemma_wal_selection(sh, numbers, gs[g].1@);
    lemma_plan_extend_taken(t, numbers, gs, g, size, out, sh, sv);
    lemma_plan_extend_distinct(t, numbers, gs, g, size, out, sh, sv);
    lemma_plan_extend_covers(t, numbers, gs, g, size, out, sh, sv);
}

#[verifier::spinoff_prover]
proof fn lemma_plan_extend_taken(t: ShardTable, numbers: Seq<u64>, gs: Seq<(u64, Vec<usize>)>, g: int, size: int,
    out: Seq<usize>, sh: ShardState, sv: Seq<usize>)
    requires
        groups_ok(numbers, gs, size),
        0 <= g < gs.len(),
        numbers.len() <= usize::MAX,
        forall|k: int| 0 <= k < out.len() ==> #[trigger] out[k] < numbers.len() && !t.block_present(numbers[out[k] as int])
            && start_in_first(gs, g, shard_start_of(numbers[out[k] as int] as int, size)),
        sh.meta.shard_start == gs[g].0,
        forall|b: u64| shard_start_of(b as int, size) == gs[g].0 ==> #[trigger] t.block_present(b) == sh.bitset@[b - gs[g].0],
        selection_absent_members(sh, numbers, gs[g].1@, sv),
    ensures
        forall|k: int| 0 <= k < (out + sv).len() ==> #[trigger] (out + sv)[k] < numbers.len()
            && !t.block_present(numbers[(out + sv)[k] as int])
            && start_in_first(gs, g + 1, shard_start_of(numbers[(out + sv)[k] as int] as int, size)),
{
    let members = gs[g].1@;
    let st = gs[g].0;
    let o2 = out + sv;
    let og = out.len();
    assert forall|k: int| 0 <= k < o2.len() implies #[trigger] o2[k] < numbers.len() && !t.block_present(numbers[o2[k] as int])
        && start_in_first(gs, g + 1, shard_start_of(numbers[o2[k] as int] as int, size)) by {
        if k < og {
            assert(o2[k] == out[k]);
            let st0 = shard_start_of(numbers[out[k] as int] as int, size);
            let h = choose|h: int| 0 <= h < g && #[trigger] gs[h].0 == st0;
            assert(0 <= h < g + 1 && gs[h].0 == st0);
        } else {
            assert(o2[k] == sv[k - og]);
            let j = choose|j: int| 0 <= j < members.len() && members[j] == #[trigger] sv[k - og];
            lemma_group_member(numbers, gs, size, g, j);
            let m = sv[k - og];
            assert(t.block_present(numbers[m as int]) == sh.bitset@[numbers[m as int] - st]);
            assert(gs[g].0 == st);
        }
    }
}

#[verifier::spinoff_prover]
proof fn lemma_plan_extend_distinct(t: ShardTable, numbers: Seq<u64>, gs: Seq<(u64, Vec<usize>)>, g: int, size: int,
    out: Seq<usize>, sh: ShardState, sv: Seq<usize>)
    requires
        groups_ok(numbers, gs, size),
        0 <= g < gs.len(),
        numbers.len() <= usize::MAX,
        forall|k: int| 0 <= k < out.len() ==> #[trigger] out[k] < numbers.len()
            && start_in_first(gs, g, shard_start_of(numbers[out[k] as int] as int, size)),
        forall|p: int, q: int| 0 <= p < q < out.len() ==> numbers[#[trigger] out[p] as int] != numbers[#[trigger] out[q] as int],
        selection_absent_members(sh, numbers, gs[g].1@, sv),
        selection_distinct(numbers, sv),
    ensures
        forall|p: int, q: int| 0 <= p < q < (out + sv).len() ==> numbers[#[trigger] (out + sv)[p] as int] != numbers[#[trigger] (out + sv)[q] as int],
{
    let members = gs[g].1@;
    let o2 = out + sv;
    let og = out.len();
    assert forall|p: int, q: int| 0 <= p < q < o2.len() implies numbers[#[trigger] o2[p] as int] != numbers[#[trigger] o2[q] as int] by {
        if q < og {
            assert(o2[p] == out[p] && o2[q] == out[q]);
        } else if p >= og {
            assert(o2[p] == sv[p - og] && o2[q] == sv[q - og]);
        } else {
            assert(o2[p] == out[p] && o2[q] == sv[q - og]);
            let j = choose|j: int| 0 <= j < members.len() && members[j] == #[trigger] sv[q - og];
            lemma_group_member(numbers, gs, size, g, j);
            let st0 = shard_start_of(numbers[out[p] as int] as int, size);
            let h = choose|h: int| 0 <= h < g && #[trigger] gs[h].0 == st0;
            assert(gs[h].0 != gs[g].0);
        }
    }
}

#[verifier::spinoff_prover]
proof fn lemma_plan_extend_covers(t: ShardTable, numbers: Seq<u64>, gs: Seq<(u64, Vec<usize>)>, g: int, size: int,
    out: Seq<usize>, sh: ShardState, sv: Seq<usize>)
    requires
        groups_ok(numbers, gs, size),
        0 <= g < gs.len(),
        numbers.len() <= usize::MAX,
        forall|i: int| 0 <= i < numbers.len() && !t.block_present(#[trigger] numbers[i])
            && start_in_first(gs, g, shard_start_of(numbers[i] as int, size))
            ==> exists|k: int| 0 <= k < out.len() && numbers[out[k] as int] == numbers[i],
        sh.meta.shard_start == gs[g].0,
        forall|b: u64| shard_start_of(b as int, size) == gs[g].0 ==> #[trigger] t.block_present(b) == sh.bitset@[b - gs[g].0],
        selection_covers(sh, numbers, gs[g].1@, sv),
    ensures
        forall|i: int| 0 <= i < numbers.len() && !t.block_present(#[trigger] numbers[i])
            && start_in_first(gs, g + 1, shard_start_of(numbers[i] as int, size))
            ==> exists|k: int| 0 <= k < (out + sv).len() && numbers[(out + sv)[k] as int] == numbers[i],
{
    let members = gs[g].1@;
    let st = gs[g].0;
    let o2 = out + sv;
    let og = out.len();
    assert forall|x: int| 0 <= x < numbers.len() && !t.block_present(#[trigger] numbers[x])
        && start_in_first(gs, g + 1, shard_start_of(numbers[x] as int, size))
        implies exists|k: int| 0 <= k < o2.len() && numbers[o2[k] as int] == numbers[x] by {
        let stx = shard_start_of(numbers[x] as int, size);
        if start_in_first(gs, g, stx) {
            let k = choose|k: int| 0 <= k < out.len() && numbers[out[k] as int] == numbers[x];
            assert(o2[k] == out[k]);
        } else {
            let h = choose|h: int| 0 <= h < g + 1 && #[trigger] gs[h].0 == stx;
            assert(h == g);
            let grp = gs[g];
            assert(grp.1@.contains(x as usize));
            let j = choose|j: int| 0 <= j < members.len() && members[j] == x as usize;
            assert(members[j] as int == x);
            assert(t.block_present(numbers[x]) == sh.bitset@[numbers[x] - st]);
            assert(!sh.bitset@[numbers[#[trigger] members[j] as int] - sh.meta.shard_start]);
            let pp = choose|pp: int| 0 <= pp < sv.len() && numbers[#[trigger] sv[pp] as int] == numbers[members[j] as int];
            assert(o2[og + pp] == sv[pp]);
        }
    }
}

proof fn lemma_plan_skip_empty(t: ShardTable, numbers: Seq<u64>, gs: Seq<(u64, Vec<usize>)>, g: int, size: int, out: Seq<usize>)
    requires
        groups_ok(numbers, gs, size),
        0 <= g < gs.len(),
        gs[g].1@.len() == 0,
        plan_inv(t, numbers, gs, g, size, out),
    ensures
        plan_inv(t, numbers, gs, g + 1, size, out),
{
    reveal(plan_inv);
    assert forall|k: int| 0 <= k < out.len() implies #[trigger] out[k] < numbers.len() && !t.block_present(numbers[out[k] as int])
        && start_in_first(gs, g + 1, shard_start_of(numbers[out[k] as int] as int, size)) by {
        let st0 = shard_start_of(numbers[out[k] as int] as int, size);
        let h = choose|h: int| 0 <= h < g && #[trigger] gs[h].0 == st0;
        assert(0 <= h < g + 1 && gs[h].0 == st0);
    }
    assert forall|x: int| 0 <= x < numbers.len() && !t.block_present(#[trigger] numbers[x])
        && start_in_first(gs, g + 1, shard_start_of(numbers[x] as int, size))
        implies exists|k: int| 0 <= k < out.len() && numbers[out[k] as int] == numbers[x] by {
        let stx = shard_start_of(numbers[x] as int, size);
        let h = choose|h: int| 0 <= h < g + 1 && #[trigger] gs[h].0 == stx;
        if h == g {
            let grp = gs[g];
            assert(grp.1@.contains(x as usize));
            assert(false);
        }
        assert(start_in_first(gs, g, stx));
    }
}

proof fn lemma_plan_done(t: ShardTable, numbers: Seq<u64>, gs: Seq<(u64, Vec<usize>)>, size: int, out: Seq<usize>)
    requires
        groups_ok(numbers, gs, size),
        plan_inv(t, numbers, gs, gs.len() as int, size, out),
    ensures
        wal_plan_ok(t, numbers, out),
{
    reveal(plan_inv);
    assert forall|x: int| 0 <= x < numbers.len() && !t.block_present(#[trigger] numbers[x])
        implies exists|k: int| 0 <= k < out.len() && numbers[out[k] as int] == numbers[x] by {
        let stx = shard_start_of(numbers[x] as int, size);
        let ss = gs.map_values(|grp: (u64, Vec<usize>)| grp.0);
        assert(has_start(ss, stx));
        let h = choose|h: int| 0 <= h < ss.len() && ss[h] == stx;
        assert(gs[h].0 == stx);
        assert(start_in_first(gs, gs.len() as int, stx));
    }
}

impl ShardTable {
    /// Creating a missing shard (all of its bits clear) leaves every
    /// block's presence as it was.
    proof fn lemma_created_shard_presence(before: ShardTable, after: ShardTable, pos: int)
        requires
            before.wf(),
            after.wf(),
            after.shard_size == before.shard_size,
            0 <= pos <= before.shards@.len(),
            pos < after.shards@.len(),
            after.shards@ == before.shards@.insert(pos, after.shards@[pos]),
            forall|i: int| 0 <= i < after.shard_size ==> !#[trigger] after.shards@[pos].bitset@[i],
        ensures
            forall|b: u64| #[trigger] after.block_present(b) == before.block_present(b),
    {
        let size = before.shard_size as int;
        before.shards@.insert_ensures(pos, after.shards@[pos]);
        assert forall|b: u64| #[trigger] after.block_present(b) == before.block_present(b) by {
            let s = shard_start_of(b as int, size);
            lemma_shard_start_bounds(b as int, size);
            if after.block_present(b) {
                let j = choose|j: int| 0 <= j < after.shards@.len() && #[trigger] after.shards@[j].meta.shard_start == s
                    && after.shards@[j].bitset@[b - s];
                let ins = before.shards@.insert(pos, after.shards@[pos]);
                if j < pos {
                    assert(ins[j] == before.shards@[j]);
                } else if j > pos {
                    assert(ins[j] == before.shards@[j - 1]);
                } else {
                    assert(!after.shards@[pos].bitset@[b - s]);
                }
            }
            if before.block_present(b) {
                let j = choose|j: int| 0 <= j < before.shards@.len() && #[trigger] before.shards@[j].meta.shard_start == s
                    && before.shards@[j].bitset@[b - s];
                let ins = before.shards@.insert(pos, after.shards@[pos]);
                if j < pos {
                    assert(ins[j] == before.shards@[j]);
                } else {
                    assert(ins[j + 1] == before.shards@[j]);
                }
            }
        }
    }

    /// Plans a log append of the blocks `numbers`: groups them by shard,
    /// creates the shards that do not exist yet (with no block present),
    /// and in each shard takes the blocks not present, each once (see
    /// `wal_plan_ok`). Presence is unchanged: a log append marks nothing
    /// present until the shard is compacted.
    pub fn plan_wal_write(&mut self, numbers: &Vec<u64>) -> (res: Vec<usize>)
        requires
            old(self).wf(),
            old(self).shard_size <= usize::MAX,
            forall|i: int| 0 <= i < numbers@.len() ==> shard_start_of(#[trigger] numbers@[i] as int, old(self).shard_size as int)
                + old(self).shard_size <= u64::MAX,
        ensures
            final(self).wf(),
            final(self).shard_size == old(self).shard_size,
            forall|b: u64| #[trigger] final(self).block_present(b) == old(self).block_present(b),
            wal_plan_ok(*old(self), numbers@, res@),
    {
        let size = self.shard_size;
        let groups = group_by_shard(numbers, size);
        let ghost gs = groups@;
        let ghost start = *self;
        proof {
            assert(groups_ok(numbers@, gs, size as int));
            reveal(plan_inv);
        }
        let n_numbers = numbers.len();
        let mut out: Vec<usize> = Vec::new();
        let mut g: usize = 0;
        while g < groups.len()
            invariant
                n_numbers == numbers@.len(),
                self.wf(),
                self.shard_size == size,
                size == start.shard_size,
                start == *old(self),
                size <= usize::MAX,
                gs == groups@,
                g <= gs.len(),
                forall|i: int| 0 <= i < numbers@.len() ==> shard_start_of(#[trigger] numbers@[i] as int, size as int)
                    + size <= u64::MAX,
                groups_ok(numbers@, gs, size as int),
                forall|b: u64| #[trigger] self.block_present(b) == start.block_present(b),
                plan_inv(start, numbers@, gs, g as int, size as int, out@),
            decreases gs.len() - g,
        {
            let st = groups[g].0;
            let members = &groups[g].1;
            if members.len() > 0 {
                let m0 = members[0];
                proof {
                    lemma_group_member(numbers@, gs, size as int, g as int, 0);
                    lemma_shard_start_bounds(numbers@[m0 as int] as int, size as int);
                }
                let ghost before = *self;
                let (i, created) = self.get_or_create_shard(st);
                proof {
                    if created {
                        let pos = i as int;
                        assert forall|k: int| 0 <= k < size implies !#[trigger] self.shards@[pos].bitset@[k] by {}
                        ShardTable::lemma_created_shard_presence(before, *self, pos);
                    }
                    assert forall|b: u64| #[trigger] self.block_present(b) == start.block_present(b) by {
                        if !created {
                            assert(self.shards@ == before.shards@);
                            assert(before.block_present(b) == start.block_present(b));
                        }
                    }
                    assert(self.shards@[i as int].wf());
                    assert forall|k: int| 0 <= k < members@.len() implies {
                        let m = #[trigger] members@[k];
                        &&& m < numbers@.len()
                        &&& self.shards@[i as int].meta.shard_start <= numbers@[m as int]
                            < self.shards@[i as int].meta.shard_start + self.shards@[i as int].meta.shard_size
                    } by {
                        lemma_group_member(numbers@, gs, size as int, g as int, k);
                        lemma_shard_start_bounds(numbers@[members@[k] as int] as int, size as int);
                    }
                    assert forall|b: u64| shard_start_of(b as int, size as int) == st implies
                        #[trigger] start.block_present(b) == self.shards@[i as int].bitset@[b - st] by {
                        lemma_shard_start_bounds(b as int, size as int);
                        self.lemma_missing_in_shard(i as int, b);
                    }
                }
                let mut sel = self.shards[i].select_wal_records(numbers, members);
                proof {
                    lemma_plan_extend(start, numbers@, gs, g as int, size as int, out@, self.shards@[i as int], sel@);
                }
                out.append(&mut sel);
            } else {
                proof {
                    lemma_plan_skip_empty(start, numbers@, gs, g as int, size as int, out@);
                }
            }
            g = g + 1;
        }
        proof {
            lemma_plan_done(start, numbers@, gs, size as int, out@);
        }
        out
    }

}

impl ShardTable {
    /// Prepares a block written straight to the sorted segments: the
    /// position of its shard (created when missing), or `None` when the
    /// block is already present and nothing is to be written.
    pub fn follow_write_target(&mut self, number: u64) -> (res: Option<usize>)
        requires
            old(self).wf(),
            shard_start_of(number as int, old(self).shard_size as int) + old(self).shard_size <= u64::MAX,
            old(self).shard_size <= usize::MAX,
        ensures
            final(self).wf(),
            final(self).shard_size == old(self).shard_size,
            res is None <==> old(self).block_present(number),
            res is None ==> final(self).shards@ == old(self).shards@,
            forall|b: u64| #[trigger] final(self).block_present(b) == old(self).block_present(b),
            res matches Some(i) ==> i < final(self).shards@.len()
                && final(self).shards@[i as int].meta.shard_start == shard_start_of(number as int, old(self).shard_size as int),
    {
        proof {
            lemma_shard_start_bounds(number as int, self.shard_size as int);
        }
        let start = shard_start(number, self.shard_size);
        let ghost before = *self;
        let (i, created) = self.get_or_create_shard(start);
        proof {
            self.lemma_missing_in_shard(i as int, number);
            self.shards@[i as int].bitset.lemma_view();
            if !created {
                before.lemma_missing_in_shard(i as int, number);
            }
            assert forall|b: u64| #[trigger] self.block_present(b) == before.block_present(b) by {
                if created {
                    let sb = shard_start_of(b as int, self.shard_size as int);
                    if sb == start {
                        lemma_shard_start_bounds(b as int, self.shard_size as int);
                        self.lemma_missing_in_shard(i as int, b);
                    } else {
                        if self.block_present(b) {
                            let j = choose|j: int| 0 <= j < self.shards@.len() && #[trigger] self.shards@[j].meta.shard_start == sb
                                && self.shards@[j].bitset@[b - sb];
                            if j < i {
                                assert(before.shards@[j] == self.shards@[j]);
                            } else {
                                assert(before.shards@[j - 1] == self.shards@[j]);
                            }
                        }
                        if before.block_present(b) {
                            let j = choose|j: int| 0 <= j < before.shards@.len() && #[trigger] before.shards@[j].meta.shard_start == sb
                                && before.shards@[j].bitset@[b - sb];
                            if j < i {
                                assert(before.shards@[j] == self.shards@[j]);
                            } else {
                                assert(before.shards@[j] == self.shards@[j + 1]);
                            }
                        }
                    }
                }
            }
        }
        if self.shards[i].bitset.is_set((number - start) as usize) {
            None
        } else {
            Some(i)
        }
    }
}


impl ShardTable {
    /// Records a block written straight to the sorted segments of shard
    /// `i` (see `ShardState::apply_follow_write`): afterwards the block is
    /// present, and every other block is as present as before.
    pub fn apply_follow_write(&mut self, i: usize, number: u64, tx_count: u64, receipt_count: u64, log_count: u64)
        requires
            old(self).wf(),
            i < old(self).shards@.len(),
            old(self).shards@[i as int].meta.shard_start <= number < old(self).shards@[i as int].meta.shard_start
                + old(self).shard_size,
            old(self).shards@[i as int].meta.total_transactions + tx_count <= u64::MAX,
            old(self).shards@[i as int].meta.total_receipts + receipt_count <= u64::MAX,
            old(self).shards@[i as int].meta.total_logs + log_count <= u64::MAX,
        ensures
            final(self).wf(),
            final(self).shard_size == old(self).shard_size,
            final(self).shards@.len() == old(self).shards@.len(),
            forall|j: int| 0 <= j < old(self).shards@.len() && j != i ==> #[trigger] final(self).shards@[j] == old(self).shards@[j],
            forall|b: u64| #[trigger] final(self).block_present(b) == (old(self).block_present(b) || b == number),
    {
        let ghost before = *self;
        let mut st = self.shards.remove(i);
        proof {
            assert(st == before.shards@[i as int]);
        }
        st.apply_follow_write(number, tx_count, receipt_count, log_count);
        self.shards.insert(i, st);
        proof {
            assert forall|j: int| 0 <= j < before.shards@.len() && j != i implies #[trigger] self.shards@[j] == before.shards@[j] by {}
            assert forall|b: u64| #[trigger] self.block_present(b) == (before.block_present(b) || b == number) by {
                let size = self.shard_size as int;
                let s = shard_start_of(b as int, size);
                lemma_shard_start_bounds(b as int, size);
                let si = before.shards@[i as int].meta.shard_start;
                before.lemma_missing_in_shard(i as int, number);
                if s == si {
                    before.lemma_missing_in_shard(i as int, b);
                    self.lemma_missing_in_shard(i as int, b);
                    self.shards@[i as int].bitset.lemma_view();
                    before.shards@[i as int].bitset.lemma_view();
                } else {
                    assert(b != number);
                    if before.holds_shard(s) {
                        let j = choose|j: int| 0 <= j < before.shards@.len() && #[trigger] before.shards@[j].meta.shard_start == s;
                        before.lemma_missing_in_shard(j, b);
                        self.lemma_missing_in_shard(j, b);
                    } else {
                        before.lemma_missing_no_shard(b);
                        assert(!self.holds_shard(s)) by {
                            if self.holds_shard(s) {
                                let j = choose|j: int| 0 <= j < self.shards@.len() && #[trigger] self.shards@[j].meta.shard_start == s;
                                if j != i {
                                    assert(before.shards@[j].meta.shard_start == s);
                                }
                            }
                        }
                        self.lemma_missing_no_shard(b);
                    }
                }
            }
        }
    }
}

impl ShardTable {
    /// The first block of `from..=to` that is not present, if any.
    pub fn first_absent_block(&self, from: u64, to: u64) -> (res: Option<u64>)
        requires
            self.wf(),
        ensures
            res is None ==> forall|b: u64| from <= b <= to ==> #[trigger] self.block_present(b),
            res matches Some(b) ==> from <= b <= to && !self.block_present(b)
                && forall|x: u64| from <= x < b ==> #[trigger] self.block_present(x),
    {
        if from > to {
            return None;
        }
        let mut b = from;
        loop
            invariant
                self.wf(),
                from <= b <= to,
                forall|x: u64| from <= x < b ==> #[trigger] self.block_present(x),
            decreases to - b,
        {
            if !self.has_block(b) {
                return Some(b);
            }
            if b == to {
                return None;
            }
            b = b + 1;
        }
    }
}

} // verus!
