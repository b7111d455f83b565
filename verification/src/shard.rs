//! Per-shard metadata and the recovery of a shard directory after an
//! interrupted compaction.

use crate::bitset::{all_bits, count_true, Bitset};
use crate::text::str_eq;
use vstd::prelude::*;

verus! {

/// Step of a compaction in progress, recorded in the shard metadata so that
/// an interrupted compaction can be recovered.
#[derive(Debug, PartialEq, Eq)]
pub enum CompactionPhase {
    /// Writing the new segments into `sorted.tmp` and `bitset.tmp`.
    Writing,
    /// Swapping the new files in, keeping the previous ones as `.old`.
    Swapping,
    /// Removing the `.old` files and the write-ahead log.
    Cleanup,
    /// A phase name this version does not know.
    Other(String),
}

impl CompactionPhase {
    /// The phase recorded under `name`.
    pub fn parse(name: &str) -> (res: CompactionPhase)
        ensures
            name@ == "writing"@ ==> res == CompactionPhase::Writing,
            name@ == "swapping"@ ==> res == CompactionPhase::Swapping,
            name@ == "cleanup"@ ==> res == CompactionPhase::Cleanup,
            name@ != "writing"@ && name@ != "swapping"@ && name@ != "cleanup"@ ==> (res matches CompactionPhase::Other(s) && s@ == name@),
    {
        proof {
            reveal_strlit("writing");
            reveal_strlit("swapping");
            reveal_strlit("cleanup");
            assert("writing"@.len() != "swapping"@.len());
            assert("swapping"@.len() != "cleanup"@.len());
            assert("writing"@[0] != "cleanup"@[0]);
        }
        if str_eq(name, "writing") {
            CompactionPhase::Writing
        } else if str_eq(name, "swapping") {
            CompactionPhase::Swapping
        } else if str_eq(name, "cleanup") {
            CompactionPhase::Cleanup
        } else {
            CompactionPhase::Other(name.to_owned())
        }
    }

    /// The name under which the phase is recorded.
    pub fn name(&self) -> (res: String)
        ensures
            *self == CompactionPhase::Writing ==> res@ == "writing"@,
            *self == CompactionPhase::Swapping ==> res@ == "swapping"@,
            *self == CompactionPhase::Cleanup ==> res@ == "cleanup"@,
            self matches CompactionPhase::Other(s) ==> res@ == s@,
    {
        match self {
            CompactionPhase::Writing => "writing".to_owned(),
            CompactionPhase::Swapping => "swapping".to_owned(),
            CompactionPhase::Cleanup => "cleanup".to_owned(),
            CompactionPhase::Other(s) => s.clone(),
        }
    }
}

/// Metadata of one shard (`shard.json`).
#[derive(Debug)]
pub struct ShardMeta {
    pub shard_start: u64,
    pub shard_size: u64,
    pub present_count: u32,
    pub complete: bool,
    pub sorted: bool,
    pub sealed: bool,
    pub tail_block: Option<u64>,
    pub content_hash: Option<String>,
    pub content_hash_algo: String,
    /// Compaction in progress, if any.
    pub compaction_phase: Option<CompactionPhase>,
    /// Total transaction count across all blocks in this shard.
    pub total_transactions: u64,
    /// Total receipt count across all blocks in this shard.
    pub total_receipts: u64,
    /// Total log count across all blocks in this shard.
    pub total_logs: u64,
    /// On-disk bytes for headers segment files.
    pub disk_bytes_headers: u64,
    /// On-disk bytes for transaction segment files (tx_hashes + tx_meta).
    pub disk_bytes_transactions: u64,
    /// On-disk bytes for receipts segment files.
    pub disk_bytes_receipts: u64,
    /// Total on-disk bytes for all segment files in this shard.
    pub disk_bytes_total: u64,
}

/// The digest algorithm recorded for sealed shards.
pub fn default_hash_algo() -> (res: String)
    ensures
        res@ == "sha256"@,
{
    "sha256".to_owned()
}

/// Result of shard recovery.
#[derive(Debug, Clone, Copy, PartialEq, Eq)]
pub enum ShardRecoveryResult {
    /// No recovery needed
    Clean,
    /// Recovered from interrupted "writing" phase
    RecoveredWriting,
    /// Recovered from interrupted "swapping" phase
    RecoveredSwapping,
    /// Recovered from interrupted "cleanup" phase
    RecoveredCleanup,
    /// Cleaned up orphan files (no phase was set but tmp files existed)
    CleanedOrphans,
}

impl ShardRecoveryResult {
    /// Returns true if recovery was needed
    pub fn needs_recovery(&self) -> (res: bool)
        ensures
            res == (*self != ShardRecoveryResult::Clean),
    {
        !matches!(self, ShardRecoveryResult::Clean)
    }

    /// Returns a human-readable description
    pub fn description(&self) -> (res: &'static str)
        ensures
            *self == ShardRecoveryResult::Clean ==> res@ == "OK"@,
            *self == ShardRecoveryResult::RecoveredWriting ==> res@ == "recovered from interrupted write phase"@,
            *self == ShardRecoveryResult::RecoveredSwapping ==> res@ == "recovered from interrupted swap phase"@,
            *self == ShardRecoveryResult::RecoveredCleanup ==> res@ == "completed interrupted cleanup"@,
            *self == ShardRecoveryResult::CleanedOrphans ==> res@ == "cleaned orphan files"@,
    {
        match self {
            ShardRecoveryResult::Clean => "OK",
            ShardRecoveryResult::RecoveredWriting => "recovered from interrupted write phase",
            ShardRecoveryResult::RecoveredSwapping => "recovered from interrupted swap phase",
            ShardRecoveryResult::RecoveredCleanup => "completed interrupted cleanup",
            ShardRecoveryResult::CleanedOrphans => "cleaned orphan files",
        }
    }
}

/// Info about a single shard's repair result
#[derive(Debug)]
pub struct ShardRepairInfo {
    /// Shard start block
    pub shard_start: u64,
    /// What recovery was performed
    pub result: ShardRecoveryResult,
    /// The compaction phase that was interrupted (if any)
    pub original_phase: Option<String>,
}

/// Summary report of storage repair operation
#[derive(Debug)]
pub struct RepairReport {
    /// Per-shard repair results
    pub shards: Vec<ShardRepairInfo>,
}

/// Number of shards of the report whose recovery did (or did not) act.
pub open spec fn count_needing(s: Seq<ShardRepairInfo>, needed: bool) -> nat
    decreases s.len(),
{
    if s.len() == 0 {
        0
    } else {
        count_needing(s.drop_last(), needed) + if (s.last().result != ShardRecoveryResult::Clean) == needed { 1nat } else { 0nat }
    }
}

impl RepairReport {
    /// Count of shards that needed repair
    pub fn repaired_count(&self) -> (n: usize)
        ensures
            n == count_needing(self.shards@, true),
    {
        self.count_where(true)
    }

    /// Count of shards that were already clean
    pub fn clean_count(&self) -> (n: usize)
        ensures
            n == count_needing(self.shards@, false),
    {
        self.count_where(false)
    }

    fn count_where(&self, needed: bool) -> (n: usize)
        ensures
            n == count_needing(self.shards@, needed),
    {
        let mut n: usize = 0;
        let mut i: usize = 0;
        while i < self.shards.len()
            invariant
                i <= self.shards@.len(),
                n == count_needing(self.shards@.take(i as int), needed),
                n <= i,
            decreases self.shards@.len() - i,
        {
            proof {
                assert(self.shards@.take(i as int + 1).drop_last() =~= self.shards@.take(i as int));
            }
            if self.shards[i].result.needs_recovery() == needed {
                n = n + 1;
            }
            i = i + 1;
        }
        proof {
            assert(self.shards@.take(self.shards@.len() as int) =~= self.shards@);
        }
        n
    }

    /// Total shard count
    pub fn total_count(&self) -> (n: usize)
        ensures
            n == self.shards@.len(),
    {
        self.shards.len()
    }
}

/// Every shard of a report is either repaired or clean.
pub proof fn lemma_repaired_plus_clean(s: Seq<ShardRepairInfo>)
    ensures
        count_needing(s, true) + count_needing(s, false) == s.len(),
    decreases s.len(),
{
    if s.len() > 0 {
        lemma_repaired_plus_clean(s.drop_last());
    }
}

/// A file or directory of a shard directory.
#[derive(Debug, Clone, Copy, PartialEq, Eq)]
pub enum ShardArtifact {
    /// `sorted/`: the compacted segments.
    Sorted,
    /// `sorted.old/`: the previous segments during a swap.
    SortedOld,
    /// `sorted.tmp/`: segments being written.
    SortedTmp,
    /// `present.bitset`.
    Bitset,
    /// `bitset.old`.
    BitsetOld,
    /// `bitset.tmp`.
    BitsetTmp,
    /// `state/staging.wal`.
    Wal,
}

/// A change to a shard directory.
#[derive(Debug, Clone, Copy, PartialEq, Eq)]
pub enum DirAction {
    /// Delete the artifact (recursively for a directory).
    Remove(ShardArtifact),
    /// Rename `from` to `to`.
    Rename { from: ShardArtifact, to: ShardArtifact },
}

/// Which artifacts of a shard directory exist.
#[derive(Debug, Clone, Copy, PartialEq, Eq)]
pub struct ShardFiles {
    pub sorted: bool,
    pub sorted_old: bool,
    pub sorted_tmp: bool,
    pub bitset: bool,
    pub bitset_old: bool,
    pub bitset_tmp: bool,
    pub wal: bool,
}

pub open spec fn exists_in(f: ShardFiles, a: ShardArtifact) -> bool {
    match a {
        ShardArtifact::Sorted => f.sorted,
        ShardArtifact::SortedOld => f.sorted_old,
        ShardArtifact::SortedTmp => f.sorted_tmp,
        ShardArtifact::Bitset => f.bitset,
        ShardArtifact::BitsetOld => f.bitset_old,
        ShardArtifact::BitsetTmp => f.bitset_tmp,
        ShardArtifact::Wal => f.wal,
    }
}

pub open spec fn with_artifact(f: ShardFiles, a: ShardArtifact, present: bool) -> ShardFiles {
    match a {
        ShardArtifact::Sorted => ShardFiles { sorted: present, ..f },
        ShardArtifact::SortedOld => ShardFiles { sorted_old: present, ..f },
        ShardArtifact::SortedTmp => ShardFiles { sorted_tmp: present, ..f },
        ShardArtifact::Bitset => ShardFiles { bitset: present, ..f },
        ShardArtifact::BitsetOld => ShardFiles { bitset_old: present, ..f },
        ShardArtifact::BitsetTmp => ShardFiles { bitset_tmp: present, ..f },
        ShardArtifact::Wal => ShardFiles { wal: present, ..f },
    }
}

/// The artifacts after an action.
pub open spec fn apply_action(f: ShardFiles, act: DirAction) -> ShardFiles {
    match act {
        DirAction::Remove(a) => with_artifact(f, a, false),
        DirAction::Rename { from, to } => with_artifact(with_artifact(f, from, false), to, exists_in(f, from)),
    }
}

/// The artifacts after a sequence of actions, in order.
pub open spec fn apply_actions(f: ShardFiles, acts: Seq<DirAction>) -> ShardFiles
    decreases acts.len(),
{
    if acts.len() == 0 {
        f
    } else {
        apply_actions(apply_action(f, acts[0]), acts.drop_first())
    }
}

pub open spec fn remove_if(cond: bool, a: ShardArtifact) -> Seq<DirAction> {
    if cond { seq![DirAction::Remove(a)] } else { Seq::empty() }
}

pub open spec fn rename_if(cond: bool, from: ShardArtifact, to: ShardArtifact) -> Seq<DirAction> {
    if cond { seq![DirAction::Rename { from, to }] } else { Seq::empty() }
}

/// What recovering a shard does, by the recorded phase and the artifacts
/// present: the result reported and the actions, in order. The phase is
/// then cleared; after a swap the shard is marked unsorted, after cleanup
/// sorted, and after an unknown phase unsorted.
pub open spec fn recovery_plan(phase: Option<CompactionPhase>, f: ShardFiles) -> (ShardRecoveryResult, Seq<DirAction>) {
    match phase {
        Some(CompactionPhase::Writing) => (
            ShardRecoveryResult::RecoveredWriting,
            remove_if(f.sorted_tmp, ShardArtifact::SortedTmp) + remove_if(f.bitset_tmp, ShardArtifact::BitsetTmp),
        ),
        Some(CompactionPhase::Swapping) => (
            ShardRecoveryResult::RecoveredSwapping,
            rename_if(!f.sorted && f.sorted_old, ShardArtifact::SortedOld, ShardArtifact::Sorted)
                + rename_if(!f.bitset && f.bitset_old, ShardArtifact::BitsetOld, ShardArtifact::Bitset)
                + remove_if(f.sorted_tmp, ShardArtifact::SortedTmp)
                + remove_if(f.sorted && f.sorted_old, ShardArtifact::SortedOld)
                + remove_if(f.bitset_tmp, ShardArtifact::BitsetTmp)
                + remove_if(f.bitset && f.bitset_old, ShardArtifact::BitsetOld),
        ),
        Some(CompactionPhase::Cleanup) => (
            ShardRecoveryResult::RecoveredCleanup,
            remove_if(f.sorted_old, ShardArtifact::SortedOld) + remove_if(f.bitset_old, ShardArtifact::BitsetOld)
                + remove_if(f.wal, ShardArtifact::Wal),
        ),
        Some(CompactionPhase::Other(_)) => (ShardRecoveryResult::CleanedOrphans, Seq::empty()),
        None => (
            if f.sorted_old || f.sorted_tmp || f.bitset_tmp || f.bitset_old {
                ShardRecoveryResult::CleanedOrphans
            } else {
                ShardRecoveryResult::Clean
            },
            remove_if(f.sorted_old && f.sorted, ShardArtifact::SortedOld)
                + rename_if(f.sorted_old && !f.sorted, ShardArtifact::SortedOld, ShardArtifact::Sorted)
                + remove_if(f.sorted_tmp, ShardArtifact::SortedTmp)
                + remove_if(f.bitset_tmp, ShardArtifact::BitsetTmp)
                + remove_if(f.bitset_old, ShardArtifact::BitsetOld),
        ),
    }
}

fn push_remove_if(acts: &mut Vec<DirAction>, cond: bool, a: ShardArtifact)
    ensures
        final(acts)@ == old(acts)@ + remove_if(cond, a),
{
    if cond {
        acts.push(DirAction::Remove(a));
    }
    proof {
        assert(final(acts)@ =~= old(acts)@ + remove_if(cond, a));
    }
}

fn push_rename_if(acts: &mut Vec<DirAction>, cond: bool, from: ShardArtifact, to: ShardArtifact)
    ensures
        final(acts)@ == old(acts)@ + rename_if(cond, from, to),
{
    if cond {
        acts.push(DirAction::Rename { from, to });
    }
    proof {
        assert(final(acts)@ =~= old(acts)@ + rename_if(cond, from, to));
    }
}

/// Plans the recovery of a shard from an interrupted compaction (see
/// `recovery_plan`) and updates its metadata accordingly. The caller carries
/// out the returned actions in order.
pub fn recover_shard(meta: &mut ShardMeta, files: ShardFiles) -> (res: (ShardRecoveryResult, Vec<DirAction>))
    ensures
        ({
            let plan = recovery_plan(old(meta).compaction_phase, files);
            &&& res.0 == plan.0
            &&& res.1@ == plan.1
        }),
        final(meta).compaction_phase is None,
        final(meta).sorted == match old(meta).compaction_phase {
            Some(CompactionPhase::Swapping) => false,
            Some(CompactionPhase::Cleanup) => true,
            Some(CompactionPhase::Other(_)) => false,
            _ => old(meta).sorted,
        },
        final(meta).shard_start == old(meta).shard_start,
        final(meta).shard_size == old(meta).shard_size,
        final(meta).present_count == old(meta).present_count,
        final(meta).complete == old(meta).complete,
        final(meta).sealed == old(meta).sealed,
        final(meta).tail_block == old(meta).tail_block,
        final(meta).content_hash == old(meta).content_hash,
        final(meta).content_hash_algo == old(meta).content_hash_algo,
        final(meta).total_transactions == old(meta).total_transactions,
        final(meta).total_receipts == old(meta).total_receipts,
        final(meta).total_logs == old(meta).total_logs,
        final(meta).disk_bytes_headers == old(meta).disk_bytes_headers,
        final(meta).disk_bytes_transactions == old(meta).disk_bytes_transactions,
        final(meta).disk_bytes_receipts == old(meta).disk_bytes_receipts,
        final(meta).disk_bytes_total == old(meta).disk_bytes_total,
{
    let f = files;
    let mut acts: Vec<DirAction> = Vec::new();
    let phase = meta.compaction_phase.take();
    let result = match phase {
        Some(CompactionPhase::Writing) => {
            push_remove_if(&mut acts, f.sorted_tmp, ShardArtifact::SortedTmp);
            push_remove_if(&mut acts, f.bitset_tmp, ShardArtifact::BitsetTmp);
            ShardRecoveryResult::RecoveredWriting
        },
        Some(CompactionPhase::Swapping) => {
            push_rename_if(&mut acts, !f.sorted && f.sorted_old, ShardArtifact::SortedOld, ShardArtifact::Sorted);
            push_rename_if(&mut acts, !f.bitset && f.bitset_old, ShardArtifact::BitsetOld, ShardArtifact::Bitset);
            push_remove_if(&mut acts, f.sorted_tmp, ShardArtifact::SortedTmp);
            push_remove_if(&mut acts, f.sorted && f.sorted_old, ShardArtifact::SortedOld);
            push_remove_if(&mut acts, f.bitset_tmp, ShardArtifact::BitsetTmp);
            push_remove_if(&mut acts, f.bitset && f.bitset_old, ShardArtifact::BitsetOld);
            meta.sorted = false;
            ShardRecoveryResult::RecoveredSwapping
        },
        Some(CompactionPhase::Cleanup) => {
            push_remove_if(&mut acts, f.sorted_old, ShardArtifact::SortedOld);
            push_remove_if(&mut acts, f.bitset_old, ShardArtifact::BitsetOld);
            push_remove_if(&mut acts, f.wal, ShardArtifact::Wal);
            meta.sorted = true;
            ShardRecoveryResult::RecoveredCleanup
        },
        Some(CompactionPhase::Other(_)) => {
            meta.sorted = false;
            ShardRecoveryResult::CleanedOrphans
        },
        None => {
            push_remove_if(&mut acts, f.sorted_old && f.sorted, ShardArtifact::SortedOld);
            push_rename_if(&mut acts, f.sorted_old && !f.sorted, ShardArtifact::SortedOld, ShardArtifact::Sorted);
            push_remove_if(&mut acts, f.sorted_tmp, ShardArtifact::SortedTmp);
            push_remove_if(&mut acts, f.bitset_tmp, ShardArtifact::BitsetTmp);
            push_remove_if(&mut acts, f.bitset_old, ShardArtifact::BitsetOld);
            if f.sorted_old || f.sorted_tmp || f.bitset_tmp || f.bitset_old {
                ShardRecoveryResult::CleanedOrphans
            } else {
                ShardRecoveryResult::Clean
            }
        },
    };
    proof {
        assert(Seq::<DirAction>::empty() + remove_if(f.sorted_tmp, ShardArtifact::SortedTmp) =~= remove_if(f.sorted_tmp, ShardArtifact::SortedTmp));
        assert(Seq::<DirAction>::empty() + rename_if(!f.sorted && f.sorted_old, ShardArtifact::SortedOld, ShardArtifact::Sorted) =~= rename_if(!f.sorted && f.sorted_old, ShardArtifact::SortedOld, ShardArtifact::Sorted));
        assert(Seq::<DirAction>::empty() + remove_if(f.sorted_old, ShardArtifact::SortedOld) =~= remove_if(f.sorted_old, ShardArtifact::SortedOld));
        assert(Seq::<DirAction>::empty() + remove_if(f.sorted_old && f.sorted, ShardArtifact::SortedOld) =~= remove_if(f.sorted_old && f.sorted, ShardArtifact::SortedOld));
    }
    (result, acts)
}

proof fn lemma_apply_concat(f: ShardFiles, a: Seq<DirAction>, b: Seq<DirAction>)
    ensures
        apply_actions(f, a + b) == apply_actions(apply_actions(f, a), b),
    decreases a.len(),
{
    if a.len() == 0 {
        assert(a + b =~= b);
    } else {
        assert((a + b).drop_first() =~= a.drop_first() + b);
        lemma_apply_concat(apply_action(f, a[0]), a.drop_first(), b);
    }
}

proof fn lemma_apply_one(f: ShardFiles, act: DirAction)
    ensures
        apply_actions(f, seq![act]) == apply_action(f, act),
{
    assert(seq![act].drop_first() =~= Seq::<DirAction>::empty());
    assert(apply_actions(apply_action(f, act), Seq::<DirAction>::empty()) == apply_action(f, act));
}

proof fn lemma_apply_remove_if(f: ShardFiles, cond: bool, a: ShardArtifact)
    ensures
        apply_actions(f, remove_if(cond, a)) == if cond { with_artifact(f, a, false) } else { f },
{
    if cond {
        lemma_apply_one(f, DirAction::Remove(a));
    }
}

proof fn lemma_apply_rename_if(f: ShardFiles, cond: bool, from: ShardArtifact, to: ShardArtifact)
    ensures
        apply_actions(f, rename_if(cond, from, to)) == if cond {
            apply_action(f, DirAction::Rename { from, to })
        } else {
            f
        },
{
    if cond {
        lemma_apply_one(f, DirAction::Rename { from, to });
    }
}

proof fn lemma_recovery_writing(f: ShardFiles)
    ensures
        ({
            let g = apply_actions(f, recovery_plan(Some(CompactionPhase::Writing), f).1);
            !g.sorted_tmp && !g.bitset_tmp
        }),
{
    let a = remove_if(f.sorted_tmp, ShardArtifact::SortedTmp);
    let b = remove_if(f.bitset_tmp, ShardArtifact::BitsetTmp);
    lemma_apply_concat(f, a, b);
    lemma_apply_remove_if(f, f.sorted_tmp, ShardArtifact::SortedTmp);
    lemma_apply_remove_if(apply_actions(f, a), f.bitset_tmp, ShardArtifact::BitsetTmp);
}

proof fn lemma_recovery_swapping(f: ShardFiles)
    ensures
        ({
            let g = apply_actions(f, recovery_plan(Some(CompactionPhase::Swapping), f).1);
            &&& !g.sorted_tmp && !g.bitset_tmp && !g.sorted_old && !g.bitset_old
            &&& g.sorted == (f.sorted || f.sorted_old) && g.bitset == (f.bitset || f.bitset_old) && g.wal == f.wal
        }),
{
    let s1 = rename_if(!f.sorted && f.sorted_old, ShardArtifact::SortedOld, ShardArtifact::Sorted);
    let s2 = rename_if(!f.bitset && f.bitset_old, ShardArtifact::BitsetOld, ShardArtifact::Bitset);
    let s3 = remove_if(f.sorted_tmp, ShardArtifact::SortedTmp);
    let s4 = remove_if(f.sorted && f.sorted_old, ShardArtifact::SortedOld);
    let s5 = remove_if(f.bitset_tmp, ShardArtifact::BitsetTmp);
    let s6 = remove_if(f.bitset && f.bitset_old, ShardArtifact::BitsetOld);
    let g1 = apply_actions(f, s1);
    let g2 = apply_actions(g1, s2);
    let g3 = apply_actions(g2, s3);
    let g4 = apply_actions(g3, s4);
    let g5 = apply_actions(g4, s5);
    lemma_apply_rename_if(f, !f.sorted && f.sorted_old, ShardArtifact::SortedOld, ShardArtifact::Sorted);
    lemma_apply_rename_if(g1, !f.bitset && f.bitset_old, ShardArtifact::BitsetOld, ShardArtifact::Bitset);
    lemma_apply_remove_if(g2, f.sorted_tmp, ShardArtifact::SortedTmp);
    lemma_apply_remove_if(g3, f.sorted && f.sorted_old, ShardArtifact::SortedOld);
    lemma_apply_remove_if(g4, f.bitset_tmp, ShardArtifact::BitsetTmp);
    lemma_apply_remove_if(g5, f.bitset && f.bitset_old, ShardArtifact::BitsetOld);
    lemma_apply_concat(f, s1, s2);
    lemma_apply_concat(f, s1 + s2, s3);
    lemma_apply_concat(f, s1 + s2 + s3, s4);
    lemma_apply_concat(f, s1 + s2 + s3 + s4, s5);
    lemma_apply_concat(f, s1 + s2 + s3 + s4 + s5, s6);
}

proof fn lemma_recovery_cleanup(f: ShardFiles)
    ensures
        ({
            let g = apply_actions(f, recovery_plan(Some(CompactionPhase::Cleanup), f).1);
            &&& !g.sorted_tmp == !f.sorted_tmp && g.bitset_tmp == f.bitset_tmp
            &&& !g.sorted_old && !g.bitset_old && !g.wal && g.sorted == f.sorted && g.bitset == f.bitset
        }),
{
    let a = remove_if(f.sorted_old, ShardArtifact::SortedOld);
    let b = remove_if(f.bitset_old, ShardArtifact::BitsetOld);
    let c = remove_if(f.wal, ShardArtifact::Wal);
    let g1 = apply_actions(f, a);
    let g2 = apply_actions(g1, b);
    lemma_apply_remove_if(f, f.sorted_old, ShardArtifact::SortedOld);
    lemma_apply_remove_if(g1, f.bitset_old, ShardArtifact::BitsetOld);
    lemma_apply_remove_if(g2, f.wal, ShardArtifact::Wal);
    lemma_apply_concat(f, a, b);
    lemma_apply_concat(f, a + b, c);
}

proof fn lemma_recovery_none(f: ShardFiles)
    ensures
        ({
            let g = apply_actions(f, recovery_plan(None, f).1);
            &&& !g.sorted_tmp && !g.bitset_tmp && !g.sorted_old && !g.bitset_old
            &&& g.sorted == (f.sorted || f.sorted_old) && g.bitset == f.bitset && g.wal == f.wal
        }),
{
    let s1 = remove_if(f.sorted_old && f.sorted, ShardArtifact::SortedOld);
    let s2 = rename_if(f.sorted_old && !f.sorted, ShardArtifact::SortedOld, ShardArtifact::Sorted);
    let s3 = remove_if(f.sorted_tmp, ShardArtifact::SortedTmp);
    let s4 = remove_if(f.bitset_tmp, ShardArtifact::BitsetTmp);
    let s5 = remove_if(f.bitset_old, ShardArtifact::BitsetOld);
    let g1 = apply_actions(f, s1);
    let g2 = apply_actions(g1, s2);
    let g3 = apply_actions(g2, s3);
    let g4 = apply_actions(g3, s4);
    lemma_apply_remove_if(f, f.sorted_old && f.sorted, ShardArtifact::SortedOld);
    lemma_apply_rename_if(g1, f.sorted_old && !f.sorted, ShardArtifact::SortedOld, ShardArtifact::Sorted);
    lemma_apply_remove_if(g2, f.sorted_tmp, ShardArtifact::SortedTmp);
    lemma_apply_remove_if(g3, f.bitset_tmp, ShardArtifact::BitsetTmp);
    lemma_apply_remove_if(g4, f.bitset_old, ShardArtifact::BitsetOld);
    lemma_apply_concat(f, s1, s2);
    lemma_apply_concat(f, s1 + s2, s3);
    lemma_apply_concat(f, s1 + s2 + s3, s4);
    lemma_apply_concat(f, s1 + s2 + s3 + s4, s5);
}

/// What recovery leaves behind. Recovering the writing phase removes the
/// scratch files (`sorted.tmp`, `bitset.tmp`); recovering a swap, or a
/// shard with no phase recorded, also removes the `.old` copies and puts
/// `sorted/` (and, for a swap, the bitset) back from its `.old` copy when
/// the live one is missing; recovering a cleanup removes the `.old` copies
/// and the log. Nothing else changes.
pub proof fn lemma_recovery_outcome(f: ShardFiles)
    ensures
        ({
            let g = apply_actions(f, recovery_plan(Some(CompactionPhase::Writing), f).1);
            !g.sorted_tmp && !g.bitset_tmp
        }),
        ({
            let g = apply_actions(f, recovery_plan(Some(CompactionPhase::Swapping), f).1);
            &&& !g.sorted_tmp && !g.bitset_tmp && !g.sorted_old && !g.bitset_old
            &&& g.sorted == (f.sorted || f.sorted_old) && g.bitset == (f.bitset || f.bitset_old) && g.wal == f.wal
        }),
        ({
            let g = apply_actions(f, recovery_plan(Some(CompactionPhase::Cleanup), f).1);
            &&& g.sorted_tmp == f.sorted_tmp && g.bitset_tmp == f.bitset_tmp
            &&& !g.sorted_old && !g.bitset_old && !g.wal && g.sorted == f.sorted && g.bitset == f.bitset
        }),
        ({
            let g = apply_actions(f, recovery_plan(None, f).1);
            &&& !g.sorted_tmp && !g.bitset_tmp && !g.sorted_old && !g.bitset_old
            &&& g.sorted == (f.sorted || f.sorted_old) && g.bitset == f.bitset && g.wal == f.wal
        }),
{
    lemma_recovery_writing(f);
    lemma_recovery_swapping(f);
    lemma_recovery_cleanup(f);
    lemma_recovery_none(f);
}

impl ShardMeta {
    /// Metadata of a freshly created, empty shard.
    pub fn new_empty(shard_start: u64, shard_size: u64) -> (res: ShardMeta)
        ensures
            res.shard_start == shard_start,
            res.shard_size == shard_size,
            res.present_count == 0,
            !res.complete,
            res.sorted,
            !res.sealed,
            res.tail_block is None,
            res.content_hash is None,
            res.content_hash_algo@ == "sha256"@,
            res.compaction_phase is None,
            res.total_transactions == 0,
            res.total_receipts == 0,
            res.total_logs == 0,
            res.disk_bytes_headers == 0,
            res.disk_bytes_transactions == 0,
            res.disk_bytes_receipts == 0,
            res.disk_bytes_total == 0,
    {
        ShardMeta {
            shard_start,
            shard_size,
            present_count: 0,
            complete: false,
            sorted: true,
            sealed: false,
            tail_block: None,
            content_hash: None,
            content_hash_algo: default_hash_algo(),
            compaction_phase: None,
            total_transactions: 0,
            total_receipts: 0,
            total_logs: 0,
            disk_bytes_headers: 0,
            disk_bytes_transactions: 0,
            disk_bytes_receipts: 0,
            disk_bytes_total: 0,
        }
    }

    /// Marks the shard as needing compaction because its log holds data.
    pub fn mark_wal_pending(&mut self)
        ensures
            !final(self).sorted,
            !final(self).sealed,
            final(self).content_hash is None,
            final(self).same_counts(*old(self)),
            final(self).compaction_phase == old(self).compaction_phase,
            final(self).content_hash_algo == old(self).content_hash_algo,
    {
        self.sorted = false;
        self.sealed = false;
        self.content_hash = None;
    }

    /// Everything but the flags, hash and phase is the same.
    pub open spec fn same_counts(self, other: ShardMeta) -> bool {
        &&& self.shard_start == other.shard_start
        &&& self.shard_size == other.shard_size
        &&& self.present_count == other.present_count
        &&& self.complete == other.complete
        &&& self.tail_block == other.tail_block
        &&& self.total_transactions == other.total_transactions
        &&& self.total_receipts == other.total_receipts
        &&& self.total_logs == other.total_logs
        &&& self.disk_bytes_headers == other.disk_bytes_headers
        &&& self.disk_bytes_transactions == other.disk_bytes_transactions
        &&& self.disk_bytes_receipts == other.disk_bytes_receipts
        &&& self.disk_bytes_total == other.disk_bytes_total
    }

    /// Records the on-disk sizes of the shard's segments.
    pub fn set_disk_bytes(&mut self, sizes: SegmentSizes)
        ensures
            final(self).disk_bytes_headers == sizes.headers,
            final(self).disk_bytes_transactions == sizes.transactions,
            final(self).disk_bytes_receipts == sizes.receipts,
            final(self).disk_bytes_total == sizes.total,
            final(self).shard_start == old(self).shard_start,
            final(self).shard_size == old(self).shard_size,
            final(self).present_count == old(self).present_count,
            final(self).complete == old(self).complete,
            final(self).sorted == old(self).sorted,
            final(self).sealed == old(self).sealed,
            final(self).tail_block == old(self).tail_block,
            final(self).total_transactions == old(self).total_transactions,
            final(self).total_receipts == old(self).total_receipts,
            final(self).total_logs == old(self).total_logs,
    {
        self.disk_bytes_headers = sizes.headers;
        self.disk_bytes_transactions = sizes.transactions;
        self.disk_bytes_receipts = sizes.receipts;
        self.disk_bytes_total = sizes.total;
    }
}

/// On-disk sizes of a shard's segment groups.
#[derive(Debug, Clone, Copy, PartialEq, Eq)]
pub struct SegmentSizes {
    pub headers: u64,
    pub transactions: u64,
    pub receipts: u64,
    pub total: u64,
}

pub open spec fn sat_add(a: u64, b: u64) -> u64 {
    if a + b > u64::MAX { u64::MAX } else { (a + b) as u64 }
}

/// The sizes of a shard's segments from the sizes of its five segment
/// groups (headers, transaction hashes, transaction metadata, receipts, block
/// sizes); transactions count hashes and metadata together. Sums saturate.
pub fn compute_shard_disk_bytes(headers: u64, tx_hashes: u64, tx_meta: u64, receipts: u64, block_sizes: u64) -> (res: SegmentSizes)
    ensures
        res.headers == headers,
        res.transactions == sat_add(tx_hashes, tx_meta),
        res.receipts == receipts,
        res.total == sat_add(sat_add(sat_add(headers, res.transactions), receipts), block_sizes),
{
    let transactions = tx_hashes.saturating_add(tx_meta);
    let total = headers.saturating_add(transactions).saturating_add(receipts).saturating_add(block_sizes);
    SegmentSizes { headers, transactions, receipts, total }
}

/// In-memory state of one shard: its metadata and its presence bitset.
#[derive(Debug)]
pub struct ShardState {
    pub meta: ShardMeta,
    pub bitset: Bitset,
}

/// Highest offset below `n` whose bit is set, if any.
pub open spec fn max_set_below(bits: Seq<bool>, n: int) -> Option<int>
    decreases n,
{
    if n <= 0 {
        None
    } else if n - 1 < bits.len() && bits[n - 1] {
        Some(n - 1)
    } else {
        max_set_below(bits, n - 1)
    }
}

impl ShardState {
    /// The bitset covers exactly the shard's blocks and the shard's blocks
    /// fit in `u64`.
    pub open spec fn wf(&self) -> bool {
        &&& self.bitset.wf()
        &&& self.bitset.size() == self.meta.shard_size
        &&& self.meta.shard_start + self.meta.shard_size <= u64::MAX
    }

    /// Recomputes the present count and completeness from the bitset.
    pub fn reconcile_meta(&mut self)
        requires
            old(self).wf(),
            old(self).bitset.raw().len() * 8 <= u32::MAX,
        ensures
            final(self).wf(),
            final(self).bitset == old(self).bitset,
            final(self).meta.present_count == count_true(all_bits(old(self).bitset.raw())),
            final(self).meta.complete == (final(self).meta.present_count >= old(self).meta.shard_size),
            final(self).meta.shard_start == old(self).meta.shard_start,
            final(self).meta.shard_size == old(self).meta.shard_size,
            final(self).meta.sorted == old(self).meta.sorted,
            final(self).meta.sealed == old(self).meta.sealed,
            final(self).meta.tail_block == old(self).meta.tail_block,
    {
        let count = self.bitset.count_ones();
        self.meta.present_count = count;
        self.meta.complete = count as u64 >= self.meta.shard_size;
    }

    /// Marks the shard for compaction when its log exists.
    pub fn repair_from_wal(&mut self, wal_exists: bool)
        requires
            old(self).wf(),
        ensures
            final(self).wf(),
            final(self).bitset == old(self).bitset,
            wal_exists ==> !final(self).meta.sorted && !final(self).meta.sealed && final(self).meta.content_hash is None,
            wal_exists ==> final(self).meta.same_counts(old(self).meta),
            !wal_exists ==> final(self).meta == old(self).meta,
    {
        if wal_exists {
            self.meta.mark_wal_pending();
        }
    }

    /// The highest block of the shard whose bit is set among the first
    /// `shard_size` offsets.
    pub fn max_present(&self, shard_size: u64) -> (res: Option<u64>)
        requires
            self.wf(),
            shard_size <= self.meta.shard_size,
        ensures
            match max_set_below(self.bitset@, shard_size as int) {
                Some(o) => res == Some((self.meta.shard_start + o) as u64),
                None => res is None,
            },
    {
        proof {
            self.bitset.lemma_view();
        }
        let mut n: u64 = shard_size;
        while n > 0
            invariant
                n <= shard_size,
                shard_size <= self.meta.shard_size,
                self.wf(),
                self.bitset@.len() == self.meta.shard_size,
                self.meta.shard_size <= usize::MAX,
                max_set_below(self.bitset@, shard_size as int) == max_set_below(self.bitset@, n as int),
            decreases n,
        {
            let offset = (n - 1) as usize;
            if self.bitset.is_set(offset) {
                return Some(self.meta.shard_start + (n - 1));
            }
            n = n - 1;
        }
        None
    }

    /// Records a block written straight into the sorted segments (follow
    /// mode): sets its bit and, when it was not yet present, adds its
    /// transaction, receipt and log counts. The shard stays sorted but is no
    /// longer sealed, and its tail becomes the highest block written.
    pub fn apply_follow_write(&mut self, number: u64, tx_count: u64, receipt_count: u64, log_count: u64)
        requires
            old(self).wf(),
            old(self).meta.shard_start <= number < old(self).meta.shard_start + old(self).meta.shard_size,
            old(self).meta.total_transactions + tx_count <= u64::MAX,
            old(self).meta.total_receipts + receipt_count <= u64::MAX,
            old(self).meta.total_logs + log_count <= u64::MAX,
        ensures
            final(self).wf(),
            ({
                let offset = number - old(self).meta.shard_start;
                let newly = !old(self).bitset@[offset];
                &&& final(self).bitset@ == old(self).bitset@.update(offset, true)
                &&& final(self).meta.present_count == if newly {
                    if old(self).meta.present_count == u32::MAX { u32::MAX } else { (old(self).meta.present_count + 1) as u32 }
                } else {
                    old(self).meta.present_count
                }
                &&& final(self).meta.total_transactions == old(self).meta.total_transactions + if newly { tx_count } else { 0 }
                &&& final(self).meta.total_receipts == old(self).meta.total_receipts + if newly { receipt_count } else { 0 }
                &&& final(self).meta.total_logs == old(self).meta.total_logs + if newly { log_count } else { 0 }
                &&& final(self).meta.complete == if newly {
                    final(self).meta.present_count >= old(self).meta.shard_size
                } else {
                    old(self).meta.complete
                }
            }),
            final(self).meta.sorted,
            !final(self).meta.sealed,
            final(self).meta.content_hash is None,
            final(self).meta.tail_block == Some(match old(self).meta.tail_block {
                Some(t) => if t >= number { t } else { number },
                None => if old(self).meta.shard_start >= number { old(self).meta.shard_start } else { number },
            }),
            final(self).meta.shard_start == old(self).meta.shard_start,
            final(self).meta.shard_size == old(self).meta.shard_size,
            old(self).bitset.padding_clear() ==> final(self).bitset.padding_clear(),
    {
        proof {
            self.bitset.lemma_view();
        }
        let shard_start = self.meta.shard_start;
        let offset = (number - shard_start) as usize;
        if self.bitset.set(offset) {
            self.meta.present_count = self.meta.present_count.saturating_add(1);
            self.meta.total_transactions = self.meta.total_transactions + tx_count;
            self.meta.total_receipts = self.meta.total_receipts + receipt_count;
            self.meta.total_logs = self.meta.total_logs + log_count;
            self.meta.complete = self.meta.present_count as u64 >= self.meta.shard_size;
        }
        self.meta.sorted = true;
        self.meta.sealed = false;
        self.meta.content_hash = None;
        let tail = match self.meta.tail_block {
            Some(t) => t,
            None => shard_start,
        };
        self.meta.tail_block = Some(if tail >= number { tail } else { number });
    }

    /// Forgets every block of the shard above `ancestor_number`: clears
    /// their bits (decrementing the present count, never below 0), sets the
    /// tail to the ancestor (none when the ancestor precedes the shard), and
    /// unseals the shard.
    pub fn apply_rollback(&mut self, ancestor_number: u64)
        requires
            old(self).wf(),
        ensures
            final(self).wf(),
            ({
                let so = rollback_start_offset(old(self).meta.shard_start, ancestor_number);
                let size = old(self).meta.shard_size as int;
                let cleared = if so < size { count_true(old(self).bitset@.subrange(so, size)) } else { 0 };
                &&& final(self).bitset@ == Seq::new(size as nat, |i: int| if i >= so { false } else { old(self).bitset@[i] })
                &&& final(self).meta.present_count == if old(self).meta.present_count >= cleared {
                    old(self).meta.present_count - cleared
                } else {
                    0
                }
            }),
            final(self).meta.complete == (final(self).meta.present_count >= old(self).meta.shard_size),
            final(self).meta.tail_block == if ancestor_number < old(self).meta.shard_start { None } else { Some(ancestor_number) },
            !final(self).meta.sealed,
            final(self).meta.content_hash is None,
            final(self).meta.sorted == old(self).meta.sorted,
            final(self).meta.shard_start == old(self).meta.shard_start,
            final(self).meta.shard_size == old(self).meta.shard_size,
            old(self).bitset.padding_clear() ==> final(self).bitset.padding_clear(),
            rolled_back(*old(self), *final(self), ancestor_number),
    {
        proof {
            self.bitset.lemma_view();
        }
        let shard_start = self.meta.shard_start;
        let start_offset: u64 = if ancestor_number < shard_start {
            0
        } else {
            ancestor_number.saturating_sub(shard_start).saturating_add(1)
        };
        let size = self.meta.shard_size;
        let ghost view0 = self.bitset@;
        let ghost present0 = self.meta.present_count;
        let ghost so = start_offset as int;
        let mut offset: u64 = start_offset;
        if offset < size {
            proof {
                assert(view0.subrange(so, so) =~= Seq::<bool>::empty());
            }
            while offset < size
                invariant
                    so <= offset <= size,
                    so == rollback_start_offset(shard_start, ancestor_number),
                    size == self.meta.shard_size,
                    size <= usize::MAX,
                    shard_start == self.meta.shard_start,
                    self.meta.sorted == old(self).meta.sorted,
                    self.wf(),
                    view0.len() == size,
                    self.bitset@ == Seq::new(size as nat, |i: int| if so <= i < offset { false } else { view0[i] }),
                    self.meta.present_count == if present0 >= count_true(view0.subrange(so, offset as int)) {
                        present0 - count_true(view0.subrange(so, offset as int))
                    } else {
                        0
                    },
                    old(self).bitset.padding_clear() ==> self.bitset.padding_clear(),
                decreases size - offset,
            {
                let ghost before = self.bitset@;
                if self.bitset.clear(offset as usize) {
                    self.meta.present_count = self.meta.present_count.saturating_sub(1);
                }
                proof {
                    assert(view0.subrange(so, offset as int + 1).drop_last() =~= view0.subrange(so, offset as int));
                    assert(before[offset as int] == view0[offset as int]);
                    assert(self.bitset@ =~= Seq::new(size as nat, |i: int| if so <= i < offset + 1 { false } else { view0[i] }));
                }
                offset = offset + 1;
            }
            proof {
                assert(self.bitset@ =~= Seq::new(size as nat, |i: int| if i >= so { false } else { view0[i] }));
            }
        } else {
            proof {
                assert(self.bitset@ =~= Seq::new(size as nat, |i: int| if i >= so { false } else { view0[i] }));
            }
        }
        self.meta.complete = self.meta.present_count as u64 >= self.meta.shard_size;
        if ancestor_number < shard_start {
            self.meta.tail_block = None;
        } else {
            self.meta.tail_block = Some(ancestor_number);
        }
        self.meta.sealed = false;
        self.meta.content_hash = None;
    }

    /// Installs the result of a compaction: the rebuilt bitset, its count,
    /// the tail and the recomputed transaction and receipt totals. The shard
    /// is sorted and unsealed, and no compaction is in progress.
    pub fn finish_compaction(&mut self, tally: CompactionTally, tail_block: u64)
        requires
            old(self).wf(),
            tally.bitset.wf(),
            tally.bitset.size() == old(self).meta.shard_size,
            tally.bitset.raw().len() * 8 <= u32::MAX,
        ensures
            final(self).wf(),
            final(self).bitset == tally.bitset,
            final(self).meta.present_count == count_true(all_bits(tally.bitset.raw())),
            final(self).meta.complete == (final(self).meta.present_count >= old(self).meta.shard_size),
            final(self).meta.sorted,
            !final(self).meta.sealed,
            final(self).meta.content_hash is None,
            final(self).meta.tail_block == Some(tail_block),
            final(self).meta.compaction_phase is None,
            final(self).meta.total_transactions == tally.total_transactions,
            final(self).meta.total_receipts == tally.total_receipts,
            final(self).meta.total_logs == old(self).meta.total_logs,
            final(self).meta.shard_start == old(self).meta.shard_start,
            final(self).meta.shard_size == old(self).meta.shard_size,
    {
        let count = tally.bitset.count_ones();
        self.bitset = tally.bitset;
        self.meta.present_count = count;
        self.meta.complete = count as u64 >= self.meta.shard_size;
        self.meta.sorted = true;
        self.meta.sealed = false;
        self.meta.content_hash = None;
        self.meta.tail_block = Some(tail_block);
        self.meta.compaction_phase = None;
        self.meta.total_transactions = tally.total_transactions;
        self.meta.total_receipts = tally.total_receipts;
    }

    /// Seals the shard with the content hash `hash` when it has a tail
    /// block; returns whether it did.
    pub fn seal(&mut self, hash: String) -> (sealed: bool)
        requires
            old(self).wf(),
        ensures
            final(self).wf(),
            sealed == old(self).meta.tail_block is Some,
            sealed ==> final(self).meta.sealed && final(self).meta.content_hash == Some(hash)
                && final(self).meta.content_hash_algo@ == "sha256"@
                && final(self).meta.same_counts(old(self).meta)
                && final(self).meta.sorted == old(self).meta.sorted,
            !sealed ==> final(self).meta == old(self).meta,
            final(self).bitset == old(self).bitset,
    {
        if self.meta.tail_block.is_none() {
            return false;
        }
        self.meta.sealed = true;
        self.meta.content_hash = Some(hash);
        self.meta.content_hash_algo = default_hash_algo();
        true
    }

    /// Whether the shard has blocks waiting to be compacted: its log is not
    /// empty or it is not sorted.
    pub fn is_dirty(&self, wal_bytes: u64) -> (res: bool)
        ensures
            res == (wal_bytes > 0 || !self.meta.sorted),
    {
        wal_bytes > 0 || !self.meta.sorted
    }

    /// Whether the shard is ready to be sealed: complete, sorted, not sealed.
    pub fn ready_to_seal(&self) -> (res: bool)
        ensures
            res == (self.meta.complete && self.meta.sorted && !self.meta.sealed),
    {
        self.meta.complete && self.meta.sorted && !self.meta.sealed
    }
}

/// What rolling a shard back to `ancestor_number` leaves: the blocks above
/// the ancestor cleared (their count taken off the present count, never
/// below 0), the tail at the ancestor (none when the ancestor precedes the
/// shard), the shard unsealed, everything else as it was.
pub open spec fn rolled_back(before: ShardState, after: ShardState, ancestor_number: u64) -> bool {
    let so = rollback_start_offset(before.meta.shard_start, ancestor_number);
    let size = before.meta.shard_size as int;
    let cleared = if so < size { count_true(before.bitset@.subrange(so, size)) } else { 0 };
    &&& after.wf()
    &&& after.bitset@ == Seq::new(size as nat, |i: int| if i >= so { false } else { before.bitset@[i] })
    &&& after.meta.present_count == if before.meta.present_count >= cleared {
        before.meta.present_count - cleared
    } else {
        0
    }
    &&& after.meta.complete == (after.meta.present_count >= before.meta.shard_size)
    &&& after.meta.tail_block == if ancestor_number < before.meta.shard_start { None } else { Some(ancestor_number) }
    &&& !after.meta.sealed
    &&& after.meta.content_hash is None
    &&& after.meta.sorted == before.meta.sorted
    &&& after.meta.shard_start == before.meta.shard_start
    &&& after.meta.shard_size == before.meta.shard_size
    &&& before.bitset.padding_clear() ==> after.bitset.padding_clear()
}

/// First offset of a shard that a rollback to `ancestor_number` clears.
pub open spec fn rollback_start_offset(shard_start: u64, ancestor_number: u64) -> int {
    if ancestor_number < shard_start {
        0
    } else {
        let d = ancestor_number - shard_start + 1;
        if d > u64::MAX { u64::MAX as int } else { d }
    }
}

/// Where the content of a row comes from when a shard is compacted.
#[derive(Debug, Clone, Copy, PartialEq, Eq)]
pub enum RowSource {
    /// Neither the log nor the existing segments hold the block.
    Empty,
    /// The log holds the block; it wins over the existing segments.
    Wal,
    /// Only the existing segments hold the block (all five of them).
    Existing,
}

/// What a compaction learns while it rewrites the rows of a shard.
#[derive(Debug)]
pub struct CompactionTally {
    /// The blocks actually written.
    pub bitset: Bitset,
    /// The highest block written.
    pub tail_block: Option<u64>,
    pub total_transactions: u64,
    pub total_receipts: u64,
}

impl CompactionTally {
    pub fn new(shard_size: usize) -> (res: CompactionTally)
        ensures
            res.bitset.wf(),
            res.bitset.padding_clear(),
            res.bitset.size() == shard_size,
            forall|i: int| 0 <= i < shard_size ==> !#[trigger] res.bitset@[i],
            res.tail_block is None,
            res.total_transactions == 0,
            res.total_receipts == 0,
    {
        CompactionTally { bitset: Bitset::new(shard_size), tail_block: None, total_transactions: 0, total_receipts: 0 }
    }

    /// Decides the source of row `offset` of the shard starting at
    /// `shard_start`, and, when the row has data, marks the block present,
    /// raises the tail and adds `tx_count` transactions (and as many
    /// receipts: one per transaction).
    pub fn record_row(&mut self, shard_start: u64, offset: usize, in_wal: bool, in_existing: bool, tx_count: u64) -> (src: RowSource)
        requires
            old(self).bitset.wf(),
            offset < old(self).bitset.size(),
            shard_start + offset <= u64::MAX,
            (in_wal || in_existing) ==> old(self).total_transactions + tx_count <= u64::MAX,
            (in_wal || in_existing) ==> old(self).total_receipts + tx_count <= u64::MAX,
        ensures
            final(self).bitset.wf(),
            final(self).bitset.size() == old(self).bitset.size(),
            old(self).bitset.padding_clear() ==> final(self).bitset.padding_clear(),
            src == if in_wal { RowSource::Wal } else if in_existing { RowSource::Existing } else { RowSource::Empty },
            src == RowSource::Empty ==> final(self).bitset@ == old(self).bitset@
                && final(self).tail_block == old(self).tail_block
                && final(self).total_transactions == old(self).total_transactions
                && final(self).total_receipts == old(self).total_receipts,
            src != RowSource::Empty ==> {
                let block = (shard_start + offset) as u64;
                &&& final(self).bitset@ == old(self).bitset@.update(offset as int, true)
                &&& final(self).tail_block == Some(match old(self).tail_block {
                    Some(t) => if t >= block { t } else { block },
                    None => block,
                })
                &&& final(self).total_transactions == old(self).total_transactions + tx_count
                &&& final(self).total_receipts == old(self).total_receipts + tx_count
            },
    {
        if !in_wal && !in_existing {
            return RowSource::Empty;
        }
        self.bitset.set(offset);
        let block = shard_start + offset as u64;
        self.tail_block = Some(
            match self.tail_block {
                Some(t) => if t >= block { t } else { block },
                None => block,
            },
        );
        self.total_transactions = self.total_transactions + tx_count;
        self.total_receipts = self.total_receipts + tx_count;
        if in_wal {
            RowSource::Wal
        } else {
            RowSource::Existing
        }
    }
}

/// The transaction count of row `o` as a compaction takes it: from the log
/// when the log holds the row, else from the existing segments when they
/// hold all of it; `None` when neither does.
pub open spec fn row_tx(wal: Seq<Option<u64>>, existing: Seq<Option<u64>>, o: int) -> Option<u64> {
    if 0 <= o < wal.len() && wal[o] is Some {
        wal[o]
    } else if 0 <= o < existing.len() && existing[o] is Some {
        existing[o]
    } else {
        None
    }
}

/// Where a compaction takes row `o` from.
pub open spec fn row_source(wal: Seq<Option<u64>>, existing: Seq<Option<u64>>, o: int) -> RowSource {
    if 0 <= o < wal.len() && wal[o] is Some {
        RowSource::Wal
    } else if 0 <= o < existing.len() && existing[o] is Some {
        RowSource::Existing
    } else {
        RowSource::Empty
    }
}

/// The transactions of the first `n` rows a compaction takes.
pub open spec fn rows_tx_total(wal: Seq<Option<u64>>, existing: Seq<Option<u64>>, n: int) -> int
    decreases n,
{
    if n <= 0 {
        0
    } else {
        rows_tx_total(wal, existing, n - 1) + match row_tx(wal, existing, n - 1) {
            Some(c) => c as int,
            None => 0,
        }
    }
}

/// The highest of the first `n` rows that holds a block.
pub open spec fn last_data_row(wal: Seq<Option<u64>>, existing: Seq<Option<u64>>, n: int) -> Option<int>
    decreases n,
{
    if n <= 0 {
        None
    } else if row_tx(wal, existing, n - 1) is Some {
        Some(n - 1)
    } else {
        last_data_row(wal, existing, n - 1)
    }
}

proof fn lemma_rows_tx_total_grows(wal: Seq<Option<u64>>, existing: Seq<Option<u64>>, i: int, n: int)
    requires
        0 <= i <= n,
    ensures
        rows_tx_total(wal, existing, i) <= rows_tx_total(wal, existing, n),
    decreases n - i,
{
    if i < n {
        lemma_rows_tx_total_grows(wal, existing, i, n - 1);
    }
}

proof fn lemma_last_data_row_below(wal: Seq<Option<u64>>, existing: Seq<Option<u64>>, n: int)
    ensures
        last_data_row(wal, existing, n) matches Some(o) ==> 0 <= o < n,
    decreases n,
{
    if n > 0 {
        lemma_last_data_row_below(wal, existing, n - 1);
    }
}

/// Runs the row loop of a compaction over rows `0..total_rows` of the shard
/// starting at `shard_start`: `wal[o]` and `existing[o]` are the
/// transaction counts of row `o` in the log and in the existing segments
/// (`None` where they do not hold it whole; rows past either list are not
/// held). Each row is taken as `row_source` says; the tally marks exactly
/// the rows taken, sums their transactions (receipts count the same), and
/// its tail is the highest block taken. Returns the tally and the source of
/// each row.
pub fn tally_rows(shard_start: u64, shard_size: usize, wal: &Vec<Option<u64>>, existing: &Vec<Option<u64>>,
    total_rows: usize) -> (res: (CompactionTally, Vec<RowSource>))
    requires
        total_rows <= shard_size,
        shard_start + shard_size <= u64::MAX,
        rows_tx_total(wal@, existing@, total_rows as int) <= u64::MAX,
    ensures
        res.0.bitset.wf(),
        res.0.bitset.padding_clear(),
        res.0.bitset.size() == shard_size,
        forall|o: int| 0 <= o < shard_size ==> #[trigger] res.0.bitset@[o]
            == (o < total_rows && row_tx(wal@, existing@, o) is Some),
        res.1@.len() == total_rows,
        forall|o: int| 0 <= o < total_rows ==> #[trigger] res.1@[o] == row_source(wal@, existing@, o),
        res.0.total_transactions == rows_tx_total(wal@, existing@, total_rows as int),
        res.0.total_receipts == rows_tx_total(wal@, existing@, total_rows as int),
        res.0.tail_block == match last_data_row(wal@, existing@, total_rows as int) {
            Some(o) => Some((shard_start + o) as u64),
            None => None::<u64>,
        },
{
    let mut tally = CompactionTally::new(shard_size);
    let mut sources: Vec<RowSource> = Vec::new();
    let mut o: usize = 0;
    while o < total_rows
        invariant
            o <= total_rows <= shard_size,
            shard_start + shard_size <= u64::MAX,
            rows_tx_total(wal@, existing@, total_rows as int) <= u64::MAX,
            tally.bitset.wf(),
            tally.bitset.padding_clear(),
            tally.bitset.size() == shard_size,
            forall|k: int| 0 <= k < shard_size ==> #[trigger] tally.bitset@[k]
                == (k < o && row_tx(wal@, existing@, k) is Some),
            sources@.len() == o,
            forall|k: int| 0 <= k < o ==> #[trigger] sources@[k] == row_source(wal@, existing@, k),
            tally.total_transactions == rows_tx_total(wal@, existing@, o as int),
            tally.total_receipts == rows_tx_total(wal@, existing@, o as int),
            tally.tail_block == match last_data_row(wal@, existing@, o as int) {
                Some(k) => Some((shard_start + k) as u64),
                None => None::<u64>,
            },
        decreases total_rows - o,
    {
        let w = if o < wal.len() { wal[o] } else { None };
        let e = if o < existing.len() { existing[o] } else { None };
        let tx_count = match w {
            Some(c) => c,
            None => match e {
                Some(c) => c,
                None => 0,
            },
        };
        proof {
            lemma_rows_tx_total_grows(wal@, existing@, o as int + 1, total_rows as int);
            lemma_last_data_row_below(wal@, existing@, o as int);
            tally.bitset.lemma_view();
        }
        let src = tally.record_row(shard_start, o, w.is_some(), e.is_some(), tx_count);
        proof {
            tally.bitset.lemma_view();
        }
        sources.push(src);
        o = o + 1;
    }
    (tally, sources)
}

/// Number of rows a compaction rewrites: up to the highest row held by the
/// log or by the existing segments; `None` when neither holds any row.
pub fn compaction_row_count(wal_max_offset: Option<usize>, existing_rows: usize) -> (res: Option<usize>)
    ensures
        (wal_max_offset is None && existing_rows == 0) ==> res is None,
        !(wal_max_offset is None && existing_rows == 0) ==> res == Some(({
            let w = match wal_max_offset { Some(m) => m as int, None => 0 };
            let e = if existing_rows >= 1 { existing_rows - 1 } else { 0 };
            let m = if w >= e { w } else { e };
            if m + 1 > usize::MAX { usize::MAX as int } else { m + 1 }
        }) as usize),
{
    let max_offset = match wal_max_offset {
        Some(m) => m,
        None => 0,
    };
    let existing_last = existing_rows.saturating_sub(1);
    let max_offset = if max_offset >= existing_last { max_offset } else { existing_last };
    if max_offset == 0 && wal_max_offset.is_none() && existing_rows == 0 {
        return None;
    }
    Some(max_offset.saturating_add(1))
}

/// Highest offset that holds an entry.
pub fn max_entry_offset<T>(entries: &Vec<Option<T>>) -> (res: Option<usize>)
    ensures
        res is None ==> forall|i: int| 0 <= i < entries@.len() ==> #[trigger] entries@[i] is None,
        res matches Some(m) ==> m < entries@.len() && entries@[m as int] is Some
            && forall|i: int| m < i < entries@.len() ==> #[trigger] entries@[i] is None,
{
    let mut n = entries.len();
    while n > 0
        invariant
            n <= entries@.len(),
            forall|i: int| n <= i < entries@.len() ==> #[trigger] entries@[i] is None,
        decreases n,
    {
        if entries[n - 1].is_some() {
            return Some(n - 1);
        }
        n = n - 1;
    }
    None
}


/// The members (positions into `numbers`) whose blocks a log append takes,
/// in order: a block is taken when its bit is clear and no earlier member
/// has the same block.
pub open spec fn wal_selection(shard: ShardState, numbers: Seq<u64>, members: Seq<usize>) -> Seq<usize>
    decreases members.len(),
{
    if members.len() == 0 {
        Seq::empty()
    } else {
        let prev = wal_selection(shard, numbers, members.drop_last());
        let m = members.last();
        let b = numbers[m as int];
        if !shard.bitset@[b - shard.meta.shard_start]
            && !(exists|j: int| 0 <= j < members.len() - 1 && #[trigger] numbers[members[j] as int] == b) {
            prev.push(m)
        } else {
            prev
        }
    }
}

/// Every member a log append takes is a member whose block is absent.
pub open spec fn selection_absent_members(shard: ShardState, numbers: Seq<u64>, members: Seq<usize>, sel: Seq<usize>) -> bool {
    forall|k: int| 0 <= k < sel.len() ==> {
        &&& exists|j: int| 0 <= j < members.len() && members[j] == #[trigger] sel[k]
        &&& !shard.bitset@[numbers[sel[k] as int] - shard.meta.shard_start]
    }
}

/// No two members a log append takes have the same block.
pub open spec fn selection_distinct(numbers: Seq<u64>, sel: Seq<usize>) -> bool {
    forall|p: int, q: int| 0 <= p < q < sel.len() ==> numbers[#[trigger] sel[p] as int] != numbers[#[trigger] sel[q] as int]
}

/// Every absent block of the members is taken by the log append.
pub open spec fn selection_covers(shard: ShardState, numbers: Seq<u64>, members: Seq<usize>, sel: Seq<usize>) -> bool {
    forall|j: int| 0 <= j < members.len() && !shard.bitset@[numbers[#[trigger] members[j] as int] - shard.meta.shard_start]
        ==> exists|p: int| 0 <= p < sel.len() && numbers[#[trigger] sel[p] as int] == numbers[members[j] as int]
}

proof fn lemma_selection_absent_members(shard: ShardState, numbers: Seq<u64>, members: Seq<usize>)
    ensures
        selection_absent_members(shard, numbers, members, wal_selection(shard, numbers, members)),
    decreases members.len(),
{
    if members.len() > 0 {
        let ms = members.drop_last();
        lemma_selection_absent_members(shard, numbers, ms);
        let prev = wal_selection(shard, numbers, ms);
        let sel = wal_selection(shard, numbers, members);
        assert forall|k: int| 0 <= k < sel.len() implies {
            &&& exists|j: int| 0 <= j < members.len() && members[j] == #[trigger] sel[k]
            &&& !shard.bitset@[numbers[sel[k] as int] - shard.meta.shard_start]
        } by {
            if k < prev.len() {
                assert(sel[k] == prev[k]);
                let j = choose|j: int| 0 <= j < ms.len() && ms[j] == #[trigger] prev[k];
                assert(members[j] == ms[j]);
            } else {
                assert(members[members.len() - 1] == sel[k]);
            }
        }
    }
}

proof fn lemma_selection_distinct(shard: ShardState, numbers: Seq<u64>, members: Seq<usize>)
    ensures
        selection_distinct(numbers, wal_selection(shard, numbers, members)),
    decreases members.len(),
{
    if members.len() > 0 {
        let ms = members.drop_last();
        lemma_selection_distinct(shard, numbers, ms);
        lemma_selection_absent_members(shard, numbers, ms);
        let prev = wal_selection(shard, numbers, ms);
        let sel = wal_selection(shard, numbers, members);
        let b = numbers[members.last() as int];
        assert forall|p: int, q: int| 0 <= p < q < sel.len() implies
            numbers[#[trigger] sel[p] as int] != numbers[#[trigger] sel[q] as int] by {
            assert(sel[p] == prev[p]);
            if q >= prev.len() {
                let j = choose|j: int| 0 <= j < ms.len() && ms[j] == #[trigger] prev[p];
                assert(members[j] == ms[j]);
                assert(numbers[members[j] as int] != b);
            } else {
                assert(sel[q] == prev[q]);
            }
        }
    }
}

proof fn lemma_selection_covers(shard: ShardState, numbers: Seq<u64>, members: Seq<usize>)
    ensures
        selection_covers(shard, numbers, members, wal_selection(shard, numbers, members)),
    decreases members.len(),
{
    if members.len() > 0 {
        let ms = members.drop_last();
        lemma_selection_covers(shard, numbers, ms);
        let prev = wal_selection(shard, numbers, ms);
        let sel = wal_selection(shard, numbers, members);
        let m = members.last();
        let b = numbers[m as int];
        assert forall|j: int| 0 <= j < members.len() && !shard.bitset@[numbers[#[trigger] members[j] as int] - shard.meta.shard_start]
            implies exists|p: int| 0 <= p < sel.len() && numbers[#[trigger] sel[p] as int] == numbers[members[j] as int] by {
            if j < members.len() - 1 {
                assert(ms[j] == members[j]);
                let p = choose|p: int| 0 <= p < prev.len() && numbers[#[trigger] prev[p] as int] == numbers[ms[j] as int];
                assert(sel[p] == prev[p]);
            } else if exists|j2: int| 0 <= j2 < members.len() - 1 && #[trigger] numbers[members[j2] as int] == b {
                let j2 = choose|j2: int| 0 <= j2 < members.len() - 1 && #[trigger] numbers[members[j2] as int] == b;
                assert(ms[j2] == members[j2]);
                let p = choose|p: int| 0 <= p < prev.len() && numbers[#[trigger] prev[p] as int] == numbers[ms[j2] as int];
                assert(sel[p] == prev[p]);
            } else {
                assert(sel[prev.len() as int] == m);
            }
        }
    }
}

/// What a log append takes: members whose blocks are absent (bit clear),
/// each block at most once, and every absent block of the members once;
/// present blocks and repeats are skipped.
pub proof fn lemma_wal_selection(shard: ShardState, numbers: Seq<u64>, members: Seq<usize>)
    ensures
        selection_absent_members(shard, numbers, members, wal_selection(shard, numbers, members)),
        selection_distinct(numbers, wal_selection(shard, numbers, members)),
        selection_covers(shard, numbers, members, wal_selection(shard, numbers, members)),
{
    lemma_selection_absent_members(shard, numbers, members);
    lemma_selection_distinct(shard, numbers, members);
    lemma_selection_covers(shard, numbers, members);
}

/// The sum of `counts` at the given positions.
pub open spec fn sum_at(counts: Seq<u64>, idx: Seq<usize>) -> int
    decreases idx.len(),
{
    if idx.len() == 0 {
        0
    } else {
        sum_at(counts, idx.drop_last()) + counts[idx.last() as int]
    }
}

impl ShardState {
    /// Of the blocks `numbers[m]` for `m` in `members` (all in this shard),
    /// the members whose blocks go to the log: see `wal_selection`.
    pub fn select_wal_records(&self, numbers: &Vec<u64>, members: &Vec<usize>) -> (res: Vec<usize>)
        requires
            self.wf(),
            forall|k: int| 0 <= k < members@.len() ==> {
                let m = #[trigger] members@[k];
                &&& m < numbers@.len()
                &&& self.meta.shard_start <= numbers@[m as int] < self.meta.shard_start + self.meta.shard_size
            },
        ensures
            res@ == wal_selection(*self, numbers@, members@),
    {
        proof {
            self.bitset.lemma_view();
        }
        let mut out: Vec<usize> = Vec::new();
        let mut k: usize = 0;
        while k < members.len()
            invariant
                self.wf(),
                self.bitset@.len() == self.meta.shard_size,
                k <= members@.len(),
                forall|q: int| 0 <= q < members@.len() ==> {
                    let m = #[trigger] members@[q];
                    &&& m < numbers@.len()
                    &&& self.meta.shard_start <= numbers@[m as int] < self.meta.shard_start + self.meta.shard_size
                },
                out@ == wal_selection(*self, numbers@, members@.take(k as int)),
            decreases members@.len() - k,
        {
            let m = members[k];
            let b = numbers[m];
            assert(self.meta.shard_size <= usize::MAX) by {
                self.bitset.lemma_view();
            }
            let offset = (b - self.meta.shard_start) as usize;
            let mut seen = false;
            let mut j: usize = 0;
            while j < k
                invariant
                    j <= k < members@.len(),
                    forall|q: int| 0 <= q < members@.len() ==> #[trigger] members@[q] < numbers@.len(),
                    b == numbers@[members@[k as int] as int],
                    seen == exists|q: int| 0 <= q < j && #[trigger] numbers@[members@[q] as int] == b,
                decreases k - j,
            {
                if numbers[members[j]] == b {
                    seen = true;
                }
                j = j + 1;
            }
            proof {
                let t = members@.take(k + 1);
                assert(t.drop_last() =~= members@.take(k as int));
                assert(t.last() == m);
                assert(seen == exists|q: int| 0 <= q < t.len() - 1 && #[trigger] numbers@[t[q] as int] == b) by {
                    if seen {
                        let q = choose|q: int| 0 <= q < k && #[trigger] numbers@[members@[q] as int] == b;
                        assert(t[q] == members@[q]);
                    }
                    if exists|q: int| 0 <= q < t.len() - 1 && #[trigger] numbers@[t[q] as int] == b {
                        let q = choose|q: int| 0 <= q < t.len() - 1 && #[trigger] numbers@[t[q] as int] == b;
                        assert(t[q] == members@[q]);
                    }
                }
            }
            let present = self.bitset.is_set(offset);
            proof {
                let t = members@.take(k + 1);
                assert(present == self.bitset@[b - self.meta.shard_start]);
                assert(wal_selection(*self, numbers@, t) == if !self.bitset@[b - self.meta.shard_start] && !seen {
                    wal_selection(*self, numbers@, members@.take(k as int)).push(m)
                } else {
                    wal_selection(*self, numbers@, members@.take(k as int))
                });
            }
            if !present && !seen {
                out.push(m);
            }
            k = k + 1;
        }
        proof {
            assert(members@.take(members@.len() as int) =~= members@);
        }
        out
    }

    /// Records an append to the shard's log: adds `logs_delta` to the log
    /// count and, when records were appended to a sorted shard, marks it as
    /// needing compaction. Returns whether the metadata must be saved.
    pub fn record_wal_append(&mut self, appended: bool, logs_delta: u64) -> (persist: bool)
        requires
            old(self).wf(),
            old(self).meta.total_logs + logs_delta <= u64::MAX,
        ensures
            final(self).wf(),
            final(self).bitset == old(self).bitset,
            final(self).meta.total_logs == old(self).meta.total_logs + logs_delta,
            final(self).meta.sorted == (old(self).meta.sorted && !appended),
            (appended && old(self).meta.sorted) ==> !final(self).meta.sealed && final(self).meta.content_hash is None,
            !(appended && old(self).meta.sorted) ==> final(self).meta.sealed == old(self).meta.sealed
                && final(self).meta.content_hash == old(self).meta.content_hash,
            final(self).meta.shard_start == old(self).meta.shard_start,
            final(self).meta.shard_size == old(self).meta.shard_size,
            final(self).meta.present_count == old(self).meta.present_count,
            final(self).meta.complete == old(self).meta.complete,
            final(self).meta.tail_block == old(self).meta.tail_block,
            final(self).meta.total_transactions == old(self).meta.total_transactions,
            final(self).meta.total_receipts == old(self).meta.total_receipts,
            persist == ((appended && old(self).meta.sorted) || logs_delta > 0),
    {
        self.meta.total_logs = self.meta.total_logs + logs_delta;
        if appended && self.meta.sorted {
            self.meta.mark_wal_pending();
            true
        } else {
            logs_delta > 0
        }
    }
}

/// The sum of `counts` at the positions `idx`; `None` when it does not fit
/// in `u64`.
pub fn sum_counts_at(counts: &Vec<u64>, idx: &Vec<usize>) -> (res: Option<u64>)
    requires
        forall|k: int| 0 <= k < idx@.len() ==> #[trigger] idx@[k] < counts@.len(),
    ensures
        match res {
            Some(v) => v == sum_at(counts@, idx@),
            None => sum_at(counts@, idx@) > u64::MAX,
        },
{
    let mut total: u64 = 0;
    let mut k: usize = 0;
    while k < idx.len()
        invariant
            k <= idx@.len(),
            forall|q: int| 0 <= q < idx@.len() ==> #[trigger] idx@[q] < counts@.len(),
            total == sum_at(counts@, idx@.take(k as int)),
        decreases idx@.len() - k,
    {
        proof {
            assert(idx@.take(k + 1).drop_last() =~= idx@.take(k as int));
            lemma_sum_at_grows(counts@, idx@, k as int);
        }
        match total.checked_add(counts[idx[k]]) {
            Some(t) => total = t,
            None => {
                return None;
            },
        }
        k = k + 1;
    }
    proof {
        assert(idx@.take(idx@.len() as int) =~= idx@);
    }
    Some(total)
}

/// Sums over longer prefixes are at least as large.
pub proof fn lemma_sum_at_grows(counts: Seq<u64>, idx: Seq<usize>, k: int)
    requires
        0 <= k < idx.len(),
    ensures
        sum_at(counts, idx.take(k + 1)) <= sum_at(counts, idx),
        sum_at(counts, idx.take(k)) >= 0,
    decreases idx.len() - k,
{
    lemma_sum_at_nonneg(counts, idx.take(k));
    if k + 1 < idx.len() {
        lemma_sum_at_grows(counts, idx, k + 1);
        assert(idx.take(k + 2).drop_last() =~= idx.take(k + 1));
    } else {
        assert(idx.take(k + 1) =~= idx);
    }
}

pub proof fn lemma_sum_at_nonneg(counts: Seq<u64>, idx: Seq<usize>)
    ensures
        sum_at(counts, idx) >= 0,
    decreases idx.len(),
{
    if idx.len() > 0 {
        lemma_sum_at_nonneg(counts, idx.drop_last());
    }
}

} // verus!
