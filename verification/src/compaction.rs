//! The file protocol of a shard compaction: which step comes next, given the
//! recorded phase and the files of the shard, and why a crash at any point
//! of it is recovered (see `recover_shard`) without losing data.

use vstd::prelude::*;
use crate::shard::{recovery_plan, remove_if, rename_if, CompactionPhase, DirAction, ShardArtifact, ShardFiles};

verus! {

/// The phase a compaction records in the shard metadata before its next
/// steps; `Done` clears it.
#[derive(Debug, Clone, Copy, PartialEq, Eq)]
pub enum PhaseMark {
    Writing,
    Swapping,
    Cleanup,
    Done,
}

/// One step of a compaction.
#[derive(Debug, Clone, Copy, PartialEq, Eq)]
pub enum CompactionStep {
    /// Record the phase (persisting the shard metadata).
    Mark(PhaseMark),
    /// Change the shard directory.
    Act(DirAction),
    /// Write the new segments to `sorted.tmp` and the new bitset to
    /// `bitset.tmp`.
    WriteTmp,
}

/// The recorded phase a mark stands for.
pub open spec fn phase_of(mark: Option<PhaseMark>) -> Option<CompactionPhase> {
    match mark {
        Some(PhaseMark::Writing) => Some(CompactionPhase::Writing),
        Some(PhaseMark::Swapping) => Some(CompactionPhase::Swapping),
        Some(PhaseMark::Cleanup) => Some(CompactionPhase::Cleanup),
        _ => None,
    }
}

/// The next step of a compaction, from the last phase recorded (`None`
/// before the compaction starts), what writing the new files found (`None`
/// before they are written, `Some(true)` when rows had data,
/// `Some(false)` when there was nothing to compact or no row had data),
/// and which files exist: record the writing phase; remove leftover
/// scratch files and write the new ones; then either, when nothing was
/// found, remove the scratch files and the log and record the end (the
/// shard is sorted, with no swap), or record the swapping phase; move the
/// live segments (then the live bitset) to `.old`, after removing a stale
/// `.old` copy, and the new ones in their place; record the cleanup phase;
/// remove the `.old` copies and the log; record the end. `None` once done.
pub open spec fn next_step_spec(mark: Option<PhaseMark>, written: Option<bool>, f: ShardFiles) -> Option<CompactionStep> {
    match mark {
        None => Some(CompactionStep::Mark(PhaseMark::Writing)),
        Some(PhaseMark::Writing) => match written {
            Some(true) => Some(CompactionStep::Mark(PhaseMark::Swapping)),
            Some(false) => if f.sorted_tmp {
                Some(CompactionStep::Act(DirAction::Remove(ShardArtifact::SortedTmp)))
            } else if f.bitset_tmp {
                Some(CompactionStep::Act(DirAction::Remove(ShardArtifact::BitsetTmp)))
            } else if f.wal {
                Some(CompactionStep::Act(DirAction::Remove(ShardArtifact::Wal)))
            } else {
                Some(CompactionStep::Mark(PhaseMark::Done))
            },
            None => if f.sorted_tmp {
                Some(CompactionStep::Act(DirAction::Remove(ShardArtifact::SortedTmp)))
            } else if f.bitset_tmp {
                Some(CompactionStep::Act(DirAction::Remove(ShardArtifact::BitsetTmp)))
            } else {
                Some(CompactionStep::WriteTmp)
            },
        },
        Some(PhaseMark::Swapping) => if f.sorted_tmp {
            if f.sorted {
                if f.sorted_old {
                    Some(CompactionStep::Act(DirAction::Remove(ShardArtifact::SortedOld)))
                } else {
                    Some(CompactionStep::Act(DirAction::Rename { from: ShardArtifact::Sorted, to: ShardArtifact::SortedOld }))
                }
            } else {
                Some(CompactionStep::Act(DirAction::Rename { from: ShardArtifact::SortedTmp, to: ShardArtifact::Sorted }))
            }
        } else if f.bitset_tmp {
            if f.bitset {
                if f.bitset_old {
                    Some(CompactionStep::Act(DirAction::Remove(ShardArtifact::BitsetOld)))
                } else {
                    Some(CompactionStep::Act(DirAction::Rename { from: ShardArtifact::Bitset, to: ShardArtifact::BitsetOld }))
                }
            } else {
                Some(CompactionStep::Act(DirAction::Rename { from: ShardArtifact::BitsetTmp, to: ShardArtifact::Bitset }))
            }
        } else {
            Some(CompactionStep::Mark(PhaseMark::Cleanup))
        },
        Some(PhaseMark::Cleanup) => if f.sorted_old {
            Some(CompactionStep::Act(DirAction::Remove(ShardArtifact::SortedOld)))
        } else if f.bitset_old {
            Some(CompactionStep::Act(DirAction::Remove(ShardArtifact::BitsetOld)))
        } else if f.wal {
            Some(CompactionStep::Act(DirAction::Remove(ShardArtifact::Wal)))
        } else {
            Some(CompactionStep::Mark(PhaseMark::Done))
        },
        Some(PhaseMark::Done) => None,
    }
}

/// The next step of a compaction (see `next_step_spec`).
pub fn next_compaction_step(mark: Option<PhaseMark>, written: Option<bool>, f: ShardFiles) -> (res: Option<CompactionStep>)
    ensures
        res == next_step_spec(mark, written, f),
{
    match mark {
        None => Some(CompactionStep::Mark(PhaseMark::Writing)),
        Some(PhaseMark::Writing) => match written {
            Some(true) => Some(CompactionStep::Mark(PhaseMark::Swapping)),
            Some(false) => if f.sorted_tmp {
                Some(CompactionStep::Act(DirAction::Remove(ShardArtifact::SortedTmp)))
            } else if f.bitset_tmp {
                Some(CompactionStep::Act(DirAction::Remove(ShardArtifact::BitsetTmp)))
            } else if f.wal {
                Some(CompactionStep::Act(DirAction::Remove(ShardArtifact::Wal)))
            } else {
                Some(CompactionStep::Mark(PhaseMark::Done))
            },
            None => if f.sorted_tmp {
                Some(CompactionStep::Act(DirAction::Remove(ShardArtifact::SortedTmp)))
            } else if f.bitset_tmp {
                Some(CompactionStep::Act(DirAction::Remove(ShardArtifact::BitsetTmp)))
            } else {
                Some(CompactionStep::WriteTmp)
            },
        },
        Some(PhaseMark::Swapping) => if f.sorted_tmp {
            if f.sorted {
                if f.sorted_old {
                    Some(CompactionStep::Act(DirAction::Remove(ShardArtifact::SortedOld)))
                } else {
                    Some(CompactionStep::Act(DirAction::Rename { from: ShardArtifact::Sorted, to: ShardArtifact::SortedOld }))
                }
            } else {
                Some(CompactionStep::Act(DirAction::Rename { from: ShardArtifact::SortedTmp, to: ShardArtifact::Sorted }))
            }
        } else if f.bitset_tmp {
            if f.bitset {
                if f.bitset_old {
                    Some(CompactionStep::Act(DirAction::Remove(ShardArtifact::BitsetOld)))
                } else {
                    Some(CompactionStep::Act(DirAction::Rename { from: ShardArtifact::Bitset, to: ShardArtifact::BitsetOld }))
                }
            } else {
                Some(CompactionStep::Act(DirAction::Rename { from: ShardArtifact::BitsetTmp, to: ShardArtifact::Bitset }))
            }
        } else {
            Some(CompactionStep::Mark(PhaseMark::Cleanup))
        },
        Some(PhaseMark::Cleanup) => if f.sorted_old {
            Some(CompactionStep::Act(DirAction::Remove(ShardArtifact::SortedOld)))
        } else if f.bitset_old {
            Some(CompactionStep::Act(DirAction::Remove(ShardArtifact::BitsetOld)))
        } else if f.wal {
            Some(CompactionStep::Act(DirAction::Remove(ShardArtifact::Wal)))
        } else {
            Some(CompactionStep::Mark(PhaseMark::Done))
        },
        Some(PhaseMark::Done) => None,
    }
}

/// What a file holds: a leftover of an earlier interrupted compaction, the
/// data before this compaction, or the data it writes.
#[derive(Debug, Clone, Copy, PartialEq, Eq)]
pub enum Content {
    Stale,
    Old,
    New,
}

/// The files of a shard directory with what they hold; the log, when it
/// exists, holds the blocks staged before the compaction.
#[derive(Debug, Clone, Copy, PartialEq, Eq)]
pub struct DiskState {
    pub sorted: Option<Content>,
    pub sorted_old: Option<Content>,
    pub sorted_tmp: Option<Content>,
    pub bitset: Option<Content>,
    pub bitset_old: Option<Content>,
    pub bitset_tmp: Option<Content>,
    pub wal: bool,
}

/// Which files exist.
pub open spec fn files_of(d: DiskState) -> ShardFiles {
    ShardFiles {
        sorted: d.sorted is Some,
        sorted_old: d.sorted_old is Some,
        sorted_tmp: d.sorted_tmp is Some,
        bitset: d.bitset is Some,
        bitset_old: d.bitset_old is Some,
        bitset_tmp: d.bitset_tmp is Some,
        wal: d.wal,
    }
}

/// The shard directory before a compaction with files `f`: the live
/// segments and bitset hold the current data, any scratch or `.old` file is
/// a leftover.
pub open spec fn initial_disk(f: ShardFiles) -> DiskState {
    DiskState {
        sorted: if f.sorted { Some(Content::Old) } else { None },
        sorted_old: if f.sorted_old { Some(Content::Stale) } else { None },
        sorted_tmp: if f.sorted_tmp { Some(Content::Stale) } else { None },
        bitset: if f.bitset { Some(Content::Old) } else { None },
        bitset_old: if f.bitset_old { Some(Content::Stale) } else { None },
        bitset_tmp: if f.bitset_tmp { Some(Content::Stale) } else { None },
        wal: f.wal,
    }
}

pub open spec fn content_of(d: DiskState, a: ShardArtifact) -> Option<Content> {
    match a {
        ShardArtifact::Sorted => d.sorted,
        ShardArtifact::SortedOld => d.sorted_old,
        ShardArtifact::SortedTmp => d.sorted_tmp,
        ShardArtifact::Bitset => d.bitset,
        ShardArtifact::BitsetOld => d.bitset_old,
        ShardArtifact::BitsetTmp => d.bitset_tmp,
        ShardArtifact::Wal => if d.wal { Some(Content::Old) } else { None },
    }
}

pub open spec fn with_content(d: DiskState, a: ShardArtifact, c: Option<Content>) -> DiskState {
    match a {
        ShardArtifact::Sorted => DiskState { sorted: c, ..d },
        ShardArtifact::SortedOld => DiskState { sorted_old: c, ..d },
        ShardArtifact::SortedTmp => DiskState { sorted_tmp: c, ..d },
        ShardArtifact::Bitset => DiskState { bitset: c, ..d },
        ShardArtifact::BitsetOld => DiskState { bitset_old: c, ..d },
        ShardArtifact::BitsetTmp => DiskState { bitset_tmp: c, ..d },
        ShardArtifact::Wal => DiskState { wal: c is Some, ..d },
    }
}

/// The directory after an action: a removed file is gone, a renamed one
/// carries what it holds to its new name.
pub open spec fn disk_action(d: DiskState, act: DirAction) -> DiskState {
    match act {
        DirAction::Remove(a) => with_content(d, a, None),
        DirAction::Rename { from, to } => with_content(with_content(d, from, None), to, content_of(d, from)),
    }
}

/// The directory after a sequence of actions, in order.
pub open spec fn disk_actions(d: DiskState, acts: Seq<DirAction>) -> DiskState
    decreases acts.len(),
{
    if acts.len() == 0 {
        d
    } else {
        disk_actions(disk_action(d, acts[0]), acts.drop_first())
    }
}

/// The directory after a step of the compaction.
pub open spec fn step_disk(d: DiskState, s: CompactionStep) -> DiskState {
    match s {
        CompactionStep::Mark(_) => d,
        CompactionStep::Act(a) => disk_action(d, a),
        CompactionStep::WriteTmp => DiskState { sorted_tmp: Some(Content::New), bitset_tmp: Some(Content::New), ..d },
    }
}

/// The state of a compaction of a shard whose files were `f` after `n`
/// steps, when writing the new files finds data (`has_data`) or not: the
/// last phase recorded, what writing found, and the directory.
pub open spec fn after_steps(f: ShardFiles, has_data: bool, n: nat) -> (Option<PhaseMark>, Option<bool>, DiskState)
    decreases n,
{
    if n == 0 {
        (None, None, initial_disk(f))
    } else {
        let (mark, written, d) = after_steps(f, has_data, (n - 1) as nat);
        match next_step_spec(mark, written, files_of(d)) {
            None => (mark, written, d),
            Some(s) => (
                match s {
                    CompactionStep::Mark(m) => Some(m),
                    _ => mark,
                },
                if s == CompactionStep::WriteTmp { Some(has_data) } else { written },
                step_disk(d, s),
            ),
        }
    }
}

/// What `recover_shard` leaves of directory `d` with phase `mark` recorded.
pub open spec fn recovered(mark: Option<PhaseMark>, d: DiskState) -> DiskState {
    disk_actions(d, recovery_plan(phase_of(mark), files_of(d)).1)
}

/// What recovery must give after a crash of the compaction of a shard whose
/// files were `f`, with phase `mark` recorded and `written` telling what
/// writing the new files found: no scratch file; the live segments and
/// bitset, if there were any, still there; the log gone only once the new
/// segments and bitset are live, or when the compaction found no block to
/// keep in it; the new bitset live only with the new segments; and, except
/// when a swap was interrupted (which marks the shard for another
/// compaction), the new segments live only with the new bitset.
pub open spec fn recovers_well(f: ShardFiles, mark: Option<PhaseMark>, written: Option<bool>, r: DiskState) -> bool {
    &&& r.sorted_tmp is None && r.bitset_tmp is None
    &&& f.sorted ==> r.sorted is Some
    &&& f.bitset ==> r.bitset is Some
    &&& f.wal && !r.wal ==> (r.sorted == Some(Content::New) && r.bitset == Some(Content::New)) || written == Some(false)
    &&& r.bitset == Some(Content::New) ==> r.sorted == Some(Content::New)
    &&& mark != Some(PhaseMark::Swapping) ==> (r.sorted == Some(Content::New) <==> r.bitset == Some(Content::New))
}

proof fn lemma_disk_concat(d: DiskState, a: Seq<DirAction>, b: Seq<DirAction>)
    ensures
        disk_actions(d, a + b) == disk_actions(disk_actions(d, a), b),
    decreases a.len(),
{
    if a.len() == 0 {
        assert(a + b =~= b);
    } else {
        assert((a + b).drop_first() =~= a.drop_first() + b);
        lemma_disk_concat(disk_action(d, a[0]), a.drop_first(), b);
    }
}

proof fn lemma_disk_remove_if(d: DiskState, cond: bool, a: ShardArtifact)
    ensures
        disk_actions(d, remove_if(cond, a)) == if cond { with_content(d, a, None) } else { d },
{
    if cond {
        let acts = seq![DirAction::Remove(a)];
        assert(acts.drop_first() =~= Seq::<DirAction>::empty());
        assert(disk_actions(d, acts) == disk_actions(disk_action(d, acts[0]), acts.drop_first()));
    }
}

proof fn lemma_disk_rename_if(d: DiskState, cond: bool, from: ShardArtifact, to: ShardArtifact)
    ensures
        disk_actions(d, rename_if(cond, from, to)) == if cond {
            disk_action(d, DirAction::Rename { from, to })
        } else {
            d
        },
{
    if cond {
        let acts = seq![DirAction::Rename { from, to }];
        assert(acts.drop_first() =~= Seq::<DirAction>::empty());
        assert(disk_actions(d, acts) == disk_actions(disk_action(d, acts[0]), acts.drop_first()));
    }
}

/// What recovery does to the directory, by phase.
proof fn lemma_recovered(mark: Option<PhaseMark>, d: DiskState)
    ensures
        ({
            let r = recovered(mark, d);
            match phase_of(mark) {
                Some(CompactionPhase::Writing) => r == DiskState { sorted_tmp: None, bitset_tmp: None, ..d },
                Some(CompactionPhase::Swapping) => r == DiskState {
                    sorted: if d.sorted is Some { d.sorted } else { d.sorted_old },
                    sorted_old: None,
                    sorted_tmp: None,
                    bitset: if d.bitset is Some { d.bitset } else { d.bitset_old },
                    bitset_old: None,
                    bitset_tmp: None,
                    wal: d.wal,
                },
                Some(CompactionPhase::Cleanup) => r == DiskState { sorted_old: None, bitset_old: None, wal: false, ..d },
                None => r == DiskState {
                    sorted: if d.sorted is Some { d.sorted } else { d.sorted_old },
                    sorted_old: None,
                    sorted_tmp: None,
                    bitset_old: None,
                    bitset_tmp: None,
                    ..d
                },
                _ => true,
            }
        }),
{
    let f = files_of(d);
    match phase_of(mark) {
        Some(CompactionPhase::Writing) => {
            let a = remove_if(f.sorted_tmp, ShardArtifact::SortedTmp);
            let b = remove_if(f.bitset_tmp, ShardArtifact::BitsetTmp);
            lemma_disk_concat(d, a, b);
            lemma_disk_remove_if(d, f.sorted_tmp, ShardArtifact::SortedTmp);
            lemma_disk_remove_if(disk_actions(d, a), f.bitset_tmp, ShardArtifact::BitsetTmp);
        },
        Some(CompactionPhase::Swapping) => {
            let s1 = rename_if(!f.sorted && f.sorted_old, ShardArtifact::SortedOld, ShardArtifact::Sorted);
            let s2 = rename_if(!f.bitset && f.bitset_old, ShardArtifact::BitsetOld, ShardArtifact::Bitset);
            let s3 = remove_if(f.sorted_tmp, ShardArtifact::SortedTmp);
            let s4 = remove_if(f.sorted && f.sorted_old, ShardArtifact::SortedOld);
            let s5 = remove_if(f.bitset_tmp, ShardArtifact::BitsetTmp);
            let s6 = remove_if(f.bitset && f.bitset_old, ShardArtifact::BitsetOld);
            let g1 = disk_actions(d, s1);
            let g2 = disk_actions(g1, s2);
            let g3 = disk_actions(g2, s3);
            let g4 = disk_actions(g3, s4);
            let g5 = disk_actions(g4, s5);
            lemma_disk_rename_if(d, !f.sorted && f.sorted_old, ShardArtifact::SortedOld, ShardArtifact::Sorted);
            lemma_disk_rename_if(g1, !f.bitset && f.bitset_old, ShardArtifact::BitsetOld, ShardArtifact::Bitset);
            lemma_disk_remove_if(g2, f.sorted_tmp, ShardArtifact::SortedTmp);
            lemma_disk_remove_if(g3, f.sorted && f.sorted_old, ShardArtifact::SortedOld);
            lemma_disk_remove_if(g4, f.bitset_tmp, ShardArtifact::BitsetTmp);
            lemma_disk_remove_if(g5, f.bitset && f.bitset_old, ShardArtifact::BitsetOld);
            lemma_disk_concat(d, s1, s2);
            lemma_disk_concat(d, s1 + s2, s3);
            lemma_disk_concat(d, s1 + s2 + s3, s4);
            lemma_disk_concat(d, s1 + s2 + s3 + s4, s5);
            lemma_disk_concat(d, s1 + s2 + s3 + s4 + s5, s6);
        },
        Some(CompactionPhase::Cleanup) => {
            let a = remove_if(f.sorted_old, ShardArtifact::SortedOld);
            let b = remove_if(f.bitset_old, ShardArtifact::BitsetOld);
            let c = remove_if(f.wal, ShardArtifact::Wal);
            let g1 = disk_actions(d, a);
            let g2 = disk_actions(g1, b);
            lemma_disk_remove_if(d, f.sorted_old, ShardArtifact::SortedOld);
            lemma_disk_remove_if(g1, f.bitset_old, ShardArtifact::BitsetOld);
            lemma_disk_remove_if(g2, f.wal, ShardArtifact::Wal);
            lemma_disk_concat(d, a, b);
            lemma_disk_concat(d, a + b, c);
        },
        None => {
            let s1 = remove_if(f.sorted_old && f.sorted, ShardArtifact::SortedOld);
            let s2 = rename_if(f.sorted_old && !f.sorted, ShardArtifact::SortedOld, ShardArtifact::Sorted);
            let s3 = remove_if(f.sorted_tmp, ShardArtifact::SortedTmp);
            let s4 = remove_if(f.bitset_tmp, ShardArtifact::BitsetTmp);
            let s5 = remove_if(f.bitset_old, ShardArtifact::BitsetOld);
            let g1 = disk_actions(d, s1);
            let g2 = disk_actions(g1, s2);
            let g3 = disk_actions(g2, s3);
            let g4 = disk_actions(g3, s4);
            lemma_disk_remove_if(d, f.sorted_old && f.sorted, ShardArtifact::SortedOld);
            lemma_disk_rename_if(g1, f.sorted_old && !f.sorted, ShardArtifact::SortedOld, ShardArtifact::Sorted);
            lemma_disk_remove_if(g2, f.sorted_tmp, ShardArtifact::SortedTmp);
            lemma_disk_remove_if(g3, f.bitset_tmp, ShardArtifact::BitsetTmp);
            lemma_disk_remove_if(g4, f.bitset_old, ShardArtifact::BitsetOld);
            lemma_disk_concat(d, s1, s2);
            lemma_disk_concat(d, s1 + s2, s3);
            lemma_disk_concat(d, s1 + s2 + s3, s4);
            lemma_disk_concat(d, s1 + s2 + s3 + s4, s5);
        },
        _ => {},
    }
}

/// One side (segments or bitset) of a swap in progress, from the live file
/// `init_live` and the `.old` file `init_old` before the compaction: not
/// begun, the stale `.old` copy removed, the live file moved to `.old`, or
/// the new file live.
spec fn side_ok(live: Option<Content>, old: Option<Content>, tmp: Option<Content>, init_live: Option<Content>,
    init_old: Option<Content>) -> bool {
    ||| live == init_live && old == init_old && tmp == Some(Content::New)
    ||| init_live is Some && live == init_live && old is None && tmp == Some(Content::New)
    ||| init_live is Some && live is None && old == init_live && tmp == Some(Content::New)
    ||| live == Some(Content::New) && tmp is None && old == (if init_live is Some { init_live } else { init_old })
}

/// The states a compaction of a shard whose files were `f` passes through.
spec fn compaction_inv(f: ShardFiles, mark: Option<PhaseMark>, written: Option<bool>, d: DiskState) -> bool {
    let i = initial_disk(f);
    match mark {
        None => written is None && d == i,
        Some(PhaseMark::Writing) => {
            &&& d.sorted == i.sorted && d.bitset == i.bitset && d.sorted_old == i.sorted_old
            &&& d.bitset_old == i.bitset_old
            &&& written != Some(false) ==> d.wal == i.wal
            &&& written == Some(false) ==> (d.wal == i.wal || !d.wal)
                && (d.sorted_tmp is None || d.sorted_tmp == Some(Content::New))
                && (d.bitset_tmp is None || d.bitset_tmp == Some(Content::New))
            &&& written == Some(true) ==> d.sorted_tmp == Some(Content::New) && d.bitset_tmp == Some(Content::New)
            &&& written is None ==> (d.sorted_tmp == i.sorted_tmp || d.sorted_tmp is None)
                && (d.bitset_tmp == i.bitset_tmp || d.bitset_tmp is None)
                && (d.sorted_tmp is None ==> d.bitset_tmp == i.bitset_tmp || d.bitset_tmp is None)
        },
        Some(PhaseMark::Swapping) => {
            &&& written == Some(true)
            &&& d.wal == i.wal
            &&& side_ok(d.sorted, d.sorted_old, d.sorted_tmp, i.sorted, i.sorted_old)
            &&& d.sorted != Some(Content::New) ==> d.bitset == i.bitset && d.bitset_old == i.bitset_old
                && d.bitset_tmp == Some(Content::New)
            &&& d.sorted == Some(Content::New) ==> side_ok(d.bitset, d.bitset_old, d.bitset_tmp, i.bitset, i.bitset_old)
        },
        Some(PhaseMark::Cleanup) => {
            &&& written == Some(true)
            &&& d.sorted == Some(Content::New) && d.bitset == Some(Content::New)
            &&& d.sorted_tmp is None && d.bitset_tmp is None
            &&& d.wal ==> i.wal
        },
        Some(PhaseMark::Done) => {
            &&& d.sorted_tmp is None && d.bitset_tmp is None && !d.wal
            &&& written == Some(true) ==> d.sorted == Some(Content::New) && d.bitset == Some(Content::New)
                && d.sorted_old is None && d.bitset_old is None
            &&& written != Some(true) ==> written == Some(false) && d.sorted == i.sorted && d.bitset == i.bitset
                && d.sorted_old == i.sorted_old && d.bitset_old == i.bitset_old
        },
    }
}

proof fn lemma_inv_step(f: ShardFiles, has_data: bool, mark: Option<PhaseMark>, written: Option<bool>, d: DiskState)
    requires
        compaction_inv(f, mark, written, d),
    ensures
        match next_step_spec(mark, written, files_of(d)) {
            None => true,
            Some(s) => compaction_inv(
                f,
                match s {
                    CompactionStep::Mark(m) => Some(m),
                    _ => mark,
                },
                if s == CompactionStep::WriteTmp { Some(has_data) } else { written },
                step_disk(d, s),
            ),
        },
{
}

proof fn lemma_inv_recovers(f: ShardFiles, mark: Option<PhaseMark>, written: Option<bool>, d: DiskState)
    requires
        compaction_inv(f, mark, written, d),
    ensures
        recovers_well(f, mark, written, recovered(mark, d)),
{
    lemma_recovered(mark, d);
}

proof fn lemma_after_steps_inv(f: ShardFiles, has_data: bool, n: nat)
    ensures
        ({
            let (mark, written, d) = after_steps(f, has_data, n);
            compaction_inv(f, mark, written, d)
        }),
    decreases n,
{
    if n > 0 {
        lemma_after_steps_inv(f, has_data, (n - 1) as nat);
        let (mark, written, d) = after_steps(f, has_data, (n - 1) as nat);
        lemma_inv_step(f, has_data, mark, written, d);
    }
}

/// A crash at any point of a compaction is recovered without losing data:
/// whatever the files of the shard were, whether the compaction finds data
/// or not, and however many steps of it ran, recovering from the phase
/// recorded leaves no scratch file, keeps live segments and bitset, drops
/// the log only once the new segments and bitset are live (or when the
/// compaction found nothing to keep in it), and never leaves the new
/// segments beside the old bitset unless an interrupted swap marked the
/// shard for another compaction (see `recovers_well`).
pub proof fn lemma_compaction_crash_safe(f: ShardFiles, has_data: bool, n: nat)
    ensures
        ({
            let (mark, written, d) = after_steps(f, has_data, n);
            recovers_well(f, mark, written, recovered(mark, d))
        }),
{
    lemma_after_steps_inv(f, has_data, n);
    let (mark, written, d) = after_steps(f, has_data, n);
    lemma_inv_recovers(f, mark, written, d);
}

} // verus!
