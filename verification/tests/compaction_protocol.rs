use stateless_history_node::compaction::{next_compaction_step, CompactionStep, PhaseMark};
use stateless_history_node::shard::{DirAction, ShardArtifact, ShardFiles};

fn set(f: &mut ShardFiles, a: ShardArtifact, present: bool) {
    match a {
        ShardArtifact::Sorted => f.sorted = present,
        ShardArtifact::SortedOld => f.sorted_old = present,
        ShardArtifact::SortedTmp => f.sorted_tmp = present,
        ShardArtifact::Bitset => f.bitset = present,
        ShardArtifact::BitsetOld => f.bitset_old = present,
        ShardArtifact::BitsetTmp => f.bitset_tmp = present,
        ShardArtifact::Wal => f.wal = present,
    }
}

/// Runs the protocol to its end and returns the steps taken and the files
/// left.
fn run(f: ShardFiles) -> (Vec<CompactionStep>, ShardFiles) {
    run_finding(f, true)
}

/// Runs the protocol to its end, writing finds data when `has_data`.
fn run_finding(mut f: ShardFiles, has_data: bool) -> (Vec<CompactionStep>, ShardFiles) {
    let mut mark = None;
    let mut written = None;
    let mut steps = Vec::new();
    while let Some(step) = next_compaction_step(mark, written, f) {
        steps.push(step);
        match step {
            CompactionStep::Mark(m) => mark = Some(m),
            CompactionStep::WriteTmp => {
                written = Some(has_data);
                f.sorted_tmp = true;
                f.bitset_tmp = true;
            }
            CompactionStep::Act(DirAction::Remove(a)) => set(&mut f, a, false),
            CompactionStep::Act(DirAction::Rename { from, to }) => {
                set(&mut f, from, false);
                set(&mut f, to, true);
            }
        }
        assert!(steps.len() < 32);
    }
    (steps, f)
}

fn files(sorted: bool, bitset: bool, wal: bool) -> ShardFiles {
    ShardFiles {
        sorted,
        sorted_old: false,
        sorted_tmp: false,
        bitset,
        bitset_old: false,
        bitset_tmp: false,
        wal,
    }
}

#[test]
fn compaction_steps_for_a_sorted_shard_with_a_log() {
    let (steps, end) = run(files(true, true, true));
    assert_eq!(
        steps,
        vec![
            CompactionStep::Mark(PhaseMark::Writing),
            CompactionStep::WriteTmp,
            CompactionStep::Mark(PhaseMark::Swapping),
            CompactionStep::Act(DirAction::Rename { from: ShardArtifact::Sorted, to: ShardArtifact::SortedOld }),
            CompactionStep::Act(DirAction::Rename { from: ShardArtifact::SortedTmp, to: ShardArtifact::Sorted }),
            CompactionStep::Act(DirAction::Rename { from: ShardArtifact::Bitset, to: ShardArtifact::BitsetOld }),
            CompactionStep::Act(DirAction::Rename { from: ShardArtifact::BitsetTmp, to: ShardArtifact::Bitset }),
            CompactionStep::Mark(PhaseMark::Cleanup),
            CompactionStep::Act(DirAction::Remove(ShardArtifact::SortedOld)),
            CompactionStep::Act(DirAction::Remove(ShardArtifact::BitsetOld)),
            CompactionStep::Act(DirAction::Remove(ShardArtifact::Wal)),
            CompactionStep::Mark(PhaseMark::Done),
        ]
    );
    assert_eq!(end, files(true, true, false));
}

#[test]
fn compaction_steps_for_a_fresh_shard_clear_leftovers() {
    let mut start = files(false, false, true);
    start.sorted_tmp = true;
    start.bitset_tmp = true;
    start.bitset_old = true;
    let (steps, end) = run(start);
    assert_eq!(steps[0], CompactionStep::Mark(PhaseMark::Writing));
    assert_eq!(steps[1], CompactionStep::Act(DirAction::Remove(ShardArtifact::SortedTmp)));
    assert_eq!(steps[2], CompactionStep::Act(DirAction::Remove(ShardArtifact::BitsetTmp)));
    assert_eq!(steps[3], CompactionStep::WriteTmp);
    assert_eq!(steps[4], CompactionStep::Mark(PhaseMark::Swapping));
    assert_eq!(
        steps[5],
        CompactionStep::Act(DirAction::Rename { from: ShardArtifact::SortedTmp, to: ShardArtifact::Sorted })
    );
    assert_eq!(
        steps[6],
        CompactionStep::Act(DirAction::Rename { from: ShardArtifact::BitsetTmp, to: ShardArtifact::Bitset })
    );
    assert_eq!(steps[7], CompactionStep::Mark(PhaseMark::Cleanup));
    assert_eq!(steps[8], CompactionStep::Act(DirAction::Remove(ShardArtifact::BitsetOld)));
    assert_eq!(steps[9], CompactionStep::Act(DirAction::Remove(ShardArtifact::Wal)));
    assert_eq!(steps[10], CompactionStep::Mark(PhaseMark::Done));
    assert_eq!(steps.len(), 11);
    assert_eq!(end, files(true, true, false));
}

#[test]
fn compaction_is_over_once_done() {
    assert_eq!(next_compaction_step(Some(PhaseMark::Done), Some(true), files(true, true, false)), None);
    assert_eq!(
        next_compaction_step(None, None, files(true, true, true)),
        Some(CompactionStep::Mark(PhaseMark::Writing))
    );
}

#[test]
fn swap_removes_a_stale_old_copy_first() {
    let mut f = files(true, true, false);
    f.sorted_tmp = true;
    f.sorted_old = true;
    assert_eq!(
        next_compaction_step(Some(PhaseMark::Swapping), Some(true), f),
        Some(CompactionStep::Act(DirAction::Remove(ShardArtifact::SortedOld)))
    );
}

#[test]
fn compaction_without_data_skips_the_swap() {
    let (steps, end) = run_finding(files(true, true, true), false);
    assert_eq!(
        steps,
        vec![
            CompactionStep::Mark(PhaseMark::Writing),
            CompactionStep::WriteTmp,
            CompactionStep::Act(DirAction::Remove(ShardArtifact::SortedTmp)),
            CompactionStep::Act(DirAction::Remove(ShardArtifact::BitsetTmp)),
            CompactionStep::Act(DirAction::Remove(ShardArtifact::Wal)),
            CompactionStep::Mark(PhaseMark::Done),
        ]
    );
    assert_eq!(end, files(true, true, false));
    let (steps, end) = run_finding(files(false, false, false), false);
    assert_eq!(steps.len(), 5);
    assert_eq!(steps[4], CompactionStep::Mark(PhaseMark::Done));
    assert_eq!(end, files(false, false, false));
}
