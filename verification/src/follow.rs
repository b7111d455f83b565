//! Decisions of a sync run: chunk size limits, head tracking, the ranges
//! fed to the tail once the historical range is done, and the follow-mode
//! event loop.

use vstd::prelude::*;
use crate::cli::safe_head;

verus! {

/// The fast-sync chunk sizes of a run: the cap (the configured one, or
/// four times the initial size, saturating; at least 1) and the initial
/// size, lowered to the cap when above it.
pub fn normalize_chunk_sizes(chunk_size: u64, chunk_max: Option<u64>) -> (res: (u64, u64))
    ensures
        ({
            let four = if chunk_size * 4 > u64::MAX { u64::MAX as int } else { chunk_size * 4 };
            let raw = match chunk_max { Some(m) => m as int, None => four };
            let cap = if raw >= 1 { raw } else { 1 };
            let floor = if chunk_size >= 1 { chunk_size as int } else { 1 };
            &&& res.1 == cap
            &&& res.0 == if cap < floor { cap } else { chunk_size as int }
        }),
{
    let raw = match chunk_max {
        Some(m) => m,
        None => if chunk_size <= u64::MAX / 4 { chunk_size * 4 } else { u64::MAX },
    };
    let cap = if raw >= 1 { raw } else { 1 };
    let floor = if chunk_size >= 1 { chunk_size } else { 1 };
    let initial = if cap < floor { cap } else { chunk_size };
    (initial, cap)
}

/// The highest head any peer reports, if it is above `last_head`.
pub fn advanced_head(last_head: u64, peer_heads: &Vec<u64>) -> (res: Option<u64>)
    ensures
        res matches Some(h) ==> h > last_head && peer_heads@.contains(h)
            && forall|i: int| 0 <= i < peer_heads@.len() ==> #[trigger] peer_heads@[i] <= h,
        res is None ==> forall|i: int| 0 <= i < peer_heads@.len() ==> #[trigger] peer_heads@[i] <= last_head,
{
    let mut best = last_head;
    let mut found = false;
    let mut i: usize = 0;
    while i < peer_heads.len()
        invariant
            i <= peer_heads@.len(),
            best >= last_head,
            found ==> best > last_head && peer_heads@.contains(best),
            !found ==> best == last_head,
            forall|j: int| 0 <= j < i ==> #[trigger] peer_heads@[j] <= best,
        decreases peer_heads@.len() - i,
    {
        if peer_heads[i] > best {
            best = peer_heads[i];
            found = true;
            proof {
                assert(peer_heads@[i as int] == best);
            }
        }
        i = i + 1;
    }
    if found {
        Some(best)
    } else {
        None
    }
}

/// Schedules the ranges a follow run still has to fetch once the
/// historical range is done: each new safe head (head seen minus the
/// rollback window) above what was scheduled yields the blocks between.
#[derive(Debug, Clone, Copy, PartialEq, Eq)]
pub struct TailFeeder {
    pub next_to_schedule: u64,
}

impl TailFeeder {
    /// A feeder for a run whose historical range ended at `initial_end`.
    pub fn new(initial_end: u64) -> (res: TailFeeder)
        ensures
            res.next_to_schedule == if initial_end == u64::MAX { u64::MAX } else { (initial_end + 1) as u64 },
    {
        TailFeeder { next_to_schedule: initial_end.saturating_add(1) }
    }

    /// The next range to fetch for the head seen, if the safe head has
    /// moved past what was scheduled (see `tail_step`).
    pub fn on_head(&mut self, head_seen: u64, rollback_window: u64) -> (res: Option<(u64, u64)>)
        ensures
            (res, final(self).next_to_schedule) == tail_step(old(self).next_to_schedule, head_seen, rollback_window),
    {
        let safe = head_seen.saturating_sub(rollback_window);
        if safe >= self.next_to_schedule {
            let start = self.next_to_schedule;
            self.next_to_schedule = safe.saturating_add(1);
            Some((start, safe))
        } else {
            None
        }
    }
}

/// One step of the tail feeder: the range emitted for a head (from what is
/// next to schedule up to the safe head, when the safe head reaches it)
/// and what is next to schedule afterwards.
pub open spec fn tail_step(next: u64, head_seen: u64, rollback_window: u64) -> (Option<(u64, u64)>, u64) {
    let safe = safe_head(head_seen, rollback_window);
    if safe >= next {
        (Some((next, safe)), if safe == u64::MAX { u64::MAX } else { (safe + 1) as u64 })
    } else {
        (None, next)
    }
}

/// The ranges a feeder emits follow one another without gap or overlap:
/// each is nonempty, ends at the safe head it was made for, and the next
/// one starts right after it.
pub proof fn lemma_tail_ranges_contiguous(next: u64, h1: u64, h2: u64, rollback_window: u64)
    ensures
        ({
            let (r1, n1) = tail_step(next, h1, rollback_window);
            let (r2, n2) = tail_step(n1, h2, rollback_window);
            &&& r1 matches Some((a, b)) ==> a == next && a <= b && b == safe_head(h1, rollback_window)
            &&& r1 matches Some((a, b)) ==> (b < u64::MAX ==> (r2 matches Some((c, d)) ==> c == b + 1 && c <= d))
            &&& r1 is None ==> n1 == next
        }),
{
}

/// What happened while following the chain.
#[derive(Debug, Clone, Copy, PartialEq, Eq)]
pub enum FollowEvent {
    /// The follow loop ended.
    LoopDone,
    /// A shutdown signal arrived.
    Shutdown,
    /// The follow loop caught up with the head.
    Synced,
}

/// What the follow-mode loop does next.
#[derive(Debug, Clone, Copy, PartialEq, Eq)]
pub enum FollowAction {
    /// Leave the loop and shut down.
    Stop,
    /// Start the RPC server.
    StartRpc,
    /// Keep waiting.
    Wait,
}

/// The follow-mode decision: stop when the loop ends or on shutdown; start
/// the RPC server the first time the chain is caught up.
pub fn follow_step(rpc_running: bool, event: FollowEvent) -> (res: FollowAction)
    ensures
        res == match event {
            FollowEvent::LoopDone | FollowEvent::Shutdown => FollowAction::Stop,
            FollowEvent::Synced => if rpc_running { FollowAction::Wait } else { FollowAction::StartRpc },
        },
{
    match event {
        FollowEvent::LoopDone | FollowEvent::Shutdown => FollowAction::Stop,
        FollowEvent::Synced => if rpc_running {
            FollowAction::Wait
        } else {
            FollowAction::StartRpc
        },
    }
}


/// How a sync run goes on once the historical ingest is over.
#[derive(Debug, Clone, Copy, PartialEq, Eq)]
pub enum AfterIngest {
    /// Keep following the chain head.
    Follow,
    /// Finish the run, stopping the follow-mode helpers first when a
    /// shutdown was asked for.
    Finalize { stop_helpers: bool },
}

/// The run follows the head when no end block was given and no shutdown
/// was asked for; otherwise it finalizes.
pub fn after_ingest(follow_after: bool, shutdown_requested: bool) -> (res: AfterIngest)
    ensures
        res == if follow_after && !shutdown_requested {
            AfterIngest::Follow
        } else {
            AfterIngest::Finalize { stop_helpers: shutdown_requested }
        },
{
    if follow_after && !shutdown_requested {
        AfterIngest::Follow
    } else {
        AfterIngest::Finalize { stop_helpers: shutdown_requested }
    }
}

/// How many blocks of a requested range are already stored, given how many
/// are missing (0 when more are missing than requested).
pub fn already_present(requested_total: u64, missing_total: u64) -> (res: u64)
    ensures
        res == if requested_total >= missing_total { requested_total - missing_total } else { 0 },
{
    requested_total.saturating_sub(missing_total)
}

} // verus!
