//! The receipt probe harness: which blocks it probes, in what order, how it
//! reads its run time from the command line, when it rests a failing peer,
//! and how it tallies the probes.

use vstd::prelude::*;
use crate::text::{chars_of, chars_start_with, starts_with, str_eq};

verus! {

/// Blocks probed after each anchor.
pub const ANCHOR_WINDOW: u64 = 1000;
/// Number of anchors.
pub const ANCHOR_COUNT: usize = 5;
/// Consecutive failures after which a peer is rested.
pub const PEER_FAILURE_THRESHOLD: u32 = 5;
/// How long a peer is rested, in seconds.
pub const PEER_BAN_SECS: u64 = 120;
/// Seconds to wait for peers before the first probe.
pub const WARMUP_SECS: u64 = 3;

/// The first block of each probed window, in increasing order.
pub open spec fn anchors() -> Seq<u64> {
    seq![10_000_835u64, 11_362_579u64, 12_369_621u64, 16_291_127u64, 21_688_329u64]
}

/// The block probed at position `a * ANCHOR_WINDOW + off` of the targets.
pub open spec fn anchor_target(a: int, off: int) -> int {
    anchors()[a] + off
}

/// Whether `s` is strictly increasing (sorted, with no block twice).
pub open spec fn strictly_increasing(s: Seq<u64>) -> bool {
    forall|i: int, j: int| 0 <= i < j < s.len() ==> s[i] < s[j]
}

/// The blocks to probe: the `ANCHOR_WINDOW` blocks from each anchor, sorted
/// and without repeats.
pub fn build_anchor_targets() -> (res: Vec<u64>)
    ensures
        res@.len() == ANCHOR_COUNT * ANCHOR_WINDOW,
        forall|a: int, off: int| 0 <= a < ANCHOR_COUNT && 0 <= off < ANCHOR_WINDOW
            ==> res@[a * 1000 + off] == anchor_target(a, off),
        strictly_increasing(res@),
{
    let starts: Vec<u64> = vec![10_000_835u64, 11_362_579u64, 12_369_621u64, 16_291_127u64, 21_688_329u64];
    assert(starts@ == anchors());
    let mut targets: Vec<u64> = Vec::new();
    let mut a: usize = 0;
    while a < starts.len()
        invariant
            starts@ == anchors(),
            a <= 5,
            targets@.len() == a * 1000,
            forall|b: int, off: int| 0 <= b < a && 0 <= off < 1000
                ==> targets@[b * 1000 + off] == anchor_target(b, off),
            strictly_increasing(targets@),
            forall|k: int| 0 <= k < targets@.len() ==> #[trigger] targets@[k] < (if a < 5 { anchors()[a as int] } else { u64::MAX }),
        decreases 5 - a,
    {
        let anchor = starts[a];
        let mut off: u64 = 0;
        while off < ANCHOR_WINDOW
            invariant
                starts@ == anchors(),
                a < 5,
                anchor == anchors()[a as int],
                off <= 1000,
                targets@.len() == a * 1000 + off,
                forall|b: int, o: int| 0 <= b < a && 0 <= o < 1000
                    ==> targets@[b * 1000 + o] == anchor_target(b, o),
                forall|o: int| 0 <= o < off ==> targets@[a * 1000 + o] == anchor_target(a as int, o),
                strictly_increasing(targets@),
                forall|k: int| 0 <= k < targets@.len() ==> #[trigger] targets@[k] < anchor + off,
            decreases 1000 - off,
        {
            targets.push(anchor + off);
            off = off + 1;
        }
        proof {
            assert forall|k: int| 0 <= k < targets@.len() implies #[trigger] targets@[k] < (if a + 1 < 5 {
                anchors()[a + 1]
            } else {
                u64::MAX
            }) by {
                assert(targets@[k] < anchor + 1000);
            }
        }
        a = a + 1;
    }
    targets
}

/// `s` without the blocks listed in `known`, in order.
pub open spec fn unknown_blocks(s: Seq<u64>, known: Seq<u64>) -> Seq<u64>
    decreases s.len(),
{
    if s.len() == 0 {
        Seq::empty()
    } else {
        let rest = unknown_blocks(s.drop_last(), known);
        if known.contains(s.last()) {
            rest
        } else {
            rest.push(s.last())
        }
    }
}

fn contains_block(known: &Vec<u64>, block: u64) -> (res: bool)
    ensures
        res == known@.contains(block),
{
    let mut i: usize = 0;
    while i < known.len()
        invariant
            i <= known@.len(),
            forall|j: int| 0 <= j < i ==> known@[j] != block,
        decreases known@.len() - i,
    {
        if known[i] == block {
            return true;
        }
        i = i + 1;
    }
    false
}

/// The targets still to probe: those not already known, in order.
pub fn pending_targets(targets: &Vec<u64>, known: &Vec<u64>) -> (res: Vec<u64>)
    ensures
        res@ == unknown_blocks(targets@, known@),
{
    let mut out: Vec<u64> = Vec::new();
    let mut i: usize = 0;
    while i < targets.len()
        invariant
            i <= targets@.len(),
            out@ == unknown_blocks(targets@.take(i as int), known@),
        decreases targets@.len() - i,
    {
        proof {
            assert(targets@.take(i + 1).drop_last() =~= targets@.take(i as int));
        }
        if !contains_block(known, targets[i]) {
            out.push(targets[i]);
        }
        i = i + 1;
    }
    proof {
        assert(targets@.take(targets@.len() as int) =~= targets@);
    }
    out
}

/// Takes the next block to probe from the front of `queue`, if it is no
/// higher than the peer's head; otherwise leaves the queue as it is.
pub fn pop_next_block_for_head(queue: &mut Vec<u64>, head_number: u64) -> (res: Option<u64>)
    ensures
        old(queue)@.len() > 0 && old(queue)@[0] <= head_number ==> res == Some(old(queue)@[0])
            && final(queue)@ == old(queue)@.drop_first(),
        !(old(queue)@.len() > 0 && old(queue)@[0] <= head_number) ==> res is None
            && final(queue)@ == old(queue)@,
{
    if queue.len() > 0 && queue[0] <= head_number {
        let b = queue.remove(0);
        proof {
            assert(queue@ =~= old(queue)@.drop_first());
        }
        Some(b)
    } else {
        None
    }
}

/// The value of a decimal digit, or -1 for another character.
pub open spec fn decimal_value(c: char) -> int {
    if '0' <= c && c <= '9' {
        c as int - '0' as int
    } else {
        -1
    }
}

/// Whether every character is a decimal digit.
pub open spec fn all_decimal(s: Seq<char>) -> bool {
    forall|i: int| 0 <= i < s.len() ==> decimal_value(#[trigger] s[i]) >= 0
}

/// The number written by decimal digits, most significant first.
pub open spec fn decimal_number(s: Seq<char>) -> int
    decreases s.len(),
{
    if s.len() == 0 {
        0
    } else {
        decimal_number(s.drop_last()) * 10 + decimal_value(s.last())
    }
}

/// What parsing `s` as a `u64` gives (as `str::parse::<u64>` does): one
/// leading `+` is allowed, at least one digit must follow, every character
/// must be a digit, and the number must fit in `u64`.
pub open spec fn parse_u64_spec(s: Seq<char>) -> Option<u64> {
    let digits = if s.len() > 0 && s[0] == '+' { s.subrange(1, s.len() as int) } else { s };
    if digits.len() == 0 || !all_decimal(digits) || decimal_number(digits) > u64::MAX {
        None
    } else {
        Some(decimal_number(digits) as u64)
    }
}

proof fn lemma_decimal_number_nonneg(s: Seq<char>)
    requires
        all_decimal(s),
    ensures
        decimal_number(s) >= 0,
    decreases s.len(),
{
    if s.len() > 0 {
        assert(all_decimal(s.drop_last()));
        lemma_decimal_number_nonneg(s.drop_last());
    }
}

proof fn lemma_decimal_prefix_grows(s: Seq<char>, k: int)
    requires
        0 <= k <= s.len(),
        all_decimal(s.subrange(0, k)),
    ensures
        all_decimal(s) ==> decimal_number(s) >= decimal_number(s.subrange(0, k)),
    decreases s.len() - k,
{
    if all_decimal(s) && k < s.len() {
        let p = s.subrange(0, k);
        let q = s.subrange(0, k + 1);
        assert(q.drop_last() =~= p);
        assert forall|j: int| 0 <= j < q.len() implies decimal_value(#[trigger] q[j]) >= 0 by {
            assert(q[j] == s[j]);
        }
        lemma_decimal_number_nonneg(p);
        lemma_decimal_prefix_grows(s, k + 1);
    } else if all_decimal(s) {
        assert(s.subrange(0, k) =~= s);
    }
}

/// Parses `chars[from..]` as `str::parse::<u64>` does.
pub fn parse_u64_from(chars: &Vec<char>, from: usize) -> (res: Option<u64>)
    requires
        from <= chars@.len(),
    ensures
        res == parse_u64_spec(chars@.subrange(from as int, chars@.len() as int)),
{
    let ghost s = chars@.subrange(from as int, chars@.len() as int);
    let mut i = from;
    if i < chars.len() && chars[i] == '+' {
        i = i + 1;
    }
    let ghost digits = chars@.subrange(i as int, chars@.len() as int);
    proof {
        if s.len() > 0 && s[0] == '+' {
            assert(digits =~= s.subrange(1, s.len() as int));
        } else {
            assert(digits =~= s);
        }
    }
    if i == chars.len() {
        return None;
    }
    let start = i;
    let mut acc: u64 = 0;
    while i < chars.len()
        invariant
            start <= i <= chars@.len(),
            start < chars@.len(),
            digits == chars@.subrange(start as int, chars@.len() as int),
            s == chars@.subrange(from as int, chars@.len() as int),
            parse_u64_spec(s) == (if digits.len() == 0 || !all_decimal(digits) || decimal_number(digits) > u64::MAX {
                None
            } else {
                Some(decimal_number(digits) as u64)
            }),
            all_decimal(chars@.subrange(start as int, i as int)),
            acc == decimal_number(chars@.subrange(start as int, i as int)),
        decreases chars@.len() - i,
    {
        let ghost pre = chars@.subrange(start as int, i as int);
        let ghost next = chars@.subrange(start as int, i + 1);
        proof {
            assert(next.drop_last() =~= pre);
            assert(next.last() == chars@[i as int]);
        }
        let c = chars[i];
        if !('0' <= c && c <= '9') {
            proof {
                assert(digits[i - start] == chars@[i as int]);
                assert(decimal_value(digits[i - start]) < 0);
                assert(!all_decimal(digits));
            }
            return None;
        }
        let d: u64 = (c as u32 - '0' as u32) as u64;
        proof {
            assert forall|k: int| 0 <= k < next.len() implies decimal_value(#[trigger] next[k]) >= 0 by {
                if k < pre.len() {
                    assert(next[k] == pre[k]);
                }
            }
        }
        if acc > (u64::MAX - d) / 10 {
            proof {
                assert(decimal_number(next) == acc * 10 + d);
                assert(acc * 10 + d > u64::MAX) by (nonlinear_arith)
                    requires
                        acc > (u64::MAX - d) / 10,
                        d <= 9,
                ;
                assert(digits.subrange(0, (i + 1 - start) as int) =~= next);
                lemma_decimal_prefix_grows(digits, (i + 1 - start) as int);
            }
            return None;
        }
        acc = acc * 10 + d;
        i = i + 1;
    }
    proof {
        assert(chars@.subrange(start as int, i as int) =~= digits);
    }
    Some(acc)
}

/// The run time given among `args[i..]`: the first argument that is
/// `--run-secs=N`, or `--run-secs` followed by `N`, decides it; no such
/// argument means none.
pub open spec fn run_secs_from(args: Seq<Seq<char>>, i: int) -> Option<u64>
    decreases args.len() - i,
{
    if i < 0 || i >= args.len() {
        None
    } else if starts_with(args[i], "--run-secs="@) {
        parse_u64_spec(args[i].subrange(11, args[i].len() as int))
    } else if args[i] == "--run-secs"@ {
        if i + 1 < args.len() {
            parse_u64_spec(args[i + 1])
        } else {
            None
        }
    } else {
        run_secs_from(args, i + 1)
    }
}

/// The views of a list of strings.
pub open spec fn arg_views(args: Seq<String>) -> Seq<Seq<char>> {
    Seq::new(args.len(), |i: int| args[i]@)
}

/// Reads the run time in seconds from the command line (`args[0]` is the
/// program), as `--run-secs=N` or `--run-secs N`.
pub fn parse_run_secs(args: &Vec<String>) -> (res: Option<u64>)
    ensures
        res == run_secs_from(arg_views(args@), 1),
{
    let ghost views = arg_views(args@);
    let prefix: Vec<char> = chars_of("--run-secs=");
    proof {
        reveal_strlit("--run-secs=");
        reveal_strlit("--run-secs");
    }
    assert(prefix@.len() == 11);
    let mut i: usize = 1;
    while i < args.len()
        invariant
            1 <= i,
            views == arg_views(args@),
            prefix@ == "--run-secs="@,
            prefix@.len() == 11,
            run_secs_from(views, 1) == run_secs_from(views, i as int),
        decreases args@.len() - i,
    {
        let arg = chars_of(args[i].as_str());
        assert(views[i as int] == arg@);
        if chars_start_with(arg.as_slice(), prefix.as_slice()) {
            return parse_u64_from(&arg, 11);
        }
        if str_eq(args[i].as_str(), "--run-secs") {
            if i + 1 < args.len() {
                let next = chars_of(args[i + 1].as_str());
                assert(views[i + 1] == next@);
                proof {
                    assert(next@.subrange(0, next@.len() as int) =~= next@);
                }
                return parse_u64_from(&next, 0);
            }
            return None;
        }
        i = i + 1;
    }
    None
}


/// Values kept under string keys (peer ids, client names), with the keys
/// distinct.
#[derive(Debug, Clone)]
pub struct NamedTable<V> {
    entries: Vec<(String, V)>,
}

/// Whether some entry has key `k`.
pub open spec fn has_name<V>(entries: Seq<(String, V)>, k: Seq<char>) -> bool {
    exists|i: int| 0 <= i < entries.len() && #[trigger] entries[i].0@ == k
}

impl<V> View for NamedTable<V> {
    type V = Map<Seq<char>, V>;

    closed spec fn view(&self) -> Map<Seq<char>, V> {
        Map::new(
            |k: Seq<char>| has_name(self.entries@, k),
            |k: Seq<char>| self.entries@[choose|i: int| 0 <= i < self.entries@.len() && #[trigger] self.entries@[i].0@ == k].1,
        )
    }
}

impl<V: Copy> NamedTable<V> {
    /// The keys of the entries are distinct.
    pub closed spec fn wf(&self) -> bool {
        forall|i: int, j: int| 0 <= i < j < self.entries@.len() ==> self.entries@[i].0@ != self.entries@[j].0@
    }

    proof fn lemma_entry(&self, i: int)
        requires
            self.wf(),
            0 <= i < self.entries@.len(),
        ensures
            self@.contains_key(self.entries@[i].0@),
            self@[self.entries@[i].0@] == self.entries@[i].1,
    {
        let k = self.entries@[i].0@;
        assert(has_name(self.entries@, k));
        let j = choose|j: int| 0 <= j < self.entries@.len() && #[trigger] self.entries@[j].0@ == k;
        if j != i {
            if j < i {
            } else {
            }
        }
    }

    /// An empty table.
    pub fn new() -> (res: Self)
        ensures
            res.wf(),
            res@ == Map::<Seq<char>, V>::empty(),
    {
        let res = NamedTable { entries: Vec::new() };
        assert(res@ =~= Map::<Seq<char>, V>::empty());
        res
    }

    fn position(&self, k: &str) -> (res: Option<usize>)
        requires
            self.wf(),
        ensures
            match res {
                Some(i) => i < self.entries@.len() && self.entries@[i as int].0@ == k@,
                None => !has_name(self.entries@, k@),
            },
    {
        let mut i: usize = 0;
        while i < self.entries.len()
            invariant
                i <= self.entries@.len(),
                forall|j: int| 0 <= j < i ==> #[trigger] self.entries@[j].0@ != k@,
            decreases self.entries@.len() - i,
        {
            if str_eq(self.entries[i].0.as_str(), k) {
                return Some(i);
            }
            i = i + 1;
        }
        None
    }

    /// The value under `k`, if any.
    pub fn get(&self, k: &str) -> (res: Option<V>)
        requires
            self.wf(),
        ensures
            res == if self@.contains_key(k@) { Some(self@[k@]) } else { None::<V> },
    {
        match self.position(k) {
            Some(i) => {
                proof {
                    self.lemma_entry(i as int);
                }
                Some(self.entries[i].1)
            },
            None => None,
        }
    }

    /// Puts `v` under `k`, replacing any earlier value.
    pub fn insert(&mut self, k: &str, v: V)
        requires
            old(self).wf(),
        ensures
            final(self).wf(),
            final(self)@ == old(self)@.insert(k@, v),
    {
        let ghost before = *self;
        let ghost kv = k@;
        match self.position(k) {
            Some(i) => {
                self.entries[i].1 = v;
                proof {
                    assert forall|a: int| 0 <= a < self.entries@.len() implies #[trigger] self.entries@[a].0@
                        == before.entries@[a].0@ by {}
                    assert forall|a: int, b: int| 0 <= a < b < self.entries@.len() implies self.entries@[a].0@
                        != self.entries@[b].0@ by {
                        assert(before.entries@[a].0@ != before.entries@[b].0@);
                    }
                    self.lemma_entry(i as int);
                    assert forall|key: Seq<char>| #[trigger] self@.contains_key(key) == before@.insert(kv, v).contains_key(key) by {
                        if has_name(before.entries@, key) {
                            let j = choose|j: int| 0 <= j < before.entries@.len() && #[trigger] before.entries@[j].0@ == key;
                            assert(self.entries@[j].0@ == key);
                        }
                        if has_name(self.entries@, key) {
                            let j = choose|j: int| 0 <= j < self.entries@.len() && #[trigger] self.entries@[j].0@ == key;
                            assert(before.entries@[j].0@ == key);
                        }
                    }
                    assert forall|key: Seq<char>| #[trigger] self@.contains_key(key) implies self@[key] == before@.insert(kv, v)[key] by {
                        if key != kv {
                            let j = choose|j: int| 0 <= j < self.entries@.len() && #[trigger] self.entries@[j].0@ == key;
                            self.lemma_entry(j);
                            before.lemma_entry(j);
                        }
                    }
                    assert(self@ =~= before@.insert(kv, v));
                }
            },
            None => {
                let name = k.to_owned();
                self.entries.push((name, v));
                proof {
                    let n = before.entries@.len();
                    assert(self.entries@[n as int].0@ == kv);
                    assert forall|a: int, b: int| 0 <= a < b < self.entries@.len() implies self.entries@[a].0@
                        != self.entries@[b].0@ by {
                        if b < n {
                            assert(before.entries@[a].0@ != before.entries@[b].0@);
                        } else {
                            assert(self.entries@[a] == before.entries@[a]);
                        }
                    }
                    self.lemma_entry(n as int);
                    assert forall|key: Seq<char>| #[trigger] self@.contains_key(key) == before@.insert(kv, v).contains_key(key) by {
                        if has_name(before.entries@, key) {
                            let j = choose|j: int| 0 <= j < before.entries@.len() && #[trigger] before.entries@[j].0@ == key;
                            assert(self.entries@[j].0@ == key);
                        }
                        if has_name(self.entries@, key) {
                            let j = choose|j: int| 0 <= j < self.entries@.len() && #[trigger] self.entries@[j].0@ == key;
                            if j != n {
                                assert(before.entries@[j].0@ == key);
                            }
                        }
                    }
                    assert forall|key: Seq<char>| #[trigger] self@.contains_key(key) implies self@[key] == before@.insert(kv, v)[key] by {
                        if key != kv {
                            let j = choose|j: int| 0 <= j < self.entries@.len() && #[trigger] self.entries@[j].0@ == key;
                            self.lemma_entry(j);
                            before.lemma_entry(j);
                        }
                    }
                    assert(self@ =~= before@.insert(kv, v));
                }
            },
        }
    }
}


/// Failure tally of one peer: how many requests failed in a row and, while
/// it rests, the time (ms) its rest ends.
#[derive(Debug, Clone, Copy, PartialEq, Eq)]
pub struct PeerHealth {
    pub consecutive_failures: u32,
    pub ban_until_ms: Option<u64>,
}

/// A peer put to rest: for how long, after how many failures in a row.
#[derive(Debug, Clone, Copy, PartialEq, Eq)]
pub struct PeerBan {
    pub ban_secs: u64,
    pub failures: u32,
}

/// The tally of a peer never seen before.
pub open spec fn fresh_health() -> PeerHealth {
    PeerHealth { consecutive_failures: 0, ban_until_ms: None }
}

/// The tally of `key` in `table`, or a fresh one.
pub open spec fn health_of(table: Map<Seq<char>, PeerHealth>, key: Seq<char>) -> PeerHealth {
    if table.contains_key(key) { table[key] } else { fresh_health() }
}

/// One more failure of a peer at time `now_ms`: the count grows, and at the
/// threshold the peer is rested for `PEER_BAN_SECS` and its count restarts.
pub open spec fn after_failure(h: PeerHealth, now_ms: u64) -> (PeerHealth, Option<PeerBan>) {
    let failures = h.consecutive_failures + 1;
    if failures >= PEER_FAILURE_THRESHOLD {
        (
            PeerHealth { consecutive_failures: 0, ban_until_ms: Some((now_ms + PEER_BAN_SECS * 1000) as u64) },
            Some(PeerBan { ban_secs: PEER_BAN_SECS, failures: failures as u32 }),
        )
    } else {
        (PeerHealth { consecutive_failures: failures as u32, ban_until_ms: h.ban_until_ms }, None)
    }
}

/// `n` failures in a row, all at time `now_ms`: the tally after them and
/// whether the last one rested the peer.
pub open spec fn after_failures(h: PeerHealth, n: nat, now_ms: u64) -> (PeerHealth, Option<PeerBan>)
    decreases n,
{
    if n == 0 {
        (h, None)
    } else {
        after_failure(after_failures(h, (n - 1) as nat, now_ms).0, now_ms)
    }
}

/// From a fresh tally (or one just reset by a success), fewer than
/// `PEER_FAILURE_THRESHOLD` failures in a row never rest the peer, and the
/// `PEER_FAILURE_THRESHOLD`-th one does, reporting that many failures.
pub proof fn lemma_rest_after_threshold(n: nat, now_ms: u64)
    requires
        1 <= n <= PEER_FAILURE_THRESHOLD,
        now_ms <= u64::MAX - PEER_BAN_SECS * 1000,
    ensures
        n < PEER_FAILURE_THRESHOLD ==> after_failures(fresh_health(), n, now_ms).1 is None
            && after_failures(fresh_health(), n, now_ms).0.consecutive_failures == n,
        n == PEER_FAILURE_THRESHOLD ==> after_failures(fresh_health(), n, now_ms).1 == Some(
            PeerBan { ban_secs: PEER_BAN_SECS, failures: PEER_FAILURE_THRESHOLD },
        ),
    decreases n,
{
    reveal_with_fuel(after_failures, 2);
    if n > 1 {
        lemma_rest_after_threshold((n - 1) as nat, now_ms);
    }
}

/// Rest and failure tallies of the peers, by peer id.
#[derive(Debug, Clone)]
pub struct PeerHealthTable {
    table: NamedTable<PeerHealth>,
}

impl PeerHealthTable {
    /// The tallies, by peer id.
    pub closed spec fn view_map(&self) -> Map<Seq<char>, PeerHealth> {
        self.table@
    }

    /// Keys are distinct and no tally has reached the threshold.
    pub closed spec fn wf(&self) -> bool {
        &&& self.table.wf()
        &&& forall|k: Seq<char>| #[trigger] self.table@.contains_key(k) ==> self.table@[k].consecutive_failures
            < PEER_FAILURE_THRESHOLD
    }

    pub fn new() -> (res: Self)
        ensures
            res.wf(),
            res.view_map() == Map::<Seq<char>, PeerHealth>::empty(),
    {
        PeerHealthTable { table: NamedTable::new() }
    }

    /// The tally of `key`, if the peer was seen.
    pub fn health(&self, key: &str) -> (res: Option<PeerHealth>)
        requires
            self.wf(),
        ensures
            res == if self.view_map().contains_key(key@) { Some(self.view_map()[key@]) } else { None::<PeerHealth> },
    {
        self.table.get(key)
    }

    /// A request to `key` failed at `now_ms`: counts it, and at the
    /// threshold rests the peer and reports the rest.
    pub fn record_peer_failure(&mut self, key: &str, now_ms: u64) -> (res: Option<PeerBan>)
        requires
            old(self).wf(),
            now_ms <= u64::MAX - PEER_BAN_SECS * 1000,
        ensures
            final(self).wf(),
            final(self).view_map() == old(self).view_map().insert(key@, after_failure(health_of(old(self).view_map(), key@), now_ms).0),
            res == after_failure(health_of(old(self).view_map(), key@), now_ms).1,
    {
        let h = match self.table.get(key) {
            Some(h) => h,
            None => PeerHealth { consecutive_failures: 0, ban_until_ms: None },
        };
        let failures = h.consecutive_failures + 1;
        let (next, ban) = if failures >= PEER_FAILURE_THRESHOLD {
            (
                PeerHealth { consecutive_failures: 0, ban_until_ms: Some(now_ms + PEER_BAN_SECS * 1000) },
                Some(PeerBan { ban_secs: PEER_BAN_SECS, failures }),
            )
        } else {
            (PeerHealth { consecutive_failures: failures, ban_until_ms: h.ban_until_ms }, None)
        };
        self.table.insert(key, next);
        ban
    }

    /// A request to `key` succeeded: a peer seen before has its count and
    /// rest cleared; an unseen peer gets no tally.
    pub fn record_peer_success(&mut self, key: &str)
        requires
            old(self).wf(),
        ensures
            final(self).wf(),
            final(self).view_map() == if old(self).view_map().contains_key(key@) {
                old(self).view_map().insert(key@, fresh_health())
            } else {
                old(self).view_map()
            },
    {
        if self.table.get(key).is_some() {
            self.table.insert(key, PeerHealth { consecutive_failures: 0, ban_until_ms: None });
        }
    }

    /// How long (ms) `key` still rests at `now_ms`. A rest that has ended is
    /// cleared and reported as none.
    pub fn peer_ban_remaining(&mut self, key: &str, now_ms: u64) -> (res: Option<u64>)
        requires
            old(self).wf(),
        ensures
            final(self).wf(),
            ({
                let m = old(self).view_map();
                match (if m.contains_key(key@) { m[key@].ban_until_ms } else { None }) {
                    None => res is None && final(self).view_map() == m,
                    Some(until) => if until <= now_ms {
                        res is None && final(self).view_map() == m.insert(
                            key@,
                            PeerHealth { consecutive_failures: m[key@].consecutive_failures, ban_until_ms: None },
                        )
                    } else {
                        res == Some((until - now_ms) as u64) && final(self).view_map() == m
                    },
                }
            }),
    {
        match self.table.get(key) {
            None => None,
            Some(h) => match h.ban_until_ms {
                None => None,
                Some(until) => {
                    let remaining = until.saturating_sub(now_ms);
                    if remaining == 0 {
                        self.table.insert(key, PeerHealth { consecutive_failures: h.consecutive_failures, ban_until_ms: None });
                        None
                    } else {
                        Some(remaining)
                    }
                },
            },
        }
    }
}


/// Probe tally of one block.
#[derive(Debug, Clone, Copy, PartialEq, Eq)]
pub struct BlockStats {
    pub total: u64,
    pub header_ok: u64,
    pub receipts_ok: u64,
    pub header_ms_sum: u128,
    pub receipts_ms_sum: u128,
}

/// The tally of a block never probed.
pub open spec fn empty_block_stats() -> BlockStats {
    BlockStats { total: 0, header_ok: 0, receipts_ok: 0, header_ms_sum: 0, receipts_ms_sum: 0 }
}

/// `b` after one more probe.
pub open spec fn tally_probe(b: BlockStats, header_ok: bool, receipts_ok: bool, header_ms: u128, receipts_ms: Option<u128>) -> BlockStats {
    BlockStats {
        total: (b.total + 1) as u64,
        header_ok: if header_ok { (b.header_ok + 1) as u64 } else { b.header_ok },
        header_ms_sum: if header_ok { (b.header_ms_sum + header_ms) as u128 } else { b.header_ms_sum },
        receipts_ok: if receipts_ok { (b.receipts_ok + 1) as u64 } else { b.receipts_ok },
        receipts_ms_sum: if receipts_ok && receipts_ms is Some {
            (b.receipts_ms_sum + receipts_ms->0) as u128
        } else {
            b.receipts_ms_sum
        },
    }
}

/// Whether one more probe fits in the counters of `b`.
pub open spec fn tally_fits(b: BlockStats, header_ms: u128, receipts_ms: Option<u128>) -> bool {
    &&& b.total < u64::MAX
    &&& b.header_ok < u64::MAX
    &&& b.receipts_ok < u64::MAX
    &&& b.header_ms_sum + header_ms <= u128::MAX
    &&& receipts_ms is Some ==> b.receipts_ms_sum + receipts_ms->0 <= u128::MAX
}

/// Probe tallies by block, kept in increasing block order.
#[derive(Debug, Clone)]
pub struct BlockTable {
    entries: Vec<(u64, BlockStats)>,
}

/// Whether some entry is for block `k`.
pub open spec fn has_block<V>(entries: Seq<(u64, V)>, k: u64) -> bool {
    exists|i: int| 0 <= i < entries.len() && #[trigger] entries[i].0 == k
}

impl View for BlockTable {
    type V = Map<u64, BlockStats>;

    closed spec fn view(&self) -> Map<u64, BlockStats> {
        Map::new(
            |k: u64| has_block(self.entries@, k),
            |k: u64| self.entries@[choose|i: int| 0 <= i < self.entries@.len() && #[trigger] self.entries@[i].0 == k].1,
        )
    }
}

impl BlockTable {
    /// The entries are in strictly increasing block order.
    pub closed spec fn wf(&self) -> bool {
        forall|i: int, j: int| 0 <= i < j < self.entries@.len() ==> self.entries@[i].0 < self.entries@[j].0
    }

    /// The entries, in increasing block order.
    pub closed spec fn entries_view(&self) -> Seq<(u64, BlockStats)> {
        self.entries@
    }

    proof fn lemma_entry(&self, i: int)
        requires
            self.wf(),
            0 <= i < self.entries@.len(),
        ensures
            self@.contains_key(self.entries@[i].0),
            self@[self.entries@[i].0] == self.entries@[i].1,
    {
        let k = self.entries@[i].0;
        assert(has_block(self.entries@, k));
        let j = choose|j: int| 0 <= j < self.entries@.len() && #[trigger] self.entries@[j].0 == k;
        if j != i {
            if j < i {
            } else {
            }
        }
    }

    /// The entries list the table, in increasing block order.
    pub proof fn lemma_entries(&self)
        requires
            self.wf(),
        ensures
            forall|i: int, j: int| 0 <= i < j < self.entries_view().len() ==> self.entries_view()[i].0 < self.entries_view()[j].0,
            forall|i: int| 0 <= i < self.entries_view().len() ==> self@.contains_key(#[trigger] self.entries_view()[i].0)
                && self@[self.entries_view()[i].0] == self.entries_view()[i].1,
            forall|k: u64| #[trigger] self@.contains_key(k) ==> exists|i: int| 0 <= i < self.entries_view().len()
                && #[trigger] self.entries_view()[i].0 == k,
    {
        assert forall|i: int| 0 <= i < self.entries_view().len() implies self@.contains_key(#[trigger] self.entries_view()[i].0)
            && self@[self.entries_view()[i].0] == self.entries_view()[i].1 by {
            self.lemma_entry(i);
        }
        assert forall|k: u64| #[trigger] self@.contains_key(k) implies exists|i: int| 0 <= i < self.entries_view().len()
            && #[trigger] self.entries_view()[i].0 == k by {
            assert(has_block(self.entries@, k));
            let j = choose|j: int| 0 <= j < self.entries@.len() && #[trigger] self.entries@[j].0 == k;
            assert(self.entries_view()[j].0 == k);
        }
    }

    pub fn new() -> (res: Self)
        ensures
            res.wf(),
            res@ == Map::<u64, BlockStats>::empty(),
    {
        let res = BlockTable { entries: Vec::new() };
        assert(res@ =~= Map::<u64, BlockStats>::empty());
        res
    }

    /// The first position whose block is not below `k`.
    fn lower_bound(&self, k: u64) -> (res: usize)
        requires
            self.wf(),
        ensures
            res <= self.entries@.len(),
            forall|j: int| 0 <= j < res ==> #[trigger] self.entries@[j].0 < k,
            res < self.entries@.len() ==> self.entries@[res as int].0 >= k,
    {
        let mut i: usize = 0;
        while i < self.entries.len() && self.entries[i].0 < k
            invariant
                i <= self.entries@.len(),
                forall|j: int| 0 <= j < i ==> #[trigger] self.entries@[j].0 < k,
            decreases self.entries@.len() - i,
        {
            i = i + 1;
        }
        i
    }

    /// The tally of block `k`, if it was probed.
    pub fn get(&self, k: u64) -> (res: Option<BlockStats>)
        requires
            self.wf(),
        ensures
            res == if self@.contains_key(k) { Some(self@[k]) } else { None::<BlockStats> },
    {
        let i = self.lower_bound(k);
        if i < self.entries.len() && self.entries[i].0 == k {
            proof {
                self.lemma_entry(i as int);
            }
            Some(self.entries[i].1)
        } else {
            proof {
                if has_block(self.entries@, k) {
                    let j = choose|j: int| 0 <= j < self.entries@.len() && #[trigger] self.entries@[j].0 == k;
                    if j < i {
                    } else {
                        assert(self.entries@[i as int].0 <= self.entries@[j].0);
                    }
                }
            }
            None
        }
    }

    /// Puts `v` under block `k`, replacing any earlier tally.
    pub fn put(&mut self, k: u64, v: BlockStats)
        requires
            old(self).wf(),
        ensures
            final(self).wf(),
            final(self)@ == old(self)@.insert(k, v),
    {
        let ghost before = *self;
        let i = self.lower_bound(k);
        if i < self.entries.len() && self.entries[i].0 == k {
            self.entries.set(i, (k, v));
            proof {
                assert forall|a: int, b: int| 0 <= a < b < self.entries@.len() implies self.entries@[a].0
                    < self.entries@[b].0 by {
                    assert(before.entries@[a].0 < before.entries@[b].0);
                }
                self.lemma_entry(i as int);
                assert forall|key: u64| #[trigger] self@.contains_key(key) == before@.insert(k, v).contains_key(key) by {
                    if has_block(before.entries@, key) {
                        let j = choose|j: int| 0 <= j < before.entries@.len() && #[trigger] before.entries@[j].0 == key;
                        assert(self.entries@[j].0 == key);
                    }
                    if has_block(self.entries@, key) {
                        let j = choose|j: int| 0 <= j < self.entries@.len() && #[trigger] self.entries@[j].0 == key;
                        assert(before.entries@[j].0 == key);
                    }
                }
                assert forall|key: u64| #[trigger] self@.contains_key(key) implies self@[key] == before@.insert(k, v)[key] by {
                    if key != k {
                        let j = choose|j: int| 0 <= j < self.entries@.len() && #[trigger] self.entries@[j].0 == key;
                        self.lemma_entry(j);
                        before.lemma_entry(j);
                    }
                }
                assert(self@ =~= before@.insert(k, v));
            }
        } else {
            self.entries.insert(i, (k, v));
            proof {
                assert forall|a: int| 0 <= a < self.entries@.len() && a != i implies #[trigger] self.entries@[a]
                    == before.entries@[if a < i { a } else { a - 1 }] by {}
                assert forall|a: int, b: int| 0 <= a < b < self.entries@.len() implies self.entries@[a].0
                    < self.entries@[b].0 by {
                    let a0 = if a < i { a } else { a - 1 };
                    let b0 = if b < i { b } else { b - 1 };
                    if a != i && b != i {
                        assert(before.entries@[a0].0 < before.entries@[b0].0);
                    } else if a == i {
                        assert(self.entries@[b] == before.entries@[b0]);
                        assert(before.entries@[i as int].0 <= before.entries@[b0].0);
                    } else {
                        assert(self.entries@[a] == before.entries@[a0]);
                    }
                }
                self.lemma_entry(i as int);
                assert forall|key: u64| #[trigger] self@.contains_key(key) == before@.insert(k, v).contains_key(key) by {
                    if has_block(before.entries@, key) {
                        let j = choose|j: int| 0 <= j < before.entries@.len() && #[trigger] before.entries@[j].0 == key;
                        let j2 = if j < i { j } else { j + 1 };
                        assert(self.entries@[j2] == before.entries@[j]);
                    }
                    if has_block(self.entries@, key) {
                        let j = choose|j: int| 0 <= j < self.entries@.len() && #[trigger] self.entries@[j].0 == key;
                        if j != i {
                            let j0 = if j < i { j } else { j - 1 };
                            assert(before.entries@[j0].0 == key);
                        }
                    }
                }
                assert forall|key: u64| #[trigger] self@.contains_key(key) implies self@[key] == before@.insert(k, v)[key] by {
                    if key != k {
                        let j = choose|j: int| 0 <= j < self.entries@.len() && #[trigger] self.entries@[j].0 == key;
                        let j0 = if j < i { j } else { j - 1 };
                        assert(j != i);
                        assert(self.entries@[j] == before.entries@[j0]);
                        self.lemma_entry(j);
                        before.lemma_entry(j0);
                    }
                }
                assert(self@ =~= before@.insert(k, v));
            }
        }
    }

    /// The tallies in increasing block order.
    pub fn sorted_entries(&self) -> (res: Vec<(u64, BlockStats)>)
        ensures
            res@ == self.entries_view(),
    {
        let mut out: Vec<(u64, BlockStats)> = Vec::new();
        let mut i: usize = 0;
        while i < self.entries.len()
            invariant
                i <= self.entries@.len(),
                out@ == self.entries@.take(i as int),
            decreases self.entries@.len() - i,
        {
            out.push(self.entries[i]);
            proof {
                assert(self.entries@.take(i + 1) =~= self.entries@.take(i as int).push(self.entries@[i as int]));
            }
            i = i + 1;
        }
        proof {
            assert(self.entries@.take(self.entries@.len() as int) =~= self.entries@);
        }
        out
    }
}


/// The tally of a block in `table`, or an empty one.
pub open spec fn block_stats_of(table: Map<u64, BlockStats>, block: u64) -> BlockStats {
    if table.contains_key(block) { table[block] } else { empty_block_stats() }
}

/// The count of a client in `table`, or 0.
pub open spec fn client_count(table: Map<Seq<char>, u64>, client: Seq<char>) -> u64 {
    if table.contains_key(client) { table[client] } else { 0 }
}

/// Tallies of a probe run: by block, peers by client version, probes and
/// receipts fetched in all.
#[derive(Debug, Clone)]
pub struct Stats {
    pub by_block: BlockTable,
    pub clients: NamedTable<u64>,
    pub total_probes: u64,
    pub receipts_ok_total: u64,
}

impl Stats {
    pub open spec fn wf(&self) -> bool {
        self.by_block.wf() && self.clients.wf()
    }

    /// Whether one more probe of `block` fits in the counters.
    pub open spec fn probe_fits(&self, block: u64, header_ms: u128, receipts_ms: Option<u128>) -> bool {
        &&& self.total_probes < u64::MAX
        &&& self.receipts_ok_total < u64::MAX
        &&& tally_fits(block_stats_of(self.by_block@, block), header_ms, receipts_ms)
    }

    pub fn new() -> (res: Self)
        ensures
            res.wf(),
            res.by_block@ == Map::<u64, BlockStats>::empty(),
            res.clients@ == Map::<Seq<char>, u64>::empty(),
            res.total_probes == 0,
            res.receipts_ok_total == 0,
    {
        Stats { by_block: BlockTable::new(), clients: NamedTable::new(), total_probes: 0, receipts_ok_total: 0 }
    }

    /// Counts one more peer running `client_version`.
    pub fn record_peer(&mut self, client_version: &str)
        requires
            old(self).wf(),
            client_count(old(self).clients@, client_version@) < u64::MAX,
        ensures
            final(self).wf(),
            final(self).clients@ == old(self).clients@.insert(
                client_version@,
                (client_count(old(self).clients@, client_version@) + 1) as u64,
            ),
            final(self).by_block@ == old(self).by_block@,
            final(self).total_probes == old(self).total_probes,
            final(self).receipts_ok_total == old(self).receipts_ok_total,
    {
        let n = match self.clients.get(client_version) {
            Some(n) => n,
            None => 0,
        };
        self.clients.insert(client_version, n + 1);
    }

    /// Counts one probe of `block`: whether its header and its receipts
    /// came, and how long each took.
    pub fn record_probe(&mut self, block: u64, header_ok: bool, receipts_ok: bool, header_ms: u128, receipts_ms: Option<u128>)
        requires
            old(self).wf(),
            old(self).probe_fits(block, header_ms, receipts_ms),
        ensures
            final(self).wf(),
            final(self).by_block@ == old(self).by_block@.insert(
                block,
                tally_probe(block_stats_of(old(self).by_block@, block), header_ok, receipts_ok, header_ms, receipts_ms),
            ),
            final(self).clients@ == old(self).clients@,
            final(self).total_probes == old(self).total_probes + 1,
            final(self).receipts_ok_total == old(self).receipts_ok_total + if receipts_ok { 1int } else { 0 },
    {
        let mut b = match self.by_block.get(block) {
            Some(b) => b,
            None => BlockStats { total: 0, header_ok: 0, receipts_ok: 0, header_ms_sum: 0, receipts_ms_sum: 0 },
        };
        b.total = b.total + 1;
        self.total_probes = self.total_probes + 1;
        if header_ok {
            b.header_ok = b.header_ok + 1;
            b.header_ms_sum = b.header_ms_sum + header_ms;
        }
        if receipts_ok {
            b.receipts_ok = b.receipts_ok + 1;
            self.receipts_ok_total = self.receipts_ok_total + 1;
            if let Some(ms) = receipts_ms {
                b.receipts_ms_sum = b.receipts_ms_sum + ms;
            }
        }
        self.by_block.put(block, b);
    }
}

/// Which receipts request a peer's protocol version calls for.
#[derive(Debug, Clone, Copy, PartialEq, Eq)]
pub enum ReceiptsRequest {
    Eth69,
    Eth70,
    Legacy,
}

/// The receipts request for eth protocol version `version`.
pub fn receipts_request(version: u8) -> (res: ReceiptsRequest)
    ensures
        res == if version == 69 {
            ReceiptsRequest::Eth69
        } else if version == 70 {
            ReceiptsRequest::Eth70
        } else {
            ReceiptsRequest::Legacy
        },
{
    if version == 69 {
        ReceiptsRequest::Eth69
    } else if version == 70 {
        ReceiptsRequest::Eth70
    } else {
        ReceiptsRequest::Legacy
    }
}

/// What a finished probe leaves to report: a rest the peer was put to, and
/// whether the block became known just now.
#[derive(Debug, Clone, Copy, PartialEq, Eq)]
pub struct ProbeOutcome {
    pub ban: Option<PeerBan>,
    pub newly_known: bool,
}

/// State of a probe run: the tallies, the peers' health, the blocks whose
/// receipts were fetched, and the blocks still to probe.
#[derive(Debug, Clone)]
pub struct ProbeRun {
    pub stats: Stats,
    pub peer_health: PeerHealthTable,
    pub known_blocks: Vec<u64>,
    pub queue: Vec<u64>,
}

impl ProbeRun {
    pub open spec fn wf(&self) -> bool {
        self.stats.wf() && self.peer_health.wf()
    }

    /// A run over `targets`, skipping the blocks in `known`.
    pub fn new(targets: &Vec<u64>, known: Vec<u64>) -> (res: Self)
        ensures
            res.wf(),
            res.queue@ == unknown_blocks(targets@, known@),
            res.known_blocks@ == known@,
            res.stats.by_block@ == Map::<u64, BlockStats>::empty(),
            res.stats.total_probes == 0,
            res.peer_health.view_map() == Map::<Seq<char>, PeerHealth>::empty(),
    {
        let queue = pending_targets(targets, &known);
        ProbeRun { stats: Stats::new(), peer_health: PeerHealthTable::new(), known_blocks: known, queue }
    }

    /// Notes `block` as known; says whether it was not known before.
    pub fn mark_known_block(&mut self, block: u64) -> (res: bool)
        ensures
            res == !old(self).known_blocks@.contains(block),
            final(self).known_blocks@ == if res { old(self).known_blocks@.push(block) } else { old(self).known_blocks@ },
            final(self).stats == old(self).stats,
            final(self).peer_health == old(self).peer_health,
            final(self).queue == old(self).queue,
    {
        if contains_block(&self.known_blocks, block) {
            false
        } else {
            self.known_blocks.push(block);
            true
        }
    }

    /// The header of `block` did not come from `peer_key`: the probe is
    /// counted as failed and the peer's failure recorded.
    pub fn header_failed(&mut self, peer_key: &str, block: u64, header_ms: u128, now_ms: u64) -> (res: Option<PeerBan>)
        requires
            old(self).wf(),
            old(self).stats.probe_fits(block, header_ms, None),
            now_ms <= u64::MAX - PEER_BAN_SECS * 1000,
        ensures
            final(self).wf(),
            final(self).stats.by_block@ == old(self).stats.by_block@.insert(
                block,
                tally_probe(block_stats_of(old(self).stats.by_block@, block), false, false, header_ms, None),
            ),
            final(self).stats.total_probes == old(self).stats.total_probes + 1,
            final(self).stats.receipts_ok_total == old(self).stats.receipts_ok_total,
            final(self).peer_health.view_map() == old(self).peer_health.view_map().insert(
                peer_key@,
                after_failure(health_of(old(self).peer_health.view_map(), peer_key@), now_ms).0,
            ),
            res == after_failure(health_of(old(self).peer_health.view_map(), peer_key@), now_ms).1,
            final(self).known_blocks == old(self).known_blocks,
            final(self).queue == old(self).queue,
    {
        self.stats.record_probe(block, false, false, header_ms, None);
        self.peer_health.record_peer_failure(peer_key, now_ms)
    }

    /// The receipts request for `block` to `peer_key` finished, `ok` telling
    /// whether the receipts came. The probe is counted; on success the peer's
    /// failures are cleared and the block noted as known, on failure the
    /// peer's failure is recorded.
    pub fn receipts_finished(
        &mut self,
        peer_key: &str,
        block: u64,
        header_ms: u128,
        receipts_ms: u128,
        ok: bool,
        now_ms: u64,
    ) -> (res: ProbeOutcome)
        requires
            old(self).wf(),
            old(self).stats.probe_fits(block, header_ms, Some(receipts_ms)),
            now_ms <= u64::MAX - PEER_BAN_SECS * 1000,
        ensures
            final(self).wf(),
            final(self).stats.by_block@ == old(self).stats.by_block@.insert(
                block,
                tally_probe(block_stats_of(old(self).stats.by_block@, block), true, ok, header_ms, Some(receipts_ms)),
            ),
            final(self).stats.total_probes == old(self).stats.total_probes + 1,
            final(self).stats.receipts_ok_total == old(self).stats.receipts_ok_total + if ok { 1int } else { 0 },
            final(self).queue == old(self).queue,
            ok ==> {
                let m = old(self).peer_health.view_map();
                &&& res.ban is None
                &&& final(self).peer_health.view_map() == if m.contains_key(peer_key@) {
                    m.insert(peer_key@, fresh_health())
                } else {
                    m
                }
                &&& res.newly_known == !old(self).known_blocks@.contains(block)
                &&& final(self).known_blocks@ == if res.newly_known {
                    old(self).known_blocks@.push(block)
                } else {
                    old(self).known_blocks@
                }
            },
            !ok ==> {
                let h = health_of(old(self).peer_health.view_map(), peer_key@);
                &&& res.ban == after_failure(h, now_ms).1
                &&& final(self).peer_health.view_map() == old(self).peer_health.view_map().insert(
                    peer_key@,
                    after_failure(h, now_ms).0,
                )
                &&& !res.newly_known
                &&& final(self).known_blocks == old(self).known_blocks
            },
    {
        self.stats.record_probe(block, true, ok, header_ms, Some(receipts_ms));
        if ok {
            self.peer_health.record_peer_success(peer_key);
            let newly_known = self.mark_known_block(block);
            ProbeOutcome { ban: None, newly_known }
        } else {
            let ban = self.peer_health.record_peer_failure(peer_key, now_ms);
            ProbeOutcome { ban, newly_known: false }
        }
    }
}

} // verus!
