//! Request planning for the peer-to-peer layer: peer rotation, the limits of
//! the network, how header, body and receipt requests are chunked, how a
//! fetched range is put back in block order, and how the head is probed.

use vstd::prelude::*;
use crate::text::{chars_of, decimal_chars, decimal_string, string_from_chars};
use crate::cli::target_end;

verus! {

/// Identifier for a peer in the selection pool.
pub type SelectorPeerId = String;

/// Peer selector abstraction.
pub trait PeerSelector: Send + Sync {
    fn next_peer(&mut self) -> Option<SelectorPeerId>;
}

/// Round-robin peer selector.
#[derive(Debug)]
pub struct RoundRobinPeerSelector {
    peers: Vec<SelectorPeerId>,
    next_index: usize,
}

impl RoundRobinPeerSelector {
    /// The peers, in rotation order.
    pub closed spec fn peers_view(&self) -> Seq<Seq<char>> {
        self.peers@.map_values(|p: String| p@)
    }

    /// The position of the next peer handed out.
    pub closed spec fn cursor(&self) -> int {
        self.next_index as int
    }

    /// The cursor points at a peer, when there is one.
    #[verifier::type_invariant]
    pub closed spec fn wf(&self) -> bool {
        self.peers@.len() == 0 || self.next_index < self.peers@.len()
    }

    pub fn new(peers: Vec<SelectorPeerId>) -> (res: Self)
        ensures
            res.peers_view() == peers@.map_values(|p: String| p@),
            res.cursor() == 0,
    {
        RoundRobinPeerSelector { peers, next_index: 0 }
    }
}

impl Default for RoundRobinPeerSelector {
    fn default() -> (res: Self)
        ensures
            res.peers_view().len() == 0,
            res.cursor() == 0,
    {
        let res = RoundRobinPeerSelector { peers: Vec::new(), next_index: 0 };
        assert(res.peers_view() =~= Seq::<Seq<char>>::empty());
        res
    }
}

impl PeerSelector for RoundRobinPeerSelector {
    /// The peer at the cursor, moving the cursor to the next one and back
    /// to the first after the last; `None` when there are no peers.
    fn next_peer(&mut self) -> (res: Option<SelectorPeerId>)
        ensures
            final(self).peers_view() == old(self).peers_view(),
            old(self).peers_view().len() == 0 ==> res is None && final(self).cursor() == old(self).cursor(),
            old(self).peers_view().len() > 0 ==> {
                &&& (res matches Some(p) && p@ == old(self).peers_view()[old(self).cursor()])
                &&& final(self).cursor() == (old(self).cursor() + 1) % (old(self).peers_view().len() as int)
            },
    {
        proof {
            use_type_invariant(&*self);
        }
        if self.peers.len() == 0 {
            return None;
        }
        let peer = self.peers[self.next_index].clone();
        self.next_index = (self.next_index + 1) % self.peers.len();
        Some(peer)
    }
}

/// Starting at cursor `c` of `n` peers, the `j`-th call of the rotation
/// hands out peer `(c + j) % n`: the cursor after `j` calls.
pub open spec fn cursor_after(c: int, n: int, j: nat) -> int
    decreases j,
{
    if j == 0 {
        c
    } else {
        (cursor_after(c, n, (j - 1) as nat) + 1) % n
    }
}

/// The rotation visits the peers in order and comes back to where it
/// started: after `j` calls from cursor `c` it stands at `(c + j) % n`.
pub proof fn lemma_round_robin_cycles(c: int, n: int, j: nat)
    requires
        0 <= c < n,
    ensures
        cursor_after(c, n, j) == (c + j) % n,
    decreases j,
{
    if j > 0 {
        lemma_round_robin_cycles(c, n, (j - 1) as nat);
        let x = c + j - 1;
        vstd::arithmetic::div_mod::lemma_add_mod_noop(x, 1, n);
        if n > 1 {
            vstd::arithmetic::div_mod::lemma_small_mod(1, n as nat);
        } else {
            vstd::arithmetic::div_mod::lemma_mod_bound(x + 1, n);
            vstd::arithmetic::div_mod::lemma_mod_bound((x % n) + 1, n);
        }
    } else {
        vstd::arithmetic::div_mod::lemma_small_mod(c as nat, n as nat);
    }
}

/// Whether one of the `n` calls of the rotation from cursor `c` stands at `p`.
pub open spec fn rotation_visits(c: int, n: int, p: int) -> bool {
    exists|j: nat| j < n && #[trigger] cursor_after(c, n, j) == p
}

/// Any `n` consecutive calls of the rotation over `n` peers hand out every
/// peer exactly once: the cursors of calls `0..n` from cursor `c` are
/// pairwise distinct and cover every position. From a new selector
/// (cursor 0), the `k`-th call (counting from 0) hands out peer `k % n`.
pub proof fn lemma_round_robin_each_once(c: int, n: int)
    requires
        0 <= c < n,
    ensures
        forall|j: nat, k: nat| j < n && k < n && j != k ==> #[trigger] cursor_after(c, n, j) != #[trigger] cursor_after(c, n, k),
        forall|p: int| 0 <= p < n ==> #[trigger] rotation_visits(c, n, p),
        forall|k: nat| #[trigger] cursor_after(0, n, k) == (k as int) % n,
{
    assert forall|j: nat, k: nat| j < n && k < n && j != k implies #[trigger] cursor_after(c, n, j) != #[trigger] cursor_after(c, n, k) by {
        lemma_round_robin_cycles(c, n, j);
        lemma_round_robin_cycles(c, n, k);
        let x = c + j;
        let y = c + k;
        vstd::arithmetic::div_mod::lemma_fundamental_div_mod(x, n);
        vstd::arithmetic::div_mod::lemma_fundamental_div_mod(y, n);
        assert(0 <= x < 2 * n && 0 <= y < 2 * n);
        if x < n {
            vstd::arithmetic::div_mod::lemma_small_mod(x as nat, n as nat);
        } else {
            vstd::arithmetic::div_mod::lemma_mod_sub_multiples_vanish(x, n);
            vstd::arithmetic::div_mod::lemma_small_mod((x - n) as nat, n as nat);
        }
        if y < n {
            vstd::arithmetic::div_mod::lemma_small_mod(y as nat, n as nat);
        } else {
            vstd::arithmetic::div_mod::lemma_mod_sub_multiples_vanish(y, n);
            vstd::arithmetic::div_mod::lemma_small_mod((y - n) as nat, n as nat);
        }
    }
    assert forall|p: int| 0 <= p < n implies #[trigger] rotation_visits(c, n, p) by {
        let j: nat = if p >= c { (p - c) as nat } else { (p - c + n) as nat };
        lemma_round_robin_cycles(c, n, j);
        if p >= c {
            vstd::arithmetic::div_mod::lemma_small_mod(p as nat, n as nat);
        } else {
            vstd::arithmetic::div_mod::lemma_mod_sub_multiples_vanish(p + n, n);
            vstd::arithmetic::div_mod::lemma_small_mod(p as nat, n as nat);
        }
        assert(cursor_after(c, n, j) == p);
    }
    assert forall|k: nat| #[trigger] cursor_after(0, n, k) == (k as int) % n by {
        lemma_round_robin_cycles(0, n, k);
    }
}

pub const MAX_OUTBOUND: usize = 400;
pub const MAX_INBOUND: usize = 200;
pub const MAX_CONCURRENT_DIALS: usize = 200;
pub const PEER_REFILL_INTERVAL_MS: u64 = 500;
pub const REQUEST_TIMEOUT_MS: u64 = 4000;
pub const MAX_HEADERS_PER_REQUEST: usize = 1024;
pub const PEER_CACHE_TTL_DAYS: u64 = 7;
pub const PEER_CACHE_MAX: usize = 5000;

/// The limits the network runs under.
#[derive(Debug, Clone, Copy, PartialEq, Eq)]
pub struct P2pLimits {
    pub max_outbound: usize,
    pub max_concurrent_dials: usize,
    pub peer_refill_interval_ms: u64,
    pub request_timeout_ms: u64,
    pub max_headers_per_request: usize,
    pub peer_cache_ttl_days: u64,
    pub peer_cache_max: usize,
}

pub fn p2p_limits() -> (res: P2pLimits)
    ensures
        res.max_outbound == MAX_OUTBOUND,
        res.max_concurrent_dials == MAX_CONCURRENT_DIALS,
        res.peer_refill_interval_ms == PEER_REFILL_INTERVAL_MS,
        res.request_timeout_ms == REQUEST_TIMEOUT_MS,
        res.max_headers_per_request == MAX_HEADERS_PER_REQUEST,
        res.peer_cache_ttl_days == PEER_CACHE_TTL_DAYS,
        res.peer_cache_max == PEER_CACHE_MAX,
{
    P2pLimits {
        max_outbound: MAX_OUTBOUND,
        max_concurrent_dials: MAX_CONCURRENT_DIALS,
        peer_refill_interval_ms: PEER_REFILL_INTERVAL_MS,
        request_timeout_ms: REQUEST_TIMEOUT_MS,
        max_headers_per_request: MAX_HEADERS_PER_REQUEST,
        peer_cache_ttl_days: PEER_CACHE_TTL_DAYS,
        peer_cache_max: PEER_CACHE_MAX,
    }
}

/// Counters of discovery and session activity.
#[derive(Debug, Clone, Copy, PartialEq, Eq)]
pub struct P2pStats {
    pub discovered_count: usize,
    pub genesis_mismatch_count: usize,
    pub sessions_established: usize,
    pub sessions_closed: usize,
}

impl P2pStats {
    pub fn new() -> (res: P2pStats)
        ensures
            res.discovered_count == 0,
            res.genesis_mismatch_count == 0,
            res.sessions_established == 0,
            res.sessions_closed == 0,
    {
        P2pStats { discovered_count: 0, genesis_mismatch_count: 0, sessions_established: 0, sessions_closed: 0 }
    }
}

/// A peer answered a strict header request with the wrong number of
/// headers.
#[derive(Debug, Clone, Copy, PartialEq, Eq)]
pub struct HeaderCountMismatch {
    pub expected: usize,
    pub got: usize,
}

impl HeaderCountMismatch {
    /// "header count mismatch: expected {expected}, got {got}".
    pub fn message(&self) -> (res: String)
        ensures
            res@ == "header count mismatch: expected "@ + decimal_chars(self.expected as nat) + ", got "@
                + decimal_chars(self.got as nat),
    {
        let mut chars = chars_of("header count mismatch: expected ");
        let e = chars_of(decimal_string(self.expected as u64).as_str());
        let mid = chars_of(", got ");
        let g = chars_of(decimal_string(self.got as u64).as_str());
        chars.extend_from_slice(e.as_slice());
        chars.extend_from_slice(mid.as_slice());
        chars.extend_from_slice(g.as_slice());
        string_from_chars(chars.as_slice())
    }
}

/// Time spent and requests made by each stage of a payload fetch.
#[derive(Debug, Clone, Copy, PartialEq, Eq)]
pub struct FetchStageStats {
    pub headers_ms: u64,
    pub bodies_ms: u64,
    pub receipts_ms: u64,
    pub headers_requests: u64,
    pub bodies_requests: u64,
    pub receipts_requests: u64,
}

impl Default for FetchStageStats {
    fn default() -> (res: Self)
        ensures
            res.headers_ms == 0 && res.bodies_ms == 0 && res.receipts_ms == 0,
            res.headers_requests == 0 && res.bodies_requests == 0 && res.receipts_requests == 0,
    {
        FetchStageStats {
            headers_ms: 0,
            bodies_ms: 0,
            receipts_ms: 0,
            headers_requests: 0,
            bodies_requests: 0,
            receipts_requests: 0,
        }
    }
}


/// One request for a run of headers.
#[derive(Debug, Clone, Copy, PartialEq, Eq)]
pub struct HeaderRequest {
    pub start_block: u64,
    pub limit: usize,
}

/// Chunks a request for `count` headers from `start_block` into requests of
/// at most `MAX_HEADERS_PER_REQUEST`. Lenient: a short or empty answer ends
/// the fetch with what arrived. Strict: an answer of any other size than
/// asked for is an error.
#[derive(Debug, Clone, Copy, PartialEq, Eq)]
pub struct HeaderFetchPlan {
    pub current: u64,
    pub remaining: usize,
    pub requests: u64,
    pub strict: bool,
    pub done: bool,
}

/// The size of the next header batch.
pub open spec fn header_batch(remaining: usize) -> usize {
    if remaining < MAX_HEADERS_PER_REQUEST { remaining } else { MAX_HEADERS_PER_REQUEST }
}

impl HeaderFetchPlan {
    pub fn new(start_block: u64, count: usize, strict: bool) -> (res: HeaderFetchPlan)
        ensures
            res.current == start_block,
            res.remaining == count,
            res.requests == 0,
            res.strict == strict,
            !res.done,
    {
        HeaderFetchPlan { current: start_block, remaining: count, requests: 0, strict, done: false }
    }

    /// The next request, or `None` when the fetch is over.
    pub fn next_request(&self) -> (res: Option<HeaderRequest>)
        ensures
            (self.done || self.remaining == 0) ==> res is None,
            !(self.done || self.remaining == 0) ==> res == Some(HeaderRequest {
                start_block: self.current,
                limit: header_batch(self.remaining),
            }),
    {
        if self.done || self.remaining == 0 {
            return None;
        }
        let batch = if self.remaining < MAX_HEADERS_PER_REQUEST { self.remaining } else { MAX_HEADERS_PER_REQUEST };
        Some(HeaderRequest { start_block: self.current, limit: batch })
    }

    /// Takes the answer to the last request: `received` headers, all of
    /// which the caller keeps when this returns `Ok`. A lenient fetch
    /// counts the request and stops on an empty or short answer; a strict
    /// one fails on any answer of another size. Otherwise the fetch moves
    /// on past the batch.
    pub fn on_response(&mut self, received: usize) -> (res: Result<(), HeaderCountMismatch>)
        requires
            !old(self).done,
            old(self).remaining > 0,
        ensures
            final(self).strict == old(self).strict,
            ({
                let batch = header_batch(old(self).remaining);
                if old(self).strict {
                    &&& final(self).requests == old(self).requests
                    &&& received != batch ==> res == Err::<(), HeaderCountMismatch>(HeaderCountMismatch { expected: batch, got: received })
                        && final(self).done
                    &&& received == batch ==> res is Ok && !final(self).done
                        && final(self).current == sat_add_u64(old(self).current, batch as u64)
                        && final(self).remaining == old(self).remaining - batch
                } else {
                    &&& res is Ok
                    &&& final(self).requests == sat_add_u64(old(self).requests, 1)
                    &&& (received == 0 || received < batch) ==> final(self).done
                        && final(self).current == old(self).current
                        && final(self).remaining == old(self).remaining
                    &&& !(received == 0 || received < batch) ==> !final(self).done
                        && final(self).current == sat_add_u64(old(self).current, batch as u64)
                        && final(self).remaining == old(self).remaining - batch
                }
            }),
    {
        let batch = if self.remaining < MAX_HEADERS_PER_REQUEST { self.remaining } else { MAX_HEADERS_PER_REQUEST };
        if self.strict {
            if received != batch {
                self.done = true;
                return Err(HeaderCountMismatch { expected: batch, got: received });
            }
        } else {
            self.requests = self.requests.saturating_add(1);
            if received == 0 || received < batch {
                self.done = true;
                return Ok(());
            }
        }
        self.current = self.current.saturating_add(batch as u64);
        self.remaining = self.remaining - batch;
        Ok(())
    }
}

/// `a + b`, saturating at `u64::MAX`.
pub open spec fn sat_add_u64(a: u64, b: u64) -> u64 {
    if a + b > u64::MAX { u64::MAX } else { (a + b) as u64 }
}

/// Every request asks for between one and `MAX_HEADERS_PER_REQUEST`
/// headers, starts where the previous full batch ended, and a full answer
/// takes exactly the batch off what remains: the requests of a fetch never
/// ask for more than `count` headers in all.
pub proof fn lemma_header_batches(remaining: usize)
    requires
        remaining > 0,
    ensures
        1 <= header_batch(remaining) <= MAX_HEADERS_PER_REQUEST,
        header_batch(remaining) <= remaining,
{
}

/// A peer answered with more items than asked for.
#[derive(Debug, Clone, Copy, PartialEq, Eq)]
pub struct ChunkCountError {
    pub requested: usize,
    pub got: usize,
}

/// Items fetched by hash in as many requests as it takes: the item for each
/// hash, if it arrived, and the number of requests made.
#[derive(Debug)]
pub struct ChunkedResponse<T> {
    pub results: Vec<Option<T>>,
    pub requests: u64,
}

/// Fetching items for `total` hashes, each request asking for every hash
/// from the cursor on; an empty or short answer ends the fetch.
#[derive(Debug, Clone, Copy, PartialEq, Eq)]
pub struct PartialFetch {
    pub cursor: usize,
    pub total: usize,
    pub requests: u64,
    pub done: bool,
}

impl PartialFetch {
    pub fn new(total: usize) -> (res: PartialFetch)
        ensures
            res.cursor == 0,
            res.total == total,
            res.requests == 0,
            !res.done,
    {
        PartialFetch { cursor: 0, total, requests: 0, done: false }
    }

    /// The hashes to ask for next, as the range `cursor..total`; `None`
    /// when the fetch is over.
    pub fn next_request(&self) -> (res: Option<(usize, usize)>)
        requires
            self.cursor <= self.total,
        ensures
            (self.done || self.cursor >= self.total) ==> res is None,
            !(self.done || self.cursor >= self.total) ==> res == Some((self.cursor, self.total)),
    {
        if self.done || self.cursor >= self.total {
            None
        } else {
            Some((self.cursor, self.total))
        }
    }

    /// Takes the answer to the last request: `received` items for the
    /// hashes from the cursor on. More than asked for is an error; none or
    /// fewer ends the fetch; the cursor moves past what arrived.
    pub fn on_response(&mut self, received: usize) -> (res: Result<(), ChunkCountError>)
        requires
            !old(self).done,
            old(self).cursor < old(self).total,
        ensures
            final(self).total == old(self).total,
            final(self).requests == sat_add_u64(old(self).requests, 1),
            final(self).cursor <= final(self).total,
            ({
                let requested = (old(self).total - old(self).cursor) as usize;
                &&& received == 0 ==> res is Ok && final(self).done && final(self).cursor == old(self).cursor
                &&& received > requested ==> res == Err::<(), ChunkCountError>(ChunkCountError { requested, got: received })
                    && final(self).done && final(self).cursor == old(self).cursor
                &&& 0 < received <= requested ==> res is Ok && final(self).cursor == old(self).cursor + received
                    && final(self).done == (received < requested)
            }),
    {
        self.requests = self.requests.saturating_add(1);
        let requested = self.total - self.cursor;
        if received == 0 {
            self.done = true;
            return Ok(());
        }
        if received > requested {
            self.done = true;
            return Err(ChunkCountError { requested, got: received });
        }
        self.cursor = self.cursor + received;
        if received < requested {
            self.done = true;
        }
        Ok(())
    }
}

/// Puts `items` at positions `cursor..cursor + items.len()` of `results`.
pub fn place_results<T>(results: &mut Vec<Option<T>>, cursor: usize, items: Vec<T>)
    requires
        cursor + items@.len() <= old(results)@.len(),
    ensures
        final(results)@.len() == old(results)@.len(),
        forall|i: int| 0 <= i < old(results)@.len() ==> #[trigger] final(results)@[i] == if cursor <= i < cursor + items@.len() {
            Some(items@[i - cursor])
        } else {
            old(results)@[i]
        },
{
    let mut items = items;
    let ghost all = items@;
    while items.len() > 0
        invariant
            cursor + all.len() <= old(results)@.len(),
            results@.len() == old(results)@.len(),
            items@ == all.take(items@.len() as int),
            items@.len() <= all.len(),
            forall|i: int| 0 <= i < old(results)@.len() ==> #[trigger] results@[i] == if cursor + items@.len() <= i < cursor + all.len() {
                Some(all[i - cursor])
            } else {
                old(results)@[i]
            },
        decreases items@.len(),
    {
        let k = items.len() - 1;
        let item = items.pop().unwrap();
        let n = results.len();
        assert(cursor + k < n);
        let pos = cursor + k;
        results.set(pos, Some(item));
        proof {
            assert(items@ =~= all.take(k as int));
        }
    }
}

/// The result of fetching the payloads of a range of blocks from a peer.
#[derive(Debug)]
pub struct PayloadFetchOutcome<P> {
    pub payloads: Vec<P>,
    pub missing_blocks: Vec<u64>,
    pub fetch_stats: FetchStageStats,
}

/// The position of the last entry of `numbers` (among the first `upto`)
/// equal to `n`.
pub open spec fn last_index_of(numbers: Seq<u64>, n: u64, upto: int) -> Option<int>
    decreases upto,
{
    if upto <= 0 {
        None
    } else if numbers[upto - 1] == n {
        Some(upto - 1)
    } else {
        last_index_of(numbers, n, upto - 1)
    }
}

/// For the blocks `start..start + len`: the position of the header that
/// holds each block (the last one received with that number), and the
/// blocks no header holds, each in block order.
pub open spec fn order_spec(numbers: Seq<u64>, start: u64, len: nat) -> (Seq<usize>, Seq<u64>)
    decreases len,
{
    if len == 0 {
        (Seq::empty(), Seq::empty())
    } else {
        let (o, m) = order_spec(numbers, start, (len - 1) as nat);
        let n = (start + len - 1) as u64;
        match last_index_of(numbers, n, numbers.len() as int) {
            Some(i) => (o.push(i as usize), m),
            None => (o, m.push(n)),
        }
    }
}

proof fn lemma_last_index_bounds(numbers: Seq<u64>, n: u64, upto: int)
    requires
        upto <= numbers.len(),
    ensures
        last_index_of(numbers, n, upto) matches Some(i) ==> 0 <= i < upto && numbers[i] == n,
    decreases upto,
{
    if upto > 0 {
        lemma_last_index_bounds(numbers, n, upto - 1);
    }
}

/// Puts received headers (given by their numbers) in block order for the
/// range `start..=end`: see `order_spec`.
pub fn order_headers(start: u64, end: u64, numbers: &Vec<u64>) -> (res: (Vec<usize>, Vec<u64>))
    requires
        start <= end,
        end - start + 1 <= usize::MAX,
    ensures
        (res.0@, res.1@) == order_spec(numbers@, start, (end - start + 1) as nat),
{
    let count = (end - start) as usize + 1;
    let mut ordered: Vec<usize> = Vec::new();
    let mut missing: Vec<u64> = Vec::new();
    let mut k: usize = 0;
    while k < count
        invariant
            count == end - start + 1,
            start <= end,
            k <= count,
            (ordered@, missing@) == order_spec(numbers@, start, k as nat),
        decreases count - k,
    {
        let n = start + k as u64;
        let mut found: Option<usize> = None;
        let mut j: usize = numbers.len();
        while j > 0 && found.is_none()
            invariant
                j <= numbers@.len(),
                last_index_of(numbers@, n, numbers@.len() as int) == if found is Some {
                    Some(found->0 as int)
                } else {
                    last_index_of(numbers@, n, j as int)
                },
                found is Some ==> found->0 == j,
                found is Some ==> found->0 < numbers@.len(),
            decreases j,
        {
            if numbers[j - 1] == n {
                proof {
                    assert(last_index_of(numbers@, n, j as int) == Some((j - 1) as int));
                }
                found = Some(j - 1);
            }
            j = j - 1;
        }
        proof {
            lemma_last_index_bounds(numbers@, n, numbers@.len() as int);
        }
        match found {
            Some(i) => ordered.push(i),
            None => missing.push(n),
        }
        k = k + 1;
    }
    (ordered, missing)
}

/// Which ordered headers become payloads: those whose body and receipts
/// both arrived with as many transactions as receipts.
pub open spec fn accept_spec(numbers: Seq<u64>, bodies: Seq<Option<u64>>, receipts: Seq<Option<u64>>, len: nat) -> (Seq<usize>, Seq<u64>)
    decreases len,
{
    if len == 0 {
        (Seq::empty(), Seq::empty())
    } else {
        let (a, m) = accept_spec(numbers, bodies, receipts, (len - 1) as nat);
        let i = len - 1;
        let body = if i < bodies.len() { bodies[i] } else { None };
        let rcpt = if i < receipts.len() { receipts[i] } else { None };
        match (body, rcpt) {
            (Some(t), Some(r)) => if t == r { (a.push(i as usize), m) } else { (a, m.push(numbers[i])) },
            _ => (a, m.push(numbers[i])),
        }
    }
}

/// What `accept_spec` decides for the first `len` headers: a position is
/// accepted exactly when its body and its receipts both arrived and the
/// body's transaction count equals the receipt count; accepted positions
/// come in increasing order, and the number of every other header is
/// reported missing.
pub proof fn lemma_accept_meaning(numbers: Seq<u64>, bodies: Seq<Option<u64>>, receipts: Seq<Option<u64>>, len: nat)
    requires
        len <= numbers.len(),
        numbers.len() <= usize::MAX,
    ensures
        ({
            let (a, m) = accept_spec(numbers, bodies, receipts, len);
            &&& forall|k: int| 0 <= k < a.len() ==> #[trigger] a[k] < len
            &&& forall|j: int, k: int| 0 <= j < k < a.len() ==> #[trigger] a[j] < #[trigger] a[k]
            &&& forall|i: int| 0 <= i < len ==> (a.contains(i as usize) <==> (i < bodies.len() && i < receipts.len()
                && #[trigger] bodies[i] is Some && receipts[i] is Some && bodies[i]->0 == receipts[i]->0))
            &&& forall|i: int| 0 <= i < len && !a.contains(i as usize) ==> m.contains(#[trigger] numbers[i])
            &&& a.len() + m.len() == len
        }),
    decreases len,
{
    if len > 0 {
        let l1 = (len - 1) as nat;
        lemma_accept_meaning(numbers, bodies, receipts, l1);
        let (a0, m0) = accept_spec(numbers, bodies, receipts, l1);
        let (a, m) = accept_spec(numbers, bodies, receipts, len);
        let i0 = len - 1;
        let ok0 = i0 < bodies.len() && i0 < receipts.len() && bodies[i0] is Some && receipts[i0] is Some
            && bodies[i0]->0 == receipts[i0]->0;
        if ok0 {
            assert(a == a0.push(i0 as usize) && m == m0);
        } else {
            assert(a == a0 && m == m0.push(numbers[i0]));
        }
        assert forall|i: int| 0 <= i < len implies (a.contains(i as usize) <==> (i < bodies.len() && i < receipts.len()
            && #[trigger] bodies[i] is Some && receipts[i] is Some && bodies[i]->0 == receipts[i]->0)) by {
            if a.contains(i as usize) {
                let k = choose|k: int| 0 <= k < a.len() && a[k] == i as usize;
                if k < a0.len() {
                    assert(a0[k] == a[k]);
                    assert(a0.contains(i as usize));
                }
            }
            if i < i0 && a0.contains(i as usize) {
                let k = choose|k: int| 0 <= k < a0.len() && a0[k] == i as usize;
                assert(a[k] == a0[k]);
            }
            if i == i0 && (i < bodies.len() && i < receipts.len() && bodies[i] is Some && receipts[i] is Some
                && bodies[i]->0 == receipts[i]->0) {
                assert(a[a.len() - 1] == i as usize);
            }
        }
        assert forall|i: int| 0 <= i < len && !a.contains(i as usize) implies m.contains(#[trigger] numbers[i]) by {
            if i < i0 {
                if a0.contains(i as usize) {
                    let k = choose|k: int| 0 <= k < a0.len() && a0[k] == i as usize;
                    assert(a[k] == a0[k]);
                }
                let k = choose|k: int| 0 <= k < m0.len() && m0[k] == numbers[i];
                assert(m[k] == m0[k]);
            } else {
                assert(m[m.len() - 1] == numbers[i]);
            }
        }
    }
}

/// Given the numbers of the ordered headers and, for each, the transaction
/// count of its body and the number of its receipts when they arrived:
/// the positions that become payloads and the numbers that are missing,
/// in order (see `accept_spec`).
pub fn assemble_payloads(numbers: &Vec<u64>, bodies: &Vec<Option<u64>>, receipts: &Vec<Option<u64>>) -> (res: (Vec<usize>, Vec<u64>))
    ensures
        (res.0@, res.1@) == accept_spec(numbers@, bodies@, receipts@, numbers@.len()),
        forall|k: int| 0 <= k < res.0@.len() ==> #[trigger] res.0@[k] < numbers@.len(),
        forall|j: int, k: int| 0 <= j < k < res.0@.len() ==> #[trigger] res.0@[j] < #[trigger] res.0@[k],
        forall|i: int| 0 <= i < numbers@.len() ==> (res.0@.contains(i as usize) <==> (i < bodies@.len()
            && i < receipts@.len() && #[trigger] bodies@[i] is Some && receipts@[i] is Some
            && bodies@[i]->0 == receipts@[i]->0)),
        forall|i: int| 0 <= i < numbers@.len() && !res.0@.contains(i as usize) ==> res.1@.contains(#[trigger] numbers@[i]),
        res.0@.len() + res.1@.len() == numbers@.len(),
{
    let count = numbers.len();
    proof {
        lemma_accept_meaning(numbers@, bodies@, receipts@, count as nat);
    }
    let mut accepted: Vec<usize> = Vec::new();
    let mut missing: Vec<u64> = Vec::new();
    let mut i: usize = 0;
    while i < numbers.len()
        invariant
            i <= numbers@.len(),
            (accepted@, missing@) == accept_spec(numbers@, bodies@, receipts@, i as nat),
        decreases numbers@.len() - i,
    {
        let body = if i < bodies.len() { bodies[i] } else { None };
        let rcpt = if i < receipts.len() { receipts[i] } else { None };
        match (body, rcpt) {
            (Some(t), Some(r)) => {
                if t == r {
                    accepted.push(i);
                } else {
                    missing.push(numbers[i]);
                }
            },
            _ => {
                missing.push(numbers[i]);
            },
        }
        i = i + 1;
    }
    (accepted, missing)
}

/// Which peers to ask for headers above `baseline` when looking for the
/// head, and what to ask for.
#[derive(Debug, Clone, PartialEq, Eq)]
pub struct HeadProbePlan {
    pub start: u64,
    pub limit: usize,
    pub peers: Vec<usize>,
}

/// Plans a head probe over `peer_count` peers: none without peers;
/// otherwise `max(probe_peers, 1)` peers at most, taken in turn from
/// position `cursor % peer_count`, each asked for `probe_limit` headers
/// (clamped to `1..=MAX_HEADERS_PER_REQUEST`) from `baseline + 1`.
pub fn plan_head_probe(peer_count: usize, cursor: usize, baseline: u64, probe_peers: usize, probe_limit: usize) -> (res: Option<HeadProbePlan>)
    ensures
        peer_count == 0 ==> res is None,
        peer_count > 0 ==> (res matches Some(plan) && {
            let n = if probe_peers < 1 { 1 } else { probe_peers };
            let k = if n < peer_count { n } else { peer_count };
            &&& plan.start == sat_add_u64(baseline, 1)
            &&& plan.limit == if probe_limit < 1 { 1 } else if probe_limit > MAX_HEADERS_PER_REQUEST { MAX_HEADERS_PER_REQUEST } else { probe_limit }
            &&& plan.peers@.len() == k
            &&& forall|j: int| 0 <= j < k ==> #[trigger] plan.peers@[j] == ((cursor % peer_count) + j) % (peer_count as int)
        }),
{
    if peer_count == 0 {
        return None;
    }
    let n = if probe_peers < 1 { 1 } else { probe_peers };
    let limit = if probe_limit < 1 { 1 } else if probe_limit > MAX_HEADERS_PER_REQUEST { MAX_HEADERS_PER_REQUEST } else { probe_limit };
    let start_idx = cursor % peer_count;
    let k = if n < peer_count { n } else { peer_count };
    let mut peers: Vec<usize> = Vec::new();
    let mut j: usize = 0;
    while j < k
        invariant
            k <= peer_count,
            start_idx < peer_count,
            j <= k,
            peers@.len() == j,
            forall|q: int| 0 <= q < j ==> #[trigger] peers@[q] == (start_idx + q) % (peer_count as int),
        decreases k - j,
    {
        let rem = peer_count - start_idx;
        let idx = if j < rem { start_idx + j } else { j - rem };
        proof {
            if j < rem {
                vstd::arithmetic::div_mod::lemma_small_mod((start_idx + j) as nat, peer_count as nat);
            } else {
                vstd::arithmetic::div_mod::lemma_fundamental_div_mod_converse(
                    (start_idx + j) as int, peer_count as int, 1, (j - rem) as int);
            }
        }
        peers.push(idx);
        j = j + 1;
    }
    Some(HeadProbePlan { start: baseline.saturating_add(1), limit, peers })
}

/// The highest of `baseline` and the last header number of every probe
/// that answered.
pub open spec fn best_head_spec(baseline: u64, answers: Seq<Option<u64>>) -> u64
    decreases answers.len(),
{
    if answers.len() == 0 {
        baseline
    } else {
        let rest = best_head_spec(baseline, answers.drop_last());
        match answers.last() {
            Some(n) => if n > rest { n } else { rest },
            None => rest,
        }
    }
}

/// The head a probe finds is the maximum of the baseline and the answered
/// header numbers: at least each of them, and equal to one of them.
pub proof fn lemma_best_head_is_max(baseline: u64, answers: Seq<Option<u64>>)
    ensures
        best_head_spec(baseline, answers) >= baseline,
        forall|i: int| 0 <= i < answers.len() && #[trigger] answers[i] is Some
            ==> best_head_spec(baseline, answers) >= answers[i]->0,
        best_head_spec(baseline, answers) == baseline || exists|i: int| 0 <= i < answers.len()
            && #[trigger] answers[i] == Some(best_head_spec(baseline, answers)),
    decreases answers.len(),
{
    if answers.len() > 0 {
        let init = answers.drop_last();
        lemma_best_head_is_max(baseline, init);
        let r = best_head_spec(baseline, answers);
        assert forall|i: int| 0 <= i < answers.len() && #[trigger] answers[i] is Some implies r >= answers[i]->0 by {
            if i < answers.len() - 1 {
                assert(init[i] == answers[i]);
            }
        }
        if r != baseline {
            if answers.last() == Some(r) {
                assert(answers[answers.len() - 1] == Some(r));
            } else {
                let i = choose|i: int| 0 <= i < init.len() && #[trigger] init[i] == Some(best_head_spec(baseline, init));
                assert(answers[i] == init[i]);
            }
        }
    }
}

/// The head found by a probe: the highest of `baseline` and the answered
/// header numbers (see `best_head_spec`).
pub fn best_head(baseline: u64, answers: &Vec<Option<u64>>) -> (res: u64)
    ensures
        res == best_head_spec(baseline, answers@),
        res >= baseline,
        forall|i: int| 0 <= i < answers@.len() && #[trigger] answers@[i] is Some ==> res >= answers@[i]->0,
        res == baseline || exists|i: int| 0 <= i < answers@.len() && #[trigger] answers@[i] == Some(res),
{
    proof {
        lemma_best_head_is_max(baseline, answers@);
    }
    let mut best = baseline;
    let mut i: usize = 0;
    while i < answers.len()
        invariant
            i <= answers@.len(),
            best == best_head_spec(baseline, answers@.take(i as int)),
        decreases answers@.len() - i,
    {
        proof {
            assert(answers@.take(i + 1).drop_last() =~= answers@.take(i as int));
        }
        if let Some(n) = answers[i] {
            if n > best {
                best = n;
            }
        }
        i = i + 1;
    }
    proof {
        assert(answers@.take(answers@.len() as int) =~= answers@);
    }
    best
}


/// A connected peer as the pool keeps it: its id, the eth protocol version
/// of its session, and the highest block it announced.
#[derive(Debug, Clone, PartialEq, Eq)]
pub struct PoolPeer {
    pub peer_id: String,
    pub eth_version: u8,
    pub head_number: u64,
}

/// The position of the peer with id `id` among `peers`, if any.
pub open spec fn pool_index(peers: Seq<PoolPeer>, id: Seq<char>) -> Option<int> {
    if exists|i: int| 0 <= i < peers.len() && #[trigger] peers[i].peer_id@ == id {
        Some(choose|i: int| 0 <= i < peers.len() && #[trigger] peers[i].peer_id@ == id)
    } else {
        None
    }
}

/// The connected peers, in the order they connected, at most one per id.
#[derive(Debug)]
pub struct PeerPool {
    peers: Vec<PoolPeer>,
}

impl PeerPool {
    /// The peers, in the order they connected.
    pub closed spec fn peers_view(&self) -> Seq<PoolPeer> {
        self.peers@
    }

    /// No two peers share an id.
    pub closed spec fn wf(&self) -> bool {
        forall|i: int, j: int| 0 <= i < j < self.peers@.len() ==> self.peers@[i].peer_id@ != self.peers@[j].peer_id@
    }

    pub fn new() -> (res: PeerPool)
        ensures
            res.wf(),
            res.peers_view().len() == 0,
    {
        PeerPool { peers: Vec::new() }
    }

    fn position(&self, id: &str) -> (res: Option<usize>)
        requires
            self.wf(),
        ensures
            match res {
                Some(i) => i < self.peers@.len() && self.peers@[i as int].peer_id@ == id@ && pool_index(self.peers@, id@) == Some(i as int),
                None => pool_index(self.peers@, id@) is None,
            },
    {
        let mut i: usize = 0;
        while i < self.peers.len()
            invariant
                self.wf(),
                i <= self.peers@.len(),
                forall|j: int| 0 <= j < i ==> #[trigger] self.peers@[j].peer_id@ != id@,
            decreases self.peers@.len() - i,
        {
            if crate::text::str_eq(self.peers[i].peer_id.as_str(), id) {
                proof {
                    let k = choose|k: int| 0 <= k < self.peers@.len() && #[trigger] self.peers@[k].peer_id@ == id@;
                    if k < i {
                    } else if k > i {
                    }
                }
                return Some(i);
            }
            i = i + 1;
        }
        None
    }

    /// Number of connected peers.
    pub fn len(&self) -> (res: usize)
        ensures
            res == self.peers_view().len(),
    {
        self.peers.len()
    }

    /// The peers, in the order they connected.
    pub fn snapshot(&self) -> (res: Vec<PoolPeer>)
        ensures
            res@ == self.peers_view(),
    {
        let mut out: Vec<PoolPeer> = Vec::new();
        let mut i: usize = 0;
        while i < self.peers.len()
            invariant
                i <= self.peers@.len(),
                out@ == self.peers@.take(i as int),
            decreases self.peers@.len() - i,
        {
            let p = &self.peers[i];
            out.push(PoolPeer { peer_id: p.peer_id.clone(), eth_version: p.eth_version, head_number: p.head_number });
            proof {
                assert(self.peers@.take(i + 1) =~= self.peers@.take(i as int).push(self.peers@[i as int]));
            }
            i = i + 1;
        }
        proof {
            assert(self.peers@.take(self.peers@.len() as int) =~= self.peers@);
        }
        out
    }

    /// Adds a peer that connected; a peer whose id is already in the pool
    /// is ignored.
    pub fn add_peer(&mut self, peer: PoolPeer)
        requires
            old(self).wf(),
        ensures
            final(self).wf(),
            pool_index(old(self).peers_view(), peer.peer_id@) is Some ==> final(self).peers_view() == old(self).peers_view(),
            pool_index(old(self).peers_view(), peer.peer_id@) is None ==> final(self).peers_view() == old(self).peers_view().push(peer),
    {
        if self.position(peer.peer_id.as_str()).is_some() {
            return;
        }
        proof {
            assert forall|i: int| 0 <= i < self.peers@.len() implies #[trigger] self.peers@[i].peer_id@ != peer.peer_id@ by {
                if self.peers@[i].peer_id@ == peer.peer_id@ {
                    assert(exists|k: int| 0 <= k < self.peers@.len() && #[trigger] self.peers@[k].peer_id@ == peer.peer_id@);
                }
            }
        }
        self.peers.push(peer);
    }

    /// The announced head of the peer with id `id`, if it is connected.
    pub fn get_peer_head(&self, id: &str) -> (res: Option<u64>)
        requires
            self.wf(),
        ensures
            match pool_index(self.peers_view(), id@) {
                Some(i) => res == Some(self.peers_view()[i].head_number),
                None => res is None,
            },
    {
        match self.position(id) {
            Some(i) => Some(self.peers[i].head_number),
            None => None,
        }
    }

    /// Records a new head announced by the peer with id `id`, if it is
    /// connected.
    pub fn update_peer_head(&mut self, id: &str, head_number: u64)
        requires
            old(self).wf(),
        ensures
            final(self).wf(),
            match pool_index(old(self).peers_view(), id@) {
                Some(i) => final(self).peers_view() == old(self).peers_view().update(
                    i,
                    PoolPeer { head_number, ..old(self).peers_view()[i] },
                ),
                None => final(self).peers_view() == old(self).peers_view(),
            },
    {
        if let Some(i) = self.position(id) {
            let p = &self.peers[i];
            let updated = PoolPeer { peer_id: p.peer_id.clone(), eth_version: p.eth_version, head_number };
            self.peers.set(i, updated);
            proof {
                assert forall|a: int, b: int| 0 <= a < b < self.peers@.len() implies self.peers@[a].peer_id@
                    != self.peers@[b].peer_id@ by {
                    assert(old(self).peers@[a].peer_id@ != old(self).peers@[b].peer_id@);
                }
            }
        }
    }

    /// Removes the peer with id `id`, if it is connected.
    pub fn remove_peer(&mut self, id: &str)
        requires
            old(self).wf(),
        ensures
            final(self).wf(),
            match pool_index(old(self).peers_view(), id@) {
                Some(i) => final(self).peers_view() == old(self).peers_view().remove(i),
                None => final(self).peers_view() == old(self).peers_view(),
            },
    {
        if let Some(i) = self.position(id) {
            self.peers.remove(i);
            proof {
                let o = old(self).peers@;
                assert forall|a: int| 0 <= a < self.peers@.len() implies #[trigger] self.peers@[a] == o[if a < i { a } else { a + 1 }] by {}
                assert forall|a: int, b: int| 0 <= a < b < self.peers@.len() implies self.peers@[a].peer_id@
                    != self.peers@[b].peer_id@ by {
                    let a0 = if a < i { a } else { a + 1 };
                    let b0 = if b < i { b } else { b + 1 };
                    assert(self.peers@[a] == o[a0]);
                    assert(self.peers@[b] == o[b0]);
                }
            }
        }
    }
}


/// What waiting for peers does next.
#[derive(Debug, Clone, Copy, PartialEq, Eq)]
pub enum PoolWait {
    /// Stop waiting with this many peers.
    Ready(usize),
    /// Give up: the time ran out with no peer at all.
    NoPeers,
    /// Wait a little longer.
    Wait,
}

/// One check while waiting for `target` peers: enough peers end the wait;
/// once the deadline has passed, any peer ends it and none is a failure.
pub fn pool_wait_step(peers: usize, target: usize, deadline_passed: bool) -> (res: PoolWait)
    ensures
        res == if peers >= target {
            PoolWait::Ready(peers)
        } else if deadline_passed {
            if peers == 0 { PoolWait::NoPeers } else { PoolWait::Ready(peers) }
        } else {
            PoolWait::Wait
        },
{
    if peers >= target {
        PoolWait::Ready(peers)
    } else if deadline_passed {
        if peers == 0 {
            PoolWait::NoPeers
        } else {
            PoolWait::Ready(peers)
        }
    } else {
        PoolWait::Wait
    }
}

/// Peers last seen before this time (ms) are dropped from the cache when it
/// is loaded at `now_ms`: `PEER_CACHE_TTL_DAYS` earlier (not before 0).
pub fn peer_cache_expire_before(now_ms: u64) -> (res: u64)
    ensures
        res == if now_ms >= PEER_CACHE_TTL_DAYS * 86_400_000 { now_ms - PEER_CACHE_TTL_DAYS * 86_400_000 } else { 0 },
{
    now_ms.saturating_sub(PEER_CACHE_TTL_DAYS * 86_400_000)
}

/// Whether waiting for peers is over: no minimum, or at least `min_peers`
/// peers connected.
pub fn enough_peers(peers: usize, min_peers: usize) -> (res: bool)
    ensures
        res == (min_peers == 0 || peers >= min_peers),
{
    min_peers == 0 || peers >= min_peers
}

/// The highest of the heads reported by peers; 0 when there is none.
pub open spec fn max_head(heads: Seq<u64>) -> u64
    decreases heads.len(),
{
    if heads.len() == 0 {
        0
    } else {
        let m = max_head(heads.drop_last());
        if heads.last() > m { heads.last() } else { m }
    }
}

/// One check while waiting for the peers' head to reach the start block:
/// the best head reported, once the sync target it gives (see `target_end`)
/// is at or above `start_block`; `None` to keep waiting.
pub fn peer_head_ready(heads: &Vec<u64>, start_block: u64, end_block: Option<u64>, rollback_window: u64) -> (res: Option<u64>)
    ensures
        res == if start_block <= target_end(end_block, max_head(heads@), rollback_window) {
            Some(max_head(heads@))
        } else {
            None
        },
{
    let mut best: u64 = 0;
    let mut i: usize = 0;
    while i < heads.len()
        invariant
            i <= heads@.len(),
            best == max_head(heads@.take(i as int)),
        decreases heads@.len() - i,
    {
        proof {
            assert(heads@.take(i + 1).drop_last() =~= heads@.take(i as int));
        }
        if heads[i] > best {
            best = heads[i];
        }
        i = i + 1;
    }
    proof {
        assert(heads@.take(heads@.len() as int) =~= heads@);
    }
    let safe = best.saturating_sub(rollback_window);
    let requested_end = match end_block {
        Some(e) => e,
        None => safe,
    };
    let end = if requested_end <= safe { requested_end } else { safe };
    if start_block <= end {
        Some(best)
    } else {
        None
    }
}

} // verus!
