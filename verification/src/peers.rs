//! The persisted peer cache: peers keyed by id, merged on update, expired
//! and capped on load, newest first.

use vstd::prelude::*;
use vstd::seq_lib::{to_multiset_build, to_multiset_insert};
use crate::text::str_eq;

verus! {

/// A peer as the cache keeps it; addresses are kept as text.
#[derive(Debug, Clone, PartialEq, Eq)]
pub struct StoredPeer {
    pub peer_id: String,
    pub tcp_addr: String,
    pub udp_addr: Option<String>,
    pub last_seen_ms: u64,
    pub aimd_batch_limit: Option<u64>,
}

/// The outcome of loading the peer cache.
#[derive(Debug, Clone, PartialEq, Eq)]
pub struct PeerCacheLoad {
    pub peers: Vec<StoredPeer>,
    pub total: usize,
    pub expired: usize,
    pub corrupted: usize,
    pub capped: usize,
}

/// The position of the peer with id `id`, if any.
pub open spec fn peer_index(peers: Seq<StoredPeer>, id: Seq<char>) -> Option<int> {
    if exists|i: int| 0 <= i < peers.len() && #[trigger] peers[i].peer_id@ == id {
        Some(choose|i: int| 0 <= i < peers.len() && #[trigger] peers[i].peer_id@ == id)
    } else {
        None
    }
}

/// `peers` with `peer` put under its id: it replaces the entry with that
/// id, or comes last.
pub open spec fn insert_one(peers: Seq<StoredPeer>, peer: StoredPeer) -> Seq<StoredPeer> {
    match peer_index(peers, peer.peer_id@) {
        Some(i) => peers.update(i, peer),
        None => peers.push(peer),
    }
}

/// `peers` with each of `more` put under its id, in order.
pub open spec fn insert_all(peers: Seq<StoredPeer>, more: Seq<StoredPeer>) -> Seq<StoredPeer>
    decreases more.len(),
{
    if more.len() == 0 {
        peers
    } else {
        insert_all(insert_one(peers, more[0]), more.drop_first())
    }
}

/// No two peers have the same id.
pub open spec fn distinct_ids(peers: Seq<StoredPeer>) -> bool {
    forall|i: int, j: int| 0 <= i < j < peers.len() ==> peers[i].peer_id@ != peers[j].peer_id@
}

/// The peer cache: at most one entry per peer id.
#[derive(Debug)]
pub struct PeerCache {
    peers: Vec<StoredPeer>,
}

fn find_peer(peers: &Vec<StoredPeer>, id: &str) -> (res: Option<usize>)
    requires
        distinct_ids(peers@),
    ensures
        match res {
            Some(i) => i < peers@.len() && peers@[i as int].peer_id@ == id@ && peer_index(peers@, id@) == Some(i as int),
            None => peer_index(peers@, id@) is None,
        },
{
    let mut i: usize = 0;
    while i < peers.len()
        invariant
            i <= peers@.len(),
            distinct_ids(peers@),
            forall|j: int| 0 <= j < i ==> #[trigger] peers@[j].peer_id@ != id@,
        decreases peers@.len() - i,
    {
        if str_eq(peers[i].peer_id.as_str(), id) {
            proof {
                let k = choose|k: int| 0 <= k < peers@.len() && #[trigger] peers@[k].peer_id@ == id@;
                if k < i {
                } else if k > i {
                    assert(peers@[i as int].peer_id@ != peers@[k].peer_id@);
                }
            }
            return Some(i);
        }
        i = i + 1;
    }
    None
}

impl PeerCache {
    /// The cached peers, in no particular order.
    pub closed spec fn peers_view(&self) -> Seq<StoredPeer> {
        self.peers@
    }

    /// No two entries share a peer id.
    pub closed spec fn wf(&self) -> bool {
        distinct_ids(self.peers@)
    }

    pub fn new() -> (res: PeerCache)
        ensures
            res.wf(),
            res.peers_view().len() == 0,
    {
        PeerCache { peers: Vec::new() }
    }

    /// A cache holding `peers`; a later entry replaces an earlier one with
    /// the same id (see `insert_all`).
    pub fn from_peers(peers: Vec<StoredPeer>) -> (res: PeerCache)
        ensures
            res.wf(),
            res.peers_view() == insert_all(Seq::empty(), peers@),
    {
        let ghost all = peers@;
        let mut cache = PeerCache::new();
        let mut peers = peers;
        proof {
            assert(cache.peers_view() =~= Seq::<StoredPeer>::empty());
        }
        while peers.len() > 0
            invariant
                cache.wf(),
                insert_all(cache.peers_view(), peers@) == insert_all(Seq::empty(), all),
            decreases peers@.len(),
        {
            let ghost before = peers@;
            let p = peers.remove(0);
            proof {
                assert(peers@ =~= before.drop_first());
            }
            cache.insert(p);
        }
        cache
    }

    /// Puts `peer` under its id, replacing any entry with that id.
    fn insert(&mut self, peer: StoredPeer)
        requires
            old(self).wf(),
        ensures
            final(self).wf(),
            match peer_index(old(self).peers_view(), peer.peer_id@) {
                Some(i) => final(self).peers_view() == old(self).peers_view().update(i, peer),
                None => final(self).peers_view() == old(self).peers_view().push(peer),
            },
    {
        match find_peer(&self.peers, peer.peer_id.as_str()) {
            Some(i) => {
                let ghost id = peer.peer_id@;
                self.peers.set(i, peer);
                proof {
                    assert forall|a: int, b: int| 0 <= a < b < self.peers@.len() implies self.peers@[a].peer_id@
                        != self.peers@[b].peer_id@ by {
                        if a != i && b != i {
                            assert(old(self).peers@[a].peer_id@ != old(self).peers@[b].peer_id@);
                        } else if a == i {
                            assert(old(self).peers@[i as int].peer_id@ != old(self).peers@[b].peer_id@);
                        } else {
                            assert(old(self).peers@[a].peer_id@ != old(self).peers@[i as int].peer_id@);
                        }
                    }
                }
            },
            None => {
                self.peers.push(peer);
                proof {
                    assert forall|a: int, b: int| 0 <= a < b < self.peers@.len() implies self.peers@[a].peer_id@
                        != self.peers@[b].peer_id@ by {
                        if b == old(self).peers@.len() {
                            assert(old(self).peers@[a] == self.peers@[a]);
                        }
                    }
                }
            },
        }
    }

    /// Records `peer`; when it carries no batch limit, it keeps the limit of
    /// the entry it replaces.
    pub fn upsert_peer(&mut self, peer: StoredPeer)
        requires
            old(self).wf(),
        ensures
            final(self).wf(),
            match peer_index(old(self).peers_view(), peer.peer_id@) {
                Some(i) => final(self).peers_view() == old(self).peers_view().update(i, StoredPeer {
                    aimd_batch_limit: if peer.aimd_batch_limit is None {
                        old(self).peers_view()[i].aimd_batch_limit
                    } else {
                        peer.aimd_batch_limit
                    },
                    ..peer
                }),
                None => final(self).peers_view() == old(self).peers_view().push(peer),
            },
    {
        let mut peer = peer;
        if let Some(i) = find_peer(&self.peers, peer.peer_id.as_str()) {
            if peer.aimd_batch_limit.is_none() {
                peer.aimd_batch_limit = self.peers[i].aimd_batch_limit;
            }
        }
        self.insert(peer);
    }

    /// Sets the batch limit of each listed peer that is cached, in order.
    pub fn update_peer_batch_limits(&mut self, limits: &Vec<(String, u64)>)
        requires
            old(self).wf(),
        ensures
            final(self).wf(),
            final(self).peers_view().len() == old(self).peers_view().len(),
            forall|i: int| 0 <= i < old(self).peers_view().len() ==> {
                let o = #[trigger] old(self).peers_view()[i];
                let n = final(self).peers_view()[i];
                &&& n.peer_id == o.peer_id
                &&& n.tcp_addr == o.tcp_addr
                &&& n.udp_addr == o.udp_addr
                &&& n.last_seen_ms == o.last_seen_ms
                &&& n.aimd_batch_limit == match last_limit_for(limits@, o.peer_id@, limits@.len() as int) {
                    Some(l) => Some(l),
                    None => o.aimd_batch_limit,
                }
            },
    {
        let mut k: usize = 0;
        while k < limits.len()
            invariant
                self.wf(),
                k <= limits@.len(),
                self.peers@.len() == old(self).peers@.len(),
                forall|i: int| 0 <= i < old(self).peers@.len() ==> {
                    let o = #[trigger] old(self).peers@[i];
                    let n = self.peers@[i];
                    &&& n.peer_id == o.peer_id
                    &&& n.tcp_addr == o.tcp_addr
                    &&& n.udp_addr == o.udp_addr
                    &&& n.last_seen_ms == o.last_seen_ms
                    &&& n.aimd_batch_limit == match last_limit_for(limits@, o.peer_id@, k as int) {
                        Some(l) => Some(l),
                        None => o.aimd_batch_limit,
                    }
                },
            decreases limits@.len() - k,
        {
            let (id, limit) = (&limits[k].0, limits[k].1);
            match find_peer(&self.peers, id.as_str()) {
                Some(i) => {
                    let ghost before = self.peers@;
                    let mut p = self.peers.remove(i);
                    p.aimd_batch_limit = Some(limit);
                    self.peers.insert(i, p);
                    proof {
                        assert(self.peers@ =~= before.update(i as int, self.peers@[i as int]));
                        assert forall|a: int, b: int| 0 <= a < b < self.peers@.len() implies self.peers@[a].peer_id@
                            != self.peers@[b].peer_id@ by {
                            assert(before[a].peer_id@ != before[b].peer_id@);
                        }
                        assert forall|j: int| 0 <= j < old(self).peers@.len() && old(self).peers@[j].peer_id@ == id@ implies j == i by {
                            if j != i {
                                assert(before[j].peer_id@ != before[i as int].peer_id@);
                            }
                        }
                    }
                },
                None => {
                    proof {
                        assert forall|j: int| 0 <= j < old(self).peers@.len() implies #[trigger] old(self).peers@[j].peer_id@ != id@ by {
                            if old(self).peers@[j].peer_id@ == id@ {
                                assert(self.peers@[j].peer_id@ == id@);
                            }
                        }
                    }
                },
            }
            k = k + 1;
        }
    }
}

/// The limit the last entry for `id` among the first `k` of `limits` sets,
/// if any.
pub open spec fn last_limit_for(limits: Seq<(String, u64)>, id: Seq<char>, k: int) -> Option<u64>
    decreases k,
{
    if k <= 0 {
        None
    } else if limits[k - 1].0@ == id {
        Some(limits[k - 1].1)
    } else {
        last_limit_for(limits, id, k - 1)
    }
}


/// A copy of a peer.
pub fn copy_peer(p: &StoredPeer) -> (res: StoredPeer)
    ensures
        res == *p,
{
    let udp = match &p.udp_addr {
        Some(u) => Some(u.clone()),
        None => None,
    };
    StoredPeer {
        peer_id: p.peer_id.clone(),
        tcp_addr: p.tcp_addr.clone(),
        udp_addr: udp,
        last_seen_ms: p.last_seen_ms,
        aimd_batch_limit: p.aimd_batch_limit,
    }
}

/// Whether peers are in order of last sighting, newest first.
pub open spec fn newest_first(s: Seq<StoredPeer>) -> bool {
    forall|i: int, j: int| 0 <= i <= j < s.len() ==> s[i].last_seen_ms >= s[j].last_seen_ms
}

/// The peers seen at or after `expire_before_ms`, in cache order.
pub open spec fn fresh_peers(s: Seq<StoredPeer>, expire_before_ms: u64) -> Seq<StoredPeer> {
    s.filter(|p: StoredPeer| p.last_seen_ms >= expire_before_ms)
}

/// Sorts peers newest first (stable).
fn sort_newest_first(peers: Vec<StoredPeer>) -> (res: Vec<StoredPeer>)
    ensures
        newest_first(res@),
        res@.to_multiset() == peers@.to_multiset(),
{
    let mut out: Vec<StoredPeer> = Vec::new();
    let mut rest = peers;
    let ghost all = rest@;
    let n0 = rest.len();
    let mut i: usize = 0;
    proof {
        assert(out@ =~= all.take(0));
    }
    while rest.len() > 0
        invariant
            i + rest@.len() == all.len(),
            all.len() == n0,
            rest@ == all.subrange(i as int, all.len() as int),
            newest_first(out@),
            out@.to_multiset() == all.take(i as int).to_multiset(),
        decreases rest@.len(),
    {
        let x = rest.remove(0);
        proof {
            assert(x == all[i as int]);
            assert(rest@ =~= all.subrange(i + 1, all.len() as int));
        }
        let mut pos: usize = 0;
        while pos < out.len() && out[pos].last_seen_ms >= x.last_seen_ms
            invariant
                pos <= out@.len(),
                forall|k: int| 0 <= k < pos ==> out@[k].last_seen_ms >= x.last_seen_ms,
            decreases out@.len() - pos,
        {
            pos = pos + 1;
        }
        let ghost before = out@;
        let ghost xv = x;
        out.insert(pos, x);
        proof {
            to_multiset_insert(before, pos as int, xv);
            assert(all.take(i + 1) =~= all.take(i as int).push(xv));
            to_multiset_build(all.take(i as int), xv);
            assert forall|a: int, b: int| 0 <= a <= b < out@.len() implies out@[a].last_seen_ms >= out@[b].last_seen_ms by {
                let va = if a < pos { before[a] } else if a == pos { xv } else { before[a - 1] };
                let vb = if b < pos { before[b] } else if b == pos { xv } else { before[b - 1] };
                assert(out@[a] == va);
                assert(out@[b] == vb);
                if a < pos && b > pos {
                    assert(before[a].last_seen_ms >= xv.last_seen_ms);
                }
                if a == pos && b > pos {
                    assert(before[pos as int].last_seen_ms < xv.last_seen_ms);
                    assert(before[pos as int].last_seen_ms >= before[b - 1].last_seen_ms);
                }
            }
        }
        i = i + 1;
    }
    proof {
        assert(all.take(all.len() as int) =~= all);
    }
    out
}

impl PeerCache {
    /// All cached peers.
    pub fn snapshot(&self) -> (res: Vec<StoredPeer>)
        ensures
            res@ == self.peers_view(),
    {
        let mut out: Vec<StoredPeer> = Vec::new();
        let mut i: usize = 0;
        while i < self.peers.len()
            invariant
                i <= self.peers@.len(),
                out@ == self.peers@.take(i as int),
            decreases self.peers@.len() - i,
        {
            out.push(copy_peer(&self.peers[i]));
            proof {
                assert(self.peers@.take(i + 1) =~= self.peers@.take(i as int).push(self.peers@[i as int]));
            }
            i = i + 1;
        }
        proof {
            assert(self.peers@.take(self.peers@.len() as int) =~= self.peers@);
        }
        out
    }

    /// Loads the cache for a run: drops the peers last seen before
    /// `expire_before_ms`, orders the rest newest first, keeps at most
    /// `max_peers` of them, and makes those the whole cache. Reports how
    /// many peers there were, how many expired and how many the cap cut.
    pub fn load_peers(&mut self, expire_before_ms: u64, max_peers: usize) -> (res: PeerCacheLoad)
        requires
            old(self).wf(),
        ensures
            final(self).wf(),
            forall|i: int| 0 <= i < final(self).peers_view().len() ==> res.peers@.contains(#[trigger] final(self).peers_view()[i]),
            forall|k: int| 0 <= k < res.peers@.len() ==> #[trigger] peer_index(final(self).peers_view(), res.peers@[k].peer_id@) is Some,
            res.total == old(self).peers_view().len(),
            res.expired == old(self).peers_view().len() - fresh_peers(old(self).peers_view(), expire_before_ms).len(),
            res.corrupted == 0,
            ({
                let fresh = fresh_peers(old(self).peers_view(), expire_before_ms);
                &&& res.capped == if fresh.len() > max_peers { fresh.len() - max_peers } else { 0 }
                &&& exists|s: Seq<StoredPeer>| #![trigger s.to_multiset()]
                    newest_first(s) && s.to_multiset() == fresh.to_multiset()
                    && res.peers@ == if s.len() > max_peers { s.take(max_peers as int) } else { s }
            }),
    {
        let total = self.peers.len();
        let mut kept: Vec<StoredPeer> = Vec::new();
        let mut expired: usize = 0;
        let mut i: usize = 0;
        while i < self.peers.len()
            invariant
                i <= self.peers@.len(),
                total == self.peers@.len(),
                kept@ == fresh_peers(self.peers@.take(i as int), expire_before_ms),
                expired == i - kept@.len(),
                kept@.len() <= i,
            decreases self.peers@.len() - i,
        {
            proof {
                assert(self.peers@.take(i + 1).drop_last() =~= self.peers@.take(i as int));
            }
            if self.peers[i].last_seen_ms < expire_before_ms {
                expired = expired + 1;
                proof {
                    assert(fresh_peers(self.peers@.take(i + 1), expire_before_ms) =~= fresh_peers(self.peers@.take(i as int),
                        expire_before_ms)) by {
                        reveal(Seq::filter);
                    }
                }
            } else {
                kept.push(copy_peer(&self.peers[i]));
                proof {
                    assert(fresh_peers(self.peers@.take(i + 1), expire_before_ms) =~= fresh_peers(self.peers@.take(i as int),
                        expire_before_ms).push(self.peers@[i as int])) by {
                        reveal(Seq::filter);
                    }
                }
            }
            i = i + 1;
        }
        proof {
            assert(self.peers@.take(self.peers@.len() as int) =~= self.peers@);
        }
        let ghost fresh = kept@;
        let mut sorted = sort_newest_first(kept);
        let mut capped: usize = 0;
        let ghost s = sorted@;
        if sorted.len() > max_peers {
            capped = sorted.len() - max_peers;
            sorted.truncate(max_peers);
        }
        proof {
            vstd::seq_lib::to_multiset_len(s);
            vstd::seq_lib::to_multiset_len(fresh);
        }
        let mut cache = PeerCache::new();
        let mut j: usize = 0;
        while j < sorted.len()
            invariant
                j <= sorted@.len(),
                cache.wf(),
                forall|q: int| 0 <= q < cache.peers@.len() ==> sorted@.take(j as int).contains(#[trigger] cache.peers@[q]),
                forall|k: int| 0 <= k < j ==> #[trigger] peer_index(cache.peers@, sorted@[k].peer_id@) is Some,
            decreases sorted@.len() - j,
        {
            let ghost before = cache.peers@;
            let p = copy_peer(&sorted[j]);
            cache.insert(p);
            proof {
                let sj = sorted@[j as int];
                assert(sorted@.take(j + 1) =~= sorted@.take(j as int).push(sj));
                assert forall|q: int| 0 <= q < cache.peers@.len() implies sorted@.take(j + 1).contains(#[trigger] cache.peers@[q]) by {
                    if cache.peers@[q] == sj {
                        assert(sorted@.take(j + 1)[j as int] == sj);
                    } else {
                        assert(before.contains(cache.peers@[q])) by {
                            match peer_index(before, sj.peer_id@) {
                                Some(i0) => {
                                    assert(cache.peers@[q] == before[q]);
                                },
                                None => {
                                    assert(cache.peers@[q] == before[q]);
                                },
                            }
                        }
                        let w = choose|w: int| 0 <= w < before.len() && before[w] == cache.peers@[q];
                        assert(sorted@.take(j as int).contains(before[w]));
                        let v = choose|v: int| 0 <= v < j && sorted@.take(j as int)[v] == before[w];
                        assert(sorted@.take(j + 1)[v] == before[w]);
                    }
                }
                assert forall|k: int| 0 <= k < j + 1 implies #[trigger] peer_index(cache.peers@, sorted@[k].peer_id@) is Some by {
                    let id = sorted@[k].peer_id@;
                    if k == j {
                        match peer_index(before, id) {
                            Some(i0) => {
                                assert(cache.peers@[i0].peer_id@ == id);
                            },
                            None => {
                                assert(cache.peers@[before.len() as int].peer_id@ == id);
                            },
                        }
                    } else {
                        let i0 = peer_index(before, id)->0;
                        assert(before[i0].peer_id@ == id);
                        match peer_index(before, sj.peer_id@) {
                            Some(i1) => {
                                if i1 == i0 {
                                    assert(cache.peers@[i0].peer_id@ == sj.peer_id@);
                                } else {
                                    assert(cache.peers@[i0] == before[i0]);
                                }
                                assert(cache.peers@[i0].peer_id@ == id);
                            },
                            None => {
                                assert(cache.peers@[i0] == before[i0]);
                            },
                        }
                    }
                }
            }
            j = j + 1;
        }
        proof {
            assert(sorted@.take(sorted@.len() as int) =~= sorted@);
        }
        self.peers = cache.peers;
        PeerCacheLoad { peers: sorted, total, expired, corrupted: 0, capped }
    }
}


/// Peers seen during a session, merged by id, until the buffer is closed.
#[derive(Debug)]
pub struct PeerCacheBuffer {
    closed: bool,
    cache: PeerCache,
}

impl PeerCacheBuffer {
    pub closed spec fn is_closed(&self) -> bool {
        self.closed
    }

    pub closed spec fn peers_view(&self) -> Seq<StoredPeer> {
        self.cache.peers_view()
    }

    pub closed spec fn wf(&self) -> bool {
        self.cache.wf()
    }

    pub fn new() -> (res: PeerCacheBuffer)
        ensures
            res.wf(),
            !res.is_closed(),
            res.peers_view().len() == 0,
    {
        PeerCacheBuffer { closed: false, cache: PeerCache::new() }
    }

    /// Records a sighting: ignored once closed; merged into the entry with
    /// the same id (latest sighting kept, new TCP address, new UDP address
    /// when given); added otherwise.
    pub fn upsert(&mut self, peer: StoredPeer)
        requires
            old(self).wf(),
        ensures
            final(self).wf(),
            final(self).is_closed() == old(self).is_closed(),
            old(self).is_closed() ==> final(self).peers_view() == old(self).peers_view(),
            !old(self).is_closed() ==> match peer_index(old(self).peers_view(), peer.peer_id@) {
                Some(i) => {
                    let e = old(self).peers_view()[i];
                    final(self).peers_view() == old(self).peers_view().update(i, StoredPeer {
                        last_seen_ms: if e.last_seen_ms >= peer.last_seen_ms { e.last_seen_ms } else { peer.last_seen_ms },
                        tcp_addr: peer.tcp_addr,
                        udp_addr: if peer.udp_addr is Some { peer.udp_addr } else { e.udp_addr },
                        ..e
                    })
                },
                None => final(self).peers_view() == old(self).peers_view().push(peer),
            },
    {
        if self.closed {
            return;
        }
        match find_peer(&self.cache.peers, peer.peer_id.as_str()) {
            Some(i) => {
                let mut e = copy_peer(&self.cache.peers[i]);
                e.last_seen_ms = if e.last_seen_ms >= peer.last_seen_ms { e.last_seen_ms } else { peer.last_seen_ms };
                let has_udp = peer.udp_addr.is_some();
                let StoredPeer { tcp_addr, udp_addr, .. } = peer;
                e.tcp_addr = tcp_addr;
                if has_udp {
                    e.udp_addr = udp_addr;
                }
                self.cache.insert(e);
            },
            None => {
                self.cache.insert(peer);
            },
        }
    }

    /// Closes the buffer and hands out every peer it holds.
    pub fn close_and_drain(&mut self) -> (res: Vec<StoredPeer>)
        requires
            old(self).wf(),
        ensures
            final(self).wf(),
            final(self).is_closed(),
            res@ == old(self).peers_view(),
            final(self).peers_view().len() == 0,
    {
        self.closed = true;
        let mut out = PeerCache::new();
        std::mem::swap(&mut out, &mut self.cache);
        out.peers
    }
}

} // verus!
