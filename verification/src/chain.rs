//! Canonical chain tracking: the head, the canonical hash of each block
//! number, and reorg detection when a header does not extend the head.

use vstd::prelude::*;

verus! {

/// Basic head tracker abstraction.
pub trait HeadTracker: Send + Sync {
    /// Returns the latest observed head block number, if any.
    fn head(&self) -> Option<u64>;
}

/// In-memory head tracker.
#[derive(Debug, Clone)]
pub struct MemoryHeadTracker {
    head: Option<u64>,
}

impl MemoryHeadTracker {
    /// The head the tracker holds.
    pub closed spec fn head_view(&self) -> Option<u64> {
        self.head
    }

    pub fn new(head: Option<u64>) -> (res: Self)
        ensures
            res.head_view() == head,
    {
        MemoryHeadTracker { head }
    }

    pub fn set_head(&mut self, head: u64)
        ensures
            final(self).head_view() == Some(head),
    {
        self.head = Some(head);
    }
}

impl Default for MemoryHeadTracker {
    fn default() -> (res: Self)
        ensures
            res.head_view() is None,
    {
        MemoryHeadTracker { head: None }
    }
}

impl HeadTracker for MemoryHeadTracker {
    fn head(&self) -> (res: Option<u64>)
        ensures
            res == self.head_view(),
    {
        self.head
    }
}

/// A 32-byte hash, as two big-endian halves: `hi` holds bytes 0..16 and
/// `lo` bytes 16..32.
#[derive(Debug, Clone, Copy, PartialEq, Eq, Structural)]
pub struct Hash256 {
    pub hi: u128,
    pub lo: u128,
}

/// Minimal header representation for canonical tracking.
#[derive(Debug, Clone, Copy, PartialEq, Eq, Structural)]
pub struct HeaderStub {
    pub number: u64,
    pub hash: Hash256,
    pub parent_hash: Hash256,
}

/// Chain update result after inserting a header.
#[derive(Debug, Clone, PartialEq, Eq)]
pub enum ChainUpdate {
    Initialized { head: HeaderStub },
    Extended { new_head: HeaderStub },
    Reorg { ancestor_number: u64, removed_numbers: Vec<u64>, new_head: HeaderStub },
}

/// Errors for header insertion.
#[derive(Debug, Clone, Copy, PartialEq, Eq, Structural)]
pub enum ChainError {
    UnknownParent(Hash256),
    NonContiguousNumber { expected: u64, got: u64 },
}

/// A map keyed by hash, kept as a list of entries with distinct keys.
#[derive(Debug)]
pub struct HashIndex<V> {
    entries: Vec<(Hash256, V)>,
}

/// Whether some entry has key `k`.
pub open spec fn has_key<V>(entries: Seq<(Hash256, V)>, k: Hash256) -> bool {
    exists|i: int| 0 <= i < entries.len() && #[trigger] entries[i].0 == k
}

impl<V> View for HashIndex<V> {
    type V = Map<Hash256, V>;

    closed spec fn view(&self) -> Map<Hash256, V> {
        Map::new(
            |k: Hash256| has_key(self.entries@, k),
            |k: Hash256| self.entries@[choose|i: int| 0 <= i < self.entries@.len() && #[trigger] self.entries@[i].0 == k].1,
        )
    }
}

impl<V: Copy> HashIndex<V> {
    /// The keys of the entries are distinct.
    pub closed spec fn wf(&self) -> bool {
        forall|i: int, j: int| 0 <= i < j < self.entries@.len() ==> self.entries@[i].0 != self.entries@[j].0
    }

    proof fn lemma_entry(&self, i: int)
        requires
            self.wf(),
            0 <= i < self.entries@.len(),
        ensures
            self@.contains_key(self.entries@[i].0),
            self@[self.entries@[i].0] == self.entries@[i].1,
    {
        let k = self.entries@[i].0;
        assert(has_key(self.entries@, k));
        let j = choose|j: int| 0 <= j < self.entries@.len() && #[trigger] self.entries@[j].0 == k;
        if j != i {
            if j < i {
            } else {
            }
        }
    }

    /// An empty map.
    pub fn new() -> (res: Self)
        ensures
            res.wf(),
            res@ == Map::<Hash256, V>::empty(),
    {
        let res = HashIndex { entries: Vec::new() };
        assert(res@ =~= Map::<Hash256, V>::empty());
        res
    }

    fn position(&self, k: Hash256) -> (res: Option<usize>)
        requires
            self.wf(),
        ensures
            match res {
                Some(i) => i < self.entries@.len() && self.entries@[i as int].0 == k,
                None => !has_key(self.entries@, k),
            },
    {
        let mut i: usize = 0;
        while i < self.entries.len()
            invariant
                i <= self.entries@.len(),
                forall|j: int| 0 <= j < i ==> #[trigger] self.entries@[j].0 != k,
            decreases self.entries@.len() - i,
        {
            if self.entries[i].0 == k {
                return Some(i);
            }
            i = i + 1;
        }
        None
    }

    /// The value under `k`, if any.
    pub fn get(&self, k: Hash256) -> (res: Option<V>)
        requires
            self.wf(),
        ensures
            res == if self@.contains_key(k) { Some(self@[k]) } else { None::<V> },
    {
        match self.position(k) {
            Some(i) => {
                proof {
                    self.lemma_entry(i as int);
                }
                Some(self.entries[i].1)
            },
            None => None,
        }
    }

    /// Puts `v` under `k`, replacing any earlier value.
    pub fn insert(&mut self, k: Hash256, v: V)
        requires
            old(self).wf(),
        ensures
            final(self).wf(),
            final(self)@ == old(self)@.insert(k, v),
    {
        let ghost before = *self;
        match self.position(k) {
            Some(i) => {
                self.entries.set(i, (k, v));
                proof {
                    assert forall|a: int, b: int| 0 <= a < b < self.entries@.len() implies self.entries@[a].0
                        != self.entries@[b].0 by {
                        assert(before.entries@[a].0 != before.entries@[b].0);
                    }
                    self.lemma_entry(i as int);
                    assert forall|key: Hash256| #[trigger] self@.contains_key(key) == before@.insert(k, v).contains_key(key) by {
                        if has_key(before.entries@, key) {
                            let j = choose|j: int| 0 <= j < before.entries@.len() && #[trigger] before.entries@[j].0 == key;
                            assert(self.entries@[j].0 == key);
                        }
                        if has_key(self.entries@, key) {
                            let j = choose|j: int| 0 <= j < self.entries@.len() && #[trigger] self.entries@[j].0 == key;
                            if j != i {
                                assert(before.entries@[j].0 == key);
                            }
                        }
                    }
                    assert forall|key: Hash256| #[trigger] self@.contains_key(key) implies self@[key] == before@.insert(k, v)[key] by {
                        if key != k {
                            let j = choose|j: int| 0 <= j < self.entries@.len() && #[trigger] self.entries@[j].0 == key;
                            self.lemma_entry(j);
                            before.lemma_entry(j);
                        }
                    }
                    assert(self@ =~= before@.insert(k, v));
                }
            },
            None => {
                self.entries.push((k, v));
                proof {
                    let n = before.entries@.len();
                    self.lemma_entry(n as int);
                    assert forall|key: Hash256| #[trigger] self@.contains_key(key) == before@.insert(k, v).contains_key(key) by {
                        if has_key(before.entries@, key) {
                            let j = choose|j: int| 0 <= j < before.entries@.len() && #[trigger] before.entries@[j].0 == key;
                            assert(self.entries@[j].0 == key);
                        }
                        if has_key(self.entries@, key) {
                            let j = choose|j: int| 0 <= j < self.entries@.len() && #[trigger] self.entries@[j].0 == key;
                            if j != n {
                                assert(before.entries@[j].0 == key);
                            }
                        }
                    }
                    assert forall|key: Hash256| #[trigger] self@.contains_key(key) implies self@[key] == before@.insert(k, v)[key] by {
                        if key != k {
                            let j = choose|j: int| 0 <= j < self.entries@.len() && #[trigger] self.entries@[j].0 == key;
                            self.lemma_entry(j);
                            before.lemma_entry(j);
                        }
                    }
                    assert(self@ =~= before@.insert(k, v));
                }
            },
        }
    }

    /// Removes the entry under `k`, if any.
    pub fn remove(&mut self, k: Hash256)
        requires
            old(self).wf(),
        ensures
            final(self).wf(),
            final(self)@ == old(self)@.remove(k),
    {
        let ghost before = *self;
        match self.position(k) {
            Some(i) => {
                self.entries.remove(i);
                proof {
                    assert forall|a: int| 0 <= a < self.entries@.len() implies #[trigger] self.entries@[a] == before.entries@[
                        if a < i { a } else { a + 1 }] by {}
                    assert forall|a: int, b: int| 0 <= a < b < self.entries@.len() implies self.entries@[a].0
                        != self.entries@[b].0 by {
                        let a0 = if a < i { a } else { a + 1 };
                        let b0 = if b < i { b } else { b + 1 };
                        assert(self.entries@[a] == before.entries@[a0]);
                        assert(self.entries@[b] == before.entries@[b0]);
                    }
                    assert forall|key: Hash256| #[trigger] self@.contains_key(key) == before@.remove(k).contains_key(key) by {
                        if has_key(before.entries@, key) && key != k {
                            let j = choose|j: int| 0 <= j < before.entries@.len() && #[trigger] before.entries@[j].0 == key;
                            assert(j != i);
                            let j2 = if j < i { j } else { j - 1 };
                            assert(self.entries@[j2] == before.entries@[j]);
                        }
                        if has_key(self.entries@, key) {
                            let j = choose|j: int| 0 <= j < self.entries@.len() && #[trigger] self.entries@[j].0 == key;
                            let j0 = if j < i { j } else { j + 1 };
                            assert(self.entries@[j] == before.entries@[j0]);
                            assert(j0 != i);
                        }
                    }
                    assert forall|key: Hash256| #[trigger] self@.contains_key(key) implies self@[key] == before@.remove(k)[key] by {
                        let j = choose|j: int| 0 <= j < self.entries@.len() && #[trigger] self.entries@[j].0 == key;
                        let j0 = if j < i { j } else { j + 1 };
                        assert(self.entries@[j] == before.entries@[j0]);
                        self.lemma_entry(j);
                        before.lemma_entry(j0);
                    }
                    assert(self@ =~= before@.remove(k));
                }
            },
            None => {
                proof {
                    assert(self@ =~= before@.remove(k));
                }
            },
        }
    }
}


/// The blocks `a + 1..=b`, in increasing order.
pub open spec fn numbers_above(a: u64, b: u64) -> Seq<u64> {
    Seq::new((b - a) as nat, |i: int| (a + 1 + i) as u64)
}

/// The hashes that the canonical chain holds at numbers above `a`.
pub open spec fn hashes_above(canonical: Map<u64, Hash256>, a: u64) -> Set<Hash256> {
    Set::new(|k: Hash256| exists|n: u64| a < n && canonical.contains_key(n) && #[trigger] canonical[n] == k)
}

/// In-memory canonical chain tracker with reorg detection.
#[derive(Debug)]
pub struct ChainTracker {
    headers: HashIndex<HeaderStub>,
    canonical_base: u64,
    canonical: Vec<Hash256>,
    canonical_by_hash: HashIndex<u64>,
    head: Option<HeaderStub>,
}

/// What inserting `header` into `before` gives: `after` and the result `res`
/// (see `ChainTracker::insert_header`).
pub open spec fn insert_outcome(before: ChainTracker, header: HeaderStub, after: ChainTracker, res: Result<ChainUpdate, ChainError>) -> bool {
    &&& after.wf()
    &&& after.headers_view() == before.headers_view().insert(header.hash, header)
    &&& res is Err ==> after.canonical_view() == before.canonical_view()
        && after.by_hash_view() == before.by_hash_view()
        && after.head_view() == before.head_view()
    &&& res is Ok ==> after.head_view() == Some(header)
    &&& match before.head_view() {
        None => {
            &&& res == Ok::<ChainUpdate, ChainError>(ChainUpdate::Initialized { head: header })
            &&& after.canonical_view() == Map::<u64, Hash256>::empty().insert(header.number, header.hash)
            &&& after.by_hash_view() == before.by_hash_view().insert(header.hash, header.number)
        },
        Some(h) => if header.parent_hash == h.hash {
            if header.number != h.number + 1 {
                res == Err::<ChainUpdate, ChainError>(ChainError::NonContiguousNumber { expected: (h.number + 1) as u64, got: header.number })
            } else {
                &&& res == Ok::<ChainUpdate, ChainError>(ChainUpdate::Extended { new_head: header })
                &&& after.canonical_view() == before.canonical_view().insert(header.number, header.hash)
                &&& after.by_hash_view() == before.by_hash_view().insert(header.hash, header.number)
            }
        } else if !before.by_hash_view().contains_key(header.parent_hash) {
            res == Err::<ChainUpdate, ChainError>(ChainError::UnknownParent(header.parent_hash))
        } else {
            let a = before.by_hash_view()[header.parent_hash];
            if header.number != a + 1 {
                res == Err::<ChainUpdate, ChainError>(ChainError::NonContiguousNumber { expected: (a + 1) as u64, got: header.number })
            } else {
                &&& res matches Ok(ChainUpdate::Reorg { ancestor_number, removed_numbers, new_head })
                &&& ancestor_number == a
                &&& removed_numbers@ == numbers_above(a, h.number)
                &&& new_head == header
                &&& after.canonical_view() == before.canonical_view().restrict(
                    Set::new(|n: u64| n <= a)).insert(header.number, header.hash)
                &&& after.by_hash_view() == before.by_hash_view().remove_keys(
                    hashes_above(before.canonical_view(), a)).insert(header.hash, header.number)
            }
        }
    }
}

/// Inserting a header that is accepted makes it the head and puts its hash
/// at its number in the canonical chain, keeps every canonical block below
/// it and drops every canonical block above it; a header that is refused
/// leaves the head and the canonical chain as they were.
pub proof fn lemma_insert_header_laws(before: ChainTracker, header: HeaderStub, after: ChainTracker, res: Result<ChainUpdate, ChainError>)
    requires
        before.wf(),
        insert_outcome(before, header, after, res),
    ensures
        res is Ok ==> {
            &&& after.head_view() == Some(header)
            &&& after.canonical_view().contains_key(header.number)
            &&& after.canonical_view()[header.number] == header.hash
            &&& forall|n: u64| n < header.number && #[trigger] before.canonical_view().contains_key(n)
                ==> after.canonical_view().contains_key(n) && after.canonical_view()[n] == before.canonical_view()[n]
            &&& forall|n: u64| n > header.number ==> !#[trigger] after.canonical_view().contains_key(n)
        },
        res is Err ==> after.head_view() == before.head_view() && after.canonical_view() == before.canonical_view(),
{
    before.lemma_wf_shape();
    if res is Ok {
        match before.head_view() {
            None => {},
            Some(h) => {
                if header.parent_hash != h.hash {
                    let a = before.by_hash_view()[header.parent_hash];
                    assert(before.canonical_view().contains_key(a));
                }
            },
        }
    }
}

/// Every canonical hash is recorded in the hash index at its number.
pub open spec fn index_complete(t: ChainTracker) -> bool {
    forall|n: u64| #[trigger] t.canonical_view().contains_key(n) ==> t.by_hash_view().contains_key(t.canonical_view()[n])
        && t.by_hash_view()[t.canonical_view()[n]] == n
}

/// Whether `hash` is held by the canonical chain at some number.
pub open spec fn canonical_holds(t: ChainTracker, hash: Hash256) -> bool {
    exists|k: u64| #[trigger] t.canonical_view().contains_key(k) && t.canonical_view()[k] == hash
}

/// An empty tracker records every canonical hash (there is none).
pub proof fn lemma_new_index_complete(t: ChainTracker)
    requires
        t.canonical_view() == Map::<u64, Hash256>::empty(),
    ensures
        index_complete(t),
{
}

/// Inserting a header whose hash the canonical chain does not already hold
/// keeps every canonical hash recorded in the index; so does every refused
/// insertion. Starting from a new tracker, a chain of headers with distinct
/// hashes keeps the index complete throughout.
pub proof fn lemma_insert_keeps_index_complete(before: ChainTracker, header: HeaderStub, after: ChainTracker, res: Result<ChainUpdate, ChainError>)
    requires
        before.wf(),
        index_complete(before),
        !canonical_holds(before, header.hash),
        insert_outcome(before, header, after, res),
    ensures
        index_complete(after),
{
    before.lemma_wf_shape();
    let bc = before.canonical_view();
    let bi = before.by_hash_view();
    let ac = after.canonical_view();
    let ai = after.by_hash_view();
    if res is Ok {
        assert forall|n: u64| #[trigger] ac.contains_key(n) implies ai.contains_key(ac[n]) && ai[ac[n]] == n by {
            if n == header.number {
            } else {
                assert(bc.contains_key(n));
                let hn = bc[n];
                assert(ac[n] == hn);
                if hn == header.hash {
                    assert(canonical_holds(before, header.hash));
                }
                match before.head_view() {
                    None => {},
                    Some(h) => {
                        if header.parent_hash != h.hash {
                            let a = bi[header.parent_hash];
                            assert(n <= a);
                            if hashes_above(bc, a).contains(hn) {
                                let k = choose|k: u64| a < k && bc.contains_key(k) && #[trigger] bc[k] == hn;
                                assert(bi[bc[k]] == k);
                            }
                        }
                    },
                }
            }
        }
    }
}

/// With every canonical hash recorded in the index, a header whose parent
/// is not the head is judged by the canonical chain itself: refused as of
/// an unknown parent exactly when no canonical block has the parent's
/// hash, and otherwise judged against that block's number `k` (which is
/// the only one holding that hash): a reorganisation onto `k` when the
/// header is numbered `k + 1`, dropping the blocks `k + 1..=` the old
/// head, else a numbering error expecting `k + 1`.
pub proof fn lemma_insert_header_by_canonical(before: ChainTracker, header: HeaderStub, after: ChainTracker, res: Result<ChainUpdate, ChainError>)
    requires
        before.wf(),
        index_complete(before),
        insert_outcome(before, header, after, res),
        before.head_view() matches Some(h) && header.parent_hash != h.hash,
    ensures
        !canonical_holds(before, header.parent_hash) ==> res == Err::<ChainUpdate, ChainError>(ChainError::UnknownParent(header.parent_hash)),
        forall|k: u64| #[trigger] before.canonical_view().contains_key(k) && before.canonical_view()[k] == header.parent_hash ==> {
            &&& forall|j: u64| #[trigger] before.canonical_view().contains_key(j) && before.canonical_view()[j] == header.parent_hash ==> j == k
            &&& header.number == k + 1 ==> (res matches Ok(ChainUpdate::Reorg { ancestor_number, removed_numbers, new_head })
                && ancestor_number == k && new_head == header
                && removed_numbers@ == numbers_above(k, before.head_view()->0.number))
            &&& header.number != k + 1 ==> res == Err::<ChainUpdate, ChainError>(
                ChainError::NonContiguousNumber { expected: (k + 1) as u64, got: header.number })
        },
{
    before.lemma_wf_shape();
    let bc = before.canonical_view();
    let bi = before.by_hash_view();
    if bi.contains_key(header.parent_hash) {
        assert(bc.contains_key(bi[header.parent_hash]));
        assert(canonical_holds(before, header.parent_hash));
    }
    assert forall|k: u64| #[trigger] bc.contains_key(k) && bc[k] == header.parent_hash implies bi.contains_key(header.parent_hash)
        && bi[header.parent_hash] == k by {}
}

impl ChainTracker {
    /// Every header seen, by hash.
    pub closed spec fn headers_view(&self) -> Map<Hash256, HeaderStub> {
        self.headers@
    }

    /// The canonical hash of each block number.
    pub closed spec fn canonical_view(&self) -> Map<u64, Hash256> {
        Map::new(
            |n: u64| self.canonical_base <= n < self.canonical_base + self.canonical@.len(),
            |n: u64| self.canonical@[n - self.canonical_base],
        )
    }

    /// The block number of canonical hashes, as last recorded.
    pub closed spec fn by_hash_view(&self) -> Map<Hash256, u64> {
        self.canonical_by_hash@
    }

    /// The current head.
    pub closed spec fn head_view(&self) -> Option<HeaderStub> {
        self.head
    }

    /// The canonical chain runs without gaps from its first block to the
    /// head, whose hash it holds; the hash index points only at canonical
    /// blocks holding that hash.
    pub closed spec fn wf(&self) -> bool {
        &&& self.headers.wf()
        &&& self.canonical_by_hash.wf()
        &&& (self.head is None <==> self.canonical@.len() == 0)
        &&& self.head matches Some(h) ==> {
            &&& h.number == self.canonical_base + self.canonical@.len() - 1
            &&& self.canonical@[self.canonical@.len() - 1] == h.hash
        }
        &&& forall|k: Hash256| #[trigger] self.canonical_by_hash@.contains_key(k) ==> {
            let n = self.canonical_by_hash@[k];
            &&& self.canonical_base <= n < self.canonical_base + self.canonical@.len()
            &&& self.canonical@[n - self.canonical_base] == k
        }
    }

    /// What the tracker promises of itself: the canonical numbers are those
    /// from some first block to the head, the head's hash is canonical at
    /// its number, and the hash index maps a hash only to a canonical number
    /// holding it.
    pub proof fn lemma_wf_shape(&self)
        requires
            self.wf(),
        ensures
            self.head_view() is None ==> self.canonical_view().dom().is_empty(),
            self.head_view() matches Some(h) ==> {
                &&& self.canonical_view().contains_key(h.number)
                &&& self.canonical_view()[h.number] == h.hash
                &&& forall|n: u64| #[trigger] self.canonical_view().contains_key(n) ==> n <= h.number
            },
            forall|m: u64, n: u64, k: u64|
                #![trigger self.canonical_view().contains_key(m), self.canonical_view().contains_key(n), self.canonical_view().contains_key(k)]
                self.canonical_view().contains_key(m) && self.canonical_view().contains_key(n) && m <= k <= n
                ==> self.canonical_view().contains_key(k),
            forall|k: Hash256| #[trigger] self.by_hash_view().contains_key(k) ==> {
                &&& self.canonical_view().contains_key(self.by_hash_view()[k])
                &&& self.canonical_view()[self.by_hash_view()[k]] == k
            },
    {
        if self.head is None {
            assert(self.canonical_view().dom() =~= Set::<u64>::empty());
        }
    }

    pub fn new() -> (res: Self)
        ensures
            res.wf(),
            res.head_view() is None,
            res.canonical_view() == Map::<u64, Hash256>::empty(),
            res.by_hash_view() == Map::<Hash256, u64>::empty(),
            res.headers_view() == Map::<Hash256, HeaderStub>::empty(),
    {
        let res = ChainTracker {
            headers: HashIndex::new(),
            canonical_base: 0,
            canonical: Vec::new(),
            canonical_by_hash: HashIndex::new(),
            head: None,
        };
        assert(res.canonical_view() =~= Map::<u64, Hash256>::empty());
        res
    }

    pub fn head(&self) -> (res: Option<HeaderStub>)
        ensures
            res == self.head_view(),
    {
        self.head
    }

    /// The canonical hash at `number`, if any.
    pub fn canonical_hash(&self, number: u64) -> (res: Option<Hash256>)
        requires
            self.wf(),
        ensures
            res == if self.canonical_view().contains_key(number) { Some(self.canonical_view()[number]) } else { None::<Hash256> },
    {
        if number >= self.canonical_base && number - self.canonical_base < self.canonical.len() as u64 {
            Some(self.canonical[(number - self.canonical_base) as usize])
        } else {
            None
        }
    }

    /// Records `header` and updates the canonical chain:
    /// - with no head yet, the header becomes the head (`Initialized`);
    /// - when it names the head as parent, it must be numbered one past it
    ///   and extends the chain (`Extended`);
    /// - otherwise its parent must be a canonical block, it must be
    ///   numbered one past it, and every canonical block above the parent
    ///   is dropped before the header becomes the head (`Reorg`).
    /// The header is recorded whatever the outcome; on an error nothing
    /// else changes.
    pub fn insert_header(&mut self, header: HeaderStub) -> (res: Result<ChainUpdate, ChainError>)
        requires
            old(self).wf(),
            old(self).head_view() matches Some(h) ==> (h.number == u64::MAX ==> header.parent_hash != h.hash),
        ensures
            final(self).wf(),
            insert_outcome(*old(self), header, *final(self), res),
    {
        self.headers.insert(header.hash, header);
        match self.head {
            None => {
                let ghost before = *self;
                self.canonical_base = header.number;
                self.canonical.push(header.hash);
                self.canonical_by_hash.insert(header.hash, header.number);
                self.head = Some(header);
                proof {
                    assert(self.canonical_view() =~= Map::<u64, Hash256>::empty().insert(header.number, header.hash));
                }
                return Ok(ChainUpdate::Initialized { head: header });
            },
            Some(current_head) => {
                if header.parent_hash == current_head.hash {
                    let expected = current_head.number + 1;
                    if header.number != expected {
                        return Err(ChainError::NonContiguousNumber { expected, got: header.number });
                    }
                    let ghost before = *self;
                    self.canonical.push(header.hash);
                    self.canonical_by_hash.insert(header.hash, header.number);
                    self.head = Some(header);
                    proof {
                        assert(self.canonical_view() =~= before.canonical_view().insert(header.number, header.hash));
                        assert forall|k: Hash256| #[trigger] self.canonical_by_hash@.contains_key(k) implies {
                            let n = self.canonical_by_hash@[k];
                            &&& self.canonical_base <= n < self.canonical_base + self.canonical@.len()
                            &&& self.canonical@[n - self.canonical_base] == k
                        } by {
                            if k != header.hash {
                                assert(before.canonical_by_hash@.contains_key(k));
                            }
                        }
                    }
                    return Ok(ChainUpdate::Extended { new_head: header });
                }
            },
        }
        let ancestor_number = match self.canonical_by_hash.get(header.parent_hash) {
            Some(number) => number,
            None => {
                return Err(ChainError::UnknownParent(header.parent_hash));
            },
        };
        let head_number = match self.head {
            Some(h) => h.number,
            None => 0,
        };
        proof {
            assert(self.canonical_by_hash@.contains_key(header.parent_hash));
        }
        let expected = ancestor_number + 1;
        if header.number != expected {
            return Err(ChainError::NonContiguousNumber { expected, got: header.number });
        }
        let ghost before = *self;
        let base = self.canonical_base;
        assert(ancestor_number - base < self.canonical@.len());
        let keep = (ancestor_number - base + 1) as usize;
        let len = self.canonical.len();
        let mut removed_numbers: Vec<u64> = Vec::new();
        let mut i: usize = keep;
        while i < len
            invariant
                self.wf(),
                self.canonical_base == base,
                self.canonical@ == before.canonical@,
                len == before.canonical@.len(),
                self.head == before.head,
                before.wf(),
                head_number == base + len - 1,
                base <= ancestor_number < head_number,
                keep == ancestor_number - base + 1,
                keep <= i <= len,
                removed_numbers@ == numbers_above(ancestor_number, (base + i - 1) as u64),
                self.canonical_by_hash@ == before.canonical_by_hash@.remove_keys(Set::new(|k: Hash256| exists|m: u64|
                    ancestor_number < m < base + i && before.canonical_view().contains_key(m) && #[trigger] before.canonical_view()[m] == k)),
                self.headers == before.headers,
            decreases len - i,
        {
            let n = base + i as u64;
            let h = self.canonical[i];
            let ghost bh0 = self.canonical_by_hash@;
            self.canonical_by_hash.remove(h);
            removed_numbers.push(n);
            proof {
                assert(removed_numbers@ =~= numbers_above(ancestor_number, n));
                let s_old = Set::new(|k: Hash256| exists|m: u64|
                    ancestor_number < m < n && before.canonical_view().contains_key(m) && #[trigger] before.canonical_view()[m] == k);
                let s_new = Set::new(|k: Hash256| exists|m: u64|
                    ancestor_number < m < n + 1 && before.canonical_view().contains_key(m) && #[trigger] before.canonical_view()[m] == k);
                assert(before.canonical_view().contains_key(n));
                assert(before.canonical_view()[n] == h);
                assert(s_new =~= s_old.insert(h)) by {
                    assert forall|k: Hash256| s_new.contains(k) implies s_old.insert(h).contains(k) by {
                        let m = choose|m: u64| ancestor_number < m < n + 1 && before.canonical_view().contains_key(m)
                            && #[trigger] before.canonical_view()[m] == k;
                        if m < n {
                            assert(s_old.contains(k));
                        }
                    }
                    assert forall|k: Hash256| s_old.insert(h).contains(k) implies s_new.contains(k) by {
                        if k == h {
                            assert(before.canonical_view().contains_key(n));
                        } else {
                            let m = choose|m: u64| ancestor_number < m < n && before.canonical_view().contains_key(m)
                                && #[trigger] before.canonical_view()[m] == k;
                            assert(before.canonical_view().contains_key(m));
                        }
                    }
                }
                assert(self.canonical_by_hash@ =~= before.canonical_by_hash@.remove_keys(s_new));
                assert forall|k: Hash256| #[trigger] self.canonical_by_hash@.contains_key(k) implies {
                    let m = self.canonical_by_hash@[k];
                    &&& self.canonical_base <= m < self.canonical_base + self.canonical@.len()
                    &&& self.canonical@[m - self.canonical_base] == k
                } by {
                    assert(bh0.contains_key(k));
                }
            }
            i = i + 1;
        }
        self.canonical.truncate(keep);
        self.canonical.push(header.hash);
        self.canonical_by_hash.insert(header.hash, header.number);
        self.head = Some(header);
        proof {
            let s_all = Set::new(|k: Hash256| exists|m: u64|
                ancestor_number < m < base + len && before.canonical_view().contains_key(m) && #[trigger] before.canonical_view()[m] == k);
            assert(s_all =~= hashes_above(before.canonical_view(), ancestor_number)) by {
                assert forall|k: Hash256| hashes_above(before.canonical_view(), ancestor_number).contains(k) implies s_all.contains(k) by {
                    let m = choose|m: u64| ancestor_number < m && before.canonical_view().contains_key(m)
                        && #[trigger] before.canonical_view()[m] == k;
                    assert(before.canonical_view().contains_key(m));
                }
                assert forall|k: Hash256| s_all.contains(k) implies hashes_above(before.canonical_view(), ancestor_number).contains(k) by {
                    let m = choose|m: u64| ancestor_number < m < base + len && before.canonical_view().contains_key(m)
                        && #[trigger] before.canonical_view()[m] == k;
                    assert(before.canonical_view().contains_key(m));
                }
            }
            assert(self.canonical_view() =~= before.canonical_view().restrict(Set::new(|m: u64| m <= ancestor_number)).insert(
                header.number, header.hash));
            assert forall|k: Hash256| #[trigger] self.canonical_by_hash@.contains_key(k) implies {
                let m = self.canonical_by_hash@[k];
                &&& self.canonical_base <= m < self.canonical_base + self.canonical@.len()
                &&& self.canonical@[m - self.canonical_base] == k
            } by {
                if k != header.hash {
                    let m = before.canonical_by_hash@[k];
                    assert(before.canonical_by_hash@.contains_key(k));
                    if m > ancestor_number {
                        assert(before.canonical_view().contains_key(m));
                        assert(before.canonical_view()[m] == k);
                        assert(hashes_above(before.canonical_view(), ancestor_number).contains(k));
                    }
                }
            }
        }
        Ok(ChainUpdate::Reorg { ancestor_number, removed_numbers, new_head: header })
    }
}

impl Default for ChainTracker {
    fn default() -> (res: Self)
        ensures
            res.wf(),
            res.head_view() is None,
            res.canonical_view() == Map::<u64, Hash256>::empty(),
    {
        ChainTracker::new()
    }
}

} // verus!
