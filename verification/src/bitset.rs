//! Presence bitset of a storage shard: one bit per block offset.

use vstd::prelude::*;

verus! {

/// The value of bit `k` (0 = least significant) of byte `b`.
pub open spec fn bit_of(b: u8, k: int) -> bool {
    (b >> (k as u8)) & 1u8 == 1u8
}

/// Bit `i` of a little-endian-in-byte bit string: byte `i / 8`, bit `i % 8`.
pub open spec fn bit_in(bytes: Seq<u8>, i: int) -> bool {
    bit_of(bytes[i / 8], i % 8)
}

/// Every bit held by `bytes`, padding included.
pub open spec fn all_bits(bytes: Seq<u8>) -> Seq<bool> {
    Seq::new(bytes.len() * 8, |i: int| bit_in(bytes, i))
}

/// Number of `true` entries of a sequence.
pub open spec fn count_true(s: Seq<bool>) -> nat
    decreases s.len(),
{
    if s.len() == 0 {
        0
    } else {
        count_true(s.drop_last()) + if s.last() { 1nat } else { 0nat }
    }
}

/// Number of bytes needed to hold `size_bits` bits.
pub open spec fn bytes_for_bits(size_bits: nat) -> nat {
    (size_bits + 7) / 8
}

pub proof fn lemma_bit_of_zero(k: int)
    requires
        0 <= k < 8,
    ensures
        !bit_of(0u8, k),
{
    let kk = k as u8;
    assert((0u8 >> kk) & 1u8 == 0u8) by (bit_vector);
}

proof fn lemma_or_bit(b: u8, k: u8, j: u8)
    requires
        k < 8,
        j < 8,
    ensures
        ((b | (1u8 << k)) >> j) & 1u8 == (if j == k { 1u8 } else { (b >> j) & 1u8 }),
{
    assert(((b | (1u8 << k)) >> j) & 1u8 == (if j == k { 1u8 } else { (b >> j) & 1u8 }))
        by (bit_vector)
        requires
            k < 8,
            j < 8,
    ;
}

proof fn lemma_and_not_bit(b: u8, k: u8, j: u8)
    requires
        k < 8,
        j < 8,
    ensures
        ((b & !(1u8 << k)) >> j) & 1u8 == (if j == k { 0u8 } else { (b >> j) & 1u8 }),
{
    assert(((b & !(1u8 << k)) >> j) & 1u8 == (if j == k { 0u8 } else { (b >> j) & 1u8 }))
        by (bit_vector)
        requires
            k < 8,
            j < 8,
    ;
}

proof fn lemma_test_bit(b: u8, k: u8)
    requires
        k < 8,
    ensures
        (b & (1u8 << k) != 0) == ((b >> k) & 1u8 == 1u8),
{
    assert((b & (1u8 << k) != 0) == ((b >> k) & 1u8 == 1u8)) by (bit_vector)
        requires
            k < 8,
    ;
}

/// Entries past `n` do not change the count.
pub proof fn lemma_count_true_prefix(s: Seq<bool>, n: int)
    requires
        0 <= n <= s.len(),
        forall|j: int| n <= j < s.len() ==> !#[trigger] s[j],
    ensures
        count_true(s) == count_true(s.take(n)),
    decreases s.len(),
{
    if s.len() > n {
        assert(s.drop_last().take(n) =~= s.take(n));
        lemma_count_true_prefix(s.drop_last(), n);
    } else {
        assert(s.take(n) =~= s);
    }
}

/// A count is at most the length.
pub proof fn lemma_count_true_le_len(s: Seq<bool>)
    ensures
        count_true(s) <= s.len(),
    decreases s.len(),
{
    if s.len() > 0 {
        lemma_count_true_le_len(s.drop_last());
    }
}

/// Changing one entry changes the count by what was there and what comes.
pub proof fn lemma_count_true_update(s: Seq<bool>, i: int, v: bool)
    requires
        0 <= i < s.len(),
    ensures
        count_true(s.update(i, v)) + (if s[i] { 1int } else { 0int }) == count_true(s) + (if v { 1int } else { 0int }),
    decreases s.len(),
{
    let u = s.update(i, v);
    if i == s.len() - 1 {
        assert(u.drop_last() =~= s.drop_last());
    } else {
        assert(u.drop_last() =~= s.drop_last().update(i, v));
        lemma_count_true_update(s.drop_last(), i, v);
    }
}

proof fn lemma_byte_from_bits(x: u8, y: u8)
    requires
        forall|k: int| 0 <= k < 8 ==> #[trigger] bit_of(x, k) == bit_of(y, k),
    ensures
        x == y,
{
    assert(bit_of(x, 0) == bit_of(y, 0));
    assert(bit_of(x, 1) == bit_of(y, 1));
    assert(bit_of(x, 2) == bit_of(y, 2));
    assert(bit_of(x, 3) == bit_of(y, 3));
    assert(bit_of(x, 4) == bit_of(y, 4));
    assert(bit_of(x, 5) == bit_of(y, 5));
    assert(bit_of(x, 6) == bit_of(y, 6));
    assert(bit_of(x, 7) == bit_of(y, 7));
    assert(x == y) by (bit_vector)
        requires
            ((x >> 0u8) & 1u8 == 1u8) == ((y >> 0u8) & 1u8 == 1u8),
            ((x >> 1u8) & 1u8 == 1u8) == ((y >> 1u8) & 1u8 == 1u8),
            ((x >> 2u8) & 1u8 == 1u8) == ((y >> 2u8) & 1u8 == 1u8),
            ((x >> 3u8) & 1u8 == 1u8) == ((y >> 3u8) & 1u8 == 1u8),
            ((x >> 4u8) & 1u8 == 1u8) == ((y >> 4u8) & 1u8 == 1u8),
            ((x >> 5u8) & 1u8 == 1u8) == ((y >> 5u8) & 1u8 == 1u8),
            ((x >> 6u8) & 1u8 == 1u8) == ((y >> 6u8) & 1u8 == 1u8),
            ((x >> 7u8) & 1u8 == 1u8) == ((y >> 7u8) & 1u8 == 1u8),
    ;
}

/// Bytes with the same bits are the same bytes.
pub proof fn lemma_bits_determine_bytes(a: Seq<u8>, b: Seq<u8>)
    requires
        a.len() == b.len(),
        all_bits(a) == all_bits(b),
    ensures
        a == b,
{
    assert forall|q: int| 0 <= q < a.len() implies a[q] == b[q] by {
        assert forall|k: int| 0 <= k < 8 implies #[trigger] bit_of(a[q], k) == bit_of(b[q], k) by {
            let i = q * 8 + k;
            vstd::arithmetic::div_mod::lemma_fundamental_div_mod_converse(i, 8, q, k);
            assert(0 <= i < a.len() * 8) by (nonlinear_arith)
                requires
                    0 <= q < a.len(),
                    0 <= k < 8,
                    i == q * 8 + k,
            ;
            assert(all_bits(a)[i] == bit_in(a, i));
            assert(all_bits(a)[i] == all_bits(b)[i]);
        }
        lemma_byte_from_bits(a[q], b[q]);
    }
    assert(a =~= b);
}

/// Stored bitset bytes of the wrong length for the shard.
#[derive(Debug, Clone, Copy, PartialEq, Eq)]
pub struct BitsetSizeMismatch {
    pub expected: usize,
    pub got: usize,
}

/// Fixed-size bitset backed by bytes; bit `i` lives in byte `i / 8` at
/// position `i % 8`.
#[derive(Debug)]
pub struct Bitset {
    bytes: Vec<u8>,
    size_bits: usize,
}

impl View for Bitset {
    type V = Seq<bool>;

    /// The addressable bits, `0..size_bits`.
    closed spec fn view(&self) -> Seq<bool> {
        Seq::new(self.size_bits as nat, |i: int| bit_in(self.bytes@, i))
    }
}

impl Bitset {
    /// The backing bytes are exactly as many as the bits need.
    pub closed spec fn wf(&self) -> bool {
        self.bytes@.len() == bytes_for_bits(self.size_bits as nat)
    }

    /// The backing bytes.
    pub closed spec fn raw(&self) -> Seq<u8> {
        self.bytes@
    }

    /// The number of addressable bits.
    pub closed spec fn size(&self) -> nat {
        self.size_bits as nat
    }

    /// The view lists the addressable bits of the backing bytes.
    pub proof fn lemma_view(&self)
        requires
            self.wf(),
        ensures
            self.raw().len() == bytes_for_bits(self.size()),
            self.size() <= usize::MAX,
            self@.len() == self.size(),
            forall|i: int| 0 <= i < self.size() ==> #[trigger] self@[i] == bit_in(self.raw(), i),
    {
    }

    /// The bits past the addressable ones are all clear.
    pub open spec fn padding_clear(&self) -> bool {
        forall|i: int| self.size() <= i < self.raw().len() * 8 ==> !#[trigger] bit_in(self.raw(), i)
    }

    /// With clear padding, `count_ones` counts exactly the set addressable
    /// bits.
    pub proof fn lemma_count_ones_counts_view(&self)
        requires
            self.wf(),
            self.padding_clear(),
        ensures
            count_true(all_bits(self.raw())) == count_true(self@),
    {
        let bits = all_bits(self.raw());
        assert forall|j: int| self.size() <= j < bits.len() implies !#[trigger] bits[j] by {}
        lemma_count_true_prefix(bits, self.size() as int);
        assert(bits.take(self.size() as int) =~= self@);
    }

    /// An all-zero bitset of `size_bits` bits.
    pub fn new(size_bits: usize) -> (res: Self)
        ensures
            res.wf(),
            res.padding_clear(),
            res.size() == size_bits,
            res.raw() == Seq::new(bytes_for_bits(size_bits as nat), |i: int| 0u8),
            forall|i: int| 0 <= i < size_bits ==> !#[trigger] res@[i],
    {
        let bytes_len = size_bits / 8 + if size_bits % 8 != 0 { 1 } else { 0 };
        let bytes: Vec<u8> = vec![0u8; bytes_len];
        let res = Bitset { bytes, size_bits };
        assert(res.raw() =~= Seq::new(bytes_for_bits(size_bits as nat), |i: int| 0u8));
        assert forall|i: int| 0 <= i < size_bits implies !#[trigger] res@[i] by {
            lemma_bit_of_zero(i % 8);
        }
        assert forall|i: int| res.size() <= i < res.raw().len() * 8 implies !#[trigger] bit_in(res.raw(), i) by {
            lemma_bit_of_zero(i % 8);
        }
        res
    }

    /// A bitset over the given bytes. The length of `bytes` must be exactly
    /// the number of bytes that `size_bits` bits need.
    pub fn from_bytes(bytes: Vec<u8>, size_bits: usize) -> (res: Self)
        requires
            bytes@.len() == bytes_for_bits(size_bits as nat),
        ensures
            res.wf(),
            res.size() == size_bits,
            res.raw() == bytes@,
    {
        Bitset { bytes, size_bits }
    }

    /// The bitset stored in a file: `contents` is what the file holds, or
    /// `None` when there is no file, which gives an all-zero bitset. Stored
    /// bytes of another length than `size_bits` bits need are refused.
    pub fn from_file(contents: Option<Vec<u8>>, size_bits: usize) -> (res: Result<Self, BitsetSizeMismatch>)
        ensures
            match contents {
                None => res matches Ok(b) && b.wf() && b.size() == size_bits
                    && b.raw() == Seq::new(bytes_for_bits(size_bits as nat), |i: int| 0u8),
                Some(bytes) => if bytes@.len() != bytes_for_bits(size_bits as nat) {
                    res == Err::<Self, BitsetSizeMismatch>(BitsetSizeMismatch {
                        expected: bytes_for_bits(size_bits as nat) as usize,
                        got: bytes@.len() as usize,
                    })
                } else {
                    res matches Ok(b) && b.wf() && b.size() == size_bits && b.raw() == bytes@
                },
            },
    {
        match contents {
            None => Ok(Bitset::new(size_bits)),
            Some(bytes) => {
                let expected = size_bits / 8 + if size_bits % 8 != 0 { 1 } else { 0 };
                if bytes.len() != expected {
                    return Err(BitsetSizeMismatch { expected, got: bytes.len() });
                }
                Ok(Bitset::from_bytes(bytes, size_bits))
            },
        }
    }

    /// Whether bit `offset` is set; `false` outside the bitset.
    pub fn is_set(&self, offset: usize) -> (res: bool)
        requires
            self.wf(),
        ensures
            res == (offset < self.size() && self@[offset as int]),
    {
        if offset >= self.size_bits {
            return false;
        }
        let byte = self.bytes[offset / 8];
        let k: u8 = (offset % 8) as u8;
        let bit = 1u8 << k;
        proof {
            lemma_test_bit(byte, k);
        }
        byte & bit != 0
    }

    /// Sets bit `offset`; returns true if it changed from 0 to 1. Offsets
    /// outside the bitset are ignored.
    pub fn set(&mut self, offset: usize) -> (changed: bool)
        requires
            old(self).wf(),
        ensures
            final(self).wf(),
            old(self).padding_clear() ==> final(self).padding_clear(),
            final(self).size() == old(self).size(),
            offset < old(self).size() ==> {
                &&& final(self)@ == old(self)@.update(offset as int, true)
                &&& all_bits(final(self).raw()) == all_bits(old(self).raw()).update(offset as int, true)
                &&& changed == !old(self)@[offset as int]
                &&& count_true(all_bits(final(self).raw())) == count_true(all_bits(old(self).raw())) + (if changed { 1int } else { 0int })
            },
            offset >= old(self).size() ==> final(self).raw() == old(self).raw() && !changed,
    {
        if offset >= self.size_bits {
            return false;
        }
        let idx = offset / 8;
        let k: u8 = (offset % 8) as u8;
        let bit = 1u8 << k;
        let old_byte = self.bytes[idx];
        proof {
            lemma_test_bit(old_byte, k);
        }
        let was_set = (old_byte & bit) != 0;
        if !was_set {
            self.bytes.set(idx, old_byte | bit);
            proof {
                let ob = old(self).raw();
                let nb = self.raw();
                assert forall|i: int| 0 <= i < ob.len() * 8 implies #[trigger] bit_in(nb, i)
                    == (if i == offset { true } else { bit_in(ob, i) }) by {
                    lemma_or_bit(old_byte, k, (i % 8) as u8);
                }
                assert(self@ =~= old(self)@.update(offset as int, true));
                assert(all_bits(nb) =~= all_bits(ob).update(offset as int, true));
            }
        } else {
            proof {
                assert(old(self)@[offset as int]);
                assert(old(self)@ =~= old(self)@.update(offset as int, true));
                assert(all_bits(old(self).raw()) =~= all_bits(old(self).raw()).update(offset as int, true));
            }
        }
        proof {
            lemma_count_true_update(all_bits(old(self).raw()), offset as int, true);
            assert(all_bits(old(self).raw())[offset as int] == old(self)@[offset as int]);
        }
        !was_set
    }

    /// Clears bit `offset`; returns true if it changed from 1 to 0. Offsets
    /// outside the bitset are ignored.
    pub fn clear(&mut self, offset: usize) -> (changed: bool)
        requires
            old(self).wf(),
        ensures
            final(self).wf(),
            old(self).padding_clear() ==> final(self).padding_clear(),
            final(self).size() == old(self).size(),
            offset < old(self).size() ==> {
                &&& final(self)@ == old(self)@.update(offset as int, false)
                &&& all_bits(final(self).raw()) == all_bits(old(self).raw()).update(offset as int, false)
                &&& changed == old(self)@[offset as int]
                &&& count_true(all_bits(final(self).raw())) == count_true(all_bits(old(self).raw())) - (if changed { 1int } else { 0int })
            },
            offset >= old(self).size() ==> final(self).raw() == old(self).raw() && !changed,
    {
        if offset >= self.size_bits {
            return false;
        }
        let idx = offset / 8;
        let k: u8 = (offset % 8) as u8;
        let bit = 1u8 << k;
        let old_byte = self.bytes[idx];
        proof {
            lemma_test_bit(old_byte, k);
        }
        let was_set = (old_byte & bit) != 0;
        if was_set {
            self.bytes.set(idx, old_byte & !bit);
            proof {
                let ob = old(self).raw();
                let nb = self.raw();
                assert forall|i: int| 0 <= i < ob.len() * 8 implies #[trigger] bit_in(nb, i)
                    == (if i == offset { false } else { bit_in(ob, i) }) by {
                    lemma_and_not_bit(old_byte, k, (i % 8) as u8);
                }
                assert(self@ =~= old(self)@.update(offset as int, false));
                assert(all_bits(nb) =~= all_bits(ob).update(offset as int, false));
            }
        } else {
            proof {
                assert(old(self)@ =~= old(self)@.update(offset as int, false));
                assert(all_bits(old(self).raw()) =~= all_bits(old(self).raw()).update(offset as int, false));
            }
        }
        proof {
            lemma_count_true_update(all_bits(old(self).raw()), offset as int, false);
            assert(all_bits(old(self).raw())[offset as int] == old(self)@[offset as int]);
        }
        was_set
    }

    /// Setting a clear bit and clearing it again gives back the same bytes.
    pub proof fn lemma_set_then_clear(before: Bitset, between: Bitset, after: Bitset, offset: int)
        requires
            before.wf(),
            between.wf(),
            after.wf(),
            between.size() == before.size(),
            after.size() == before.size(),
            0 <= offset < before.size(),
            !before@[offset],
            all_bits(between.raw()) == all_bits(before.raw()).update(offset, true),
            all_bits(after.raw()) == all_bits(between.raw()).update(offset, false),
        ensures
            after.raw() == before.raw(),
            after@ == before@,
    {
        assert(all_bits(before.raw())[offset] == before@[offset]);
        assert(all_bits(after.raw()) =~= all_bits(before.raw()));
        lemma_bits_determine_bytes(after.raw(), before.raw());
    }

    /// Number of set bits over all backing bytes (padding included).
    pub fn count_ones(&self) -> (n: u32)
        requires
            self.raw().len() * 8 <= u32::MAX,
        ensures
            n == count_true(all_bits(self.raw())),
            self.wf() && self.padding_clear() ==> n == count_true(self@) && n <= self.size(),
    {
        proof {
            if self.wf() && self.padding_clear() {
                self.lemma_count_ones_counts_view();
                lemma_count_true_le_len(self@);
            }
        }
        let ghost bits = all_bits(self.bytes@);
        let mut total: u32 = 0;
        let mut idx: usize = 0;
        while idx < self.bytes.len()
            invariant
                bits == all_bits(self.bytes@),
                self.bytes@.len() * 8 <= u32::MAX,
                idx <= self.bytes@.len(),
                total == count_true(bits.take(idx as int * 8)),
                total <= idx * 8,
            decreases self.bytes@.len() - idx,
        {
            let byte = self.bytes[idx];
            let mut k: u8 = 0;
            while k < 8
                invariant
                    bits == all_bits(self.bytes@),
                    self.bytes@.len() * 8 <= u32::MAX,
                    idx < self.bytes@.len(),
                    byte == self.bytes@[idx as int],
                    k <= 8,
                    total == count_true(bits.take(idx as int * 8 + k)),
                    total <= idx * 8 + k,
                decreases 8 - k,
            {
                let one = (byte >> k) & 1u8;
                proof {
                    let n = idx as int * 8 + k;
                    assert(bits.take(n + 1).drop_last() =~= bits.take(n));
                    assert((n / 8) == idx as int && (n % 8) == k as int);
                    assert(bits[n] == bit_of(byte, k as int));
                    assert(one == 1u8 || one == 0u8) by (bit_vector)
                        requires
                            one == (byte >> k) & 1u8,
                    ;
                }
                total = total + one as u32;
                k = k + 1;
            }
            idx = idx + 1;
        }
        proof {
            assert(bits.take(self.bytes@.len() as int * 8) =~= bits);
        }
        total
    }

    /// The backing bytes.
    pub fn bytes(&self) -> (res: &[u8])
        ensures
            res@ == self.raw(),
    {
        self.bytes.as_slice()
    }
}

} // verus!
