//! Lightweight metrics helpers: range lengths, progress totals and
//! percentiles of samples.

use vstd::prelude::*;
use vstd::relations::{sorted_by, total_ordering};
use vstd::seq_lib::{to_multiset_build, to_multiset_contains, to_multiset_insert, to_multiset_len, to_multiset_remove};

verus! {

/// The first block of an inclusive range; calls `RangeInclusive::start`,
/// which returns the range's lower bound.
#[verifier::external_body]
fn range_start(range: &std::ops::RangeInclusive<u64>) -> (res: u64)
    ensures
        res == range@.start,
{
    *range.start()
}

/// The last block of an inclusive range; calls `RangeInclusive::end`,
/// which returns the range's upper bound.
#[verifier::external_body]
fn range_end(range: &std::ops::RangeInclusive<u64>) -> (res: u64)
    ensures
        res == range@.end,
{
    *range.end()
}

/// The number of blocks of `start..=end`: `end - start + 1`, 0 or less
/// counting as 1 when `end < start`, saturating at `u64::MAX`.
pub open spec fn range_len_spec(start: u64, end: u64) -> u64 {
    let d = if end >= start { end - start } else { 0 };
    if d + 1 > u64::MAX { u64::MAX } else { (d + 1) as u64 }
}

/// The number of blocks of an inclusive range (see `range_len_spec`).
pub fn range_len(range: &std::ops::RangeInclusive<u64>) -> (res: u64)
    ensures
        res == range_len_spec(range@.start, range@.end),
{
    range_end(range).saturating_sub(range_start(range)).saturating_add(1)
}

/// The number of blocks from `start_from` to `head`, both included; 0 when
/// the head is below the start.
pub fn total_blocks_to_head(start_from: u64, head: u64) -> (res: u64)
    ensures
        head < start_from ==> res == 0,
        head >= start_from ==> res == if head - start_from + 1 > u64::MAX { u64::MAX as int } else { head - start_from + 1 },
{
    if head >= start_from {
        head.saturating_sub(start_from).saturating_add(1)
    } else {
        0
    }
}

/// Whether a sequence is in nondecreasing order.
pub open spec fn sorted_u64(s: Seq<u64>) -> bool {
    forall|i: int, j: int| 0 <= i <= j < s.len() ==> s[i] <= s[j]
}

/// The order of samples.
pub open spec fn sample_le() -> spec_fn(u64, u64) -> bool {
    |x: u64, y: u64| x <= y
}

/// The samples in nondecreasing order.
pub open spec fn sorted_samples(values: Seq<u64>) -> Seq<u64> {
    values.sort_by(sample_le())
}

/// Two nondecreasing sequences with the same elements, counted with
/// multiplicity, are equal.
pub proof fn lemma_sorted_unique(a: Seq<u64>, b: Seq<u64>)
    requires
        sorted_u64(a),
        sorted_u64(b),
        a.to_multiset() == b.to_multiset(),
    ensures
        a == b,
    decreases a.len(),
{
    to_multiset_len(a);
    to_multiset_len(b);
    if a.len() == 0 {
        assert(a =~= b);
    } else {
        to_multiset_contains(a, a[0]);
        to_multiset_contains(b, b[0]);
        to_multiset_contains(a, b[0]);
        to_multiset_contains(b, a[0]);
        let i = choose|i: int| 0 <= i < b.len() && b[i] == a[0];
        let j = choose|j: int| 0 <= j < a.len() && a[j] == b[0];
        assert(b[0] <= b[i]);
        assert(a[0] <= a[j]);
        assert(a[0] == b[0]);
        to_multiset_remove(a, 0);
        to_multiset_remove(b, 0);
        assert(a.remove(0) =~= a.drop_first());
        assert(b.remove(0) =~= b.drop_first());
        lemma_sorted_unique(a.drop_first(), b.drop_first());
        assert(a =~= b) by {
            assert forall|k: int| 0 <= k < a.len() implies a[k] == b[k] by {
                if k > 0 {
                    assert(a[k] == a.drop_first()[k - 1]);
                    assert(b[k] == b.drop_first()[k - 1]);
                }
            }
        }
    }
}

/// What `sorted_samples` gives: the samples in nondecreasing order, and
/// nothing else.
pub proof fn lemma_sorted_samples(values: Seq<u64>)
    ensures
        sorted_u64(sorted_samples(values)),
        sorted_samples(values).to_multiset() == values.to_multiset(),
        sorted_samples(values).len() == values.len(),
{
    let leq = sample_le();
    assert(total_ordering(leq));
    values.lemma_sort_by_ensures(leq);
    let s = sorted_samples(values);
    assert(sorted_by(s, leq));
    assert forall|i: int, j: int| 0 <= i <= j < s.len() implies s[i] <= s[j] by {
        if i < j {
            assert(leq(s[i], s[j]));
        }
    }
    to_multiset_len(s);
    to_multiset_len(values);
}

/// Percentiles do not depend on the order in which the samples came: two
/// sample lists with the same values, counted with multiplicity, sort to
/// the same sequence.
pub proof fn lemma_sorted_samples_order_free(a: Seq<u64>, b: Seq<u64>)
    requires
        a.to_multiset() == b.to_multiset(),
    ensures
        sorted_samples(a) == sorted_samples(b),
{
    lemma_sorted_samples(a);
    lemma_sorted_samples(b);
    lemma_sorted_unique(sorted_samples(a), sorted_samples(b));
}

/// The samples in nondecreasing order.
pub fn sort_samples(values: &Vec<u64>) -> (res: Vec<u64>)
    ensures
        res@ == sorted_samples(values@),
{
    let mut out: Vec<u64> = Vec::new();
    let mut i: usize = 0;
    proof {
        assert(out@ =~= values@.take(0));
    }
    while i < values.len()
        invariant
            i <= values@.len(),
            sorted_u64(out@),
            out@.to_multiset() == values@.take(i as int).to_multiset(),
            out@.len() == i,
        decreases values@.len() - i,
    {
        let x = values[i];
        let mut pos: usize = 0;
        while pos < out.len() && out[pos] <= x
            invariant
                pos <= out@.len(),
                forall|k: int| 0 <= k < pos ==> out@[k] <= x,
            decreases out@.len() - pos,
        {
            pos = pos + 1;
        }
        let ghost before = out@;
        out.insert(pos, x);
        proof {
            to_multiset_insert(before, pos as int, x);
            assert(values@.take(i + 1) =~= values@.take(i as int).push(x));
            to_multiset_build(values@.take(i as int), x);
            assert forall|a: int, b: int| 0 <= a <= b < out@.len() implies out@[a] <= out@[b] by {
                let va = if a < pos { before[a] } else if a == pos { x } else { before[a - 1] };
                let vb = if b < pos { before[b] } else if b == pos { x } else { before[b - 1] };
                assert(out@[a] == va);
                assert(out@[b] == vb);
                if a < pos && b > pos {
                    assert(before[a] <= x);
                }
                if a == pos && b > pos {
                    assert(before[pos as int] > x);
                    assert(before[pos as int] <= before[b - 1]);
                }
            }
        }
        i = i + 1;
    }
    proof {
        assert(values@.take(values@.len() as int) =~= values@);
        lemma_sorted_samples(values@);
        lemma_sorted_unique(out@, sorted_samples(values@));
    }
    out
}

/// The position a percentile of `pct` percent picks among `n` sorted
/// samples: `(n - 1) * pct / 100`, rounded to nearest with halves up.
pub open spec fn percentile_index(n: nat, pct: nat) -> int {
    (((n - 1) * pct + 50) / 100) as int
}

/// The `pct`-th percentile of sorted samples, `None` when there are none.
pub fn percentile(sorted: &Vec<u64>, pct: u64) -> (res: Option<u64>)
    requires
        pct <= 100,
    ensures
        sorted@.len() == 0 ==> res is None,
        sorted@.len() > 0 ==> res == Some(sorted@[percentile_index(sorted@.len(), pct as nat)]),
{
    if sorted.len() == 0 {
        return None;
    }
    let n = sorted.len() as u128;
    let p = pct as u128;
    proof {
        assert((n - 1) * p <= (n - 1) * 100) by (nonlinear_arith)
            requires
                p <= 100,
                n >= 1,
        ;
        assert((n - 1) * 100 <= 0xffff_ffff_ffff_ffff * 100) by (nonlinear_arith)
            requires
                n - 1 <= 0xffff_ffff_ffff_ffff,
        ;
    }
    let prod = (n - 1) * p;
    let idx = (prod + 50) / 100;
    proof {
        assert(idx <= n - 1);
    }
    Some(sorted[idx as usize])
}

/// The 50th, 95th and 99th percentiles of the samples; `None`s when there
/// are none.
pub fn percentile_triplet(values: &Vec<u64>) -> (res: (Option<u64>, Option<u64>, Option<u64>))
    ensures
        values@.len() == 0 ==> res == (None::<u64>, None::<u64>, None::<u64>),
        values@.len() > 0 ==> ({
            let s = sorted_samples(values@);
            res == (Some(s[percentile_index(s.len(), 50)]), Some(s[percentile_index(s.len(), 95)]),
                Some(s[percentile_index(s.len(), 99)]))
        }),
{
    if values.len() == 0 {
        return (None, None, None);
    }
    let data = sort_samples(values);
    proof {
        lemma_sorted_samples(values@);
    }
    let p50 = percentile(&data, 50);
    let p95 = percentile(&data, 95);
    let p99 = percentile(&data, 99);
    (p50, p95, p99)
}

} // verus!
