//! Combining the samples of two value sites: counts of equal values add up,
//! and the samples with the highest counts are kept, in rank order.

use super::ranking::{ranked, sort_ranked, Ranked};
use super::types::InstrProfValueData;
use vstd::prelude::*;

verus! {

/// The largest number of samples that a merged value site keeps.
pub const MAX_SAMPLES_PER_SITE: usize = 255;

/// The sum of two counts, held at the largest value that a count can have.
pub open spec fn sat_add(a: u64, b: u64) -> u64 {
    if a + b > u64::MAX {
        u64::MAX
    } else {
        (a + b) as u64
    }
}

/// The first position of `k` in `keys`, or -1 if `k` is not among them.
pub open spec fn first_index_of<K>(keys: Seq<K>, k: K) -> int
    decreases keys.len(),
{
    if keys.len() == 0 {
        -1
    } else {
        let i = first_index_of(keys.drop_last(), k);
        if i >= 0 {
            i
        } else if keys.last() == k {
            keys.len() - 1
        } else {
            -1
        }
    }
}

/// `first_index_of` finds `k` where it first stands, and reports -1 only if
/// `k` stands nowhere.
pub proof fn lemma_first_index_of<K>(keys: Seq<K>, k: K)
    ensures
        -1 <= first_index_of(keys, k) < keys.len(),
        first_index_of(keys, k) >= 0 ==> keys[first_index_of(keys, k)] == k,
        forall|j: int| 0 <= j < first_index_of(keys, k) ==> #[trigger] keys[j] != k,
        first_index_of(keys, k) == -1 ==> forall|j: int| 0 <= j < keys.len() ==> #[trigger] keys[j]
            != k,
    decreases keys.len(),
{
    if keys.len() > 0 {
        let rest = keys.drop_last();
        lemma_first_index_of(rest, k);
        let i = first_index_of(keys, k);
        assert forall|j: int| 0 <= j < i implies #[trigger] keys[j] != k by {
            assert(rest[j] == keys[j]);
        }
        if i == -1 {
            assert forall|j: int| 0 <= j < keys.len() implies #[trigger] keys[j] != k by {
                if j < rest.len() {
                    assert(rest[j] == keys[j]);
                }
            }
        }
    }
}

/// A position at which `k` stands, with no `k` before it, is the first
/// position of `k`.
pub proof fn lemma_first_index_is<K>(keys: Seq<K>, k: K, i: int)
    requires
        0 <= i < keys.len(),
        keys[i] == k,
        forall|j: int| 0 <= j < i ==> #[trigger] keys[j] != k,
    ensures
        first_index_of(keys, k) == i,
{
    lemma_first_index_of(keys, k);
}

/// Samples rank from the highest count to the lowest; among equal counts,
/// from the smallest value to the largest.
impl Ranked for InstrProfValueData {
    open spec fn precedes(self, other: Self) -> bool {
        self.count > other.count || (self.count == other.count && self.value <= other.value)
    }

    proof fn lemma_total(a: Self, b: Self) {
    }

    proof fn lemma_transitive(a: Self, b: Self, c: Self) {
    }

    proof fn lemma_antisymmetric(a: Self, b: Self) {
    }

    fn comes_before(&self, other: &Self) -> (r: bool) {
        self.count > other.count || (self.count == other.count && self.value <= other.value)
    }
}

/// The values of a sequence of samples.
pub open spec fn sample_values(s: Seq<InstrProfValueData>) -> Seq<u64> {
    Seq::new(s.len(), |i: int| s[i].value)
}

/// The samples after one more was taken in: its count is added to the
/// sample of the same value, or it is put at the end if there is none.
pub open spec fn absorb_sample(
    acc: Seq<InstrProfValueData>,
    x: InstrProfValueData,
) -> Seq<InstrProfValueData> {
    let i = first_index_of(sample_values(acc), x.value);
    if i < 0 {
        acc.push(x)
    } else {
        acc.update(i, InstrProfValueData { value: x.value, count: sat_add(acc[i].count, x.count) })
    }
}

/// The samples of `s` with one sample for each value, which holds the sum of
/// the counts of that value.
pub open spec fn combine_samples(s: Seq<InstrProfValueData>) -> Seq<InstrProfValueData>
    decreases s.len(),
{
    if s.len() == 0 {
        Seq::empty()
    } else {
        absorb_sample(combine_samples(s.drop_last()), s.last())
    }
}

/// Whether a sum of counts went over the largest count while the samples of
/// `s` were combined.
pub open spec fn samples_saturate(s: Seq<InstrProfValueData>) -> bool
    decreases s.len(),
{
    if s.len() == 0 {
        false
    } else {
        let acc = combine_samples(s.drop_last());
        let i = first_index_of(sample_values(acc), s.last().value);
        samples_saturate(s.drop_last()) || (i >= 0 && acc[i].count + s.last().count > u64::MAX)
    }
}

/// The first `MAX_SAMPLES_PER_SITE` samples of a sequence.
pub open spec fn top_samples(s: Seq<InstrProfValueData>) -> Seq<InstrProfValueData> {
    if s.len() > MAX_SAMPLES_PER_SITE {
        s.take(MAX_SAMPLES_PER_SITE as int)
    } else {
        s
    }
}

/// The samples of a value site that two sites were merged into.
pub open spec fn merge_site(
    a: Seq<InstrProfValueData>,
    b: Seq<InstrProfValueData>,
) -> Seq<InstrProfValueData> {
    top_samples(ranked(combine_samples(a + b)))
}

/// No value occurs twice among combined samples.
pub proof fn lemma_combined_values_distinct(s: Seq<InstrProfValueData>)
    ensures
        sample_values(combine_samples(s)).no_duplicates(),
    decreases s.len(),
{
    if s.len() > 0 {
        let acc = combine_samples(s.drop_last());
        let x = s.last();
        lemma_combined_values_distinct(s.drop_last());
        lemma_first_index_of(sample_values(acc), x.value);
        let out = combine_samples(s);
        let i = first_index_of(sample_values(acc), x.value);
        assert forall|p: int, q: int|
            0 <= p < out.len() && 0 <= q < out.len() && p != q implies sample_values(out)[p]
            != sample_values(out)[q] by {
            if i < 0 {
                if p < acc.len() {
                    assert(sample_values(acc)[p] == out[p].value);
                }
                if q < acc.len() {
                    assert(sample_values(acc)[q] == out[q].value);
                }
            } else {
                assert(sample_values(acc)[p] == out[p].value);
                assert(sample_values(acc)[q] == out[q].value);
            }
        }
    }
}

/// Takes the samples of `from` into `acc`, which holds the samples of
/// `before` combined. `saturated_before` says whether a sum went over the
/// largest count so far; the result says the same of the samples of both.
fn absorb_samples(
    acc: &mut Vec<InstrProfValueData>,
    from: &Vec<InstrProfValueData>,
    saturated_before: bool,
    Ghost(before): Ghost<Seq<InstrProfValueData>>,
) -> (saturated: bool)
    requires
        old(acc)@ == combine_samples(before),
        saturated_before == samples_saturate(before),
    ensures
        final(acc)@ == combine_samples(before + from@),
        saturated == samples_saturate(before + from@),
{
    let mut saturated: bool = saturated_before;
    let mut k: usize = 0;
    proof {
        assert(before + from@.take(0) =~= before);
    }
    while k < from.len()
        invariant
            k <= from@.len(),
            acc@ == combine_samples(before + from@.take(k as int)),
            saturated == samples_saturate(before + from@.take(k as int)),
        decreases from@.len() - k,
    {
        let x: InstrProfValueData = from[k];
        let ghost seen = before + from@.take(k as int);
        let ghost held = acc@;
        proof {
            assert((before + from@.take(k + 1)).drop_last() =~= seen);
            assert((before + from@.take(k + 1)).last() == x);
        }
        // Look for the sample of the same value.
        let mut i: usize = 0;
        while i < acc.len() && acc[i].value != x.value
            invariant
                i <= acc@.len(),
                acc@ == held,
                forall|j: int| 0 <= j < i ==> #[trigger] sample_values(held)[j] != x.value,
            decreases acc@.len() - i,
        {
            i = i + 1;
        }
        if i < acc.len() {
            proof {
                lemma_first_index_is(sample_values(held), x.value, i as int);
            }
            let old_count: u64 = acc[i].count;
            if old_count > u64::MAX - x.count {
                saturated = true;
            }
            acc[i] = InstrProfValueData { value: x.value, count: old_count.saturating_add(x.count) };
            proof {
                assert(acc@ =~= absorb_sample(held, x));
            }
        } else {
            proof {
                lemma_first_index_of(sample_values(held), x.value);
                if first_index_of(sample_values(held), x.value) >= 0 {
                    let p = first_index_of(sample_values(held), x.value);
                    assert(sample_values(held)[p] == x.value);
                }
            }
            acc.push(x);
        }
        k = k + 1;
    }
    proof {
        assert(from@.take(k as int) =~= from@);
    }
    saturated
}

/// Merges two value sites. Returns the merged site, and whether a sum of
/// counts went over the largest count.
pub fn merge_value_site(a: &Vec<InstrProfValueData>, b: &Vec<InstrProfValueData>) -> (out: (
    Vec<InstrProfValueData>,
    bool,
))
    ensures
        out.0@ == merge_site(a@, b@),
        out.1 == samples_saturate(a@ + b@),
{
    let mut acc: Vec<InstrProfValueData> = Vec::new();
    let ghost none = Seq::<InstrProfValueData>::empty();
    proof {
        assert(none + a@ =~= a@);
    }
    let in_first: bool = absorb_samples(&mut acc, a, false, Ghost(none));
    let saturated: bool = absorb_samples(&mut acc, b, in_first, Ghost(a@));
    let mut sorted: Vec<InstrProfValueData> = sort_ranked(&acc);
    if sorted.len() > MAX_SAMPLES_PER_SITE {
        sorted.truncate(MAX_SAMPLES_PER_SITE);
    }
    (sorted, saturated)
}

} // verus!
