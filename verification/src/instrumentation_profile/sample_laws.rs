//! What holds of the samples of a merged value site: the count that each
//! value has in it, and what merging a site with itself gives.

use super::merge::combine_records;
use super::merge_laws::{capped, lemma_capped_sum};
use super::ranking::{lemma_ranked_properties, ranked};
use super::types::{InstrProfValueData, NamedRecordModel, ValueKind};
use super::value_sites::{
    combine_samples, first_index_of, lemma_combined_values_distinct, lemma_first_index_of,
    merge_site, sample_values, top_samples, MAX_SAMPLES_PER_SITE,
};
use vstd::prelude::*;

verus! {

/// The count of a value in a value site: the sum of the counts of the
/// samples that have the value.
pub open spec fn sample_count(s: Seq<InstrProfValueData>, v: u64) -> nat
    decreases s.len(),
{
    if s.len() == 0 {
        0
    } else {
        sample_count(s.drop_last(), v) + if s.last().value == v {
            s.last().count as nat
        } else {
            0
        }
    }
}

/// The number of different values in a value site.
pub open spec fn distinct_values(s: Seq<InstrProfValueData>) -> nat {
    sample_values(s).to_set().len()
}

/// A key has a first position among keys if and only if it is one of them.
pub proof fn lemma_first_index_iff_contains<K>(keys: Seq<K>, k: K)
    ensures
        first_index_of(keys, k) >= 0 <==> keys.contains(k),
{
    lemma_first_index_of(keys, k);
    let i = first_index_of(keys, k);
    if i >= 0 {
        assert(keys[i] == k);
    } else if keys.contains(k) {
        let j = choose|j: int| 0 <= j < keys.len() && keys[j] == k;
        assert(keys[j] != k);
    }
}

/// The values of a site are those of all its samples but the last, and the
/// value of the last.
proof fn lemma_values_of_longer_site(s: Seq<InstrProfValueData>, v: u64)
    requires
        s.len() > 0,
    ensures
        sample_values(s).contains(v) <==> (sample_values(s.drop_last()).contains(v)
            || s.last().value == v),
{
    let sv = sample_values(s);
    let rv = sample_values(s.drop_last());
    if rv.contains(v) {
        let k = choose|k: int| 0 <= k < rv.len() && rv[k] == v;
        assert(sv[k] == v);
    }
    if s.last().value == v {
        assert(sv[s.len() - 1] == v);
    }
    if sv.contains(v) {
        let k = choose|k: int| 0 <= k < sv.len() && sv[k] == v;
        if k < rv.len() {
            assert(rv[k] == v);
        }
    }
}

/// A value that no sample of a site has has the count zero in it.
pub proof fn lemma_absent_value_counts_nothing(s: Seq<InstrProfValueData>, v: u64)
    requires
        !sample_values(s).contains(v),
    ensures
        sample_count(s, v) == 0,
    decreases s.len(),
{
    if s.len() > 0 {
        lemma_values_of_longer_site(s, v);
        lemma_absent_value_counts_nothing(s.drop_last(), v);
    }
}

/// Combined samples hold a sample of a value if and only if the samples that
/// were combined hold one, and the count of that sample is the count of the
/// value in them, held at the largest count.
pub proof fn lemma_combined_counts(s: Seq<InstrProfValueData>, v: u64)
    ensures
        ({
            let c = combine_samples(s);
            let i = first_index_of(sample_values(c), v);
            &&& -1 <= i < c.len()
            &&& i >= 0 <==> sample_values(s).contains(v)
            &&& i >= 0 ==> c[i].value == v && c[i].count == capped(sample_count(s, v))
        }),
    decreases s.len(),
{
    let c = combine_samples(s);
    let cv = sample_values(c);
    lemma_first_index_of(cv, v);
    if s.len() == 0 {
        assert(cv =~= Seq::<u64>::empty());
    } else {
        let rest = s.drop_last();
        let x = s.last();
        let acc = combine_samples(rest);
        let av = sample_values(acc);
        lemma_combined_counts(rest, v);
        lemma_combined_counts(rest, x.value);
        lemma_values_of_longer_site(s, v);
        let j = first_index_of(av, x.value);
        lemma_first_index_of(av, x.value);
        lemma_first_index_of(av, v);
        if j < 0 {
            assert(cv =~= av.push(x.value));
            assert(cv.drop_last() =~= av);
            if v == x.value {
                lemma_absent_value_counts_nothing(rest, v);
            } else {
                let i = first_index_of(av, v);
                if i >= 0 {
                    assert(c[i] == acc[i]);
                }
            }
        } else {
            assert(av[j] == x.value);
            assert(cv =~= av);
            if v == x.value {
                lemma_capped_sum(sample_count(rest, v), x.count as nat);
            } else {
                let i = first_index_of(av, v);
                if i >= 0 {
                    assert(av[i] == v);
                    assert(c[i] == acc[i]);
                }
            }
        }
    }
}

/// In a site of which no two samples have one value, the count of a value is
/// the count of its sample.
pub proof fn lemma_count_of_distinct(c: Seq<InstrProfValueData>, v: u64)
    requires
        sample_values(c).no_duplicates(),
    ensures
        ({
            let i = first_index_of(sample_values(c), v);
            sample_count(c, v) == if i >= 0 {
                c[i].count as nat
            } else {
                0
            }
        }),
    decreases c.len(),
{
    if c.len() > 0 {
        let rest = c.drop_last();
        let cv = sample_values(c);
        let rv = sample_values(rest);
        assert(cv.drop_last() =~= rv);
        assert forall|p: int, q: int| 0 <= p < rv.len() && 0 <= q < rv.len() && p != q implies rv[p]
            != rv[q] by {
            assert(rv[p] == cv[p] && rv[q] == cv[q]);
        }
        lemma_count_of_distinct(rest, v);
        lemma_first_index_of(rv, v);
        lemma_first_index_of(cv, v);
        if c.last().value == v {
            let i = first_index_of(rv, v);
            if i >= 0 {
                assert(cv[i] == v && cv[c.len() - 1] == v);
            }
        }
    }
}

/// Taking one sample out of a site takes its count out of the count of its
/// value.
proof fn lemma_count_remove(s: Seq<InstrProfValueData>, i: int, v: u64)
    requires
        0 <= i < s.len(),
    ensures
        sample_count(s, v) == sample_count(s.remove(i), v) + if s[i].value == v {
            s[i].count as nat
        } else {
            0
        },
    decreases s.len(),
{
    if i == s.len() - 1 {
        assert(s.remove(i) =~= s.drop_last());
    } else {
        assert(s.remove(i).drop_last() =~= s.drop_last().remove(i));
        assert(s.remove(i).last() == s.last());
        lemma_count_remove(s.drop_last(), i, v);
    }
}

/// The count of a value depends only on how often each sample occurs, not on
/// the order of the samples.
pub proof fn lemma_count_of_permutation(
    a: Seq<InstrProfValueData>,
    b: Seq<InstrProfValueData>,
    v: u64,
)
    requires
        a.to_multiset() == b.to_multiset(),
    ensures
        sample_count(a, v) == sample_count(b, v),
    decreases a.len(),
{
    broadcast use vstd::seq_lib::group_to_multiset_ensures;

    a.to_multiset_ensures();
    b.to_multiset_ensures();
    if a.len() == 0 {
        assert(b.len() == 0);
    } else {
        let x = a.last();
        assert(a[a.len() - 1] == x);
        assert(a.to_multiset().count(x) > 0);
        assert(b.contains(x));
        let j = choose|j: int| 0 <= j < b.len() && b[j] == x;
        vstd::seq_lib::to_multiset_remove(b, j);
        vstd::seq_lib::to_multiset_remove(a, a.len() - 1);
        assert(a.remove(a.len() - 1) =~= a.drop_last());
        lemma_count_of_permutation(a.drop_last(), b.remove(j), v);
        lemma_count_remove(b, j, v);
    }
}

/// A value of a site is a value of every site that holds the same samples.
proof fn lemma_values_of_permutation(
    a: Seq<InstrProfValueData>,
    b: Seq<InstrProfValueData>,
    v: u64,
)
    requires
        a.to_multiset() == b.to_multiset(),
        sample_values(a).contains(v),
    ensures
        sample_values(b).contains(v),
{
    broadcast use vstd::seq_lib::group_to_multiset_ensures;

    a.to_multiset_ensures();
    b.to_multiset_ensures();
    let k = choose|k: int| 0 <= k < sample_values(a).len() && sample_values(a)[k] == v;
    assert(a.to_multiset().count(a[k]) > 0);
    assert(b.contains(a[k]));
    let j = choose|j: int| 0 <= j < b.len() && b[j] == a[k];
    assert(sample_values(b)[j] == v);
}

/// The count of a value in two sites together is the sum of its counts in
/// the two.
pub proof fn lemma_count_concat(a: Seq<InstrProfValueData>, b: Seq<InstrProfValueData>, v: u64)
    ensures
        sample_count(a + b, v) == sample_count(a, v) + sample_count(b, v),
    decreases b.len(),
{
    if b.len() == 0 {
        assert(a + b =~= a);
    } else {
        assert((a + b).drop_last() =~= a + b.drop_last());
        lemma_count_concat(a, b.drop_last(), v);
    }
}

/// Combined samples are as many as the samples that were combined have
/// different values.
pub proof fn lemma_combined_length(s: Seq<InstrProfValueData>)
    ensures
        combine_samples(s).len() == distinct_values(s),
{
    let c = combine_samples(s);
    let cv = sample_values(c);
    let sv = sample_values(s);
    lemma_combined_values_distinct(s);
    assert forall|v: u64| cv.contains(v) <==> sv.contains(v) by {
        lemma_combined_counts(s, v);
        lemma_first_index_iff_contains(cv, v);
    }
    assert(cv.to_set() =~= sv.to_set());
    cv.unique_seq_to_set();
}

/// A value site that is merged with itself holds the values that it held,
/// each once, with twice the count that the value had, held at the largest
/// count; if the site held no more different values than a merged site
/// keeps.
pub proof fn lemma_site_merged_with_itself(s: Seq<InstrProfValueData>, v: u64)
    requires
        distinct_values(s) <= MAX_SAMPLES_PER_SITE,
    ensures
        merge_site(s, s).len() == distinct_values(s),
        sample_values(merge_site(s, s)).no_duplicates(),
        sample_values(merge_site(s, s)).contains(v) <==> sample_values(s).contains(v),
        sample_count(merge_site(s, s), v) == capped(2 * sample_count(s, v)),
{
    let both = s + s;
    let c = combine_samples(both);
    let r = ranked(c);
    // As many samples as the site has different values, so all are kept.
    assert forall|w: u64| sample_values(both).contains(w) <==> sample_values(s).contains(w) by {
        let bv = sample_values(both);
        let sv = sample_values(s);
        if bv.contains(w) {
            let k = choose|k: int| 0 <= k < bv.len() && bv[k] == w;
            if k < s.len() {
                assert(sv[k] == w);
            } else {
                assert(sv[k - s.len()] == w);
            }
        }
        if sv.contains(w) {
            let k = choose|k: int| 0 <= k < sv.len() && sv[k] == w;
            assert(bv[k] == w);
        }
    }
    assert(sample_values(both).to_set() =~= sample_values(s).to_set());
    lemma_combined_length(both);
    lemma_ranked_properties(c);
    assert(top_samples(r) == r);
    assert(merge_site(s, s) == r);
    // The count of each value.
    lemma_combined_counts(both, v);
    lemma_combined_values_distinct(both);
    lemma_count_of_distinct(c, v);
    lemma_count_of_permutation(r, c, v);
    lemma_count_concat(s, s, v);
    if !sample_values(both).contains(v) {
        lemma_absent_value_counts_nothing(both, v);
    }
    // The values.
    lemma_first_index_iff_contains(sample_values(c), v);
    if sample_values(r).contains(v) {
        lemma_values_of_permutation(r, c, v);
    }
    if sample_values(c).contains(v) {
        lemma_values_of_permutation(c, r, v);
    }
    // No value twice.
    let rv = sample_values(r);
    assert forall|p: int, q: int| 0 <= p < rv.len() && 0 <= q < rv.len() && p != q implies rv[p]
        != rv[q] by {
        if rv[p] == rv[q] {
            let w = rv[p];
            lemma_count_of_permutation(r, c, w);
            lemma_combined_counts(both, w);
            lemma_count_of_distinct(c, w);
            lemma_two_samples_of_one_value(r, c, p, q);
        }
    }
}

/// Two sites that hold the same samples, one of them with no value twice:
/// the other has no value twice either.
proof fn lemma_two_samples_of_one_value(
    r: Seq<InstrProfValueData>,
    c: Seq<InstrProfValueData>,
    p: int,
    q: int,
)
    requires
        r.to_multiset() == c.to_multiset(),
        sample_values(c).no_duplicates(),
        0 <= p < r.len(),
        0 <= q < r.len(),
        p != q,
    ensures
        r[p].value != r[q].value,
{
    broadcast use vstd::seq_lib::group_to_multiset_ensures;
    broadcast use vstd::multiset::group_multiset_axioms;

    r.to_multiset_ensures();
    c.to_multiset_ensures();
    if r[p].value == r[q].value {
        assert(r.to_multiset().count(r[p]) > 0);
        assert(r.to_multiset().count(r[q]) > 0);
        assert(c.contains(r[p]));
        assert(c.contains(r[q]));
        let i = choose|i: int| 0 <= i < c.len() && c[i] == r[p];
        let j = choose|j: int| 0 <= j < c.len() && c[j] == r[q];
        assert(sample_values(c)[i] == sample_values(c)[j]);
        assert(i == j);
        // One sample stands twice in `r`, but once in `c`.
        assert(r[p] == r[q]);
        let x = r[p];
        let (lo, hi) = if p < q {
            (p, q)
        } else {
            (q, p)
        };
        vstd::seq_lib::to_multiset_remove(r, hi);
        vstd::seq_lib::to_multiset_remove(c, i);
        let r1 = r.remove(hi);
        let c1 = c.remove(i);
        r1.to_multiset_ensures();
        c1.to_multiset_ensures();
        assert(r1[lo] == x);
        assert(r1.to_multiset().count(x) > 0);
        assert(c1.contains(x));
        let k = choose|k: int| 0 <= k < c1.len() && c1[k] == x;
        let k0 = if k < i {
            k
        } else {
            k + 1
        };
        assert(c[k0] == x);
        assert(sample_values(c)[k0] == sample_values(c)[i]);
    }
}

/// A record that is merged with itself has as many value sites of each kind
/// as it had, and at each of them the values that it had there, each with
/// twice its count, held at the largest count; if the site held no more
/// different values than a merged site keeps.
pub proof fn lemma_record_merged_with_itself(
    r: NamedRecordModel,
    kind: ValueKind,
    i: int,
    v: u64,
)
    requires
        0 <= i < r.record.sites(kind).len(),
        distinct_values(r.record.sites(kind)[i]) <= MAX_SAMPLES_PER_SITE,
    ensures
        combine_records(r, r).record.sites(kind).len() == r.record.sites(kind).len(),
        combine_records(r, r).record.sites(kind)[i] == merge_site(
            r.record.sites(kind)[i],
            r.record.sites(kind)[i],
        ),
        sample_values(combine_records(r, r).record.sites(kind)[i]).contains(v) <==> sample_values(
            r.record.sites(kind)[i],
        ).contains(v),
        sample_count(combine_records(r, r).record.sites(kind)[i], v) == capped(
            2 * sample_count(r.record.sites(kind)[i], v),
        ),
{
    lemma_site_merged_with_itself(r.record.sites(kind)[i], v);
}

} // verus!
