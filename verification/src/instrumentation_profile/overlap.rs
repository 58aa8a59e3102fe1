//! How much two profiles agree: for each function that both have, and for
//! all of them together, the sum of the smaller of each pair of counters over
//! the sum of the larger.

use super::hashing::{name_hash, name_hash_spec, ByteOrder};
use super::summary::{max_u64, seq_max};
use super::types::{
    records_model, InstrumentationProfile, NamedInstrProfRecord, NamedRecordModel, ProfileModel,
};
use super::value_sites::{first_index_of, lemma_first_index_of};
use std::collections::BTreeMap;
use vstd::prelude::*;

verus! {

/// A share: `matched` parts of `total`, where `total` is not zero.
#[derive(Debug, Clone, Copy, PartialEq, Eq, Hash)]
pub struct Score {
    pub matched: u128,
    pub total: u128,
}

impl Score {
    /// Whether the share is the whole.
    pub open spec fn is_one(self) -> bool {
        self.matched == self.total
    }

    /// Whether the share is nothing.
    pub open spec fn is_zero(self) -> bool {
        self.matched == 0
    }
}

/// The smaller of two counters.
pub open spec fn min_u64(a: u64, b: u64) -> u64 {
    if a <= b {
        a
    } else {
        b
    }
}

/// The sum of the smaller counter of each position.
pub open spec fn min_sum(a: Seq<u64>, b: Seq<u64>) -> nat
    decreases a.len(),
{
    if a.len() == 0 || b.len() == 0 {
        0
    } else {
        min_sum(a.drop_last(), b.drop_last()) + min_u64(a.last(), b.last()) as nat
    }
}

/// The sum of the larger counter of each position.
pub open spec fn max_sum(a: Seq<u64>, b: Seq<u64>) -> nat
    decreases a.len(),
{
    if a.len() == 0 || b.len() == 0 {
        0
    } else {
        max_sum(a.drop_last(), b.drop_last()) + max_u64(a.last(), b.last()) as nat
    }
}

/// The sum of the counters.
pub open spec fn counter_sum(a: Seq<u64>) -> nat
    decreases a.len(),
{
    if a.len() == 0 {
        0
    } else {
        counter_sum(a.drop_last()) + a.last() as nat
    }
}

/// What a pair of counter vectors adds to the two sums of an overlap. Two
/// vectors of different lengths share nothing, and all they hold counts as
/// not shared.
pub open spec fn pair_sums(a: Seq<u64>, b: Seq<u64>) -> (nat, nat) {
    if a.len() == b.len() {
        (min_sum(a, b), max_sum(a, b))
    } else {
        (0, counter_sum(a) + counter_sum(b))
    }
}

/// A number held at the largest value of 128 bits.
pub open spec fn sat128(n: nat) -> u128 {
    if n > u128::MAX {
        u128::MAX
    } else {
        n as u128
    }
}

/// The share of `matched` in `total`. Where there is nothing to share, the
/// share is the whole.
pub open spec fn ratio(matched: nat, total: nat) -> Score {
    if total == 0 {
        Score { matched: 1, total: 1 }
    } else {
        Score { matched: sat128(matched), total: sat128(total) }
    }
}

/// The overlap of two counter vectors: nothing if their lengths differ, the
/// whole if all counters are zero.
pub open spec fn pair_score(a: Seq<u64>, b: Seq<u64>) -> Score {
    if a.len() != b.len() {
        Score { matched: 0, total: 1 }
    } else {
        ratio(min_sum(a, b), max_sum(a, b))
    }
}

/// Whether an overlap looks at a record: it has a name and a hash, and it is
/// context-sensitive if and only if the overlap is.
pub open spec fn considered(r: NamedRecordModel, context_sensitive: bool) -> bool {
    r.usable() && r.has_cs_flag() == context_sensitive
}

/// For each record, the hash of its name if the overlap looks at it.
pub open spec fn overlap_keys(
    records: Seq<NamedRecordModel>,
    context_sensitive: bool,
    order: ByteOrder,
) -> Seq<Option<u64>> {
    Seq::new(
        records.len(),
        |i: int|
            if considered(records[i], context_sensitive) {
                Some(name_hash_spec(records[i].name.unwrap(), order))
            } else {
                None
            },
    )
}

/// Whether a function is listed: the largest counter of its record in the
/// test profile is not below the cutoff.
pub open spec fn listed(test_counts: Seq<u64>, value_cutoff: Option<u64>) -> bool {
    match value_cutoff {
        Some(c) => seq_max(test_counts) >= c,
        None => true,
    }
}

/// The overlap of one function.
#[derive(Debug, Clone, Copy, PartialEq, Eq, Hash)]
pub struct FunctionOverlap {
    /// The hash of the function's name.
    pub name_hash: u64,
    /// The position of the function's record in the base profile.
    pub base_index: usize,
    /// The position of the function's record in the test profile.
    pub test_index: usize,
    pub score: Score,
}

/// What an overlap has gathered.
pub struct OverlapState {
    pub functions: Seq<FunctionOverlap>,
    pub matched: nat,
    pub total: nat,
}

/// What an overlap has gathered after the record at `j` of the test profile.
/// The record counts if the overlap looks at it, if no earlier record of the
/// test profile has its name, and if the base profile has a record of that
/// name; it is held against the first such record.
pub open spec fn overlap_step(
    state: OverlapState,
    base: Seq<NamedRecordModel>,
    base_keys: Seq<Option<u64>>,
    test: Seq<NamedRecordModel>,
    test_keys: Seq<Option<u64>>,
    value_cutoff: Option<u64>,
    j: int,
) -> OverlapState {
    match test_keys[j] {
        None => state,
        Some(h) => {
            let i = first_index_of(base_keys, Some(h));
            if first_index_of(test_keys, Some(h)) != j || i < 0 {
                state
            } else {
                let a = base[i].record.counts;
                let b = test[j].record.counts;
                OverlapState {
                    functions: if listed(b, value_cutoff) {
                        state.functions.push(
                            FunctionOverlap {
                                name_hash: h,
                                base_index: i as usize,
                                test_index: j as usize,
                                score: pair_score(a, b),
                            },
                        )
                    } else {
                        state.functions
                    },
                    matched: state.matched + pair_sums(a, b).0,
                    total: state.total + pair_sums(a, b).1,
                }
            }
        },
    }
}

/// What an overlap has gathered after the first `k` records of the test
/// profile.
pub open spec fn overlap_fold(
    base: Seq<NamedRecordModel>,
    base_keys: Seq<Option<u64>>,
    test: Seq<NamedRecordModel>,
    test_keys: Seq<Option<u64>>,
    value_cutoff: Option<u64>,
    k: nat,
) -> OverlapState
    decreases k,
{
    if k == 0 {
        OverlapState { functions: Seq::empty(), matched: 0, total: 0 }
    } else {
        overlap_step(
            overlap_fold(base, base_keys, test, test_keys, value_cutoff, (k - 1) as nat),
            base,
            base_keys,
            test,
            test_keys,
            value_cutoff,
            k - 1,
        )
    }
}

/// The mathematical value of an `OverlapReport`.
pub struct OverlapModel {
    pub functions: Seq<FunctionOverlap>,
    pub global_score: Score,
}

/// The overlap of two profiles, with names hashed in the given byte order.
pub open spec fn overlap_spec(
    base: ProfileModel,
    test: ProfileModel,
    context_sensitive: bool,
    value_cutoff: Option<u64>,
    order: ByteOrder,
) -> OverlapModel {
    let state = overlap_fold(
        base.records,
        overlap_keys(base.records, context_sensitive, order),
        test.records,
        overlap_keys(test.records, context_sensitive, order),
        value_cutoff,
        test.records.len(),
    );
    OverlapModel { functions: state.functions, global_score: ratio(state.matched, state.total) }
}

/// The overlap of two profiles: the functions listed, in the order of the
/// test profile, and the overlap of all matched functions together.
#[derive(Debug, Clone, PartialEq, Eq)]
pub struct OverlapReport {
    pub functions: Vec<FunctionOverlap>,
    pub global_score: Score,
}

impl View for OverlapReport {
    type V = OverlapModel;

    open spec fn view(&self) -> OverlapModel {
        OverlapModel { functions: self.functions@, global_score: self.global_score }
    }
}

/// The sums of a pair of vectors of one length: the smaller counters sum to
/// no more than the larger, which sum to no more than fits in 128 bits.
pub proof fn lemma_pair_sums_bounds(a: Seq<u64>, b: Seq<u64>)
    requires
        a.len() == b.len(),
    ensures
        min_sum(a, b) <= max_sum(a, b) <= a.len() * 0xFFFF_FFFF_FFFF_FFFF,
    decreases a.len(),
{
    if a.len() > 0 {
        lemma_pair_sums_bounds(a.drop_last(), b.drop_last());
        assert((a.len() - 1) * 0xFFFF_FFFF_FFFF_FFFF + 0xFFFF_FFFF_FFFF_FFFF == a.len()
            * 0xFFFF_FFFF_FFFF_FFFF) by (nonlinear_arith);
    }
}

/// The sum of the counters of a vector fits in 128 bits.
pub proof fn lemma_counter_sum_bound(a: Seq<u64>)
    ensures
        counter_sum(a) <= a.len() * 0xFFFF_FFFF_FFFF_FFFF,
    decreases a.len(),
{
    if a.len() > 0 {
        lemma_counter_sum_bound(a.drop_last());
        assert((a.len() - 1) * 0xFFFF_FFFF_FFFF_FFFF + 0xFFFF_FFFF_FFFF_FFFF == a.len()
            * 0xFFFF_FFFF_FFFF_FFFF) by (nonlinear_arith);
    }
}

/// A vector overlaps with itself wholly.
pub proof fn lemma_self_overlap(a: Seq<u64>)
    ensures
        min_sum(a, a) == max_sum(a, a),
        pair_score(a, a).is_one(),
    decreases a.len(),
{
    if a.len() > 0 {
        lemma_self_overlap(a.drop_last());
    }
}

/// Two vectors that are not both above zero at any position share nothing.
pub proof fn lemma_disjoint_overlap(a: Seq<u64>, b: Seq<u64>)
    requires
        forall|c: int| 0 <= c < a.len() && 0 <= c < b.len() ==> a[c] == 0 || b[c] == 0,
    ensures
        pair_sums(a, b).0 == 0,
    decreases a.len(),
{
    if a.len() == b.len() && a.len() > 0 {
        let (x, y) = (a.drop_last(), b.drop_last());
        assert forall|c: int| 0 <= c < x.len() && 0 <= c < y.len() implies x[c] == 0 || y[c]
            == 0 by {
            assert(x[c] == a[c] && y[c] == b[c]);
        }
        lemma_disjoint_overlap(x, y);
        assert(a[a.len() - 1] == 0 || b[a.len() - 1] == 0);
    }
}

/// The share of a number in itself is the whole.
pub proof fn lemma_ratio_of_equal_is_one(m: nat)
    ensures
        ratio(m, m).is_one(),
{
}

/// What an overlap of a profile with itself has gathered after any number
/// of records: as much shared as there is.
proof fn lemma_overlap_fold_with_itself(
    records: Seq<NamedRecordModel>,
    keys: Seq<Option<u64>>,
    value_cutoff: Option<u64>,
    k: nat,
)
    requires
        k <= records.len(),
        keys.len() == records.len(),
    ensures
        ({
            let s = overlap_fold(records, keys, records, keys, value_cutoff, k);
            &&& s.matched == s.total
            &&& forall|f: int| 0 <= f < s.functions.len() ==> (#[trigger] s.functions[f]).score.is_one()
        }),
    decreases k,
{
    if k > 0 {
        lemma_overlap_fold_with_itself(records, keys, value_cutoff, (k - 1) as nat);
        let j = k - 1;
        match keys[j] {
            Some(h) => {
                if first_index_of(keys, Some(h)) == j {
                    lemma_self_overlap(records[j].record.counts);
                }
            },
            None => {},
        }
    }
}

/// A profile overlaps with itself wholly: the overlap of all its functions
/// together is the whole, and so is the overlap of each function listed.
pub proof fn lemma_overlap_with_itself(
    profile: ProfileModel,
    context_sensitive: bool,
    value_cutoff: Option<u64>,
    order: ByteOrder,
)
    ensures
        overlap_spec(profile, profile, context_sensitive, value_cutoff, order).global_score.is_one(),
        forall|f: int|
            0 <= f < overlap_spec(
                profile,
                profile,
                context_sensitive,
                value_cutoff,
                order,
            ).functions.len() ==> (#[trigger] overlap_spec(
                profile,
                profile,
                context_sensitive,
                value_cutoff,
                order,
            ).functions[f]).score.is_one(),
{
    let keys = overlap_keys(profile.records, context_sensitive, order);
    lemma_overlap_fold_with_itself(profile.records, keys, value_cutoff, profile.records.len());
}

/// Whether two counter vectors are above zero together at no position.
pub open spec fn no_shared_counter(a: Seq<u64>, b: Seq<u64>) -> bool {
    forall|c: int| 0 <= c < a.len() && 0 <= c < b.len() ==> a[c] == 0 || b[c] == 0
}

/// Whether two profiles have no counter in common: no two records of one
/// name that an overlap looks at are above zero together at any position.
pub open spec fn disjoint_support(
    base: ProfileModel,
    test: ProfileModel,
    context_sensitive: bool,
    order: ByteOrder,
) -> bool {
    let base_keys = overlap_keys(base.records, context_sensitive, order);
    let test_keys = overlap_keys(test.records, context_sensitive, order);
    forall|i: int, j: int|
        0 <= i < base.records.len() && 0 <= j < test.records.len() && (#[trigger] base_keys[i])
            is Some && base_keys[i] == #[trigger] test_keys[j] ==> no_shared_counter(
            base.records[i].record.counts,
            test.records[j].record.counts,
        )
}

/// What an overlap of two profiles without a counter in common has gathered
/// after any number of records: nothing shared.
proof fn lemma_overlap_fold_disjoint(
    base: ProfileModel,
    test: ProfileModel,
    context_sensitive: bool,
    value_cutoff: Option<u64>,
    order: ByteOrder,
    k: nat,
)
    requires
        disjoint_support(base, test, context_sensitive, order),
        k <= test.records.len(),
    ensures
        overlap_fold(
            base.records,
            overlap_keys(base.records, context_sensitive, order),
            test.records,
            overlap_keys(test.records, context_sensitive, order),
            value_cutoff,
            k,
        ).matched == 0,
    decreases k,
{
    if k > 0 {
        lemma_overlap_fold_disjoint(
            base,
            test,
            context_sensitive,
            value_cutoff,
            order,
            (k - 1) as nat,
        );
        let base_keys = overlap_keys(base.records, context_sensitive, order);
        let test_keys = overlap_keys(test.records, context_sensitive, order);
        let j = k - 1;
        match test_keys[j] {
            Some(h) => {
                let i = first_index_of(base_keys, Some(h));
                lemma_first_index_of(base_keys, Some(h));
                if i >= 0 {
                    assert(base_keys[i] is Some && base_keys[i] == test_keys[j]);
                    lemma_disjoint_overlap(
                        base.records[i].record.counts,
                        test.records[j].record.counts,
                    );
                }
            },
            None => {},
        }
    }
}

/// Two profiles that have no counter in common share nothing: the sum of
/// the smaller counters is zero, so the overlap of all matched functions
/// together is nothing, unless all their counters are zero and the overlap
/// is the whole by definition.
pub proof fn lemma_overlap_of_disjoint_profiles(
    base: ProfileModel,
    test: ProfileModel,
    context_sensitive: bool,
    value_cutoff: Option<u64>,
    order: ByteOrder,
)
    requires
        disjoint_support(base, test, context_sensitive, order),
    ensures
        ({
            let state = overlap_fold(
                base.records,
                overlap_keys(base.records, context_sensitive, order),
                test.records,
                overlap_keys(test.records, context_sensitive, order),
                value_cutoff,
                test.records.len(),
            );
            let report = overlap_spec(base, test, context_sensitive, value_cutoff, order);
            &&& state.matched == 0
            &&& state.total > 0 ==> report.global_score.is_zero()
            &&& state.total == 0 ==> report.global_score.is_one()
        }),
{
    lemma_overlap_fold_disjoint(
        base,
        test,
        context_sensitive,
        value_cutoff,
        order,
        test.records.len(),
    );
}

/// The hash of a record's name, if the overlap looks at the record.
fn overlap_keys_of(records: &Vec<NamedInstrProfRecord>, context_sensitive: bool, order: ByteOrder) -> (keys:
    Vec<Option<u64>>)
    ensures
        keys@ == overlap_keys(records_model(records@), context_sensitive, order),
{
    let mut keys: Vec<Option<u64>> = Vec::new();
    let mut i: usize = 0;
    while i < records.len()
        invariant
            i <= records@.len(),
            keys@.len() == i,
            forall|k: int|
                0 <= k < i ==> #[trigger] keys@[k] == overlap_keys(
                    records_model(records@),
                    context_sensitive,
                    order,
                )[k],
        decreases records@.len() - i,
    {
        let r: &NamedInstrProfRecord = &records[i];
        let key: Option<u64> = match &r.name {
            Some(name) => if r.hash.is_some() && r.has_cs_flag() == context_sensitive {
                Some(name_hash(name.as_str(), order))
            } else {
                None
            },
            None => None,
        };
        keys.push(key);
        i = i + 1;
    }
    proof {
        assert(keys@ =~= overlap_keys(records_model(records@), context_sensitive, order));
    }
    keys
}

/// Whether a table holds, for each hash, the first position at which the
/// hash stands among the keys.
spec fn is_first_index_table(table: Map<u64, usize>, keys: Seq<Option<u64>>) -> bool {
    forall|h: u64|
        #![trigger table.contains_key(h)]
        #![trigger first_index_of(keys, Some(h))]
        {
            &&& table.contains_key(h) <==> first_index_of(keys, Some(h)) >= 0
            &&& table.contains_key(h) ==> table[h] == first_index_of(keys, Some(h))
        }
}

/// A table of the first position of each hash among the keys.
fn first_indices(keys: &Vec<Option<u64>>) -> (table: BTreeMap<u64, usize>)
    ensures
        is_first_index_table(table@, keys@),
{
    let mut table: BTreeMap<u64, usize> = BTreeMap::new();
    let mut k: usize = 0;
    proof {
        assert(keys@.take(0) =~= Seq::<Option<u64>>::empty());
    }
    while k < keys.len()
        invariant
            k <= keys@.len(),
            is_first_index_table(table@, keys@.take(k as int)),
        decreases keys@.len() - k,
    {
        let ghost before = table@;
        let ghost seen = keys@.take(k as int);
        proof {
            assert(keys@.take(k + 1).drop_last() =~= seen);
            assert(keys@.take(k + 1).last() == keys@[k as int]);
        }
        match keys[k] {
            Some(h) => {
                if !table.contains_key(&h) {
                    table.insert(h, k);
                }
            },
            None => {},
        }
        proof {
            let next = keys@.take(k + 1);
            assert forall|h: u64|
                #![trigger table@.contains_key(h)]
                #![trigger first_index_of(next, Some(h))]
                {
                    &&& table@.contains_key(h) <==> first_index_of(next, Some(h)) >= 0
                    &&& table@.contains_key(h) ==> table@[h] == first_index_of(next, Some(h))
                } by {
                assert(before.contains_key(h) <==> first_index_of(seen, Some(h)) >= 0);
                assert(before.contains_key(h) ==> before[h] == first_index_of(seen, Some(h)));
            }
        }
        k = k + 1;
    }
    proof {
        assert(keys@.take(k as int) =~= keys@);
    }
    table
}

/// The sum of the counters of a vector.
fn counter_sum_of(a: &Vec<u64>) -> (sum: u128)
    ensures
        sum == counter_sum(a@),
{
    let mut sum: u128 = 0;
    let mut i: usize = 0;
    proof {
        assert(a@.take(0) =~= Seq::<u64>::empty());
    }
    while i < a.len()
        invariant
            i <= a@.len(),
            sum == counter_sum(a@.take(i as int)),
        decreases a@.len() - i,
    {
        proof {
            assert(a@.take(i + 1).drop_last() =~= a@.take(i as int));
            lemma_counter_sum_bound(a@.take(i + 1));
            assert((i + 1) * 0xFFFF_FFFF_FFFF_FFFF <= 0xFFFF_FFFF_FFFF_FFFF * 0xFFFF_FFFF_FFFF_FFFF)
                by (nonlinear_arith)
                requires
                    i + 1 <= 0xFFFF_FFFF_FFFF_FFFF,
            ;
        }
        sum = sum + a[i] as u128;
        i = i + 1;
    }
    proof {
        assert(a@.take(i as int) =~= a@);
    }
    sum
}

/// What a pair of counter vectors adds to the two sums of an overlap, each
/// held at the largest value of 128 bits.
fn pair_sums_of(a: &Vec<u64>, b: &Vec<u64>) -> (sums: (u128, u128))
    ensures
        sums.0 == sat128(pair_sums(a@, b@).0),
        sums.1 == sat128(pair_sums(a@, b@).1),
        a@.len() == b@.len() ==> sums.0 == min_sum(a@, b@) && sums.1 == max_sum(a@, b@),
{
    if a.len() != b.len() {
        let x: u128 = counter_sum_of(a);
        let y: u128 = counter_sum_of(b);
        return (0, x.saturating_add(y));
    }
    let mut low: u128 = 0;
    let mut high: u128 = 0;
    let mut i: usize = 0;
    proof {
        assert(a@.take(0) =~= Seq::<u64>::empty());
        assert(b@.take(0) =~= Seq::<u64>::empty());
    }
    while i < a.len()
        invariant
            i <= a@.len(),
            a@.len() == b@.len(),
            low == min_sum(a@.take(i as int), b@.take(i as int)),
            high == max_sum(a@.take(i as int), b@.take(i as int)),
        decreases a@.len() - i,
    {
        let x: u64 = a[i];
        let y: u64 = b[i];
        proof {
            assert(a@.take(i + 1).drop_last() =~= a@.take(i as int));
            assert(b@.take(i + 1).drop_last() =~= b@.take(i as int));
            lemma_pair_sums_bounds(a@.take(i + 1), b@.take(i + 1));
            assert((i + 1) * 0xFFFF_FFFF_FFFF_FFFF <= 0xFFFF_FFFF_FFFF_FFFF * 0xFFFF_FFFF_FFFF_FFFF)
                by (nonlinear_arith)
                requires
                    i + 1 <= 0xFFFF_FFFF_FFFF_FFFF,
            ;
        }
        if x <= y {
            low = low + x as u128;
            high = high + y as u128;
        } else {
            low = low + y as u128;
            high = high + x as u128;
        }
        i = i + 1;
    }
    proof {
        assert(a@.take(i as int) =~= a@);
        assert(b@.take(i as int) =~= b@);
    }
    (low, high)
}

/// The share of `matched` in `total`.
fn ratio_of(matched: u128, total: u128, Ghost(m): Ghost<nat>, Ghost(t): Ghost<nat>) -> (score: Score)
    requires
        matched == sat128(m),
        total == sat128(t),
    ensures
        score == ratio(m, t),
{
    if total == 0 {
        Score { matched: 1, total: 1 }
    } else {
        Score { matched, total }
    }
}

/// The largest counter of a vector, zero if it has none.
pub fn max_count_of(counts: &Vec<u64>) -> (m: u64)
    ensures
        m == seq_max(counts@),
{
    let mut m: u64 = 0;
    let mut i: usize = 0;
    proof {
        assert(counts@.take(0) =~= Seq::<u64>::empty());
    }
    while i < counts.len()
        invariant
            i <= counts@.len(),
            m == seq_max(counts@.take(i as int)),
        decreases counts@.len() - i,
    {
        proof {
            assert(counts@.take(i + 1).drop_last() =~= counts@.take(i as int));
        }
        if counts[i] > m {
            m = counts[i];
        }
        i = i + 1;
    }
    proof {
        assert(counts@.take(i as int) =~= counts@);
    }
    m
}

/// The overlap of two profiles, with names hashed in the given byte order.
pub fn overlap_in(
    base: &InstrumentationProfile,
    test: &InstrumentationProfile,
    context_sensitive: bool,
    value_cutoff: Option<u64>,
    order: ByteOrder,
) -> (report: OverlapReport)
    ensures
        report@ == overlap_spec(base@, test@, context_sensitive, value_cutoff, order),
{
    let base_keys: Vec<Option<u64>> = overlap_keys_of(&base.records, context_sensitive, order);
    let test_keys: Vec<Option<u64>> = overlap_keys_of(&test.records, context_sensitive, order);
    let base_first: BTreeMap<u64, usize> = first_indices(&base_keys);
    let test_first: BTreeMap<u64, usize> = first_indices(&test_keys);
    let ghost bm = base@.records;
    let ghost tm = test@.records;
    let mut functions: Vec<FunctionOverlap> = Vec::new();
    let mut matched: u128 = 0;
    let mut total: u128 = 0;
    let n: usize = test.records.len();
    let mut j: usize = 0;
    while j < n
        invariant
            j <= n,
            n == test.records@.len(),
            n == test_keys@.len(),
            bm == base@.records,
            tm == test@.records,
            bm.len() == base.records@.len(),
            base_keys@ == overlap_keys(bm, context_sensitive, order),
            test_keys@ == overlap_keys(tm, context_sensitive, order),
            is_first_index_table(base_first@, base_keys@),
            is_first_index_table(test_first@, test_keys@),
            functions@ == overlap_fold(
                bm,
                base_keys@,
                tm,
                test_keys@,
                value_cutoff,
                j as nat,
            ).functions,
            matched == sat128(
                overlap_fold(bm, base_keys@, tm, test_keys@, value_cutoff, j as nat).matched,
            ),
            total == sat128(
                overlap_fold(bm, base_keys@, tm, test_keys@, value_cutoff, j as nat).total,
            ),
        decreases n - j,
    {
        let ghost before = overlap_fold(bm, base_keys@, tm, test_keys@, value_cutoff, j as nat);
        match test_keys[j] {
            Some(h) => {
                proof {
                    lemma_first_index_of(base_keys@, Some(h));
                    assert(test_first@.contains_key(h) <==> first_index_of(test_keys@, Some(h))
                        >= 0);
                    assert(base_first@.contains_key(h) <==> first_index_of(base_keys@, Some(h))
                        >= 0);
                }
                let first_here: bool = match test_first.get(&h) {
                    Some(f) => *f == j,
                    None => false,
                };
                if first_here {
                    match base_first.get(&h) {
                        Some(found) => {
                            let i: usize = *found;
                            let a: &Vec<u64> = &base.records[i].record.counts;
                            let b: &Vec<u64> = &test.records[j].record.counts;
                            proof {
                                assert(bm[i as int].record.counts == a@);
                                assert(tm[j as int].record.counts == b@);
                            }
                            let (low, high) = pair_sums_of(a, b);
                            let is_listed: bool = match value_cutoff {
                                Some(c) => max_count_of(b) >= c,
                                None => true,
                            };
                            if is_listed {
                                let score: Score = if a.len() != b.len() {
                                    Score { matched: 0, total: 1 }
                                } else {
                                    proof {
                                        lemma_pair_sums_bounds(a@, b@);
                                        assert(a@.len() * 0xFFFF_FFFF_FFFF_FFFF
                                            <= 0xFFFF_FFFF_FFFF_FFFF * 0xFFFF_FFFF_FFFF_FFFF)
                                            by (nonlinear_arith)
                                            requires
                                                a@.len() <= 0xFFFF_FFFF_FFFF_FFFF,
                                        ;
                                    }
                                    ratio_of(low, high, Ghost(min_sum(a@, b@)), Ghost(max_sum(a@, b@)))
                                };
                                functions.push(
                                    FunctionOverlap {
                                        name_hash: h,
                                        base_index: i,
                                        test_index: j,
                                        score,
                                    },
                                );
                            }
                            matched = matched.saturating_add(low);
                            total = total.saturating_add(high);
                        },
                        None => {},
                    }
                }
            },
            None => {},
        }
        j = j + 1;
    }
    let ghost end = overlap_fold(bm, base_keys@, tm, test_keys@, value_cutoff, n as nat);
    let global_score: Score = ratio_of(matched, total, Ghost(end.matched), Ghost(end.total));
    OverlapReport { functions, global_score }
}

/// The overlap of two profiles, with names hashed in the byte order of this
/// machine.
pub fn overlap(
    base: &InstrumentationProfile,
    test: &InstrumentationProfile,
    context_sensitive: bool,
    value_cutoff: Option<u64>,
) -> (report: OverlapReport)
    ensures
        exists|order: ByteOrder|
            report@ == #[trigger] overlap_spec(base@, test@, context_sensitive, value_cutoff, order),
{
    overlap_in(base, test, context_sensitive, value_cutoff, ByteOrder::native())
}

} // verus!
