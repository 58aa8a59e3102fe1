//! Aggregate statistics over the records of a profile: how many functions it
//! has, the largest function count, the largest internal block count, and the
//! counter values at which the hottest share of the count mass begins.

use super::hashing::{name_hash, name_hash_spec, ByteOrder};
use super::percentile::{cutoff_table, is_cutoff_entry, CutoffEntry};
use super::ranking::{ranked, sort_ranked, Ranked};
use super::types::{
    InstrProfRecord, InstrumentationLevel, InstrumentationProfile, NamedInstrProfRecord,
    NamedRecordModel, ProfileModel, RecordModel,
};
use vstd::prelude::*;

verus! {

/// The function count of a record: its first counter, or zero when it has
/// none.
pub open spec fn function_count(r: RecordModel) -> u64 {
    if r.counts.len() > 0 {
        r.counts[0]
    } else {
        0
    }
}

/// The internal block counts of a record. In a front-end profile the first
/// counter is the function's entry count and the blocks follow it; in an
/// IR-level profile every counter is a block count.
pub open spec fn internal_counts(r: RecordModel, is_ir: bool) -> Seq<u64> {
    if is_ir || r.counts.len() == 0 {
        r.counts
    } else {
        r.counts.subrange(1, r.counts.len() as int)
    }
}

/// The larger of two counters.
pub open spec fn max_u64(a: u64, b: u64) -> u64 {
    if a >= b {
        a
    } else {
        b
    }
}

/// The largest value of a sequence, zero for the empty one.
pub open spec fn seq_max(s: Seq<u64>) -> u64
    decreases s.len(),
{
    if s.len() == 0 {
        0
    } else {
        max_u64(seq_max(s.drop_last()), s.last())
    }
}

/// `seq_max(s)` bounds every value of `s`, and is one of them unless it is
/// zero.
pub proof fn lemma_seq_max_is_max(s: Seq<u64>)
    ensures
        forall|i: int| 0 <= i < s.len() ==> #[trigger] s[i] <= seq_max(s),
        seq_max(s) == 0 || s.contains(seq_max(s)),
    decreases s.len(),
{
    if s.len() > 0 {
        let rest = s.drop_last();
        lemma_seq_max_is_max(rest);
        assert forall|i: int| 0 <= i < s.len() implies #[trigger] s[i] <= seq_max(s) by {
            if i < rest.len() {
                assert(rest[i] == s[i]);
            }
        }
        if seq_max(s) != 0 {
            if seq_max(s) == s.last() {
                assert(s[s.len() - 1] == seq_max(s));
            } else {
                let k = choose|k: int| 0 <= k < rest.len() && rest[k] == seq_max(rest);
                assert(s[k] == seq_max(s));
            }
        }
    }
}

/// The largest value of a concatenation is the larger of the two largest
/// values.
pub proof fn lemma_seq_max_concat(a: Seq<u64>, b: Seq<u64>)
    ensures
        seq_max(a + b) == max_u64(seq_max(a), seq_max(b)),
    decreases b.len(),
{
    if b.len() == 0 {
        assert(a + b =~= a);
    } else {
        assert((a + b).drop_last() =~= a + b.drop_last());
        lemma_seq_max_concat(a, b.drop_last());
    }
}

/// The statistics of a set of records.
pub struct SummaryModel {
    pub is_ir: bool,
    pub num_functions: nat,
    pub max_function_count: u64,
    pub max_internal_block_count: u64,
    /// Every internal block count, in the order in which the records came.
    pub block_counts: Seq<u64>,
}

impl SummaryModel {
    /// The statistics of no record.
    pub open spec fn empty(is_ir: bool) -> SummaryModel {
        SummaryModel {
            is_ir,
            num_functions: 0,
            max_function_count: 0,
            max_internal_block_count: 0,
            block_counts: Seq::empty(),
        }
    }

    /// The statistics after one more record.
    pub open spec fn add(self, r: RecordModel) -> SummaryModel {
        SummaryModel {
            is_ir: self.is_ir,
            num_functions: self.num_functions + 1,
            max_function_count: max_u64(self.max_function_count, function_count(r)),
            max_internal_block_count: max_u64(
                self.max_internal_block_count,
                seq_max(internal_counts(r, self.is_ir)),
            ),
            block_counts: self.block_counts + internal_counts(r, self.is_ir),
        }
    }
}

/// The statistics of the usable records of a sequence: those that have both a
/// name and a hash.
pub open spec fn summarize_records(records: Seq<NamedRecordModel>, is_ir: bool) -> SummaryModel
    decreases records.len(),
{
    if records.len() == 0 {
        SummaryModel::empty(is_ir)
    } else {
        let before = summarize_records(records.drop_last(), is_ir);
        if records.last().usable() {
            before.add(records.last().record)
        } else {
            before
        }
    }
}

/// The number of usable records of a sequence.
pub open spec fn usable_count(records: Seq<NamedRecordModel>) -> nat {
    records.filter(|r: NamedRecordModel| r.usable()).len()
}

/// What the statistics of a sequence of records say of each record: the
/// number of functions is the number of usable records; the largest function
/// count bounds the function count of every usable record and is one of
/// them, unless it is zero; likewise the largest internal block count, which
/// is also the largest of the block counts that were collected.
pub proof fn lemma_summary_of_records(records: Seq<NamedRecordModel>, is_ir: bool)
    ensures
        ({
            let s = summarize_records(records, is_ir);
            &&& s.is_ir == is_ir
            &&& s.num_functions == usable_count(records)
            &&& s.max_internal_block_count == seq_max(s.block_counts)
            &&& forall|i: int|
                0 <= i < records.len() && (#[trigger] records[i]).usable() ==> function_count(
                    records[i].record,
                ) <= s.max_function_count
            &&& (s.max_function_count == 0 || exists|i: int|
                0 <= i < records.len() && (#[trigger] records[i]).usable() && function_count(
                    records[i].record,
                ) == s.max_function_count)
            &&& forall|i: int, j: int|
                0 <= i < records.len() && (#[trigger] records[i]).usable() && 0 <= j
                    < internal_counts(records[i].record, is_ir).len() ==> #[trigger] internal_counts(
                    records[i].record,
                    is_ir,
                )[j] <= s.max_internal_block_count
        }),
    decreases records.len(),
{
    let s = summarize_records(records, is_ir);
    let usable = |r: NamedRecordModel| r.usable();
    if records.len() == 0 {
        assert(records.filter(usable) =~= Seq::<NamedRecordModel>::empty()) by {
            reveal(Seq::filter);
        }
    } else {
        let rest = records.drop_last();
        let last = records.last();
        let before = summarize_records(rest, is_ir);
        lemma_summary_of_records(rest, is_ir);
        assert(records.filter(usable) == if usable(last) {
            rest.filter(usable).push(last)
        } else {
            rest.filter(usable)
        }) by {
            reveal(Seq::filter);
        }
        assert forall|i: int| 0 <= i < rest.len() implies rest[i] == records[i] by {}
        if last.usable() {
            let own = internal_counts(last.record, is_ir);
            lemma_seq_max_concat(before.block_counts, own);
            lemma_seq_max_is_max(own);
        }
        assert forall|i: int|
            0 <= i < records.len() && (#[trigger] records[i]).usable() implies function_count(
            records[i].record,
        ) <= s.max_function_count by {
            if i < rest.len() {
                assert(rest[i].usable());
            }
        }
        if s.max_function_count != 0 {
            if last.usable() && function_count(last.record) == s.max_function_count {
                assert(records[records.len() - 1].usable());
            } else {
                let k = choose|k: int|
                    0 <= k < rest.len() && (#[trigger] rest[k]).usable() && function_count(
                        rest[k].record,
                    ) == before.max_function_count;
                assert(records[k].usable());
            }
        }
        assert forall|i: int, j: int|
            0 <= i < records.len() && (#[trigger] records[i]).usable() && 0 <= j < internal_counts(
                records[i].record,
                is_ir,
            ).len() implies #[trigger] internal_counts(records[i].record, is_ir)[j]
            <= s.max_internal_block_count by {
            if i < rest.len() {
                assert(rest[i].usable());
                assert(internal_counts(rest[i].record, is_ir)[j]
                    <= before.max_internal_block_count);
            }
        }
    }
}

/// An accumulator of the statistics of the records handed to it.
pub struct ProfileSummary {
    is_ir: bool,
    num_functions: usize,
    max_function_count: u64,
    max_internal_block_count: u64,
    block_counts: Vec<u64>,
}

impl View for ProfileSummary {
    type V = SummaryModel;

    closed spec fn view(&self) -> SummaryModel {
        SummaryModel {
            is_ir: self.is_ir,
            num_functions: self.num_functions as nat,
            max_function_count: self.max_function_count,
            max_internal_block_count: self.max_internal_block_count,
            block_counts: self.block_counts@,
        }
    }
}

impl ProfileSummary {
    /// An accumulator that has seen no record, for profiles of one level.
    pub fn new(level: InstrumentationLevel) -> (s: Self)
        ensures
            s@ == SummaryModel::empty(level == InstrumentationLevel::Ir),
    {
        let is_ir: bool = match level {
            InstrumentationLevel::Ir => true,
            InstrumentationLevel::FrontEnd => false,
        };
        ProfileSummary {
            is_ir,
            num_functions: 0,
            max_function_count: 0,
            max_internal_block_count: 0,
            block_counts: Vec::new(),
        }
    }

    /// Takes the counters of one more function into the statistics.
    pub fn add_record(&mut self, record: &InstrProfRecord)
        requires
            old(self)@.num_functions < usize::MAX,
        ensures
            final(self)@ == old(self)@.add(record@),
    {
        let n: usize = record.counts.len();
        let start: usize = if self.is_ir || n == 0 {
            0
        } else {
            1
        };
        if n > 0 && record.counts[0] > self.max_function_count {
            self.max_function_count = record.counts[0];
        }
        self.num_functions = self.num_functions + 1;
        let ghost own = internal_counts(record@, self.is_ir);
        let ghost blocks_before = self.block_counts@;
        let mut largest: u64 = 0;
        let mut i: usize = start;
        proof {
            assert(own =~= record.counts@.subrange(start as int, n as int));
            assert(record.counts@.subrange(start as int, i as int) =~= Seq::<u64>::empty());
        }
        while i < n
            invariant
                start <= i <= n,
                n == record.counts@.len(),
                largest == seq_max(record.counts@.subrange(start as int, i as int)),
                self.block_counts@ == blocks_before + record.counts@.subrange(
                    start as int,
                    i as int,
                ),
                self.is_ir == old(self).is_ir,
                self.num_functions == old(self).num_functions + 1,
                self.max_function_count == max_u64(
                    old(self).max_function_count,
                    function_count(record@),
                ),
                self.max_internal_block_count == old(self).max_internal_block_count,
            decreases n - i,
        {
            let c: u64 = record.counts[i];
            proof {
                let next = record.counts@.subrange(start as int, i + 1);
                assert(next.drop_last() =~= record.counts@.subrange(start as int, i as int));
                assert(next.last() == c);
                assert(blocks_before + next =~= (blocks_before + record.counts@.subrange(
                    start as int,
                    i as int,
                )).push(c));
            }
            if c > largest {
                largest = c;
            }
            self.block_counts.push(c);
            i = i + 1;
        }
        if largest > self.max_internal_block_count {
            self.max_internal_block_count = largest;
        }
        proof {
            assert(self@.block_counts =~= old(self)@.add(record@).block_counts);
        }
    }

    /// The number of functions seen.
    pub fn num_functions(&self) -> (n: usize)
        ensures
            n == self@.num_functions,
    {
        self.num_functions
    }

    /// The largest function count seen.
    pub fn max_function_count(&self) -> (m: u64)
        ensures
            m == self@.max_function_count,
    {
        self.max_function_count
    }

    /// The largest internal block count seen.
    pub fn max_internal_block_count(&self) -> (m: u64)
        ensures
            m == self@.max_internal_block_count,
    {
        self.max_internal_block_count
    }

    /// The internal block counts seen, in the order in which they came.
    pub fn block_counts(&self) -> (counts: &Vec<u64>)
        ensures
            counts@ == self@.block_counts,
    {
        &self.block_counts
    }
}

/// A function whose count is above the threshold of the hot list.
#[derive(Debug, Clone, Copy, PartialEq, Eq, Hash)]
pub struct HotFunction {
    /// The hash of the function's name.
    pub name_hash: u64,
    pub function_count: u64,
}

/// Hot functions rank from the largest count to the smallest; among equal
/// counts, from the smallest name hash to the largest.
impl Ranked for HotFunction {
    open spec fn precedes(self, other: Self) -> bool {
        self.function_count > other.function_count || (self.function_count
            == other.function_count && self.name_hash <= other.name_hash)
    }

    proof fn lemma_total(a: Self, b: Self) {
    }

    proof fn lemma_transitive(a: Self, b: Self, c: Self) {
    }

    proof fn lemma_antisymmetric(a: Self, b: Self) {
    }

    fn comes_before(&self, other: &Self) -> (r: bool) {
        self.function_count > other.function_count || (self.function_count
            == other.function_count && self.name_hash <= other.name_hash)
    }
}

/// The usable records whose function count is above the threshold, in the
/// order of the records.
pub open spec fn hot_candidates(
    records: Seq<NamedRecordModel>,
    threshold: u64,
    order: ByteOrder,
) -> Seq<HotFunction>
    decreases records.len(),
{
    if records.len() == 0 {
        Seq::empty()
    } else {
        let before = hot_candidates(records.drop_last(), threshold, order);
        let r = records.last();
        if r.usable() && function_count(r.record) > threshold {
            before.push(
                HotFunction {
                    name_hash: name_hash_spec(r.name.unwrap(), order),
                    function_count: function_count(r.record),
                },
            )
        } else {
            before
        }
    }
}

/// The statistics of a profile.
#[derive(Debug, Clone, PartialEq, Eq)]
pub struct Summary {
    /// The number of usable records.
    pub num_functions: usize,
    pub max_function_count: u64,
    pub max_internal_block_count: u64,
    /// One line for each cutoff that was asked for.
    pub detailed_summary: Vec<CutoffEntry>,
    /// The hot functions in rank order, if a threshold was given.
    pub hot_functions: Option<Vec<HotFunction>>,
}

/// Whether `s` holds the statistics of a profile, for the cutoffs and the
/// threshold asked for, with names hashed in the given byte order.
pub open spec fn is_summary_of(
    s: Summary,
    profile: ProfileModel,
    cutoffs: Seq<u32>,
    hot_threshold: Option<u64>,
    order: ByteOrder,
) -> bool {
    let m = summarize_records(profile.records, profile.is_ir);
    &&& s.num_functions == usable_count(profile.records)
    &&& s.max_function_count == m.max_function_count
    &&& s.max_internal_block_count == m.max_internal_block_count
    &&& forall|i: int|
        0 <= i < profile.records.len() && (#[trigger] profile.records[i]).usable()
            ==> function_count(profile.records[i].record) <= s.max_function_count
    &&& forall|i: int, j: int|
        0 <= i < profile.records.len() && (#[trigger] profile.records[i]).usable() && 0 <= j
            < internal_counts(profile.records[i].record, profile.is_ir).len()
            ==> #[trigger] internal_counts(profile.records[i].record, profile.is_ir)[j]
            <= s.max_internal_block_count
    &&& s.detailed_summary@.len() == cutoffs.len()
    &&& forall|k: int|
        0 <= k < cutoffs.len() ==> is_cutoff_entry(
            m.block_counts,
            cutoffs[k],
            #[trigger] s.detailed_summary@[k],
        )
    &&& match hot_threshold {
        Some(t) => s.hot_functions is Some && s.hot_functions.unwrap()@ == ranked(
            hot_candidates(profile.records, t, order),
        ),
        None => s.hot_functions is None,
    }
}

/// The function count of a record.
pub fn function_count_of(record: &InstrProfRecord) -> (c: u64)
    ensures
        c == function_count(record@),
{
    if record.counts.len() > 0 {
        record.counts[0]
    } else {
        0
    }
}

/// Whether a record has both a name and a hash.
pub fn is_usable(record: &NamedInstrProfRecord) -> (b: bool)
    ensures
        b == record@.usable(),
{
    record.name.is_some() && record.hash.is_some()
}

/// The statistics of a profile, with names hashed in the given byte order.
pub fn summarize_in(
    profile: &InstrumentationProfile,
    cutoffs: &[u32],
    hot_threshold: Option<u64>,
    order: ByteOrder,
) -> (s: Summary)
    ensures
        is_summary_of(s, profile@, cutoffs@, hot_threshold, order),
{
    let ghost records = profile@.records;
    let ghost is_ir = profile@.is_ir;
    let mut acc: ProfileSummary = ProfileSummary::new(profile.get_level());
    let mut hot: Vec<HotFunction> = Vec::new();
    let n: usize = profile.records.len();
    let mut i: usize = 0;
    proof {
        assert(records.take(0) =~= Seq::<NamedRecordModel>::empty());
    }
    while i < n
        invariant
            i <= n,
            n == profile.records@.len(),
            records == profile@.records,
            is_ir == profile@.is_ir,
            acc@ == summarize_records(records.take(i as int), is_ir),
            acc@.num_functions <= i,
            match hot_threshold {
                Some(t) => hot@ == hot_candidates(records.take(i as int), t, order),
                None => true,
            },
        decreases n - i,
    {
        let r: &NamedInstrProfRecord = &profile.records[i];
        proof {
            assert(records.take(i + 1).drop_last() =~= records.take(i as int));
            assert(records.take(i + 1).last() == r@);
        }
        if is_usable(r) {
            acc.add_record(&r.record);
            match hot_threshold {
                Some(t) => {
                    let count: u64 = function_count_of(&r.record);
                    if count > t {
                        match &r.name {
                            Some(name) => {
                                hot.push(
                                    HotFunction {
                                        name_hash: name_hash(name.as_str(), order),
                                        function_count: count,
                                    },
                                );
                            },
                            None => {},
                        }
                    }
                },
                None => {},
            }
        }
        i = i + 1;
    }
    proof {
        assert(records.take(n as int) =~= records);
        lemma_summary_of_records(records, is_ir);
    }
    let detailed_summary: Vec<CutoffEntry> = cutoff_table(acc.block_counts(), cutoffs);
    let hot_functions: Option<Vec<HotFunction>> = match hot_threshold {
        Some(_) => Some(sort_ranked(&hot)),
        None => None,
    };
    Summary {
        num_functions: acc.num_functions(),
        max_function_count: acc.max_function_count(),
        max_internal_block_count: acc.max_internal_block_count(),
        detailed_summary,
        hot_functions,
    }
}

/// The statistics of a profile, with names hashed in the byte order of this
/// machine.
pub fn summarize(profile: &InstrumentationProfile, cutoffs: &[u32], hot_threshold: Option<u64>) -> (s:
    Summary)
    ensures
        exists|order: ByteOrder| #[trigger] is_summary_of(s, profile@, cutoffs@, hot_threshold, order),
{
    summarize_in(profile, cutoffs, hot_threshold, ByteOrder::native())
}

} // verus!
