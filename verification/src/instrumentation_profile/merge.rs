//! Merging profiles: the records of every input, matched by the hash of the
//! function's name and the structural hash, with the counters of matched
//! records added up position by position.

use super::hashing::{name_hash, name_hash_spec, ByteOrder};
use super::types::{
    names_model, records_model, sites_model, InstrProfRecord, InstrProfValueData, InstrProfValueSiteRecord,
    InstrumentationProfile, NamedInstrProfRecord, NamedRecordModel, ProfileModel, RecordModel,
    Symtab, ValueKind, ValueProfDataRecord, ValueProfModel,
};
use super::value_sites::{
    first_index_of, lemma_first_index_of, merge_site, merge_value_site, samples_saturate, sat_add,
};
use std::collections::BTreeMap;
use vstd::prelude::*;

verus! {

/// Why profiles could not be merged.
#[derive(Debug, Clone, PartialEq, Eq)]
pub enum MergeError {
    /// Front-end profiles and IR-level profiles were given together.
    IncompatibleLevels,
    /// Two records of one function differ in the number of their counters.
    CounterCountMismatch { name: String, hash: u64 },
    /// Two records of one function differ in the number of their value sites.
    ValueSiteCountMismatch { name: String, hash: u64 },
}

/// The mathematical value of a `MergeError`.
pub enum MergeErrorModel {
    IncompatibleLevels,
    CounterCountMismatch { name: Seq<char>, hash: u64 },
    ValueSiteCountMismatch { name: Seq<char>, hash: u64 },
}

impl View for MergeError {
    type V = MergeErrorModel;

    open spec fn view(&self) -> MergeErrorModel {
        match self {
            MergeError::IncompatibleLevels => MergeErrorModel::IncompatibleLevels,
            MergeError::CounterCountMismatch { name, hash } => MergeErrorModel::CounterCountMismatch {
                name: name@,
                hash: *hash,
            },
            MergeError::ValueSiteCountMismatch {
                name,
                hash,
            } => MergeErrorModel::ValueSiteCountMismatch { name: name@, hash: *hash },
        }
    }
}

/// The pair by which records are matched: the hash of the name and the
/// structural hash.
pub open spec fn record_key(r: NamedRecordModel, order: ByteOrder) -> (u64, u64) {
    (name_hash_spec(r.name.unwrap(), order), r.hash.unwrap())
}

/// The keys of a sequence of records.
pub open spec fn record_keys(records: Seq<NamedRecordModel>, order: ByteOrder) -> Seq<(u64, u64)> {
    Seq::new(records.len(), |i: int| record_key(records[i], order))
}

/// The counters of two matched records, added position by position.
pub open spec fn combine_counts(a: Seq<u64>, b: Seq<u64>) -> Seq<u64> {
    Seq::new(a.len(), |j: int| sat_add(a[j], b[j]))
}

/// Whether a sum of two counters goes over the largest counter.
pub open spec fn counts_saturate(a: Seq<u64>, b: Seq<u64>) -> bool {
    exists|j: int| 0 <= j < a.len() && #[trigger] a[j] + b[j] > u64::MAX
}

/// The value sites of two matched records, merged position by position.
pub open spec fn merge_sites(
    a: Seq<Seq<InstrProfValueData>>,
    b: Seq<Seq<InstrProfValueData>>,
) -> Seq<Seq<InstrProfValueData>> {
    Seq::new(a.len(), |i: int| merge_site(a[i], b[i]))
}

/// Whether a sum of sample counts goes over the largest count at one of the
/// sites.
pub open spec fn sites_saturate(
    a: Seq<Seq<InstrProfValueData>>,
    b: Seq<Seq<InstrProfValueData>>,
) -> bool {
    exists|i: int| 0 <= i < a.len() && samples_saturate(#[trigger] a[i] + b[i])
}

/// Whether two records have as many value sites of each kind.
pub open spec fn same_site_shape(a: RecordModel, b: RecordModel) -> bool {
    &&& a.sites(ValueKind::IndirectCallTarget).len() == b.sites(
        ValueKind::IndirectCallTarget,
    ).len()
    &&& a.sites(ValueKind::MemOpSize).len() == b.sites(ValueKind::MemOpSize).len()
}

/// The payload of two matched records, merged. Two records without payload
/// give a record without payload.
pub open spec fn combine_data(a: RecordModel, b: RecordModel) -> Option<ValueProfModel> {
    if a.data is None && b.data is None {
        None
    } else {
        Some(
            ValueProfModel {
                indirect_callsites: merge_sites(
                    a.sites(ValueKind::IndirectCallTarget),
                    b.sites(ValueKind::IndirectCallTarget),
                ),
                mem_op_sizes: merge_sites(
                    a.sites(ValueKind::MemOpSize),
                    b.sites(ValueKind::MemOpSize),
                ),
            },
        )
    }
}

/// The record that two matched records are merged into. It keeps the name
/// and the hash of the first.
pub open spec fn combine_records(a: NamedRecordModel, b: NamedRecordModel) -> NamedRecordModel {
    NamedRecordModel {
        name: a.name,
        hash: a.hash,
        record: RecordModel {
            counts: combine_counts(a.record.counts, b.record.counts),
            data: combine_data(a.record, b.record),
        },
    }
}

/// Whether a sum goes over the largest count when two records are merged.
pub open spec fn records_saturate(a: RecordModel, b: RecordModel) -> bool {
    ||| counts_saturate(a.counts, b.counts)
    ||| sites_saturate(
        a.sites(ValueKind::IndirectCallTarget),
        b.sites(ValueKind::IndirectCallTarget),
    )
    ||| sites_saturate(a.sites(ValueKind::MemOpSize), b.sites(ValueKind::MemOpSize))
}

/// What a merge has gathered so far.
pub struct MergeState {
    /// One record for each key seen, in the order in which the keys first
    /// came.
    pub records: Seq<NamedRecordModel>,
    /// Whether a sum went over the largest count.
    pub saturated: bool,
}

/// The state of a merge after one more record. A record without name or
/// hash is passed over. A record whose key is new is taken as it is. A
/// record whose key was seen is merged into the record of that key, unless
/// the two differ in their number of counters or of value sites.
pub open spec fn absorb_record(state: MergeState, r: NamedRecordModel, order: ByteOrder) -> Result<
    MergeState,
    MergeErrorModel,
> {
    if !r.usable() {
        Ok(state)
    } else {
        let i = first_index_of(record_keys(state.records, order), record_key(r, order));
        if i < 0 {
            Ok(MergeState { records: state.records.push(r), saturated: state.saturated })
        } else if state.records[i].record.counts.len() != r.record.counts.len() {
            Err(
                MergeErrorModel::CounterCountMismatch {
                    name: r.name.unwrap(),
                    hash: r.hash.unwrap(),
                },
            )
        } else if !same_site_shape(state.records[i].record, r.record) {
            Err(
                MergeErrorModel::ValueSiteCountMismatch {
                    name: r.name.unwrap(),
                    hash: r.hash.unwrap(),
                },
            )
        } else {
            Ok(
                MergeState {
                    records: state.records.update(i, combine_records(state.records[i], r)),
                    saturated: state.saturated || records_saturate(state.records[i].record, r.record),
                },
            )
        }
    }
}

/// The state of a merge after a sequence of records, taken in one by one.
/// The first record that cannot be merged ends the merge with its error.
pub open spec fn absorb_records(
    state: MergeState,
    records: Seq<NamedRecordModel>,
    order: ByteOrder,
) -> Result<MergeState, MergeErrorModel>
    decreases records.len(),
{
    if records.len() == 0 {
        Ok(state)
    } else {
        match absorb_records(state, records.drop_last(), order) {
            Ok(mid) => absorb_record(mid, records.last(), order),
            Err(e) => Err(e),
        }
    }
}

/// The records of all profiles, in the order of the profiles.
pub open spec fn all_records(profiles: Seq<ProfileModel>) -> Seq<NamedRecordModel>
    decreases profiles.len(),
{
    if profiles.len() == 0 {
        Seq::empty()
    } else {
        all_records(profiles.drop_last()) + profiles.last().records
    }
}

/// The names of all profiles. Where two profiles have a name under the same
/// hash, the later profile's name stands.
pub open spec fn merge_symtabs(profiles: Seq<ProfileModel>) -> Map<u64, Seq<char>>
    decreases profiles.len(),
{
    if profiles.len() == 0 {
        Map::empty()
    } else {
        merge_symtabs(profiles.drop_last()).union_prefer_right(profiles.last().symtab)
    }
}

/// Whether one of the profiles holds context-sensitive records.
pub open spec fn any_csir(profiles: Seq<ProfileModel>) -> bool
    decreases profiles.len(),
{
    if profiles.len() == 0 {
        false
    } else {
        any_csir(profiles.drop_last()) || profiles.last().has_csir
    }
}

/// Whether all profiles are of one level.
pub open spec fn levels_agree(profiles: Seq<ProfileModel>) -> bool {
    forall|i: int| 0 <= i < profiles.len() ==> (#[trigger] profiles[i]).is_ir == profiles[0].is_ir
}

/// The state of a merge that has seen nothing.
pub open spec fn empty_state() -> MergeState {
    MergeState { records: Seq::empty(), saturated: false }
}

/// The mathematical value of a `Merged`.
pub struct MergedModel {
    pub profile: ProfileModel,
    pub saturated: bool,
}

/// The merge of a sequence of profiles, with names hashed in the given byte
/// order. Profiles of different levels are not merged. The merged profile has
/// the version of the first and the level that all share.
pub open spec fn merge_spec(profiles: Seq<ProfileModel>, order: ByteOrder) -> Result<
    MergedModel,
    MergeErrorModel,
> {
    if !levels_agree(profiles) {
        Err(MergeErrorModel::IncompatibleLevels)
    } else {
        match absorb_records(empty_state(), all_records(profiles), order) {
            Err(e) => Err(e),
            Ok(state) => Ok(
                MergedModel {
                    profile: ProfileModel {
                        version: if profiles.len() > 0 {
                            profiles[0].version
                        } else {
                            None
                        },
                        has_csir: any_csir(profiles),
                        is_ir: profiles.len() > 0 && profiles[0].is_ir,
                        records: state.records,
                        symtab: merge_symtabs(profiles),
                    },
                    saturated: state.saturated,
                },
            ),
        }
    }
}

/// The mathematical values of a list of profiles.
pub open spec fn profiles_model(profiles: Seq<InstrumentationProfile>) -> Seq<ProfileModel> {
    Seq::new(profiles.len(), |i: int| profiles[i]@)
}

/// The records of all profiles are those of the first profiles, followed by
/// those of the rest.
pub proof fn lemma_all_records_concat(a: Seq<ProfileModel>, b: Seq<ProfileModel>)
    ensures
        all_records(a + b) == all_records(a) + all_records(b),
    decreases b.len(),
{
    if b.len() == 0 {
        assert(a + b =~= a);
        assert(all_records(a) + all_records(b) =~= all_records(a));
    } else {
        assert((a + b).drop_last() =~= a + b.drop_last());
        lemma_all_records_concat(a, b.drop_last());
        assert(all_records(a + b) =~= all_records(a) + all_records(b));
    }
}

/// Taking in two sequences of records one after the other is taking in their
/// concatenation.
pub proof fn lemma_absorb_concat(
    state: MergeState,
    a: Seq<NamedRecordModel>,
    b: Seq<NamedRecordModel>,
    order: ByteOrder,
)
    ensures
        absorb_records(state, a + b, order) == match absorb_records(state, a, order) {
            Ok(mid) => absorb_records(mid, b, order),
            Err(e) => Err(e),
        },
    decreases b.len(),
{
    if b.len() == 0 {
        assert(a + b =~= a);
    } else {
        assert((a + b).drop_last() =~= a + b.drop_last());
        lemma_absorb_concat(state, a, b.drop_last(), order);
    }
}

/// A merge that has failed on the records taken in so far fails in the same
/// way on all records.
proof fn lemma_merge_stops(
    profiles: Seq<ProfileModel>,
    p: int,
    i: int,
    order: ByteOrder,
    e: MergeErrorModel,
)
    requires
        0 <= p < profiles.len(),
        0 <= i <= profiles[p].records.len(),
        absorb_records(
            empty_state(),
            all_records(profiles.take(p)) + profiles[p].records.take(i),
            order,
        ) == Err::<MergeState, MergeErrorModel>(e),
    ensures
        absorb_records(empty_state(), all_records(profiles), order) == Err::<
            MergeState,
            MergeErrorModel,
        >(e),
{
    let own = profiles[p].records;
    let done = all_records(profiles.take(p)) + own.take(i);
    let rest = own.skip(i) + all_records(profiles.skip(p + 1));
    assert(profiles =~= profiles.take(p + 1) + profiles.skip(p + 1));
    lemma_all_records_concat(profiles.take(p + 1), profiles.skip(p + 1));
    assert(profiles.take(p + 1).drop_last() =~= profiles.take(p));
    assert(profiles.take(p + 1).last() == profiles[p]);
    assert(own =~= own.take(i) + own.skip(i));
    assert(all_records(profiles) =~= done + rest);
    lemma_absorb_concat(empty_state(), done, rest, order);
}

/// A merged profile, and whether a sum went over the largest count on the
/// way. Such a sum is held at the largest count.
#[derive(Debug, Clone, PartialEq, Eq)]
pub struct Merged {
    pub profile: InstrumentationProfile,
    pub saturated: bool,
}

impl View for Merged {
    type V = MergedModel;

    open spec fn view(&self) -> MergedModel {
        MergedModel { profile: self.profile@, saturated: self.saturated }
    }
}

/// Whether a table holds, for each key, the first position at which the
/// key stands among the keys.
spec fn is_key_table(table: Map<(u64, u64), usize>, keys: Seq<(u64, u64)>) -> bool {
    forall|k: (u64, u64)|
        #![trigger table.contains_key(k)]
        #![trigger first_index_of(keys, k)]
        {
            &&& table.contains_key(k) <==> first_index_of(keys, k) >= 0
            &&& table.contains_key(k) ==> table[k] == first_index_of(keys, k)
        }
}

/// Adds up the counters of two matched records.
fn merge_counts(a: &Vec<u64>, b: &Vec<u64>) -> (out: (Vec<u64>, bool))
    requires
        a@.len() == b@.len(),
    ensures
        out.0@ == combine_counts(a@, b@),
        out.1 == counts_saturate(a@, b@),
{
    let mut counts: Vec<u64> = Vec::new();
    let mut saturated: bool = false;
    let mut j: usize = 0;
    while j < a.len()
        invariant
            j <= a@.len(),
            a@.len() == b@.len(),
            counts@.len() == j,
            forall|k: int| 0 <= k < j ==> #[trigger] counts@[k] == sat_add(a@[k], b@[k]),
            saturated == (exists|k: int| 0 <= k < j && #[trigger] a@[k] + b@[k] > u64::MAX),
        decreases a@.len() - j,
    {
        let x: u64 = a[j];
        let y: u64 = b[j];
        if x > u64::MAX - y {
            saturated = true;
        }
        counts.push(x.saturating_add(y));
        j = j + 1;
    }
    proof {
        assert(counts@ =~= combine_counts(a@, b@));
    }
    (counts, saturated)
}

/// Merges the value sites of two matched records, position by position.
fn merge_site_lists(
    a: &Vec<InstrProfValueSiteRecord>,
    b: &Vec<InstrProfValueSiteRecord>,
) -> (out: (Vec<InstrProfValueSiteRecord>, bool))
    requires
        a@.len() == b@.len(),
    ensures
        sites_model(out.0@) == merge_sites(sites_model(a@), sites_model(b@)),
        out.1 == sites_saturate(sites_model(a@), sites_model(b@)),
{
    let ghost am = sites_model(a@);
    let ghost bm = sites_model(b@);
    let mut sites: Vec<InstrProfValueSiteRecord> = Vec::new();
    let mut saturated: bool = false;
    let mut i: usize = 0;
    while i < a.len()
        invariant
            i <= a@.len(),
            a@.len() == b@.len(),
            am == sites_model(a@),
            bm == sites_model(b@),
            sites@.len() == i,
            forall|k: int| 0 <= k < i ==> (#[trigger] sites@[k])@ == merge_site(am[k], bm[k]),
            saturated == (exists|k: int| 0 <= k < i && samples_saturate(#[trigger] am[k] + bm[k])),
        decreases a@.len() - i,
    {
        let (site, over) = merge_value_site(&a[i], &b[i]);
        proof {
            assert(am[i as int] == a@[i as int]@);
            assert(bm[i as int] == b@[i as int]@);
        }
        if over {
            saturated = true;
        }
        sites.push(site);
        i = i + 1;
    }
    proof {
        assert(sites_model(sites@) =~= merge_sites(am, bm));
    }
    (sites, saturated)
}

/// Merges the payload of two matched records.
fn merge_data(a: &InstrProfRecord, b: &InstrProfRecord) -> (out: (
    Option<Box<ValueProfDataRecord>>,
    bool,
))
    requires
        same_site_shape(a@, b@),
    ensures
        (match out.0 {
            Some(d) => Some(d@),
            None => None,
        }) == combine_data(a@, b@),
        out.1 == (sites_saturate(
            a@.sites(ValueKind::IndirectCallTarget),
            b@.sites(ValueKind::IndirectCallTarget),
        ) || sites_saturate(a@.sites(ValueKind::MemOpSize), b@.sites(ValueKind::MemOpSize))),
{
    let none: Vec<InstrProfValueSiteRecord> = Vec::new();
    proof {
        assert(sites_model(none@) =~= Seq::<Seq<InstrProfValueData>>::empty());
    }
    if a.data.is_none() && b.data.is_none() {
        return (None, false);
    }
    let (a_calls, a_sizes): (&Vec<InstrProfValueSiteRecord>, &Vec<InstrProfValueSiteRecord>) =
        match &a.data {
        Some(d) => (&d.indirect_callsites, &d.mem_op_sizes),
        None => (&none, &none),
    };
    let (b_calls, b_sizes): (&Vec<InstrProfValueSiteRecord>, &Vec<InstrProfValueSiteRecord>) =
        match &b.data {
        Some(d) => (&d.indirect_callsites, &d.mem_op_sizes),
        None => (&none, &none),
    };
    proof {
        assert(sites_model(a_calls@) =~= a@.sites(ValueKind::IndirectCallTarget));
        assert(sites_model(a_sizes@) =~= a@.sites(ValueKind::MemOpSize));
        assert(sites_model(b_calls@) =~= b@.sites(ValueKind::IndirectCallTarget));
        assert(sites_model(b_sizes@) =~= b@.sites(ValueKind::MemOpSize));
    }
    let (indirect_callsites, calls_over) = merge_site_lists(a_calls, b_calls);
    let (mem_op_sizes, sizes_over) = merge_site_lists(a_sizes, b_sizes);
    (Some(Box::new(ValueProfDataRecord { indirect_callsites, mem_op_sizes })), calls_over || sizes_over)
}

/// The records that a merge has gathered, with the place of each key.
struct Accumulator {
    records: Vec<NamedInstrProfRecord>,
    places: BTreeMap<(u64, u64), usize>,
    saturated: bool,
}

impl Accumulator {
    spec fn state(&self) -> MergeState {
        MergeState { records: records_model(self.records@), saturated: self.saturated }
    }

    spec fn well_formed(&self, order: ByteOrder) -> bool {
        is_key_table(self.places@, record_keys(records_model(self.records@), order))
    }

    /// Takes one more record in.
    fn absorb(&mut self, r: &NamedInstrProfRecord, order: ByteOrder) -> (res: Result<(), MergeError>)
        requires
            old(self).well_formed(order),
        ensures
            match res {
                Ok(_) => final(self).well_formed(order) && absorb_record(
                    old(self).state(),
                    r@,
                    order,
                ) == Ok::<MergeState, MergeErrorModel>(final(self).state()),
                Err(e) => absorb_record(old(self).state(), r@, order) == Err::<
                    MergeState,
                    MergeErrorModel,
                >(e@),
            },
    {
        let (name, hash): (&String, u64) = match (&r.name, r.hash) {
            (Some(n), Some(h)) => (n, h),
            _ => {
                return Ok(());
            },
        };
        let key: (u64, u64) = (name_hash(name.as_str(), order), hash);
        let ghost before = records_model(self.records@);
        let ghost keys = record_keys(before, order);
        let ghost table = self.places@;
        proof {
            assert(key == record_key(r@, order));
            lemma_first_index_of(keys, key);
        }
        let place: Option<usize> = match self.places.get(&key) {
            Some(i) => Some(*i),
            None => None,
        };
        match place {
            None => {
                let at: usize = self.records.len();
                self.records.push(r.clone());
                self.places.insert(key, at);
                proof {
                    let after = record_keys(records_model(self.records@), order);
                    assert(records_model(self.records@) =~= before.push(r@));
                    assert(after =~= keys.push(key));
                    assert(after.drop_last() =~= keys);
                    assert forall|k: (u64, u64)|
                        #![trigger self.places@.contains_key(k)]
                        #![trigger first_index_of(after, k)]
                        {
                            &&& self.places@.contains_key(k) <==> first_index_of(after, k) >= 0
                            &&& self.places@.contains_key(k) ==> self.places@[k] == first_index_of(
                                after,
                                k,
                            )
                        } by {
                        assert(table.contains_key(k) <==> first_index_of(keys, k) >= 0);
                        assert(table.contains_key(k) ==> table[k] == first_index_of(keys, k));
                    }
                }
                Ok(())
            },
            Some(i) => {
                let held: &NamedInstrProfRecord = &self.records[i];
                assert(held@ == before[i as int]);
                if held.record.counts.len() != r.record.counts.len() {
                    return Err(MergeError::CounterCountMismatch { name: name.clone(), hash });
                }
                if held.num_value_sites(ValueKind::IndirectCallTarget) != r.num_value_sites(
                    ValueKind::IndirectCallTarget,
                ) || held.num_value_sites(ValueKind::MemOpSize) != r.num_value_sites(
                    ValueKind::MemOpSize,
                ) {
                    return Err(MergeError::ValueSiteCountMismatch { name: name.clone(), hash });
                }
                let (counts, counts_over) = merge_counts(&held.record.counts, &r.record.counts);
                let (data, sites_over) = merge_data(&held.record, &r.record);
                let held_name: Option<String> = match &held.name {
                    Some(n) => Some(n.clone()),
                    None => None,
                };
                let merged = NamedInstrProfRecord {
                    name: held_name,
                    hash: held.hash,
                    record: InstrProfRecord { counts, data },
                };
                proof {
                    assert(merged@ == combine_records(before[i as int], r@));
                    assert(record_key(merged@, order) == record_key(before[i as int], order));
                }
                self.records[i] = merged;
                if counts_over || sites_over {
                    self.saturated = true;
                }
                proof {
                    assert(records_model(self.records@) =~= before.update(
                        i as int,
                        combine_records(before[i as int], r@),
                    ));
                    assert(record_keys(records_model(self.records@), order) =~= keys);
                }
                Ok(())
            },
        }
    }
}

/// Calls `BTreeMap::append`. The contract claims what its documentation
/// says: every entry of `from` is moved into `into`, where it replaces an
/// entry with the same key.
#[verifier::external_body]
fn append_names(into: &mut BTreeMap<u64, String>, from: BTreeMap<u64, String>)
    ensures
        final(into)@ == old(into)@.union_prefer_right(from@),
{
    let mut from = from;
    into.append(&mut from)
}

/// Merges profiles, with names hashed in the given byte order. Returns the
/// merged profile and whether a sum went over the largest count, or the
/// first reason for which the profiles cannot be merged.
pub fn merge_in(profiles: Vec<InstrumentationProfile>, order: ByteOrder) -> (res: Result<
    Merged,
    MergeError,
>)
    ensures
        match res {
            Ok(m) => merge_spec(profiles_model(profiles@), order) == Ok::<
                MergedModel,
                MergeErrorModel,
            >(m@),
            Err(e) => merge_spec(profiles_model(profiles@), order) == Err::<
                MergedModel,
                MergeErrorModel,
            >(e@),
        },
{
    let ghost models = profiles_model(profiles@);
    let n: usize = profiles.len();
    // Profiles of different levels are refused before any record is read.
    let mut p: usize = 0;
    while p < n
        invariant
            p <= n,
            n == profiles@.len(),
            models == profiles_model(profiles@),
            forall|j: int| 0 <= j < p ==> (#[trigger] models[j]).is_ir == models[0].is_ir,
        decreases n - p,
    {
        if profiles[p].is_ir != profiles[0].is_ir {
            proof {
                assert(models[p as int].is_ir != models[0].is_ir);
            }
            return Err(MergeError::IncompatibleLevels);
        }
        p = p + 1;
    }
    let mut acc = Accumulator { records: Vec::new(), places: BTreeMap::new(), saturated: false };
    let mut names: BTreeMap<u64, String> = BTreeMap::new();
    let mut has_csir: bool = false;
    p = 0;
    proof {
        assert(models.take(0) =~= Seq::<ProfileModel>::empty());
        assert(records_model(acc.records@) =~= Seq::<NamedRecordModel>::empty());
        assert(record_keys(records_model(acc.records@), order) =~= Seq::<(u64, u64)>::empty());
        assert(names_model(names@) =~= Map::<u64, Seq<char>>::empty());
    }
    while p < n
        invariant
            p <= n,
            n == profiles@.len(),
            models == profiles_model(profiles@),
            levels_agree(models),
            acc.well_formed(order),
            absorb_records(empty_state(), all_records(models.take(p as int)), order) == Ok::<
                MergeState,
                MergeErrorModel,
            >(acc.state()),
            names_model(names@) == merge_symtabs(models.take(p as int)),
            has_csir == any_csir(models.take(p as int)),
        decreases n - p,
    {
        let profile: &InstrumentationProfile = &profiles[p];
        let ghost seen = all_records(models.take(p as int));
        let ghost own = models[p as int].records;
        proof {
            assert(models.take(p + 1).drop_last() =~= models.take(p as int));
            assert(models.take(p + 1).last() == profile@);
            assert(own == records_model(profile.records@));
            assert(own.take(0) =~= Seq::<NamedRecordModel>::empty());
            assert(seen + own.take(0) =~= seen);
        }
        let m: usize = profile.records.len();
        let mut i: usize = 0;
        while i < m
            invariant
                i <= m,
                m == profile.records@.len(),
                own == records_model(profile.records@),
                own == models[p as int].records,
                seen == all_records(models.take(p as int)),
                p < n,
                n == profiles@.len(),
                models == profiles_model(profiles@),
                levels_agree(models),
                acc.well_formed(order),
                absorb_records(empty_state(), seen + own.take(i as int), order) == Ok::<
                    MergeState,
                    MergeErrorModel,
                >(acc.state()),
            decreases m - i,
        {
            let ghost taken = seen + own.take(i as int);
            proof {
                assert((seen + own.take(i + 1)).drop_last() =~= taken);
                assert((seen + own.take(i + 1)).last() == profile.records@[i as int]@);
            }
            match acc.absorb(&profile.records[i], order) {
                Ok(_) => {},
                Err(e) => {
                    proof {
                        lemma_merge_stops(models, p as int, i + 1, order, e@);
                    }
                    return Err(e);
                },
            }
            i = i + 1;
        }
        proof {
            assert(own.take(m as int) =~= own);
        }
        let own_names: BTreeMap<u64, String> = profile.symtab.names.clone();
        let ghost names_before = names@;
        append_names(&mut names, own_names);
        proof {
            assert(names_model(names@) =~= names_model(names_before).union_prefer_right(
                names_model(profile.symtab.names@),
            ));
        }
        if profile.has_csir {
            has_csir = true;
        }
        p = p + 1;
    }
    proof {
        assert(models.take(n as int) =~= models);
    }
    let version: Option<u64> = if n > 0 {
        profiles[0].version
    } else {
        None
    };
    let is_ir: bool = n > 0 && profiles[0].is_ir;
    let merged = Merged {
        profile: InstrumentationProfile {
            version,
            has_csir,
            is_ir,
            records: acc.records,
            symtab: Symtab { names },
        },
        saturated: acc.saturated,
    };
    proof {
        assert(merged@.profile.symtab =~= merge_symtabs(models));
    }
    Ok(merged)
}

/// Merges profiles, with names hashed in the byte order of this machine.
/// Returns the merged profile and whether a sum went over the largest count,
/// or the first reason for which the profiles cannot be merged.
pub fn merge_reporting(profiles: Vec<InstrumentationProfile>) -> (res: Result<Merged, MergeError>)
    ensures
        exists|order: ByteOrder|
            match res {
                Ok(m) => #[trigger] merge_spec(profiles_model(profiles@), order) == Ok::<
                    MergedModel,
                    MergeErrorModel,
                >(m@),
                Err(e) => merge_spec(profiles_model(profiles@), order) == Err::<
                    MergedModel,
                    MergeErrorModel,
                >(e@),
            },
{
    merge_in(profiles, ByteOrder::native())
}

/// Merges profiles, with names hashed in the byte order of this machine.
/// Whether a sum went over the largest count is not told: `merge_reporting`
/// tells it.
pub fn merge(profiles: Vec<InstrumentationProfile>) -> (res: Result<
    InstrumentationProfile,
    MergeError,
>)
    ensures
        exists|order: ByteOrder|
            match res {
                Ok(p) => (match #[trigger] merge_spec(profiles_model(profiles@), order) {
                    Ok(m) => p@ == m.profile,
                    Err(_) => false,
                }),
                Err(e) => merge_spec(profiles_model(profiles@), order) == Err::<
                    MergedModel,
                    MergeErrorModel,
                >(e@),
            },
{
    let order: ByteOrder = ByteOrder::native();
    match merge_in(profiles, order) {
        Ok(m) => Ok(m.profile),
        Err(e) => Err(e),
    }
}

} // verus!
