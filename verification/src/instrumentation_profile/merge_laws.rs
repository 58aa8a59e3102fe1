//! What holds of every merge: when it succeeds, what its counters are, and
//! that neither the order nor the grouping of the inputs changes them.

use super::hashing::ByteOrder;
use super::merge::{
    absorb_record, absorb_records, all_records, any_csir, combine_records, empty_state,
    lemma_absorb_concat, levels_agree, merge_spec, merge_symtabs, record_key, record_keys,
    same_site_shape, MergeErrorModel, MergeState,
};
use super::types::{InstrProfValueData, NamedRecordModel, ProfileModel, RecordModel};
use super::value_sites::{
    absorb_sample, combine_samples, first_index_of, lemma_first_index_is, lemma_first_index_of,
    sample_values, sat_add,
};
use vstd::prelude::*;

verus! {

/// A number held at the largest value of a counter.
pub open spec fn capped(n: nat) -> u64 {
    if n > u64::MAX {
        u64::MAX
    } else {
        n as u64
    }
}

/// What a record adds to the counter at position `j` of the function with
/// the given key.
pub open spec fn contribution(
    r: NamedRecordModel,
    key: (u64, u64),
    j: int,
    order: ByteOrder,
) -> nat {
    if r.usable() && record_key(r, order) == key && 0 <= j < r.record.counts.len() {
        r.record.counts[j] as nat
    } else {
        0
    }
}

/// The sum of the counters at position `j` of all usable records with the
/// given key.
pub open spec fn key_total(
    records: Seq<NamedRecordModel>,
    key: (u64, u64),
    j: int,
    order: ByteOrder,
) -> nat
    decreases records.len(),
{
    if records.len() == 0 {
        0
    } else {
        key_total(records.drop_last(), key, j, order) + contribution(records.last(), key, j, order)
    }
}

/// Whether two records have as many counters and as many value sites of
/// each kind.
pub open spec fn same_shape(a: RecordModel, b: RecordModel) -> bool {
    a.counts.len() == b.counts.len() && same_site_shape(a, b)
}

/// Whether all usable records with one key have one shape.
pub open spec fn shapes_agree(records: Seq<NamedRecordModel>, order: ByteOrder) -> bool {
    forall|p: int, q: int|
        0 <= p < records.len() && 0 <= q < records.len() && (#[trigger] records[p]).usable() && (
        #[trigger] records[q]).usable() && record_key(records[p], order) == record_key(
            records[q],
            order,
        ) ==> same_shape(records[p].record, records[q].record)
}

/// The counters that a sequence of records holds for a key, if it holds a
/// record with that key.
pub open spec fn counters_of(
    records: Seq<NamedRecordModel>,
    key: (u64, u64),
    order: ByteOrder,
) -> Option<Seq<u64>> {
    let i = first_index_of(record_keys(records, order), key);
    if i >= 0 {
        Some(records[i].record.counts)
    } else {
        None
    }
}

/// Whether the records of a state have a name and a hash each, and a key
/// each of their own.
pub open spec fn keys_distinct(state: MergeState, order: ByteOrder) -> bool {
    &&& record_keys(state.records, order).no_duplicates()
    &&& forall|i: int| 0 <= i < state.records.len() ==> (#[trigger] state.records[i]).usable()
}

/// Whether each counter of a state is the sum of the counters that the
/// records taken in have at its position, held at the largest counter.
pub open spec fn counters_are_totals(
    state: MergeState,
    records: Seq<NamedRecordModel>,
    order: ByteOrder,
) -> bool {
    forall|i: int, j: int|
        0 <= i < state.records.len() && 0 <= j < state.records[i].record.counts.len()
            ==> #[trigger] state.records[i].record.counts[j] == capped(
            key_total(records, record_key(state.records[i], order), j, order),
        )
}

/// Whether a state holds, for each usable record taken in, a record of the
/// same key and of the same shape.
pub open spec fn inputs_are_held(
    state: MergeState,
    records: Seq<NamedRecordModel>,
    order: ByteOrder,
) -> bool {
    forall|p: int|
        0 <= p < records.len() && (#[trigger] records[p]).usable() ==> {
            let i = first_index_of(record_keys(state.records, order), record_key(records[p], order));
            i >= 0 && same_shape(state.records[i].record, records[p].record)
        }
}

/// Whether each record of a state has the key of a usable record that was
/// taken in.
pub open spec fn keys_have_inputs(
    state: MergeState,
    records: Seq<NamedRecordModel>,
    order: ByteOrder,
) -> bool {
    forall|i: int|
        0 <= i < state.records.len() ==> exists|p: int|
            0 <= p < records.len() && (#[trigger] records[p]).usable() && record_key(
                records[p],
                order,
            ) == #[trigger] record_key(state.records[i], order)
}

/// Whether a state is what a merge holds after it took in the records.
pub open spec fn gathered(
    state: MergeState,
    records: Seq<NamedRecordModel>,
    order: ByteOrder,
) -> bool {
    &&& keys_distinct(state, order)
    &&& counters_are_totals(state, records, order)
    &&& inputs_are_held(state, records, order)
    &&& keys_have_inputs(state, records, order)
}

/// Records that do not have a key add nothing to its counters.
pub proof fn lemma_key_total_of_absent_key(
    records: Seq<NamedRecordModel>,
    key: (u64, u64),
    j: int,
    order: ByteOrder,
)
    requires
        forall|p: int|
            0 <= p < records.len() && (#[trigger] records[p]).usable() ==> record_key(
                records[p],
                order,
            ) != key,
    ensures
        key_total(records, key, j, order) == 0,
    decreases records.len(),
{
    if records.len() > 0 {
        let rest = records.drop_last();
        assert forall|p: int| 0 <= p < rest.len() && (#[trigger] rest[p]).usable() implies record_key(
            rest[p],
            order,
        ) != key by {
            assert(rest[p] == records[p]);
        }
        lemma_key_total_of_absent_key(rest, key, j, order);
        assert(records[records.len() - 1] == records.last());
    }
}

/// The counters of a key in two sequences of records add up to its counters
/// in their concatenation.
pub proof fn lemma_key_total_concat(
    a: Seq<NamedRecordModel>,
    b: Seq<NamedRecordModel>,
    key: (u64, u64),
    j: int,
    order: ByteOrder,
)
    ensures
        key_total(a + b, key, j, order) == key_total(a, key, j, order) + key_total(
            b,
            key,
            j,
            order,
        ),
    decreases b.len(),
{
    if b.len() == 0 {
        assert(a + b =~= a);
    } else {
        assert((a + b).drop_last() =~= a + b.drop_last());
        lemma_key_total_concat(a, b.drop_last(), key, j, order);
    }
}

/// The sum of two capped numbers, capped, is the capped sum of the numbers.
pub proof fn lemma_capped_sum(x: nat, y: nat)
    ensures
        sat_add(capped(x), capped(y)) == capped(x + y),
{
}

/// Taking one record in keeps a state what a merge holds: the case of a
/// record that is passed over.
proof fn lemma_step_unusable(
    state: MergeState,
    records: Seq<NamedRecordModel>,
    r: NamedRecordModel,
    order: ByteOrder,
)
    requires
        gathered(state, records, order),
        !r.usable(),
    ensures
        gathered(state, records.push(r), order),
{
    let next = records.push(r);
    assert(next.drop_last() =~= records);
    assert forall|p: int| 0 <= p < next.len() && (#[trigger] next[p]).usable() implies {
        let i = first_index_of(record_keys(state.records, order), record_key(next[p], order));
        i >= 0 && same_shape(state.records[i].record, next[p].record)
    } by {
        assert(next[p] == records[p]);
    }
    assert forall|i: int| 0 <= i < state.records.len() implies exists|p: int|
        0 <= p < next.len() && (#[trigger] next[p]).usable() && record_key(next[p], order)
            == #[trigger] record_key(state.records[i], order) by {
        let p = choose|p: int|
            0 <= p < records.len() && (#[trigger] records[p]).usable() && record_key(
                records[p],
                order,
            ) == record_key(state.records[i], order);
        assert(next[p] == records[p]);
    }
}

/// Taking one record in keeps a state what a merge holds: the case of a
/// record with a new key.
proof fn lemma_step_new_key(
    state: MergeState,
    records: Seq<NamedRecordModel>,
    r: NamedRecordModel,
    order: ByteOrder,
)
    requires
        gathered(state, records, order),
        r.usable(),
        first_index_of(record_keys(state.records, order), record_key(r, order)) < 0,
    ensures
        gathered(
            MergeState { records: state.records.push(r), saturated: state.saturated },
            records.push(r),
            order,
        ),
{
    let keys = record_keys(state.records, order);
    let k = record_key(r, order);
    let after = MergeState { records: state.records.push(r), saturated: state.saturated };
    let next = records.push(r);
    let keys_after = record_keys(after.records, order);
    let n = state.records.len() as int;
    lemma_first_index_of(keys, k);
    assert(keys_after =~= keys.push(k));
    assert(keys_after.drop_last() =~= keys);
    assert(next.drop_last() =~= records);
    // No usable record taken in so far has the new key.
    assert forall|p: int| 0 <= p < records.len() && (#[trigger] records[p]).usable() implies record_key(
        records[p],
        order,
    ) != k by {
        let i = first_index_of(keys, record_key(records[p], order));
        assert(i >= 0);
    }
    assert(keys_distinct(after, order)) by {
        assert forall|x: int, y: int|
            0 <= x < keys_after.len() && 0 <= y < keys_after.len() && x != y implies keys_after[x]
            != keys_after[y] by {
            if x < n && y < n {
                assert(keys[x] != keys[y]);
            } else if x < n {
                assert(keys[x] != k);
            } else {
                assert(keys[y] != k);
            }
        }
        assert forall|i: int| 0 <= i < after.records.len() implies (
        #[trigger] after.records[i]).usable() by {
            if i < n {
                assert(state.records[i].usable());
            }
        }
    }
    assert(counters_are_totals(after, next, order)) by {
        assert forall|i: int, j: int|
            0 <= i < after.records.len() && 0 <= j < after.records[i].record.counts.len() implies
            #[trigger] after.records[i].record.counts[j] == capped(
            key_total(next, record_key(after.records[i], order), j, order),
        ) by {
            if i < n {
                assert(after.records[i] == state.records[i]);
                assert(keys[i] != k);
                assert(state.records[i].record.counts[j] == capped(
                    key_total(records, record_key(state.records[i], order), j, order),
                ));
            } else {
                lemma_key_total_of_absent_key(records, k, j, order);
            }
        }
    }
    assert(inputs_are_held(after, next, order)) by {
        assert forall|p: int| 0 <= p < next.len() && (#[trigger] next[p]).usable() implies {
            let i = first_index_of(keys_after, record_key(next[p], order));
            i >= 0 && same_shape(after.records[i].record, next[p].record)
        } by {
            if p < records.len() {
                assert(next[p] == records[p]);
                let i = first_index_of(keys, record_key(records[p], order));
                assert(i >= 0);
                lemma_first_index_of(keys, record_key(records[p], order));
                assert(after.records[i] == state.records[i]);
            }
        }
    }
    assert(keys_have_inputs(after, next, order)) by {
        assert forall|i: int| 0 <= i < after.records.len() implies exists|p: int|
            0 <= p < next.len() && (#[trigger] next[p]).usable() && record_key(next[p], order)
                == #[trigger] record_key(after.records[i], order) by {
            if i < n {
                let p = choose|p: int|
                    0 <= p < records.len() && (#[trigger] records[p]).usable() && record_key(
                        records[p],
                        order,
                    ) == record_key(state.records[i], order);
                assert(next[p] == records[p]);
            } else {
                assert(next[records.len() as int] == r);
            }
        }
    }
}

/// Two records are merged into a record of their shape.
pub proof fn lemma_combined_shape(a: NamedRecordModel, b: NamedRecordModel)
    requires
        same_shape(a.record, b.record),
    ensures
        same_shape(combine_records(a, b).record, a.record),
        same_shape(combine_records(a, b).record, b.record),
{
}

/// Taking one record in keeps a state what a merge holds: the case of a
/// record that is merged into the record of its key.
proof fn lemma_step_known_key(
    state: MergeState,
    records: Seq<NamedRecordModel>,
    r: NamedRecordModel,
    order: ByteOrder,
    saturated: bool,
)
    requires
        gathered(state, records, order),
        r.usable(),
        first_index_of(record_keys(state.records, order), record_key(r, order)) >= 0,
        same_shape(
            state.records[first_index_of(
                record_keys(state.records, order),
                record_key(r, order),
            )].record,
            r.record,
        ),
    ensures
        ({
            let i = first_index_of(record_keys(state.records, order), record_key(r, order));
            let after = MergeState {
                records: state.records.update(i, combine_records(state.records[i], r)),
                saturated,
            };
            &&& gathered(after, records.push(r), order)
            &&& record_keys(after.records, order) == record_keys(state.records, order)
        }),
{
    let keys = record_keys(state.records, order);
    let k = record_key(r, order);
    let at = first_index_of(keys, k);
    let held = state.records[at];
    let merged = combine_records(held, r);
    let after = MergeState { records: state.records.update(at, merged), saturated };
    let next = records.push(r);
    let keys_after = record_keys(after.records, order);
    lemma_first_index_of(keys, k);
    assert(held.usable());
    assert(record_key(merged, order) == keys[at]);
    assert(keys_after =~= keys);
    assert(next.drop_last() =~= records);
    assert(keys_distinct(after, order)) by {
        assert forall|i: int| 0 <= i < after.records.len() implies (
        #[trigger] after.records[i]).usable() by {
            if i != at {
                assert(state.records[i].usable());
            }
        }
    }
    assert(counters_are_totals(after, next, order)) by {
        assert forall|i: int, j: int|
            0 <= i < after.records.len() && 0 <= j < after.records[i].record.counts.len() implies
            #[trigger] after.records[i].record.counts[j] == capped(
            key_total(next, record_key(after.records[i], order), j, order),
        ) by {
            if i == at {
                assert(held.record.counts[j] == capped(
                    key_total(records, record_key(held, order), j, order),
                ));
                lemma_capped_sum(
                    key_total(records, k, j, order),
                    r.record.counts[j] as nat,
                );
            } else {
                assert(after.records[i] == state.records[i]);
                assert(keys[i] != keys[at]);
                assert(state.records[i].record.counts[j] == capped(
                    key_total(records, record_key(state.records[i], order), j, order),
                ));
            }
        }
    }
    assert(inputs_are_held(after, next, order)) by {
        assert forall|p: int| 0 <= p < next.len() && (#[trigger] next[p]).usable() implies {
            let i = first_index_of(keys_after, record_key(next[p], order));
            i >= 0 && same_shape(after.records[i].record, next[p].record)
        } by {
            lemma_combined_shape(held, r);
            if p < records.len() {
                assert(next[p] == records[p]);
                let i = first_index_of(keys, record_key(records[p], order));
                lemma_first_index_of(keys, record_key(records[p], order));
                assert(i >= 0 && same_shape(state.records[i].record, records[p].record));
                if i != at {
                    assert(after.records[i] == state.records[i]);
                }
            } else {
                assert(next[p] == r);
            }
        }
    }
    assert(keys_have_inputs(after, next, order)) by {
        assert forall|i: int| 0 <= i < after.records.len() implies exists|p: int|
            0 <= p < next.len() && (#[trigger] next[p]).usable() && record_key(next[p], order)
                == #[trigger] record_key(after.records[i], order) by {
            assert(record_key(after.records[i], order) == record_key(state.records[i], order));
            let p = choose|p: int|
                0 <= p < records.len() && (#[trigger] records[p]).usable() && record_key(
                    records[p],
                    order,
                ) == record_key(state.records[i], order);
            assert(next[p] == records[p]);
        }
    }
}

/// Taking one record in keeps a state what a merge holds.
pub proof fn lemma_step_gathers(
    state: MergeState,
    records: Seq<NamedRecordModel>,
    r: NamedRecordModel,
    order: ByteOrder,
)
    requires
        gathered(state, records, order),
        absorb_record(state, r, order) is Ok,
    ensures
        gathered(absorb_record(state, r, order)->Ok_0, records.push(r), order),
{
    if !r.usable() {
        lemma_step_unusable(state, records, r, order);
    } else {
        let i = first_index_of(record_keys(state.records, order), record_key(r, order));
        if i < 0 {
            lemma_step_new_key(state, records, r, order);
        } else {
            lemma_step_known_key(
                state,
                records,
                r,
                order,
                absorb_record(state, r, order)->Ok_0.saturated,
            );
        }
    }
}

/// A record cannot be taken in if and only if a usable record of its key
/// and of another shape was taken in before it.
pub proof fn lemma_step_fails_iff(
    state: MergeState,
    records: Seq<NamedRecordModel>,
    r: NamedRecordModel,
    order: ByteOrder,
)
    requires
        gathered(state, records, order),
    ensures
        absorb_record(state, r, order) is Err <==> r.usable() && exists|p: int|
            0 <= p < records.len() && (#[trigger] records[p]).usable() && record_key(
                records[p],
                order,
            ) == record_key(r, order) && !same_shape(records[p].record, r.record),
{
    if r.usable() {
        let keys = record_keys(state.records, order);
        let k = record_key(r, order);
        let i = first_index_of(keys, k);
        lemma_first_index_of(keys, k);
        if i < 0 {
            assert forall|p: int|
                0 <= p < records.len() && (#[trigger] records[p]).usable() implies record_key(
                records[p],
                order,
            ) != k by {
                assert(first_index_of(keys, record_key(records[p], order)) >= 0);
            }
        } else {
            assert(record_key(state.records[i], order) == k);
            let w = choose|p: int|
                0 <= p < records.len() && (#[trigger] records[p]).usable() && record_key(
                    records[p],
                    order,
                ) == record_key(state.records[i], order);
            assert(first_index_of(keys, record_key(records[w], order)) == i);
            assert(same_shape(state.records[i].record, records[w].record));
            if absorb_record(state, r, order) is Err {
                assert(!same_shape(state.records[i].record, r.record));
                assert(!same_shape(records[w].record, r.record));
            } else {
                assert(same_shape(state.records[i].record, r.record));
                assert forall|p: int|
                    0 <= p < records.len() && (#[trigger] records[p]).usable() && record_key(
                        records[p],
                        order,
                    ) == k implies same_shape(records[p].record, r.record) by {
                    assert(first_index_of(keys, record_key(records[p], order)) == i);
                    assert(same_shape(state.records[i].record, records[p].record));
                }
            }
        }
    }
}

/// A merge takes a sequence of records in if and only if all usable records
/// with one key have one shape; what it then holds is described by
/// `gathered`.
pub proof fn lemma_absorb_gathers(records: Seq<NamedRecordModel>, order: ByteOrder)
    ensures
        absorb_records(empty_state(), records, order) is Ok <==> shapes_agree(records, order),
        absorb_records(empty_state(), records, order) is Ok ==> gathered(
            absorb_records(empty_state(), records, order)->Ok_0,
            records,
            order,
        ),
    decreases records.len(),
{
    if records.len() == 0 {
        assert(record_keys(empty_state().records, order) =~= Seq::<(u64, u64)>::empty());
    } else {
        let rest = records.drop_last();
        let r = records.last();
        lemma_absorb_gathers(rest, order);
        assert(rest.push(r) =~= records);
        assert forall|p: int| 0 <= p < rest.len() implies rest[p] == records[p] by {}
        if absorb_records(empty_state(), rest, order) is Ok {
            let mid = absorb_records(empty_state(), rest, order)->Ok_0;
            lemma_step_fails_iff(mid, rest, r, order);
            if absorb_record(mid, r, order) is Ok {
                lemma_step_gathers(mid, rest, r, order);
                assert forall|p: int, q: int|
                    0 <= p < records.len() && 0 <= q < records.len() && (
                    #[trigger] records[p]).usable() && (#[trigger] records[q]).usable()
                        && record_key(records[p], order) == record_key(
                        records[q],
                        order,
                    ) implies same_shape(records[p].record, records[q].record) by {
                    if p < rest.len() && q < rest.len() {
                        assert(rest[p].usable() && rest[q].usable());
                    } else if p < rest.len() {
                        assert(rest[p].usable());
                    } else if q < rest.len() {
                        assert(rest[q].usable());
                    }
                }
            } else {
                let w = choose|p: int|
                    0 <= p < rest.len() && (#[trigger] rest[p]).usable() && record_key(
                        rest[p],
                        order,
                    ) == record_key(r, order) && !same_shape(rest[p].record, r.record);
                assert(records[w].usable() && records[records.len() - 1].usable());
            }
        } else {
            if shapes_agree(records, order) {
                assert forall|p: int, q: int|
                    0 <= p < rest.len() && 0 <= q < rest.len() && (#[trigger] rest[p]).usable() && (
                    #[trigger] rest[q]).usable() && record_key(rest[p], order) == record_key(
                        rest[q],
                        order,
                    ) implies same_shape(rest[p].record, rest[q].record) by {
                    assert(records[p].usable() && records[q].usable());
                }
            }
        }
    }
}

/// Profiles can be merged if and only if they are of one level and all
/// their usable records with one key have one shape.
pub proof fn lemma_merge_succeeds_iff(profiles: Seq<ProfileModel>, order: ByteOrder)
    ensures
        merge_spec(profiles, order) is Ok <==> levels_agree(profiles) && shapes_agree(
            all_records(profiles),
            order,
        ),
{
    lemma_absorb_gathers(all_records(profiles), order);
}

/// Each counter of a merged profile is the sum of the counters at its
/// position of all usable records of its function, held at the largest
/// counter; and no two records of a merged profile are of one function.
pub proof fn lemma_merged_counters_are_totals(profiles: Seq<ProfileModel>, order: ByteOrder)
    requires
        merge_spec(profiles, order) is Ok,
    ensures
        ({
            let merged = merge_spec(profiles, order)->Ok_0.profile.records;
            &&& record_keys(merged, order).no_duplicates()
            &&& forall|i: int, j: int|
                0 <= i < merged.len() && 0 <= j < merged[i].record.counts.len()
                    ==> #[trigger] merged[i].record.counts[j] == capped(
                    key_total(all_records(profiles), record_key(merged[i], order), j, order),
                )
        }),
{
    lemma_absorb_gathers(all_records(profiles), order);
}

/// A usable record whose key no other usable record has is held by the
/// merge as it is.
pub proof fn lemma_single_record_is_kept(records: Seq<NamedRecordModel>, p: int, order: ByteOrder)
    requires
        absorb_records(empty_state(), records, order) is Ok,
        0 <= p < records.len(),
        records[p].usable(),
        forall|q: int|
            0 <= q < records.len() && q != p && (#[trigger] records[q]).usable() ==> record_key(
                records[q],
                order,
            ) != record_key(records[p], order),
    ensures
        ({
            let held = absorb_records(empty_state(), records, order)->Ok_0.records;
            let i = first_index_of(record_keys(held, order), record_key(records[p], order));
            i >= 0 && held[i] == records[p]
        }),
    decreases records.len(),
{
    let rest = records.drop_last();
    let r = records.last();
    let key = record_key(records[p], order);
    lemma_absorb_gathers(rest, order);
    let mid = absorb_records(empty_state(), rest, order)->Ok_0;
    let keys = record_keys(mid.records, order);
    assert forall|q: int| 0 <= q < rest.len() implies rest[q] == records[q] by {}
    lemma_first_index_of(keys, key);
    if p == records.len() - 1 {
        // No record taken in before has the key.
        if first_index_of(keys, key) >= 0 {
            let i = first_index_of(keys, key);
            let w = choose|w: int|
                0 <= w < rest.len() && (#[trigger] rest[w]).usable() && record_key(rest[w], order)
                    == record_key(mid.records[i], order);
            assert(records[w].usable());
        }
        let held = mid.records.push(r);
        assert(record_keys(held, order) =~= keys.push(key));
        assert(record_keys(held, order).drop_last() =~= keys);
    } else {
        assert forall|q: int|
            0 <= q < rest.len() && q != p && (#[trigger] rest[q]).usable() implies record_key(
            rest[q],
            order,
        ) != record_key(rest[p], order) by {
            assert(records[q].usable());
        }
        lemma_single_record_is_kept(rest, p, order);
        let i = first_index_of(keys, key);
        if r.usable() {
            assert(records[records.len() - 1].usable());
            let own = record_key(r, order);
            let at = first_index_of(keys, own);
            lemma_first_index_of(keys, own);
            if at < 0 {
                let held = mid.records.push(r);
                assert(record_keys(held, order) =~= keys.push(own));
                assert(record_keys(held, order).drop_last() =~= keys);
            } else {
                let held = mid.records.update(at, combine_records(mid.records[at], r));
                assert(mid.records[at].usable());
                assert(record_keys(held, order) =~= keys);
            }
        }
    }
}

/// A function that one usable record among all profiles stands for alone
/// has that record in the merged profile, unchanged.
pub proof fn lemma_unmatched_record_passes_through(
    profiles: Seq<ProfileModel>,
    p: int,
    order: ByteOrder,
)
    requires
        merge_spec(profiles, order) is Ok,
        0 <= p < all_records(profiles).len(),
        all_records(profiles)[p].usable(),
        forall|q: int|
            0 <= q < all_records(profiles).len() && q != p && (#[trigger] all_records(
                profiles,
            )[q]).usable() ==> record_key(all_records(profiles)[q], order) != record_key(
                all_records(profiles)[p],
                order,
            ),
    ensures
        ({
            let merged = merge_spec(profiles, order)->Ok_0.profile.records;
            let i = first_index_of(
                record_keys(merged, order),
                record_key(all_records(profiles)[p], order),
            );
            i >= 0 && merged[i] == all_records(profiles)[p]
        }),
{
    lemma_single_record_is_kept(all_records(profiles), p, order);
}

/// The records of one, two and three profiles.
pub proof fn lemma_all_records_of_few(a: ProfileModel, b: ProfileModel, c: ProfileModel)
    ensures
        all_records(seq![a]) == a.records,
        all_records(seq![a, b]) == a.records + b.records,
        all_records(seq![a, b, c]) == a.records + b.records + c.records,
{
    let none = Seq::<ProfileModel>::empty();
    assert(seq![a].drop_last() =~= none);
    assert(seq![a, b].drop_last() =~= seq![a]);
    assert(seq![a, b, c].drop_last() =~= seq![a, b]);
    assert(all_records(none) =~= Seq::<NamedRecordModel>::empty());
    assert(all_records(seq![a]) =~= a.records);
    assert(all_records(seq![a, b]) =~= a.records + b.records);
    assert(all_records(seq![a, b, c]) =~= a.records + b.records + c.records);
}

/// The names of one and of two profiles, and of a profile after others.
proof fn lemma_symtabs_of_few(a: ProfileModel, b: ProfileModel, others: Seq<ProfileModel>)
    ensures
        merge_symtabs(seq![a]) == a.symtab,
        merge_symtabs(seq![a, b]) == a.symtab.union_prefer_right(b.symtab),
        merge_symtabs(others.push(b)) == merge_symtabs(others).union_prefer_right(b.symtab),
        any_csir(seq![a]) == a.has_csir,
        any_csir(seq![a, b]) == (a.has_csir || b.has_csir),
        any_csir(others.push(b)) == (any_csir(others) || b.has_csir),
{
    let none = Seq::<ProfileModel>::empty();
    assert(seq![a].drop_last() =~= none);
    assert(seq![a, b].drop_last() =~= seq![a]);
    assert(others.push(b).drop_last() =~= others);
    assert(merge_symtabs(none) =~= Map::<u64, Seq<char>>::empty());
    assert(merge_symtabs(seq![a]) =~= a.symtab);
    assert(!any_csir(none));
    assert(any_csir(seq![a]) == a.has_csir);
}

/// Whether all usable records with one key have one shape does not depend
/// on which of two groups of records comes first.
proof fn lemma_shapes_agree_swap(x: Seq<NamedRecordModel>, y: Seq<NamedRecordModel>, order: ByteOrder)
    requires
        shapes_agree(x + y, order),
    ensures
        shapes_agree(y + x, order),
{
    let from = x + y;
    let to = y + x;
    assert forall|p: int, q: int|
        0 <= p < to.len() && 0 <= q < to.len() && (#[trigger] to[p]).usable() && (
        #[trigger] to[q]).usable() && record_key(to[p], order) == record_key(
            to[q],
            order,
        ) implies same_shape(to[p].record, to[q].record) by {
        let p_from = if p < y.len() {
            p + x.len()
        } else {
            p - y.len()
        };
        let q_from = if q < y.len() {
            q + x.len()
        } else {
            q - y.len()
        };
        assert(from[p_from] == to[p] && from[q_from] == to[q]);
        assert(from[p_from].usable() && from[q_from].usable());
    }
}

/// A function that one of two merges of the same records holds is held by
/// the other, with the same counters.
proof fn lemma_counters_agree(
    s1: MergeState,
    x1: Seq<NamedRecordModel>,
    s2: MergeState,
    x2: Seq<NamedRecordModel>,
    key: (u64, u64),
    order: ByteOrder,
)
    requires
        gathered(s1, x1, order),
        gathered(s2, x2, order),
        forall|p: int| 0 <= p < x1.len() ==> x2.contains(#[trigger] x1[p]),
        forall|k: (u64, u64), j: int|
            key_total(x1, k, j, order) == #[trigger] key_total(x2, k, j, order),
        first_index_of(record_keys(s1.records, order), key) >= 0,
    ensures
        counters_of(s1.records, key, order) == counters_of(s2.records, key, order),
{
    let keys1 = record_keys(s1.records, order);
    let keys2 = record_keys(s2.records, order);
    let i1 = first_index_of(keys1, key);
    lemma_first_index_of(keys1, key);
    assert(record_key(s1.records[i1], order) == key);
    let p = choose|p: int|
        0 <= p < x1.len() && (#[trigger] x1[p]).usable() && record_key(x1[p], order) == record_key(
            s1.records[i1],
            order,
        );
    assert(x2.contains(x1[p]));
    let q = choose|q: int| 0 <= q < x2.len() && x2[q] == x1[p];
    assert(x2[q].usable());
    let i2 = first_index_of(keys2, key);
    lemma_first_index_of(keys2, key);
    assert(first_index_of(keys1, record_key(x1[p], order)) == i1);
    assert(same_shape(s1.records[i1].record, x1[p].record));
    assert(i2 >= 0 && same_shape(s2.records[i2].record, x2[q].record));
    assert(record_key(s2.records[i2], order) == key);
    let c1 = s1.records[i1].record.counts;
    let c2 = s2.records[i2].record.counts;
    assert forall|j: int| 0 <= j < c1.len() implies c1[j] == c2[j] by {
        assert(c1[j] == capped(key_total(x1, record_key(s1.records[i1], order), j, order)));
        assert(c2[j] == capped(key_total(x2, record_key(s2.records[i2], order), j, order)));
    }
    assert(c1 =~= c2);
}

/// Which of two groups of records a merge takes in first changes neither
/// whether it succeeds nor the counters that it holds for any function.
pub proof fn lemma_absorb_swap(x: Seq<NamedRecordModel>, y: Seq<NamedRecordModel>, order: ByteOrder)
    ensures
        absorb_records(empty_state(), x + y, order) is Ok <==> absorb_records(
            empty_state(),
            y + x,
            order,
        ) is Ok,
        absorb_records(empty_state(), x + y, order) is Ok ==> forall|key: (u64, u64)|
            counters_of(absorb_records(empty_state(), x + y, order)->Ok_0.records, key, order)
                == #[trigger] counters_of(
                absorb_records(empty_state(), y + x, order)->Ok_0.records,
                key,
                order,
            ),
{
    lemma_absorb_gathers(x + y, order);
    lemma_absorb_gathers(y + x, order);
    if shapes_agree(x + y, order) {
        lemma_shapes_agree_swap(x, y, order);
    }
    if shapes_agree(y + x, order) {
        lemma_shapes_agree_swap(y, x, order);
    }
    if absorb_records(empty_state(), x + y, order) is Ok {
        let s1 = absorb_records(empty_state(), x + y, order)->Ok_0;
        let s2 = absorb_records(empty_state(), y + x, order)->Ok_0;
        let x1 = x + y;
        let x2 = y + x;
        assert forall|p: int| 0 <= p < x1.len() implies x2.contains(#[trigger] x1[p]) by {
            let q = if p < x.len() {
                p + y.len()
            } else {
                p - x.len()
            };
            assert(x2[q] == x1[p]);
        }
        assert forall|p: int| 0 <= p < x2.len() implies x1.contains(#[trigger] x2[p]) by {
            let q = if p < y.len() {
                p + x.len()
            } else {
                p - y.len()
            };
            assert(x1[q] == x2[p]);
        }
        assert forall|k: (u64, u64), j: int|
            key_total(x1, k, j, order) == #[trigger] key_total(x2, k, j, order) by {
            lemma_key_total_concat(x, y, k, j, order);
            lemma_key_total_concat(y, x, k, j, order);
        }
        assert forall|k: (u64, u64), j: int|
            key_total(x2, k, j, order) == #[trigger] key_total(x1, k, j, order) by {
            lemma_key_total_concat(x, y, k, j, order);
            lemma_key_total_concat(y, x, k, j, order);
        }
        assert forall|key: (u64, u64)|
            counters_of(s1.records, key, order) == #[trigger] counters_of(
                s2.records,
                key,
                order,
            ) by {
            if first_index_of(record_keys(s1.records, order), key) >= 0 {
                lemma_counters_agree(s1, x1, s2, x2, key, order);
            } else if first_index_of(record_keys(s2.records, order), key) >= 0 {
                lemma_counters_agree(s2, x2, s1, x1, key, order);
            }
        }
    }
}

/// The order of the profiles changes neither whether they can be merged nor
/// the counters of any function in the merged profile: the merge of `a`, `b`
/// and `c` has the counters of the merge of `c`, `a` and `b`.
pub proof fn lemma_merge_is_commutative(
    a: ProfileModel,
    b: ProfileModel,
    c: ProfileModel,
    order: ByteOrder,
)
    ensures
        merge_spec(seq![a, b, c], order) is Ok <==> merge_spec(seq![c, a, b], order) is Ok,
        ({
            let first = merge_spec(seq![a, b, c], order)->Ok_0.profile.records;
            let second = merge_spec(seq![c, a, b], order)->Ok_0.profile.records;
            merge_spec(seq![a, b, c], order) is Ok ==> forall|key: (u64, u64)|
                counters_of(first, key, order) == #[trigger] counters_of(second, key, order)
        }),
{
    lemma_all_records_of_few(a, b, c);
    lemma_all_records_of_few(c, a, b);
    let x = a.records + b.records;
    let y = c.records;
    assert(c.records + a.records + b.records =~= y + x);
    lemma_absorb_swap(x, y, order);
    let first = seq![a, b, c];
    let second = seq![c, a, b];
    if levels_agree(first) {
        assert(first[0].is_ir == first[1].is_ir && first[0].is_ir == first[2].is_ir);
        assert forall|i: int| 0 <= i < second.len() implies (#[trigger] second[i]).is_ir
            == second[0].is_ir by {}
    }
    if levels_agree(second) {
        assert(second[0].is_ir == second[1].is_ir && second[0].is_ir == second[2].is_ir);
        assert forall|i: int| 0 <= i < first.len() implies (#[trigger] first[i]).is_ir
            == first[0].is_ir by {}
    }
}

/// A merge that takes in the records that it holds holds them as they are.
proof fn lemma_absorb_own_records(records: Seq<NamedRecordModel>, order: ByteOrder, k: int)
    requires
        keys_distinct(MergeState { records, saturated: false }, order),
        0 <= k <= records.len(),
    ensures
        absorb_records(empty_state(), records.take(k), order) == Ok::<MergeState, MergeErrorModel>(
            MergeState { records: records.take(k), saturated: false },
        ),
    decreases k,
{
    if k == 0 {
        assert(records.take(0) =~= Seq::<NamedRecordModel>::empty());
    } else {
        lemma_absorb_own_records(records, order, k - 1);
        let before = records.take(k - 1);
        let r = records[k - 1];
        assert(records.take(k).drop_last() =~= before);
        assert(records.take(k).last() == r);
        assert(r.usable());
        let keys = record_keys(records, order);
        let seen = record_keys(before, order);
        lemma_first_index_of(seen, record_key(r, order));
        let i = first_index_of(seen, record_key(r, order));
        if i >= 0 {
            assert(seen[i] == keys[i]);
            assert(keys[i] == keys[k - 1]);
        }
        assert(before.push(r) =~= records.take(k));
    }
}

/// What a merge holds after more records does not depend on whether a sum
/// went over the largest count before.
proof fn lemma_absorb_whatever_flag(
    s1: MergeState,
    s2: MergeState,
    records: Seq<NamedRecordModel>,
    order: ByteOrder,
)
    requires
        s1.records == s2.records,
    ensures
        match (absorb_records(s1, records, order), absorb_records(s2, records, order)) {
            (Ok(x), Ok(y)) => x.records == y.records,
            (Err(e), Err(f)) => e == f,
            _ => false,
        },
    decreases records.len(),
{
    if records.len() > 0 {
        lemma_absorb_whatever_flag(s1, s2, records.drop_last(), order);
    }
}

/// Merging the merge of `a` and `b` with `c` is merging `a`, `b` and `c`:
/// the two give the same profile, or fail for the same reason.
pub proof fn lemma_merge_is_associative(
    a: ProfileModel,
    b: ProfileModel,
    c: ProfileModel,
    order: ByteOrder,
)
    requires
        merge_spec(seq![a, b], order) is Ok,
    ensures
        match (
            merge_spec(seq![merge_spec(seq![a, b], order)->Ok_0.profile, c], order),
            merge_spec(seq![a, b, c], order),
        ) {
            (Ok(x), Ok(y)) => x.profile == y.profile,
            (Err(e), Err(f)) => e == f,
            _ => false,
        },
{
    let ab = merge_spec(seq![a, b], order)->Ok_0.profile;
    let nested = seq![ab, c];
    let flat = seq![a, b, c];
    let pair = seq![a, b];
    lemma_all_records_of_few(a, b, c);
    lemma_all_records_of_few(ab, c, c);
    let x = a.records + b.records;
    lemma_absorb_gathers(x, order);
    let held = absorb_records(empty_state(), x, order)->Ok_0;
    assert(ab.records == held.records);
    // Levels.
    assert(pair[0].is_ir == pair[1].is_ir);
    assert(nested[1] == c && flat[2] == c);
    if ab.is_ir == c.is_ir {
        assert forall|i: int| 0 <= i < nested.len() implies (#[trigger] nested[i]).is_ir
            == nested[0].is_ir by {}
        assert forall|i: int| 0 <= i < flat.len() implies (#[trigger] flat[i]).is_ir
            == flat[0].is_ir by {}
    } else {
        assert(nested[1].is_ir != nested[0].is_ir);
        assert(flat[2].is_ir != flat[0].is_ir);
    }
    // Records.
    let own = MergeState { records: ab.records, saturated: false };
    lemma_absorb_own_records(ab.records, order, ab.records.len() as int);
    assert(ab.records.take(ab.records.len() as int) =~= ab.records);
    lemma_absorb_concat(empty_state(), ab.records, c.records, order);
    lemma_absorb_concat(empty_state(), x, c.records, order);
    lemma_absorb_whatever_flag(own, held, c.records, order);
    // The other parts of the profile.
    lemma_symtabs_of_few(ab, c, pair);
    lemma_symtabs_of_few(a, b, pair);
    assert(pair.push(c) =~= flat);
    assert(merge_symtabs(nested) =~= merge_symtabs(flat));
    assert(any_csir(nested) == any_csir(flat));
}

/// Taking in records again whose keys and shapes a merge holds changes none
/// of its keys, names, hashes and shapes.
proof fn lemma_absorb_again(
    state: MergeState,
    seen: Seq<NamedRecordModel>,
    more: Seq<NamedRecordModel>,
    order: ByteOrder,
)
    requires
        gathered(state, seen, order),
        shapes_agree(seen + more, order),
        forall|p: int| 0 <= p < more.len() ==> seen.contains(#[trigger] more[p]),
    ensures
        absorb_records(state, more, order) is Ok,
        ({
            let after = absorb_records(state, more, order)->Ok_0;
            &&& gathered(after, seen + more, order)
            &&& after.records.len() == state.records.len()
            &&& forall|i: int|
                0 <= i < state.records.len() ==> (#[trigger] after.records[i]).name
                    == state.records[i].name && after.records[i].hash == state.records[i].hash
                    && same_shape(after.records[i].record, state.records[i].record)
        }),
    decreases more.len(),
{
    if more.len() == 0 {
        assert(seen + more =~= seen);
    } else {
        let rest = more.drop_last();
        let r = more.last();
        let all = seen + more;
        assert(all.drop_last() =~= seen + rest);
        assert forall|p: int, q: int|
            0 <= p < (seen + rest).len() && 0 <= q < (seen + rest).len() && (#[trigger] (seen
                + rest)[p]).usable() && (#[trigger] (seen + rest)[q]).usable() && record_key(
                (seen + rest)[p],
                order,
            ) == record_key((seen + rest)[q], order) implies same_shape(
            (seen + rest)[p].record,
            (seen + rest)[q].record,
        ) by {
            assert(all[p].usable() && all[q].usable());
        }
        assert forall|p: int| 0 <= p < rest.len() implies seen.contains(#[trigger] rest[p]) by {
            assert(rest[p] == more[p]);
        }
        lemma_absorb_again(state, seen, rest, order);
        let mid = absorb_records(state, rest, order)->Ok_0;
        lemma_step_fails_iff(mid, seen + rest, r, order);
        assert((seen + rest).push(r) =~= all);
        if r.usable() {
            assert(all[all.len() - 1] == r);
            assert forall|p: int|
                0 <= p < (seen + rest).len() && (#[trigger] (seen + rest)[p]).usable()
                    && record_key((seen + rest)[p], order) == record_key(
                    r,
                    order,
                ) implies same_shape((seen + rest)[p].record, r.record) by {
                assert(all[p].usable() && all[all.len() - 1].usable());
            }
            assert(absorb_record(mid, r, order) is Ok);
            // The key of `r` is held, for `r` is among the records seen.
            assert(seen.contains(more[more.len() - 1]));
            let w = choose|w: int| 0 <= w < seen.len() && seen[w] == r;
            assert((seen + rest)[w] == r);
            assert((seen + rest)[w].usable());
            let keys = record_keys(mid.records, order);
            let at = first_index_of(keys, record_key(r, order));
            assert(at >= 0);
            lemma_first_index_of(keys, record_key(r, order));
            lemma_step_known_key(
                mid,
                seen + rest,
                r,
                order,
                absorb_record(mid, r, order)->Ok_0.saturated,
            );
            lemma_combined_shape(mid.records[at], r);
            let after = absorb_record(mid, r, order)->Ok_0;
            assert forall|i: int| 0 <= i < state.records.len() implies (
            #[trigger] after.records[i]).name == state.records[i].name && after.records[i].hash
                == state.records[i].hash && same_shape(
                after.records[i].record,
                state.records[i].record,
            ) by {
                assert(mid.records[i].name == state.records[i].name);
                if i != at {
                    assert(after.records[i] == mid.records[i]);
                }
            }
        } else {
            lemma_step_unusable(mid, seen + rest, r, order);
        }
    }
}

/// Merging a profile with a copy of itself doubles every counter: each
/// function of the merge of the profile alone is a function of the merge of
/// the two, at the same place, with as many counters, of which each is the
/// sum of the counter with itself, held at the largest counter.
pub proof fn lemma_merge_with_itself_doubles(profile: ProfileModel, order: ByteOrder)
    requires
        merge_spec(seq![profile], order) is Ok,
    ensures
        merge_spec(seq![profile, profile], order) is Ok,
        ({
            let once = merge_spec(seq![profile], order)->Ok_0.profile.records;
            let twice = merge_spec(seq![profile, profile], order)->Ok_0.profile.records;
            &&& twice.len() == once.len()
            &&& forall|i: int|
                0 <= i < once.len() ==> (#[trigger] twice[i]).name == once[i].name && twice[i].hash
                    == once[i].hash && twice[i].record.counts.len() == once[i].record.counts.len()
            &&& forall|i: int, j: int|
                0 <= i < once.len() && 0 <= j < once[i].record.counts.len()
                    ==> #[trigger] twice[i].record.counts[j] == sat_add(
                    once[i].record.counts[j],
                    once[i].record.counts[j],
                )
        }),
{
    let x = profile.records;
    lemma_all_records_of_few(profile, profile, profile);
    lemma_absorb_gathers(x, order);
    let held = absorb_records(empty_state(), x, order)->Ok_0;
    assert forall|p: int, q: int|
        0 <= p < (x + x).len() && 0 <= q < (x + x).len() && (#[trigger] (x + x)[p]).usable() && (
        #[trigger] (x + x)[q]).usable() && record_key((x + x)[p], order) == record_key(
            (x + x)[q],
            order,
        ) implies same_shape((x + x)[p].record, (x + x)[q].record) by {
        let p_from = if p < x.len() {
            p
        } else {
            p - x.len()
        };
        let q_from = if q < x.len() {
            q
        } else {
            q - x.len()
        };
        assert(x[p_from] == (x + x)[p] && x[q_from] == (x + x)[q]);
        assert(x[p_from].usable() && x[q_from].usable());
    }
    assert forall|p: int| 0 <= p < x.len() implies x.contains(#[trigger] x[p]) by {}
    lemma_absorb_again(held, x, x, order);
    lemma_absorb_concat(empty_state(), x, x, order);
    let after = absorb_records(held, x, order)->Ok_0;
    let pair = seq![profile, profile];
    assert forall|i: int| 0 <= i < pair.len() implies (#[trigger] pair[i]).is_ir
        == pair[0].is_ir by {}
    assert forall|i: int, j: int|
        0 <= i < held.records.len() && 0 <= j < held.records[i].record.counts.len() implies
        #[trigger] after.records[i].record.counts[j] == sat_add(
        held.records[i].record.counts[j],
        held.records[i].record.counts[j],
    ) by {
        let k = record_key(held.records[i], order);
        assert(after.records[i].name == held.records[i].name);
        assert(record_key(after.records[i], order) == k);
        lemma_key_total_concat(x, x, k, j, order);
        assert(held.records[i].record.counts[j] == capped(key_total(x, k, j, order)));
        assert(after.records[i].record.counts[j] == capped(
            key_total(x + x, record_key(after.records[i], order), j, order),
        ));
        lemma_capped_sum(key_total(x, k, j, order), key_total(x, k, j, order));
    }
}

/// The samples of a value site, each with its count added to itself.
pub open spec fn doubled_samples(s: Seq<InstrProfValueData>) -> Seq<InstrProfValueData> {
    Seq::new(
        s.len(),
        |i: int| InstrProfValueData { value: s[i].value, count: sat_add(s[i].count, s[i].count) },
    )
}

/// Samples of which no two have one value are combined into themselves.
proof fn lemma_combine_distinct_samples(s: Seq<InstrProfValueData>, k: int)
    requires
        sample_values(s).no_duplicates(),
        0 <= k <= s.len(),
    ensures
        combine_samples(s.take(k)) == s.take(k),
    decreases k,
{
    if k == 0 {
        assert(s.take(0) =~= Seq::<InstrProfValueData>::empty());
    } else {
        lemma_combine_distinct_samples(s, k - 1);
        let before = s.take(k - 1);
        let x = s[k - 1];
        assert(s.take(k).drop_last() =~= before);
        assert(s.take(k).last() == x);
        let values = sample_values(before);
        lemma_first_index_of(values, x.value);
        let i = first_index_of(values, x.value);
        if i >= 0 {
            assert(values[i] == sample_values(s)[i]);
            assert(sample_values(s)[k - 1] == x.value);
        }
        assert(before.push(x) =~= s.take(k));
    }
}

/// Combining such samples with the first `k` of them once more adds the
/// count of each of these to itself.
proof fn lemma_combine_samples_twice(s: Seq<InstrProfValueData>, k: int)
    requires
        sample_values(s).no_duplicates(),
        0 <= k <= s.len(),
    ensures
        combine_samples(s + s.take(k)) == Seq::new(
            s.len(),
            |i: int|
                if i < k {
                    doubled_samples(s)[i]
                } else {
                    s[i]
                },
        ),
    decreases k,
{
    let n = s.len() as int;
    if k == 0 {
        assert(s + s.take(0) =~= s);
        lemma_combine_distinct_samples(s, n);
        assert(s.take(n) =~= s);
        assert(s =~= Seq::new(
            s.len(),
            |i: int|
                if i < 0 {
                    doubled_samples(s)[i]
                } else {
                    s[i]
                },
        ));
    } else {
        lemma_combine_samples_twice(s, k - 1);
        let acc = combine_samples(s + s.take(k - 1));
        let x = s[k - 1];
        assert((s + s.take(k)).drop_last() =~= s + s.take(k - 1));
        assert((s + s.take(k)).last() == x);
        let values = sample_values(acc);
        assert forall|j: int| 0 <= j < n implies values[j] == sample_values(s)[j] by {}
        assert forall|j: int| 0 <= j < k - 1 implies #[trigger] values[j] != x.value by {
            assert(sample_values(s)[j] != sample_values(s)[k - 1]);
        }
        lemma_first_index_is(values, x.value, k - 1);
        assert(absorb_sample(acc, x) =~= Seq::new(
            s.len(),
            |i: int|
                if i < k {
                    doubled_samples(s)[i]
                } else {
                    s[i]
                },
        ));
    }
}

/// Combining the samples of a value site with themselves sums every count
/// with itself, if no value occurs twice among them.
pub proof fn lemma_site_with_itself_doubles(s: Seq<InstrProfValueData>)
    requires
        sample_values(s).no_duplicates(),
    ensures
        combine_samples(s + s) == doubled_samples(s),
{
    lemma_combine_samples_twice(s, s.len() as int);
    assert(s.take(s.len() as int) =~= s);
    assert(doubled_samples(s) =~= Seq::new(
        s.len(),
        |i: int|
            if i < s.len() {
                doubled_samples(s)[i]
            } else {
                s[i]
            },
    ));
}

/// A merge that takes in the first `k` of the records that it holds once
/// more merges each of these with itself.
proof fn lemma_absorb_own_twice(records: Seq<NamedRecordModel>, order: ByteOrder, k: int)
    requires
        keys_distinct(MergeState { records, saturated: false }, order),
        0 <= k <= records.len(),
    ensures
        absorb_records(MergeState { records, saturated: false }, records.take(k), order) is Ok,
        absorb_records(
            MergeState { records, saturated: false },
            records.take(k),
            order,
        )->Ok_0.records == Seq::new(
            records.len(),
            |i: int|
                if i < k {
                    combine_records(records[i], records[i])
                } else {
                    records[i]
                },
        ),
    decreases k,
{
    let start = MergeState { records, saturated: false };
    if k == 0 {
        assert(records.take(0) =~= Seq::<NamedRecordModel>::empty());
        assert(records =~= Seq::new(
            records.len(),
            |i: int|
                if i < 0 {
                    combine_records(records[i], records[i])
                } else {
                    records[i]
                },
        ));
    } else {
        lemma_absorb_own_twice(records, order, k - 1);
        let mid = absorb_records(start, records.take(k - 1), order)->Ok_0;
        let r = records[k - 1];
        assert(records.take(k).drop_last() =~= records.take(k - 1));
        assert(records.take(k).last() == r);
        assert(r.usable());
        let keys = record_keys(records, order);
        let held = record_keys(mid.records, order);
        assert(held =~= keys) by {
            assert forall|i: int| 0 <= i < records.len() implies held[i] == keys[i] by {
                assert(records[i].usable());
            }
        }
        assert forall|j: int| 0 <= j < k - 1 implies #[trigger] keys[j] != keys[k - 1] by {}
        lemma_first_index_is(keys, record_key(r, order), k - 1);
        assert(mid.records[k - 1] == r);
        assert(absorb_record(mid, r, order) is Ok);
        assert(absorb_record(mid, r, order)->Ok_0.records =~= Seq::new(
            records.len(),
            |i: int|
                if i < k {
                    combine_records(records[i], records[i])
                } else {
                    records[i]
                },
        ));
    }
}

/// The usable records of a sequence, in their order.
pub open spec fn usable_only(records: Seq<NamedRecordModel>) -> Seq<NamedRecordModel>
    decreases records.len(),
{
    if records.len() == 0 {
        Seq::empty()
    } else if records.last().usable() {
        usable_only(records.drop_last()).push(records.last())
    } else {
        usable_only(records.drop_last())
    }
}

/// Whether no two usable records of a sequence are of one function.
pub open spec fn distinct_usable_keys(records: Seq<NamedRecordModel>, order: ByteOrder) -> bool {
    forall|p: int, q: int|
        0 <= p < records.len() && 0 <= q < records.len() && p != q && (
        #[trigger] records[p]).usable() && (#[trigger] records[q]).usable() ==> record_key(
            records[p],
            order,
        ) != record_key(records[q], order)
}

/// A merge passes over the records that cannot be used: it takes a sequence
/// of records in as it takes in the usable ones among them.
pub proof fn lemma_absorb_skips_unusable(
    state: MergeState,
    records: Seq<NamedRecordModel>,
    order: ByteOrder,
)
    ensures
        absorb_records(state, records, order) == absorb_records(
            state,
            usable_only(records),
            order,
        ),
    decreases records.len(),
{
    if records.len() > 0 {
        let rest = records.drop_last();
        lemma_absorb_skips_unusable(state, rest, order);
        if records.last().usable() {
            assert(usable_only(records).drop_last() =~= usable_only(rest));
        }
    }
}

/// The usable records of a sequence are records of the sequence, and no two
/// of them are of one function if no two usable records of the sequence are.
pub proof fn lemma_usable_only_distinct(records: Seq<NamedRecordModel>, order: ByteOrder)
    requires
        distinct_usable_keys(records, order),
    ensures
        keys_distinct(MergeState { records: usable_only(records), saturated: false }, order),
        forall|i: int|
            0 <= i < usable_only(records).len() ==> records.contains(
                #[trigger] usable_only(records)[i],
            ),
    decreases records.len(),
{
    let kept = usable_only(records);
    if records.len() == 0 {
        assert(record_keys(kept, order) =~= Seq::<(u64, u64)>::empty());
    } else {
        let rest = records.drop_last();
        let before = usable_only(rest);
        let last = records.last();
        assert forall|q: int| 0 <= q < rest.len() implies rest[q] == records[q] by {}
        assert(distinct_usable_keys(rest, order)) by {
            assert forall|p: int, q: int|
                0 <= p < rest.len() && 0 <= q < rest.len() && p != q && (
                #[trigger] rest[p]).usable() && (#[trigger] rest[q]).usable() implies record_key(
                rest[p],
                order,
            ) != record_key(rest[q], order) by {
                assert(records[p].usable() && records[q].usable());
            }
        }
        lemma_usable_only_distinct(rest, order);
        assert forall|i: int| 0 <= i < kept.len() implies records.contains(#[trigger] kept[i]) by {
            if i < before.len() {
                assert(rest.contains(before[i]));
                let q = choose|q: int| 0 <= q < rest.len() && rest[q] == before[i];
                assert(records[q] == kept[i]);
            } else {
                assert(records[records.len() - 1] == kept[i]);
            }
        }
        if last.usable() {
            let keys = record_keys(kept, order);
            let n = before.len() as int;
            assert forall|x: int, y: int|
                0 <= x < keys.len() && 0 <= y < keys.len() && x != y implies keys[x] != keys[y] by {
                let earlier = record_keys(before, order);
                if x < n && y < n {
                    assert(earlier[x] != earlier[y]);
                } else {
                    let low = if x < n {
                        x
                    } else {
                        y
                    };
                    assert(rest.contains(before[low]));
                    let q = choose|q: int| 0 <= q < rest.len() && rest[q] == before[low];
                    assert(before[low].usable());
                    assert(records[q].usable() && records[records.len() - 1].usable());
                }
            }
            assert forall|i: int| 0 <= i < kept.len() implies (#[trigger] kept[i]).usable() by {
                if i < n {
                    assert(before[i].usable());
                }
            }
        }
    }
}

/// Merging a profile with a copy of itself merges every usable record with
/// itself, value sites and all, if no two usable records of the profile are
/// of one function: the merge of the profile alone holds its usable records
/// as they are, and the merge of the two holds, in the place of each, the
/// record that it is merged into with itself.
pub proof fn lemma_merge_with_itself_merges_each(profile: ProfileModel, order: ByteOrder)
    requires
        distinct_usable_keys(profile.records, order),
    ensures
        merge_spec(seq![profile], order) is Ok,
        merge_spec(seq![profile], order)->Ok_0.profile.records == usable_only(profile.records),
        merge_spec(seq![profile, profile], order) is Ok,
        merge_spec(seq![profile, profile], order)->Ok_0.profile.records == Seq::new(
            usable_only(profile.records).len(),
            |i: int|
                combine_records(usable_only(profile.records)[i], usable_only(profile.records)[i]),
        ),
{
    let x = profile.records;
    let kept = usable_only(x);
    let n = kept.len() as int;
    let held = MergeState { records: kept, saturated: false };
    lemma_all_records_of_few(profile, profile, profile);
    lemma_usable_only_distinct(x, order);
    lemma_absorb_skips_unusable(empty_state(), x, order);
    lemma_absorb_skips_unusable(held, x, order);
    lemma_absorb_own_records(kept, order, n);
    lemma_absorb_own_twice(kept, order, n);
    assert(kept.take(n) =~= kept);
    lemma_absorb_concat(empty_state(), x, x, order);
    let pair = seq![profile, profile];
    let single = seq![profile];
    assert forall|i: int| 0 <= i < pair.len() implies (#[trigger] pair[i]).is_ir
        == pair[0].is_ir by {}
    assert forall|i: int| 0 <= i < single.len() implies (#[trigger] single[i]).is_ir
        == single[0].is_ir by {}
    assert(merge_spec(pair, order)->Ok_0.profile.records =~= Seq::new(
        kept.len(),
        |i: int| combine_records(kept[i], kept[i]),
    ));
}

} // verus!
