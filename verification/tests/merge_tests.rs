use llvm_profparser::instrumentation_profile::hashing::{name_hash, ByteOrder};
use llvm_profparser::instrumentation_profile::merge::{
    merge, merge_in, merge_reporting, MergeError,
};
use llvm_profparser::instrumentation_profile::types::{
    InstrProfRecord, InstrProfValueData, InstrumentationProfile, NamedInstrProfRecord, Symtab,
    ValueProfDataRecord,
};
use llvm_profparser::instrumentation_profile::value_sites::{
    merge_value_site, MAX_SAMPLES_PER_SITE,
};

fn sample(value: u64, count: u64) -> InstrProfValueData {
    InstrProfValueData { value, count }
}

fn record(name: &str, hash: u64, counts: Vec<u64>) -> NamedInstrProfRecord {
    NamedInstrProfRecord {
        name: Some(name.to_string()),
        hash: Some(hash),
        record: InstrProfRecord { counts, data: None },
    }
}

fn with_sites(
    mut r: NamedInstrProfRecord,
    calls: Vec<Vec<InstrProfValueData>>,
    sizes: Vec<Vec<InstrProfValueData>>,
) -> NamedInstrProfRecord {
    r.record.data =
        Some(Box::new(ValueProfDataRecord { indirect_callsites: calls, mem_op_sizes: sizes }));
    r
}

fn profile(is_ir: bool, records: Vec<NamedInstrProfRecord>) -> InstrumentationProfile {
    InstrumentationProfile::new(None, is_ir, false, records, Symtab::default())
}

fn counters(p: &InstrumentationProfile, name: &str, hash: u64) -> Option<Vec<u64>> {
    p.records
        .iter()
        .find(|r| r.name.as_deref() == Some(name) && r.hash == Some(hash))
        .map(|r| r.record.counts.clone())
}

#[test]
fn merge_of_nothing_is_an_empty_profile() {
    let merged = merge(vec![]).unwrap();
    assert_eq!(merged, InstrumentationProfile::default());
}

#[test]
fn merge_of_one_profile_keeps_its_records() {
    let p = profile(false, vec![record("f", 1, vec![1, 2]), record("g", 2, vec![3])]);
    let merged = merge(vec![p.clone()]).unwrap();
    assert_eq!(merged, p);
}

#[test]
fn self_merge_doubles_every_counter() {
    let r = with_sites(
        record("f", 7, vec![10, 0, 3]),
        vec![vec![sample(100, 4), sample(200, 9)]],
        vec![vec![sample(8, 1)], vec![]],
    );
    let p = profile(false, vec![r, record("g", 8, vec![5])]);
    let out = merge_in(vec![p.clone(), p.clone()], ByteOrder::LittleEndian).unwrap();
    assert!(!out.saturated);
    let merged = out.profile;
    assert_eq!(merged.records.len(), 2);
    assert_eq!(merged.records[0].record.counts, vec![20, 0, 6]);
    assert_eq!(merged.records[1].record.counts, vec![10]);
    let data = merged.records[0].record.data.as_ref().unwrap();
    assert_eq!(data.indirect_callsites, vec![vec![sample(200, 18), sample(100, 8)]]);
    assert_eq!(data.mem_op_sizes, vec![vec![sample(8, 2)], vec![]]);
    assert!(merged.records[1].record.data.is_none());
}

#[test]
fn merge_does_not_depend_on_order_or_grouping() {
    let a = profile(false, vec![record("f", 1, vec![1, 2, 3]), record("g", 2, vec![10])]);
    let b = profile(false, vec![record("g", 2, vec![20]), record("h", 3, vec![7, 7])]);
    let c = profile(false, vec![record("h", 3, vec![1, 0]), record("f", 1, vec![100, 200, 300])]);
    let flat = merge(vec![a.clone(), b.clone(), c.clone()]).unwrap();
    let nested = merge(vec![merge(vec![a.clone(), b.clone()]).unwrap(), c.clone()]).unwrap();
    let rotated = merge(vec![c, a, b]).unwrap();
    assert_eq!(flat, nested);
    for (name, hash, expected) in
        [("f", 1, vec![101, 202, 303]), ("g", 2, vec![30]), ("h", 3, vec![8, 7])]
    {
        assert_eq!(counters(&flat, name, hash), Some(expected.clone()));
        assert_eq!(counters(&rotated, name, hash), Some(expected));
    }
    assert_eq!(flat.records.len(), 3);
    assert_eq!(rotated.records.len(), 3);
    // Records stand in the order in which their functions first came.
    let names: Vec<_> = flat.records.iter().map(|r| r.name.clone().unwrap()).collect();
    assert_eq!(names, vec!["f", "g", "h"]);
    let names: Vec<_> = rotated.records.iter().map(|r| r.name.clone().unwrap()).collect();
    assert_eq!(names, vec!["h", "f", "g"]);
}

#[test]
fn same_name_with_other_hash_is_another_function() {
    let a = profile(false, vec![record("f", 1, vec![1, 1])]);
    let b = profile(false, vec![record("f", 2, vec![5, 5, 5])]);
    let merged = merge(vec![a, b]).unwrap();
    assert_eq!(merged.records.len(), 2);
    assert_eq!(counters(&merged, "f", 1), Some(vec![1, 1]));
    assert_eq!(counters(&merged, "f", 2), Some(vec![5, 5, 5]));
}

#[test]
fn duplicates_within_one_profile_are_merged() {
    let p = profile(false, vec![record("f", 1, vec![1, 2]), record("f", 1, vec![10, 20])]);
    let merged = merge(vec![p]).unwrap();
    assert_eq!(merged.records.len(), 1);
    assert_eq!(merged.records[0].record.counts, vec![11, 22]);
}

#[test]
fn unusable_records_are_dropped() {
    let mut nameless = record("x", 1, vec![1]);
    nameless.name = None;
    let mut hashless = record("y", 2, vec![2]);
    hashless.hash = None;
    let merged = merge(vec![profile(false, vec![nameless, record("z", 3, vec![3]), hashless])]);
    let merged = merged.unwrap();
    assert_eq!(merged.records.len(), 1);
    assert_eq!(merged.records[0].name, Some("z".to_string()));
}

#[test]
fn counters_saturate_and_saturation_is_reported() {
    let a = profile(false, vec![record("f", 1, vec![u64::MAX - 1, 5])]);
    let b = profile(false, vec![record("f", 1, vec![1, 5])]);
    let out = merge_in(vec![a.clone(), b.clone()], ByteOrder::native()).unwrap();
    assert_eq!(out.profile.records[0].record.counts, vec![u64::MAX, 10]);
    assert!(!out.saturated);
    let c = profile(false, vec![record("f", 1, vec![2, 5])]);
    let out = merge_in(vec![a, c], ByteOrder::native()).unwrap();
    assert_eq!(out.profile.records[0].record.counts, vec![u64::MAX, 10]);
    assert!(out.saturated);
}

#[test]
fn incompatible_levels_are_refused() {
    let a = profile(false, vec![record("f", 1, vec![1])]);
    let b = profile(true, vec![record("f", 1, vec![1])]);
    assert_eq!(merge(vec![a.clone(), b.clone()]), Err(MergeError::IncompatibleLevels));
    assert_eq!(merge(vec![b.clone(), a.clone(), a]), Err(MergeError::IncompatibleLevels));
    let merged = merge(vec![b.clone(), b]).unwrap();
    assert!(merged.is_ir_level_profile());
}

#[test]
fn counter_count_mismatch_is_refused() {
    let a = profile(false, vec![record("f", 1, vec![1, 2, 3])]);
    let b = profile(false, vec![record("g", 2, vec![1]), record("f", 1, vec![1, 2, 3, 4])]);
    assert_eq!(
        merge(vec![a, b]),
        Err(MergeError::CounterCountMismatch { name: "f".to_string(), hash: 1 })
    );
}

#[test]
fn value_site_count_mismatch_is_refused() {
    let a = with_sites(record("f", 1, vec![1]), vec![vec![], vec![]], vec![]);
    let b = with_sites(record("f", 1, vec![1]), vec![vec![]], vec![]);
    assert_eq!(
        merge(vec![profile(false, vec![a.clone()]), profile(false, vec![b])]),
        Err(MergeError::ValueSiteCountMismatch { name: "f".to_string(), hash: 1 })
    );
    // A record without payload has no sites.
    let bare = record("f", 1, vec![1]);
    assert_eq!(
        merge(vec![profile(false, vec![bare]), profile(false, vec![a])]),
        Err(MergeError::ValueSiteCountMismatch { name: "f".to_string(), hash: 1 })
    );
}

#[test]
fn payload_with_no_sites_merges_with_no_payload() {
    let a = with_sites(record("f", 1, vec![1]), vec![], vec![]);
    let b = record("f", 1, vec![2]);
    let merged = merge(vec![profile(false, vec![a]), profile(false, vec![b])]).unwrap();
    assert_eq!(merged.records[0].record.counts, vec![3]);
    assert_eq!(
        merged.records[0].record.data,
        Some(Box::new(ValueProfDataRecord { indirect_callsites: vec![], mem_op_sizes: vec![] }))
    );
}

#[test]
fn flags_are_joined_and_version_is_the_first() {
    let mut a = InstrumentationProfile::new(Some(4), true, false, vec![], Symtab::default());
    let b = InstrumentationProfile::new(Some(9), true, true, vec![], Symtab::default());
    a.symtab.add_func_name("f".to_string());
    let merged = merge(vec![a, b]).unwrap();
    assert_eq!(merged.version(), Some(4));
    assert!(merged.is_ir_level_profile());
    assert!(merged.has_csir_level_profile());
    assert_eq!(merged.symtab.len(), 1);
}

#[test]
fn symbol_tables_are_joined_and_the_later_name_wins() {
    let mut a = profile(false, vec![]);
    let mut b = profile(false, vec![]);
    let f = a.symtab.add_func_name("f".to_string());
    a.symtab.names.insert(1, "early".to_string());
    b.symtab.names.insert(1, "late".to_string());
    let g = b.symtab.add_func_name("g".to_string());
    let merged = merge(vec![a, b]).unwrap();
    assert_eq!(merged.symtab.len(), 3);
    assert_eq!(merged.symtab.lookup(f), Some(&"f".to_string()));
    assert_eq!(merged.symtab.lookup(g), Some(&"g".to_string()));
    assert_eq!(merged.symtab.lookup(1), Some(&"late".to_string()));
}

#[test]
fn records_are_matched_by_name_hash() {
    let order = ByteOrder::BigEndian;
    let a = profile(false, vec![record("f", 1, vec![1])]);
    let b = profile(false, vec![record("f", 1, vec![2])]);
    let out = merge_in(vec![a, b], order).unwrap();
    assert_eq!(out.profile.records.len(), 1);
    assert_ne!(name_hash("f", order), name_hash("g", order));
}

#[test]
fn value_site_merge_sums_by_value_and_ranks() {
    let a = vec![sample(1, 10), sample(2, 5), sample(3, 1)];
    let b = vec![sample(3, 9), sample(4, 5), sample(1, 1)];
    let (site, saturated) = merge_value_site(&a, &b);
    assert!(!saturated);
    // Highest count first; among equal counts the smaller value first.
    assert_eq!(site, vec![sample(1, 11), sample(3, 10), sample(2, 5), sample(4, 5)]);
}

#[test]
fn value_site_merge_joins_repeated_values_of_one_site() {
    let a = vec![sample(7, 1), sample(7, 2)];
    let (site, _) = merge_value_site(&a, &vec![]);
    assert_eq!(site, vec![sample(7, 3)]);
    let (site, _) = merge_value_site(&vec![], &vec![]);
    assert!(site.is_empty());
}

#[test]
fn value_site_merge_saturates() {
    let a = vec![sample(1, u64::MAX)];
    let b = vec![sample(1, 1), sample(2, 3)];
    let (site, saturated) = merge_value_site(&a, &b);
    assert!(saturated);
    assert_eq!(site, vec![sample(1, u64::MAX), sample(2, 3)]);
}

#[test]
fn value_site_merge_keeps_the_top_samples() {
    assert_eq!(MAX_SAMPLES_PER_SITE, 255);
    let a: Vec<_> = (0..200u64).map(|v| sample(v, v + 1)).collect();
    let b: Vec<_> = (200..400u64).map(|v| sample(v, v + 1)).collect();
    let (site, saturated) = merge_value_site(&a, &b);
    assert!(!saturated);
    assert_eq!(site.len(), 255);
    assert_eq!(site[0], sample(399, 400));
    assert_eq!(site[254], sample(145, 146));
    for pair in site.windows(2) {
        assert!(pair[0].count > pair[1].count);
    }
}

#[test]
fn merged_sites_are_merged_position_by_position() {
    let a = with_sites(
        record("f", 1, vec![1]),
        vec![vec![sample(1, 1)], vec![sample(2, 2)]],
        vec![vec![sample(16, 3)]],
    );
    let b = with_sites(
        record("f", 1, vec![1]),
        vec![vec![sample(2, 5)], vec![sample(2, 5)]],
        vec![vec![sample(32, 3)]],
    );
    let merged = merge(vec![profile(false, vec![a]), profile(false, vec![b])]).unwrap();
    let data = merged.records[0].record.data.as_ref().unwrap();
    assert_eq!(
        data.indirect_callsites,
        vec![vec![sample(2, 5), sample(1, 1)], vec![sample(2, 7)]]
    );
    assert_eq!(data.mem_op_sizes, vec![vec![sample(16, 3), sample(32, 3)]]);
}

#[test]
fn merge_reporting_tells_of_saturation() {
    let a = profile(false, vec![record("f", 1, vec![u64::MAX, 5])]);
    let b = profile(false, vec![record("f", 1, vec![1, 5])]);
    let out = merge_reporting(vec![a.clone(), b]).unwrap();
    assert!(out.saturated);
    assert_eq!(out.profile.records[0].record.counts, vec![u64::MAX, 10]);
    let c = profile(false, vec![record("f", 1, vec![0, 5])]);
    let out = merge_reporting(vec![a.clone(), c.clone()]).unwrap();
    assert!(!out.saturated);
    assert_eq!(out.profile, merge(vec![a, c]).unwrap());
    let ir = profile(true, vec![]);
    assert_eq!(
        merge_reporting(vec![profile(false, vec![]), ir]),
        Err(MergeError::IncompatibleLevels)
    );
}

#[test]
fn self_merge_sums_the_samples_of_each_value() {
    // A site with a repeated value, and a record that cannot be used.
    let r = with_sites(
        record("f", 7, vec![1]),
        vec![vec![sample(5, 1), sample(9, 4), sample(5, 2)]],
        vec![],
    );
    let mut nameless = record("g", 8, vec![100]);
    nameless.name = None;
    let p = profile(false, vec![nameless, r.clone()]);
    let once = merge(vec![p.clone()]).unwrap();
    assert_eq!(once.records, vec![r]);
    let twice = merge(vec![p.clone(), p]).unwrap();
    assert_eq!(twice.records.len(), 1);
    assert_eq!(twice.records[0].record.counts, vec![2]);
    let data = twice.records[0].record.data.as_ref().unwrap();
    // Value 5 had the count 3 and value 9 the count 4.
    assert_eq!(data.indirect_callsites, vec![vec![sample(9, 8), sample(5, 6)]]);
    assert!(data.mem_op_sizes.is_empty());
}
