use llvm_profparser::instrumentation_profile::hashing::{name_hash, ByteOrder};
use llvm_profparser::instrumentation_profile::overlap::{
    max_count_of, overlap, overlap_in, FunctionOverlap, Score,
};
use llvm_profparser::instrumentation_profile::types::{
    InstrProfRecord, InstrumentationProfile, NamedInstrProfRecord, Symtab,
};

const CS: u64 = 1 << 60;

fn record(name: &str, hash: u64, counts: Vec<u64>) -> NamedInstrProfRecord {
    NamedInstrProfRecord {
        name: Some(name.to_string()),
        hash: Some(hash),
        record: InstrProfRecord { counts, data: None },
    }
}

fn profile(records: Vec<NamedInstrProfRecord>) -> InstrumentationProfile {
    InstrumentationProfile::new(None, false, false, records, Symtab::default())
}

fn as_number(score: Score) -> f64 {
    score.matched as f64 / score.total as f64
}

#[test]
fn a_profile_overlaps_with_itself_wholly() {
    let p = profile(vec![
        record("f", 1, vec![10, 3, 7]),
        record("g", 2, vec![1]),
        record("h", 3, vec![0, 0]),
        record("f", 4, vec![9, 9, 9, 9]),
    ]);
    let report = overlap(&p, &p, false, None);
    assert_eq!(as_number(report.global_score), 1.0);
    assert_eq!(report.global_score, Score { matched: 21, total: 21 });
    assert_eq!(report.functions.len(), 3);
    for f in &report.functions {
        assert_eq!(as_number(f.score), 1.0);
        assert_eq!(f.base_index, f.test_index);
    }
}

#[test]
fn disjoint_profiles_do_not_overlap() {
    let base = profile(vec![record("f", 1, vec![10, 0, 7, 0]), record("g", 2, vec![0, 4])]);
    let test = profile(vec![record("f", 1, vec![0, 3, 0, 0]), record("g", 2, vec![8, 0])]);
    let report = overlap(&base, &test, false, None);
    assert_eq!(as_number(report.global_score), 0.0);
    assert_eq!(report.global_score, Score { matched: 0, total: 32 });
    for f in &report.functions {
        assert_eq!(as_number(f.score), 0.0);
    }
}

#[test]
fn all_zero_counters_overlap_wholly() {
    let base = profile(vec![record("f", 1, vec![0])]);
    let test = profile(vec![record("f", 1, vec![0])]);
    let report = overlap(&base, &test, false, None);
    assert_eq!(as_number(report.global_score), 1.0);
    assert_eq!(as_number(report.functions[0].score), 1.0);
}

#[test]
fn counter_vectors_of_different_lengths_do_not_overlap() {
    let base = profile(vec![record("f", 1, vec![1, 2, 3])]);
    let test = profile(vec![record("f", 1, vec![1, 2, 3, 4])]);
    let order = ByteOrder::LittleEndian;
    let report = overlap_in(&base, &test, false, None, order);
    assert_eq!(report.functions.len(), 1);
    assert_eq!(as_number(report.functions[0].score), 0.0);
    assert_eq!(report.functions[0].name_hash, name_hash("f", order));
    assert_eq!(report.global_score, Score { matched: 0, total: 16 });
}

#[test]
fn overlap_is_the_sum_of_minimums_over_the_sum_of_maximums() {
    let base = profile(vec![record("f", 1, vec![10, 3, 7]), record("g", 2, vec![100])]);
    let test = profile(vec![record("g", 2, vec![50]), record("f", 1, vec![5, 6, 7])]);
    let order = ByteOrder::LittleEndian;
    let report = overlap_in(&base, &test, false, None, order);
    assert_eq!(
        report.functions,
        vec![
            FunctionOverlap {
                name_hash: name_hash("g", order),
                base_index: 1,
                test_index: 0,
                score: Score { matched: 50, total: 100 },
            },
            FunctionOverlap {
                name_hash: name_hash("f", order),
                base_index: 0,
                test_index: 1,
                score: Score { matched: 15, total: 23 },
            },
        ]
    );
    // Over all functions together, not the mean of the two shares.
    assert_eq!(report.global_score, Score { matched: 65, total: 123 });
}

#[test]
fn functions_of_one_profile_only_are_left_out() {
    let base = profile(vec![record("f", 1, vec![4]), record("only_base", 2, vec![100])]);
    let test = profile(vec![record("only_test", 3, vec![100]), record("f", 1, vec![2])]);
    let report = overlap(&base, &test, false, None);
    assert_eq!(report.functions.len(), 1);
    assert_eq!(report.global_score, Score { matched: 2, total: 4 });
}

#[test]
fn nothing_matched_counts_as_whole() {
    let base = profile(vec![record("f", 1, vec![4])]);
    let test = profile(vec![record("g", 1, vec![4])]);
    let report = overlap(&base, &test, false, None);
    assert!(report.functions.is_empty());
    assert_eq!(report.global_score, Score { matched: 1, total: 1 });
}

#[test]
fn value_cutoff_hides_functions_but_counts_them() {
    let base = profile(vec![record("f", 1, vec![10, 10]), record("g", 2, vec![1, 2])]);
    let test = profile(vec![record("f", 1, vec![5, 20]), record("g", 2, vec![2, 1])]);
    let report = overlap(&base, &test, false, Some(20));
    assert_eq!(report.functions.len(), 1);
    assert_eq!(report.functions[0].score, Score { matched: 15, total: 30 });
    assert_eq!(report.global_score, Score { matched: 17, total: 34 });
    let report = overlap(&base, &test, false, Some(21));
    assert!(report.functions.is_empty());
    assert_eq!(report.global_score, Score { matched: 17, total: 34 });
    let report = overlap(&base, &test, false, Some(0));
    assert_eq!(report.functions.len(), 2);
}

#[test]
fn context_sensitive_overlap_looks_at_flagged_records_only() {
    let base = profile(vec![record("f", 1, vec![10]), record("f", 1 | CS, vec![100])]);
    let test = profile(vec![record("f", 2 | CS, vec![50]), record("f", 2, vec![10])]);
    let flat = overlap(&base, &test, false, None);
    assert_eq!(flat.functions.len(), 1);
    assert_eq!((flat.functions[0].base_index, flat.functions[0].test_index), (0, 1));
    assert_eq!(flat.global_score, Score { matched: 10, total: 10 });
    let cs = overlap(&base, &test, true, None);
    assert_eq!(cs.functions.len(), 1);
    assert_eq!((cs.functions[0].base_index, cs.functions[0].test_index), (1, 0));
    assert_eq!(cs.global_score, Score { matched: 50, total: 100 });
}

#[test]
fn each_name_is_held_against_its_first_record() {
    let base = profile(vec![record("f", 1, vec![4]), record("f", 2, vec![1000])]);
    let test = profile(vec![record("f", 3, vec![8]), record("f", 4, vec![1000])]);
    let report = overlap(&base, &test, false, None);
    assert_eq!(report.functions.len(), 1);
    assert_eq!(report.global_score, Score { matched: 4, total: 8 });
}

#[test]
fn unusable_records_are_passed_over() {
    let mut nameless = record("f", 1, vec![4]);
    nameless.name = None;
    let mut hashless = record("f", 1, vec![4]);
    hashless.hash = None;
    let base = profile(vec![nameless, record("f", 1, vec![6])]);
    let test = profile(vec![hashless, record("f", 1, vec![3])]);
    let report = overlap(&base, &test, false, None);
    assert_eq!(report.functions.len(), 1);
    assert_eq!((report.functions[0].base_index, report.functions[0].test_index), (1, 1));
    assert_eq!(report.global_score, Score { matched: 3, total: 6 });
}

#[test]
fn max_count_of_is_the_largest_counter() {
    assert_eq!(max_count_of(&vec![]), 0);
    assert_eq!(max_count_of(&vec![3, 9, 2]), 9);
    assert_eq!(max_count_of(&vec![u64::MAX, 1]), u64::MAX);
}
