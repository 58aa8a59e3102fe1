use llvm_profparser::instrumentation_profile::hashing::{name_hash, ByteOrder};
use llvm_profparser::instrumentation_profile::merge::merge;
use llvm_profparser::instrumentation_profile::percentile::{cutoff_table, CutoffEntry};
use llvm_profparser::instrumentation_profile::ranking::sort_ranked;
use llvm_profparser::instrumentation_profile::summary::{
    function_count_of, is_usable, summarize, summarize_in, HotFunction, ProfileSummary,
};
use llvm_profparser::instrumentation_profile::types::{
    InstrProfRecord, InstrumentationLevel, InstrumentationProfile, NamedInstrProfRecord, Symtab,
};

fn record(name: &str, hash: u64, counts: Vec<u64>) -> NamedInstrProfRecord {
    NamedInstrProfRecord {
        name: Some(name.to_string()),
        hash: Some(hash),
        record: InstrProfRecord { counts, data: None },
    }
}

fn profile(is_ir: bool, records: Vec<NamedInstrProfRecord>) -> InstrumentationProfile {
    InstrumentationProfile::new(None, is_ir, false, records, Symtab::default())
}

fn entry(cutoff: u32, min_count: u64, num_counts: usize, cumulative_count: u128) -> CutoffEntry {
    CutoffEntry { cutoff, min_count, num_counts, cumulative_count }
}

#[test]
fn merge_adds_counters_and_summary_reads_them() {
    let a = profile(false, vec![record("f", 0x1, vec![10, 3, 7])]);
    let b = profile(false, vec![record("f", 0x1, vec![5, 1, 2])]);
    let merged = merge(vec![a, b]).unwrap();
    assert_eq!(merged.records.len(), 1);
    assert_eq!(merged.records[0].record.counts, vec![15, 4, 9]);
    let summary = summarize(&merged, &[], None);
    assert_eq!(summary.num_functions, 1);
    assert_eq!(summary.max_function_count, 15);
    assert_eq!(summary.max_internal_block_count, 9);
    assert!(summary.detailed_summary.is_empty());
    assert_eq!(summary.hot_functions, None);
}

#[test]
fn max_function_count_bounds_every_function_count() {
    let records = vec![
        record("a", 1, vec![3, 100, 2]),
        record("b", 2, vec![70, 1]),
        record("c", 3, vec![]),
        record("d", 4, vec![12]),
    ];
    let p = profile(false, records);
    let s = summarize(&p, &[], None);
    assert_eq!(s.num_functions, 4);
    assert_eq!(s.max_function_count, 70);
    assert_eq!(s.max_internal_block_count, 100);
    for r in &p.records {
        assert!(function_count_of(&r.record) <= s.max_function_count);
    }
}

#[test]
fn summary_skips_records_without_name_or_hash() {
    let mut nameless = record("x", 1, vec![1000, 2000]);
    nameless.name = None;
    let mut hashless = record("y", 2, vec![3000, 4000]);
    hashless.hash = None;
    assert!(!is_usable(&nameless));
    assert!(!is_usable(&hashless));
    let p = profile(false, vec![nameless, record("z", 3, vec![5, 6]), hashless]);
    let s = summarize(&p, &[], None);
    assert_eq!(s.num_functions, 1);
    assert_eq!(s.max_function_count, 5);
    assert_eq!(s.max_internal_block_count, 6);
}

#[test]
fn summary_of_empty_profile_is_zero() {
    let s = summarize(&profile(false, vec![]), &[500_000], Some(0));
    assert_eq!(s.num_functions, 0);
    assert_eq!(s.max_function_count, 0);
    assert_eq!(s.max_internal_block_count, 0);
    assert_eq!(s.detailed_summary, vec![entry(500_000, 0, 0, 0)]);
    assert_eq!(s.hot_functions, Some(vec![]));
}

#[test]
fn ir_level_counts_the_first_counter_as_a_block() {
    let records = vec![record("a", 1, vec![90, 10]), record("b", 2, vec![20, 30])];
    let fe = summarize(&profile(false, records.clone()), &[1_000_000], None);
    assert_eq!(fe.max_function_count, 90);
    assert_eq!(fe.max_internal_block_count, 30);
    assert_eq!(fe.detailed_summary, vec![entry(1_000_000, 10, 2, 40)]);
    let ir = summarize(&profile(true, records), &[1_000_000], None);
    assert_eq!(ir.max_function_count, 90);
    assert_eq!(ir.max_internal_block_count, 90);
    assert_eq!(ir.detailed_summary, vec![entry(1_000_000, 10, 4, 150)]);
}

#[test]
fn accumulator_follows_each_record() {
    let mut acc = ProfileSummary::new(InstrumentationLevel::FrontEnd);
    assert_eq!(acc.num_functions(), 0);
    acc.add_record(&InstrProfRecord { counts: vec![7, 1, 9], data: None });
    assert_eq!(acc.num_functions(), 1);
    assert_eq!(acc.max_function_count(), 7);
    assert_eq!(acc.max_internal_block_count(), 9);
    assert_eq!(acc.block_counts(), &vec![1, 9]);
    acc.add_record(&InstrProfRecord { counts: vec![8], data: None });
    acc.add_record(&InstrProfRecord { counts: vec![], data: None });
    assert_eq!(acc.num_functions(), 3);
    assert_eq!(acc.max_function_count(), 8);
    assert_eq!(acc.max_internal_block_count(), 9);
    assert_eq!(acc.block_counts(), &vec![1, 9]);
}

#[test]
fn cutoff_table_finds_thresholds() {
    let counts = vec![5, 100, 10, 50, 20, 50, 10, 5];
    let cutoffs = [400_000, 500_000, 900_000, 960_000, 999_999, 1_000_000];
    let table = cutoff_table(&counts, &cutoffs);
    assert_eq!(
        table,
        vec![
            entry(400_000, 100, 1, 100),
            entry(500_000, 50, 3, 200),
            entry(900_000, 10, 6, 240),
            entry(960_000, 10, 6, 240),
            entry(999_999, 5, 8, 250),
            entry(1_000_000, 5, 8, 250),
        ]
    );
}

#[test]
fn cutoff_table_edge_cases() {
    let counts = vec![5, 100, 10, 50, 20, 50, 10, 5];
    // Nothing is asked for: the hottest count alone.
    assert_eq!(cutoff_table(&counts, &[0]), vec![entry(0, 100, 1, 100)]);
    // More than the whole cannot be reached: everything.
    assert_eq!(cutoff_table(&counts, &[2_000_000]), vec![entry(2_000_000, 5, 8, 250)]);
    assert_eq!(cutoff_table(&counts, &[u32::MAX]), vec![entry(u32::MAX, 5, 8, 250)]);
    // No counts.
    assert_eq!(cutoff_table(&vec![], &[1, 2]), vec![entry(1, 0, 0, 0), entry(2, 0, 0, 0)]);
    // No cutoffs.
    assert!(cutoff_table(&counts, &[]).is_empty());
    // All counts zero: any share of nothing is reached at once.
    assert_eq!(cutoff_table(&vec![0, 0, 0], &[700_000]), vec![entry(700_000, 0, 3, 0)]);
    // One count.
    assert_eq!(cutoff_table(&vec![42], &[1]), vec![entry(1, 42, 1, 42)]);
}

#[test]
fn cutoff_table_with_largest_counts() {
    let counts = vec![u64::MAX, u64::MAX, u64::MAX, 1];
    let all = 3 * (u64::MAX as u128) + 1;
    let table = cutoff_table(&counts, &[1, 1_000_000]);
    assert_eq!(table[0], entry(1, u64::MAX, 3, 3 * (u64::MAX as u128)));
    assert_eq!(table[1], entry(1_000_000, 1, 4, all));
}

#[test]
fn hot_functions_are_ranked_by_count_then_name_hash() {
    let order = ByteOrder::LittleEndian;
    let records = vec![
        record("cold", 1, vec![5]),
        record("warm", 2, vec![50, 7]),
        record("hot", 3, vec![500]),
        record("tie_a", 4, vec![50]),
        record("tie_b", 5, vec![50]),
        record("edge", 6, vec![10]),
    ];
    let s = summarize_in(&profile(false, records), &[], Some(10), order);
    let mut ties: Vec<u64> = ["warm", "tie_a", "tie_b"].iter().map(|n| name_hash(n, order)).collect();
    ties.sort();
    let expected = vec![
        HotFunction { name_hash: name_hash("hot", order), function_count: 500 },
        HotFunction { name_hash: ties[0], function_count: 50 },
        HotFunction { name_hash: ties[1], function_count: 50 },
        HotFunction { name_hash: ties[2], function_count: 50 },
    ];
    assert_eq!(s.hot_functions, Some(expected));
}

#[test]
fn hot_threshold_is_exclusive() {
    let p = profile(false, vec![record("f", 1, vec![10]), record("g", 2, vec![11])]);
    let s = summarize(&p, &[], Some(10));
    let hot = s.hot_functions.unwrap();
    assert_eq!(hot.len(), 1);
    assert_eq!(hot[0].function_count, 11);
    assert_eq!(hot[0].name_hash, name_hash("g", ByteOrder::native()));
}

#[test]
fn sort_ranked_orders_counters() {
    assert_eq!(sort_ranked(&vec![3u64, 1, 2, 3, 0]), vec![0, 1, 2, 3, 3]);
    assert_eq!(sort_ranked(&Vec::<u64>::new()), Vec::<u64>::new());
    assert_eq!(sort_ranked(&vec![9u64]), vec![9]);
    let many: Vec<u64> = (0..1000u64).map(|i| (i * 7919) % 1009).collect();
    let mut expected = many.clone();
    expected.sort();
    assert_eq!(sort_ranked(&many), expected);
}
