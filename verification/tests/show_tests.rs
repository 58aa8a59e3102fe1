use llvm_profparser::instrumentation_profile::show::{check_function, show, ShowOptions};
use llvm_profparser::instrumentation_profile::stats::ValueSiteStats;
use llvm_profparser::instrumentation_profile::types::{
    InstrProfRecord, InstrProfValueData, InstrumentationLevel, InstrumentationProfile,
    NamedInstrProfRecord, Symtab, ValueKind, ValueProfDataRecord,
};

const CS: u64 = 1 << 60;

fn sample(value: u64, count: u64) -> InstrProfValueData {
    InstrProfValueData { value, count }
}

fn record(name: &str, hash: u64, counts: Vec<u64>) -> NamedInstrProfRecord {
    NamedInstrProfRecord {
        name: Some(name.to_string()),
        hash: Some(hash),
        record: InstrProfRecord { counts, data: None },
    }
}

fn options() -> ShowOptions {
    ShowOptions {
        show_counts: false,
        all_functions: false,
        ic_targets: false,
        memop_sizes: false,
        showcs: false,
        function: None,
    }
}

fn profile(is_ir: bool, records: Vec<NamedInstrProfRecord>) -> InstrumentationProfile {
    InstrumentationProfile::new(None, is_ir, false, records, Symtab::default())
}

#[test]
fn check_function_looks_for_the_pattern_in_the_name() {
    let name = "my_module::compute".to_string();
    let yes = |p: &str| check_function(Some(&name), Some(&p.to_string()));
    assert!(yes("compute"));
    assert!(yes("my_"));
    assert!(yes("::"));
    assert!(yes(""));
    assert!(yes("my_module::compute"));
    assert!(!yes("my_module::compute2"));
    assert!(!yes("Compute"));
    assert!(!yes("computes"));
    assert!(!check_function(None, Some(&"x".to_string())));
    assert!(!check_function(Some(&name), None));
    assert!(!check_function(None, None));
    assert!(check_function(Some(&"".to_string()), Some(&"".to_string())));
    assert!(!check_function(Some(&"".to_string()), Some(&"a".to_string())));
    assert!(check_function(Some(&"aab".to_string()), Some(&"ab".to_string())));
    assert!(check_function(Some(&"na\u{ef}ve".to_string()), Some(&"\u{ef}v".to_string())));
}

#[test]
fn show_lists_nothing_by_default_but_summarizes() {
    let p = profile(false, vec![record("f", 1, vec![10, 3, 7]), record("g", 2, vec![5, 9])]);
    let report = show(&p, &options());
    assert_eq!(report.level, InstrumentationLevel::FrontEnd);
    assert!(report.functions.is_empty());
    assert_eq!(report.total_functions, 2);
    assert_eq!(report.max_function_count, 10);
    assert_eq!(report.max_internal_block_count, 9);
    assert_eq!(report.indirect_call_stats, ValueSiteStats::default());
    assert_eq!(report.memop_stats, ValueSiteStats::default());
}

#[test]
fn show_lists_all_functions() {
    let p = profile(false, vec![record("f", 1, vec![10, 3, 7]), record("g", 2, vec![])]);
    let mut o = options();
    o.all_functions = true;
    o.show_counts = true;
    let report = show(&p, &o);
    assert_eq!(report.functions.len(), 2);
    let f = &report.functions[0];
    assert_eq!(f.name, "f");
    assert_eq!(f.hash, 1);
    assert_eq!(f.num_counters, 3);
    assert_eq!(f.function_count, Some(10));
    assert_eq!(f.indirect_call_sites, None);
    assert_eq!(f.memop_calls, None);
    assert_eq!(f.block_counts, Some(vec![3, 7]));
    let g = &report.functions[1];
    assert_eq!(g.num_counters, 0);
    assert_eq!(g.function_count, Some(0));
    assert_eq!(g.block_counts, Some(vec![]));
}

#[test]
fn show_lists_functions_by_name() {
    let p = profile(
        false,
        vec![record("alpha", 1, vec![1]), record("beta", 2, vec![2]), record("alphabet", 3, vec![3])],
    );
    let mut o = options();
    o.function = Some("alpha".to_string());
    let report = show(&p, &o);
    let names: Vec<_> = report.functions.iter().map(|f| f.name.clone()).collect();
    assert_eq!(names, vec!["alpha", "alphabet"]);
    assert_eq!(report.total_functions, 3);
}

#[test]
fn show_passes_over_unusable_records() {
    let mut nameless = record("x", 1, vec![100]);
    nameless.name = None;
    let mut hashless = record("y", 2, vec![200]);
    hashless.hash = None;
    let p = profile(false, vec![nameless, hashless, record("z", 3, vec![3])]);
    let mut o = options();
    o.all_functions = true;
    let report = show(&p, &o);
    assert_eq!(report.functions.len(), 1);
    assert_eq!(report.total_functions, 1);
    assert_eq!(report.max_function_count, 3);
}

#[test]
fn profiles_are_filtered_by_context_sensitivity() {
    let records = vec![record("f", 1, vec![10, 20]), record("f", 1 | CS, vec![30, 40])];
    let p = profile(true, records.clone());
    let mut o = options();
    o.all_functions = true;
    o.show_counts = true;
    let flat = show(&p, &o);
    assert_eq!(flat.level, InstrumentationLevel::Ir);
    assert_eq!(flat.functions.len(), 1);
    assert_eq!(flat.functions[0].hash, 1);
    assert_eq!(flat.functions[0].function_count, None);
    assert_eq!(flat.functions[0].block_counts, Some(vec![10, 20]));
    assert_eq!(flat.max_internal_block_count, 20);
    o.showcs = true;
    let cs = show(&p, &o);
    assert_eq!(cs.functions.len(), 1);
    assert_eq!(cs.functions[0].hash, 1 | CS);
    assert_eq!(cs.max_function_count, 30);
    assert_eq!(cs.max_internal_block_count, 40);
    // A front-end profile is filtered in the same way.
    let fe = show(&profile(false, records.clone()), &o);
    assert_eq!(fe.level, InstrumentationLevel::FrontEnd);
    assert_eq!(fe.functions.len(), 1);
    assert_eq!(fe.functions[0].hash, 1 | CS);
    assert_eq!(fe.functions[0].function_count, Some(30));
    assert_eq!(fe.total_functions, 1);
    assert_eq!(fe.max_function_count, 30);
    o.showcs = false;
    let fe = show(&profile(false, records), &o);
    assert_eq!(fe.functions.len(), 1);
    assert_eq!(fe.functions[0].hash, 1);
    assert_eq!(fe.total_functions, 1);
    assert_eq!(fe.max_function_count, 10);
}

#[test]
fn flagged_record_is_passed_over_unless_asked_for() {
    let p = profile(false, vec![record("f", 5 | CS, vec![10, 20])]);
    let mut o = options();
    o.all_functions = true;
    let report = show(&p, &o);
    assert!(report.functions.is_empty());
    assert_eq!(report.total_functions, 0);
    assert_eq!(report.max_function_count, 0);
    assert_eq!(report.max_internal_block_count, 0);
    o.showcs = true;
    let report = show(&p, &o);
    assert_eq!(report.functions.len(), 1);
    assert_eq!(report.total_functions, 1);
    assert_eq!(report.max_function_count, 10);
}

#[test]
fn value_site_statistics_cover_the_functions_shown() {
    let mut f = record("f", 1, vec![1]);
    f.record.data = Some(Box::new(ValueProfDataRecord {
        indirect_callsites: vec![vec![sample(1, 1), sample(2, 2)], vec![], vec![sample(3, 3)]],
        mem_op_sizes: vec![vec![sample(8, 1), sample(16, 1), sample(32, 1)]],
    }));
    let mut g = record("g", 2, vec![1]);
    g.record.data = Some(Box::new(ValueProfDataRecord {
        indirect_callsites: vec![vec![sample(9, 9)]],
        mem_op_sizes: vec![],
    }));
    let p = profile(false, vec![f, g, record("h", 3, vec![1])]);
    let mut o = options();
    o.all_functions = true;
    o.ic_targets = true;
    o.memop_sizes = true;
    let report = show(&p, &o);
    assert_eq!(report.functions[0].indirect_call_sites, Some(3));
    assert_eq!(report.functions[0].memop_calls, Some(1));
    assert_eq!(report.functions[1].indirect_call_sites, Some(1));
    assert_eq!(report.functions[1].memop_calls, None);
    assert_eq!(report.functions[2].indirect_call_sites, Some(0));
    assert_eq!(
        report.indirect_call_stats,
        ValueSiteStats {
            total_num_value_sites: 4,
            total_num_value_sites_with_value_profile: 3,
            total_num_values: 4,
            value_sites_histogram: vec![2, 1],
        }
    );
    assert_eq!(
        report.memop_stats,
        ValueSiteStats {
            total_num_value_sites: 1,
            total_num_value_sites_with_value_profile: 1,
            total_num_values: 3,
            value_sites_histogram: vec![0, 0, 1],
        }
    );
    // Only the functions shown count.
    o.all_functions = false;
    o.function = Some("g".to_string());
    let report = show(&p, &o);
    assert_eq!(report.indirect_call_stats.total_num_value_sites, 1);
    assert_eq!(report.memop_stats, ValueSiteStats::default());
}

#[test]
fn traverse_sites_adds_to_what_was_seen() {
    let record = InstrProfRecord {
        counts: vec![],
        data: Some(Box::new(ValueProfDataRecord {
            indirect_callsites: vec![vec![sample(1, 1)], vec![sample(1, 1), sample(2, 1)]],
            mem_op_sizes: vec![],
        })),
    };
    let mut stats = ValueSiteStats::default();
    stats.traverse_sites(&record, ValueKind::IndirectCallTarget);
    stats.traverse_sites(&record, ValueKind::IndirectCallTarget);
    stats.traverse_sites(&record, ValueKind::MemOpSize);
    stats.traverse_sites(&InstrProfRecord::default(), ValueKind::IndirectCallTarget);
    assert_eq!(stats.total_num_value_sites, 4);
    assert_eq!(stats.total_num_value_sites_with_value_profile, 4);
    assert_eq!(stats.total_num_values, 6);
    assert_eq!(stats.value_sites_histogram, vec![2, 2]);
}
