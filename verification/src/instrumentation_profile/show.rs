//! What a report on one profile shows: which functions, what of each, and
//! the statistics of the records that the report looks at.

use super::stats::{SiteStatsModel, ValueSiteStats};
use super::summary::{
    function_count, function_count_of, internal_counts, is_usable, ProfileSummary, SummaryModel,
};
use super::types::{
    InstrumentationLevel, InstrumentationProfile, NamedInstrProfRecord, NamedRecordModel,
    ProfileModel, ValueKind,
};
use vstd::prelude::*;
use vstd::utf8::encode_utf8;

verus! {

/// What to show.
#[derive(Debug, Clone, PartialEq, Eq)]
pub struct ShowOptions {
    /// Show the block counts of each function shown.
    pub show_counts: bool,
    /// Show every function.
    pub all_functions: bool,
    /// Show the indirect call sites of each function shown.
    pub ic_targets: bool,
    /// Show the memory intrinsic calls of each function shown.
    pub memop_sizes: bool,
    /// Look at the context-sensitive records only; at the others only if
    /// this is not set.
    pub showcs: bool,
    /// Show the functions whose name contains this text.
    pub function: Option<String>,
}

/// The mathematical value of a `ShowOptions`.
pub struct ShowOptionsModel {
    pub show_counts: bool,
    pub all_functions: bool,
    pub ic_targets: bool,
    pub memop_sizes: bool,
    pub showcs: bool,
    pub function: Option<Seq<char>>,
}

impl View for ShowOptions {
    type V = ShowOptionsModel;

    open spec fn view(&self) -> ShowOptionsModel {
        ShowOptionsModel {
            show_counts: self.show_counts,
            all_functions: self.all_functions,
            ic_targets: self.ic_targets,
            memop_sizes: self.memop_sizes,
            showcs: self.showcs,
            function: match self.function {
                Some(f) => Some(f@),
                None => None,
            },
        }
    }
}

/// Whether `needle` stands somewhere in `hay`.
pub open spec fn contains_bytes(hay: Seq<u8>, needle: Seq<u8>) -> bool {
    exists|k: int|
        0 <= k && k + needle.len() <= hay.len() && #[trigger] hay.subrange(k, k + needle.len())
            == needle
}

/// Whether a function is asked for by name: there is a pattern, the
/// function has a name, and the bytes of the pattern stand somewhere in the
/// bytes of the name.
pub open spec fn name_matches(name: Option<Seq<char>>, pattern: Option<Seq<char>>) -> bool {
    match (name, pattern) {
        (Some(n), Some(p)) => contains_bytes(encode_utf8(n), encode_utf8(p)),
        _ => false,
    }
}

/// Whether `needle` stands in `hay` at `k`.
fn stands_at(hay: &[u8], needle: &[u8], k: usize) -> (b: bool)
    requires
        k + needle@.len() <= hay@.len(),
    ensures
        b == (hay@.subrange(k as int, k + needle@.len()) == needle@),
{
    let ghost part = hay@.subrange(k as int, k + needle@.len());
    let size: usize = hay.len();
    let mut t: usize = 0;
    while t < needle.len()
        invariant
            t <= needle@.len(),
            size == hay@.len(),
            k + needle@.len() <= hay@.len(),
            part == hay@.subrange(k as int, k + needle@.len()),
            forall|u: int| 0 <= u < t ==> part[u] == needle@[u],
        decreases needle@.len() - t,
    {
        if hay[k + t] != needle[t] {
            proof {
                assert(part[t as int] != needle@[t as int]);
            }
            return false;
        }
        t = t + 1;
    }
    proof {
        assert(part =~= needle@);
    }
    true
}

/// Whether `needle` stands somewhere in `hay`.
fn find_bytes(hay: &[u8], needle: &[u8]) -> (b: bool)
    ensures
        b == contains_bytes(hay@, needle@),
{
    if needle.len() > hay.len() {
        return false;
    }
    let last: usize = hay.len() - needle.len();
    let mut k: usize = 0;
    loop
        invariant
            k <= last,
            last + needle@.len() == hay@.len(),
            forall|j: int| 0 <= j < k ==> #[trigger] hay@.subrange(j, j + needle@.len()) != needle@,
        decreases last - k,
    {
        if stands_at(hay, needle, k) {
            return true;
        }
        if k == last {
            return false;
        }
        k = k + 1;
    }
}

/// Whether a function is asked for by name.
pub fn check_function(name: Option<&String>, pattern: Option<&String>) -> (b: bool)
    ensures
        b == name_matches(
            match name {
                Some(n) => Some(n@),
                None => None,
            },
            match pattern {
                Some(p) => Some(p@),
                None => None,
            },
        ),
{
    match pattern {
        Some(pat) => match name {
            Some(n) => find_bytes(n.as_str().as_bytes(), pat.as_str().as_bytes()),
            None => false,
        },
        None => false,
    }
}

/// Whether a report looks at a record: it has a name and a hash, and it is
/// context-sensitive if and only if that is asked for, whatever the level of
/// the profile.
pub open spec fn selected(r: NamedRecordModel, showcs: bool) -> bool {
    r.usable() && r.has_cs_flag() == showcs
}

/// What a report shows of one function.
#[derive(Debug, Clone, PartialEq, Eq)]
pub struct ShownFunction {
    pub name: String,
    pub hash: u64,
    pub num_counters: usize,
    /// The function count, in a front-end profile.
    pub function_count: Option<u64>,
    /// The number of indirect call sites, if they are asked for.
    pub indirect_call_sites: Option<usize>,
    /// The number of memory intrinsic calls, if they are asked for and there
    /// are any.
    pub memop_calls: Option<usize>,
    /// The block counts, if they are asked for.
    pub block_counts: Option<Vec<u64>>,
}

/// The mathematical value of a `ShownFunction`.
pub struct ShownFunctionModel {
    pub name: Seq<char>,
    pub hash: u64,
    pub num_counters: nat,
    pub function_count: Option<u64>,
    pub indirect_call_sites: Option<nat>,
    pub memop_calls: Option<nat>,
    pub block_counts: Option<Seq<u64>>,
}

impl View for ShownFunction {
    type V = ShownFunctionModel;

    open spec fn view(&self) -> ShownFunctionModel {
        ShownFunctionModel {
            name: self.name@,
            hash: self.hash,
            num_counters: self.num_counters as nat,
            function_count: self.function_count,
            indirect_call_sites: match self.indirect_call_sites {
                Some(n) => Some(n as nat),
                None => None,
            },
            memop_calls: match self.memop_calls {
                Some(n) => Some(n as nat),
                None => None,
            },
            block_counts: match self.block_counts {
                Some(c) => Some(c@),
                None => None,
            },
        }
    }
}

/// What a report shows of the function of a record.
pub open spec fn shown_function(
    r: NamedRecordModel,
    is_ir: bool,
    options: ShowOptionsModel,
) -> ShownFunctionModel {
    let memop_calls = r.record.sites(ValueKind::MemOpSize).len();
    ShownFunctionModel {
        name: r.name.unwrap(),
        hash: r.hash.unwrap(),
        num_counters: r.record.counts.len(),
        function_count: if is_ir {
            None
        } else {
            Some(function_count(r.record))
        },
        indirect_call_sites: if options.ic_targets {
            Some(r.record.sites(ValueKind::IndirectCallTarget).len())
        } else {
            None
        },
        memop_calls: if options.memop_sizes && memop_calls > 0 {
            Some(memop_calls)
        } else {
            None
        },
        block_counts: if options.show_counts {
            Some(internal_counts(r.record, is_ir))
        } else {
            None
        },
    }
}

/// The mathematical value of a `ShowReport`.
pub struct ShowModel {
    pub functions: Seq<ShownFunctionModel>,
    pub summary: SummaryModel,
    pub indirect_call_stats: SiteStatsModel,
    pub memop_stats: SiteStatsModel,
}

/// Whether a record that the report looks at is shown.
pub open spec fn is_shown(r: NamedRecordModel, options: ShowOptionsModel) -> bool {
    options.all_functions || name_matches(r.name, options.function)
}

/// A report after one more record. A record that the report looks at counts
/// for the summary; if it is shown as well, it is listed and its value sites
/// count for the statistics that are asked for.
pub open spec fn show_step(
    state: ShowModel,
    r: NamedRecordModel,
    is_ir: bool,
    options: ShowOptionsModel,
) -> ShowModel {
    if !selected(r, options.showcs) {
        state
    } else if !is_shown(r, options) {
        ShowModel { summary: state.summary.add(r.record), ..state }
    } else {
        ShowModel {
            functions: state.functions.push(shown_function(r, is_ir, options)),
            summary: state.summary.add(r.record),
            indirect_call_stats: if options.ic_targets {
                state.indirect_call_stats.add_sites(r.record.sites(ValueKind::IndirectCallTarget))
            } else {
                state.indirect_call_stats
            },
            memop_stats: if options.memop_sizes && r.record.sites(ValueKind::MemOpSize).len()
                > 0 {
                state.memop_stats.add_sites(r.record.sites(ValueKind::MemOpSize))
            } else {
                state.memop_stats
            },
        }
    }
}

/// The report on a sequence of records.
pub open spec fn show_fold(
    records: Seq<NamedRecordModel>,
    is_ir: bool,
    options: ShowOptionsModel,
) -> ShowModel
    decreases records.len(),
{
    if records.len() == 0 {
        ShowModel {
            functions: Seq::empty(),
            summary: SummaryModel::empty(is_ir),
            indirect_call_stats: SiteStatsModel::empty(),
            memop_stats: SiteStatsModel::empty(),
        }
    } else {
        show_step(show_fold(records.drop_last(), is_ir, options), records.last(), is_ir, options)
    }
}

/// The functions of a list, as their mathematical values.
pub open spec fn shown_model(functions: Seq<ShownFunction>) -> Seq<ShownFunctionModel> {
    Seq::new(functions.len(), |i: int| functions[i]@)
}

/// The report on a profile.
#[derive(Debug, Clone, PartialEq, Eq)]
pub struct ShowReport {
    pub level: InstrumentationLevel,
    /// The functions shown, in the order of the profile.
    pub functions: Vec<ShownFunction>,
    /// The number of records that the report looks at.
    pub total_functions: usize,
    pub max_function_count: u64,
    pub max_internal_block_count: u64,
    pub indirect_call_stats: ValueSiteStats,
    pub memop_stats: ValueSiteStats,
}

/// Whether `report` is the report on a profile for the given options.
pub open spec fn is_report_of(
    report: ShowReport,
    profile: ProfileModel,
    options: ShowOptionsModel,
) -> bool {
    let model = show_fold(profile.records, profile.is_ir, options);
    &&& report.level == profile.level()
    &&& shown_model(report.functions@) == model.functions
    &&& report.total_functions == model.summary.num_functions
    &&& report.max_function_count == model.summary.max_function_count
    &&& report.max_internal_block_count == model.summary.max_internal_block_count
    &&& report.indirect_call_stats@ == model.indirect_call_stats
    &&& report.memop_stats@ == model.memop_stats
}

/// What is shown of one function.
fn shown_function_of(r: &NamedInstrProfRecord, is_ir: bool, options: &ShowOptions) -> (f:
    ShownFunction)
    requires
        r@.usable(),
    ensures
        f@ == shown_function(r@, is_ir, options@),
{
    let name: String = match &r.name {
        Some(n) => n.clone(),
        None => String::new(),
    };
    let hash: u64 = match r.hash {
        Some(h) => h,
        None => 0,
    };
    let n: usize = r.record.counts.len();
    let memop_calls: usize = r.num_value_sites(ValueKind::MemOpSize);
    let block_counts: Option<Vec<u64>> = if options.show_counts {
        let start: usize = if is_ir || n == 0 {
            0
        } else {
            1
        };
        let mut counts: Vec<u64> = Vec::new();
        let mut i: usize = start;
        while i < n
            invariant
                start <= i <= n,
                n == r.record.counts@.len(),
                counts@ == r.record.counts@.subrange(start as int, i as int),
            decreases n - i,
        {
            counts.push(r.record.counts[i]);
            proof {
                assert(r.record.counts@.subrange(start as int, i + 1)
                    =~= r.record.counts@.subrange(start as int, i as int).push(
                    r.record.counts@[i as int],
                ));
            }
            i = i + 1;
        }
        proof {
            assert(counts@ =~= internal_counts(r@.record, is_ir));
        }
        Some(counts)
    } else {
        None
    };
    ShownFunction {
        name,
        hash,
        num_counters: n,
        function_count: if is_ir {
            None
        } else {
            Some(function_count_of(&r.record))
        },
        indirect_call_sites: if options.ic_targets {
            Some(r.num_value_sites(ValueKind::IndirectCallTarget))
        } else {
            None
        },
        memop_calls: if options.memop_sizes && memop_calls > 0 {
            Some(memop_calls)
        } else {
            None
        },
        block_counts,
    }
}

/// The report on a profile.
pub fn show(profile: &InstrumentationProfile, options: &ShowOptions) -> (report: ShowReport)
    ensures
        is_report_of(report, profile@, options@),
{
    let ghost records = profile@.records;
    let is_ir: bool = profile.is_ir_level_profile();
    let mut summary: ProfileSummary = ProfileSummary::new(profile.get_level());
    let mut indirect_call_stats: ValueSiteStats = ValueSiteStats::default();
    let mut memop_stats: ValueSiteStats = ValueSiteStats::default();
    let mut functions: Vec<ShownFunction> = Vec::new();
    let n: usize = profile.records.len();
    let mut i: usize = 0;
    proof {
        assert(records.take(0) =~= Seq::<NamedRecordModel>::empty());
        assert(shown_model(functions@) =~= Seq::<ShownFunctionModel>::empty());
    }
    while i < n
        invariant
            i <= n,
            n == profile.records@.len(),
            records == profile@.records,
            is_ir == profile@.is_ir,
            summary@ == show_fold(records.take(i as int), is_ir, options@).summary,
            summary@.num_functions <= i,
            shown_model(functions@) == show_fold(records.take(i as int), is_ir, options@).functions,
            indirect_call_stats@ == show_fold(
                records.take(i as int),
                is_ir,
                options@,
            ).indirect_call_stats,
            memop_stats@ == show_fold(records.take(i as int), is_ir, options@).memop_stats,
        decreases n - i,
    {
        let r: &NamedInstrProfRecord = &profile.records[i];
        let ghost before = show_fold(records.take(i as int), is_ir, options@);
        let ghost listed = shown_model(functions@);
        proof {
            assert(records.take(i + 1).drop_last() =~= records.take(i as int));
            assert(records.take(i + 1).last() == r@);
        }
        if is_usable(r) && r.has_cs_flag() == options.showcs {
            summary.add_record(&r.record);
            if options.all_functions || check_function(r.name.as_ref(), options.function.as_ref()) {
                let shown: ShownFunction = shown_function_of(r, is_ir, options);
                functions.push(shown);
                proof {
                    assert(shown_model(functions@) =~= listed.push(
                        shown_function(r@, is_ir, options@),
                    ));
                }
                if options.ic_targets {
                    indirect_call_stats.traverse_sites(&r.record, ValueKind::IndirectCallTarget);
                }
                if options.memop_sizes && r.num_value_sites(ValueKind::MemOpSize) > 0 {
                    memop_stats.traverse_sites(&r.record, ValueKind::MemOpSize);
                }
            }
        }
        i = i + 1;
    }
    proof {
        assert(records.take(n as int) =~= records);
    }
    ShowReport {
        level: profile.get_level(),
        functions,
        total_functions: summary.num_functions(),
        max_function_count: summary.max_function_count(),
        max_internal_block_count: summary.max_internal_block_count(),
        indirect_call_stats,
        memop_stats,
    }
}

} // verus!
