//! The data model of an instrumentation profile, with the mathematical view of
//! each type that the contracts of this crate are stated over.

use super::hashing::{name_hash, name_hash_spec, ByteOrder};
use std::collections::BTreeMap;
use vstd::prelude::*;

verus! {

/// The categories of value profiling.
#[derive(Debug, Copy, Clone, PartialEq, Eq, Ord, PartialOrd, Hash)]
pub enum ValueKind {
    IndirectCallTarget,
    MemOpSize,
}

impl ValueKind {
    /// The stable ordinal of a kind, used to index per-kind tables.
    pub open spec fn ordinal(self) -> int {
        match self {
            ValueKind::IndirectCallTarget => 0,
            ValueKind::MemOpSize => 1,
        }
    }

    /// The number of kinds.
    pub fn len() -> (n: usize)
        ensures
            n == 2,
    {
        2
    }

    /// The position of this kind in a table of `ValueKind::len()` entries.
    pub fn index(&self) -> (i: usize)
        ensures
            i == self.ordinal(),
            i < 2,
    {
        match self {
            ValueKind::IndirectCallTarget => 0,
            ValueKind::MemOpSize => 1,
        }
    }
}

/// Whether counters were inserted by the front end or on the compiler's IR.
#[derive(Debug, Copy, Clone, PartialEq, Eq, Ord, PartialOrd, Hash)]
pub enum InstrumentationLevel {
    FrontEnd,
    Ir,
}

impl InstrumentationLevel {
    /// The name of the level as reports print it.
    pub fn name(&self) -> (s: &'static str)
        ensures
            s@ == (match *self {
                InstrumentationLevel::FrontEnd => "Front-end"@,
                InstrumentationLevel::Ir => "IR"@,
            }),
    {
        match self {
            InstrumentationLevel::FrontEnd => "Front-end",
            InstrumentationLevel::Ir => "IR",
        }
    }
}

/// One observed value at a value site, and how often it was seen.
#[derive(Clone, Copy, Debug, Eq, PartialEq, Hash, Ord, PartialOrd)]
pub struct InstrProfValueData {
    pub value: u64,
    pub count: u64,
}

impl Default for InstrProfValueData {
    fn default() -> (s: Self)
        ensures
            s.value == 0,
            s.count == 0,
    {
        InstrProfValueData { value: 0, count: 0 }
    }
}

/// The samples of one value site.
pub type InstrProfValueSiteRecord = Vec<InstrProfValueData>;

/// The value sites of a record, per kind, in program order.
#[derive(Debug, Eq, PartialEq, Hash, Ord, PartialOrd)]
pub struct ValueProfDataRecord {
    pub indirect_callsites: Vec<InstrProfValueSiteRecord>,
    pub mem_op_sizes: Vec<InstrProfValueSiteRecord>,
}

/// The mathematical value of a `ValueProfDataRecord`.
pub struct ValueProfModel {
    pub indirect_callsites: Seq<Seq<InstrProfValueData>>,
    pub mem_op_sizes: Seq<Seq<InstrProfValueData>>,
}

impl ValueProfModel {
    /// The sites of one kind.
    pub open spec fn sites(self, kind: ValueKind) -> Seq<Seq<InstrProfValueData>> {
        match kind {
            ValueKind::IndirectCallTarget => self.indirect_callsites,
            ValueKind::MemOpSize => self.mem_op_sizes,
        }
    }
}

/// The sites of a list of sites, as sequences.
pub open spec fn sites_model(sites: Seq<InstrProfValueSiteRecord>) -> Seq<Seq<InstrProfValueData>> {
    Seq::new(sites.len(), |i: int| sites[i]@)
}

impl View for ValueProfDataRecord {
    type V = ValueProfModel;

    open spec fn view(&self) -> ValueProfModel {
        ValueProfModel {
            indirect_callsites: sites_model(self.indirect_callsites@),
            mem_op_sizes: sites_model(self.mem_op_sizes@),
        }
    }
}

/// A copy of a list of value sites.
pub fn copy_sites(sites: &Vec<InstrProfValueSiteRecord>) -> (out: Vec<InstrProfValueSiteRecord>)
    ensures
        sites_model(out@) == sites_model(sites@),
{
    let mut out: Vec<InstrProfValueSiteRecord> = Vec::new();
    let mut i: usize = 0;
    while i < sites.len()
        invariant
            i <= sites@.len(),
            out@.len() == i,
            forall|k: int| 0 <= k < i ==> (#[trigger] out@[k])@ == sites@[k]@,
        decreases sites@.len() - i,
    {
        let site: &InstrProfValueSiteRecord = &sites[i];
        let mut copy: InstrProfValueSiteRecord = Vec::new();
        let mut j: usize = 0;
        while j < site.len()
            invariant
                j <= site@.len(),
                copy@ == site@.take(j as int),
            decreases site@.len() - j,
        {
            copy.push(site[j]);
            proof {
                assert(site@.take(j + 1) =~= site@.take(j as int).push(site@[j as int]));
            }
            j = j + 1;
        }
        proof {
            assert(site@.take(j as int) =~= site@);
        }
        out.push(copy);
        i = i + 1;
    }
    proof {
        assert(sites_model(out@) =~= sites_model(sites@));
    }
    out
}

impl Clone for ValueProfDataRecord {
    fn clone(&self) -> (s: Self)
        ensures
            s@ == self@,
    {
        ValueProfDataRecord {
            indirect_callsites: copy_sites(&self.indirect_callsites),
            mem_op_sizes: copy_sites(&self.mem_op_sizes),
        }
    }
}

impl Default for ValueProfDataRecord {
    fn default() -> (s: Self)
        ensures
            s@.indirect_callsites.len() == 0,
            s@.mem_op_sizes.len() == 0,
    {
        ValueProfDataRecord { indirect_callsites: Vec::new(), mem_op_sizes: Vec::new() }
    }
}

/// The counters and the value-profile payload of one function.
#[derive(Debug, Eq, PartialEq, Hash, Ord, PartialOrd)]
pub struct InstrProfRecord {
    pub counts: Vec<u64>,
    pub data: Option<Box<ValueProfDataRecord>>,
}

/// The mathematical value of an `InstrProfRecord`.
pub struct RecordModel {
    pub counts: Seq<u64>,
    pub data: Option<ValueProfModel>,
}

impl RecordModel {
    /// The sites of one kind; a record without payload has none.
    pub open spec fn sites(self, kind: ValueKind) -> Seq<Seq<InstrProfValueData>> {
        match self.data {
            Some(d) => d.sites(kind),
            None => Seq::empty(),
        }
    }
}

impl View for InstrProfRecord {
    type V = RecordModel;

    open spec fn view(&self) -> RecordModel {
        RecordModel {
            counts: self.counts@,
            data: match self.data {
                Some(d) => Some(d@),
                None => None,
            },
        }
    }
}

impl Clone for InstrProfRecord {
    fn clone(&self) -> (s: Self)
        ensures
            s@ == self@,
    {
        let mut counts: Vec<u64> = Vec::new();
        let mut i: usize = 0;
        while i < self.counts.len()
            invariant
                i <= self.counts@.len(),
                counts@ == self.counts@.take(i as int),
            decreases self.counts@.len() - i,
        {
            counts.push(self.counts[i]);
            proof {
                assert(self.counts@.take(i + 1) =~= self.counts@.take(i as int).push(
                    self.counts@[i as int],
                ));
            }
            i = i + 1;
        }
        proof {
            assert(self.counts@.take(i as int) =~= self.counts@);
        }
        let data: Option<Box<ValueProfDataRecord>> = match &self.data {
            Some(d) => Some(Box::new((**d).clone())),
            None => None,
        };
        InstrProfRecord { counts, data }
    }
}

impl Default for InstrProfRecord {
    fn default() -> (s: Self)
        ensures
            s@.counts.len() == 0,
            s@.data is None,
    {
        InstrProfRecord { counts: Vec::new(), data: None }
    }
}

/// The bit of a structural hash that marks a context-sensitive record.
pub const CS_FLAG_IN_FUNC_HASH: u64 = 60;

/// Whether the context-sensitive bit is set in a structural hash.
pub open spec fn cs_flag_of(hash: u64) -> bool {
    ((hash >> CS_FLAG_IN_FUNC_HASH) & 1) != 0
}

/// A structural hash with the context-sensitive bit set and every other bit
/// kept.
pub open spec fn with_cs_flag(hash: u64) -> u64 {
    hash | (1u64 << CS_FLAG_IN_FUNC_HASH)
}

/// A record with the function's name and structural hash, either of which may
/// be absent.
#[derive(Debug, Eq, PartialEq, Hash, Ord, PartialOrd)]
pub struct NamedInstrProfRecord {
    pub name: Option<String>,
    pub hash: Option<u64>,
    pub record: InstrProfRecord,
}

/// The mathematical value of a `NamedInstrProfRecord`.
pub struct NamedRecordModel {
    pub name: Option<Seq<char>>,
    pub hash: Option<u64>,
    pub record: RecordModel,
}

impl NamedRecordModel {
    /// A record can be used only if it has both a name and a hash.
    pub open spec fn usable(self) -> bool {
        self.name is Some && self.hash is Some
    }

    /// Whether the record is a context-sensitive one. A record without hash
    /// is not.
    pub open spec fn has_cs_flag(self) -> bool {
        match self.hash {
            Some(h) => cs_flag_of(h),
            None => false,
        }
    }
}

impl View for NamedInstrProfRecord {
    type V = NamedRecordModel;

    open spec fn view(&self) -> NamedRecordModel {
        NamedRecordModel {
            name: match self.name {
                Some(n) => Some(n@),
                None => None,
            },
            hash: self.hash,
            record: self.record@,
        }
    }
}

impl Clone for NamedInstrProfRecord {
    fn clone(&self) -> (s: Self)
        ensures
            s@ == self@,
    {
        let name: Option<String> = match &self.name {
            Some(n) => Some(n.clone()),
            None => None,
        };
        NamedInstrProfRecord { name, hash: self.hash, record: self.record.clone() }
    }
}

impl Default for NamedInstrProfRecord {
    fn default() -> (s: Self)
        ensures
            s@.name is None,
            s@.hash is None,
            s@.record.counts.len() == 0,
            s@.record.data is None,
    {
        NamedInstrProfRecord { name: None, hash: None, record: InstrProfRecord::default() }
    }
}

impl NamedInstrProfRecord {
    /// The number of value sites of one kind.
    pub fn num_value_sites(&self, valuekind: ValueKind) -> (n: usize)
        ensures
            n == self@.record.sites(valuekind).len(),
    {
        match &self.record.data {
            Some(d) => match valuekind {
                ValueKind::IndirectCallTarget => d.indirect_callsites.len(),
                ValueKind::MemOpSize => d.mem_op_sizes.len(),
            },
            None => 0,
        }
    }

    /// Whether the record is a context-sensitive one.
    pub fn has_cs_flag(&self) -> (b: bool)
        ensures
            b == self@.has_cs_flag(),
    {
        match self.hash {
            Some(h) => ((h >> CS_FLAG_IN_FUNC_HASH) & 1) != 0,
            None => {
                assert(!cs_flag_of(0)) by (bit_vector);
                false
            },
        }
    }

    /// Marks the record as context-sensitive. An absent hash becomes the hash
    /// that holds the flag alone.
    pub fn set_cs_flag(&mut self)
        ensures
            final(self)@.hash == Some(
                with_cs_flag(
                    match old(self)@.hash {
                        Some(h) => h,
                        None => 0,
                    },
                ),
            ),
            final(self)@.has_cs_flag(),
            final(self)@.name == old(self)@.name,
            final(self)@.record == old(self)@.record,
    {
        let h: u64 = match self.hash {
            Some(h) => h,
            None => 0,
        };
        assert(cs_flag_of(with_cs_flag(h))) by (bit_vector);
        self.hash = Some(h | (1u64 << CS_FLAG_IN_FUNC_HASH));
    }

    /// The counters of the record.
    pub fn counts(&self) -> (c: &[u64])
        ensures
            c@ == self@.record.counts,
    {
        self.record.counts.as_slice()
    }
}

/// The name of each function of a profile, by the hash of the name.
#[derive(Debug, PartialEq, Eq, Ord, PartialOrd, Hash)]
pub struct Symtab {
    pub names: BTreeMap<u64, String>,
}

/// The names of a table as sequences of characters.
pub open spec fn names_model(names: Map<u64, String>) -> Map<u64, Seq<char>> {
    names.map_values(|s: String| s@)
}

impl View for Symtab {
    type V = Map<u64, Seq<char>>;

    open spec fn view(&self) -> Map<u64, Seq<char>> {
        names_model(self.names@)
    }
}

impl Clone for Symtab {
    fn clone(&self) -> (s: Self)
        ensures
            s@ == self@,
    {
        Symtab { names: self.names.clone() }
    }
}

impl Default for Symtab {
    fn default() -> (s: Self)
        ensures
            s@ == Map::<u64, Seq<char>>::empty(),
    {
        let s = Symtab { names: BTreeMap::new() };
        assert(s@ =~= Map::<u64, Seq<char>>::empty());
        s
    }
}

/// A table after a name was added to it: the name stands under its hash, in
/// place of any name that stood there.
pub open spec fn table_add(table: Map<u64, Seq<char>>, name: Seq<char>, order: ByteOrder) -> Map<
    u64,
    Seq<char>,
> {
    table.insert(name_hash_spec(name, order), name)
}

/// The name that a table holds under a hash.
pub open spec fn table_lookup(table: Map<u64, Seq<char>>, hash: u64) -> Option<Seq<char>> {
    if table.contains_key(hash) {
        Some(table[hash])
    } else {
        None
    }
}

/// A name that was added to a table is found under its hash.
pub proof fn lemma_lookup_finds_added_name(
    table: Map<u64, Seq<char>>,
    name: Seq<char>,
    order: ByteOrder,
)
    ensures
        table_lookup(table_add(table, name, order), name_hash_spec(name, order)) == Some(name),
{
}

/// A name that was added to a table is still found under its hash after
/// another name was added, if the two hashes differ.
pub proof fn lemma_lookup_survives_other_name(
    table: Map<u64, Seq<char>>,
    name: Seq<char>,
    other: Seq<char>,
    order: ByteOrder,
)
    requires
        name_hash_spec(name, order) != name_hash_spec(other, order),
    ensures
        table_lookup(
            table_add(table_add(table, name, order), other, order),
            name_hash_spec(name, order),
        ) == Some(name),
{
}

/// Of two names with the same hash the table keeps the one added last.
pub proof fn lemma_collision_keeps_last_name(
    table: Map<u64, Seq<char>>,
    name: Seq<char>,
    other: Seq<char>,
    order: ByteOrder,
)
    requires
        name_hash_spec(name, order) == name_hash_spec(other, order),
    ensures
        table_lookup(
            table_add(table_add(table, name, order), other, order),
            name_hash_spec(name, order),
        ) == Some(other),
{
}

impl Symtab {
    /// Adds a name under its hash in the byte order of this machine, and
    /// returns the hash. A name that stood under the same hash is replaced.
    pub fn add_func_name(&mut self, name: String) -> (hash: u64)
        ensures
            exists|order: ByteOrder|
                hash == #[trigger] name_hash_spec(name@, order) && final(self)@ == table_add(
                    old(self)@,
                    name@,
                    order,
                ),
    {
        self.add_func_name_in(name, ByteOrder::native())
    }

    /// Adds a name under its hash in the given byte order, and returns the
    /// hash. A name that stood under the same hash is replaced.
    pub fn add_func_name_in(&mut self, name: String, order: ByteOrder) -> (hash: u64)
        ensures
            hash == name_hash_spec(name@, order),
            final(self)@ == table_add(old(self)@, name@, order),
    {
        let hash: u64 = name_hash(name.as_str(), order);
        let ghost text = name@;
        self.names.insert(hash, name);
        proof {
            assert(self@ =~= table_add(old(self)@, text, order));
        }
        hash
    }

    /// The number of names in the table.
    pub fn len(&self) -> (n: usize)
        ensures
            n == self@.len(),
    {
        proof {
            assert(self@.dom() =~= self.names@.dom());
        }
        self.names.len()
    }

    /// The name stored under a hash, if there is one.
    pub fn lookup(&self, hash: u64) -> (name: Option<&String>)
        ensures
            match name {
                Some(n) => table_lookup(self@, hash) == Some(n@),
                None => table_lookup(self@, hash) is None,
            },
    {
        self.names.get(&hash)
    }
}

/// One profile: its records in emission order, and its symbol table.
#[derive(Debug, Eq, PartialEq, Hash, Ord, PartialOrd)]
pub struct InstrumentationProfile {
    pub version: Option<u64>,
    pub has_csir: bool,
    pub is_ir: bool,
    pub records: Vec<NamedInstrProfRecord>,
    pub symtab: Symtab,
}

/// The mathematical value of an `InstrumentationProfile`.
pub struct ProfileModel {
    pub version: Option<u64>,
    pub has_csir: bool,
    pub is_ir: bool,
    pub records: Seq<NamedRecordModel>,
    pub symtab: Map<u64, Seq<char>>,
}

impl ProfileModel {
    /// The level follows from `is_ir` alone.
    pub open spec fn level(self) -> InstrumentationLevel {
        if self.is_ir {
            InstrumentationLevel::Ir
        } else {
            InstrumentationLevel::FrontEnd
        }
    }
}

/// The records of a list of records, as their mathematical values.
pub open spec fn records_model(records: Seq<NamedInstrProfRecord>) -> Seq<NamedRecordModel> {
    Seq::new(records.len(), |i: int| records[i]@)
}

impl View for InstrumentationProfile {
    type V = ProfileModel;

    open spec fn view(&self) -> ProfileModel {
        ProfileModel {
            version: self.version,
            has_csir: self.has_csir,
            is_ir: self.is_ir,
            records: records_model(self.records@),
            symtab: self.symtab@,
        }
    }
}

impl Clone for InstrumentationProfile {
    fn clone(&self) -> (p: Self)
        ensures
            p@ == self@,
    {
        let mut records: Vec<NamedInstrProfRecord> = Vec::new();
        let mut i: usize = 0;
        while i < self.records.len()
            invariant
                i <= self.records@.len(),
                records@.len() == i,
                forall|k: int| 0 <= k < i ==> (#[trigger] records@[k])@ == self.records@[k]@,
            decreases self.records@.len() - i,
        {
            records.push(self.records[i].clone());
            i = i + 1;
        }
        proof {
            assert(records_model(records@) =~= records_model(self.records@));
        }
        InstrumentationProfile {
            version: self.version,
            has_csir: self.has_csir,
            is_ir: self.is_ir,
            records,
            symtab: self.symtab.clone(),
        }
    }
}

impl Default for InstrumentationProfile {
    fn default() -> (p: Self)
        ensures
            p@.version is None,
            !p@.has_csir,
            !p@.is_ir,
            p@.records.len() == 0,
            p@.symtab == Map::<u64, Seq<char>>::empty(),
    {
        InstrumentationProfile {
            version: None,
            has_csir: false,
            is_ir: false,
            records: Vec::new(),
            symtab: Symtab::default(),
        }
    }
}

impl InstrumentationProfile {
    /// A profile from its parts.
    pub fn new(
        version: Option<u64>,
        is_ir: bool,
        has_csir: bool,
        records: Vec<NamedInstrProfRecord>,
        symtab: Symtab,
    ) -> (p: Self)
        ensures
            p@.version == version,
            p@.is_ir == is_ir,
            p@.has_csir == has_csir,
            p@.records == records_model(records@),
            p@.symtab == symtab@,
            p.records == records,
            p.symtab == symtab,
    {
        InstrumentationProfile { version, has_csir, is_ir, records, symtab }
    }

    /// The format version; `None` for a profile without one.
    pub fn version(&self) -> (v: Option<u64>)
        ensures
            v == self@.version,
    {
        self.version
    }

    /// Whether the counters were inserted on the compiler's IR.
    pub fn is_ir_level_profile(&self) -> (b: bool)
        ensures
            b == self@.is_ir,
    {
        self.is_ir
    }

    /// Whether the profile holds context-sensitive records.
    pub fn has_csir_level_profile(&self) -> (b: bool)
        ensures
            b == self@.has_csir,
    {
        self.has_csir
    }

    /// The level of the profile.
    pub fn get_level(&self) -> (level: InstrumentationLevel)
        ensures
            level == self@.level(),
    {
        if self.is_ir_level_profile() {
            InstrumentationLevel::Ir
        } else {
            InstrumentationLevel::FrontEnd
        }
    }
}

/// The header of the value-profile section of a record in the binary formats.
#[derive(Clone, Copy, Debug, PartialEq, Eq)]
pub struct ValueProfData {
    pub total_size: u32,
    pub num_value_kinds: u32,
}

} // verus!
