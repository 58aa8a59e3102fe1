use llvm_profparser::instrumentation_profile::hashing::{name_hash, u64_from_bytes, ByteOrder};
use llvm_profparser::instrumentation_profile::types::{
    InstrProfRecord, InstrProfValueData, InstrumentationLevel, InstrumentationProfile,
    NamedInstrProfRecord, Symtab, ValueKind, ValueProfData, ValueProfDataRecord,
};

fn sample(value: u64, count: u64) -> InstrProfValueData {
    InstrProfValueData { value, count }
}

#[test]
fn value_kind_has_two_kinds_with_stable_ordinals() {
    assert_eq!(ValueKind::len(), 2);
    assert_eq!(ValueKind::IndirectCallTarget.index(), 0);
    assert_eq!(ValueKind::MemOpSize.index(), 1);
}

#[test]
fn level_names() {
    assert_eq!(InstrumentationLevel::FrontEnd.name(), "Front-end");
    assert_eq!(InstrumentationLevel::Ir.name(), "IR");
}

#[test]
fn hash_of_empty_name_is_start_of_md5_digest() {
    // MD5 of the empty string is d41d8cd98f00b204e9800998ecf8427e.
    assert_eq!(name_hash("", ByteOrder::LittleEndian), 0x04b2_008f_d98c_1dd4);
    assert_eq!(name_hash("", ByteOrder::BigEndian), 0xd41d_8cd9_8f00_b204);
}

#[test]
fn hash_of_main() {
    assert_eq!(name_hash("main", ByteOrder::LittleEndian), 0xdb95_6436_e78d_d5fa);
}

#[test]
fn hash_agrees_with_md5_crate() {
    for name in ["f", "foo", "a::b::c", "\u{e9}t\u{e9}"] {
        let digest = md5::compute(name).0;
        let mut first = [0u8; 8];
        first.copy_from_slice(&digest[..8]);
        assert_eq!(name_hash(name, ByteOrder::LittleEndian), u64::from_le_bytes(first));
        assert_eq!(name_hash(name, ByteOrder::BigEndian), u64::from_be_bytes(first));
        assert_eq!(name_hash(name, ByteOrder::native()), u64::from_ne_bytes(first));
    }
}

#[test]
fn order_follows_from_the_reading_of_the_probe() {
    assert_eq!(ByteOrder::of_probe(1), ByteOrder::LittleEndian);
    assert_eq!(ByteOrder::of_probe(1 << 56), ByteOrder::BigEndian);
    assert_eq!(ByteOrder::of_probe(u64::from_le_bytes([1, 0, 0, 0, 0, 0, 0, 0])), ByteOrder::LittleEndian);
    assert_eq!(ByteOrder::of_probe(u64::from_be_bytes([1, 0, 0, 0, 0, 0, 0, 0])), ByteOrder::BigEndian);
    assert_eq!(ByteOrder::of_probe(u64::from_ne_bytes([1, 0, 0, 0, 0, 0, 0, 0])), ByteOrder::native());
}

#[test]
fn native_order_is_the_order_of_this_machine() {
    let little = 1u16.to_ne_bytes()[0] == 1;
    assert_eq!(ByteOrder::native() == ByteOrder::LittleEndian, little);
}

#[test]
fn u64_from_bytes_reads_both_orders_at_an_offset() {
    let bytes = [0xaa, 1, 2, 3, 4, 5, 6, 7, 8, 0xbb];
    assert_eq!(u64_from_bytes(&bytes, 1, ByteOrder::LittleEndian), 0x0807_0605_0403_0201);
    assert_eq!(u64_from_bytes(&bytes, 1, ByteOrder::BigEndian), 0x0102_0304_0506_0708);
    let max = [0xff; 8];
    assert_eq!(u64_from_bytes(&max, 0, ByteOrder::LittleEndian), u64::MAX);
    assert_eq!(u64_from_bytes(&max, 0, ByteOrder::BigEndian), u64::MAX);
}

#[test]
fn symtab_round_trip() {
    let mut table = Symtab::default();
    assert_eq!(table.len(), 0);
    let hash = table.add_func_name("main".to_string());
    assert_eq!(hash, name_hash("main", ByteOrder::native()));
    assert_eq!(table.lookup(hash), Some(&"main".to_string()));
    assert_eq!(table.len(), 1);
    assert_eq!(table.lookup(hash.wrapping_add(1)), None);
}

#[test]
fn symtab_keeps_earlier_names_and_overwrites_same_name() {
    let mut table = Symtab::default();
    let a = table.add_func_name_in("alpha".to_string(), ByteOrder::LittleEndian);
    let b = table.add_func_name_in("beta".to_string(), ByteOrder::LittleEndian);
    assert_ne!(a, b);
    assert_eq!(table.len(), 2);
    assert_eq!(table.lookup(a), Some(&"alpha".to_string()));
    assert_eq!(table.lookup(b), Some(&"beta".to_string()));
    let again = table.add_func_name_in("alpha".to_string(), ByteOrder::LittleEndian);
    assert_eq!(again, a);
    assert_eq!(table.len(), 2);
}

#[test]
fn symtab_last_write_wins_under_one_hash() {
    // Two names stored under one key stand for a collision: the later stays.
    let mut table = Symtab::default();
    table.names.insert(7, "first".to_string());
    table.names.insert(7, "second".to_string());
    assert_eq!(table.len(), 1);
    assert_eq!(table.lookup(7), Some(&"second".to_string()));
}

#[test]
fn profile_getters() {
    let p = InstrumentationProfile::new(Some(5), true, true, Vec::new(), Symtab::default());
    assert_eq!(p.version(), Some(5));
    assert!(p.is_ir_level_profile());
    assert!(p.has_csir_level_profile());
    assert_eq!(p.get_level(), InstrumentationLevel::Ir);
    let q = InstrumentationProfile::default();
    assert_eq!(q.version(), None);
    assert!(!q.is_ir_level_profile());
    assert!(!q.has_csir_level_profile());
    assert_eq!(q.get_level(), InstrumentationLevel::FrontEnd);
    assert!(q.records.is_empty());
    assert_eq!(q.symtab.len(), 0);
}

#[test]
fn num_value_sites_counts_sites_per_kind() {
    let mut r = NamedInstrProfRecord::default();
    assert_eq!(r.num_value_sites(ValueKind::IndirectCallTarget), 0);
    assert_eq!(r.num_value_sites(ValueKind::MemOpSize), 0);
    r.record.data = Some(Box::new(ValueProfDataRecord {
        indirect_callsites: vec![vec![sample(1, 2)], vec![], vec![sample(3, 4), sample(5, 6)]],
        mem_op_sizes: vec![vec![sample(8, 1)]],
    }));
    assert_eq!(r.num_value_sites(ValueKind::IndirectCallTarget), 3);
    assert_eq!(r.num_value_sites(ValueKind::MemOpSize), 1);
}

#[test]
fn cs_flag_is_bit_sixty() {
    let mut r = NamedInstrProfRecord::default();
    assert!(!r.has_cs_flag());
    r.hash = Some(0x0fff_ffff_ffff_ffff);
    assert!(!r.has_cs_flag());
    r.hash = Some(1 << 60);
    assert!(r.has_cs_flag());
    r.hash = Some(u64::MAX ^ (1 << 60));
    assert!(!r.has_cs_flag());
}

#[test]
fn set_cs_flag_sets_the_bit_and_keeps_the_rest() {
    let mut r = NamedInstrProfRecord::default();
    r.hash = Some(0x1234);
    r.name = Some("f".to_string());
    r.record.counts = vec![1, 2];
    r.set_cs_flag();
    assert_eq!(r.hash, Some(0x1234 | (1 << 60)));
    assert!(r.has_cs_flag());
    assert_eq!(r.name, Some("f".to_string()));
    assert_eq!(r.record.counts, vec![1, 2]);
    r.set_cs_flag();
    assert_eq!(r.hash, Some(0x1234 | (1 << 60)));
}

#[test]
fn set_cs_flag_on_absent_hash() {
    let mut r = NamedInstrProfRecord::default();
    r.set_cs_flag();
    assert_eq!(r.hash, Some(1 << 60));
    assert!(r.has_cs_flag());
}

#[test]
fn counts_returns_the_counters() {
    let r = NamedInstrProfRecord {
        name: None,
        hash: None,
        record: InstrProfRecord { counts: vec![4, 5, 6], data: None },
    };
    assert_eq!(r.counts(), &[4, 5, 6]);
    assert!(NamedInstrProfRecord::default().counts().is_empty());
}

#[test]
fn clones_are_equal_and_independent() {
    let mut table = Symtab::default();
    table.add_func_name("f".to_string());
    let record = NamedInstrProfRecord {
        name: Some("f".to_string()),
        hash: Some(9),
        record: InstrProfRecord {
            counts: vec![1, 2, 3],
            data: Some(Box::new(ValueProfDataRecord {
                indirect_callsites: vec![vec![sample(1, 2), sample(3, 4)], vec![]],
                mem_op_sizes: vec![vec![sample(5, 6)]],
            })),
        },
    };
    let p = InstrumentationProfile::new(Some(3), false, true, vec![record], table);
    let mut q = p.clone();
    assert_eq!(p, q);
    q.records[0].record.counts[0] = 99;
    assert_eq!(p.records[0].record.counts[0], 1);
    assert_ne!(p, q);
}

#[test]
fn defaults_are_empty() {
    assert_eq!(InstrProfValueData::default(), sample(0, 0));
    let d = ValueProfDataRecord::default();
    assert!(d.indirect_callsites.is_empty() && d.mem_op_sizes.is_empty());
    let r = InstrProfRecord::default();
    assert!(r.counts.is_empty() && r.data.is_none());
    let header = ValueProfData { total_size: 8, num_value_kinds: 0 };
    assert_eq!(header.total_size, 8);
    assert_eq!(header.num_value_kinds, 0);
}
