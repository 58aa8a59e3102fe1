use llvm_profparser::instrumentation_profile::binary::{
    decode_indexed, decode_raw, INDEXED_MAGIC, INDEXED_VERSION, RAW_MAGIC, RAW_VERSION,
};
use llvm_profparser::instrumentation_profile::decode::{decode, decode_in, detect_format, Format};
use llvm_profparser::instrumentation_profile::hashing::{name_hash, ByteOrder};
use llvm_profparser::instrumentation_profile::lines::{
    read_decimal, read_hex, read_number, significant_lines, Line,
};
use llvm_profparser::instrumentation_profile::reader::{
    read_u32, read_u64, u32_from_bytes, DecodeError,
};
use llvm_profparser::instrumentation_profile::text::decode_text;
use llvm_profparser::instrumentation_profile::types::{
    InstrProfRecord, InstrProfValueData, InstrumentationProfile, NamedInstrProfRecord, Symtab,
    ValueProfDataRecord,
};

const LE: ByteOrder = ByteOrder::LittleEndian;
const BE: ByteOrder = ByteOrder::BigEndian;

fn sample(value: u64, count: u64) -> InstrProfValueData {
    InstrProfValueData { value, count }
}

fn malformed(offset: usize) -> DecodeError {
    DecodeError::MalformedInput { offset }
}

fn put_u64(out: &mut Vec<u8>, v: u64, order: ByteOrder) {
    match order {
        ByteOrder::LittleEndian => out.extend_from_slice(&v.to_le_bytes()),
        ByteOrder::BigEndian => out.extend_from_slice(&v.to_be_bytes()),
    }
}

fn put_u32(out: &mut Vec<u8>, v: u32, order: ByteOrder) {
    match order {
        ByteOrder::LittleEndian => out.extend_from_slice(&v.to_le_bytes()),
        ByteOrder::BigEndian => out.extend_from_slice(&v.to_be_bytes()),
    }
}

fn put_sites(out: &mut Vec<u8>, sites: &[Vec<InstrProfValueData>], order: ByteOrder) {
    put_u64(out, sites.len() as u64, order);
    for site in sites {
        put_u64(out, site.len() as u64, order);
        for s in site {
            put_u64(out, s.value, order);
            put_u64(out, s.count, order);
        }
    }
}

fn record_bytes(name: &str, r: &NamedInstrProfRecord, order: ByteOrder) -> Vec<u8> {
    let mut out = Vec::new();
    put_u64(&mut out, name_hash(name, order), order);
    put_u64(&mut out, r.hash.unwrap(), order);
    put_u64(&mut out, r.record.counts.len() as u64, order);
    for c in &r.record.counts {
        put_u64(&mut out, *c, order);
    }
    let mut data = Vec::new();
    let kinds = match &r.record.data {
        None => 0,
        Some(d) => {
            put_sites(&mut data, &d.indirect_callsites, order);
            if d.mem_op_sizes.is_empty() {
                1
            } else {
                put_sites(&mut data, &d.mem_op_sizes, order);
                2
            }
        }
    };
    put_u32(&mut out, 8 + data.len() as u32, order);
    put_u32(&mut out, kinds, order);
    out.extend_from_slice(&data);
    out
}

fn header_bytes(magic: u64, version: u64, names: &[&str], order: ByteOrder) -> Vec<u8> {
    let mut out = Vec::new();
    put_u64(&mut out, magic, order);
    put_u64(&mut out, version, order);
    let mut table = Vec::new();
    for n in names {
        put_u64(&mut table, n.len() as u64, order);
        table.extend_from_slice(n.as_bytes());
    }
    put_u64(&mut out, table.len() as u64, order);
    out.extend_from_slice(&table);
    out
}

fn raw_bytes(version: u64, names: &[&str], records: &[NamedInstrProfRecord], order: ByteOrder) -> Vec<u8> {
    let mut out = header_bytes(RAW_MAGIC, version, names, order);
    for r in records {
        out.extend_from_slice(&record_bytes(r.name.as_ref().unwrap(), r, order));
    }
    out
}

fn indexed_bytes(
    version: u64,
    names: &[&str],
    records: &[NamedInstrProfRecord],
    order: ByteOrder,
) -> Vec<u8> {
    let mut out = header_bytes(INDEXED_MAGIC, version, names, order);
    let first = out.len() + 8 + 16 * records.len();
    let bodies: Vec<Vec<u8>> =
        records.iter().map(|r| record_bytes(r.name.as_ref().unwrap(), r, order)).collect();
    put_u64(&mut out, records.len() as u64, order);
    let mut at = first;
    for (r, body) in records.iter().zip(&bodies) {
        put_u64(&mut out, name_hash(r.name.as_ref().unwrap(), order), order);
        put_u64(&mut out, at as u64, order);
        at += body.len();
    }
    for body in &bodies {
        out.extend_from_slice(body);
    }
    out
}

fn record(name: &str, hash: u64, counts: Vec<u64>) -> NamedInstrProfRecord {
    NamedInstrProfRecord {
        name: Some(name.to_string()),
        hash: Some(hash),
        record: InstrProfRecord { counts, data: None },
    }
}

fn sample_records() -> Vec<NamedInstrProfRecord> {
    let mut f = record("main", 0x1234, vec![10, 3, 7]);
    f.record.data = Some(Box::new(ValueProfDataRecord {
        indirect_callsites: vec![vec![sample(0xabc, 4), sample(2, 9)], vec![]],
        mem_op_sizes: vec![vec![sample(8, 1)]],
    }));
    let mut g = record("helper", 77, vec![]);
    g.record.data = Some(Box::new(ValueProfDataRecord {
        indirect_callsites: vec![vec![sample(5, 6)]],
        mem_op_sizes: vec![],
    }));
    vec![f, g, record("na\u{ef}ve", u64::MAX, vec![u64::MAX, 0])]
}

fn expected(
    version: Option<u64>,
    is_ir: bool,
    has_csir: bool,
    records: Vec<NamedInstrProfRecord>,
    order: ByteOrder,
) -> InstrumentationProfile {
    let mut symtab = Symtab::default();
    for r in &records {
        symtab.add_func_name_in(r.name.clone().unwrap(), order);
    }
    InstrumentationProfile::new(version, is_ir, has_csir, records, symtab)
}

const NAMES: [&str; 3] = ["main", "helper", "na\u{ef}ve"];

#[test]
fn raw_profile_is_read_in_both_byte_orders() {
    for order in [LE, BE] {
        let bytes = raw_bytes(5, &NAMES, &sample_records(), order);
        for hash_order in [LE, BE] {
            let p = decode_raw(&bytes, hash_order).unwrap();
            assert_eq!(p, expected(Some(5), false, false, sample_records(), hash_order));
            assert_eq!(decode_in(&bytes, None, hash_order).unwrap(), p);
        }
        let p = decode_raw(&bytes, ByteOrder::native()).unwrap();
        assert_eq!(decode(&bytes, None).unwrap(), p);
        assert_eq!(decode(&bytes, Some(Format::Raw)).unwrap(), p);
        assert_eq!(detect_format(&bytes), Format::Raw);
    }
}

#[test]
fn names_of_a_profile_of_the_other_byte_order_are_found_by_their_native_hash() {
    // A profile written on a big-endian machine and read on a little-endian
    // one: its records have their names, and the names stand in the table
    // under the hashes that the reading machine computes.
    let bytes = raw_bytes(5, &NAMES, &sample_records(), BE);
    let p = decode_raw(&bytes, LE).unwrap();
    for (r, name) in p.records.iter().zip(NAMES) {
        assert_eq!(r.name.as_deref(), Some(name));
        assert_eq!(p.symtab.lookup(name_hash(name, LE)), Some(&name.to_string()));
        assert_eq!(p.symtab.lookup(name_hash(name, BE)), None);
    }
    assert_eq!(p.symtab.len(), 3);
}

#[test]
fn version_field_carries_the_level() {
    let ir = RAW_VERSION | (1 << 56);
    let p = decode_raw(&raw_bytes(ir, &[], &[], LE), LE).unwrap();
    assert_eq!(p.version(), Some(RAW_VERSION));
    assert!(p.is_ir_level_profile());
    assert!(!p.has_csir_level_profile());
    let cs = 1 | (1 << 56) | (1 << 57);
    let p = decode_raw(&raw_bytes(cs, &[], &[], BE), LE).unwrap();
    assert_eq!(p.version(), Some(1));
    assert!(p.is_ir_level_profile());
    assert!(p.has_csir_level_profile());
    assert!(p.records.is_empty());
    assert_eq!(p.symtab.len(), 0);
}

#[test]
fn record_without_known_name_has_no_name() {
    let bytes = raw_bytes(5, &["other"], &[record("main", 1, vec![4])], LE);
    let p = decode_raw(&bytes, LE).unwrap();
    assert_eq!(p.records.len(), 1);
    assert_eq!(p.records[0].name, None);
    assert_eq!(p.records[0].hash, Some(1));
    assert_eq!(p.records[0].record.counts, vec![4]);
    assert_eq!(p.symtab.lookup(name_hash("other", LE)), Some(&"other".to_string()));
}

#[test]
fn indexed_profile_is_read_in_the_order_of_its_index() {
    for order in [LE, BE] {
        let bytes = indexed_bytes(7, &NAMES, &sample_records(), order);
        for hash_order in [LE, BE] {
            let p = decode_indexed(&bytes, hash_order).unwrap();
            assert_eq!(p, expected(Some(7), false, false, sample_records(), hash_order));
        }
        let p = decode_indexed(&bytes, ByteOrder::native()).unwrap();
        assert_eq!(decode(&bytes, None).unwrap(), p);
        assert_eq!(detect_format(&bytes), Format::Indexed);
    }
    // An index that lists the records in another order, and one of them twice.
    let records = sample_records();
    let mut out = header_bytes(INDEXED_MAGIC, 7, &NAMES, LE);
    let bodies: Vec<Vec<u8>> =
        records.iter().map(|r| record_bytes(r.name.as_ref().unwrap(), r, LE)).collect();
    let first = out.len() + 8 + 16 * 3;
    let at = [first, first + bodies[0].len(), first + bodies[0].len() + bodies[1].len()];
    put_u64(&mut out, 3, LE);
    for i in [2usize, 0, 2] {
        put_u64(&mut out, name_hash(NAMES[i], LE), LE);
        put_u64(&mut out, at[i] as u64, LE);
    }
    for body in &bodies {
        out.extend_from_slice(body);
    }
    let p = decode_indexed(&out, LE).unwrap();
    let names: Vec<_> = p.records.iter().map(|r| r.name.clone().unwrap()).collect();
    assert_eq!(names, vec!["na\u{ef}ve", "main", "na\u{ef}ve"]);
}

const TEXT: &str = "# a profile\n:version 7\n\nmain\n# hash\n0x1234\n3\n10\n3\n7\n2\n0\n2\n2\n0xabc:4\n2:9\n0\n1\n1\n1\n8:1\n\nhelper\n77\n0\n1\n0\n1\n1\n5:6\n  na\u{ef}ve \t\r\n18446744073709551615\n2\n18446744073709551615\n0\n";

#[test]
fn text_and_indexed_profiles_of_the_same_data_are_equal() {
    for hash_order in [LE, BE] {
        let from_text = decode_text(TEXT.as_bytes(), hash_order).unwrap();
        for order in [LE, BE] {
            let bytes = indexed_bytes(7, &NAMES, &sample_records(), order);
            let from_indexed = decode_indexed(&bytes, hash_order).unwrap();
            assert_eq!(from_text, from_indexed);
            let mut a = from_text.records.clone();
            let mut b = from_indexed.records.clone();
            a.sort();
            b.sort();
            assert_eq!(a, b);
            let bytes = raw_bytes(7, &NAMES, &sample_records(), order);
            assert_eq!(from_text, decode_raw(&bytes, hash_order).unwrap());
        }
    }
    // Through `decode`, in the byte order of this machine, whatever the byte
    // order of the indexed profile.
    for order in [LE, BE] {
        let bytes = indexed_bytes(7, &NAMES, &sample_records(), order);
        assert_eq!(decode(TEXT.as_bytes(), None), decode(&bytes, None));
    }
    let native = decode(TEXT.as_bytes(), None).unwrap();
    assert_eq!(native, decode_in(TEXT.as_bytes(), Some(Format::Text), ByteOrder::native()).unwrap());
    assert_eq!(detect_format(TEXT.as_bytes()), Format::Text);
}

#[test]
fn text_directives_set_level_and_version() {
    let p = decode_text(b":ir\nf\n1\n1\n5\n", LE).unwrap();
    assert!(p.is_ir_level_profile() && !p.has_csir_level_profile());
    assert_eq!(p.version(), None);
    assert_eq!(p.records, vec![record("f", 1, vec![5])]);
    assert_eq!(p.symtab.lookup(name_hash("f", LE)), Some(&"f".to_string()));
    let p = decode_text(b":csir\n:version 12\n", LE).unwrap();
    assert!(p.is_ir_level_profile() && p.has_csir_level_profile());
    assert_eq!(p.version(), Some(12));
    assert!(p.records.is_empty());
    let p = decode_text(b":csir\n:fe\n", LE).unwrap();
    assert!(!p.is_ir_level_profile() && !p.has_csir_level_profile());
    let p = decode_text(b"", LE).unwrap();
    assert_eq!(p, InstrumentationProfile::default());
    let p = decode_text(b"\n  \n# only comments\n", LE).unwrap();
    assert_eq!(p, InstrumentationProfile::default());
    assert_eq!(decode_text(b":unknown\n", LE), Err(malformed(0)));
    assert_eq!(decode_text(b":ir\n:version x\n", LE), Err(malformed(4)));
    assert_eq!(decode_text(b":version 1", LE).unwrap().version(), Some(1));
    assert_eq!(decode_text(b":version", LE), Err(malformed(0)));
    assert_eq!(decode_text(b":IR\n", LE), Err(malformed(0)));
    // A directive after the first function is the name of a function, and
    // here the text ends after it.
    assert_eq!(decode_text(b"f\n1\n0\n:ir\n", LE), Err(malformed(10)));
    let p = decode_text(b"f\n1\n0\n:ir\n2\n0\n", LE).unwrap();
    assert_eq!(p.records[1].name, Some(":ir".to_string()));
    assert!(!p.is_ir_level_profile());
}

#[test]
fn text_without_value_data_goes_on_with_the_next_function() {
    let p = decode_text(b"f\n1\n2\n5\n6\ng\n2\n0\n", LE).unwrap();
    assert_eq!(p.records, vec![record("f", 1, vec![5, 6]), record("g", 2, vec![])]);
    assert_eq!(p.symtab.len(), 2);
}

#[test]
fn malformed_text_is_refused_at_the_line() {
    // The text ends within a function.
    assert_eq!(decode_text(b"f\n", LE), Err(malformed(2)));
    assert_eq!(decode_text(b"f\n1\n", LE), Err(malformed(4)));
    assert_eq!(decode_text(b"f\n1\n2\n5\n", LE), Err(malformed(8)));
    // Not a number.
    assert_eq!(decode_text(b"f\nxyz\n0\n", LE), Err(malformed(2)));
    assert_eq!(decode_text(b"f\n1\n0x1\n", LE), Err(malformed(4)));
    assert_eq!(decode_text(b"f\n1\n1\n-5\n", LE), Err(malformed(6)));
    assert_eq!(decode_text(b"f\n18446744073709551616\n0\n", LE), Err(malformed(2)));
    assert_eq!(decode_text(b"f\n0x10000000000000000\n0\n", LE), Err(malformed(2)));
    // A name that is not UTF-8.
    assert_eq!(decode_text(b"f\n1\n0\n\xff\xfe\n1\n0\n", LE), Err(malformed(6)));
    // Value data: no kind, too many kinds, a kind out of place.
    assert_eq!(decode_text(b"f\n1\n0\n0\n", LE), Err(malformed(6)));
    assert_eq!(decode_text(b"f\n1\n0\n3\n", LE), Err(malformed(6)));
    assert_eq!(decode_text(b"f\n1\n0\n1\n1\n0\n", LE), Err(malformed(8)));
    assert_eq!(decode_text(b"f\n1\n0\n2\n0\n0\n0\n0\n", LE), Err(malformed(12)));
    // A sample without colon, without value, without count.
    assert_eq!(decode_text(b"f\n1\n0\n1\n0\n1\n1\n55\n", LE), Err(malformed(14)));
    assert_eq!(decode_text(b"f\n1\n0\n1\n0\n1\n1\n:5\n", LE), Err(malformed(14)));
    assert_eq!(decode_text(b"f\n1\n0\n1\n0\n1\n1\n5:\n", LE), Err(malformed(14)));
    assert_eq!(decode_text(b"f\n1\n0\n1\n0\n1\n1\n5:0x6\n", LE), Err(malformed(14)));
    // Sites that are missing.
    assert_eq!(decode_text(b"f\n1\n0\n1\n0\n2\n0\n", LE), Err(malformed(14)));
}

#[test]
fn input_without_magic_is_not_binary() {
    assert_eq!(decode_raw(b"", LE), Err(malformed(0)));
    assert_eq!(decode_raw(b"1234567", LE), Err(malformed(0)));
    assert_eq!(decode_raw(&indexed_bytes(7, &[], &[], LE), LE), Err(malformed(0)));
    assert_eq!(decode_indexed(&raw_bytes(7, &[], &[], LE), LE), Err(malformed(0)));
    assert_eq!(decode(b"f\n1\n0\n", Some(Format::Raw)), Err(malformed(0)));
    assert_eq!(decode(b"f\n1\n0\n", Some(Format::Indexed)), Err(malformed(0)));
    // Binary input read as text.
    let bytes = raw_bytes(5, &[], &[], LE);
    assert!(decode(&bytes, Some(Format::Text)).is_err());
}

#[test]
fn unsupported_versions_are_refused() {
    for (version, number) in
        [(0u64, 0u64), (RAW_VERSION + 1, RAW_VERSION + 1), ((1 << 56) | 200, 200)]
    {
        let bytes = raw_bytes(version, &[], &[], LE);
        assert_eq!(decode_raw(&bytes, LE), Err(DecodeError::UnsupportedVersion { version: number }));
    }
    let bytes = indexed_bytes(INDEXED_VERSION + 1, &[], &[], BE);
    assert_eq!(
        decode_indexed(&bytes, LE),
        Err(DecodeError::UnsupportedVersion { version: INDEXED_VERSION + 1 })
    );
    assert!(decode_indexed(&indexed_bytes(INDEXED_VERSION, &[], &[], BE), LE).is_ok());
    assert!(decode_raw(&raw_bytes(RAW_VERSION, &[], &[], BE), LE).is_ok());
}

#[test]
fn truncated_input_is_refused_wherever_it_ends() {
    for order in [LE, BE] {
        let whole = raw_bytes(5, &NAMES, &sample_records(), order);
        assert!(decode_raw(&whole, LE).is_ok());
        for cut in 0..whole.len() {
            let r = decode_raw(&whole[..cut], LE);
            // The input may end after a whole record.
            if let Ok(p) = &r {
                assert!(p.records.len() < 3, "cut at {}", cut);
            } else {
                match r {
                    Err(DecodeError::MalformedInput { offset }) => assert!(offset <= cut),
                    other => panic!("cut at {}: {:?}", cut, other),
                }
            }
        }
        let whole = indexed_bytes(5, &NAMES, &sample_records(), order);
        for cut in 0..whole.len() {
            match decode_indexed(&whole[..cut], LE) {
                Err(DecodeError::MalformedInput { offset }) => assert!(offset <= cut),
                other => panic!("cut at {}: {:?}", cut, other),
            }
        }
    }
    assert_eq!(decode_raw(&raw_bytes(5, &[], &[], LE)[..12], LE), Err(malformed(8)));
    assert_eq!(decode_raw(&raw_bytes(5, &[], &[], LE)[..20], LE), Err(malformed(16)));
}

#[test]
fn name_table_lengths_are_checked() {
    // The table is declared longer than the rest of the input.
    let mut bytes = Vec::new();
    put_u64(&mut bytes, RAW_MAGIC, LE);
    put_u64(&mut bytes, 5, LE);
    put_u64(&mut bytes, 100, LE);
    bytes.extend_from_slice(&[0; 20]);
    assert_eq!(decode_raw(&bytes, LE), Err(malformed(16)));
    // A name is declared longer than the rest of the table.
    let mut bytes = Vec::new();
    put_u64(&mut bytes, RAW_MAGIC, LE);
    put_u64(&mut bytes, 5, LE);
    put_u64(&mut bytes, 10, LE);
    put_u64(&mut bytes, 3, LE);
    bytes.extend_from_slice(b"ab");
    bytes.extend_from_slice(&[0; 40]);
    assert_eq!(decode_raw(&bytes, LE), Err(malformed(24)));
    // The table ends within the length of a name.
    let mut bytes = Vec::new();
    put_u64(&mut bytes, RAW_MAGIC, LE);
    put_u64(&mut bytes, 5, LE);
    put_u64(&mut bytes, 4, LE);
    bytes.extend_from_slice(&[0; 40]);
    assert_eq!(decode_raw(&bytes, LE), Err(malformed(24)));
    // A name that is not UTF-8.
    let mut bytes = Vec::new();
    put_u64(&mut bytes, RAW_MAGIC, LE);
    put_u64(&mut bytes, 5, LE);
    put_u64(&mut bytes, 10, LE);
    put_u64(&mut bytes, 2, LE);
    bytes.extend_from_slice(&[0xc3, 0x28]);
    assert_eq!(decode_raw(&bytes, LE), Err(malformed(32)));
    // An empty name is a name.
    let p = decode_raw(&raw_bytes(5, &[""], &[], LE), LE).unwrap();
    assert_eq!(p.symtab.lookup(name_hash("", LE)), Some(&String::new()));
}

#[test]
fn counter_and_sample_counts_are_checked() {
    let start = header_bytes(RAW_MAGIC, 5, &[], LE);
    let at = start.len();
    // More counters declared than the input holds.
    let mut bytes = start.clone();
    put_u64(&mut bytes, 1, LE);
    put_u64(&mut bytes, 2, LE);
    put_u64(&mut bytes, u64::MAX, LE);
    put_u64(&mut bytes, 0, LE);
    assert_eq!(decode_raw(&bytes, LE), Err(malformed(at + 24)));
    // Value data of a wrong size.
    let mut bytes = start.clone();
    put_u64(&mut bytes, 1, LE);
    put_u64(&mut bytes, 2, LE);
    put_u64(&mut bytes, 0, LE);
    put_u32(&mut bytes, 9, LE);
    put_u32(&mut bytes, 0, LE);
    assert_eq!(decode_raw(&bytes, LE), Err(malformed(at + 24)));
    // Too many kinds.
    let mut bytes = start.clone();
    put_u64(&mut bytes, 1, LE);
    put_u64(&mut bytes, 2, LE);
    put_u64(&mut bytes, 0, LE);
    put_u32(&mut bytes, 8, LE);
    put_u32(&mut bytes, 3, LE);
    assert_eq!(decode_raw(&bytes, LE), Err(malformed(at + 28)));
    // More samples declared than the input holds.
    let mut bytes = start.clone();
    put_u64(&mut bytes, 1, LE);
    put_u64(&mut bytes, 2, LE);
    put_u64(&mut bytes, 0, LE);
    put_u32(&mut bytes, 40, LE);
    put_u32(&mut bytes, 1, LE);
    put_u64(&mut bytes, 1, LE);
    put_u64(&mut bytes, 2, LE);
    put_u64(&mut bytes, 7, LE);
    put_u64(&mut bytes, 7, LE);
    assert_eq!(decode_raw(&bytes, LE), Err(malformed(at + 48)));
}

#[test]
fn index_entries_are_checked() {
    let r = record("main", 1, vec![4]);
    let start = header_bytes(INDEXED_MAGIC, 5, &["main"], LE);
    // An entry that points beyond the input.
    let mut bytes = start.clone();
    put_u64(&mut bytes, 1, LE);
    put_u64(&mut bytes, name_hash("main", LE), LE);
    put_u64(&mut bytes, 10_000, LE);
    let len = bytes.len();
    assert_eq!(decode_indexed(&bytes, LE), Err(malformed(len)));
    // An entry with the hash of another name.
    let mut bytes = start.clone();
    let at = bytes.len() + 24;
    put_u64(&mut bytes, 1, LE);
    put_u64(&mut bytes, name_hash("other", LE), LE);
    put_u64(&mut bytes, at as u64, LE);
    bytes.extend_from_slice(&record_bytes("main", &r, LE));
    assert_eq!(decode_indexed(&bytes, LE), Err(malformed(at)));
    // More entries declared than the input holds.
    let mut bytes = start.clone();
    let at = bytes.len();
    put_u64(&mut bytes, 2, LE);
    put_u64(&mut bytes, name_hash("main", LE), LE);
    put_u64(&mut bytes, 0, LE);
    assert_eq!(decode_indexed(&bytes, LE), Err(malformed(at + 8)));
    // No entries.
    let mut bytes = start.clone();
    put_u64(&mut bytes, 0, LE);
    let p = decode_indexed(&bytes, LE).unwrap();
    assert!(p.records.is_empty());
    assert_eq!(p.symtab.len(), 1);
}

#[test]
fn integers_are_read_in_both_orders() {
    let bytes = [1u8, 2, 3, 4, 5, 6, 7, 8, 9];
    assert_eq!(u32_from_bytes(&bytes, 1, LE), 0x0504_0302);
    assert_eq!(u32_from_bytes(&bytes, 1, BE), 0x0203_0405);
    assert_eq!(read_u32(&bytes, 5, LE), Ok((0x0908_0706, 9)));
    assert_eq!(read_u32(&bytes, 6, LE), Err(malformed(6)));
    assert_eq!(read_u64(&bytes, 1, BE), Ok((0x0203_0405_0607_0809, 9)));
    assert_eq!(read_u64(&bytes, 2, BE), Err(malformed(2)));
    assert_eq!(read_u64(&bytes, 100, BE), Err(malformed(100)));
    assert_eq!(read_u64(&bytes, usize::MAX, LE), Err(malformed(usize::MAX)));
}

#[test]
fn numbers_are_read_in_decimal_and_hexadecimal() {
    let dec = |s: &str| read_decimal(s.as_bytes(), 0, s.len());
    assert_eq!(dec("0"), Some(0));
    assert_eq!(dec("007"), Some(7));
    assert_eq!(dec("18446744073709551615"), Some(u64::MAX));
    assert_eq!(dec("18446744073709551616"), None);
    assert_eq!(dec("99999999999999999999999"), None);
    assert_eq!(dec(""), None);
    assert_eq!(dec("12a"), None);
    assert_eq!(dec("+1"), None);
    assert_eq!(dec(" 1"), None);
    let hex = |s: &str| read_hex(s.as_bytes(), 0, s.len());
    assert_eq!(hex("ff"), Some(255));
    assert_eq!(hex("FfA0"), Some(0xffa0));
    assert_eq!(hex("ffffffffffffffff"), Some(u64::MAX));
    assert_eq!(hex("10000000000000000"), None);
    assert_eq!(hex(""), None);
    assert_eq!(hex("fg"), None);
    let num = |s: &str| read_number(s.as_bytes(), 0, s.len());
    assert_eq!(num("0x10"), Some(16));
    assert_eq!(num("0X10"), Some(16));
    assert_eq!(num("10"), Some(10));
    assert_eq!(num("0x"), None);
    assert_eq!(num("0"), Some(0));
    assert_eq!(num("x10"), None);
    assert_eq!(read_decimal(b"ab123cd", 2, 5), Some(123));
}

#[test]
fn lines_that_say_nothing_are_passed_over() {
    let text = b"  first \r\n\n# comment\n\t#indented comment\nsecond\n   \nlast";
    let lines = significant_lines(text);
    let texts: Vec<&[u8]> = lines.iter().map(|l| &text[l.start..l.end]).collect();
    assert_eq!(texts, vec![&b"first"[..], &b"second"[..], &b"last"[..]]);
    assert_eq!(lines[0], Line { start: 2, end: 7 });
    assert!(significant_lines(b"").is_empty());
    assert!(significant_lines(b"\n\n\n").is_empty());
    assert_eq!(significant_lines(b"a"), vec![Line { start: 0, end: 1 }]);
    assert_eq!(significant_lines(b"a b\n"), vec![Line { start: 0, end: 3 }]);
}
