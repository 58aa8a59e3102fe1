//! The two binary formats of a profile. Both start with a magic number and a
//! version, written in the byte order of the machine that wrote the profile,
//! and go on with the table of names. A raw profile then holds its records
//! one after the other up to its end; an indexed profile holds an index of
//! its records, each with the hash of its name and the position at which it
//! stands.

use super::hashing::{u64_from_bytes, ByteOrder};
use super::reader::{
    lemma_prepend_one, prepend, read_name, read_record, read_u64, take_names, take_record,
    take_u64, u64_at, DecodeError, RawRecord, RawRecordModel,
};
use super::types::{
    records_model, table_add, table_lookup, InstrumentationProfile, NamedInstrProfRecord,
    NamedRecordModel, ProfileModel, Symtab,
};
use vstd::prelude::*;

verus! {

/// The first eight bytes of a raw profile, as an integer.
pub const RAW_MAGIC: u64 = 0xff6c_7072_6f66_7281;

/// The first eight bytes of an indexed profile, as an integer.
pub const INDEXED_MAGIC: u64 = 0xff6c_7072_6f66_6981;

/// The newest version of the raw format that is read.
pub const RAW_VERSION: u64 = 8;

/// The newest version of the indexed format that is read.
pub const INDEXED_VERSION: u64 = 10;

/// The bit of the version field that marks an IR-level profile.
pub const VARIANT_BIT_IR: u64 = 56;

/// The bit of the version field that marks a profile with context-sensitive
/// records.
pub const VARIANT_BIT_CS: u64 = 57;

/// The part of the version field that holds the number of the version.
pub const VERSION_MASK: u64 = 0x00ff_ffff_ffff_ffff;

/// The byte order in which the first eight bytes are the magic number, if
/// there is one.
pub open spec fn magic_order(bytes: Seq<u8>, magic: u64) -> Option<ByteOrder> {
    if bytes.len() < 8 {
        None
    } else if u64_at(bytes, 0, ByteOrder::LittleEndian) == magic {
        Some(ByteOrder::LittleEndian)
    } else if u64_at(bytes, 0, ByteOrder::BigEndian) == magic {
        Some(ByteOrder::BigEndian)
    } else {
        None
    }
}

/// What the start of a binary profile says.
#[derive(Debug, Clone, Copy, PartialEq, Eq)]
pub struct Header {
    pub order: ByteOrder,
    pub version: u64,
    pub is_ir: bool,
    pub has_csir: bool,
}

/// The number of the version in a version field.
pub open spec fn version_number(field: u64) -> u64 {
    field & VERSION_MASK
}

/// Whether a bit of a version field is set.
pub open spec fn variant_bit(field: u64, bit: u64) -> bool {
    (field >> bit) & 1 == 1
}

/// The header of a binary profile: the magic number, which gives the byte
/// order, and the version field, whose number is from 1 up to `newest`.
pub open spec fn take_header(bytes: Seq<u8>, magic: u64, newest: u64) -> Result<
    (Header, usize),
    DecodeError,
> {
    match magic_order(bytes, magic) {
        None => Err(DecodeError::MalformedInput { offset: 0 }),
        Some(order) => match take_u64(bytes, 8, order) {
            Err(e) => Err(e),
            Ok((field, next)) => {
                let version = version_number(field);
                if 1 <= version <= newest {
                    Ok(
                        (
                            Header {
                                order,
                                version,
                                is_ir: variant_bit(field, VARIANT_BIT_IR),
                                has_csir: variant_bit(field, VARIANT_BIT_CS),
                            },
                            next,
                        ),
                    )
                } else {
                    Err(DecodeError::UnsupportedVersion { version })
                }
            },
        },
    }
}

/// The table that holds each name of a sequence under its hash. Of two
/// names with one hash the later stands.
pub open spec fn names_table(names: Seq<Seq<char>>, order: ByteOrder) -> Map<u64, Seq<char>>
    decreases names.len(),
{
    if names.len() == 0 {
        Map::empty()
    } else {
        table_add(names_table(names.drop_last(), order), names.last(), order)
    }
}

/// The names of the table of names at `at`: the number of bytes that the
/// names take, then the names.
pub open spec fn take_name_list(bytes: Seq<u8>, at: usize, order: ByteOrder) -> Result<
    (Seq<Seq<char>>, usize),
    DecodeError,
> {
    match take_u64(bytes, at, order) {
        Err(e) => Err(e),
        Ok((size, start)) => if size > bytes.len() - start {
            Err(DecodeError::MalformedInput { offset: at })
        } else {
            take_names(bytes, start, (start + size) as usize, order)
        },
    }
}

/// A record with the name that the table holds under the hash of its name.
pub open spec fn resolve(raw: RawRecordModel, table: Map<u64, Seq<char>>) -> NamedRecordModel {
    NamedRecordModel {
        name: table_lookup(table, raw.name_hash),
        hash: Some(raw.func_hash),
        record: raw.record,
    }
}

/// The records from `at` up to the end of the input.
pub open spec fn take_records(
    bytes: Seq<u8>,
    at: usize,
    table: Map<u64, Seq<char>>,
    order: ByteOrder,
) -> Result<(Seq<NamedRecordModel>, usize), DecodeError>
    decreases bytes.len() - at,
{
    if at >= bytes.len() {
        Ok((Seq::empty(), at))
    } else {
        match take_record(bytes, at, order) {
            Err(e) => Err(e),
            Ok((raw, next)) => if at < next <= bytes.len() {
                prepend(seq![resolve(raw, table)], take_records(bytes, next, table, order))
            } else {
                Err(DecodeError::MalformedInput { offset: at })
            },
        }
    }
}

/// The profile that the bytes of a raw profile hold. A record gets the name
/// that stands in the table of names under the hash that the record holds,
/// which is a hash in the byte order of the profile. The table of the profile
/// returned holds the same names under their hashes in `hash_order`, the byte
/// order of the machine that reads.
pub open spec fn decode_raw_spec(bytes: Seq<u8>, hash_order: ByteOrder) -> Result<
    ProfileModel,
    DecodeError,
> {
    match take_header(bytes, RAW_MAGIC, RAW_VERSION) {
        Err(e) => Err(e),
        Ok((header, names_at)) => match take_name_list(bytes, names_at, header.order) {
            Err(e) => Err(e),
            Ok((names, records_at)) => match take_records(
                bytes,
                records_at,
                names_table(names, header.order),
                header.order,
            ) {
                Err(e) => Err(e),
                Ok((records, _)) => Ok(
                    ProfileModel {
                        version: Some(header.version),
                        has_csir: header.has_csir,
                        is_ir: header.is_ir,
                        records,
                        symtab: names_table(names, hash_order),
                    },
                ),
            },
        },
    }
}

/// An entry of the index of an indexed profile.
#[derive(Debug, Clone, Copy, PartialEq, Eq)]
pub struct IndexEntry {
    /// The hash of the name of a function.
    pub name_hash: u64,
    /// The position of the record of the function, from the start of the
    /// profile.
    pub offset: u64,
}

/// The index at `at`: the number of its entries, then the entries.
pub open spec fn take_index(bytes: Seq<u8>, at: usize, order: ByteOrder) -> Result<
    (Seq<IndexEntry>, usize),
    DecodeError,
> {
    match take_u64(bytes, at, order) {
        Err(e) => Err(e),
        Ok((n, start)) => if start + 16 * n <= bytes.len() {
            Ok(
                (
                    Seq::new(
                        n as nat,
                        |i: int|
                            IndexEntry {
                                name_hash: u64_at(bytes, start + 16 * i, order),
                                offset: u64_at(bytes, start + 16 * i + 8, order),
                            },
                    ),
                    (start + 16 * n) as usize,
                ),
            )
        } else {
            Err(DecodeError::MalformedInput { offset: start })
        },
    }
}

/// The record that an entry of the index points at. An entry that points
/// beyond the input, or at a record of another function, is malformed.
pub open spec fn take_indexed_record(
    bytes: Seq<u8>,
    entry: IndexEntry,
    table: Map<u64, Seq<char>>,
    order: ByteOrder,
) -> Result<NamedRecordModel, DecodeError> {
    if entry.offset > bytes.len() {
        Err(DecodeError::MalformedInput { offset: bytes.len() as usize })
    } else {
        match take_record(bytes, entry.offset as usize, order) {
            Err(e) => Err(e),
            Ok((raw, _)) => if raw.name_hash == entry.name_hash {
                Ok(resolve(raw, table))
            } else {
                Err(DecodeError::MalformedInput { offset: entry.offset as usize })
            },
        }
    }
}

/// The records that the entries of an index from `i` on point at.
pub open spec fn take_indexed_records(
    bytes: Seq<u8>,
    index: Seq<IndexEntry>,
    i: nat,
    table: Map<u64, Seq<char>>,
    order: ByteOrder,
) -> Result<(Seq<NamedRecordModel>, usize), DecodeError>
    decreases index.len() - i,
{
    if i >= index.len() {
        Ok((Seq::empty(), 0))
    } else {
        match take_indexed_record(bytes, index[i as int], table, order) {
            Err(e) => Err(e),
            Ok(r) => prepend(seq![r], take_indexed_records(bytes, index, i + 1, table, order)),
        }
    }
}

/// The profile that the bytes of an indexed profile hold. Its records stand
/// in the order of the index. Names are found and kept as in a raw profile.
pub open spec fn decode_indexed_spec(bytes: Seq<u8>, hash_order: ByteOrder) -> Result<
    ProfileModel,
    DecodeError,
> {
    match take_header(bytes, INDEXED_MAGIC, INDEXED_VERSION) {
        Err(e) => Err(e),
        Ok((header, names_at)) => match take_name_list(bytes, names_at, header.order) {
            Err(e) => Err(e),
            Ok((names, index_at)) => match take_index(bytes, index_at, header.order) {
                Err(e) => Err(e),
                Ok((index, _)) => match take_indexed_records(
                    bytes,
                    index,
                    0,
                    names_table(names, header.order),
                    header.order,
                ) {
                    Err(e) => Err(e),
                    Ok((records, _)) => Ok(
                        ProfileModel {
                            version: Some(header.version),
                            has_csir: header.has_csir,
                            is_ir: header.is_ir,
                            records,
                            symtab: names_table(names, hash_order),
                        },
                    ),
                },
            },
        },
    }
}

/// Finds the byte order in which the input starts with the magic number.
pub fn find_magic(bytes: &[u8], magic: u64) -> (order: Option<ByteOrder>)
    ensures
        order == magic_order(bytes@, magic),
{
    if bytes.len() < 8 {
        None
    } else if u64_from_bytes(bytes, 0, ByteOrder::LittleEndian) == magic {
        Some(ByteOrder::LittleEndian)
    } else if u64_from_bytes(bytes, 0, ByteOrder::BigEndian) == magic {
        Some(ByteOrder::BigEndian)
    } else {
        None
    }
}

/// Reads the header of a binary profile.
pub fn read_header(bytes: &[u8], magic: u64, newest: u64) -> (r: Result<(Header, usize), DecodeError>)
    ensures
        r == take_header(bytes@, magic, newest),
        r matches Ok((_, next)) ==> next <= bytes@.len(),
{
    let order: ByteOrder = match find_magic(bytes, magic) {
        Some(o) => o,
        None => {
            return Err(DecodeError::MalformedInput { offset: 0 });
        },
    };
    let (field, next) = match read_u64(bytes, 8, order) {
        Ok(x) => x,
        Err(e) => {
            return Err(e);
        },
    };
    let version: u64 = field & VERSION_MASK;
    if version < 1 || version > newest {
        return Err(DecodeError::UnsupportedVersion { version });
    }
    Ok(
        (
            Header {
                order,
                version,
                is_ir: (field >> VARIANT_BIT_IR) & 1 == 1,
                has_csir: (field >> VARIANT_BIT_CS) & 1 == 1,
            },
            next,
        ),
    )
}

/// The names of a table of names and the two tables made of them.
pub struct NameTables {
    /// The names under their hashes in the byte order of the profile.
    pub lookup: Symtab,
    /// The names under their hashes in the byte order asked for.
    pub table: Symtab,
    /// The names, in the order of the profile.
    pub names: Ghost<Seq<Seq<char>>>,
}

/// Reads the table of names of a profile of byte order `order`. Returns the
/// names under their hashes in that order and under their hashes in
/// `hash_order`, and the position after the table.
pub fn read_name_tables(bytes: &[u8], at: usize, order: ByteOrder, hash_order: ByteOrder) -> (r:
    Result<(NameTables, usize), DecodeError>)
    ensures
        match r {
            Ok((tables, next)) => take_name_list(bytes@, at, order) == Ok::<
                (Seq<Seq<char>>, usize),
                DecodeError,
            >((tables.names@, next)) && tables.lookup@ == names_table(tables.names@, order)
                && tables.table@ == names_table(tables.names@, hash_order) && next <= bytes@.len(),
            Err(e) => take_name_list(bytes@, at, order) == Err::<
                (Seq<Seq<char>>, usize),
                DecodeError,
            >(e),
        },
{
    let (size, start) = match read_u64(bytes, at, order) {
        Ok(x) => x,
        Err(e) => {
            return Err(e);
        },
    };
    if size > (bytes.len() - start) as u64 {
        return Err(DecodeError::MalformedInput { offset: at });
    }
    let end: usize = start + size as usize;
    let ghost whole = take_names(bytes@, start, end, order);
    let ghost mut names: Seq<Seq<char>> = Seq::empty();
    let mut lookup: Symtab = Symtab::default();
    let mut table: Symtab = Symtab::default();
    let mut pos: usize = start;
    proof {
        match take_names(bytes@, pos, end, order) {
            Ok((tail, stop)) => {
                assert(names + tail =~= tail);
            },
            Err(e) => {},
        }
    }
    while pos < end
        invariant
            start <= pos <= end <= bytes@.len(),
            take_u64(bytes@, at, order) == Ok::<(u64, usize), DecodeError>((size, start)),
            end == start + size,
            whole == take_names(bytes@, start, end, order),
            prepend(names, take_names(bytes@, pos, end, order)) == whole,
            lookup@ == names_table(names, order),
            table@ == names_table(names, hash_order),
        decreases end - pos,
    {
        match read_name(bytes, pos, end, order) {
            Ok((name, next)) => {
                proof {
                    lemma_prepend_one(names, name@, take_names(bytes@, next, end, order));
                    assert(names.push(name@).drop_last() =~= names);
                    names = names.push(name@);
                }
                table.add_func_name_in(name.clone(), hash_order);
                lookup.add_func_name_in(name, order);
                pos = next;
            },
            Err(e) => {
                return Err(e);
            },
        }
    }
    proof {
        assert(names + Seq::<Seq<char>>::empty() =~= names);
    }
    Ok((NameTables { lookup, table, names: Ghost(names) }, pos))
}

/// Gives a record the name that the table holds under the hash of its name.
pub fn resolve_record(raw: RawRecord, table: &Symtab) -> (r: NamedInstrProfRecord)
    ensures
        r@ == resolve(raw@, table@),
{
    let name: Option<String> = match table.lookup(raw.name_hash) {
        Some(n) => Some(n.clone()),
        None => None,
    };
    NamedInstrProfRecord { name, hash: Some(raw.func_hash), record: raw.record }
}

/// Decodes a raw profile. The table of names of the profile returned holds
/// the names under their hashes in `hash_order`.
pub fn decode_raw(bytes: &[u8], hash_order: ByteOrder) -> (r: Result<InstrumentationProfile, DecodeError>)
    ensures
        match r {
            Ok(p) => decode_raw_spec(bytes@, hash_order) == Ok::<ProfileModel, DecodeError>(p@),
            Err(e) => decode_raw_spec(bytes@, hash_order) == Err::<ProfileModel, DecodeError>(e),
        },
{
    let (header, names_at) = match read_header(bytes, RAW_MAGIC, RAW_VERSION) {
        Ok(x) => x,
        Err(e) => {
            return Err(e);
        },
    };
    let (tables, records_at) = match read_name_tables(bytes, names_at, header.order, hash_order) {
        Ok(x) => x,
        Err(e) => {
            return Err(e);
        },
    };
    let lookup: Symtab = tables.lookup;
    let symtab: Symtab = tables.table;
    let ghost names = tables.names@;
    let order: ByteOrder = header.order;
    let ghost whole = take_records(bytes@, records_at, lookup@, order);
    let mut records: Vec<NamedInstrProfRecord> = Vec::new();
    let mut pos: usize = records_at;
    proof {
        assert(records_model(records@) =~= Seq::<NamedRecordModel>::empty());
        match take_records(bytes@, pos, lookup@, order) {
            Ok((tail, stop)) => {
                assert(records_model(records@) + tail =~= tail);
            },
            Err(e) => {},
        }
    }
    while pos < bytes.len()
        invariant
            pos <= bytes@.len(),
            whole == take_records(bytes@, records_at, lookup@, order),
            prepend(records_model(records@), take_records(bytes@, pos, lookup@, order)) == whole,
            take_header(bytes@, RAW_MAGIC, RAW_VERSION) == Ok::<(Header, usize), DecodeError>(
                (header, names_at),
            ),
            take_name_list(bytes@, names_at, header.order) == Ok::<
                (Seq<Seq<char>>, usize),
                DecodeError,
            >((names, records_at)),
            lookup@ == names_table(names, header.order),
            symtab@ == names_table(names, hash_order),
            order == header.order,
        decreases bytes@.len() - pos,
    {
        let ghost head = records_model(records@);
        match read_record(bytes, pos, order) {
            Ok((raw, next)) => {
                let named: NamedInstrProfRecord = resolve_record(raw, &lookup);
                proof {
                    lemma_prepend_one(
                        head,
                        named@,
                        take_records(bytes@, next, lookup@, order),
                    );
                }
                records.push(named);
                proof {
                    assert(records_model(records@) =~= head.push(named@));
                }
                pos = next;
            },
            Err(e) => {
                return Err(e);
            },
        }
    }
    proof {
        assert(records_model(records@) + Seq::<NamedRecordModel>::empty() =~= records_model(
            records@,
        ));
    }
    Ok(
        InstrumentationProfile {
            version: Some(header.version),
            has_csir: header.has_csir,
            is_ir: header.is_ir,
            records,
            symtab,
        },
    )
}

/// Reads the index of an indexed profile.
pub fn read_index(bytes: &[u8], at: usize, order: ByteOrder) -> (r: Result<
    (Vec<IndexEntry>, usize),
    DecodeError,
>)
    ensures
        match r {
            Ok((v, next)) => take_index(bytes@, at, order) == Ok::<
                (Seq<IndexEntry>, usize),
                DecodeError,
            >((v@, next)),
            Err(e) => take_index(bytes@, at, order) == Err::<(Seq<IndexEntry>, usize), DecodeError>(
                e,
            ),
        },
{
    let (n, start) = match read_u64(bytes, at, order) {
        Ok(x) => x,
        Err(e) => {
            return Err(e);
        },
    };
    let len: usize = bytes.len();
    if (((len - start) / 16) as u64) < n {
        return Err(DecodeError::MalformedInput { offset: start });
    }
    let count: usize = n as usize;
    let mut v: Vec<IndexEntry> = Vec::new();
    let mut i: usize = 0;
    while i < count
        invariant
            i <= count,
            count == n,
            len == bytes@.len(),
            start + 16 * count <= len,
            v@.len() == i,
            forall|k: int|
                0 <= k < i ==> #[trigger] v@[k] == (IndexEntry {
                    name_hash: u64_at(bytes@, start + 16 * k, order),
                    offset: u64_at(bytes@, start + 16 * k + 8, order),
                }),
        decreases count - i,
    {
        let name_hash: u64 = u64_from_bytes(bytes, start + 16 * i, order);
        let offset: u64 = u64_from_bytes(bytes, start + 16 * i + 8, order);
        v.push(IndexEntry { name_hash, offset });
        i = i + 1;
    }
    proof {
        assert(v@ =~= Seq::new(
            n as nat,
            |i: int|
                IndexEntry {
                    name_hash: u64_at(bytes@, start + 16 * i, order),
                    offset: u64_at(bytes@, start + 16 * i + 8, order),
                },
        ));
    }
    Ok((v, start + 16 * count))
}

/// Reads the record that an entry of the index points at.
pub fn read_indexed_record(bytes: &[u8], entry: IndexEntry, table: &Symtab, order: ByteOrder) -> (r:
    Result<NamedInstrProfRecord, DecodeError>)
    ensures
        match r {
            Ok(named) => take_indexed_record(bytes@, entry, table@, order) == Ok::<
                NamedRecordModel,
                DecodeError,
            >(named@),
            Err(e) => take_indexed_record(bytes@, entry, table@, order) == Err::<
                NamedRecordModel,
                DecodeError,
            >(e),
        },
{
    if entry.offset > bytes.len() as u64 {
        return Err(DecodeError::MalformedInput { offset: bytes.len() });
    }
    let at: usize = entry.offset as usize;
    match read_record(bytes, at, order) {
        Ok((raw, _)) => {
            if raw.name_hash != entry.name_hash {
                return Err(DecodeError::MalformedInput { offset: at });
            }
            Ok(resolve_record(raw, table))
        },
        Err(e) => Err(e),
    }
}

/// Decodes an indexed profile. The table of names of the profile returned
/// holds the names under their hashes in `hash_order`.
pub fn decode_indexed(bytes: &[u8], hash_order: ByteOrder) -> (r: Result<InstrumentationProfile, DecodeError>)
    ensures
        match r {
            Ok(p) => decode_indexed_spec(bytes@, hash_order) == Ok::<ProfileModel, DecodeError>(p@),
            Err(e) => decode_indexed_spec(bytes@, hash_order) == Err::<ProfileModel, DecodeError>(e),
        },
{
    let (header, names_at) = match read_header(bytes, INDEXED_MAGIC, INDEXED_VERSION) {
        Ok(x) => x,
        Err(e) => {
            return Err(e);
        },
    };
    let (tables, index_at) = match read_name_tables(bytes, names_at, header.order, hash_order) {
        Ok(x) => x,
        Err(e) => {
            return Err(e);
        },
    };
    let lookup: Symtab = tables.lookup;
    let symtab: Symtab = tables.table;
    let ghost names = tables.names@;
    let order: ByteOrder = header.order;
    let (index, _) = match read_index(bytes, index_at, order) {
        Ok(x) => x,
        Err(e) => {
            return Err(e);
        },
    };
    let ghost whole = take_indexed_records(bytes@, index@, 0, lookup@, order);
    let mut records: Vec<NamedInstrProfRecord> = Vec::new();
    let mut i: usize = 0;
    proof {
        assert(records_model(records@) =~= Seq::<NamedRecordModel>::empty());
        match take_indexed_records(bytes@, index@, i as nat, lookup@, order) {
            Ok((tail, stop)) => {
                assert(records_model(records@) + tail =~= tail);
            },
            Err(e) => {},
        }
    }
    while i < index.len()
        invariant
            i <= index@.len(),
            whole == take_indexed_records(bytes@, index@, 0, lookup@, order),
            prepend(
                records_model(records@),
                take_indexed_records(bytes@, index@, i as nat, lookup@, order),
            ) == whole,
            take_header(bytes@, INDEXED_MAGIC, INDEXED_VERSION) == Ok::<
                (Header, usize),
                DecodeError,
            >((header, names_at)),
            take_name_list(bytes@, names_at, header.order) == Ok::<
                (Seq<Seq<char>>, usize),
                DecodeError,
            >((names, index_at)),
            lookup@ == names_table(names, header.order),
            symtab@ == names_table(names, hash_order),
            take_index(bytes@, index_at, header.order) is Ok,
            take_index(bytes@, index_at, header.order)->Ok_0.0 == index@,
            order == header.order,
        decreases index@.len() - i,
    {
        let ghost head = records_model(records@);
        match read_indexed_record(bytes, index[i], &lookup, order) {
            Ok(named) => {
                proof {
                    lemma_prepend_one(
                        head,
                        named@,
                        take_indexed_records(bytes@, index@, (i + 1) as nat, lookup@, order),
                    );
                }
                records.push(named);
                proof {
                    assert(records_model(records@) =~= head.push(named@));
                }
            },
            Err(e) => {
                return Err(e);
            },
        }
        i = i + 1;
    }
    proof {
        assert(records_model(records@) + Seq::<NamedRecordModel>::empty() =~= records_model(
            records@,
        ));
    }
    Ok(
        InstrumentationProfile {
            version: Some(header.version),
            has_csir: header.has_csir,
            is_ir: header.is_ir,
            records,
            symtab,
        },
    )
}

} // verus!
