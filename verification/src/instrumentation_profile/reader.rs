//! Reading the parts of a binary profile from bytes: integers in either byte
//! order, names, counters, value sites and records. Each reader takes the
//! position at which to read and returns what it read with the position
//! after it, or the position at which the input is malformed.

use super::hashing::{u64_from_bytes, u64_of_bytes, ByteOrder};
use super::types::{
    sites_model, InstrProfRecord, InstrProfValueData, InstrProfValueSiteRecord, RecordModel,
    ValueProfData, ValueProfDataRecord, ValueProfModel,
};
use vstd::prelude::*;
use vstd::utf8::{decode_utf8, valid_utf8};

verus! {

/// Why bytes could not be decoded.
#[derive(Debug, Clone, Copy, PartialEq, Eq, Hash)]
pub enum DecodeError {
    /// The input ends too early, does not start as a profile does, or holds
    /// a length that leads beyond its end. `offset` is the position of the
    /// part that cannot be read.
    MalformedInput { offset: usize },
    /// The input is a profile of a version that this library does not read.
    UnsupportedVersion { version: u64 },
}

/// The value of four bytes, least significant byte first.
pub open spec fn le_u32(b: Seq<u8>) -> int {
    b[0] + b[1] * 0x100 + b[2] * 0x1_0000 + b[3] * 0x100_0000
}

/// The value of four bytes, most significant byte first.
pub open spec fn be_u32(b: Seq<u8>) -> int {
    b[3] + b[2] * 0x100 + b[1] * 0x1_0000 + b[0] * 0x100_0000
}

/// The value of four bytes in the given byte order.
pub open spec fn u32_of_bytes(b: Seq<u8>, order: ByteOrder) -> u32 {
    match order {
        ByteOrder::LittleEndian => le_u32(b) as u32,
        ByteOrder::BigEndian => be_u32(b) as u32,
    }
}

/// The integer of eight bytes that starts at `at`.
pub open spec fn u64_at(bytes: Seq<u8>, at: int, order: ByteOrder) -> u64 {
    u64_of_bytes(bytes.subrange(at, at + 8), order)
}

/// The integer of four bytes that starts at `at`.
pub open spec fn u32_at(bytes: Seq<u8>, at: int, order: ByteOrder) -> u32 {
    u32_of_bytes(bytes.subrange(at, at + 4), order)
}

/// An integer of eight bytes at `at`, if the input is long enough.
pub open spec fn take_u64(bytes: Seq<u8>, at: usize, order: ByteOrder) -> Result<
    (u64, usize),
    DecodeError,
> {
    if at + 8 <= bytes.len() {
        Ok((u64_at(bytes, at as int, order), (at + 8) as usize))
    } else {
        Err(DecodeError::MalformedInput { offset: at })
    }
}

/// An integer of four bytes at `at`, if the input is long enough.
pub open spec fn take_u32(bytes: Seq<u8>, at: usize, order: ByteOrder) -> Result<
    (u32, usize),
    DecodeError,
> {
    if at + 4 <= bytes.len() {
        Ok((u32_at(bytes, at as int, order), (at + 4) as usize))
    } else {
        Err(DecodeError::MalformedInput { offset: at })
    }
}

/// `n` integers of eight bytes from `at` on, if the input is long enough.
pub open spec fn take_u64s(bytes: Seq<u8>, at: usize, n: u64, order: ByteOrder) -> Result<
    (Seq<u64>, usize),
    DecodeError,
> {
    if at + 8 * n <= bytes.len() {
        Ok((Seq::new(n as nat, |i: int| u64_at(bytes, at + 8 * i, order)), (at + 8 * n) as usize))
    } else {
        Err(DecodeError::MalformedInput { offset: at })
    }
}

/// `n` samples from `at` on, each a value and a count of eight bytes, if
/// the input is long enough.
pub open spec fn take_samples(bytes: Seq<u8>, at: usize, n: u64, order: ByteOrder) -> Result<
    (Seq<InstrProfValueData>, usize),
    DecodeError,
> {
    if at + 16 * n <= bytes.len() {
        Ok(
            (
                Seq::new(
                    n as nat,
                    |i: int|
                        InstrProfValueData {
                            value: u64_at(bytes, at + 16 * i, order),
                            count: u64_at(bytes, at + 16 * i + 8, order),
                        },
                ),
                (at + 16 * n) as usize,
            ),
        )
    } else {
        Err(DecodeError::MalformedInput { offset: at })
    }
}

/// A value site at `at`: the number of its samples, then the samples.
pub open spec fn take_site(bytes: Seq<u8>, at: usize, order: ByteOrder) -> Result<
    (Seq<InstrProfValueData>, usize),
    DecodeError,
> {
    match take_u64(bytes, at, order) {
        Ok((n, next)) => take_samples(bytes, next, n, order),
        Err(e) => Err(e),
    }
}

/// What was read, with `head` before it.
pub open spec fn prepend<T, P>(head: Seq<T>, rest: Result<(Seq<T>, P), DecodeError>) -> Result<
    (Seq<T>, P),
    DecodeError,
> {
    match rest {
        Ok((tail, end)) => Ok((head + tail, end)),
        Err(e) => Err(e),
    }
}

/// Reading on after `head` and one more item is reading on after `head`
/// with the item.
pub proof fn lemma_prepend_one<T, P>(head: Seq<T>, item: T, rest: Result<(Seq<T>, P), DecodeError>)
    ensures
        prepend(head, prepend(seq![item], rest)) == prepend(head.push(item), rest),
        prepend(Seq::<T>::empty(), rest) == rest,
{
    match rest {
        Ok((tail, end)) => {
            assert(head + (seq![item] + tail) =~= head.push(item) + tail);
            assert(Seq::<T>::empty() + tail =~= tail);
        },
        Err(e) => {},
    }
}

/// `n` value sites from `at` on, one after the other.
pub open spec fn take_sites(bytes: Seq<u8>, at: usize, n: nat, order: ByteOrder) -> Result<
    (Seq<Seq<InstrProfValueData>>, usize),
    DecodeError,
>
    decreases n,
{
    if n == 0 {
        Ok((Seq::empty(), at))
    } else {
        match take_site(bytes, at, order) {
            Ok((site, next)) => prepend(seq![site], take_sites(bytes, next, (n - 1) as nat, order)),
            Err(e) => Err(e),
        }
    }
}

/// The value sites of one kind at `at`: their number, then the sites.
pub open spec fn take_site_list(bytes: Seq<u8>, at: usize, order: ByteOrder) -> Result<
    (Seq<Seq<InstrProfValueData>>, usize),
    DecodeError,
> {
    match take_u64(bytes, at, order) {
        Ok((n, next)) => take_sites(bytes, next, n as nat, order),
        Err(e) => Err(e),
    }
}

/// The payload that value data of a record is read into: none if the
/// section holds no kind. The size of the section is the distance from `at`
/// to `end`; a section that declares another size is malformed.
pub open spec fn sized_payload(
    header: ValueProfData,
    at: usize,
    end: usize,
    payload: Option<ValueProfModel>,
) -> Result<(Option<ValueProfModel>, usize), DecodeError> {
    if header.total_size == end - at {
        Ok((payload, end))
    } else {
        Err(DecodeError::MalformedInput { offset: at })
    }
}

/// The value-profile section of a record at `at`: its size in bytes and the
/// number of kinds that it holds, each as four bytes; then the sites of the
/// indirect call targets if it holds a kind, and the sites of the memory
/// operation sizes if it holds two.
pub open spec fn take_value_data(bytes: Seq<u8>, at: usize, order: ByteOrder) -> Result<
    (Option<ValueProfModel>, usize),
    DecodeError,
> {
    match take_u32(bytes, at, order) {
        Err(e) => Err(e),
        Ok((total_size, kinds_at)) => match take_u32(bytes, kinds_at, order) {
            Err(e) => Err(e),
            Ok((num_value_kinds, calls_at)) => {
                let header = ValueProfData { total_size, num_value_kinds };
                if num_value_kinds == 0 {
                    sized_payload(header, at, calls_at, None)
                } else if num_value_kinds > 2 {
                    Err(DecodeError::MalformedInput { offset: kinds_at })
                } else {
                    match take_site_list(bytes, calls_at, order) {
                        Err(e) => Err(e),
                        Ok((calls, sizes_at)) => if num_value_kinds == 1 {
                            sized_payload(
                                header,
                                at,
                                sizes_at,
                                Some(
                                    ValueProfModel {
                                        indirect_callsites: calls,
                                        mem_op_sizes: Seq::empty(),
                                    },
                                ),
                            )
                        } else {
                            match take_site_list(bytes, sizes_at, order) {
                                Err(e) => Err(e),
                                Ok((sizes, end)) => sized_payload(
                                    header,
                                    at,
                                    end,
                                    Some(
                                        ValueProfModel {
                                            indirect_callsites: calls,
                                            mem_op_sizes: sizes,
                                        },
                                    ),
                                ),
                            }
                        },
                    }
                }
            },
        },
    }
}

/// A record as it stands in a binary profile: with the hash of its name in
/// place of the name.
pub struct RawRecordModel {
    pub name_hash: u64,
    pub func_hash: u64,
    pub record: RecordModel,
}

/// A record at `at`: the hash of the name, the structural hash, the number
/// of counters, the counters, and the value-profile section.
pub open spec fn take_record(bytes: Seq<u8>, at: usize, order: ByteOrder) -> Result<
    (RawRecordModel, usize),
    DecodeError,
> {
    match take_u64(bytes, at, order) {
        Err(e) => Err(e),
        Ok((name_hash, hash_at)) => match take_u64(bytes, hash_at, order) {
            Err(e) => Err(e),
            Ok((func_hash, count_at)) => match take_u64(bytes, count_at, order) {
                Err(e) => Err(e),
                Ok((n, counters_at)) => match take_u64s(bytes, counters_at, n, order) {
                    Err(e) => Err(e),
                    Ok((counts, data_at)) => match take_value_data(bytes, data_at, order) {
                        Err(e) => Err(e),
                        Ok((data, end)) => Ok(
                            (
                                RawRecordModel {
                                    name_hash,
                                    func_hash,
                                    record: RecordModel { counts, data },
                                },
                                end,
                            ),
                        ),
                    },
                },
            },
        },
    }
}

/// A name at `at` in a name table that ends at `end`: the number of its
/// bytes, then the bytes, which are UTF-8.
pub open spec fn take_name(bytes: Seq<u8>, at: usize, end: usize, order: ByteOrder) -> Result<
    (Seq<char>, usize),
    DecodeError,
> {
    if at + 8 > end {
        Err(DecodeError::MalformedInput { offset: at })
    } else {
        let n = u64_at(bytes, at as int, order);
        if n > end - (at + 8) {
            Err(DecodeError::MalformedInput { offset: at })
        } else {
            let text = bytes.subrange(at + 8, at + 8 + n);
            if valid_utf8(text) {
                Ok((decode_utf8(text), (at + 8 + n) as usize))
            } else {
                Err(DecodeError::MalformedInput { offset: (at + 8) as usize })
            }
        }
    }
}

/// The names of a name table from `at` up to its end.
pub open spec fn take_names(bytes: Seq<u8>, at: usize, end: usize, order: ByteOrder) -> Result<
    (Seq<Seq<char>>, usize),
    DecodeError,
>
    decreases end - at,
{
    if at >= end {
        Ok((Seq::empty(), at))
    } else {
        match take_name(bytes, at, end, order) {
            Ok((name, next)) => if at < next <= end {
                prepend(seq![name], take_names(bytes, next, end, order))
            } else {
                Err(DecodeError::MalformedInput { offset: at })
            },
            Err(e) => Err(e),
        }
    }
}

/// Reads the four bytes of `b` that start at `at` as an integer.
pub fn u32_from_bytes(b: &[u8], at: usize, order: ByteOrder) -> (v: u32)
    requires
        at + 4 <= b@.len(),
    ensures
        v == u32_at(b@, at as int, order),
{
    let b0: u32 = b[at] as u32;
    let b1: u32 = b[at + 1] as u32;
    let b2: u32 = b[at + 2] as u32;
    let b3: u32 = b[at + 3] as u32;
    match order {
        ByteOrder::LittleEndian => b0 + b1 * 0x100 + b2 * 0x1_0000 + b3 * 0x100_0000,
        ByteOrder::BigEndian => b3 + b2 * 0x100 + b1 * 0x1_0000 + b0 * 0x100_0000,
    }
}

/// Reads an integer of eight bytes.
pub fn read_u64(bytes: &[u8], at: usize, order: ByteOrder) -> (r: Result<(u64, usize), DecodeError>)
    ensures
        r == take_u64(bytes@, at, order),
        r matches Ok((_, next)) ==> at < next <= bytes@.len(),
{
    let len: usize = bytes.len();
    if at > len || len - at < 8 {
        return Err(DecodeError::MalformedInput { offset: at });
    }
    Ok((u64_from_bytes(bytes, at, order), at + 8))
}

/// Reads an integer of four bytes.
pub fn read_u32(bytes: &[u8], at: usize, order: ByteOrder) -> (r: Result<(u32, usize), DecodeError>)
    ensures
        r == take_u32(bytes@, at, order),
        r matches Ok((_, next)) ==> at < next <= bytes@.len(),
{
    let len: usize = bytes.len();
    if at > len || len - at < 4 {
        return Err(DecodeError::MalformedInput { offset: at });
    }
    Ok((u32_from_bytes(bytes, at, order), at + 4))
}

/// Reads `n` integers of eight bytes.
pub fn read_u64s(bytes: &[u8], at: usize, n: u64, order: ByteOrder) -> (r: Result<
    (Vec<u64>, usize),
    DecodeError,
>)
    ensures
        match r {
            Ok((v, next)) => take_u64s(bytes@, at, n, order) == Ok::<(Seq<u64>, usize), DecodeError>(
                (v@, next),
            ) && at <= next <= bytes@.len(),
            Err(e) => take_u64s(bytes@, at, n, order) == Err::<(Seq<u64>, usize), DecodeError>(e),
        },
{
    let len: usize = bytes.len();
    if at > len || (((len - at) / 8) as u64) < n {
        return Err(DecodeError::MalformedInput { offset: at });
    }
    let count: usize = n as usize;
    let mut v: Vec<u64> = Vec::new();
    let mut i: usize = 0;
    while i < count
        invariant
            i <= count,
            count == n,
            len == bytes@.len(),
            at + 8 * count <= len,
            v@.len() == i,
            forall|k: int| 0 <= k < i ==> #[trigger] v@[k] == u64_at(bytes@, at + 8 * k, order),
        decreases count - i,
    {
        v.push(u64_from_bytes(bytes, at + 8 * i, order));
        i = i + 1;
    }
    proof {
        assert(v@ =~= Seq::new(n as nat, |i: int| u64_at(bytes@, at + 8 * i, order)));
    }
    Ok((v, at + 8 * count))
}

/// Reads `n` samples.
pub fn read_samples(bytes: &[u8], at: usize, n: u64, order: ByteOrder) -> (r: Result<
    (Vec<InstrProfValueData>, usize),
    DecodeError,
>)
    ensures
        match r {
            Ok((v, next)) => take_samples(bytes@, at, n, order) == Ok::<
                (Seq<InstrProfValueData>, usize),
                DecodeError,
            >((v@, next)) && at <= next <= bytes@.len(),
            Err(e) => take_samples(bytes@, at, n, order) == Err::<
                (Seq<InstrProfValueData>, usize),
                DecodeError,
            >(e),
        },
{
    let len: usize = bytes.len();
    if at > len || (((len - at) / 16) as u64) < n {
        return Err(DecodeError::MalformedInput { offset: at });
    }
    let count: usize = n as usize;
    let mut v: Vec<InstrProfValueData> = Vec::new();
    let mut i: usize = 0;
    while i < count
        invariant
            i <= count,
            count == n,
            len == bytes@.len(),
            at + 16 * count <= len,
            v@.len() == i,
            forall|k: int|
                0 <= k < i ==> #[trigger] v@[k] == (InstrProfValueData {
                    value: u64_at(bytes@, at + 16 * k, order),
                    count: u64_at(bytes@, at + 16 * k + 8, order),
                }),
        decreases count - i,
    {
        let value: u64 = u64_from_bytes(bytes, at + 16 * i, order);
        let count_of: u64 = u64_from_bytes(bytes, at + 16 * i + 8, order);
        v.push(InstrProfValueData { value, count: count_of });
        i = i + 1;
    }
    proof {
        assert(v@ =~= Seq::new(
            n as nat,
            |i: int|
                InstrProfValueData {
                    value: u64_at(bytes@, at + 16 * i, order),
                    count: u64_at(bytes@, at + 16 * i + 8, order),
                },
        ));
    }
    Ok((v, at + 16 * count))
}

/// Reads a value site.
pub fn read_site(bytes: &[u8], at: usize, order: ByteOrder) -> (r: Result<
    (Vec<InstrProfValueData>, usize),
    DecodeError,
>)
    ensures
        match r {
            Ok((v, next)) => take_site(bytes@, at, order) == Ok::<
                (Seq<InstrProfValueData>, usize),
                DecodeError,
            >((v@, next)) && at < next <= bytes@.len(),
            Err(e) => take_site(bytes@, at, order) == Err::<
                (Seq<InstrProfValueData>, usize),
                DecodeError,
            >(e),
        },
{
    match read_u64(bytes, at, order) {
        Ok((n, next)) => read_samples(bytes, next, n, order),
        Err(e) => Err(e),
    }
}

/// Reads the value sites of one kind.
pub fn read_site_list(bytes: &[u8], at: usize, order: ByteOrder) -> (r: Result<
    (Vec<InstrProfValueSiteRecord>, usize),
    DecodeError,
>)
    ensures
        match r {
            Ok((v, next)) => take_site_list(bytes@, at, order) == Ok::<
                (Seq<Seq<InstrProfValueData>>, usize),
                DecodeError,
            >((sites_model(v@), next)) && at < next <= bytes@.len(),
            Err(e) => take_site_list(bytes@, at, order) == Err::<
                (Seq<Seq<InstrProfValueData>>, usize),
                DecodeError,
            >(e),
        },
{
    let (n, start) = match read_u64(bytes, at, order) {
        Ok(x) => x,
        Err(e) => {
            return Err(e);
        },
    };
    let ghost whole = take_sites(bytes@, start, n as nat, order);
    let mut sites: Vec<InstrProfValueSiteRecord> = Vec::new();
    let mut pos: usize = start;
    let mut i: u64 = 0;
    proof {
        assert(sites_model(sites@) =~= Seq::<Seq<InstrProfValueData>>::empty());
        let rest = take_sites(bytes@, pos, (n - i) as nat, order);
        match rest {
            Ok((tail, end)) => {
                assert(sites_model(sites@) + tail =~= tail);
            },
            Err(e) => {},
        }
    }
    while i < n
        invariant
            i <= n,
            at < pos <= bytes@.len(),
            whole == take_sites(bytes@, start, n as nat, order),
            whole == take_site_list(bytes@, at, order),
            prepend(sites_model(sites@), take_sites(bytes@, pos, (n - i) as nat, order)) == whole,
        decreases n - i,
    {
        let ghost head = sites_model(sites@);
        match read_site(bytes, pos, order) {
            Ok((site, next)) => {
                proof {
                    lemma_prepend_one(
                        head,
                        site@,
                        take_sites(bytes@, next, (n - i - 1) as nat, order),
                    );
                }
                sites.push(site);
                proof {
                    assert(sites_model(sites@) =~= head.push(site@));
                }
                pos = next;
            },
            Err(e) => {
                return Err(e);
            },
        }
        i = i + 1;
    }
    proof {
        assert(sites_model(sites@) + Seq::<Seq<InstrProfValueData>>::empty() =~= sites_model(
            sites@,
        ));
    }
    Ok((sites, pos))
}

/// Reads the value-profile section of a record.
pub fn read_value_data(bytes: &[u8], at: usize, order: ByteOrder) -> (r: Result<
    (Option<Box<ValueProfDataRecord>>, usize),
    DecodeError,
>)
    ensures
        match r {
            Ok((data, next)) => take_value_data(bytes@, at, order) == Ok::<
                (Option<ValueProfModel>, usize),
                DecodeError,
            >(
                (
                    match data {
                        Some(d) => Some(d@),
                        None => None,
                    },
                    next,
                ),
            ) && at < next <= bytes@.len(),
            Err(e) => take_value_data(bytes@, at, order) == Err::<
                (Option<ValueProfModel>, usize),
                DecodeError,
            >(e),
        },
{
    let (total_size, kinds_at) = match read_u32(bytes, at, order) {
        Ok(x) => x,
        Err(e) => {
            return Err(e);
        },
    };
    let (num_value_kinds, calls_at) = match read_u32(bytes, kinds_at, order) {
        Ok(x) => x,
        Err(e) => {
            return Err(e);
        },
    };
    let header = ValueProfData { total_size, num_value_kinds };
    if header.num_value_kinds == 0 {
        if header.total_size as usize != calls_at - at {
            return Err(DecodeError::MalformedInput { offset: at });
        }
        return Ok((None, calls_at));
    }
    if header.num_value_kinds > 2 {
        return Err(DecodeError::MalformedInput { offset: kinds_at });
    }
    let (indirect_callsites, sizes_at) = match read_site_list(bytes, calls_at, order) {
        Ok(x) => x,
        Err(e) => {
            return Err(e);
        },
    };
    let mut mem_op_sizes: Vec<InstrProfValueSiteRecord> = Vec::new();
    let mut end: usize = sizes_at;
    proof {
        assert(sites_model(mem_op_sizes@) =~= Seq::<Seq<InstrProfValueData>>::empty());
    }
    if header.num_value_kinds == 2 {
        match read_site_list(bytes, sizes_at, order) {
            Ok((sizes, next)) => {
                mem_op_sizes = sizes;
                end = next;
            },
            Err(e) => {
                return Err(e);
            },
        }
    }
    if header.total_size as usize != end - at {
        return Err(DecodeError::MalformedInput { offset: at });
    }
    Ok((Some(Box::new(ValueProfDataRecord { indirect_callsites, mem_op_sizes })), end))
}

/// A record as it stands in a binary profile.
#[derive(Debug, Clone, PartialEq, Eq)]
pub struct RawRecord {
    pub name_hash: u64,
    pub func_hash: u64,
    pub record: InstrProfRecord,
}

impl View for RawRecord {
    type V = RawRecordModel;

    open spec fn view(&self) -> RawRecordModel {
        RawRecordModel { name_hash: self.name_hash, func_hash: self.func_hash, record: self.record@ }
    }
}

/// Reads a record.
pub fn read_record(bytes: &[u8], at: usize, order: ByteOrder) -> (r: Result<
    (RawRecord, usize),
    DecodeError,
>)
    ensures
        match r {
            Ok((raw, next)) => take_record(bytes@, at, order) == Ok::<
                (RawRecordModel, usize),
                DecodeError,
            >((raw@, next)) && at < next <= bytes@.len(),
            Err(e) => take_record(bytes@, at, order) == Err::<(RawRecordModel, usize), DecodeError>(
                e,
            ),
        },
{
    let (name_hash, hash_at) = match read_u64(bytes, at, order) {
        Ok(x) => x,
        Err(e) => {
            return Err(e);
        },
    };
    let (func_hash, count_at) = match read_u64(bytes, hash_at, order) {
        Ok(x) => x,
        Err(e) => {
            return Err(e);
        },
    };
    let (n, counters_at) = match read_u64(bytes, count_at, order) {
        Ok(x) => x,
        Err(e) => {
            return Err(e);
        },
    };
    let (counts, data_at) = match read_u64s(bytes, counters_at, n, order) {
        Ok(x) => x,
        Err(e) => {
            return Err(e);
        },
    };
    let (data, end) = match read_value_data(bytes, data_at, order) {
        Ok(x) => x,
        Err(e) => {
            return Err(e);
        },
    };
    Ok((RawRecord { name_hash, func_hash, record: InstrProfRecord { counts, data } }, end))
}

/// Calls `String::from_utf8`. The contract claims what its documentation
/// says: the result is the text that the bytes encode if they are UTF-8, and
/// there is no result if they are not.
#[verifier::external_body]
pub(crate) fn string_from_utf8(bytes: Vec<u8>) -> (text: Option<String>)
    ensures
        match text {
            Some(s) => valid_utf8(bytes@) && s@ == decode_utf8(bytes@),
            None => !valid_utf8(bytes@),
        },
{
    String::from_utf8(bytes).ok()
}

/// A copy of the bytes from `from` up to `to`.
pub fn copy_bytes(bytes: &[u8], from: usize, to: usize) -> (out: Vec<u8>)
    requires
        from <= to <= bytes@.len(),
    ensures
        out@ == bytes@.subrange(from as int, to as int),
{
    let mut out: Vec<u8> = Vec::new();
    let mut i: usize = from;
    while i < to
        invariant
            from <= i <= to <= bytes@.len(),
            out@ == bytes@.subrange(from as int, i as int),
        decreases to - i,
    {
        out.push(bytes[i]);
        proof {
            assert(bytes@.subrange(from as int, i + 1) =~= bytes@.subrange(
                from as int,
                i as int,
            ).push(bytes@[i as int]));
        }
        i = i + 1;
    }
    out
}

/// Reads a name of a name table that ends at `end`.
pub fn read_name(bytes: &[u8], at: usize, end: usize, order: ByteOrder) -> (r: Result<
    (String, usize),
    DecodeError,
>)
    requires
        end <= bytes@.len(),
    ensures
        match r {
            Ok((name, next)) => take_name(bytes@, at, end, order) == Ok::<
                (Seq<char>, usize),
                DecodeError,
            >((name@, next)) && at < next <= end,
            Err(e) => take_name(bytes@, at, end, order) == Err::<(Seq<char>, usize), DecodeError>(e),
        },
{
    if at > end || end - at < 8 {
        return Err(DecodeError::MalformedInput { offset: at });
    }
    let n: u64 = u64_from_bytes(bytes, at, order);
    let start: usize = at + 8;
    if n > (end - start) as u64 {
        return Err(DecodeError::MalformedInput { offset: at });
    }
    let stop: usize = start + n as usize;
    match string_from_utf8(copy_bytes(bytes, start, stop)) {
        Some(name) => Ok((name, stop)),
        None => Err(DecodeError::MalformedInput { offset: start }),
    }
}

} // verus!
