//! The text format of a profile. Lines that are empty or start with `#` say
//! nothing. Lines that start with `:` come first and give the level and the
//! version. Then each function follows: its name, its structural hash, the
//! number of its counters, and the counters, each on a line of its own;
//! after them, if a number follows, the value data of the function.

use super::binary::names_table;
use super::hashing::ByteOrder;
use super::lines::{
    parse_decimal, parse_number, read_decimal, read_number, significant_lines, lines_from,
    lines_within, Line,
};
use super::reader::{copy_bytes, lemma_prepend_one, prepend, string_from_utf8, DecodeError};
use super::types::{
    records_model, sites_model, InstrProfRecord, InstrProfValueData, InstrProfValueSiteRecord,
    InstrumentationProfile, NamedInstrProfRecord, NamedRecordModel, ProfileModel, RecordModel,
    Symtab, ValueProfDataRecord, ValueProfModel,
};
use super::value_sites::{first_index_of, lemma_first_index_is, lemma_first_index_of};
use vstd::prelude::*;
use vstd::utf8::{decode_utf8, valid_utf8};

verus! {

/// The bytes of a line.
pub open spec fn line_text(bytes: Seq<u8>, line: Line) -> Seq<u8> {
    bytes.subrange(line.start as int, line.end as int)
}

/// The position at which the line `i` starts, or the end of the text if
/// there is no such line.
pub open spec fn position_of(bytes: Seq<u8>, lines: Seq<Line>, i: nat) -> usize {
    if i < lines.len() {
        lines[i as int].start
    } else {
        bytes.len() as usize
    }
}

/// The number on line `i`, in decimal or hexadecimal notation.
pub open spec fn take_number_line(bytes: Seq<u8>, lines: Seq<Line>, i: nat) -> Result<
    (u64, nat),
    DecodeError,
> {
    if i >= lines.len() {
        Err(DecodeError::MalformedInput { offset: bytes.len() as usize })
    } else {
        match parse_number(line_text(bytes, lines[i as int])) {
            Some(v) => Ok((v, i + 1)),
            None => Err(DecodeError::MalformedInput { offset: lines[i as int].start }),
        }
    }
}

/// The number on line `i`, in decimal notation.
pub open spec fn take_decimal_line(bytes: Seq<u8>, lines: Seq<Line>, i: nat) -> Result<
    (u64, nat),
    DecodeError,
> {
    if i >= lines.len() {
        Err(DecodeError::MalformedInput { offset: bytes.len() as usize })
    } else {
        match parse_decimal(line_text(bytes, lines[i as int])) {
            Some(v) => Ok((v, i + 1)),
            None => Err(DecodeError::MalformedInput { offset: lines[i as int].start }),
        }
    }
}

/// The numbers on `n` lines from line `i` on, in decimal notation.
pub open spec fn take_decimal_lines(bytes: Seq<u8>, lines: Seq<Line>, i: nat, n: nat) -> Result<
    (Seq<u64>, nat),
    DecodeError,
>
    decreases n,
{
    if n == 0 {
        Ok((Seq::empty(), i))
    } else {
        match take_decimal_line(bytes, lines, i) {
            Ok((v, next)) => prepend(
                seq![v],
                take_decimal_lines(bytes, lines, next, (n - 1) as nat),
            ),
            Err(e) => Err(e),
        }
    }
}

/// The sample that a text stands for: a value, a colon, and a count in
/// decimal notation.
pub open spec fn parse_sample(s: Seq<u8>) -> Option<InstrProfValueData> {
    let colon = first_index_of(s, 58u8);
    if colon < 0 {
        None
    } else {
        match (parse_number(s.take(colon)), parse_decimal(s.skip(colon + 1))) {
            (Some(value), Some(count)) => Some(InstrProfValueData { value, count }),
            _ => None,
        }
    }
}

/// The sample on line `i`.
pub open spec fn take_sample_line(bytes: Seq<u8>, lines: Seq<Line>, i: nat) -> Result<
    (InstrProfValueData, nat),
    DecodeError,
> {
    if i >= lines.len() {
        Err(DecodeError::MalformedInput { offset: bytes.len() as usize })
    } else {
        match parse_sample(line_text(bytes, lines[i as int])) {
            Some(v) => Ok((v, i + 1)),
            None => Err(DecodeError::MalformedInput { offset: lines[i as int].start }),
        }
    }
}

/// The samples on `n` lines from line `i` on.
pub open spec fn take_sample_lines(bytes: Seq<u8>, lines: Seq<Line>, i: nat, n: nat) -> Result<
    (Seq<InstrProfValueData>, nat),
    DecodeError,
>
    decreases n,
{
    if n == 0 {
        Ok((Seq::empty(), i))
    } else {
        match take_sample_line(bytes, lines, i) {
            Ok((v, next)) => prepend(seq![v], take_sample_lines(bytes, lines, next, (n - 1) as nat)),
            Err(e) => Err(e),
        }
    }
}

/// A value site from line `i` on: the number of its samples, then the
/// samples.
pub open spec fn take_text_site(bytes: Seq<u8>, lines: Seq<Line>, i: nat) -> Result<
    (Seq<InstrProfValueData>, nat),
    DecodeError,
> {
    match take_decimal_line(bytes, lines, i) {
        Ok((n, next)) => take_sample_lines(bytes, lines, next, n as nat),
        Err(e) => Err(e),
    }
}

/// `n` value sites from line `i` on.
pub open spec fn take_text_sites(bytes: Seq<u8>, lines: Seq<Line>, i: nat, n: nat) -> Result<
    (Seq<Seq<InstrProfValueData>>, nat),
    DecodeError,
>
    decreases n,
{
    if n == 0 {
        Ok((Seq::empty(), i))
    } else {
        match take_text_site(bytes, lines, i) {
            Ok((site, next)) => prepend(
                seq![site],
                take_text_sites(bytes, lines, next, (n - 1) as nat),
            ),
            Err(e) => Err(e),
        }
    }
}

/// The value sites of one kind from line `i` on: the ordinal of the kind,
/// which is `kind`, the number of the sites, and the sites.
pub open spec fn take_text_kind(bytes: Seq<u8>, lines: Seq<Line>, i: nat, kind: u64) -> Result<
    (Seq<Seq<InstrProfValueData>>, nat),
    DecodeError,
> {
    match take_decimal_line(bytes, lines, i) {
        Err(e) => Err(e),
        Ok((k, count_at)) => if k != kind {
            Err(DecodeError::MalformedInput { offset: position_of(bytes, lines, i) })
        } else {
            match take_decimal_line(bytes, lines, count_at) {
                Ok((n, next)) => take_text_sites(bytes, lines, next, n as nat),
                Err(e) => Err(e),
            }
        },
    }
}

/// The value data of a function from line `i` on. There is none unless the
/// line holds a number in decimal notation. The number says how many kinds
/// follow, one or two: the indirect call targets, then the memory operation
/// sizes.
pub open spec fn take_text_value_data(bytes: Seq<u8>, lines: Seq<Line>, i: nat) -> Result<
    (Option<ValueProfModel>, nat),
    DecodeError,
> {
    if i >= lines.len() {
        Ok((None, i))
    } else {
        match parse_decimal(line_text(bytes, lines[i as int])) {
            None => Ok((None, i)),
            Some(kinds) => if kinds == 0 || kinds > 2 {
                Err(DecodeError::MalformedInput { offset: lines[i as int].start })
            } else {
                match take_text_kind(bytes, lines, i + 1, 0) {
                    Err(e) => Err(e),
                    Ok((calls, next)) => if kinds == 1 {
                        Ok(
                            (
                                Some(
                                    ValueProfModel {
                                        indirect_callsites: calls,
                                        mem_op_sizes: Seq::empty(),
                                    },
                                ),
                                next,
                            ),
                        )
                    } else {
                        match take_text_kind(bytes, lines, next, 1) {
                            Err(e) => Err(e),
                            Ok((sizes, end)) => Ok(
                                (
                                    Some(
                                        ValueProfModel {
                                            indirect_callsites: calls,
                                            mem_op_sizes: sizes,
                                        },
                                    ),
                                    end,
                                ),
                            ),
                        }
                    },
                }
            },
        }
    }
}

/// A function from line `i` on: its name, which is UTF-8, its structural
/// hash, the number of its counters, the counters, and its value data.
pub open spec fn take_text_function(bytes: Seq<u8>, lines: Seq<Line>, i: nat) -> Result<
    (NamedRecordModel, nat),
    DecodeError,
> {
    if i >= lines.len() {
        Err(DecodeError::MalformedInput { offset: bytes.len() as usize })
    } else {
        let name = line_text(bytes, lines[i as int]);
        if !valid_utf8(name) {
            Err(DecodeError::MalformedInput { offset: lines[i as int].start })
        } else {
            match take_number_line(bytes, lines, i + 1) {
                Err(e) => Err(e),
                Ok((hash, count_at)) => match take_decimal_line(bytes, lines, count_at) {
                    Err(e) => Err(e),
                    Ok((n, counters_at)) => match take_decimal_lines(
                        bytes,
                        lines,
                        counters_at,
                        n as nat,
                    ) {
                        Err(e) => Err(e),
                        Ok((counts, data_at)) => match take_text_value_data(bytes, lines, data_at) {
                            Err(e) => Err(e),
                            Ok((data, end)) => Ok(
                                (
                                    NamedRecordModel {
                                        name: Some(decode_utf8(name)),
                                        hash: Some(hash),
                                        record: RecordModel { counts, data },
                                    },
                                    end,
                                ),
                            ),
                        },
                    },
                },
            }
        }
    }
}

/// The functions from line `i` up to the last line.
pub open spec fn take_text_functions(bytes: Seq<u8>, lines: Seq<Line>, i: nat) -> Result<
    (Seq<NamedRecordModel>, nat),
    DecodeError,
>
    decreases lines.len() - i,
{
    if i >= lines.len() {
        Ok((Seq::empty(), i))
    } else {
        match take_text_function(bytes, lines, i) {
            Err(e) => Err(e),
            Ok((r, next)) => if i < next <= lines.len() {
                prepend(seq![r], take_text_functions(bytes, lines, next))
            } else {
                Err(DecodeError::MalformedInput { offset: lines[i as int].start })
            },
        }
    }
}

/// What the lines at the start of a text profile say.
#[derive(Debug, Clone, Copy, PartialEq, Eq)]
pub struct TextHeader {
    pub version: Option<u64>,
    pub is_ir: bool,
    pub has_csir: bool,
}

/// Whether a line starts with a colon.
pub open spec fn is_directive(s: Seq<u8>) -> bool {
    s.len() > 0 && s[0] == 58
}

/// Whether a line is `:ir`.
pub open spec fn is_ir_directive(s: Seq<u8>) -> bool {
    s.len() == 3 && s[0] == 58 && s[1] == 105 && s[2] == 114
}

/// Whether a line is `:fe`.
pub open spec fn is_fe_directive(s: Seq<u8>) -> bool {
    s.len() == 3 && s[0] == 58 && s[1] == 102 && s[2] == 101
}

/// Whether a line is `:csir`.
pub open spec fn is_csir_directive(s: Seq<u8>) -> bool {
    s.len() == 5 && s[0] == 58 && s[1] == 99 && s[2] == 115 && s[3] == 105 && s[4] == 114
}

/// Whether a line starts with `:version` and a space.
pub open spec fn is_version_directive(s: Seq<u8>) -> bool {
    s.len() > 9 && s[0] == 58 && s[1] == 118 && s[2] == 101 && s[3] == 114 && s[4] == 115 && s[5]
        == 105 && s[6] == 111 && s[7] == 110 && s[8] == 32
}

/// The header after a line that starts with a colon: `:ir` marks an
/// IR-level profile, `:csir` one with context-sensitive records as well,
/// `:fe` a front-end profile, and `:version` gives the version in decimal
/// notation. No other such line is known.
pub open spec fn apply_directive(header: TextHeader, s: Seq<u8>) -> Option<TextHeader> {
    if is_ir_directive(s) {
        Some(TextHeader { is_ir: true, ..header })
    } else if is_fe_directive(s) {
        Some(TextHeader { is_ir: false, has_csir: false, ..header })
    } else if is_csir_directive(s) {
        Some(TextHeader { is_ir: true, has_csir: true, ..header })
    } else if is_version_directive(s) {
        match parse_decimal(s.skip(9)) {
            Some(v) => Some(TextHeader { version: Some(v), ..header }),
            None => None,
        }
    } else {
        None
    }
}

/// The header after the lines from line `i` on that start with a colon.
pub open spec fn take_directives(
    bytes: Seq<u8>,
    lines: Seq<Line>,
    i: nat,
    header: TextHeader,
) -> Result<(TextHeader, nat), DecodeError>
    decreases lines.len() - i,
{
    if i >= lines.len() || !is_directive(line_text(bytes, lines[i as int])) {
        Ok((header, i))
    } else {
        match apply_directive(header, line_text(bytes, lines[i as int])) {
            Some(h) => take_directives(bytes, lines, i + 1, h),
            None => Err(DecodeError::MalformedInput { offset: lines[i as int].start }),
        }
    }
}

/// The names of a sequence of records.
pub open spec fn record_names(records: Seq<NamedRecordModel>) -> Seq<Seq<char>> {
    Seq::new(records.len(), |i: int| records[i].name.unwrap())
}

/// The profile that the bytes of a text profile hold. The names of its
/// functions make up its table of names, hashed in the given byte order.
pub open spec fn decode_text_spec(bytes: Seq<u8>, order: ByteOrder) -> Result<
    ProfileModel,
    DecodeError,
> {
    let lines = lines_from(bytes, 0);
    let start = TextHeader { version: None, is_ir: false, has_csir: false };
    match take_directives(bytes, lines, 0, start) {
        Err(e) => Err(e),
        Ok((header, at)) => match take_text_functions(bytes, lines, at) {
            Err(e) => Err(e),
            Ok((records, _)) => Ok(
                ProfileModel {
                    version: header.version,
                    has_csir: header.has_csir,
                    is_ir: header.is_ir,
                    records,
                    symtab: names_table(record_names(records), order),
                },
            ),
        },
    }
}

/// Reads the number on a line.
fn read_number_line(bytes: &[u8], lines: &Vec<Line>, i: usize) -> (r: Result<
    (u64, usize),
    DecodeError,
>)
    requires
        lines_within(lines@, bytes@.len()),
    ensures
        match r {
            Ok((v, next)) => take_number_line(bytes@, lines@, i as nat) == Ok::<
                (u64, nat),
                DecodeError,
            >((v, next as nat)) && i < next <= lines@.len(),
            Err(e) => take_number_line(bytes@, lines@, i as nat) == Err::<(u64, nat), DecodeError>(
                e,
            ),
        },
{
    if i >= lines.len() {
        return Err(DecodeError::MalformedInput { offset: bytes.len() });
    }
    let line: Line = lines[i];
    match read_number(bytes, line.start, line.end) {
        Some(v) => Ok((v, i + 1)),
        None => Err(DecodeError::MalformedInput { offset: line.start }),
    }
}

/// Reads the number in decimal notation on a line.
fn read_decimal_line(bytes: &[u8], lines: &Vec<Line>, i: usize) -> (r: Result<
    (u64, usize),
    DecodeError,
>)
    requires
        lines_within(lines@, bytes@.len()),
    ensures
        match r {
            Ok((v, next)) => take_decimal_line(bytes@, lines@, i as nat) == Ok::<
                (u64, nat),
                DecodeError,
            >((v, next as nat)) && i < next <= lines@.len(),
            Err(e) => take_decimal_line(bytes@, lines@, i as nat) == Err::<(u64, nat), DecodeError>(
                e,
            ),
        },
{
    if i >= lines.len() {
        return Err(DecodeError::MalformedInput { offset: bytes.len() });
    }
    let line: Line = lines[i];
    match read_decimal(bytes, line.start, line.end) {
        Some(v) => Ok((v, i + 1)),
        None => Err(DecodeError::MalformedInput { offset: line.start }),
    }
}

/// Reads the numbers in decimal notation on `n` lines.
fn read_decimal_lines(bytes: &[u8], lines: &Vec<Line>, at: usize, n: u64) -> (r: Result<
    (Vec<u64>, usize),
    DecodeError,
>)
    requires
        lines_within(lines@, bytes@.len()),
        at <= lines@.len(),
    ensures
        match r {
            Ok((v, next)) => take_decimal_lines(bytes@, lines@, at as nat, n as nat) == Ok::<
                (Seq<u64>, nat),
                DecodeError,
            >((v@, next as nat)) && at <= next <= lines@.len(),
            Err(e) => take_decimal_lines(bytes@, lines@, at as nat, n as nat) == Err::<
                (Seq<u64>, nat),
                DecodeError,
            >(e),
        },
{
    let ghost whole = take_decimal_lines(bytes@, lines@, at as nat, n as nat);
    let mut v: Vec<u64> = Vec::new();
    let mut pos: usize = at;
    let mut i: u64 = 0;
    proof {
        lemma_prepend_one(Seq::<u64>::empty(), 0u64, whole);
    }
    while i < n
        invariant
            i <= n,
            at <= pos <= lines@.len(),
            lines_within(lines@, bytes@.len()),
            whole == take_decimal_lines(bytes@, lines@, at as nat, n as nat),
            prepend(v@, take_decimal_lines(bytes@, lines@, pos as nat, (n - i) as nat)) == whole,
        decreases n - i,
    {
        match read_decimal_line(bytes, lines, pos) {
            Ok((x, next)) => {
                proof {
                    lemma_prepend_one(
                        v@,
                        x,
                        take_decimal_lines(bytes@, lines@, next as nat, (n - i - 1) as nat),
                    );
                }
                v.push(x);
                pos = next;
            },
            Err(e) => {
                return Err(e);
            },
        }
        i = i + 1;
    }
    proof {
        assert(v@ + Seq::<u64>::empty() =~= v@);
    }
    Ok((v, pos))
}

/// Reads the sample that stands from `from` up to `to`.
fn read_sample(bytes: &[u8], from: usize, to: usize) -> (r: Option<InstrProfValueData>)
    requires
        from <= to <= bytes@.len(),
    ensures
        r == parse_sample(bytes@.subrange(from as int, to as int)),
{
    let ghost s = bytes@.subrange(from as int, to as int);
    let mut colon: usize = from;
    while colon < to && bytes[colon] != 58
        invariant
            from <= colon <= to <= bytes@.len(),
            s == bytes@.subrange(from as int, to as int),
            forall|j: int| 0 <= j < colon - from ==> #[trigger] s[j] != 58,
        decreases to - colon,
    {
        colon = colon + 1;
    }
    if colon == to {
        proof {
            lemma_first_index_of(s, 58u8);
            if first_index_of(s, 58u8) >= 0 {
                assert(s[first_index_of(s, 58u8)] == 58);
            }
        }
        return None;
    }
    proof {
        assert(s[colon - from] == 58);
        lemma_first_index_is(s, 58u8, colon - from);
        assert(s.take(colon - from) =~= bytes@.subrange(from as int, colon as int));
        assert(s.skip(colon - from + 1) =~= bytes@.subrange(colon + 1, to as int));
    }
    let value: u64 = match read_number(bytes, from, colon) {
        Some(v) => v,
        None => {
            return None;
        },
    };
    let count: u64 = match read_decimal(bytes, colon + 1, to) {
        Some(v) => v,
        None => {
            return None;
        },
    };
    Some(InstrProfValueData { value, count })
}

/// Reads the sample on a line.
fn read_sample_line(bytes: &[u8], lines: &Vec<Line>, i: usize) -> (r: Result<
    (InstrProfValueData, usize),
    DecodeError,
>)
    requires
        lines_within(lines@, bytes@.len()),
    ensures
        match r {
            Ok((v, next)) => take_sample_line(bytes@, lines@, i as nat) == Ok::<
                (InstrProfValueData, nat),
                DecodeError,
            >((v, next as nat)) && i < next <= lines@.len(),
            Err(e) => take_sample_line(bytes@, lines@, i as nat) == Err::<
                (InstrProfValueData, nat),
                DecodeError,
            >(e),
        },
{
    if i >= lines.len() {
        return Err(DecodeError::MalformedInput { offset: bytes.len() });
    }
    let line: Line = lines[i];
    match read_sample(bytes, line.start, line.end) {
        Some(v) => Ok((v, i + 1)),
        None => Err(DecodeError::MalformedInput { offset: line.start }),
    }
}

/// Reads a value site.
fn read_text_site(bytes: &[u8], lines: &Vec<Line>, at: usize) -> (r: Result<
    (Vec<InstrProfValueData>, usize),
    DecodeError,
>)
    requires
        lines_within(lines@, bytes@.len()),
    ensures
        match r {
            Ok((v, next)) => take_text_site(bytes@, lines@, at as nat) == Ok::<
                (Seq<InstrProfValueData>, nat),
                DecodeError,
            >((v@, next as nat)) && at < next <= lines@.len(),
            Err(e) => take_text_site(bytes@, lines@, at as nat) == Err::<
                (Seq<InstrProfValueData>, nat),
                DecodeError,
            >(e),
        },
{
    let (n, start) = match read_decimal_line(bytes, lines, at) {
        Ok(x) => x,
        Err(e) => {
            return Err(e);
        },
    };
    let ghost whole = take_sample_lines(bytes@, lines@, start as nat, n as nat);
    let mut v: Vec<InstrProfValueData> = Vec::new();
    let mut pos: usize = start;
    let mut i: u64 = 0;
    proof {
        lemma_prepend_one(
            Seq::<InstrProfValueData>::empty(),
            InstrProfValueData { value: 0, count: 0 },
            whole,
        );
    }
    while i < n
        invariant
            i <= n,
            at < pos <= lines@.len(),
            lines_within(lines@, bytes@.len()),
            whole == take_sample_lines(bytes@, lines@, start as nat, n as nat),
            whole == take_text_site(bytes@, lines@, at as nat),
            prepend(v@, take_sample_lines(bytes@, lines@, pos as nat, (n - i) as nat)) == whole,
        decreases n - i,
    {
        match read_sample_line(bytes, lines, pos) {
            Ok((x, next)) => {
                proof {
                    lemma_prepend_one(
                        v@,
                        x,
                        take_sample_lines(bytes@, lines@, next as nat, (n - i - 1) as nat),
                    );
                }
                v.push(x);
                pos = next;
            },
            Err(e) => {
                return Err(e);
            },
        }
        i = i + 1;
    }
    proof {
        assert(v@ + Seq::<InstrProfValueData>::empty() =~= v@);
    }
    Ok((v, pos))
}

/// Reads the value sites of one kind.
fn read_text_kind(bytes: &[u8], lines: &Vec<Line>, at: usize, kind: u64) -> (r: Result<
    (Vec<InstrProfValueSiteRecord>, usize),
    DecodeError,
>)
    requires
        lines_within(lines@, bytes@.len()),
    ensures
        match r {
            Ok((v, next)) => take_text_kind(bytes@, lines@, at as nat, kind) == Ok::<
                (Seq<Seq<InstrProfValueData>>, nat),
                DecodeError,
            >((sites_model(v@), next as nat)) && at < next <= lines@.len(),
            Err(e) => take_text_kind(bytes@, lines@, at as nat, kind) == Err::<
                (Seq<Seq<InstrProfValueData>>, nat),
                DecodeError,
            >(e),
        },
{
    let (k, count_at) = match read_decimal_line(bytes, lines, at) {
        Ok(x) => x,
        Err(e) => {
            return Err(e);
        },
    };
    if k != kind {
        return Err(DecodeError::MalformedInput { offset: lines[at].start });
    }
    let (n, start) = match read_decimal_line(bytes, lines, count_at) {
        Ok(x) => x,
        Err(e) => {
            return Err(e);
        },
    };
    let ghost whole = take_text_sites(bytes@, lines@, start as nat, n as nat);
    let mut sites: Vec<InstrProfValueSiteRecord> = Vec::new();
    let mut pos: usize = start;
    let mut i: u64 = 0;
    proof {
        assert(sites_model(sites@) =~= Seq::<Seq<InstrProfValueData>>::empty());
        lemma_prepend_one(
            Seq::<Seq<InstrProfValueData>>::empty(),
            Seq::<InstrProfValueData>::empty(),
            whole,
        );
    }
    while i < n
        invariant
            i <= n,
            at < pos <= lines@.len(),
            lines_within(lines@, bytes@.len()),
            whole == take_text_sites(bytes@, lines@, start as nat, n as nat),
            whole == take_text_kind(bytes@, lines@, at as nat, kind),
            prepend(
                sites_model(sites@),
                take_text_sites(bytes@, lines@, pos as nat, (n - i) as nat),
            ) == whole,
        decreases n - i,
    {
        let ghost head = sites_model(sites@);
        match read_text_site(bytes, lines, pos) {
            Ok((site, next)) => {
                proof {
                    lemma_prepend_one(
                        head,
                        site@,
                        take_text_sites(bytes@, lines@, next as nat, (n - i - 1) as nat),
                    );
                }
                sites.push(site);
                proof {
                    assert(sites_model(sites@) =~= head.push(site@));
                }
                pos = next;
            },
            Err(e) => {
                return Err(e);
            },
        }
        i = i + 1;
    }
    proof {
        assert(sites_model(sites@) + Seq::<Seq<InstrProfValueData>>::empty() =~= sites_model(
            sites@,
        ));
    }
    Ok((sites, pos))
}

/// Reads the value data of a function.
fn read_text_value_data(bytes: &[u8], lines: &Vec<Line>, at: usize) -> (r: Result<
    (Option<Box<ValueProfDataRecord>>, usize),
    DecodeError,
>)
    requires
        lines_within(lines@, bytes@.len()),
        at <= lines@.len(),
    ensures
        match r {
            Ok((data, next)) => take_text_value_data(bytes@, lines@, at as nat) == Ok::<
                (Option<ValueProfModel>, nat),
                DecodeError,
            >(
                (
                    match data {
                        Some(d) => Some(d@),
                        None => None,
                    },
                    next as nat,
                ),
            ) && at <= next <= lines@.len(),
            Err(e) => take_text_value_data(bytes@, lines@, at as nat) == Err::<
                (Option<ValueProfModel>, nat),
                DecodeError,
            >(e),
        },
{
    if at >= lines.len() {
        return Ok((None, at));
    }
    let line: Line = lines[at];
    let kinds: u64 = match read_decimal(bytes, line.start, line.end) {
        Some(k) => k,
        None => {
            return Ok((None, at));
        },
    };
    if kinds == 0 || kinds > 2 {
        return Err(DecodeError::MalformedInput { offset: line.start });
    }
    let (indirect_callsites, next) = match read_text_kind(bytes, lines, at + 1, 0) {
        Ok(x) => x,
        Err(e) => {
            return Err(e);
        },
    };
    let mut mem_op_sizes: Vec<InstrProfValueSiteRecord> = Vec::new();
    let mut end: usize = next;
    proof {
        assert(sites_model(mem_op_sizes@) =~= Seq::<Seq<InstrProfValueData>>::empty());
    }
    if kinds == 2 {
        match read_text_kind(bytes, lines, next, 1) {
            Ok((sizes, stop)) => {
                mem_op_sizes = sizes;
                end = stop;
            },
            Err(e) => {
                return Err(e);
            },
        }
    }
    Ok((Some(Box::new(ValueProfDataRecord { indirect_callsites, mem_op_sizes })), end))
}

/// Reads a function.
fn read_text_function(bytes: &[u8], lines: &Vec<Line>, at: usize) -> (r: Result<
    (NamedInstrProfRecord, usize),
    DecodeError,
>)
    requires
        lines_within(lines@, bytes@.len()),
        at < lines@.len(),
    ensures
        match r {
            Ok((f, next)) => take_text_function(bytes@, lines@, at as nat) == Ok::<
                (NamedRecordModel, nat),
                DecodeError,
            >((f@, next as nat)) && at < next <= lines@.len() && f@.name is Some,
            Err(e) => take_text_function(bytes@, lines@, at as nat) == Err::<
                (NamedRecordModel, nat),
                DecodeError,
            >(e),
        },
{
    let total: usize = lines.len();
    let line: Line = lines[at];
    let name: String = match string_from_utf8(copy_bytes(bytes, line.start, line.end)) {
        Some(n) => n,
        None => {
            return Err(DecodeError::MalformedInput { offset: line.start });
        },
    };
    let (hash, count_at) = match read_number_line(bytes, lines, at + 1) {
        Ok(x) => x,
        Err(e) => {
            return Err(e);
        },
    };
    let (n, counters_at) = match read_decimal_line(bytes, lines, count_at) {
        Ok(x) => x,
        Err(e) => {
            return Err(e);
        },
    };
    let (counts, data_at) = match read_decimal_lines(bytes, lines, counters_at, n) {
        Ok(x) => x,
        Err(e) => {
            return Err(e);
        },
    };
    let (data, end) = match read_text_value_data(bytes, lines, data_at) {
        Ok(x) => x,
        Err(e) => {
            return Err(e);
        },
    };
    Ok(
        (
            NamedInstrProfRecord {
                name: Some(name),
                hash: Some(hash),
                record: InstrProfRecord { counts, data },
            },
            end,
        ),
    )
}

/// Reads what a line that starts with a colon says.
fn read_directive(bytes: &[u8], line: Line, header: TextHeader) -> (r: Option<TextHeader>)
    requires
        line.start < line.end <= bytes@.len(),
    ensures
        r == apply_directive(header, line_text(bytes@, line)),
{
    let s: usize = line.start;
    let n: usize = line.end - line.start;
    let ghost text = line_text(bytes@, line);
    proof {
        assert(forall|k: int| 0 <= k < n ==> text[k] == bytes@[s + k]);
    }
    if n == 3 && bytes[s] == 58 && bytes[s + 1] == 105 && bytes[s + 2] == 114 {
        Some(TextHeader { version: header.version, is_ir: true, has_csir: header.has_csir })
    } else if n == 3 && bytes[s] == 58 && bytes[s + 1] == 102 && bytes[s + 2] == 101 {
        Some(TextHeader { version: header.version, is_ir: false, has_csir: false })
    } else if n == 5 && bytes[s] == 58 && bytes[s + 1] == 99 && bytes[s + 2] == 115 && bytes[s + 3]
        == 105 && bytes[s + 4] == 114 {
        Some(TextHeader { version: header.version, is_ir: true, has_csir: true })
    } else if n > 9 && bytes[s] == 58 && bytes[s + 1] == 118 && bytes[s + 2] == 101 && bytes[s + 3]
        == 114 && bytes[s + 4] == 115 && bytes[s + 5] == 105 && bytes[s + 6] == 111 && bytes[s
        + 7] == 110 && bytes[s + 8] == 32 {
        proof {
            assert(text.skip(9) =~= bytes@.subrange(s + 9, line.end as int));
        }
        match read_decimal(bytes, s + 9, line.end) {
            Some(v) => Some(
                TextHeader { version: Some(v), is_ir: header.is_ir, has_csir: header.has_csir },
            ),
            None => None,
        }
    } else {
        None
    }
}

/// Decodes a text profile, with names hashed in the given byte order.
pub fn decode_text(bytes: &[u8], order: ByteOrder) -> (r: Result<
    InstrumentationProfile,
    DecodeError,
>)
    ensures
        match r {
            Ok(p) => decode_text_spec(bytes@, order) == Ok::<ProfileModel, DecodeError>(p@),
            Err(e) => decode_text_spec(bytes@, order) == Err::<ProfileModel, DecodeError>(e),
        },
{
    let lines: Vec<Line> = significant_lines(bytes);
    let start = TextHeader { version: None, is_ir: false, has_csir: false };
    let mut header: TextHeader = start;
    let mut at: usize = 0;
    while at < lines.len() && bytes[lines[at].start] == 58
        invariant
            at <= lines@.len(),
            lines@ == lines_from(bytes@, 0),
            lines_within(lines@, bytes@.len()),
            start == (TextHeader { version: None, is_ir: false, has_csir: false }),
            take_directives(bytes@, lines@, at as nat, header) == take_directives(
                bytes@,
                lines@,
                0,
                start,
            ),
        decreases lines@.len() - at,
    {
        let line: Line = lines[at];
        proof {
            assert(line_text(bytes@, line)[0] == bytes@[line.start as int]);
        }
        match read_directive(bytes, line, header) {
            Some(h) => {
                header = h;
            },
            None => {
                proof {
                    assert(is_directive(line_text(bytes@, line)));
                    assert(take_directives(bytes@, lines@, at as nat, header) == Err::<
                        (TextHeader, nat),
                        DecodeError,
                    >(DecodeError::MalformedInput { offset: line.start }));
                }
                return Err(DecodeError::MalformedInput { offset: line.start });
            },
        }
        at = at + 1;
    }
    proof {
        if at < lines@.len() {
            assert(line_text(bytes@, lines@[at as int])[0] == bytes@[lines@[at as int].start as int]);
            assert(!is_directive(line_text(bytes@, lines@[at as int])));
        }
        assert(take_directives(bytes@, lines@, at as nat, header) == Ok::<
            (TextHeader, nat),
            DecodeError,
        >((header, at as nat)));
    }
    let first: usize = at;
    let ghost whole = take_text_functions(bytes@, lines@, first as nat);
    let mut records: Vec<NamedInstrProfRecord> = Vec::new();
    let mut symtab: Symtab = Symtab::default();
    proof {
        assert(records_model(records@) =~= Seq::<NamedRecordModel>::empty());
        assert(record_names(records_model(records@)) =~= Seq::<Seq<char>>::empty());
        lemma_prepend_one(
            Seq::<NamedRecordModel>::empty(),
            NamedRecordModel {
                name: None,
                hash: None,
                record: RecordModel { counts: Seq::empty(), data: None },
            },
            whole,
        );
    }
    while at < lines.len()
        invariant
            first <= at <= lines@.len(),
            lines@ == lines_from(bytes@, 0),
            lines_within(lines@, bytes@.len()),
            start == (TextHeader { version: None, is_ir: false, has_csir: false }),
            take_directives(bytes@, lines@, 0, start) == Ok::<(TextHeader, nat), DecodeError>(
                (header, first as nat),
            ),
            whole == take_text_functions(bytes@, lines@, first as nat),
            prepend(records_model(records@), take_text_functions(bytes@, lines@, at as nat))
                == whole,
            symtab@ == names_table(record_names(records_model(records@)), order),
        decreases lines@.len() - at,
    {
        let ghost head = records_model(records@);
        match read_text_function(bytes, &lines, at) {
            Ok((f, next)) => {
                proof {
                    lemma_prepend_one(head, f@, take_text_functions(bytes@, lines@, next as nat));
                }
                match &f.name {
                    Some(name) => {
                        symtab.add_func_name_in(name.clone(), order);
                    },
                    None => {},
                }
                records.push(f);
                proof {
                    assert(records_model(records@) =~= head.push(f@));
                    assert(record_names(records_model(records@)) =~= record_names(head).push(
                        f@.name.unwrap(),
                    ));
                    assert(record_names(records_model(records@)).drop_last() =~= record_names(
                        head,
                    ));
                }
                at = next;
            },
            Err(e) => {
                proof {
                    assert(take_text_functions(bytes@, lines@, at as nat) == Err::<
                        (Seq<NamedRecordModel>, nat),
                        DecodeError,
                    >(e));
                    assert(whole == Err::<(Seq<NamedRecordModel>, nat), DecodeError>(e));
                }
                return Err(e);
            },
        }
    }
    proof {
        assert(records_model(records@) + Seq::<NamedRecordModel>::empty() =~= records_model(
            records@,
        ));
        assert(take_text_functions(bytes@, lines@, at as nat) == Ok::<
            (Seq<NamedRecordModel>, nat),
            DecodeError,
        >((Seq::empty(), at as nat)));
    }
    Ok(
        InstrumentationProfile {
            version: header.version,
            has_csir: header.has_csir,
            is_ir: header.is_ir,
            records,
            symtab,
        },
    )
}

} // verus!
