//! Decoding a profile from bytes in any of its three formats.

use super::binary::{
    decode_indexed, decode_indexed_spec, decode_raw, decode_raw_spec, find_magic, magic_order,
    INDEXED_MAGIC, RAW_MAGIC,
};
use super::hashing::{be_u64, le_u64, ByteOrder};
use super::lines::{lemma_first_line, lines_from};
use super::reader::DecodeError;
use super::text::{
    decode_text, decode_text_spec, line_text, take_directives, take_text_function,
    take_text_functions, TextHeader,
};
use super::types::{InstrumentationProfile, ProfileModel};
use vstd::prelude::*;

verus! {

/// The formats of a profile.
#[derive(Debug, Clone, Copy, PartialEq, Eq, Hash)]
pub enum Format {
    /// What one run of an instrumented program writes.
    Raw,
    /// What is kept of many runs, with an index of the functions.
    Indexed,
    /// Lines of text.
    Text,
}

/// The format that bytes are in, by the way they start: a binary format if
/// they start with its magic number, in either byte order, and text
/// otherwise.
pub open spec fn detected_format(bytes: Seq<u8>) -> Format {
    if magic_order(bytes, RAW_MAGIC) is Some {
        Format::Raw
    } else if magic_order(bytes, INDEXED_MAGIC) is Some {
        Format::Indexed
    } else {
        Format::Text
    }
}

/// The profile that bytes hold. They are read in the format that the caller
/// names, or in the format that their start shows if the caller names none.
/// The table of names of the profile holds its names under their hashes in
/// the given byte order, whatever the format.
pub open spec fn decode_spec(bytes: Seq<u8>, format_hint: Option<Format>, order: ByteOrder) -> Result<
    ProfileModel,
    DecodeError,
> {
    let format = match format_hint {
        Some(f) => f,
        None => detected_format(bytes),
    };
    match format {
        Format::Raw => decode_raw_spec(bytes, order),
        Format::Indexed => decode_indexed_spec(bytes, order),
        Format::Text => decode_text_spec(bytes, order),
    }
}

/// The first of eight bytes, from the value of the bytes in either byte
/// order.
proof fn lemma_first_byte(b: Seq<u8>)
    requires
        b.len() == 8,
    ensures
        b[0] == le_u64(b) % 0x100,
        b[0] == be_u64(b) / 0x100_0000_0000_0000,
        0 <= le_u64(b) <= u64::MAX,
        0 <= be_u64(b) <= u64::MAX,
{
    let high = b[1] + b[2] * 0x100 + b[3] * 0x1_0000 + b[4] * 0x100_0000 + b[5] * 0x1_0000_0000
        + b[6] * 0x100_0000_0000 + b[7] * 0x1_0000_0000_0000;
    assert(le_u64(b) == b[0] + 0x100 * high);
    let low = b[7] + b[6] * 0x100 + b[5] * 0x1_0000 + b[4] * 0x100_0000 + b[3] * 0x1_0000_0000
        + b[2] * 0x100_0000_0000 + b[1] * 0x1_0000_0000_0000;
    assert(be_u64(b) == b[0] * 0x100_0000_0000_0000 + low);
    assert(0 <= low < 0x100_0000_0000_0000);
}

/// Bytes that start with the magic number of a binary format start with the
/// byte 0x81 if it stands in little-endian order and with the byte 0xff if it
/// stands in big-endian order.
pub proof fn lemma_magic_starts(bytes: Seq<u8>, magic: u64)
    requires
        magic == RAW_MAGIC || magic == INDEXED_MAGIC,
        magic_order(bytes, magic) is Some,
    ensures
        bytes.len() >= 8,
        magic_order(bytes, magic) == Some(ByteOrder::LittleEndian) ==> bytes[0] == 0x81,
        magic_order(bytes, magic) == Some(ByteOrder::BigEndian) ==> bytes[0] == 0xff,
{
    let b = bytes.subrange(0, 8);
    lemma_first_byte(b);
    assert(b[0] == bytes[0]);
}

/// No bytes start with the magic numbers of both binary formats.
pub proof fn lemma_magics_differ(bytes: Seq<u8>)
    ensures
        !(magic_order(bytes, RAW_MAGIC) is Some && magic_order(bytes, INDEXED_MAGIC) is Some),
{
    if magic_order(bytes, RAW_MAGIC) is Some && magic_order(bytes, INDEXED_MAGIC) is Some {
        lemma_magic_starts(bytes, RAW_MAGIC);
        lemma_magic_starts(bytes, INDEXED_MAGIC);
        lemma_first_byte(bytes.subrange(0, 8));
    }
}

/// Bytes that start with the magic number of a binary format are no text
/// profile: their first line would be the name of a function, and it is not
/// UTF-8.
pub proof fn lemma_binary_is_not_text(bytes: Seq<u8>, order: ByteOrder)
    requires
        0 < bytes.len() <= usize::MAX,
        bytes[0] == 0x81 || bytes[0] == 0xff,
    ensures
        decode_text_spec(bytes, order) is Err,
{
    lemma_first_line(bytes);
    let lines = lines_from(bytes, 0);
    let name = line_text(bytes, lines[0]);
    let start = TextHeader { version: None, is_ir: false, has_csir: false };
    assert(name[0] == bytes[0]);
    assert(take_directives(bytes, lines, 0, start) == Ok::<(TextHeader, nat), DecodeError>(
        (start, 0),
    ));
    assert(!vstd::utf8::valid_utf8(name));
    assert(take_text_function(bytes, lines, 0) is Err);
    assert(take_text_functions(bytes, lines, 0) is Err);
}

/// A profile is read in the same way with and without the name of its
/// format: bytes that can be read in a format are found to be in that format
/// by the way they start.
pub proof fn lemma_format_is_detected(bytes: Seq<u8>, format: Format, order: ByteOrder)
    requires
        bytes.len() <= usize::MAX,
        decode_spec(bytes, Some(format), order) is Ok,
    ensures
        detected_format(bytes) == format,
        decode_spec(bytes, None, order) == decode_spec(bytes, Some(format), order),
{
    lemma_magics_differ(bytes);
    match format {
        Format::Raw => {},
        Format::Indexed => {},
        Format::Text => {
            if magic_order(bytes, RAW_MAGIC) is Some {
                lemma_magic_starts(bytes, RAW_MAGIC);
                lemma_binary_is_not_text(bytes, order);
            }
            if magic_order(bytes, INDEXED_MAGIC) is Some {
                lemma_magic_starts(bytes, INDEXED_MAGIC);
                lemma_binary_is_not_text(bytes, order);
            }
        },
    }
}

/// A text profile and an indexed profile that hold the same profile are
/// decoded to equal profiles, with and without the names of their formats.
pub proof fn lemma_text_and_indexed_agree(
    text: Seq<u8>,
    indexed: Seq<u8>,
    profile: ProfileModel,
    order: ByteOrder,
)
    requires
        text.len() <= usize::MAX,
        indexed.len() <= usize::MAX,
        decode_text_spec(text, order) == Ok::<ProfileModel, DecodeError>(profile),
        decode_indexed_spec(indexed, order) == Ok::<ProfileModel, DecodeError>(profile),
    ensures
        decode_spec(text, None, order) == Ok::<ProfileModel, DecodeError>(profile),
        decode_spec(indexed, None, order) == Ok::<ProfileModel, DecodeError>(profile),
        decode_spec(text, None, order) == decode_spec(indexed, None, order),
{
    lemma_format_is_detected(text, Format::Text, order);
    lemma_format_is_detected(indexed, Format::Indexed, order);
}

/// The format that bytes are in, by the way they start.
pub fn detect_format(bytes: &[u8]) -> (format: Format)
    ensures
        format == detected_format(bytes@),
{
    if find_magic(bytes, RAW_MAGIC).is_some() {
        Format::Raw
    } else if find_magic(bytes, INDEXED_MAGIC).is_some() {
        Format::Indexed
    } else {
        Format::Text
    }
}

/// Decodes a profile; the names in its table of names are hashed in the
/// given byte order. Either the whole profile is returned or the first reason
/// for which the bytes cannot be read.
pub fn decode_in(bytes: &[u8], format_hint: Option<Format>, order: ByteOrder) -> (r: Result<
    InstrumentationProfile,
    DecodeError,
>)
    ensures
        match r {
            Ok(p) => decode_spec(bytes@, format_hint, order) == Ok::<ProfileModel, DecodeError>(p@),
            Err(e) => decode_spec(bytes@, format_hint, order) == Err::<ProfileModel, DecodeError>(
                e,
            ),
        },
{
    let format: Format = match format_hint {
        Some(f) => f,
        None => detect_format(bytes),
    };
    match format {
        Format::Raw => decode_raw(bytes, order),
        Format::Indexed => decode_indexed(bytes, order),
        Format::Text => decode_text(bytes, order),
    }
}

/// Decodes a profile; the names in its table of names are hashed in the
/// byte order of this machine.
pub fn decode(bytes: &[u8], format_hint: Option<Format>) -> (r: Result<
    InstrumentationProfile,
    DecodeError,
>)
    ensures
        exists|order: ByteOrder|
            match r {
                Ok(p) => #[trigger] decode_spec(bytes@, format_hint, order) == Ok::<
                    ProfileModel,
                    DecodeError,
                >(p@),
                Err(e) => decode_spec(bytes@, format_hint, order) == Err::<
                    ProfileModel,
                    DecodeError,
                >(e),
            },
{
    decode_in(bytes, format_hint, ByteOrder::native())
}

} // verus!
