//! The 64-bit hash by which a function's name is known in a profile: the
//! first eight bytes of the MD5 digest of the name, read as an integer in the
//! byte order of the machine.

use vstd::prelude::*;
use vstd::utf8::encode_utf8;

verus! {

/// The two byte orders in which a multi-byte integer can be laid out.
#[derive(Debug, Clone, Copy, PartialEq, Eq, Hash)]
pub enum ByteOrder {
    LittleEndian,
    BigEndian,
}

/// The value of eight bytes, least significant byte first.
pub open spec fn le_u64(b: Seq<u8>) -> int {
    b[0] + b[1] * 0x100 + b[2] * 0x1_0000 + b[3] * 0x100_0000 + b[4] * 0x1_0000_0000 + b[5]
        * 0x100_0000_0000 + b[6] * 0x1_0000_0000_0000 + b[7] * 0x100_0000_0000_0000
}

/// The value of eight bytes, most significant byte first.
pub open spec fn be_u64(b: Seq<u8>) -> int {
    b[7] + b[6] * 0x100 + b[5] * 0x1_0000 + b[4] * 0x100_0000 + b[3] * 0x1_0000_0000 + b[2]
        * 0x100_0000_0000 + b[1] * 0x1_0000_0000_0000 + b[0] * 0x100_0000_0000_0000
}

/// The value of eight bytes in the given byte order.
pub open spec fn u64_of_bytes(b: Seq<u8>, order: ByteOrder) -> u64 {
    match order {
        ByteOrder::LittleEndian => le_u64(b) as u64,
        ByteOrder::BigEndian => be_u64(b) as u64,
    }
}

/// The MD5 digest of a byte string, as the `md5` crate computes it.
pub uninterp spec fn md5_digest(data: Seq<u8>) -> Seq<u8>;

/// The hash of a function name on a machine of the given byte order.
pub open spec fn name_hash_spec(name: Seq<char>, order: ByteOrder) -> u64 {
    u64_of_bytes(md5_digest(encode_utf8(name)).subrange(0, 8), order)
}

/// Calls `md5::compute`. The contract claims that the sixteen bytes returned
/// are the MD5 digest of `data`, a function of the bytes of `data` alone.
#[verifier::external_body]
fn md5_compute(data: &[u8]) -> (digest: [u8; 16])
    ensures
        digest@ == md5_digest(data@),
{
    md5::compute(data).0
}

/// Calls `u64::from_ne_bytes`. The contract claims that the result is the
/// value of the bytes in one of the two byte orders; which one depends on the
/// machine.
#[verifier::external_body]
fn u64_from_native_bytes(bytes: [u8; 8]) -> (v: u64)
    ensures
        v == u64_of_bytes(bytes@, ByteOrder::LittleEndian) || v == u64_of_bytes(
            bytes@,
            ByteOrder::BigEndian,
        ),
{
    u64::from_ne_bytes(bytes)
}

impl ByteOrder {
    /// The byte order of the machine that runs this code: the probe bytes are
    /// read in native order, and `of_probe` says which order each reading
    /// gives. The result is the one order or the other, as the machine has it.
    pub fn native() -> (order: ByteOrder) {
        let probe: u64 = u64_from_native_bytes([1, 0, 0, 0, 0, 0, 0, 0]);
        ByteOrder::of_probe(probe)
    }

    /// The byte order in which the probe bytes were read, from what they
    /// were read as: little-endian if they were read as the number one,
    /// big-endian otherwise. For either reading of the probe bytes it is the
    /// order of that reading.
    pub fn of_probe(probe: u64) -> (order: ByteOrder)
        ensures
            order == ByteOrder::LittleEndian <==> probe == u64_of_bytes(
                probe_bytes(),
                ByteOrder::LittleEndian,
            ),
            order == ByteOrder::BigEndian <==> probe != u64_of_bytes(
                probe_bytes(),
                ByteOrder::LittleEndian,
            ),
            probe == u64_of_bytes(probe_bytes(), ByteOrder::LittleEndian) || probe == u64_of_bytes(
                probe_bytes(),
                ByteOrder::BigEndian,
            ) ==> u64_of_bytes(probe_bytes(), order) == probe,
    {
        proof {
            lemma_probe_readings();
        }
        if probe == 1 {
            ByteOrder::LittleEndian
        } else {
            ByteOrder::BigEndian
        }
    }
}

/// The bytes that are read back to find the byte order of a machine: the
/// number one, least significant byte first.
pub open spec fn probe_bytes() -> Seq<u8> {
    seq![1u8, 0u8, 0u8, 0u8, 0u8, 0u8, 0u8, 0u8]
}

/// The probe bytes read as one in little-endian order and as two to the
/// power of 56 in big-endian order.
pub proof fn lemma_probe_readings()
    ensures
        u64_of_bytes(probe_bytes(), ByteOrder::LittleEndian) == 1,
        u64_of_bytes(probe_bytes(), ByteOrder::BigEndian) == 0x100_0000_0000_0000,
{
    let b = probe_bytes();
    assert(b[0] == 1 && b[1] == 0 && b[2] == 0 && b[3] == 0 && b[4] == 0 && b[5] == 0 && b[6]
        == 0 && b[7] == 0);
}

/// Reads the eight bytes of `b` that start at `at` as an integer.
pub fn u64_from_bytes(b: &[u8], at: usize, order: ByteOrder) -> (v: u64)
    requires
        at + 8 <= b@.len(),
    ensures
        v == u64_of_bytes(b@.subrange(at as int, at + 8), order),
{
    let b0: u64 = b[at] as u64;
    let b1: u64 = b[at + 1] as u64;
    let b2: u64 = b[at + 2] as u64;
    let b3: u64 = b[at + 3] as u64;
    let b4: u64 = b[at + 4] as u64;
    let b5: u64 = b[at + 5] as u64;
    let b6: u64 = b[at + 6] as u64;
    let b7: u64 = b[at + 7] as u64;
    match order {
        ByteOrder::LittleEndian => {
            b0 + b1 * 0x100 + b2 * 0x1_0000 + b3 * 0x100_0000 + b4 * 0x1_0000_0000 + b5
                * 0x100_0000_0000 + b6 * 0x1_0000_0000_0000 + b7 * 0x100_0000_0000_0000
        },
        ByteOrder::BigEndian => {
            b7 + b6 * 0x100 + b5 * 0x1_0000 + b4 * 0x100_0000 + b3 * 0x1_0000_0000 + b2
                * 0x100_0000_0000 + b1 * 0x1_0000_0000_0000 + b0 * 0x100_0000_0000_0000
        },
    }
}

/// The hash of a function name on a machine of the given byte order.
pub fn name_hash(name: &str, order: ByteOrder) -> (hash: u64)
    ensures
        hash == name_hash_spec(name@, order),
{
    let digest: [u8; 16] = md5_compute(name.as_bytes());
    u64_from_bytes(digest.as_slice(), 0, order)
}

} // verus!
