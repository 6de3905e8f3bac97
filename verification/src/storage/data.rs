//! The data file: an append-only sequence of records
//! `digest (32 bytes) | length (4 bytes, little endian) | value`,
//! preceded by one mark byte for each time the file was opened.
use vstd::prelude::*;
use byteorder::{LittleEndian, WriteBytesExt};
use crate::storage::Metadata;

verus! {

/// Bytes before a value in its record: the digest and the length.
pub const RECORD_HEADER_LEN: u64 = 36;

/// The byte appended to the data file each time it is opened (`X`).
pub const OPEN_MARK: u8 = 88;

/// The SHA-256 digest of `data`, as `openssl::sha::sha256` computes it.
pub uninterp spec fn sha256_digest(data: Seq<u8>) -> Seq<u8>;

/// `n` as four little-endian bytes.
pub open spec fn le_u32(n: u32) -> Seq<u8> {
    seq![
        (n % 256) as u8,
        (n / 256 % 256) as u8,
        (n / 65536 % 256) as u8,
        (n / 16777216 % 256) as u8,
    ]
}

/// The record that stores `value` under `digest`.
pub open spec fn record_bytes(digest: Seq<u8>, value: Seq<u8>) -> Seq<u8> {
    digest + le_u32(value.len() as u32) + value
}

/// What a read of the value that `meta` describes gives on a data file with
/// contents `file`: the `meta.length` bytes after the record's header, or `None`
/// where the file ends before them.
pub open spec fn read_value(file: Seq<u8>, meta: Metadata) -> Option<Seq<u8>> {
    let start = meta.offset + RECORD_HEADER_LEN;
    let end = start + meta.length;
    if end <= file.len() {
        Some(file.subrange(start, end))
    } else {
        None
    }
}

/// A record is the digest, then the value's length as four bytes, least
/// significant first, then the value itself.
pub proof fn lemma_record_layout(digest: Seq<u8>, value: Seq<u8>)
    requires
        digest.len() == 32,
        value.len() <= u32::MAX,
    ensures
        ({
            let r = record_bytes(digest, value);
            &&& r.len() == 36 + value.len()
            &&& r.take(32) == digest
            &&& r[32] + 256 * r[33] + 65536 * r[34] + 16777216 * r[35] == value.len()
            &&& r.skip(36) == value
        }),
{
    let r = record_bytes(digest, value);
    let n = value.len() as u32;
    assert(r.take(32) =~= digest);
    assert(r.skip(36) =~= value);
    assert(r[32] == (n % 256) as u8);
    assert(r[33] == (n / 256 % 256) as u8);
    assert(r[34] == (n / 65536 % 256) as u8);
    assert(r[35] == (n / 16777216 % 256) as u8);
    assert(n % 256 + 256 * (n / 256 % 256) + 65536 * (n / 65536 % 256) + 16777216 * (n
        / 16777216 % 256) == n) by (nonlinear_arith);
}

/// Calls `openssl::sha::sha256`; its result is named by `sha256_digest`.
#[verifier::external_body]
fn sha256(data: &[u8]) -> (digest: [u8; 32])
    ensures
        digest@ == sha256_digest(data@),
{
    openssl::sha::sha256(data)
}

/// Calls `byteorder::WriteBytesExt::write_u32::<LittleEndian>` on a vector, which
/// appends the four little-endian bytes of `n` (writing to a `Vec<u8>` does not fail).
#[verifier::external_body]
fn push_u32_le(buf: &mut Vec<u8>, n: u32)
    ensures
        final(buf)@ == old(buf)@ + le_u32(n),
{
    let _ = buf.write_u32::<LittleEndian>(n);
}

/// Decides whether opening the data file went well, given the count of bytes that
/// the write of the mark byte reported.
pub fn check_open_mark(written: usize) -> (res: Result<(), super::StorageError>)
    ensures
        res is Ok <==> written == 1,
        res matches Err(e) ==> e is Corrupted,
{
    if written != 1 {
        Err(super::StorageError::Corrupted)
    } else {
        Ok(())
    }
}

/// The record that stores `value` when the data file currently ends at `offset`,
/// and the metadata that finds it again.
pub fn insert(offset: u64, value: &[u8]) -> (res: (Metadata, Vec<u8>))
    ensures
        res.0.offset == offset,
        res.0.length == value@.len() as u32,
        res.0.hash@ == sha256_digest(value@),
        res.1@ == record_bytes(res.0.hash@, value@),
{
    let hash = sha256(value);
    let meta = Metadata { offset, length: value.len() as u32, hash };
    let mut buf: Vec<u8> = Vec::new();
    let mut i: usize = 0;
    while i < 32
        invariant
            i <= 32,
            buf@ == hash@.take(i as int),
        decreases 32 - i,
    {
        buf.push(hash[i]);
        i = i + 1;
        assert(buf@ =~= hash@.take(i as int));
    }
    assert(hash@.take(32) =~= hash@);
    push_u32_le(&mut buf, meta.length);
    let ghost before = buf@;
    let mut j: usize = 0;
    while j < value.len()
        invariant
            j <= value.len(),
            buf@ == before + value@.take(j as int),
        decreases value.len() - j,
    {
        buf.push(value[j]);
        j = j + 1;
        assert(buf@ =~= before + value@.take(j as int));
    }
    assert(value@.take(value.len() as int) =~= value@);
    (meta, buf)
}

/// Where the value that `meta` describes starts in the data file, and how many
/// bytes it has.
pub fn fetch(meta: &Metadata) -> (res: (u64, usize))
    requires
        meta.offset + RECORD_HEADER_LEN <= u64::MAX,
    ensures
        res.0 == meta.offset + RECORD_HEADER_LEN,
        res.1 == meta.length,
{
    (meta.offset + RECORD_HEADER_LEN, meta.length as usize)
}

} // verus!
