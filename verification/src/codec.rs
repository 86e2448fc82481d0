//! The record codec: the exact byte layout of one key-value record and the
//! functions that write and read it.
//!
//! A record is laid out as `checksum (4 bytes LE) ++ key_len (4 bytes LE) ++
//! val_len (4 bytes LE) ++ key ++ value`, with the checksum taken over
//! `key ++ value`. Records are packed with no padding or separator, so a log
//! file is a plain concatenation of records from offset 0.

use vstd::prelude::*;

use crate::checksum::{crc32, crc32_of};

verus! {

/// One key-value entry, as decoded from the log.
#[derive(Debug)]
pub struct KeyValuePair {
    pub key: Vec<u8>,
    pub value: Vec<u8>,
}

/// How decoding a record can fail. Both conditions mean the log is corrupt at
/// the decoded position; a clean end of the log (a scan standing exactly at
/// the log's length) is not an error and is reported by the scanning callers
/// themselves, never as a `StoreError`.
#[derive(Debug, Clone, Copy, PartialEq, Eq, Structural)]
pub enum StoreError {
    /// The log ends partway through a record: either inside the 12 header
    /// bytes, or before the key and value lengths the header declares.
    TruncatedRecord,
    /// The record is complete but the checksum stored in its header differs
    /// from the checksum of its key and value bytes.
    ChecksumMismatch,
}

/// The four little-endian bytes of a 32-bit integer.
pub open spec fn le32(n: u32) -> Seq<u8> {
    seq![
        (n & 0xff) as u8,
        ((n >> 8) & 0xff) as u8,
        ((n >> 16) & 0xff) as u8,
        ((n >> 24) & 0xff) as u8,
    ]
}

/// The 32-bit integer held by four little-endian bytes.
pub open spec fn u32_le(b0: u8, b1: u8, b2: u8, b3: u8) -> u32 {
    (b0 as u32) | ((b1 as u32) << 8) | ((b2 as u32) << 16) | ((b3 as u32) << 24)
}

/// The 32-bit little-endian integer stored at `pos` in the log.
pub open spec fn u32_at(log: Seq<u8>, pos: int) -> u32
    recommends
        0 <= pos,
        pos + 4 <= log.len(),
{
    u32_le(log[pos], log[pos + 1], log[pos + 2], log[pos + 3])
}

/// The 12 header bytes of a record starting at `pos` lie within the log.
pub open spec fn header_fits(log: Seq<u8>, pos: int) -> bool {
    0 <= pos && pos + 12 <= log.len()
}

/// The checksum stored in the header of the record at `pos`.
pub open spec fn stored_checksum(log: Seq<u8>, pos: int) -> u32 {
    u32_at(log, pos)
}

/// The key length declared by the header of the record at `pos`.
pub open spec fn key_len_at(log: Seq<u8>, pos: int) -> int {
    u32_at(log, pos + 4) as int
}

/// The value length declared by the header of the record at `pos`.
pub open spec fn val_len_at(log: Seq<u8>, pos: int) -> int {
    u32_at(log, pos + 8) as int
}

/// The position just past the record at `pos`: where the next record starts.
pub open spec fn record_end(log: Seq<u8>, pos: int) -> int {
    pos + 12 + key_len_at(log, pos) + val_len_at(log, pos)
}

/// The whole record at `pos` — header plus the declared key and value
/// bytes — lies within the log.
pub open spec fn record_fits(log: Seq<u8>, pos: int) -> bool {
    header_fits(log, pos) && record_end(log, pos) <= log.len()
}

/// The key bytes of the record at `pos`.
pub open spec fn record_key(log: Seq<u8>, pos: int) -> Seq<u8>
    recommends
        record_fits(log, pos),
{
    log.subrange(pos + 12, pos + 12 + key_len_at(log, pos))
}

/// The value bytes of the record at `pos`.
pub open spec fn record_value(log: Seq<u8>, pos: int) -> Seq<u8>
    recommends
        record_fits(log, pos),
{
    log.subrange(pos + 12 + key_len_at(log, pos), record_end(log, pos))
}

/// The key and value bytes of the record at `pos`, as one sequence: what its
/// checksum is taken over.
pub open spec fn record_data(log: Seq<u8>, pos: int) -> Seq<u8>
    recommends
        record_fits(log, pos),
{
    log.subrange(pos + 12, record_end(log, pos))
}

/// The stored checksum of the record at `pos` matches its data.
pub open spec fn checksum_ok(log: Seq<u8>, pos: int) -> bool
    recommends
        record_fits(log, pos),
{
    stored_checksum(log, pos) == crc32_of(record_data(log, pos))
}

/// A complete, checksum-verified record starts at `pos`.
pub open spec fn valid_record_at(log: Seq<u8>, pos: int) -> bool {
    record_fits(log, pos) && checksum_ok(log, pos)
}

/// The error decoding reports at `pos`, for a position where no valid record
/// starts: a record that does not fit is a truncation; one that fits but
/// whose checksum differs is a mismatch.
pub open spec fn decode_error_at(log: Seq<u8>, pos: int) -> StoreError {
    if !record_fits(log, pos) {
        StoreError::TruncatedRecord
    } else {
        StoreError::ChecksumMismatch
    }
}

/// The exact bytes of a record holding `key` and `value`.
pub open spec fn encoded(key: Seq<u8>, value: Seq<u8>) -> Seq<u8> {
    le32(crc32_of(key + value)) + le32(key.len() as u32) + le32(value.len() as u32) + key + value
}

/// Appends the four little-endian bytes of `n` to `out`.
fn push_le32(out: &mut Vec<u8>, n: u32)
    ensures
        final(out)@ == old(out)@ + le32(n),
{
    out.push((n & 0xff) as u8);
    out.push(((n >> 8) & 0xff) as u8);
    out.push(((n >> 16) & 0xff) as u8);
    out.push(((n >> 24) & 0xff) as u8);
    proof {
        assert(out@ =~= old(out)@ + le32(n));
    }
}

/// Reads the 32-bit little-endian integer at `pos`.
fn read_le32(log: &Vec<u8>, pos: usize) -> (r: u32)
    requires
        pos + 4 <= log@.len(),
    ensures
        r == u32_at(log@, pos as int),
{
    let n = log.len();
    let b0 = log[pos];
    let b1 = log[pos + 1];
    let b2 = log[pos + 2];
    let b3 = log[pos + 3];
    (b0 as u32) | ((b1 as u32) << 8) | ((b2 as u32) << 16) | ((b3 as u32) << 24)
}

/// Encodes one record: checksum over `key ++ value`, the two lengths, then
/// the raw bytes.
pub fn encode_record(key: &[u8], value: &[u8]) -> (r: Vec<u8>)
    requires
        key@.len() + value@.len() <= u32::MAX,
    ensures
        r@ == encoded(key@, value@),
{
    let key_len = key.len();
    let val_len = value.len();

    let mut data: Vec<u8> = Vec::new();
    data.extend_from_slice(key);
    data.extend_from_slice(value);
    let checksum = crc32(data.as_slice());

    let mut out: Vec<u8> = Vec::new();
    push_le32(&mut out, checksum);
    push_le32(&mut out, key_len as u32);
    push_le32(&mut out, val_len as u32);
    out.extend_from_slice(data.as_slice());
    proof {
        assert(data@ == key@ + value@);
        assert(key@.len() as u32 == key_len as u32);
        assert(out@ =~= encoded(key@, value@));
    }
    out
}

/// Decodes the record starting at `position`, returning the pair together
/// with the position just past it. Fails with the exact corruption kind when
/// no valid record starts there; a caller scanning the log must treat
/// `position == log.len()` as the clean end of the log before calling.
pub fn process_record(log: &Vec<u8>, position: usize) -> (r: Result<(KeyValuePair, usize), StoreError>)
    requires
        position <= log@.len(),
    ensures
        match r {
            Ok(p) => {
                &&& valid_record_at(log@, position as int)
                &&& p.0.key@ == record_key(log@, position as int)
                &&& p.0.value@ == record_value(log@, position as int)
                &&& p.1 as int == record_end(log@, position as int)
            },
            Err(e) => {
                &&& !valid_record_at(log@, position as int)
                &&& e == decode_error_at(log@, position as int)
            },
        },
{
    let n = log.len();
    if n - position < 12 {
        return Err(StoreError::TruncatedRecord);
    }
    let saved_checksum = read_le32(log, position);
    let key_len = read_le32(log, position + 4);
    let val_len = read_le32(log, position + 8);

    let body_start = position + 12;
    let rest = n - body_start;
    if key_len as usize > rest {
        return Err(StoreError::TruncatedRecord);
    }
    let after_key = rest - key_len as usize;
    if val_len as usize > after_key {
        return Err(StoreError::TruncatedRecord);
    }
    let key_end = body_start + key_len as usize;
    let data_end = key_end + val_len as usize;

    let data = vstd::slice::slice_subrange(log.as_slice(), body_start, data_end);
    let checksum = crc32(data);
    if checksum != saved_checksum {
        return Err(StoreError::ChecksumMismatch);
    }

    let key = vstd::slice::slice_to_vec(vstd::slice::slice_subrange(log.as_slice(), body_start, key_end));
    let value = vstd::slice::slice_to_vec(vstd::slice::slice_subrange(log.as_slice(), key_end, data_end));
    Ok((KeyValuePair { key, value }, data_end))
}

/// Reading back the four little-endian bytes of `n` yields `n`.
proof fn lemma_le32_roundtrip(n: u32)
    ensures
        u32_le(le32(n)[0], le32(n)[1], le32(n)[2], le32(n)[3]) == n,
{
    assert(((n & 0xff) as u8 as u32) | ((((n >> 8) & 0xff) as u8 as u32) << 8) | ((((n >> 16)
        & 0xff) as u8 as u32) << 16) | ((((n >> 24) & 0xff) as u8 as u32) << 24) == n)
        by (bit_vector);
}

/// A 32-bit read inside the appended part of a concatenation reads the
/// appended bytes alone.
proof fn lemma_u32_at_shift(prefix: Seq<u8>, tail: Seq<u8>, i: int)
    requires
        0 <= i,
        i + 4 <= tail.len(),
    ensures
        u32_at(prefix + tail, prefix.len() + i) == u32_at(tail, i),
{
}

/// The parts that the header of `encoded(key, value)` declares are exactly
/// the checksum, the two lengths, and the raw bytes that went in.
pub proof fn lemma_encoded_parts(key: Seq<u8>, value: Seq<u8>)
    requires
        key.len() + value.len() <= u32::MAX,
    ensures
        ({
            let e = encoded(key, value);
            &&& e.len() == 12 + key.len() + value.len()
            &&& u32_at(e, 0) == crc32_of(key + value)
            &&& u32_at(e, 4) as int == key.len()
            &&& u32_at(e, 8) as int == value.len()
            &&& e.subrange(12, 12 + key.len() as int) == key
            &&& e.subrange(12 + key.len() as int, e.len() as int) == value
            &&& e.subrange(12, e.len() as int) == key + value
        }),
{
    let e = encoded(key, value);
    let c = crc32_of(key + value);
    let kl = key.len() as u32;
    let vl = value.len() as u32;
    lemma_le32_roundtrip(c);
    lemma_le32_roundtrip(kl);
    lemma_le32_roundtrip(vl);
    assert(u32_at(e, 0) == u32_le(le32(c)[0], le32(c)[1], le32(c)[2], le32(c)[3]));
    assert(u32_at(e, 4) == u32_le(le32(kl)[0], le32(kl)[1], le32(kl)[2], le32(kl)[3]));
    assert(u32_at(e, 8) == u32_le(le32(vl)[0], le32(vl)[1], le32(vl)[2], le32(vl)[3]));
    assert(e.subrange(12, 12 + key.len() as int) =~= key);
    assert(e.subrange(12 + key.len() as int, e.len() as int) =~= value);
    assert(e.subrange(12, e.len() as int) =~= key + value);
}

/// Offset stability: a record encoded from `key` and `value` and appended at
/// the end of any log decodes, at the offset it was appended at, back to
/// exactly that `key` and `value`, ending at the new end of the log.
pub proof fn lemma_record_at_append(prefix: Seq<u8>, key: Seq<u8>, value: Seq<u8>)
    requires
        key.len() + value.len() <= u32::MAX,
    ensures
        ({
            let log = prefix + encoded(key, value);
            let pos = prefix.len() as int;
            &&& valid_record_at(log, pos)
            &&& record_key(log, pos) == key
            &&& record_value(log, pos) == value
            &&& record_end(log, pos) == log.len()
        }),
{
    let e = encoded(key, value);
    let log = prefix + e;
    let pos = prefix.len() as int;
    lemma_encoded_parts(key, value);
    lemma_u32_at_shift(prefix, e, 0);
    lemma_u32_at_shift(prefix, e, 4);
    lemma_u32_at_shift(prefix, e, 8);
    assert(key_len_at(log, pos) == key.len());
    assert(val_len_at(log, pos) == value.len());
    assert(record_end(log, pos) == log.len());
    assert(record_key(log, pos) =~= e.subrange(12, 12 + key.len() as int));
    assert(record_value(log, pos) =~= e.subrange(12 + key.len() as int, e.len() as int));
    assert(record_data(log, pos) =~= e.subrange(12, e.len() as int));
}

/// Round trip: decoding the encoding of `(key, value)`, at offset 0, yields
/// `(key, value)` again and consumes the whole encoding.
pub proof fn lemma_round_trip(key: Seq<u8>, value: Seq<u8>)
    requires
        key.len() + value.len() <= u32::MAX,
    ensures
        valid_record_at(encoded(key, value), 0),
        record_key(encoded(key, value), 0) == key,
        record_value(encoded(key, value), 0) == value,
        record_end(encoded(key, value), 0) == encoded(key, value).len(),
{
    lemma_record_at_append(Seq::empty(), key, value);
    assert(Seq::empty() + encoded(key, value) =~= encoded(key, value));
}

/// A record that lies within the log is read the same after more bytes are
/// appended: every field of it depends on its own byte range alone.
pub proof fn lemma_record_unaffected_by_append(log: Seq<u8>, more: Seq<u8>, pos: int)
    requires
        record_fits(log, pos),
    ensures
        record_fits(log + more, pos),
        key_len_at(log + more, pos) == key_len_at(log, pos),
        val_len_at(log + more, pos) == val_len_at(log, pos),
        record_end(log + more, pos) == record_end(log, pos),
        record_key(log + more, pos) == record_key(log, pos),
        record_value(log + more, pos) == record_value(log, pos),
        valid_record_at(log + more, pos) == valid_record_at(log, pos),
{
    let log2 = log + more;
    assert(u32_at(log2, pos) == u32_at(log, pos));
    assert(u32_at(log2, pos + 4) == u32_at(log, pos + 4));
    assert(u32_at(log2, pos + 8) == u32_at(log, pos + 8));
    assert(record_key(log2, pos) =~= record_key(log, pos));
    assert(record_value(log2, pos) =~= record_value(log, pos));
    assert(record_data(log2, pos) =~= record_data(log, pos));
}

} // verus!
