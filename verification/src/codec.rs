//! The record codec: the bidirectional mapping between a key-value pair and
//! its binary log representation.
//!
//! A record is laid out as a 12-byte little-endian header — checksum of
//! `key || value`, key length, value length — followed by the key bytes and
//! the value bytes.

use vstd::prelude::*;
use vstd::slice::slice_index_get;
use vstd::slice::slice_subrange;
use vstd::slice::slice_to_vec;

use crate::checksum::crc32_ieee;
use crate::checksum::crc32_of;

verus! {

/// Why reading one record from the log did not yield a key-value pair.
#[derive(Clone, Copy, Debug, PartialEq, Eq, Structural)]
pub enum KvError {
    /// The read position sits at the end of the log: the clean, non-error
    /// termination signal of a replay scan.
    EndOfLog,
    /// The log ends partway through a record's header or payload.
    Truncated,
    /// The stored checksum does not match the checksum of the payload.
    Corrupt,
}

/// The parsed form of one log record.
#[derive(Debug)]
pub struct KeyValuePair {
    pub key: Vec<u8>,
    pub value: Vec<u8>,
}

/// The value of four bytes read as a little-endian 32-bit integer.
pub open spec fn le_u32_val(b0: u8, b1: u8, b2: u8, b3: u8) -> int {
    b0 + 0x100 * b1 + 0x1_0000 * b2 + 0x100_0000 * b3
}

/// The little-endian 32-bit integer stored at `off` in `log`.
pub open spec fn le_u32_at(log: Seq<u8>, off: int) -> int {
    le_u32_val(log[off], log[off + 1], log[off + 2], log[off + 3])
}

/// The four little-endian bytes of a 32-bit value.
pub open spec fn u32_le_bytes(x: u32) -> Seq<u8> {
    seq![
        (x % 0x100) as u8,
        ((x / 0x100) % 0x100) as u8,
        ((x / 0x1_0000) % 0x100) as u8,
        ((x / 0x100_0000) % 0x100) as u8,
    ]
}

/// Reading back the four little-endian bytes of `x` yields `x`.
pub proof fn lemma_u32_le_bytes_val(x: u32)
    ensures
        u32_le_bytes(x).len() == 4,
        le_u32_val(u32_le_bytes(x)[0], u32_le_bytes(x)[1], u32_le_bytes(x)[2], u32_le_bytes(x)[3])
            == x,
{
    assert(x % 0x100 + 0x100 * ((x / 0x100) % 0x100) + 0x1_0000 * ((x / 0x1_0000) % 0x100)
        + 0x100_0000 * ((x / 0x100_0000) % 0x100) == x) by (bit_vector);
}

/// Appends the four little-endian bytes of `x` to `out`.
fn push_u32_le(out: &mut Vec<u8>, x: u32)
    ensures
        final(out)@ == old(out)@ + u32_le_bytes(x),
{
    out.push((x % 0x100) as u8);
    out.push(((x / 0x100) % 0x100) as u8);
    out.push(((x / 0x1_0000) % 0x100) as u8);
    out.push(((x / 0x100_0000) % 0x100) as u8);
    assert(out@ =~= old(out)@ + u32_le_bytes(x));
}

/// Reads the little-endian 32-bit integer stored at `off` in `log`.
fn read_u32_le(log: &Vec<u8>, off: usize) -> (r: u32)
    requires
        off + 4 <= log@.len(),
    ensures
        r == le_u32_at(log@, off as int),
{
    // binds the fact that the log fits a usize, so `off + 3` cannot overflow
    let n: usize = log.len();
    let b0 = log[off] as u32;
    let b1 = log[off + 1] as u32;
    let b2 = log[off + 2] as u32;
    let b3 = log[off + 3] as u32;
    b0 + 0x100 * b1 + 0x1_0000 * b2 + 0x100_0000 * b3
}

/// The stored key length of the record at `off`.
pub open spec fn key_len_at(log: Seq<u8>, off: int) -> int {
    le_u32_at(log, off + 4)
}

/// The stored value length of the record at `off`.
pub open spec fn value_len_at(log: Seq<u8>, off: int) -> int {
    le_u32_at(log, off + 8)
}

/// The whole size of the record at `off`: header plus payload.
pub open spec fn record_size_at(log: Seq<u8>, off: int) -> int {
    12 + key_len_at(log, off) + value_len_at(log, off)
}

/// Whether the record at `off` lies entirely within the log.
pub open spec fn record_fits(log: Seq<u8>, off: int) -> bool {
    &&& 0 <= off
    &&& off + 12 <= log.len()
    &&& off + record_size_at(log, off) <= log.len()
}

/// The payload (key bytes followed by value bytes) of the record at `off`.
pub open spec fn payload_at(log: Seq<u8>, off: int) -> Seq<u8> {
    log.subrange(off + 12, off + record_size_at(log, off))
}

/// The key bytes of the record at `off`.
pub open spec fn key_at(log: Seq<u8>, off: int) -> Seq<u8> {
    log.subrange(off + 12, off + 12 + key_len_at(log, off))
}

/// The value bytes of the record at `off`.
pub open spec fn value_at(log: Seq<u8>, off: int) -> Seq<u8> {
    log.subrange(off + 12 + key_len_at(log, off), off + record_size_at(log, off))
}

/// Whether the stored checksum of the record at `off` matches its payload.
pub open spec fn checksum_matches_at(log: Seq<u8>, off: int) -> bool {
    crc32_of(payload_at(log, off)) as int == le_u32_at(log, off)
}

/// Whether the record at `off` is complete and passes its checksum.
pub open spec fn valid_record_at(log: Seq<u8>, off: int) -> bool {
    record_fits(log, off) && checksum_matches_at(log, off)
}

/// What decoding one record at `off` yields: the key and value bytes, or the
/// exact reason the record cannot be read.
pub open spec fn spec_decode(log: Seq<u8>, off: int) -> Result<(Seq<u8>, Seq<u8>), KvError> {
    if off >= log.len() {
        Err(KvError::EndOfLog)
    } else if !record_fits(log, off) {
        Err(KvError::Truncated)
    } else if !checksum_matches_at(log, off) {
        Err(KvError::Corrupt)
    } else {
        Ok((key_at(log, off), value_at(log, off)))
    }
}

/// The binary log representation of one record: checksum of `key || value`,
/// key length, value length (all little-endian), then the payload.
pub open spec fn record_bytes(key: Seq<u8>, value: Seq<u8>) -> Seq<u8> {
    u32_le_bytes(crc32_of(key + value)) + u32_le_bytes(key.len() as u32) + u32_le_bytes(
        value.len() as u32,
    ) + key + value
}

/// Appends every byte of `src` to `out`.
fn push_all(out: &mut Vec<u8>, src: &[u8])
    ensures
        final(out)@ == old(out)@ + src@,
{
    let ghost orig: Seq<u8> = out@;
    let n: usize = src.len();
    let mut i: usize = 0;
    while i < n
        invariant
            i <= n,
            n == src@.len(),
            out@ == orig + src@.subrange(0, i as int),
        decreases n - i,
    {
        let b: u8 = *slice_index_get(src, i);
        out.push(b);
        i = i + 1;
        assert(out@ =~= orig + src@.subrange(0, i as int));
    }
    assert(out@ =~= orig + src@);
}

/// Encodes one record: the header and payload described by `record_bytes`.
///
/// Pure with respect to the store: it touches no file and no index.
pub fn encode(key: &[u8], value: &[u8]) -> (r: Vec<u8>)
    requires
        key@.len() <= u32::MAX,
        value@.len() <= u32::MAX,
        key@.len() + value@.len() <= u32::MAX,
    ensures
        r@ == record_bytes(key@, value@),
        r@.len() == 12 + key@.len() + value@.len(),
{
    let mut payload: Vec<u8> = Vec::new();
    push_all(&mut payload, key);
    push_all(&mut payload, value);
    let checksum = crc32_ieee(payload.as_slice());
    let mut r: Vec<u8> = Vec::new();
    push_u32_le(&mut r, checksum);
    push_u32_le(&mut r, key.len() as u32);
    push_u32_le(&mut r, value.len() as u32);
    r.append(&mut payload);
    assert(r@ =~= record_bytes(key@, value@));
    r
}

/// Decodes exactly one record at `offset`, recomputing the checksum over the
/// payload and comparing it against the stored one.
///
/// A position at the end of the log is the clean termination signal
/// `EndOfLog`; a record cut short by the end of the log is `Truncated`; a
/// checksum mismatch is `Corrupt`.
pub fn decode(log: &Vec<u8>, offset: u64) -> (r: Result<KeyValuePair, KvError>)
    ensures
        match r {
            Ok(kv) => spec_decode(log@, offset as int) == Ok::<_, KvError>((kv.key@, kv.value@)),
            Err(e) => spec_decode(log@, offset as int) == Err::<(Seq<u8>, Seq<u8>), _>(e),
        },
{
    let n: usize = log.len();
    if offset >= n as u64 {
        return Err(KvError::EndOfLog);
    }
    let off = offset as usize;
    if n - off < 12 {
        return Err(KvError::Truncated);
    }
    let stored = read_u32_le(log, off);
    let key_len = read_u32_le(log, off + 4);
    let value_len = read_u32_le(log, off + 8);
    let data_len: u64 = key_len as u64 + value_len as u64;
    if ((n - (off + 12)) as u64) < data_len {
        return Err(KvError::Truncated);
    }
    let key_len_us = key_len as usize;
    let value_len_us = value_len as usize;
    let payload_start = off + 12;
    let payload_end = payload_start + key_len_us + value_len_us;
    let payload = slice_subrange(log.as_slice(), payload_start, payload_end);
    let checksum = crc32_ieee(payload);
    if checksum != stored {
        return Err(KvError::Corrupt);
    }
    let key = slice_to_vec(slice_subrange(log.as_slice(), payload_start, payload_start
        + key_len_us));
    let value = slice_to_vec(slice_subrange(log.as_slice(), payload_start + key_len_us,
        payload_end));
    Ok(KeyValuePair { key, value })
}

/// Round trip: a record encoded from `key` and `value` and laid into a log
/// between arbitrary bytes decodes from its own offset back to exactly
/// `key` and `value`, wherever in the log it stands.
pub proof fn lemma_record_round_trip(pre: Seq<u8>, key: Seq<u8>, value: Seq<u8>, post: Seq<u8>)
    requires
        key.len() <= u32::MAX,
        value.len() <= u32::MAX,
        key.len() + value.len() <= u32::MAX,
    ensures
        ({
            let log = pre + record_bytes(key, value) + post;
            let off = pre.len() as int;
            &&& valid_record_at(log, off)
            &&& key_len_at(log, off) == key.len()
            &&& value_len_at(log, off) == value.len()
            &&& record_size_at(log, off) == 12 + key.len() + value.len()
            &&& key_at(log, off) == key
            &&& value_at(log, off) == value
            &&& spec_decode(log, off) == Ok::<_, KvError>((key, value))
        }),
{
    let rec = record_bytes(key, value);
    let log = pre + rec + post;
    let off = pre.len() as int;
    let crc = crc32_of(key + value);
    let kl = key.len() as u32;
    let vl = value.len() as u32;
    lemma_u32_le_bytes_val(crc);
    lemma_u32_le_bytes_val(kl);
    lemma_u32_le_bytes_val(vl);
    assert(rec.len() == 12 + key.len() + value.len());
    assert forall|i: int| 0 <= i < rec.len() implies log[off + i] == rec[i] by {
        assert(log[off + i] == rec[off + i - pre.len()]);
    }
    assert(le_u32_at(log, off) == crc as int);
    assert(key_len_at(log, off) == kl as int);
    assert(value_len_at(log, off) == vl as int);
    assert(record_fits(log, off));
    assert(key_at(log, off) =~= key);
    assert(value_at(log, off) =~= value);
    assert(payload_at(log, off) =~= key + value);
    assert(checksum_matches_at(log, off));
}

} // verus!
