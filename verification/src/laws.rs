//! The laws of the store, stated over the same spec functions that the
//! executable functions' contracts use, and proved once and for all.

use vstd::prelude::*;

use crate::codec::key_at;
use crate::codec::key_len_at;
use crate::codec::lemma_record_round_trip;
use crate::codec::record_bytes;
use crate::codec::record_size_at;
use crate::codec::spec_decode;
use crate::codec::valid_record_at;
use crate::codec::value_len_at;
use crate::codec::KvError;
use crate::store::replay_from;

verus! {

/// Offset correctness: a record appended at the end of any log decodes from
/// the offset the append reported (the old log length) back to exactly the
/// key and value it was encoded from.
pub proof fn lemma_offset_correctness(log: Seq<u8>, key: Seq<u8>, value: Seq<u8>)
    requires
        key.len() <= u32::MAX,
        value.len() <= u32::MAX,
        key.len() + value.len() <= u32::MAX,
    ensures
        spec_decode(log + record_bytes(key, value), log.len() as int) == Ok::<
            (Seq<u8>, Seq<u8>),
            KvError,
        >((key, value)),
{
    lemma_record_round_trip(log, key, value, Seq::empty());
    assert(log + record_bytes(key, value) + Seq::<u8>::empty() =~= log + record_bytes(
        key,
        value,
    ));
}

/// Round trip: decoding an encoded record yields the original key and
/// value, for every key and every value, the empty value included.
pub proof fn lemma_encode_decode(key: Seq<u8>, value: Seq<u8>)
    requires
        key.len() <= u32::MAX,
        value.len() <= u32::MAX,
        key.len() + value.len() <= u32::MAX,
    ensures
        spec_decode(record_bytes(key, value), 0) == Ok::<(Seq<u8>, Seq<u8>), KvError>(
            (key, value),
        ),
{
    lemma_offset_correctness(Seq::empty(), key, value);
    assert(Seq::<u8>::empty() + record_bytes(key, value) =~= record_bytes(key, value));
}

/// Tombstone: a delete appends a record with an empty value, so reading the
/// key back at its new offset finds it present with the empty value — it
/// does not become a missing key.
pub proof fn lemma_tombstone(log: Seq<u8>, key: Seq<u8>)
    requires
        key.len() <= u32::MAX,
    ensures
        spec_decode(log + record_bytes(key, Seq::empty()), log.len() as int) == Ok::<
            (Seq<u8>, Seq<u8>),
            KvError,
        >((key, Seq::empty())),
{
    lemma_offset_correctness(log, key, Seq::empty());
}

/// Idempotent reload: replaying a log a second time over the index that the
/// first replay produced changes nothing.
pub proof fn lemma_idempotent_reload(index: Map<Seq<u8>, u64>, log: Seq<u8>)
    ensures
        replay_from(log, 0) matches Ok(m) ==> index.union_prefer_right(m).union_prefer_right(m)
            == index.union_prefer_right(m),
{
    if let Ok(m) = replay_from(log, 0) {
        assert(index.union_prefer_right(m).union_prefer_right(m) =~= index.union_prefer_right(
            m,
        ));
    }
}

/// Replay of a log with bytes appended: the records already in the log
/// parse exactly as before, so the combined replay is the old mapping
/// overridden by whatever the appended bytes replay to — and fails exactly
/// when the appended bytes fail.
pub proof fn lemma_replay_append(log: Seq<u8>, ext: Seq<u8>, off: int)
    requires
        0 <= off <= log.len(),
        replay_from(log, off) is Ok,
    ensures
        replay_from(log, off) matches Ok(m1) ==> replay_from(log + ext, off) == (
        match replay_from(log + ext, log.len() as int) {
            Ok(m2) => Ok::<Map<Seq<u8>, u64>, KvError>(m1.union_prefer_right(m2)),
            Err(e) => Err::<Map<Seq<u8>, u64>, KvError>(e),
        }),
    decreases log.len() - off,
{
    let whole = log + ext;
    let endpos = log.len() as int;
    if off == log.len() {
        if let Ok(m2) = replay_from(whole, endpos) {
            assert(Map::<Seq<u8>, u64>::empty().union_prefer_right(m2) =~= m2);
        }
    } else {
        assert(valid_record_at(log, off));
        assert(key_len_at(whole, off) == key_len_at(log, off));
        assert(value_len_at(whole, off) == value_len_at(log, off));
        assert(crate::codec::payload_at(whole, off) =~= crate::codec::payload_at(log, off));
        assert(key_at(whole, off) =~= key_at(log, off));
        assert(valid_record_at(whole, off));
        let size = record_size_at(log, off);
        lemma_replay_append(log, ext, off + size);
        if let Ok(m2) = replay_from(whole, endpos) {
            if let Ok(rest1) = replay_from(log, off + size) {
                let k = key_at(log, off);
                let m1 = if rest1.contains_key(k) {
                    rest1
                } else {
                    rest1.insert(k, off as u64)
                };
                let combined = rest1.union_prefer_right(m2);
                if combined.contains_key(k) {
                    assert(combined =~= m1.union_prefer_right(m2));
                } else {
                    assert(combined.insert(k, off as u64) =~= m1.union_prefer_right(m2));
                }
            }
        }
    }
}

/// Two records for one key, appended after `log`, replay to the single
/// binding at the second record's offset; the record there holds the
/// second value.
#[verifier::rlimit(100)]
proof fn lemma_replay_pair(log: Seq<u8>, key: Seq<u8>, v1: Seq<u8>, v2: Seq<u8>)
    requires
        key.len() <= u32::MAX,
        v1.len() <= u32::MAX,
        v2.len() <= u32::MAX,
        key.len() + v1.len() <= u32::MAX,
        key.len() + v2.len() <= u32::MAX,
        log.len() + record_bytes(key, v1).len() <= u64::MAX,
    ensures
        ({
            let l2 = log + record_bytes(key, v1) + record_bytes(key, v2);
            let off2 = (log.len() + record_bytes(key, v1).len()) as u64;
            &&& replay_from(l2, log.len() as int) == Ok::<Map<Seq<u8>, u64>, KvError>(
                Map::<Seq<u8>, u64>::empty().insert(key, off2),
            )
            &&& spec_decode(l2, off2 as int) == Ok::<(Seq<u8>, Seq<u8>), KvError>((key, v2))
        }),
{
    let r1 = record_bytes(key, v1);
    let r2 = record_bytes(key, v2);
    let l2 = log + r1 + r2;
    let endpos = log.len() as int;
    let off2 = endpos + r1.len();
    lemma_record_round_trip(log, key, v1, r2);
    lemma_record_round_trip(log + r1, key, v2, Seq::empty());
    assert(log + r1 + r2 + Seq::<u8>::empty() =~= l2);
    assert(spec_decode(l2, off2) == Ok::<(Seq<u8>, Seq<u8>), KvError>((key, v2)));
    assert(record_size_at(l2, endpos) == r1.len());
    assert(record_size_at(l2, off2) == r2.len());
    assert(replay_from(l2, l2.len() as int) == Ok::<Map<Seq<u8>, u64>, KvError>(Map::empty()));
    assert(replay_from(l2, off2) == Ok::<Map<Seq<u8>, u64>, KvError>(
        Map::<Seq<u8>, u64>::empty().insert(key, off2 as u64),
    ));
    assert(replay_from(l2, endpos) == Ok::<Map<Seq<u8>, u64>, KvError>(
        Map::<Seq<u8>, u64>::empty().insert(key, off2 as u64),
    ));
}

/// Last write wins: appending two records for one key to a cleanly
/// replaying log makes the replay map that key — and only that key — to
/// the second record's offset, and the record there holds the second
/// value.
#[verifier::rlimit(100)]
pub proof fn lemma_last_write_wins(log: Seq<u8>, key: Seq<u8>, v1: Seq<u8>, v2: Seq<u8>)
    requires
        replay_from(log, 0) is Ok,
        key.len() <= u32::MAX,
        v1.len() <= u32::MAX,
        v2.len() <= u32::MAX,
        key.len() + v1.len() <= u32::MAX,
        key.len() + v2.len() <= u32::MAX,
        log.len() + record_bytes(key, v1).len() <= u64::MAX,
    ensures
        replay_from(log, 0) matches Ok(m) ==> ({
            let l2 = log + record_bytes(key, v1) + record_bytes(key, v2);
            let off2 = (log.len() + record_bytes(key, v1).len()) as u64;
            &&& replay_from(l2, 0) == Ok::<Map<Seq<u8>, u64>, KvError>(m.insert(key, off2))
            &&& spec_decode(l2, off2 as int) == Ok::<(Seq<u8>, Seq<u8>), KvError>((key, v2))
        }),
{
    let r1 = record_bytes(key, v1);
    let r2 = record_bytes(key, v2);
    let l2 = log + r1 + r2;
    let off2 = (log.len() + r1.len()) as u64;
    lemma_replay_pair(log, key, v1, v2);
    lemma_replay_append(log, r1 + r2, 0);
    assert(log + (r1 + r2) =~= l2);
    if let Ok(m) = replay_from(log, 0) {
        assert(replay_from(l2, 0) == Ok::<Map<Seq<u8>, u64>, KvError>(m.union_prefer_right(
            Map::<Seq<u8>, u64>::empty().insert(key, off2),
        )));
        assert(m.union_prefer_right(Map::<Seq<u8>, u64>::empty().insert(key, off2)) =~= m.insert(
            key,
            off2,
        ));
    }
}

} // verus!
