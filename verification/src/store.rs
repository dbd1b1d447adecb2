//! The log store: the log image and the in-memory index, with open, load
//! (index rebuild by full replay), append, and the point operations built
//! on top of them.
//!
//! The store works on the log image as plain bytes. Opening the backing
//! file, reading it into the image and flushing appended bytes back out is
//! the caller's concern; every offset here is a position in that image, and
//! so in the file.

use vstd::prelude::*;

use crate::codec::decode;
use crate::codec::encode;
use crate::codec::key_at;
use crate::codec::key_len_at;
use crate::codec::record_bytes;
use crate::codec::record_fits;
use crate::codec::record_size_at;
use crate::codec::spec_decode;
use crate::codec::valid_record_at;
use crate::codec::value_len_at;
use crate::codec::KeyValuePair;
use crate::codec::KvError;
use crate::index::Index;

verus! {

/// Replaying the log from `off` to its end: the mapping from each key whose
/// records start at or after `off` to the offset of the last of them, or
/// the first decode failure met on the way.
pub open spec fn replay_from(log: Seq<u8>, off: int) -> Result<Map<Seq<u8>, u64>, KvError>
    decreases log.len() - off,
{
    if off < 0 {
        Err(KvError::Truncated)
    } else if off >= log.len() {
        Ok(Map::empty())
    } else if valid_record_at(log, off) {
        match replay_from(log, off + record_size_at(log, off)) {
            Ok(rest) => Ok(
                if rest.contains_key(key_at(log, off)) {
                    rest
                } else {
                    rest.insert(key_at(log, off), off as u64)
                },
            ),
            Err(e) => Err(e),
        }
    } else if !record_fits(log, off) {
        Err(KvError::Truncated)
    } else {
        Err(KvError::Corrupt)
    }
}

/// The store: a log image and the index over it.
pub struct RustKV {
    /// The log image: the backing file's bytes, append-only.
    pub log: Vec<u8>,
    /// The in-memory index from key bytes to the offset of that key's most
    /// recent record.
    pub index: Index,
}

impl RustKV {
    /// Well-formed: the index holds one binding per key.
    pub open spec fn wf(&self) -> bool {
        self.index.wf()
    }

    /// Opens a store over a log image (the backing file's current bytes;
    /// empty for a brand-new file). Reads no content: the index starts
    /// empty until `load` replays the log.
    pub fn open(log: Vec<u8>) -> (s: Self)
        ensures
            s.wf(),
            s.log@ == log@,
            s.index@ == Map::<Seq<u8>, u64>::empty(),
    {
        RustKV { log, index: Index::new() }
    }

    /// Rebuilds the index by replaying the whole log from offset zero. Each
    /// record met maps its key to its offset, so a later record for a key
    /// overrides an earlier one: last write wins. A clean end of the log
    /// stops the replay successfully; any other decode failure aborts it
    /// and is returned.
    #[verifier::loop_isolation(false)]
    pub fn load(&mut self) -> (r: Result<(), KvError>)
        requires
            old(self).wf(),
        ensures
            final(self).wf(),
            final(self).log@ == old(self).log@,
            match replay_from(old(self).log@, 0) {
                Ok(m) => r == Ok::<(), KvError>(()) && final(self).index@ == old(
                    self,
                ).index@.union_prefer_right(m),
                Err(e) => r == Err::<(), KvError>(e),
            },
    {
        let ghost init_index: Map<Seq<u8>, u64> = self.index@;
        let ghost lg: Seq<u8> = self.log@;
        // binds the fact that the log image fits a usize, which bounds `pos`
        let loglen: usize = self.log.len();
        let mut pos: u64 = 0;
        loop
            invariant
                self.wf(),
                self.log@ == lg,
                0 <= pos <= lg.len(),
                match replay_from(lg, pos as int) {
                    Ok(m) => replay_from(lg, 0) matches Ok(m0)
                        && init_index.union_prefer_right(m0) == self.index@.union_prefer_right(
                        m,
                    ),
                    Err(e) => replay_from(lg, 0) == Err::<Map<Seq<u8>, u64>, KvError>(e),
                },
            decreases lg.len() - pos,
        {
            match decode(&self.log, pos) {
                Err(e) => {
                    match e {
                        KvError::EndOfLog => {
                            proof {
                                assert(pos == lg.len());
                                assert(replay_from(lg, pos as int) == Ok::<
                                    Map<Seq<u8>, u64>,
                                    KvError,
                                >(Map::empty()));
                                assert(self.index@.union_prefer_right(Map::empty())
                                    =~= self.index@);
                            }
                            return Ok(());
                        },
                        _ => {
                            proof {
                                assert(replay_from(lg, pos as int) == Err::<
                                    Map<Seq<u8>, u64>,
                                    KvError,
                                >(e));
                            }
                            return Err(e);
                        },
                    }
                },
                Ok(kv) => {
                    let ghost prev_index: Map<Seq<u8>, u64> = self.index@;
                    let ghost p: int = pos as int;
                    let klen = kv.key.len();
                    let vlen = kv.value.len();
                    self.index.set(kv.key.as_slice(), pos);
                    proof {
                        assert(valid_record_at(lg, p));
                        assert(key_at(lg, p) == kv.key@);
                        assert(key_len_at(lg, p) == klen as int);
                        assert(value_len_at(lg, p) == vlen as int);
                        let next = p + record_size_at(lg, p);
                        if let Ok(rest) = replay_from(lg, next) {
                            let m = if rest.contains_key(kv.key@) {
                                rest
                            } else {
                                rest.insert(kv.key@, pos)
                            };
                            assert(replay_from(lg, p) == Ok::<Map<Seq<u8>, u64>, KvError>(m));
                            assert(self.index@.union_prefer_right(rest)
                                =~= prev_index.union_prefer_right(m));
                        }
                    }
                    pos = pos + 12 + klen as u64 + vlen as u64;
                },
            }
        }
    }

    /// Appends one record and points the index at it.
    pub fn insert(&mut self, key: &[u8], value: &[u8]) -> (r: Result<(), KvError>)
        requires
            old(self).wf(),
            key@.len() <= u32::MAX,
            value@.len() <= u32::MAX,
            key@.len() + value@.len() <= u32::MAX,
            old(self).log@.len() + 12 + key@.len() + value@.len() <= usize::MAX,
        ensures
            final(self).wf(),
            final(self).log@ == old(self).log@ + record_bytes(key@, value@),
            final(self).index@ == old(self).index@.insert(key@, old(self).log@.len() as u64),
            r == Ok::<(), KvError>(()),
    {
        let position = match self.insert_but_ignore_index(key, value) {
            Ok(position) => position,
            Err(e) => {
                return Err(e);
            },
        };
        self.index.set(key, position);
        Ok(())
    }

    /// Encodes the record and appends it at the current end of the log,
    /// leaving the index alone. Returns the offset at which the record's
    /// header begins: the true end-of-log position at the moment of the
    /// write, the position a later positional read must use.
    pub fn insert_but_ignore_index(&mut self, key: &[u8], value: &[u8]) -> (r: Result<
        u64,
        KvError,
    >)
        requires
            old(self).wf(),
            key@.len() <= u32::MAX,
            value@.len() <= u32::MAX,
            key@.len() + value@.len() <= u32::MAX,
            old(self).log@.len() + 12 + key@.len() + value@.len() <= usize::MAX,
        ensures
            final(self).wf(),
            final(self).index@ == old(self).index@,
            final(self).log@ == old(self).log@ + record_bytes(key@, value@),
            r == Ok::<u64, KvError>(old(self).log@.len() as u64),
    {
        let position = self.log.len() as u64;
        let mut rec = encode(key, value);
        self.log.append(&mut rec);
        Ok(position)
    }

    /// Looks the key up in the index; absent keys are a normal `None`, not
    /// an error. A present key is read back by one positional decode at its
    /// stored offset, and that record's value is returned.
    pub fn get(&mut self, key: &[u8]) -> (r: Result<Option<Vec<u8>>, KvError>)
        requires
            old(self).wf(),
        ensures
            final(self).wf(),
            final(self).log@ == old(self).log@,
            final(self).index@ == old(self).index@,
            ({
                let idx = old(self).index@;
                if !idx.contains_key(key@) {
                    r == Ok::<Option<Vec<u8>>, KvError>(None)
                } else {
                    match spec_decode(old(self).log@, idx[key@] as int) {
                        Ok(p) => r matches Ok(Some(v)) && v@ == p.1,
                        Err(e) => r == Err::<Option<Vec<u8>>, KvError>(e),
                    }
                }
            }),
    {
        let position = match self.index.get(key) {
            Some(position) => position,
            None => {
                return Ok(None);
            },
        };
        let kv = match self.get_at_position(position) {
            Ok(kv) => kv,
            Err(e) => {
                return Err(e);
            },
        };
        Ok(Some(kv.value))
    }

    /// Positional single-record read: decodes exactly the record whose
    /// header begins at `position`.
    pub fn get_at_position(&mut self, position: u64) -> (r: Result<KeyValuePair, KvError>)
        requires
            old(self).wf(),
        ensures
            final(self).wf(),
            final(self).log@ == old(self).log@,
            final(self).index@ == old(self).index@,
            match r {
                Ok(kv) => spec_decode(old(self).log@, position as int) == Ok::<_, KvError>(
                    (kv.key@, kv.value@),
                ),
                Err(e) => spec_decode(old(self).log@, position as int) == Err::<
                    (Seq<u8>, Seq<u8>),
                    _,
                >(e),
            },
    {
        decode(&self.log, position)
    }

    /// Updating is inserting: a new record is appended and the index moves
    /// to it.
    pub fn update(&mut self, key: &[u8], value: &[u8]) -> (r: Result<(), KvError>)
        requires
            old(self).wf(),
            key@.len() <= u32::MAX,
            value@.len() <= u32::MAX,
            key@.len() + value@.len() <= u32::MAX,
            old(self).log@.len() + 12 + key@.len() + value@.len() <= usize::MAX,
        ensures
            final(self).wf(),
            final(self).log@ == old(self).log@ + record_bytes(key@, value@),
            final(self).index@ == old(self).index@.insert(key@, old(self).log@.len() as u64),
            r == Ok::<(), KvError>(()),
    {
        self.insert(key, value)
    }

    /// Deleting writes a tombstone: a record with an empty value. The key
    /// stays present in the index and the log; a later `get` finds the
    /// empty value, not a missing key.
    pub fn delete(&mut self, key: &[u8]) -> (r: Result<(), KvError>)
        requires
            old(self).wf(),
            key@.len() <= u32::MAX,
            old(self).log@.len() + 12 + key@.len() <= usize::MAX,
        ensures
            final(self).wf(),
            final(self).log@ == old(self).log@ + record_bytes(key@, Seq::<u8>::empty()),
            final(self).index@ == old(self).index@.insert(key@, old(self).log@.len() as u64),
            r == Ok::<(), KvError>(()),
    {
        let empty: [u8; 0] = [];
        proof {
            assert(empty@ =~= Seq::<u8>::empty());
        }
        self.insert(key, empty.as_slice())
    }
}

} // verus!
