//! The in-memory index: a mapping from key bytes to the log offset of that
//! key's most recent record.
//!
//! The index is purely in memory. It is empty at store construction, rebuilt
//! wholesale by a log replay, and updated by every write operation.

use vstd::prelude::*;
use vstd::pervasive::VecAdditionalExecFns;
use vstd::slice::slice_index_get;
use vstd::slice::slice_to_vec;

verus! {

/// Whether two byte slices hold the same bytes.
pub(crate) fn bytes_eq(a: &[u8], b: &[u8]) -> (r: bool)
    ensures
        r == (a@ == b@),
{
    let n: usize = a.len();
    if n != b.len() {
        return false;
    }
    let mut i: usize = 0;
    while i < n
        invariant
            i <= n,
            n == a@.len(),
            n == b@.len(),
            forall|j: int| 0 <= j < i ==> a@[j] == b@[j],
        decreases n - i,
    {
        if *slice_index_get(a, i) != *slice_index_get(b, i) {
            return false;
        }
        i = i + 1;
    }
    proof {
        assert(a@ =~= b@);
    }
    true
}

/// The mapping that a sequence of (key, offset) entries denotes; a later
/// entry for a key overrides an earlier one.
pub open spec fn entries_map(s: Seq<(Vec<u8>, u64)>) -> Map<Seq<u8>, u64>
    decreases s.len(),
{
    if s.len() == 0 {
        Map::empty()
    } else {
        entries_map(s.drop_last()).insert(s.last().0@, s.last().1)
    }
}

/// No two entries share a key.
pub open spec fn unique_keys(s: Seq<(Vec<u8>, u64)>) -> bool {
    forall|i: int, j: int| 0 <= i < j < s.len() ==> s[i].0@ != s[j].0@
}

/// A key is in the denoted mapping exactly when some entry holds it.
proof fn lemma_entries_map_get(s: Seq<(Vec<u8>, u64)>, k: Seq<u8>)
    ensures
        entries_map(s).contains_key(k) <==> (exists|i: int| 0 <= i < s.len() && s[i].0@ == k),
    decreases s.len(),
{
    if s.len() > 0 {
        lemma_entries_map_get(s.drop_last(), k);
        if entries_map(s).contains_key(k) && s.last().0@ != k {
            let i = choose|i: int|
                0 <= i < s.drop_last().len() && s.drop_last()[i].0@ == k;
            assert(s[i].0@ == k);
        }
        if exists|i: int| 0 <= i < s.len() && s[i].0@ == k {
            let i = choose|i: int| 0 <= i < s.len() && s[i].0@ == k;
            if i < s.len() - 1 {
                assert(s.drop_last()[i].0@ == k);
            }
        }
    }
}

/// With unique keys, the entry at `i` gives exactly the mapping of its key.
proof fn lemma_entries_map_at(s: Seq<(Vec<u8>, u64)>, i: int)
    requires
        unique_keys(s),
        0 <= i < s.len(),
    ensures
        entries_map(s).contains_key(s[i].0@),
        entries_map(s)[s[i].0@] == s[i].1,
    decreases s.len(),
{
    if i < s.len() - 1 {
        assert(unique_keys(s.drop_last()));
        lemma_entries_map_at(s.drop_last(), i);
        assert(s.drop_last()[i] == s[i]);
        assert(s[i].0@ != s.last().0@);
    }
}

/// Overwriting the entry that holds a key maps that key to the new offset
/// and leaves every other key unchanged.
proof fn lemma_entries_map_update(s: Seq<(Vec<u8>, u64)>, i: int, e: (Vec<u8>, u64))
    requires
        unique_keys(s),
        0 <= i < s.len(),
        e.0@ == s[i].0@,
    ensures
        entries_map(s.update(i, e)) == entries_map(s).insert(e.0@, e.1),
        unique_keys(s.update(i, e)),
    decreases s.len(),
{
    let t = s.update(i, e);
    assert forall|p: int, q: int| 0 <= p < q < t.len() implies t[p].0@ != t[q].0@ by {
        assert(s[p].0@ != s[q].0@);
    }
    if i == s.len() - 1 {
        assert(t.drop_last() =~= s.drop_last());
        assert(t.last() == e);
        assert(entries_map(s).insert(e.0@, e.1) =~= entries_map(s.drop_last()).insert(
            e.0@,
            e.1,
        ));
    } else {
        assert(unique_keys(s.drop_last()));
        assert(t.drop_last() =~= s.drop_last().update(i, e));
        lemma_entries_map_update(s.drop_last(), i, e);
        assert(t.last() == s.last());
        assert(s[i].0@ != s.last().0@);
        assert(entries_map(s.drop_last()).insert(e.0@, e.1).insert(s.last().0@, s.last().1)
            =~= entries_map(s.drop_last()).insert(s.last().0@, s.last().1).insert(e.0@, e.1));
    }
}

/// With unique keys, the mapping has exactly one binding per entry.
proof fn lemma_entries_map_len(s: Seq<(Vec<u8>, u64)>)
    requires
        unique_keys(s),
    ensures
        entries_map(s).dom().finite(),
        entries_map(s).dom().len() == s.len(),
    decreases s.len(),
{
    if s.len() > 0 {
        assert(unique_keys(s.drop_last()));
        lemma_entries_map_len(s.drop_last());
        lemma_entries_map_get(s.drop_last(), s.last().0@);
        assert(!entries_map(s.drop_last()).contains_key(s.last().0@));
        vstd::set::axiom_set_insert_len(entries_map(s.drop_last()).dom(), s.last().0@);
    }
}

/// The in-memory index. Its mathematical view is a map from key bytes to the
/// 64-bit log offset of that key's most recent record.
pub struct Index {
    entries: Vec<(Vec<u8>, u64)>,
}

impl View for Index {
    type V = Map<Seq<u8>, u64>;

    closed spec fn view(&self) -> Map<Seq<u8>, u64> {
        entries_map(self.entries@)
    }
}

impl Index {
    /// Well-formed: no two entries share a key, so each key has exactly one
    /// binding. Constructors establish this and every method preserves it.
    pub closed spec fn wf(&self) -> bool {
        unique_keys(self.entries@)
    }

    /// An empty index.
    pub fn new() -> (r: Self)
        ensures
            r.wf(),
            r@ == Map::<Seq<u8>, u64>::empty(),
    {
        Index { entries: Vec::new() }
    }

    /// The offset stored for `key`, or `None` if the key is absent.
    pub fn get(&self, key: &[u8]) -> (r: Option<u64>)
        requires
            self.wf(),
        ensures
            match r {
                Some(off) => self@.contains_key(key@) && self@[key@] == off,
                None => !self@.contains_key(key@),
            },
    {
        let n: usize = self.entries.len();
        let mut i: usize = 0;
        while i < n
            invariant
                i <= n,
                n == self.entries@.len(),
                unique_keys(self.entries@),
                forall|j: int| 0 <= j < i ==> self.entries@[j].0@ != key@,
            decreases n - i,
        {
            if bytes_eq(self.entries[i].0.as_slice(), key) {
                proof {
                    lemma_entries_map_at(self.entries@, i as int);
                }
                return Some(self.entries[i].1);
            }
            i = i + 1;
        }
        proof {
            lemma_entries_map_get(self.entries@, key@);
        }
        None
    }

    /// Maps `key` to `off`, overwriting any prior binding for that key.
    pub fn set(&mut self, key: &[u8], off: u64)
        requires
            old(self).wf(),
        ensures
            final(self).wf(),
            final(self)@ == old(self)@.insert(key@, off),
    {
        let n: usize = self.entries.len();
        let mut i: usize = 0;
        while i < n
            invariant
                i <= n,
                n == self.entries@.len(),
                self.entries@ == old(self).entries@,
                unique_keys(self.entries@),
                forall|j: int| 0 <= j < i ==> self.entries@[j].0@ != key@,
            decreases n - i,
        {
            if bytes_eq(self.entries[i].0.as_slice(), key) {
                let kv: Vec<u8> = slice_to_vec(key);
                proof {
                    lemma_entries_map_update(self.entries@, i as int, ((kv, off)));
                }
                self.entries.set(i, (kv, off));
                return;
            }
            i = i + 1;
        }
        let kv: Vec<u8> = slice_to_vec(key);
        self.entries.push((kv, off));
        proof {
            let s = old(self).entries@;
            let t = self.entries@;
            assert(t.drop_last() =~= s);
            assert forall|p: int, q: int| 0 <= p < q < t.len() implies t[p].0@ != t[q].0@ by {
                if q < t.len() - 1 {
                    assert(s[p].0@ != s[q].0@);
                } else {
                    assert(s[p].0@ != key@);
                }
            }
        }
    }

    /// How many keys the index holds.
    pub fn len(&self) -> (n: usize)
        requires
            self.wf(),
        ensures
            n == self@.dom().len(),
            self@.dom().finite(),
    {
        proof {
            lemma_entries_map_len(self.entries@);
        }
        self.entries.len()
    }

    /// The `i`-th binding, as a copy of its key and its offset. Together with
    /// `len` this enumerates the whole mapping.
    pub fn entry_at(&self, i: usize) -> (r: (Vec<u8>, u64))
        requires
            self.wf(),
            i < self@.dom().len(),
        ensures
            self@.contains_key(r.0@),
            self@[r.0@] == r.1,
    {
        proof {
            lemma_entries_map_len(self.entries@);
            lemma_entries_map_at(self.entries@, i as int);
        }
        let key: Vec<u8> = slice_to_vec(self.entries[i].0.as_slice());
        (key, self.entries[i].1)
    }
}

} // verus!
