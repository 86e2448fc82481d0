//! The in-memory index: a mapping from key bytes to the byte offset of the
//! key's most recent record in the log.
//!
//! The mapping is held as a vector of pairs with pairwise distinct keys and
//! viewed as a `Map<Seq<u8>, u64>`; rebuilding it from the log and keeping it
//! current across mutations is the engine's job.

use vstd::prelude::*;

verus! {

/// Two byte slices hold the same bytes.
pub(crate) fn bytes_eq(a: &[u8], b: &[u8]) -> (r: bool)
    ensures
        r == (a@ == b@),
{
    if a.len() != b.len() {
        assert(a@ != b@);
        return false;
    }
    let n = a.len();
    let mut i: usize = 0;
    while i < n
        invariant
            n == a@.len(),
            n == b@.len(),
            i <= n,
            forall|j: int| 0 <= j < i ==> a@[j] == b@[j],
        decreases n - i,
    {
        if a[i] != b[i] {
            assert(a@ != b@);
            return false;
        }
        i += 1;
    }
    assert(a@ =~= b@);
    true
}

/// The keys of the entries are pairwise distinct.
pub(crate) open spec fn entries_unique(s: Seq<(Vec<u8>, u64)>) -> bool {
    forall|i: int, j: int| 0 <= i < j < s.len() ==> s[i].0@ != s[j].0@
}

/// The mapping the entries hold, entry by entry.
pub(crate) open spec fn as_map(s: Seq<(Vec<u8>, u64)>) -> Map<Seq<u8>, u64>
    decreases s.len(),
{
    if s.len() == 0 {
        Map::empty()
    } else {
        as_map(s.drop_last()).insert(s.last().0@, s.last().1)
    }
}

/// An entry's key is in the mapping; with distinct keys, it maps to that
/// entry's offset.
proof fn lemma_as_map_entry(s: Seq<(Vec<u8>, u64)>, i: int)
    requires
        0 <= i < s.len(),
    ensures
        as_map(s).dom().contains(s[i].0@),
        entries_unique(s) ==> as_map(s)[s[i].0@] == s[i].1,
    decreases s.len(),
{
    if i < s.len() - 1 {
        lemma_as_map_entry(s.drop_last(), i);
    }
}

/// A key held by no entry is not in the mapping.
proof fn lemma_as_map_absent(s: Seq<(Vec<u8>, u64)>, k: Seq<u8>)
    requires
        forall|i: int| 0 <= i < s.len() ==> s[i].0@ != k,
    ensures
        !as_map(s).dom().contains(k),
    decreases s.len(),
{
    if s.len() > 0 {
        lemma_as_map_absent(s.drop_last(), k);
    }
}

/// Overwriting the entry at `i` with one that keeps its key re-binds exactly
/// that key in the mapping.
proof fn lemma_as_map_update(s: Seq<(Vec<u8>, u64)>, i: int, e: (Vec<u8>, u64))
    requires
        entries_unique(s),
        0 <= i < s.len(),
        e.0@ == s[i].0@,
    ensures
        as_map(s.update(i, e)) == as_map(s).insert(e.0@, e.1),
    decreases s.len(),
{
    let s2 = s.update(i, e);
    if i == s.len() - 1 {
        assert(s2.drop_last() =~= s.drop_last());
        assert(as_map(s2) == as_map(s.drop_last()).insert(e.0@, e.1));
        assert(as_map(s.drop_last()).insert(e.0@, e.1) =~= as_map(s).insert(e.0@, e.1));
    } else {
        assert(s2.drop_last() =~= s.drop_last().update(i, e));
        lemma_as_map_update(s.drop_last(), i, e);
        assert(s2.last() == s.last());
        assert(s.last().0@ != e.0@);
        assert(as_map(s.drop_last()).insert(e.0@, e.1).insert(s.last().0@, s.last().1) =~= as_map(
            s.drop_last(),
        ).insert(s.last().0@, s.last().1).insert(e.0@, e.1));
    }
}

/// The index over the log: key bytes to the offset of the key's latest
/// record.
pub struct Index {
    entries: Vec<(Vec<u8>, u64)>,
}

impl View for Index {
    type V = Map<Seq<u8>, u64>;

    closed spec fn view(&self) -> Map<Seq<u8>, u64> {
        as_map(self.entries@)
    }
}

impl Index {
    /// The entries hold pairwise distinct keys, so they denote a mapping.
    pub closed spec fn wf(&self) -> bool {
        entries_unique(self.entries@)
    }

    /// An empty index.
    pub fn new() -> (r: Self)
        ensures
            r.wf(),
            r@ == Map::<Seq<u8>, u64>::empty(),
    {
        let r = Index { entries: Vec::new() };
        proof {
            assert(r@ =~= Map::<Seq<u8>, u64>::empty());
        }
        r
    }

    /// Empties the mapping.
    pub fn clear(&mut self)
        ensures
            final(self).wf(),
            final(self)@ == Map::<Seq<u8>, u64>::empty(),
    {
        self.entries.clear();
        proof {
            assert(self@ =~= Map::<Seq<u8>, u64>::empty());
        }
    }

    /// Looks the key up: its offset, or `None` when the key has no entry.
    pub fn lookup(&self, key: &[u8]) -> (r: Option<u64>)
        requires
            self.wf(),
        ensures
            match r {
                Some(p) => self@.dom().contains(key@) && p == self@[key@],
                None => !self@.dom().contains(key@),
            },
    {
        let n = self.entries.len();
        let mut i: usize = 0;
        while i < n
            invariant
                self.wf(),
                n == self.entries@.len(),
                i <= n,
                forall|j: int| 0 <= j < i ==> self.entries@[j].0@ != key@,
        decreases n - i,
    {
            if bytes_eq(self.entries[i].0.as_slice(), key) {
                proof {
                    lemma_as_map_entry(self.entries@, i as int);
                }
                return Some(self.entries[i].1);
            }
            i += 1;
        }
        proof {
            lemma_as_map_absent(self.entries@, key@);
        }
        None
    }

    /// Binds the key to the offset, replacing any earlier binding.
    pub fn set(&mut self, key: Vec<u8>, offset: u64)
        requires
            old(self).wf(),
        ensures
            final(self).wf(),
            final(self)@ == old(self)@.insert(key@, offset),
    {
        let ghost s0 = self.entries@;
        let n = self.entries.len();
        let mut i: usize = 0;
        while i < n
            invariant
                self.entries@ == s0,
                old(self).entries@ == s0,
                entries_unique(s0),
                n == s0.len(),
                i <= n,
                forall|j: int| 0 <= j < i ==> s0[j].0@ != key@,
            decreases n - i,
        {
            if bytes_eq(self.entries[i].0.as_slice(), key.as_slice()) {
                let ghost e = (key, offset);
                self.entries[i] = (key, offset);
                proof {
                    assert(self.entries@ =~= s0.update(i as int, e));
                    lemma_as_map_update(s0, i as int, e);
                    assert(forall|a: int|
                        0 <= a < self.entries@.len() ==> self.entries@[a].0@ == s0[a].0@);
                }
                return ;
            }
            i += 1;
        }
        proof {
            lemma_as_map_absent(s0, key@);
        }
        self.entries.push((key, offset));
        proof {
            assert(self.entries@.drop_last() =~= s0);
        }
    }
}

} // verus!
