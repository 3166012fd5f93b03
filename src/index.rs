//! The in-memory index: for each live key, where its latest `SetValue` record lies.
use vstd::prelude::*;
use vstd::string::StringSliceAdditionalSpecFns;
use vstd::utf8::encode_utf8_decode_utf8;

use crate::record::CommandMetaData;

verus! {

/// Compares two strings by their UTF-8 bytes.
pub fn str_eq(a: &str, b: &str) -> (r: bool)
    ensures
        r == (a@ == b@),
{
    let x = a.as_bytes();
    let y = b.as_bytes();
    proof {
        encode_utf8_decode_utf8(a@);
        encode_utf8_decode_utf8(b@);
    }
    if x.len() != y.len() {
        return false;
    }
    let mut i: usize = 0;
    while i < x.len()
        invariant
            x@ == a.spec_bytes(),
            y@ == b.spec_bytes(),
            x@.len() == y@.len(),
            i <= x@.len(),
            forall|j: int| 0 <= j < i ==> x@[j] == y@[j],
        decreases x@.len() - i,
    {
        if x[i] != y[i] {
            assert(x@ != y@);
            return false;
        }
        i = i + 1;
    }
    assert(x@ =~= y@);
    true
}

/// One key of the index with its location.
pub struct IndexEntry {
    pub key: String,
    pub meta: CommandMetaData,
}

/// A map from keys to locations, kept as a list of entries with distinct keys.
pub struct Index {
    entries: Vec<IndexEntry>,
    map: Ghost<Map<Seq<char>, CommandMetaData>>,
}

impl View for Index {
    type V = Map<Seq<char>, CommandMetaData>;

    closed spec fn view(&self) -> Map<Seq<char>, CommandMetaData> {
        self.map@
    }
}

impl Index {
    /// The keys in the order in which they are visited.
    pub closed spec fn keys(&self) -> Seq<Seq<char>> {
        self.entries@.map_values(|e: IndexEntry| e.key@)
    }

    pub closed spec fn wf(&self) -> bool {
        &&& forall|i: int, j: int|
            0 <= i < j < self.entries@.len() ==> self.entries@[i].key@ != self.entries@[j].key@
        &&& forall|i: int|
            0 <= i < self.entries@.len() ==> {
                &&& self.map@.contains_key(#[trigger] self.entries@[i].key@)
                &&& self.map@[self.entries@[i].key@] == self.entries@[i].meta
            }
        &&& forall|k: Seq<char>|
            #[trigger] self.map@.contains_key(k) ==> exists|i: int|
                0 <= i < self.entries@.len() && #[trigger] self.entries@[i].key@ == k
    }

    /// The visiting order lists each key of the map exactly once.
    pub proof fn lemma_keys(&self)
        requires
            self.wf(),
        ensures
            forall|i: int, j: int|
                0 <= i < j < self.keys().len() ==> self.keys()[i] != self.keys()[j],
            forall|i: int|
                0 <= i < self.keys().len() ==> self@.contains_key(#[trigger] self.keys()[i]),
            forall|k: Seq<char>|
                #[trigger] self@.contains_key(k) ==> exists|i: int|
                    0 <= i < self.keys().len() && #[trigger] self.keys()[i] == k,
    {
        assert forall|k: Seq<char>| #[trigger] self@.contains_key(k) implies exists|i: int|
            0 <= i < self.keys().len() && #[trigger] self.keys()[i] == k by {
            let i = choose|i: int| 0 <= i < self.entries@.len() && #[trigger] self.entries@[i].key@ == k;
            assert(self.keys()[i] == k);
        }
    }

    /// An empty index.
    pub fn new() -> (r: Index)
        ensures
            r.wf(),
            r@ == Map::<Seq<char>, CommandMetaData>::empty(),
            r.keys().len() == 0,
    {
        Index { entries: Vec::new(), map: Ghost(Map::empty()) }
    }

    /// The number of keys.
    pub fn len(&self) -> (r: usize)
        requires
            self.wf(),
        ensures
            r == self.keys().len(),
    {
        self.entries.len()
    }

    /// The key visited at position `i`.
    pub fn key_at(&self, i: usize) -> (r: &String)
        requires
            i < self.keys().len(),
        ensures
            r@ == self.keys()[i as int],
    {
        &self.entries[i].key
    }

    /// The location of the key visited at position `i`.
    pub fn meta_at(&self, i: usize) -> (r: CommandMetaData)
        requires
            self.wf(),
            i < self.keys().len(),
        ensures
            r == self@[self.keys()[i as int]],
    {
        self.entries[i].meta
    }

    /// Points the key visited at position `i` to a new location.
    pub fn set_meta_at(&mut self, i: usize, meta: CommandMetaData)
        requires
            old(self).wf(),
            i < old(self).keys().len(),
        ensures
            final(self).wf(),
            final(self).keys() == old(self).keys(),
            final(self)@ == old(self)@.insert(old(self).keys()[i as int], meta),
    {
        let ghost k = self.entries@[i as int].key@;
        let ghost old_entries = self.entries@;
        let mut entry = self.entries.remove(i);
        entry.meta = meta;
        self.entries.insert(i, entry);
        self.map = Ghost(self.map@.insert(k, meta));
        assert(self.entries@ =~= old_entries.update(i as int, self.entries@[i as int]));
        assert(self.keys() =~= old(self).keys());
        assert forall|kk: Seq<char>| #[trigger] self.map@.contains_key(kk) implies exists|j: int|
            0 <= j < self.entries@.len() && #[trigger] self.entries@[j].key@ == kk by {
            if kk != k {
                let j = choose|j: int| 0 <= j < old_entries.len() && #[trigger] old_entries[j].key@ == kk;
                assert(self.entries@[j].key@ == kk);
            } else {
                assert(self.entries@[i as int].key@ == kk);
            }
        }
    }

    fn find(&self, key: &str) -> (r: Option<usize>)
        requires
            self.wf(),
        ensures
            match r {
                Some(i) => i < self.entries@.len() && self.entries@[i as int].key@ == key@,
                None => !self@.contains_key(key@),
            },
    {
        let mut i: usize = 0;
        while i < self.entries.len()
            invariant
                self.wf(),
                i <= self.entries@.len(),
                forall|j: int| 0 <= j < i ==> self.entries@[j].key@ != key@,
            decreases self.entries@.len() - i,
        {
            if str_eq(self.entries[i].key.as_str(), key) {
                return Some(i);
            }
            i = i + 1;
        }
        None
    }

    /// The location recorded for `key`, if any.
    pub fn get(&self, key: &str) -> (r: Option<CommandMetaData>)
        requires
            self.wf(),
        ensures
            r == (if self@.contains_key(key@) {
                Some(self@[key@])
            } else {
                None
            }),
    {
        match self.find(key) {
            Some(i) => Some(self.entries[i].meta),
            None => None,
        }
    }

    /// Records `meta` for `key`; returns the location it replaces.
    pub fn insert(&mut self, key: String, meta: CommandMetaData) -> (r: Option<CommandMetaData>)
        requires
            old(self).wf(),
        ensures
            final(self).wf(),
            final(self)@ == old(self)@.insert(key@, meta),
            r == (if old(self)@.contains_key(key@) {
                Some(old(self)@[key@])
            } else {
                None
            }),
            old(self)@.contains_key(key@) ==> final(self).keys() == old(self).keys(),
            !old(self)@.contains_key(key@) ==> final(self).keys() == old(self).keys().push(key@),
    {
        match self.find(key.as_str()) {
            Some(i) => {
                let prev = self.entries[i].meta;
                self.set_meta_at(i, meta);
                Some(prev)
            },
            None => {
                let ghost k = key@;
                let ghost old_entries = self.entries@;
                self.entries.push(IndexEntry { key, meta });
                self.map = Ghost(self.map@.insert(k, meta));
                assert(self.keys() =~= old(self).keys().push(k));
                assert forall|kk: Seq<char>| #[trigger] self.map@.contains_key(kk) implies exists|j: int|
                    0 <= j < self.entries@.len() && #[trigger] self.entries@[j].key@ == kk by {
                    if kk != k {
                        let j = choose|j: int| 0 <= j < old_entries.len() && #[trigger] old_entries[j].key@ == kk;
                        assert(self.entries@[j].key@ == kk);
                    } else {
                        assert(self.entries@[old_entries.len() as int].key@ == kk);
                    }
                }
                None
            },
        }
    }

    /// Drops `key`; returns the location it had.
    pub fn remove(&mut self, key: &str) -> (r: Option<CommandMetaData>)
        requires
            old(self).wf(),
        ensures
            final(self).wf(),
            final(self)@ == old(self)@.remove(key@),
            r == (if old(self)@.contains_key(key@) {
                Some(old(self)@[key@])
            } else {
                None
            }),
            !old(self)@.contains_key(key@) ==> final(self).keys() == old(self).keys(),
            old(self)@.contains_key(key@) ==> exists|i: int|
                0 <= i < old(self).keys().len() && old(self).keys()[i] == key@ && final(self).keys()
                    == old(self).keys().remove(i),
    {
        match self.find(key) {
            Some(i) => {
                let ghost k = key@;
                let ghost old_entries = self.entries@;
                let entry = self.entries.remove(i);
                self.map = Ghost(self.map@.remove(k));
                assert(self.entries@ =~= old_entries.remove(i as int));
                assert(self.keys() =~= old(self).keys().remove(i as int));
                assert(old(self).keys()[i as int] == key@);
                assert forall|j: int| 0 <= j < self.entries@.len() implies {
                    &&& self.map@.contains_key(#[trigger] self.entries@[j].key@)
                    &&& self.map@[self.entries@[j].key@] == self.entries@[j].meta
                } by {
                    let oj = if j < i { j } else { j + 1 };
                    assert(self.entries@[j] == old_entries[oj]);
                    assert(old_entries[oj].key@ != k);
                }
                assert forall|kk: Seq<char>| #[trigger] self.map@.contains_key(kk) implies exists|j: int|
                    0 <= j < self.entries@.len() && #[trigger] self.entries@[j].key@ == kk by {
                    let oj = choose|j: int| 0 <= j < old_entries.len() && #[trigger] old_entries[j].key@ == kk;
                    if oj < i {
                        assert(self.entries@[oj].key@ == kk);
                    } else {
                        assert(oj != i);
                        assert(self.entries@[oj - 1].key@ == kk);
                    }
                }
                Some(entry.meta)
            },
            None => None,
        }
    }
}

} // verus!
