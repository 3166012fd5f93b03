//! A store that keeps every pair in memory and writes nothing to disk.
use vstd::prelude::*;

use crate::index::str_eq;

verus! {

struct Pair {
    key: String,
    value: String,
}

/// Key-value pairs held in memory, each key once.
pub struct KVStore {
    pairs: Vec<Pair>,
    map: Ghost<Map<Seq<char>, Seq<char>>>,
}

impl View for KVStore {
    type V = Map<Seq<char>, Seq<char>>;

    closed spec fn view(&self) -> Map<Seq<char>, Seq<char>> {
        self.map@
    }
}

impl KVStore {
    pub closed spec fn wf(&self) -> bool {
        &&& forall|i: int, j: int|
            0 <= i < j < self.pairs@.len() ==> self.pairs@[i].key@ != self.pairs@[j].key@
        &&& forall|i: int|
            0 <= i < self.pairs@.len() ==> {
                &&& self.map@.contains_key(#[trigger] self.pairs@[i].key@)
                &&& self.map@[self.pairs@[i].key@] == self.pairs@[i].value@
            }
        &&& forall|k: Seq<char>|
            #[trigger] self.map@.contains_key(k) ==> exists|i: int|
                0 <= i < self.pairs@.len() && #[trigger] self.pairs@[i].key@ == k
    }

    /// An empty store.
    pub fn new() -> (r: KVStore)
        ensures
            r.wf(),
            r@ == Map::<Seq<char>, Seq<char>>::empty(),
    {
        KVStore { pairs: Vec::new(), map: Ghost(Map::empty()) }
    }

    fn find(&self, key: &str) -> (r: Option<usize>)
        requires
            self.wf(),
        ensures
            match r {
                Some(i) => i < self.pairs@.len() && self.pairs@[i as int].key@ == key@,
                None => !self@.contains_key(key@),
            },
    {
        let mut i: usize = 0;
        while i < self.pairs.len()
            invariant
                self.wf(),
                i <= self.pairs@.len(),
                forall|j: int| 0 <= j < i ==> self.pairs@[j].key@ != key@,
            decreases self.pairs@.len() - i,
        {
            if str_eq(self.pairs[i].key.as_str(), key) {
                return Some(i);
            }
            i = i + 1;
        }
        None
    }

    /// The value of `key`, if it has one.
    pub fn get(&self, key: String) -> (r: Option<String>)
        requires
            self.wf(),
        ensures
            match r {
                Some(v) => self@.contains_key(key@) && v@ == self@[key@],
                None => !self@.contains_key(key@),
            },
    {
        match self.find(key.as_str()) {
            Some(i) => Some(self.pairs[i].value.clone()),
            None => None,
        }
    }

    /// Sets `key` to `value`, replacing any earlier value.
    pub fn set(&mut self, key: String, value: String)
        requires
            old(self).wf(),
        ensures
            final(self).wf(),
            final(self)@ == old(self)@.insert(key@, value@),
    {
        let ghost k = key@;
        let ghost v = value@;
        let ghost old_pairs = self.pairs@;
        match self.find(key.as_str()) {
            Some(i) => {
                let _ = self.pairs.remove(i);
                self.pairs.insert(i, Pair { key, value });
                self.map = Ghost(self.map@.insert(k, v));
                assert(self.pairs@ =~= old_pairs.update(i as int, self.pairs@[i as int]));
                assert forall|kk: Seq<char>| #[trigger] self.map@.contains_key(kk) implies exists|j: int|
                    0 <= j < self.pairs@.len() && #[trigger] self.pairs@[j].key@ == kk by {
                    if kk != k {
                        let j = choose|j: int| 0 <= j < old_pairs.len() && #[trigger] old_pairs[j].key@ == kk;
                        assert(self.pairs@[j].key@ == kk);
                    } else {
                        assert(self.pairs@[i as int].key@ == kk);
                    }
                }
            },
            None => {
                self.pairs.push(Pair { key, value });
                self.map = Ghost(self.map@.insert(k, v));
                assert forall|kk: Seq<char>| #[trigger] self.map@.contains_key(kk) implies exists|j: int|
                    0 <= j < self.pairs@.len() && #[trigger] self.pairs@[j].key@ == kk by {
                    if kk != k {
                        let j = choose|j: int| 0 <= j < old_pairs.len() && #[trigger] old_pairs[j].key@ == kk;
                        assert(self.pairs@[j].key@ == kk);
                    } else {
                        assert(self.pairs@[old_pairs.len() as int].key@ == kk);
                    }
                }
            },
        }
    }

    /// Drops `key`, if it is there.
    pub fn remove(&mut self, key: String)
        requires
            old(self).wf(),
        ensures
            final(self).wf(),
            final(self)@ == old(self)@.remove(key@),
    {
        match self.find(key.as_str()) {
            Some(i) => {
                let ghost k = key@;
                let ghost old_pairs = self.pairs@;
                let _ = self.pairs.remove(i);
                self.map = Ghost(self.map@.remove(k));
                assert(self.pairs@ =~= old_pairs.remove(i as int));
                assert forall|j: int| 0 <= j < self.pairs@.len() implies {
                    &&& self.map@.contains_key(#[trigger] self.pairs@[j].key@)
                    &&& self.map@[self.pairs@[j].key@] == self.pairs@[j].value@
                } by {
                    let oj = if j < i { j } else { j + 1 };
                    assert(self.pairs@[j] == old_pairs[oj]);
                    assert(old_pairs[oj].key@ != k);
                }
                assert forall|kk: Seq<char>| #[trigger] self.map@.contains_key(kk) implies exists|j: int|
                    0 <= j < self.pairs@.len() && #[trigger] self.pairs@[j].key@ == kk by {
                    let oj = choose|j: int| 0 <= j < old_pairs.len() && #[trigger] old_pairs[j].key@ == kk;
                    if oj < i {
                        assert(self.pairs@[oj].key@ == kk);
                    } else {
                        assert(oj != i);
                        assert(self.pairs@[oj - 1].key@ == kk);
                    }
                }
            },
            None => {
                assert(self.map@.remove(key@) =~= self.map@);
            },
        }
    }
}

} // verus!
