//! The persisted dataset: a map from path to per-path key-value map.

use crate::kvmap::KvMap;
use crate::kvmap::lemma_map_of_pairs_contains;
use crate::kvmap::lemma_map_of_pairs_get;
use crate::kvmap::lemma_map_of_pairs_push;
use crate::kvmap::lemma_map_of_pairs_update;
use crate::kvmap::map_of_pairs;
use crate::kvmap::unique_keys;
use crate::strings::str_matches;
use vstd::prelude::*;

verus! {

/// Path-keyed store entries, kept in file order with unique paths.
pub struct StoreData {
    pub entries: Vec<(String, KvMap)>,
}

impl StoreData {
    /// The entries as mathematical values, with per-path pair lists.
    pub open spec fn seq(&self) -> Seq<(Seq<char>, Seq<(Seq<char>, Seq<char>)>)> {
        self.entries@.map_values(|e: (String, KvMap)| (e.0@, e.1.seq()))
    }

    /// The entries with each per-path list read as a map.
    pub open spec fn pair_maps(&self) -> Seq<(Seq<char>, Map<Seq<char>, Seq<char>>)> {
        self.entries@.map_values(|e: (String, KvMap)| (e.0@, e.1.as_map()))
    }

    /// The nested mapping the store denotes.
    pub open spec fn as_map(&self) -> Map<Seq<char>, Map<Seq<char>, Seq<char>>> {
        map_of_pairs(self.pair_maps())
    }

    /// Well-formed: paths unique, every per-path map well-formed.
    pub open spec fn wf(&self) -> bool {
        &&& unique_keys(self.pair_maps())
        &&& forall|i: int| 0 <= i < self.entries@.len() ==> (#[trigger] self.entries@[i]).1.wf()
    }

    pub fn new() -> (r: StoreData)
        ensures
            r.wf(),
            r.seq() == Seq::<(Seq<char>, Seq<(Seq<char>, Seq<char>)>)>::empty(),
            r.as_map() == Map::<Seq<char>, Map<Seq<char>, Seq<char>>>::empty(),
    {
        let r = StoreData { entries: Vec::new() };
        proof {
            assert(r.seq() =~= Seq::<(Seq<char>, Seq<(Seq<char>, Seq<char>)>)>::empty());
            assert(r.pair_maps() =~= Seq::<(Seq<char>, Map<Seq<char>, Seq<char>>)>::empty());
        }
        r
    }

    /// The per-path map stored for `path`, if any.
    pub fn get_map(&self, path: &String) -> (r: Option<&KvMap>)
        requires
            self.wf(),
        ensures
            match r {
                Some(m) => self.as_map().contains_key(path@) && self.as_map()[path@]
                    == m.as_map() && m.wf(),
                None => !self.as_map().contains_key(path@),
            },
    {
        let n = self.entries.len();
        let mut i: usize = 0;
        while i < n
            invariant
                self.wf(),
                i <= n,
                n == self.entries@.len(),
                forall|j: int| 0 <= j < i ==> self.pair_maps()[j].0 != path@,
            decreases n - i,
        {
            if str_matches(&self.entries[i].0, path.as_str()) {
                proof {
                    lemma_map_of_pairs_get(self.pair_maps(), i as int);
                }
                return Some(&self.entries[i].1);
            }
            i = i + 1;
        }
        proof {
            lemma_map_of_pairs_contains(self.pair_maps(), path@);
        }
        None
    }

    /// Inserts or overwrites `key` in the per-path map of `path` itself,
    /// creating that path's entry when absent; no other path changes.
    pub fn set(&mut self, path: &String, key: String, value: String)
        requires
            old(self).wf(),
        ensures
            final(self).wf(),
            final(self).as_map() == old(self).as_map().insert(
                path@,
                (if old(self).as_map().contains_key(path@) {
                    old(self).as_map()[path@]
                } else {
                    Map::<Seq<char>, Seq<char>>::empty()
                }).insert(key@, value@),
            ),
    {
        let n = self.entries.len();
        let mut i: usize = 0;
        while i < n
            invariant
                self.wf(),
                i <= n,
                n == self.entries@.len(),
                *self == *old(self),
                forall|j: int| 0 <= j < i ==> self.pair_maps()[j].0 != path@,
            decreases n - i,
        {
            if str_matches(&self.entries[i].0, path.as_str()) {
                proof {
                    lemma_map_of_pairs_get(self.pair_maps(), i as int);
                }
                let ghost prev = self.pair_maps();
                let (p0, mut m) = self.entries.remove(i);
                m.insert(key, value);
                self.entries.insert(i, (p0, m));
                proof {
                    assert(self.pair_maps() =~= prev.update(
                        i as int,
                        (prev[i as int].0, m.as_map()),
                    ));
                    lemma_map_of_pairs_update(prev, i as int, m.as_map());
                }
                return;
            }
            i = i + 1;
        }
        proof {
            lemma_map_of_pairs_contains(self.pair_maps(), path@);
        }
        let mut m = KvMap::new();
        m.insert(key, value);
        let ghost prev = self.pair_maps();
        self.entries.push((path.clone(), m));
        proof {
            assert(self.pair_maps() =~= prev.push((path@, m.as_map())));
            lemma_map_of_pairs_push(prev, path@, m.as_map());
            assert(Map::<Seq<char>, Seq<char>>::empty().insert(key@, value@) =~= m.as_map());
        }
    }

    /// Inserts or replaces the whole per-path map of `path`.
    pub fn insert_entry(&mut self, path: String, m: KvMap)
        requires
            old(self).wf(),
            m.wf(),
        ensures
            final(self).wf(),
            final(self).as_map() == old(self).as_map().insert(path@, m.as_map()),
    {
        let n = self.entries.len();
        let mut i: usize = 0;
        while i < n
            invariant
                self.wf(),
                m.wf(),
                i <= n,
                n == self.entries@.len(),
                *self == *old(self),
                forall|j: int| 0 <= j < i ==> self.pair_maps()[j].0 != path@,
            decreases n - i,
        {
            if str_matches(&self.entries[i].0, path.as_str()) {
                let ghost prev = self.pair_maps();
                let ghost prev_entries = self.entries@;
                let ghost newpair = (path, m);
                let _ = self.entries.remove(i);
                self.entries.insert(i, (path, m));
                proof {
                    assert(self.entries@ =~= prev_entries.update(i as int, newpair));
                    assert(self.entries@[i as int] == newpair);
                    assert(newpair.1.wf());
                    assert(forall|j: int| 0 <= j < self.entries@.len() && j != i ==> self.entries@[j]
                        == prev_entries[j]);
                    assert(self.pair_maps() =~= prev.update(
                        i as int,
                        (prev[i as int].0, m.as_map()),
                    ));
                    lemma_map_of_pairs_update(prev, i as int, m.as_map());
                    assert(self.entries@[i as int].1.wf());
                    assert(forall|j: int| 0 <= j < self.entries@.len() ==> (
                    #[trigger] self.entries@[j]).1.wf());
                }
                return;
            }
            i = i + 1;
        }
        proof {
            lemma_map_of_pairs_contains(self.pair_maps(), path@);
        }
        let ghost prev = self.pair_maps();
        self.entries.push((path, m));
        proof {
            assert(self.pair_maps() =~= prev.push((path@, m.as_map())));
            lemma_map_of_pairs_push(prev, path@, m.as_map());
        }
    }

    /// Deletes `key` from the per-path map of `path` itself, when both the
    /// path entry and the key exist; a no-op otherwise.
    pub fn remove_in(&mut self, path: &String, key: &str)
        requires
            old(self).wf(),
        ensures
            final(self).wf(),
            final(self).as_map() == (if old(self).as_map().contains_key(path@) {
                old(self).as_map().insert(path@, old(self).as_map()[path@].remove(key@))
            } else {
                old(self).as_map()
            }),
    {
        let n = self.entries.len();
        let mut i: usize = 0;
        while i < n
            invariant
                self.wf(),
                i <= n,
                n == self.entries@.len(),
                *self == *old(self),
                forall|j: int| 0 <= j < i ==> self.pair_maps()[j].0 != path@,
            decreases n - i,
        {
            if str_matches(&self.entries[i].0, path.as_str()) {
                proof {
                    lemma_map_of_pairs_get(self.pair_maps(), i as int);
                }
                let ghost prev = self.pair_maps();
                let (p0, mut m) = self.entries.remove(i);
                m.remove(key);
                self.entries.insert(i, (p0, m));
                proof {
                    assert(self.pair_maps() =~= prev.update(
                        i as int,
                        (prev[i as int].0, m.as_map()),
                    ));
                    lemma_map_of_pairs_update(prev, i as int, m.as_map());
                }
                return;
            }
            i = i + 1;
        }
        proof {
            lemma_map_of_pairs_contains(self.pair_maps(), path@);
        }
    }
}

} // verus!
