//! An association-list map from strings to values, with unique keys.
//!
//! The store keeps its data in insertion order (the persisted file lists
//! entries in a stable order), so the executable representation is a
//! vector of pairs; the mathematical meaning of such a list is the `Map`
//! built by inserting the pairs left to right.

use vstd::prelude::*;

verus! {

/// The map that a pair list denotes: later pairs override earlier ones.
pub open spec fn map_of_pairs<V>(ps: Seq<(Seq<char>, V)>) -> Map<Seq<char>, V>
    decreases ps.len(),
{
    if ps.len() == 0 {
        Map::empty()
    } else {
        map_of_pairs(ps.drop_last()).insert(ps.last().0, ps.last().1)
    }
}

/// No key appears twice in the list.
pub open spec fn unique_keys<V>(ps: Seq<(Seq<char>, V)>) -> bool {
    forall|i: int, j: int| 0 <= i < j < ps.len() ==> ps[i].0 != ps[j].0
}

pub proof fn lemma_map_of_pairs_contains<V>(ps: Seq<(Seq<char>, V)>, k: Seq<char>)
    ensures
        map_of_pairs(ps).contains_key(k) <==> (exists|i: int| 0 <= i < ps.len() && ps[i].0 == k),
    decreases ps.len(),
{
    if ps.len() > 0 {
        lemma_map_of_pairs_contains(ps.drop_last(), k);
        if map_of_pairs(ps).contains_key(k) {
            if ps.last().0 == k {
                assert(ps[ps.len() - 1].0 == k);
            } else {
                let i = choose|i: int| 0 <= i < ps.len() - 1 && ps.drop_last()[i].0 == k;
                assert(ps[i].0 == k);
            }
        }
        if exists|i: int| 0 <= i < ps.len() && ps[i].0 == k {
            let i = choose|i: int| 0 <= i < ps.len() && ps[i].0 == k;
            if i < ps.len() - 1 {
                assert(ps.drop_last()[i].0 == k);
            }
        }
    }
}

pub proof fn lemma_map_of_pairs_get<V>(ps: Seq<(Seq<char>, V)>, i: int)
    requires
        unique_keys(ps),
        0 <= i < ps.len(),
    ensures
        map_of_pairs(ps).contains_key(ps[i].0),
        map_of_pairs(ps)[ps[i].0] == ps[i].1,
    decreases ps.len(),
{
    if i == ps.len() - 1 {
    } else {
        assert(unique_keys(ps.drop_last()));
        assert(ps.drop_last()[i] == ps[i]);
        lemma_map_of_pairs_get(ps.drop_last(), i);
        assert(ps[i].0 != ps.last().0);
    }
}

pub proof fn lemma_map_of_pairs_update<V>(ps: Seq<(Seq<char>, V)>, i: int, v: V)
    requires
        unique_keys(ps),
        0 <= i < ps.len(),
    ensures
        unique_keys(ps.update(i, (ps[i].0, v))),
        map_of_pairs(ps.update(i, (ps[i].0, v))) == map_of_pairs(ps).insert(ps[i].0, v),
    decreases ps.len(),
{
    let qs = ps.update(i, (ps[i].0, v));
    assert(forall|m: int| 0 <= m < ps.len() ==> qs[m].0 == ps[m].0);
    if i == ps.len() - 1 {
        assert(qs.drop_last() =~= ps.drop_last());
        assert(map_of_pairs(qs) == map_of_pairs(ps.drop_last()).insert(ps[i].0, v));
        assert(map_of_pairs(ps.drop_last()).insert(ps.last().0, ps.last().1).insert(ps[i].0, v)
            =~= map_of_pairs(ps.drop_last()).insert(ps[i].0, v));
    } else {
        assert(unique_keys(ps.drop_last()));
        assert(ps.drop_last()[i] == ps[i]);
        lemma_map_of_pairs_update(ps.drop_last(), i, v);
        assert(qs.drop_last() =~= ps.drop_last().update(i, (ps[i].0, v)));
        assert(ps[i].0 != ps.last().0);
        assert(map_of_pairs(ps.drop_last()).insert(ps[i].0, v).insert(ps.last().0, ps.last().1)
            =~= map_of_pairs(ps.drop_last()).insert(ps.last().0, ps.last().1).insert(ps[i].0, v));
    }
}

pub proof fn lemma_map_of_pairs_push<V>(ps: Seq<(Seq<char>, V)>, k: Seq<char>, v: V)
    ensures
        map_of_pairs(ps.push((k, v))) == map_of_pairs(ps).insert(k, v),
{
    assert(ps.push((k, v)).drop_last() =~= ps);
}

pub proof fn lemma_map_of_pairs_remove<V>(ps: Seq<(Seq<char>, V)>, i: int)
    requires
        unique_keys(ps),
        0 <= i < ps.len(),
    ensures
        unique_keys(ps.remove(i)),
        map_of_pairs(ps.remove(i)) == map_of_pairs(ps).remove(ps[i].0),
    decreases ps.len(),
{
    let qs = ps.remove(i);
    if i == ps.len() - 1 {
        assert(qs =~= ps.drop_last());
        lemma_map_of_pairs_contains(ps.drop_last(), ps[i].0);
        assert(forall|m: int| 0 <= m < ps.len() - 1 ==> ps.drop_last()[m].0 != ps[i].0);
        assert(!map_of_pairs(ps.drop_last()).contains_key(ps[i].0));
        assert(map_of_pairs(ps.drop_last()).insert(ps[i].0, ps[i].1).remove(ps[i].0)
            =~= map_of_pairs(ps.drop_last()));
    } else {
        assert(unique_keys(ps.drop_last()));
        assert(ps.drop_last()[i] == ps[i]);
        lemma_map_of_pairs_remove(ps.drop_last(), i);
        assert(qs.drop_last() =~= ps.drop_last().remove(i));
        assert(qs.last() == ps.last());
        assert(ps[i].0 != ps.last().0);
        assert(map_of_pairs(ps.drop_last()).remove(ps[i].0).insert(ps.last().0, ps.last().1)
            =~= map_of_pairs(ps.drop_last()).insert(ps.last().0, ps.last().1).remove(ps[i].0));
    }
}

/// Folding a concatenation overlays the right-hand pairs last.
pub proof fn lemma_map_of_pairs_concat<V>(a: Seq<(Seq<char>, V)>, b: Seq<(Seq<char>, V)>)
    ensures
        map_of_pairs(a + b) == map_of_pairs(a).union_prefer_right(map_of_pairs(b)),
    decreases b.len(),
{
    if b.len() == 0 {
        assert(a + b =~= a);
        assert(map_of_pairs(a).union_prefer_right(map_of_pairs(b)) =~= map_of_pairs(a));
    } else {
        assert((a + b).drop_last() =~= a + b.drop_last());
        lemma_map_of_pairs_concat(a, b.drop_last());
        assert((a + b).last() == b.last());
        assert(map_of_pairs(a).union_prefer_right(map_of_pairs(b.drop_last())).insert(
            b.last().0,
            b.last().1,
        ) =~= map_of_pairs(a).union_prefer_right(
            map_of_pairs(b.drop_last()).insert(b.last().0, b.last().1),
        ));
    }
}

/// Folding one leading pair onto an accumulator, then the rest.
pub proof fn lemma_map_of_pairs_cons_fold<V>(
    m0: Map<Seq<char>, V>,
    p: (Seq<char>, V),
    ps: Seq<(Seq<char>, V)>,
)
    ensures
        m0.union_prefer_right(map_of_pairs(seq![p] + ps)) == m0.insert(
            p.0,
            p.1,
        ).union_prefer_right(map_of_pairs(ps)),
{
    lemma_map_of_pairs_concat(seq![p], ps);
    reveal_with_fuel(map_of_pairs, 2);
    assert(seq![p].drop_last() =~= Seq::<(Seq<char>, V)>::empty());
    assert(seq![p].last() == p);
    assert(map_of_pairs(seq![p]) =~= Map::<Seq<char>, V>::empty().insert(p.0, p.1));
    assert(m0.union_prefer_right(
        Map::<Seq<char>, V>::empty().insert(p.0, p.1).union_prefer_right(map_of_pairs(ps)),
    ) =~= m0.insert(p.0, p.1).union_prefer_right(map_of_pairs(ps)));
}

/// A string-to-string map kept as a pair list with unique keys.
pub struct KvMap {
    pub pairs: Vec<(String, String)>,
}

impl KvMap {
    /// The pairs as mathematical values, in order.
    pub open spec fn seq(&self) -> Seq<(Seq<char>, Seq<char>)> {
        self.pairs@.map_values(|p: (String, String)| (p.0@, p.1@))
    }

    /// The mapping this list denotes.
    pub open spec fn as_map(&self) -> Map<Seq<char>, Seq<char>> {
        map_of_pairs(self.seq())
    }

    /// Well-formed: no key occurs twice.
    pub open spec fn wf(&self) -> bool {
        unique_keys(self.seq())
    }

    pub fn new() -> (r: KvMap)
        ensures
            r.wf(),
            r.seq() == Seq::<(Seq<char>, Seq<char>)>::empty(),
            r.as_map() == Map::<Seq<char>, Seq<char>>::empty(),
    {
        let r = KvMap { pairs: Vec::new() };
        proof {
            assert(r.seq() =~= Seq::<(Seq<char>, Seq<char>)>::empty());
        }
        r
    }

    pub fn len(&self) -> (n: usize)
        ensures
            n == self.seq().len(),
    {
        self.pairs.len()
    }

    /// The value stored for `key`, if any.
    pub fn get(&self, key: &str) -> (r: Option<&String>)
        requires
            self.wf(),
        ensures
            match r {
                Some(v) => self.as_map().contains_key(key@) && self.as_map()[key@] == v@,
                None => !self.as_map().contains_key(key@),
            },
    {
        let n = self.pairs.len();
        let mut i: usize = 0;
        while i < n
            invariant
                self.wf(),
                i <= n,
                n == self.pairs@.len(),
                forall|j: int| 0 <= j < i ==> self.seq()[j].0 != key@,
            decreases n - i,
        {
            if crate::strings::str_matches(&self.pairs[i].0, key) {
                proof {
                    lemma_map_of_pairs_get(self.seq(), i as int);
                }
                return Some(&self.pairs[i].1);
            }
            i = i + 1;
        }
        proof {
            lemma_map_of_pairs_contains(self.seq(), key@);
        }
        None
    }

    /// Inserts or overwrites `key`.
    pub fn insert(&mut self, key: String, value: String)
        requires
            old(self).wf(),
        ensures
            final(self).wf(),
            final(self).as_map() == old(self).as_map().insert(key@, value@),
    {
        let n = self.pairs.len();
        let mut i: usize = 0;
        while i < n
            invariant
                self.wf(),
                i <= n,
                n == self.pairs@.len(),
                *self == *old(self),
                forall|j: int| 0 <= j < i ==> self.seq()[j].0 != key@,
            decreases n - i,
        {
            if crate::strings::str_matches(&self.pairs[i].0, key.as_str()) {
                let ghost prev = self.seq();
                let (k0, _) = self.pairs.remove(i);
                self.pairs.insert(i, (k0, value));
                proof {
                    assert(self.seq() =~= prev.update(i as int, (prev[i as int].0, value@)));
                    lemma_map_of_pairs_update(prev, i as int, value@);
                }
                return;
            }
            i = i + 1;
        }
        let ghost prev = self.seq();
        self.pairs.push((key, value));
        proof {
            assert(self.seq() =~= prev.push((key@, value@)));
            lemma_map_of_pairs_push(prev, key@, value@);
            lemma_map_of_pairs_contains(prev, key@);
        }
    }

    /// Deletes `key` if present; a no-op otherwise.
    pub fn remove(&mut self, key: &str)
        requires
            old(self).wf(),
        ensures
            final(self).wf(),
            final(self).as_map() == old(self).as_map().remove(key@),
    {
        let n = self.pairs.len();
        let mut i: usize = 0;
        while i < n
            invariant
                self.wf(),
                i <= n,
                n == self.pairs@.len(),
                *self == *old(self),
                forall|j: int| 0 <= j < i ==> self.seq()[j].0 != key@,
            decreases n - i,
        {
            if crate::strings::str_matches(&self.pairs[i].0, key) {
                let ghost prev = self.seq();
                let _ = self.pairs.remove(i);
                proof {
                    assert(self.seq() =~= prev.remove(i as int));
                    lemma_map_of_pairs_remove(prev, i as int);
                }
                return;
            }
            i = i + 1;
        }
        proof {
            lemma_map_of_pairs_contains(self.seq(), key@);
            assert(self.as_map().remove(key@) =~= self.as_map());
        }
    }

    /// Overlays every pair of `other` onto `self` (`other` wins on clashes).
    pub fn extend_with(&mut self, other: &KvMap)
        requires
            old(self).wf(),
            other.wf(),
        ensures
            final(self).wf(),
            final(self).as_map() == old(self).as_map().union_prefer_right(other.as_map()),
    {
        let n = other.pairs.len();
        let mut i: usize = 0;
        proof {
            assert(old(self).as_map().union_prefer_right(
                map_of_pairs(other.seq().take(0)),
            ) =~= old(self).as_map());
        }
        while i < n
            invariant
                self.wf(),
                other.wf(),
                i <= n,
                n == other.pairs@.len(),
                self.as_map() == old(self).as_map().union_prefer_right(
                    map_of_pairs(other.seq().take(i as int)),
                ),
            decreases n - i,
        {
            let (k, v) = (other.pairs[i].0.clone(), other.pairs[i].1.clone());
            self.insert(k, v);
            proof {
                assert(other.seq().take(i + 1).drop_last() =~= other.seq().take(i as int));
                assert(map_of_pairs(other.seq().take(i + 1))
                    == map_of_pairs(other.seq().take(i as int)).insert(
                        other.seq()[i as int].0,
                        other.seq()[i as int].1,
                    ));
                assert(old(self).as_map().union_prefer_right(
                    map_of_pairs(other.seq().take(i as int)),
                ).insert(other.seq()[i as int].0, other.seq()[i as int].1)
                    =~= old(self).as_map().union_prefer_right(
                        map_of_pairs(other.seq().take(i + 1)),
                    ));
            }
            i = i + 1;
        }
        proof {
            assert(other.seq().take(n as int) =~= other.seq());
        }
    }
}

} // verus!
