//! A map from keys to values that remembers the order in which keys came.

use vstd::prelude::*;

verus! {

/// What can be looked up.
pub trait Key: Copy {
    /// Whether two keys are the same.
    fn same(&self, other: &Self) -> (yes: bool)
        ensures
            yes == (*self == *other),
    ;
}

/// A map from keys to values.
#[derive(Debug)]
pub struct Table<K, V> {
    rows: Vec<(K, V)>,
}

impl<K: Key, V> Table<K, V> {
    /// The rows, in the order in which their keys came.
    pub closed spec fn rows(&self) -> Seq<(K, V)> {
        self.rows@
    }

    /// The keys, in the order in which they came.
    pub open spec fn keys(&self) -> Seq<K> {
        Seq::new(self.rows().len(), |i: int| self.rows()[i].0)
    }

    /// Whether no key occurs twice.
    pub open spec fn wf(&self) -> bool {
        self.keys().no_duplicates()
    }

    /// The map.
    pub open spec fn view(&self) -> Map<K, V> {
        Map::new(
            |k: K| self.keys().contains(k),
            |k: K| self.rows()[self.keys().index_of(k)].1,
        )
    }

    /// Each row is an entry of the map.
    pub proof fn lemma_row(&self, i: int)
        requires
            self.wf(),
            0 <= i < self.rows().len(),
        ensures
            self@.dom().contains(self.rows()[i].0),
            self@[self.rows()[i].0] == self.rows()[i].1,
            self.keys()[i] == self.rows()[i].0,
    {
        let k = self.rows()[i].0;
        assert(self.keys()[i] == k);
        assert(self.keys().contains(k));
        let w = self.keys().index_of(k);
        assert(self.keys()[w] == k);
    }

    /// The map has as many entries as there are rows.
    pub proof fn lemma_size(&self)
        requires
            self.wf(),
        ensures
            self@.dom().finite(),
            self@.dom().len() == self.rows().len(),
    {
        self.keys().unique_seq_to_set();
        assert(self@.dom() =~= self.keys().to_set());
    }

    /// A map without entries.
    pub fn new() -> (t: Table<K, V>)
        ensures
            t.wf(),
            t@ == Map::<K, V>::empty(),
            t.keys().len() == 0,
    {
        let t = Table { rows: Vec::new() };
        assert(t@ =~= Map::<K, V>::empty());
        t
    }

    /// The number of entries.
    pub fn len(&self) -> (n: usize)
        requires
            self.wf(),
        ensures
            n == self@.dom().len(),
            n == self.keys().len(),
            self@.dom().finite(),
    {
        proof {
            self.lemma_size();
        }
        self.rows.len()
    }

    /// The place of a key.
    pub fn find(&self, key: &K) -> (place: Option<usize>)
        requires
            self.wf(),
        ensures
            place is Some <==> self@.dom().contains(*key),
            place matches Some(i) ==> i < self.keys().len() && self.keys()[i as int] == *key,
    {
        let mut i: usize = 0;
        while i < self.rows.len()
            invariant
                i <= self.rows().len(),
                forall|k: int| 0 <= k < i ==> #[trigger] self.keys()[k] != *key,
            decreases self.rows().len() - i,
        {
            if self.rows[i].0.same(key) {
                assert(self.keys()[i as int] == *key);
                return Some(i);
            }
            i += 1;
        }
        None
    }

    /// Whether a key has an entry.
    pub fn contains(&self, key: &K) -> (yes: bool)
        requires
            self.wf(),
        ensures
            yes == self@.dom().contains(*key),
    {
        self.find(key).is_some()
    }

    /// The key at a place.
    pub fn key_at(&self, i: usize) -> (key: K)
        requires
            i < self.keys().len(),
        ensures
            key == self.keys()[i as int],
    {
        self.rows[i].0
    }

    /// The value at a place.
    pub fn at(&self, i: usize) -> (value: &V)
        requires
            self.wf(),
            i < self.keys().len(),
        ensures
            *value == self@[self.keys()[i as int]],
    {
        proof {
            self.lemma_row(i as int);
        }
        &self.rows[i].1
    }

    /// The value of a key.
    pub fn get(&self, key: &K) -> (value: Option<&V>)
        requires
            self.wf(),
        ensures
            match value {
                Some(v) => self@.dom().contains(*key) && *v == self@[*key],
                None => !self@.dom().contains(*key),
            },
    {
        match self.find(key) {
            Some(i) => Some(self.at(i)),
            None => None,
        }
    }

    /// The value at a place, to be changed.
    pub fn at_mut(&mut self, i: usize) -> (value: &mut V)
        requires
            old(self).wf(),
            i < old(self).keys().len(),
        ensures
            *value == old(self)@[old(self).keys()[i as int]],
            final(self).wf(),
            final(self).keys() == old(self).keys(),
            final(self)@ == old(self)@.insert(old(self).keys()[i as int], *final(value)),
    {
        proof {
            self.lemma_row(i as int);
            lemma_value_set(self.rows@, i as int);
        }
        &mut self.rows[i].1
    }

    /// Adds an entry for a key that has none.
    pub fn push(&mut self, key: K, value: V)
        requires
            old(self).wf(),
            !old(self)@.dom().contains(key),
        ensures
            final(self).wf(),
            final(self).keys() == old(self).keys().push(key),
            final(self)@ == old(self)@.insert(key, value),
    {
        let ghost before = *self;
        self.rows.push((key, value));
        proof {
            let n = before.rows().len() as int;
            assert(self.keys() =~= before.keys().push(key));
            assert(!before.keys().contains(key));
            assert(self.keys().no_duplicates());
            assert forall|k: K| self@.dom().contains(k) <==> before@.insert(
                key,
                value,
            ).dom().contains(k) by {
                if before.keys().contains(k) {
                    let w = before.keys().index_of(k);
                    assert(self.keys()[w] == k);
                }
                if k == key {
                    assert(self.keys()[n] == k);
                }
            }
            assert forall|k: K| self@.dom().contains(k) implies self@[k] == before@.insert(key, value)[k] by {
                if k == key {
                    self.lemma_row(n);
                } else {
                    let w = before.keys().index_of(k);
                    assert(before.keys().contains(k));
                    before.lemma_row(w);
                    self.lemma_row(w);
                }
            }
            assert(self@ =~= before@.insert(key, value));
        }
    }

    /// Removes the entry at a place.
    pub fn remove_at(&mut self, i: usize) -> (row: (K, V))
        requires
            old(self).wf(),
            i < old(self).keys().len(),
        ensures
            row.0 == old(self).keys()[i as int],
            row.1 == old(self)@[row.0],
            final(self).wf(),
            final(self).keys() == old(self).keys().remove(i as int),
            final(self)@ == old(self)@.remove(old(self).keys()[i as int]),
    {
        let ghost before = *self;
        proof {
            self.lemma_row(i as int);
        }
        let row = self.rows.remove(i);
        proof {
            let key = before.keys()[i as int];
            assert(self.keys() =~= before.keys().remove(i as int));
            assert forall|a: int, b: int|
                0 <= a < self.keys().len() && 0 <= b < self.keys().len() && a != b implies self.keys()[a]
                != self.keys()[b] by {
                let x = if a < i {
                    a
                } else {
                    a + 1
                };
                let y = if b < i {
                    b
                } else {
                    b + 1
                };
                assert(self.keys()[a] == before.keys()[x]);
                assert(self.keys()[b] == before.keys()[y]);
            }
            assert forall|k: K| self@.dom().contains(k) <==> before@.remove(key).dom().contains(k) by {
                if self.keys().contains(k) {
                    let w = self.keys().index_of(k);
                    let x = if w < i {
                        w
                    } else {
                        w + 1
                    };
                    assert(before.keys()[x] == k);
                }
                if before.keys().contains(k) && k != key {
                    let w = before.keys().index_of(k);
                    let x = if w < i {
                        w
                    } else {
                        w - 1
                    };
                    assert(self.keys()[x] == k);
                }
            }
            assert forall|k: K| self@.dom().contains(k) implies self@[k] == before@.remove(key)[k] by {
                let w = self.keys().index_of(k);
                assert(self.keys().contains(k));
                let x = if w < i {
                    w
                } else {
                    w + 1
                };
                self.lemma_row(w);
                before.lemma_row(x);
            }
            assert(self@ =~= before@.remove(key));
        }
        row
    }
}

/// Changing a value keeps the keys and changes one entry.
proof fn lemma_value_set<K: Key, V>(rows: Seq<(K, V)>, i: int)
    requires
        0 <= i < rows.len(),
        Seq::new(rows.len(), |k: int| rows[k].0).no_duplicates(),
    ensures
        forall|t: Table<K, V>, s: Table<K, V>, v: V|
            #![trigger t.rows(), s.rows().update(i, (s.rows()[i].0, v))]
            s.rows() == rows && t.rows() == s.rows().update(i, (s.rows()[i].0, v)) ==> t.keys()
                == s.keys() && t.wf() && t@ == s@.insert(s.keys()[i], v),
{
    assert forall|t: Table<K, V>, s: Table<K, V>, v: V|
        #![trigger t.rows(), s.rows().update(i, (s.rows()[i].0, v))]
        s.rows() == rows && t.rows() == s.rows().update(i, (s.rows()[i].0, v)) implies t.keys()
        == s.keys() && t.wf() && t@ == s@.insert(s.keys()[i], v) by {
        lemma_one_value_set(s, t, i, v);
    }
}

/// Changing a value keeps the keys and changes one entry.
proof fn lemma_one_value_set<K: Key, V>(s: Table<K, V>, t: Table<K, V>, i: int, v: V)
    requires
        s.wf(),
        0 <= i < s.rows().len(),
        t.rows() == s.rows().update(i, (s.rows()[i].0, v)),
    ensures
        t.keys() == s.keys(),
        t.wf(),
        t@ == s@.insert(s.keys()[i], v),
{
    assert(t.keys() =~= s.keys());
    let key = s.keys()[i];
    assert(s.keys().contains(key));
    assert forall|k: K| t@.dom().contains(k) implies t@[k] == s@.insert(key, v)[k] by {
        let w = s.keys().index_of(k);
        assert(s.keys().contains(k));
        s.lemma_row(w);
        t.lemma_row(w);
        t.lemma_row(i);
    }
    assert(t@ =~= s@.insert(key, v));
}

} // verus!
