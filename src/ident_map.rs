//! Maps keyed by identifiers, kept as association lists with unique keys.

use vstd::prelude::*;

verus! {

/// A map from identifiers to values. Inserting under an identifier that is
/// present replaces its value.
#[derive(Debug)]
pub struct IdentMap<V> {
    entries: Vec<(String, V)>,
}

impl<V: View> View for IdentMap<V> {
    type V = Map<Seq<char>, V::V>;

    closed spec fn view(&self) -> Map<Seq<char>, V::V> {
        Map::new(
            |k: Seq<char>| exists|i: int| 0 <= i < self.entries@.len() && self.entries@[i].0@ == k,
            |k: Seq<char>|
                self.entries@[choose|i: int|
                    0 <= i < self.entries@.len() && self.entries@[i].0@ == k].1@,
        )
    }
}

impl<V> IdentMap<V> {
    closed spec fn keys_unique(&self) -> bool {
        forall|i: int, j: int|
            0 <= i < j < self.entries@.len() ==> self.entries@[i].0@ != self.entries@[j].0@
    }

    #[verifier::type_invariant]
    closed spec fn inv(&self) -> bool {
        self.keys_unique()
    }
}

impl<V: View> IdentMap<V> {
    proof fn lemma_view_at(&self, i: int)
        requires
            self.keys_unique(),
            0 <= i < self.entries@.len(),
        ensures
            self@.contains_key(self.entries@[i].0@),
            self@[self.entries@[i].0@] == self.entries@[i].1@,
    {
        let k = self.entries@[i].0@;
        assert(exists|j: int| 0 <= j < self.entries@.len() && self.entries@[j].0@ == k);
        let j = choose|j: int| 0 <= j < self.entries@.len() && self.entries@[j].0@ == k;
        assert(i == j);
    }

    /// An empty map.
    pub fn new() -> (r: Self)
        ensures
            r@ == Map::<Seq<char>, V::V>::empty(),
    {
        let r = IdentMap { entries: Vec::new() };
        assert(r@ =~= Map::<Seq<char>, V::V>::empty());
        r
    }

    /// The number of identifiers mapped.
    pub fn len(&self) -> (r: usize)
        ensures
            r == self@.dom().len(),
    {
        proof {
            use_type_invariant(self);
            self.lemma_len();
        }
        self.entries.len()
    }

    proof fn lemma_len(&self)
        requires
            self.keys_unique(),
        ensures
            self@.dom().len() == self.entries@.len(),
        decreases self.entries@.len(),
    {
        let n = self.entries@.len();
        let keys = Seq::new(n, |i: int| self.entries@[i].0@);
        assert forall|k: Seq<char>| self@.dom().contains(k) <==> keys.to_set().contains(k) by {
            if self@.dom().contains(k) {
                let i = choose|i: int| 0 <= i < n && self.entries@[i].0@ == k;
                assert(keys[i] == k);
            }
            if keys.to_set().contains(k) {
                let i = choose|i: int| 0 <= i < keys.len() && keys[i] == k;
                assert(self.entries@[i].0@ == k);
            }
        }
        assert(self@.dom() =~= keys.to_set());
        assert(keys.no_duplicates());
        keys.unique_seq_to_set();
    }

    /// The position of `k` among the entries, if it is mapped.
    fn find(&self, k: &String) -> (r: Option<usize>)
        ensures
            match r {
                Some(i) => i < self.entries@.len() && self.entries@[i as int].0@ == k@,
                None => !self@.contains_key(k@),
            },
    {
        let mut i: usize = 0;
        while i < self.entries.len()
            invariant
                i <= self.entries@.len(),
                forall|j: int| 0 <= j < i ==> self.entries@[j].0@ != k@,
            decreases self.entries@.len() - i,
        {
            if self.entries[i].0 == *k {
                return Some(i);
            }
            i = i + 1;
        }
        None
    }

    /// The value mapped to `k`, if any.
    pub fn get(&self, k: &String) -> (r: Option<&V>)
        ensures
            match r {
                Some(v) => self@.contains_key(k@) && self@[k@] == v@,
                None => !self@.contains_key(k@),
            },
    {
        proof {
            use_type_invariant(self);
        }
        match self.find(k) {
            Some(i) => {
                proof {
                    self.lemma_view_at(i as int);
                }
                Some(&self.entries[i].1)
            },
            None => None,
        }
    }

    /// Map `k` to `v`, replacing the value it had.
    pub fn insert(&mut self, k: String, v: V)
        ensures
            final(self)@ == old(self)@.insert(k@, v@),
    {
        proof {
            use_type_invariant(&*self);
        }
        let found = self.find(&k);
        let mut taken = IdentMap { entries: Vec::new() };
        core::mem::swap(self, &mut taken);
        let IdentMap { entries: mut entries } = taken;
        match found {
            Some(i) => {
                entries.set(i, (k, v));
            },
            None => {
                entries.push((k, v));
            },
        }
        proof {
            assert forall|a: int, b: int|
                0 <= a < b < entries@.len() implies entries@[a].0@ != entries@[b].0@ by {
                if b == old(self).entries@.len() {
                    assert(old(self).entries@[a] == entries@[a]);
                }
                if found is Some && (a == found->0 || b == found->0) {
                    assert(old(self).entries@[found->0 as int].0@ == k@);
                }
            }
        }
        *self = IdentMap { entries };
        proof {
            assert(self.keys_unique());
            assert forall|key: Seq<char>|
                #![auto]
                final(self)@.contains_key(key) <==> old(self)@.insert(k@, v@).contains_key(key) by {
                if final(self)@.contains_key(key) {
                    let j = choose|j: int|
                        0 <= j < self.entries@.len() && self.entries@[j].0@ == key;
                    if key != k@ {
                        assert(old(self).entries@[j].0@ == key);
                    }
                }
                if old(self)@.contains_key(key) && key != k@ {
                    let j = choose|j: int|
                        0 <= j < old(self).entries@.len() && old(self).entries@[j].0@ == key;
                    assert(self.entries@[j].0@ == key);
                }
                if key == k@ {
                    let j = if self.entries@.len() > old(self).entries@.len() {
                        old(self).entries@.len() as int
                    } else {
                        choose|j: int|
                            0 <= j < old(self).entries@.len() && old(self).entries@[j].0@ == k@
                    };
                    assert(self.entries@[j].0@ == key);
                }
            }
            assert forall|key: Seq<char>|
                #![auto]
                final(self)@.contains_key(key) implies final(self)@[key] == old(self)@.insert(
                    k@,
                    v@,
                )[key] by {
                let j = choose|j: int| 0 <= j < self.entries@.len() && self.entries@[j].0@ == key;
                self.lemma_view_at(j);
                if key != k@ {
                    old(self).lemma_view_at(j);
                }
            }
            assert(final(self)@ =~= old(self)@.insert(k@, v@));
        }
    }

    /// Remove `k`, returning the value it had.
    pub fn remove(&mut self, k: &String) -> (r: Option<V>)
        ensures
            final(self)@ == old(self)@.remove(k@),
            match r {
                Some(v) => old(self)@.contains_key(k@) && old(self)@[k@] == v@,
                None => !old(self)@.contains_key(k@),
            },
    {
        proof {
            use_type_invariant(&*self);
        }
        match self.find(k) {
            Some(i) => {
                proof {
                    self.lemma_view_at(i as int);
                }
                let mut taken = IdentMap { entries: Vec::new() };
                core::mem::swap(self, &mut taken);
                let IdentMap { entries: mut entries } = taken;
                let (_, v) = entries.swap_remove(i);
                proof {
                    let n = old(self).entries@.len();
                    assert forall|a: int, b: int|
                        0 <= a < b < entries@.len() implies entries@[a].0@ != entries@[b].0@ by {
                        let oa = if a == i {
                            n - 1
                        } else {
                            a
                        };
                        let ob = if b == i {
                            n - 1
                        } else {
                            b
                        };
                        assert(entries@[a] == old(self).entries@[oa]);
                        assert(entries@[b] == old(self).entries@[ob]);
                    }
                }
                *self = IdentMap { entries };
                proof {
                    let n = old(self).entries@.len();
                    assert forall|a: int, b: int|
                        0 <= a < b < self.entries@.len() implies self.entries@[a].0@
                        != self.entries@[b].0@ by {
                        let oa = if a == i {
                            n - 1
                        } else {
                            a
                        };
                        let ob = if b == i {
                            n - 1
                        } else {
                            b
                        };
                        assert(self.entries@[a] == old(self).entries@[oa]);
                        assert(self.entries@[b] == old(self).entries@[ob]);
                    }
                    assert(self.keys_unique());
                    assert forall|key: Seq<char>|
                        #![auto]
                        final(self)@.contains_key(key) <==> old(self)@.remove(k@).contains_key(
                            key,
                        ) by {
                        if final(self)@.contains_key(key) {
                            let j = choose|j: int|
                                0 <= j < self.entries@.len() && self.entries@[j].0@ == key;
                            let oj = if j == i {
                                n - 1
                            } else {
                                j
                            };
                            assert(old(self).entries@[oj].0@ == key);
                            assert(oj != i);
                        }
                        if old(self)@.contains_key(key) && key != k@ {
                            let j = choose|j: int|
                                0 <= j < old(self).entries@.len() && old(self).entries@[j].0@
                                    == key;
                            let nj = if j == n - 1 {
                                i as int
                            } else {
                                j
                            };
                            assert(self.entries@[nj].0@ == key);
                        }
                    }
                    assert forall|key: Seq<char>|
                        #![auto]
                        final(self)@.contains_key(key) implies final(self)@[key] == old(
                            self,
                        )@.remove(k@)[key] by {
                        let j = choose|j: int|
                            0 <= j < self.entries@.len() && self.entries@[j].0@ == key;
                        let oj = if j == i {
                            n - 1
                        } else {
                            j
                        };
                        self.lemma_view_at(j);
                        assert(old(self).entries@[oj] == self.entries@[j]);
                        old(self).lemma_view_at(oj);
                    }
                    assert(final(self)@ =~= old(self)@.remove(k@));
                }
                Some(v)
            },
            None => {
                proof {
                    assert(old(self)@.remove(k@) =~= old(self)@);
                }
                None
            },
        }
    }

    /// The identifier and value of the `i`-th entry, in insertion order up
    /// to removals.
    pub fn entry_at(&self, i: usize) -> (r: (&String, &V))
        requires
            i < self@.dom().len(),
        ensures
            self@.contains_key(r.0@),
            self@[r.0@] == r.1@,
    {
        proof {
            use_type_invariant(self);
            self.lemma_len();
            self.lemma_view_at(i as int);
        }
        (&self.entries[i].0, &self.entries[i].1)
    }
}

impl IdentMap<String> {
    /// Whether every identifier mapped here is mapped in `other` to the same content.
    fn covered_by(&self, other: &IdentMap<String>) -> (r: bool)
        ensures
            r == forall|k: Seq<char>|
                #[trigger] self@.contains_key(k) ==> other@.contains_key(k) && self@[k] == other@[k],
    {
        proof {
            use_type_invariant(self);
        }
        let mut i: usize = 0;
        while i < self.entries.len()
            invariant
                self.keys_unique(),
                i <= self.entries@.len(),
                forall|j: int|
                    0 <= j < i ==> other@.contains_key(#[trigger] self.entries@[j].0@)
                        && self@[self.entries@[j].0@] == other@[self.entries@[j].0@],
            decreases self.entries@.len() - i,
        {
            proof {
                self.lemma_view_at(i as int);
            }
            match other.get(&self.entries[i].0) {
                Some(v) => {
                    if *v != self.entries[i].1 {
                        return false;
                    }
                },
                None => {
                    return false;
                },
            }
            i = i + 1;
        }
        proof {
            assert forall|k: Seq<char>| self@.contains_key(k) implies other@.contains_key(k)
                && self@[k] == other@[k] by {
                let j = choose|j: int| 0 <= j < self.entries@.len() && self.entries@[j].0@ == k;
                assert(other@.contains_key(self.entries@[j].0@));
            }
        }
        true
    }
}

impl PartialEq for IdentMap<String> {
    /// Equal when both map the same identifiers to the same content.
    fn eq(&self, other: &IdentMap<String>) -> (r: bool)
        ensures
            r == (self@ == other@),
    {
        let a = self.covered_by(other);
        let b = other.covered_by(self);
        proof {
            if a && b {
                assert forall|k: Seq<char>| #[trigger] self@.contains_key(k) implies other@.contains_key(k)
                    && self@[k] == other@[k] by {
                }
                assert forall|k: Seq<char>| #[trigger] other@.contains_key(k) implies self@.contains_key(k) by {
                }
                assert(self@ =~= other@);
            }
        }
        let r = a && b;
        r
    }
}

impl vstd::std_specs::cmp::PartialEqSpecImpl for IdentMap<String> {
    open spec fn obeys_eq_spec() -> bool {
        true
    }

    open spec fn eq_spec(&self, other: &IdentMap<String>) -> bool {
        self@ == other@
    }
}

} // verus!
