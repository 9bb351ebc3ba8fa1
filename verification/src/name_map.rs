//! A map from names to values that remembers the order in which the names
//! were first inserted.

use vstd::prelude::*;

verus! {

/// An insertion-ordered map keyed by name. No name occurs twice.
#[derive(Debug)]
pub struct NameMap<V> {
    names: Vec<String>,
    values: Vec<V>,
}

impl<V> NameMap<V> {
    #[verifier::type_invariant]
    spec fn inv(self) -> bool {
        self.well_formed()
    }

    /// The two columns have one length and no name is repeated.
    pub closed spec fn well_formed(self) -> bool {
        &&& self.names@.len() == self.values@.len()
        &&& self.names().no_duplicates()
    }

    /// The names in the order of their first insertion.
    pub closed spec fn names(self) -> Seq<Seq<char>> {
        self.names.deep_view()
    }

    /// The values, in the order of `names`.
    pub closed spec fn values(self) -> Seq<V> {
        self.values@
    }

    /// The map itself: each name with its value.
    pub open spec fn view(self) -> Map<Seq<char>, V> {
        Map::new(
            |name: Seq<char>| self.names().contains(name),
            |name: Seq<char>| self.values()[self.names().index_of(name)],
        )
    }

    /// What every well-formed map satisfies.
    pub proof fn lemma_well_formed(self)
        requires
            self.well_formed(),
        ensures
            self.names().len() == self.values().len(),
            self.names().no_duplicates(),
            forall|i: int|
                0 <= i < self.names().len() ==> #[trigger] self@.contains_key(self.names()[i])
                    && self@[self.names()[i]] == self.values()[i],
    {
        assert forall|i: int| 0 <= i < self.names().len() implies #[trigger] self@.contains_key(
            self.names()[i],
        ) && self@[self.names()[i]] == self.values()[i] by {
            let j = self.names().index_of(self.names()[i]);
            assert(self.names()[j] == self.names()[i]);
        }
    }

    /// An empty map.
    pub fn new() -> (m: Self)
        ensures
            m.well_formed(),
            m.names() == Seq::<Seq<char>>::empty(),
            m.values() == Seq::<V>::empty(),
            m@ == Map::<Seq<char>, V>::empty(),
    {
        let m = NameMap { names: Vec::new(), values: Vec::new() };
        assert(m.names() =~= Seq::<Seq<char>>::empty());
        assert(m@ =~= Map::<Seq<char>, V>::empty());
        m
    }

    /// The number of names.
    pub fn len(&self) -> (n: usize)
        ensures
            self.well_formed(),
            n == self.names().len(),
            n == self.values().len(),
    {
        proof {
            use_type_invariant(self);
        }
        self.names.len()
    }

    /// Whether the map holds no name.
    pub fn is_empty(&self) -> (r: bool)
        ensures
            self.well_formed(),
            r == (self.names().len() == 0),
    {
        self.len() == 0
    }

    /// The position of `name` among the names, if it is present.
    pub fn position(&self, name: &str) -> (r: Option<usize>)
        ensures
            self.well_formed(),
            match r {
                Some(i) => i < self.names().len() && self.names()[i as int] == name@,
                None => !self.names().contains(name@),
            },
    {
        proof {
            use_type_invariant(self);
        }
        let mut i: usize = 0;
        while i < self.names.len()
            invariant
                self.well_formed(),
                i <= self.names@.len(),
                forall|k: int| 0 <= k < i ==> self.names()[k] != name@,
            decreases self.names@.len() - i,
        {
            if crate::text::same_text(self.names[i].as_str(), name) {
                return Some(i);
            }
            i += 1;
        }
        None
    }

    /// Whether `name` is present.
    pub fn contains_key(&self, name: &str) -> (r: bool)
        ensures
            self.well_formed(),
            r == self@.contains_key(name@),
    {
        self.position(name).is_some()
    }

    /// The value stored under `name`.
    pub fn get(&self, name: &str) -> (r: Option<&V>)
        ensures
            self.well_formed(),
            match r {
                Some(v) => self@.contains_key(name@) && *v == self@[name@],
                None => !self@.contains_key(name@),
            },
    {
        match self.position(name) {
            Some(i) => {
                proof {
                    use_type_invariant(self);
                    self.lemma_well_formed();
                }
                Some(&self.values[i])
            },
            None => None,
        }
    }

    /// The name at position `i`.
    pub fn name_at(&self, i: usize) -> (r: &String)
        requires
            i < self.names().len(),
        ensures
            self.well_formed(),
            r@ == self.names()[i as int],
    {
        proof {
            use_type_invariant(self);
        }
        &self.names[i]
    }

    /// The value at position `i`.
    pub fn value_at(&self, i: usize) -> (r: &V)
        requires
            i < self.names().len(),
        ensures
            self.well_formed(),
            *r == self.values()[i as int],
            self@.contains_key(self.names()[i as int]),
            *r == self@[self.names()[i as int]],
    {
        proof {
            use_type_invariant(self);
            self.lemma_well_formed();
        }
        &self.values[i]
    }

    /// Stores `value` under `name`. A name that is already present keeps its
    /// position and gets the new value; a new name goes to the end.
    pub fn insert(&mut self, name: String, value: V)
        ensures
            final(self).well_formed(),
            final(self)@ == old(self)@.insert(name@, value),
            old(self)@.contains_key(name@) ==> final(self).names() == old(self).names()
                && final(self).values() == old(self).values().update(
                old(self).names().index_of(name@),
                value,
            ),
            !old(self)@.contains_key(name@) ==> final(self).names() == old(self).names().push(name@)
                && final(self).values() == old(self).values().push(value),
    {
        let mut taken: NameMap<V> = NameMap::new();
        core::mem::swap(self, &mut taken);
        proof {
            use_type_invariant(&taken);
            taken.lemma_well_formed();
        }
        let ghost before = taken;
        let found = taken.position(name.as_str());
        let NameMap { names: mut names, values: mut values } = taken;
        match found {
            Some(i) => {
                values.set(i, value);
                let after = NameMap { names, values };
                proof {
                    assert(after.names() == before.names());
                    assert(before.names().index_of(name@) == i);
                    assert(after@ =~= before@.insert(name@, value)) by {
                        assert forall|k: Seq<char>| after@.contains_key(k) implies after@[k]
                            == before@.insert(name@, value)[k] by {
                            let j = after.names().index_of(k);
                            assert(after.names()[j] == k);
                        }
                    }
                }
                *self = after;
            },
            None => {
                let ghost key = name@;
                names.push(name);
                values.push(value);
                proof {
                    assert(names.deep_view() =~= before.names().push(key));
                    assert(!before.names().contains(key));
                    assert(names.deep_view().no_duplicates());
                }
                let after = NameMap { names, values };
                proof {
                    assert(after.names() =~= before.names().push(key));
                    assert(after@ =~= before@.insert(key, value)) by {
                        assert forall|k: Seq<char>| after@.contains_key(k) implies after@[k]
                            == before@.insert(key, value)[k] by {
                            let j = after.names().index_of(k);
                            assert(after.names()[j] == k);
                            if k != key {
                                let j0 = before.names().index_of(k);
                                assert(before.names()[j0] == k);
                                assert(after.names()[j0] == k);
                            }
                        }
                        assert forall|k: Seq<char>|
                            before@.insert(key, value).contains_key(k) implies after@.contains_key(
                            k,
                        ) by {
                            if k == key {
                                assert(after.names()[before.names().len() as int] == key);
                            } else {
                                let j0 = before.names().index_of(k);
                                assert(before.names()[j0] == k);
                                assert(after.names()[j0] == k);
                            }
                        }
                    }
                }
                *self = after;
            },
        }
    }
}

impl<V: Clone> Clone for NameMap<V> {
    fn clone(&self) -> (r: Self)
        ensures
            self.well_formed(),
            r.well_formed(),
            r.names() == self.names(),
            r.values().len() == self.values().len(),
            forall|i: int| 0 <= i < self.values().len() ==> cloned(self.values()[i], #[trigger] r.values()[i]),
    {
        proof {
            use_type_invariant(self);
        }
        let names = crate::text::clone_texts(&self.names);
        let values = self.values.clone();
        assert(names@.len() == names.deep_view().len());
        assert(self.names@.len() == self.names.deep_view().len());
        NameMap { names, values }
    }
}

impl<V> Default for NameMap<V> {
    fn default() -> (m: Self)
        ensures
            m.well_formed(),
            m.names() == Seq::<Seq<char>>::empty(),
            m@ == Map::<Seq<char>, V>::empty(),
    {
        NameMap::new()
    }
}

} // verus!
