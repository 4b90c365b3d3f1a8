use vstd::prelude::*;

verus! {

/// A map from strings to values that keeps its entries in the order in which
/// their keys came in. No key occurs twice.
#[derive(Debug, Clone)]
pub struct StrMap<T> {
    keys: Vec<String>,
    values: Vec<T>,
}

impl<T> View for StrMap<T> {
    type V = Map<Seq<char>, T>;

    /// The map without the order of its entries.
    open spec fn view(&self) -> Map<Seq<char>, T> {
        Map::new(
            |k: Seq<char>| self.keys().contains(k),
            |k: Seq<char>| self.values()[self.keys().index_of(k)],
        )
    }
}

impl<T> StrMap<T> {
    /// The keys, in stored order.
    pub closed spec fn keys(&self) -> Seq<Seq<char>> {
        Seq::new(self.keys.len() as nat, |i: int| self.keys[i]@)
    }

    /// The values, each at the position of its key.
    pub closed spec fn values(&self) -> Seq<T> {
        self.values@
    }

    /// Every key has one value, and no key occurs twice.
    pub open spec fn wf(&self) -> bool {
        self.keys().len() == self.values().len() && self.keys().no_duplicates()
    }

    /// How the view reads the stored entries.
    pub proof fn lemma_view(&self)
        requires
            self.wf(),
        ensures
            forall|i: int|
                0 <= i < self.keys().len() ==> self@.contains_key(#[trigger] self.keys()[i])
                    && self@[self.keys()[i]] == self.values()[i],
            forall|k: Seq<char>| self@.contains_key(k) <==> self.keys().contains(k),
            self@.dom() == self.keys().to_set(),
            self@.dom().finite(),
            self@.dom().len() == self.keys().len(),
    {
        assert forall|i: int| 0 <= i < self.keys().len() implies self@.contains_key(
            #[trigger] self.keys()[i],
        ) && self@[self.keys()[i]] == self.values()[i] by {
            let k = self.keys()[i];
            assert(self.keys().contains(k));
            let j = self.keys().index_of(k);
            assert(self.keys()[j] == k);
        }
        assert(self@.dom() =~= self.keys().to_set());
        vstd::seq_lib::seq_to_set_is_finite(self.keys());
        self.keys().unique_seq_to_set();
    }

    /// Two maps with as many entries, one of which holds every key of the
    /// other, have the same keys.
    pub proof fn lemma_same_keys<U>(&self, other: &StrMap<U>)
        requires
            self.wf(),
            other.wf(),
            self.keys().len() == other.keys().len(),
            forall|k: int|
                0 <= k < self.keys().len() ==> other@.contains_key(#[trigger] self.keys()[k]),
        ensures
            self@.dom() == other@.dom(),
    {
        self.lemma_view();
        other.lemma_view();
        assert(self@.dom().subset_of(other@.dom())) by {
            assert forall|t: Seq<char>| self@.dom().contains(t) implies other@.dom().contains(
                t,
            ) by {
                let k = self.keys().index_of(t);
                assert(self.keys().contains(t));
                assert(self.keys()[k] == t);
            }
        }
        vstd::set_lib::lemma_subset_equality(self@.dom(), other@.dom());
    }

    /// A map without entries.
    pub fn new() -> (r: Self)
        ensures
            r.wf(),
            r.keys() == Seq::<Seq<char>>::empty(),
            r.values() == Seq::<T>::empty(),
            r@ == Map::<Seq<char>, T>::empty(),
    {
        let r = StrMap { keys: Vec::new(), values: Vec::new() };
        assert(r.keys() =~= Seq::<Seq<char>>::empty());
        assert(r@ =~= Map::<Seq<char>, T>::empty());
        r
    }

    /// The number of entries.
    pub fn len(&self) -> (n: usize)
        requires
            self.wf(),
        ensures
            n == self.keys().len(),
            n == self@.dom().len(),
    {
        proof {
            self.lemma_view();
        }
        self.keys.len()
    }

    /// The position of a key, if the map holds it.
    pub fn find(&self, key: &str) -> (r: Option<usize>)
        requires
            self.wf(),
        ensures
            match r {
                Some(i) => i < self.keys().len() && self.keys()[i as int] == key@,
                None => !self.keys().contains(key@),
            },
            r is Some <==> self@.contains_key(key@),
    {
        let mut i: usize = 0;
        while i < self.keys.len()
            invariant
                i <= self.keys.len(),
                forall|j: int| 0 <= j < i ==> self.keys()[j] != key@,
            decreases self.keys.len() - i,
        {
            if *self.keys[i].as_str() == *key {
                assert(self.keys()[i as int] == key@);
                assert(self.keys().contains(key@));
                return Some(i);
            }
            i += 1;
        }
        None
    }

    /// The key at a position.
    pub fn key_at(&self, i: usize) -> (r: &String)
        requires
            self.wf(),
            i < self.keys().len(),
        ensures
            r@ == self.keys()[i as int],
    {
        &self.keys[i]
    }

    /// The value at a position.
    pub fn value_at(&self, i: usize) -> (r: &T)
        requires
            self.wf(),
            i < self.keys().len(),
        ensures
            *r == self.values()[i as int],
            *r == self@[self.keys()[i as int]],
    {
        proof {
            self.lemma_view();
        }
        &self.values[i]
    }

    /// Puts a value in the place of the one at a position, and returns the
    /// one that was there.
    pub fn replace_value(&mut self, i: usize, value: T) -> (previous: T)
        requires
            old(self).wf(),
            i < old(self).keys().len(),
        ensures
            final(self).wf(),
            final(self).keys() == old(self).keys(),
            final(self).values() == old(self).values().update(i as int, value),
            final(self)@ == old(self)@.insert(old(self).keys()[i as int], value),
            previous == old(self).values()[i as int],
    {
        proof {
            self.lemma_view();
        }
        self.values.push(value);
        let previous = self.values.swap_remove(i);
        proof {
            assert(self.keys() =~= old(self).keys());
            assert(self.values() =~= old(self).values().update(i as int, value));
            self.lemma_view();
            let k = self.keys()[i as int];
            assert forall|q: Seq<char>| self@.contains_key(q) implies #[trigger] self@[q] == old(
                self,
            )@.insert(k, value)[q] by {
                let j = self.keys().index_of(q);
                assert(self.keys()[j] == q);
            }
            assert(self@ =~= old(self)@.insert(k, value));
        }
        previous
    }

    /// Adds an entry for a key that the map does not hold yet.
    pub fn push_new(&mut self, key: String, value: T)
        requires
            old(self).wf(),
            !old(self)@.contains_key(key@),
        ensures
            final(self).wf(),
            final(self).keys() == old(self).keys().push(key@),
            final(self).values() == old(self).values().push(value),
            final(self)@ == old(self)@.insert(key@, value),
    {
        proof {
            self.lemma_view();
        }
        self.keys.push(key);
        self.values.push(value);
        proof {
            assert(self.keys() =~= old(self).keys().push(key@));
            assert(self.keys().no_duplicates()) by {
                assert forall|a: int, b: int|
                    0 <= a < self.keys().len() && 0 <= b < self.keys().len() && a != b implies self.keys()[a]
                    != self.keys()[b] by {
                    if a < old(self).keys().len() {
                        assert(old(self).keys().contains(self.keys()[a]));
                    }
                    if b < old(self).keys().len() {
                        assert(old(self).keys().contains(self.keys()[b]));
                    }
                }
            }
            self.lemma_view();
            assert forall|q: Seq<char>| self@.contains_key(q) implies #[trigger] self@[q] == old(
                self,
            )@.insert(key@, value)[q] by {
                let j = self.keys().index_of(q);
                assert(self.keys()[j] == q);
                if j < old(self).keys().len() {
                    assert(old(self).keys()[j] == q);
                }
            }
            assert forall|q: Seq<char>| old(self)@.insert(key@, value).contains_key(
                q,
            ) implies #[trigger] self@.contains_key(q) by {
                if q == key@ {
                    assert(self.keys()[self.keys().len() - 1] == q);
                } else {
                    let j = old(self).keys().index_of(q);
                    assert(self.keys()[j] == q);
                }
            }
            assert(self@ =~= old(self)@.insert(key@, value));
        }
    }

    /// Gives a key a value: in the place of the value that the key had, which
    /// is returned, or as a new entry behind the others.
    pub fn insert(&mut self, key: String, value: T) -> (previous: Option<T>)
        requires
            old(self).wf(),
        ensures
            final(self).wf(),
            final(self)@ == old(self)@.insert(key@, value),
            match previous {
                Some(v) => old(self)@.contains_key(key@) && v == old(self)@[key@],
                None => !old(self)@.contains_key(key@),
            },
    {
        match self.find(key.as_str()) {
            Some(i) => {
                proof {
                    self.lemma_view();
                }
                Some(self.replace_value(i, value))
            },
            None => {
                self.push_new(key, value);
                None
            },
        }
    }

    /// Takes the entry at a position out of the map. The entries behind it
    /// move up by one.
    pub fn remove_at(&mut self, i: usize) -> (r: (String, T))
        requires
            old(self).wf(),
            i < old(self).keys().len(),
        ensures
            final(self).wf(),
            final(self).keys() == old(self).keys().remove(i as int),
            final(self).values() == old(self).values().remove(i as int),
            final(self)@ == old(self)@.remove(old(self).keys()[i as int]),
            r.0@ == old(self).keys()[i as int],
            r.1 == old(self).values()[i as int],
    {
        proof {
            self.lemma_view();
        }
        let key = self.keys.remove(i);
        let value = self.values.remove(i);
        proof {
            let ok = old(self).keys();
            assert(self.keys() =~= ok.remove(i as int));
            assert(self.keys().no_duplicates()) by {
                assert forall|a: int, b: int|
                    0 <= a < self.keys().len() && 0 <= b < self.keys().len() && a != b implies self.keys()[a]
                    != self.keys()[b] by {
                    let a0 = if a < i { a } else { a + 1 };
                    let b0 = if b < i { b } else { b + 1 };
                    assert(self.keys()[a] == ok[a0]);
                    assert(self.keys()[b] == ok[b0]);
                }
            }
            self.lemma_view();
            let k = ok[i as int];
            assert forall|q: Seq<char>| self@.contains_key(q) implies old(self)@.remove(
                k,
            ).contains_key(q) && #[trigger] self@[q] == old(self)@.remove(k)[q] by {
                let j = self.keys().index_of(q);
                assert(self.keys()[j] == q);
                let j0 = if j < i { j } else { j + 1 };
                assert(ok[j0] == q);
            }
            assert forall|q: Seq<char>| old(self)@.remove(k).contains_key(q) implies #[trigger] self@.contains_key(
                q,
            ) by {
                let j0 = ok.index_of(q);
                assert(ok[j0] == q);
                let j = if j0 < i { j0 } else { j0 - 1 };
                assert(self.keys()[j] == q);
            }
            assert(self@ =~= old(self)@.remove(k));
        }
        (key, value)
    }
}

} // verus!
