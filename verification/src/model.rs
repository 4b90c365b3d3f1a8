use vstd::prelude::*;
use crate::codec::{
    decoded, encoded, is_field_name, is_key, key_second, lemma_encoded, lemma_key_split, pair_key,
};
use crate::text::{cleaned_seed, lowercase_seed};

verus! {

/// The table of a chain: for each context key, how often each word has
/// followed the context.
pub type Table = Map<Seq<char>, Map<Seq<char>, int>>;

/// The seed index of a chain: for each seed, the keys of the contexts that
/// end with a word of that seed.
pub type SeedIndex = Map<Seq<char>, Set<Seq<char>>>;

/// What a chain holds, without the order of its entries.
pub struct ChainModel {
    pub data: Table,
    pub meta: SeedIndex,
}

/// How often `successor` has followed the context stored under `key`.
pub open spec fn count(data: Table, key: Seq<char>, successor: Seq<char>) -> int {
    if data.contains_key(key) && data[key].contains_key(successor) {
        data[key][successor]
    } else {
        0
    }
}

/// Every stored count is positive.
pub open spec fn positive(data: Table) -> bool {
    forall|k: Seq<char>, t: Seq<char>|
        data.contains_key(k) && data[k].contains_key(t) ==> #[trigger] data[k][t] > 0
}

/// Every stored context has a successor.
pub open spec fn inhabited(data: Table) -> bool {
    forall|k: Seq<char>| #[trigger]
        data.contains_key(k) ==> exists|t: Seq<char>| data[k].contains_key(t)
}

/// The word that a key ends with: what its second part stands for.
pub open spec fn key_word(key: Seq<char>) -> Seq<char> {
    decoded(key_second(key))
}

/// Whether `seed` is a seed, not empty, of the word that the key ends with.
pub open spec fn is_seed_of(seed: Seq<char>, key: Seq<char>) -> bool {
    seed.len() > 0 && (seed == lowercase_seed(key_word(key)) || seed == cleaned_seed(
        key_word(key),
    ))
}

/// The seed index that belongs to a set of context keys: each key stands
/// under each seed of its second word, and no seed stands for nothing.
pub open spec fn seed_index(keys: Set<Seq<char>>) -> SeedIndex {
    Map::new(
        |n: Seq<char>| exists|k: Seq<char>| keys.contains(k) && is_seed_of(n, k),
        |n: Seq<char>| Set::new(|k: Seq<char>| keys.contains(k) && is_seed_of(n, k)),
    )
}

/// The successors of a context, none where the table does not hold it.
pub open spec fn successors(data: Table, key: Seq<char>) -> Map<Seq<char>, int> {
    if data.contains_key(key) {
        data[key]
    } else {
        Map::empty()
    }
}

/// The table after `successor` has followed the context under `key` once
/// more.
pub open spec fn table_add(data: Table, key: Seq<char>, successor: Seq<char>) -> Table {
    data.insert(key, successors(data, key).insert(successor, count(data, key, successor) + 1))
}

/// The table after `amount` has been taken from the count of `successor`
/// under `key`. A count that is not positive any more leaves the table, and
/// so does a context without successors. A pair that the table does not
/// hold changes nothing.
pub open spec fn table_remove(
    data: Table,
    key: Seq<char>,
    successor: Seq<char>,
    amount: int,
) -> Table {
    if data.contains_key(key) && data[key].contains_key(successor) {
        if data[key][successor] - amount > 0 {
            data.insert(key, data[key].insert(successor, data[key][successor] - amount))
        } else if data[key].remove(successor).dom() =~= Set::empty() {
            data.remove(key)
        } else {
            data.insert(key, data[key].remove(successor))
        }
    } else {
        data
    }
}

impl ChainModel {
    /// The chain that has seen nothing.
    pub open spec fn empty() -> ChainModel {
        ChainModel { data: Map::empty(), meta: Map::empty() }
    }

    /// The chain's invariant.
    pub open spec fn wf(self) -> bool {
        &&& self.data.dom().finite()
        &&& positive(self.data)
        &&& inhabited(self.data)
        &&& forall|k: Seq<char>| #[trigger]
            self.data.contains_key(k) ==> is_key(k) && self.data[k].dom().finite()
        &&& forall|k: Seq<char>, t: Seq<char>|
            self.data.contains_key(k) && #[trigger] self.data[k].contains_key(t) ==> is_field_name(
                t,
            )
        &&& self.meta == seed_index(self.data.dom())
    }

    /// The chain over a table, with the seed index that belongs to it.
    pub open spec fn over(data: Table) -> ChainModel {
        ChainModel { data, meta: seed_index(data.dom()) }
    }

    /// The chain after `third` has followed the context `(first, second)`
    /// once more.
    pub open spec fn add_triplet(
        self,
        first: Seq<char>,
        second: Seq<char>,
        third: Seq<char>,
    ) -> ChainModel {
        ChainModel::over(table_add(self.data, pair_key(first, second), encoded(third)))
    }

    /// The chain after `amount` observations of `third` behind the context
    /// `(first, second)` have been taken back.
    pub open spec fn remove_triplet(
        self,
        first: Seq<char>,
        second: Seq<char>,
        third: Seq<char>,
        amount: int,
    ) -> ChainModel {
        ChainModel::over(
            table_remove(self.data, pair_key(first, second), encoded(third), amount),
        )
    }

    /// The chain after the words `rest` have been seen behind the context
    /// `(first, second)`, and then the end of the message.
    pub open spec fn add_from(
        self,
        first: Seq<char>,
        second: Seq<char>,
        rest: Seq<Seq<char>>,
    ) -> ChainModel
        decreases rest.len(),
    {
        if rest.len() == 0 {
            self.add_triplet(first, second, Seq::empty()).add_triplet(
                second,
                Seq::empty(),
                Seq::empty(),
            )
        } else {
            self.add_triplet(first, second, rest[0]).add_from(second, rest[0], rest.drop_first())
        }
    }

    /// The chain after a message of the given words has been seen. A message
    /// without words changes nothing.
    pub open spec fn add_message(self, words: Seq<Seq<char>>) -> ChainModel {
        if words.len() == 0 {
            self
        } else {
            self.add_from(Seq::empty(), Seq::empty(), words)
        }
    }

    /// What is left of the count of `t` under `k` once the count that
    /// `other` holds for the pair has been taken from it.
    pub open spec fn left(self, other: ChainModel, k: Seq<char>, t: Seq<char>) -> int {
        if count(other.data, k, t) > 0 && count(self.data, k, t) > 0 {
            if count(self.data, k, t) - count(other.data, k, t) > 0 {
                count(self.data, k, t) - count(other.data, k, t)
            } else {
                0
            }
        } else {
            count(self.data, k, t)
        }
    }

    /// The chain after everything that `other` has seen has been taken back.
    pub open spec fn remove_chain(self, other: ChainModel) -> ChainModel {
        ChainModel::over(
            Map::new(
                |k: Seq<char>| exists|t: Seq<char>| self.left(other, k, t) > 0,
                |k: Seq<char>|
                    Map::new(
                        |t: Seq<char>| self.left(other, k, t) > 0,
                        |t: Seq<char>| self.left(other, k, t),
                    ),
            ),
        )
    }
}

/// Two tables with positive counts and no empty context are the same where
/// all their counts agree.
pub proof fn lemma_tables_equal(a: Table, b: Table)
    requires
        positive(a),
        inhabited(a),
        positive(b),
        inhabited(b),
        forall|k: Seq<char>, t: Seq<char>| #[trigger] count(a, k, t) == count(b, k, t),
    ensures
        a == b,
{
    assert forall|k: Seq<char>| a.contains_key(k) <==> b.contains_key(k) by {
        if a.contains_key(k) {
            let t = choose|t: Seq<char>| a[k].contains_key(t);
            assert(count(a, k, t) > 0);
            assert(count(b, k, t) > 0);
        }
        if b.contains_key(k) {
            let t = choose|t: Seq<char>| b[k].contains_key(t);
            assert(count(b, k, t) > 0);
            assert(count(a, k, t) > 0);
        }
    }
    assert forall|k: Seq<char>| a.contains_key(k) implies a[k] =~= b[k] by {
        assert forall|t: Seq<char>| a[k].contains_key(t) <==> b[k].contains_key(t) by {
            assert(count(a, k, t) == count(b, k, t));
            if a[k].contains_key(t) {
                assert(a[k][t] > 0);
            }
            if b[k].contains_key(t) {
                assert(b[k][t] > 0);
            }
        }
        assert forall|t: Seq<char>| a[k].contains_key(t) implies a[k][t] == b[k][t] by {
            assert(count(a, k, t) == count(b, k, t));
        }
    }
    assert(a =~= b);
}

/// The counts of a table after an observation was added.
pub proof fn lemma_table_add(data: Table, key: Seq<char>, successor: Seq<char>)
    requires
        positive(data),
        inhabited(data),
    ensures
        positive(table_add(data, key, successor)),
        inhabited(table_add(data, key, successor)),
        table_add(data, key, successor).dom() == data.dom().insert(key),
        forall|k: Seq<char>, t: Seq<char>| #[trigger]
            count(table_add(data, key, successor), k, t) == count(data, k, t) + if k == key && t
                == successor {
                1int
            } else {
                0int
            },
{
    let r = table_add(data, key, successor);
    assert(r.dom() =~= data.dom().insert(key));
    assert forall|k: Seq<char>| #[trigger] r.contains_key(k) implies exists|t: Seq<char>|
        r[k].contains_key(t) by {
        if k == key {
            assert(r[k].contains_key(successor));
        } else {
            let t = choose|t: Seq<char>| data[k].contains_key(t);
            assert(r[k].contains_key(t));
        }
    }
    assert forall|k: Seq<char>, t: Seq<char>|
        r.contains_key(k) && r[k].contains_key(t) implies #[trigger] r[k][t] > 0 by {
        if k == key && t == successor {
            if data.contains_key(k) && data[k].contains_key(t) {
                assert(data[k][t] > 0);
            }
        } else {
            assert(data[k][t] > 0);
        }
    }
}

/// The counts of a table after observations were taken back.
pub proof fn lemma_table_remove(data: Table, key: Seq<char>, successor: Seq<char>, amount: int)
    requires
        positive(data),
        inhabited(data),
    ensures
        positive(table_remove(data, key, successor, amount)),
        inhabited(table_remove(data, key, successor, amount)),
        table_remove(data, key, successor, amount).dom() == data.dom() || table_remove(
            data,
            key,
            successor,
            amount,
        ).dom() == data.dom().remove(key),
        forall|k: Seq<char>, t: Seq<char>| #[trigger]
            count(table_remove(data, key, successor, amount), k, t) == if k == key && t
                == successor && count(data, k, t) > 0 && count(data, k, t) - amount <= 0 {
                0int
            } else if k == key && t == successor && count(data, k, t) > 0 {
                count(data, k, t) - amount
            } else {
                count(data, k, t)
            },
{
    let r = table_remove(data, key, successor, amount);
    if data.contains_key(key) && data[key].contains_key(successor) {
        assert(data[key][successor] > 0);
        if data[key][successor] - amount > 0 {
            assert(r.dom() =~= data.dom());
            assert forall|k: Seq<char>| #[trigger] r.contains_key(k) implies exists|t: Seq<char>|
                r[k].contains_key(t) by {
                if k == key {
                    assert(r[k].contains_key(successor));
                } else {
                    let t = choose|t: Seq<char>| data[k].contains_key(t);
                    assert(r[k].contains_key(t));
                }
            }
            assert forall|k: Seq<char>, t: Seq<char>|
                r.contains_key(k) && r[k].contains_key(t) implies #[trigger] r[k][t] > 0 by {
                if !(k == key && t == successor) {
                    assert(data[k][t] > 0);
                }
            }
        } else if data[key].remove(successor).dom() =~= Set::empty() {
            assert(r.dom() =~= data.dom().remove(key));
            assert forall|k: Seq<char>| #[trigger] r.contains_key(k) implies exists|t: Seq<char>|
                r[k].contains_key(t) by {
                let t = choose|t: Seq<char>| data[k].contains_key(t);
                assert(r[k].contains_key(t));
            }
            assert forall|k: Seq<char>, t: Seq<char>|
                r.contains_key(k) && r[k].contains_key(t) implies #[trigger] r[k][t] > 0 by {
                assert(data[k][t] > 0);
            }
            assert forall|k: Seq<char>, t: Seq<char>| #[trigger]
                count(r, k, t) == if k == key && t == successor && count(data, k, t) > 0 && count(
                    data,
                    k,
                    t,
                ) - amount <= 0 {
                    0int
                } else if k == key && t == successor && count(data, k, t) > 0 {
                    count(data, k, t) - amount
                } else {
                    count(data, k, t)
                } by {
                if k == key && t != successor {
                    if data[key].contains_key(t) {
                        assert(data[key].remove(successor).dom().contains(t));
                    }
                }
            }
        } else {
            assert(r.dom() =~= data.dom());
            assert forall|k: Seq<char>| #[trigger] r.contains_key(k) implies exists|t: Seq<char>|
                r[k].contains_key(t) by {
                if k == key {
                    let d = data[key].remove(successor).dom();
                    assert(exists|t: Seq<char>| d.contains(t)) by {
                        if forall|t: Seq<char>| !d.contains(t) {
                            assert(d =~= Set::empty());
                        }
                    }
                    let t = choose|t: Seq<char>| d.contains(t);
                    assert(r[k].contains_key(t));
                } else {
                    let t = choose|t: Seq<char>| data[k].contains_key(t);
                    assert(r[k].contains_key(t));
                }
            }
            assert forall|k: Seq<char>, t: Seq<char>|
                r.contains_key(k) && r[k].contains_key(t) implies #[trigger] r[k][t] > 0 by {
                assert(data[k][t] > 0);
            }
        }
    } else {
        assert forall|k: Seq<char>, t: Seq<char>|
            data.contains_key(k) && data[k].contains_key(t) implies count(data, k, t) > 0 by {
            assert(data[k][t] > 0);
        }
    }
}

/// No count of a table with positive counts is negative.
pub proof fn lemma_count_not_negative(data: Table, k: Seq<char>, t: Seq<char>)
    requires
        positive(data),
    ensures
        count(data, k, t) >= 0,
        count(data, k, t) > 0 <==> data.contains_key(k) && data[k].contains_key(t),
{
    if data.contains_key(k) && data[k].contains_key(t) {
        assert(data[k][t] > 0);
    }
}

/// The counts of a chain after another chain has been taken back from it.
pub proof fn lemma_remove_chain(a: ChainModel, b: ChainModel)
    requires
        positive(a.data),
    ensures
        positive(a.remove_chain(b).data),
        inhabited(a.remove_chain(b).data),
        a.remove_chain(b).meta == seed_index(a.remove_chain(b).data.dom()),
        a.remove_chain(b).data.dom().subset_of(a.data.dom()),
        forall|k: Seq<char>, t: Seq<char>| #[trigger]
            count(a.remove_chain(b).data, k, t) == a.left(b, k, t),
{
    let r = a.remove_chain(b).data;
    assert forall|k: Seq<char>, t: Seq<char>| #[trigger] count(r, k, t) == a.left(b, k, t) by {
        lemma_count_not_negative(a.data, k, t);
        if a.left(b, k, t) > 0 {
            assert(r.contains_key(k));
        }
    }
    assert forall|k: Seq<char>, t: Seq<char>|
        r.contains_key(k) && r[k].contains_key(t) implies #[trigger] r[k][t] > 0 by {}
    assert forall|k: Seq<char>| #[trigger] r.contains_key(k) implies exists|t: Seq<char>|
        r[k].contains_key(t) by {
        let t = choose|t: Seq<char>| a.left(b, k, t) > 0;
        assert(r[k].contains_key(t));
    }
    assert forall|k: Seq<char>| r.contains_key(k) implies a.data.contains_key(k) by {
        let t = choose|t: Seq<char>| a.left(b, k, t) > 0;
        lemma_count_not_negative(a.data, k, t);
    }
}

/// What a run of words adds to the counts of a chain does not depend on
/// the chain: it is what the run adds to the empty chain.
pub proof fn lemma_add_from_counts(
    c: ChainModel,
    first: Seq<char>,
    second: Seq<char>,
    rest: Seq<Seq<char>>,
)
    requires
        positive(c.data),
        inhabited(c.data),
    ensures
        positive(c.add_from(first, second, rest).data),
        inhabited(c.add_from(first, second, rest).data),
        c.add_from(first, second, rest).meta == seed_index(
            c.add_from(first, second, rest).data.dom(),
        ),
        forall|k: Seq<char>, t: Seq<char>| #[trigger]
            count(c.add_from(first, second, rest).data, k, t) == count(c.data, k, t) + count(
                ChainModel::empty().add_from(first, second, rest).data,
                k,
                t,
            ),
    decreases rest.len(),
{
    let e = ChainModel::empty();
    let nothing = Seq::<char>::empty();
    if rest.len() == 0 {
        let c1 = c.add_triplet(first, second, nothing);
        let e1 = e.add_triplet(first, second, nothing);
        lemma_table_add(c.data, pair_key(first, second), encoded(nothing));
        lemma_table_add(e.data, pair_key(first, second), encoded(nothing));
        lemma_table_add(c1.data, pair_key(second, nothing), encoded(nothing));
        lemma_table_add(e1.data, pair_key(second, nothing), encoded(nothing));
    } else {
        let c1 = c.add_triplet(first, second, rest[0]);
        let e1 = e.add_triplet(first, second, rest[0]);
        lemma_table_add(c.data, pair_key(first, second), encoded(rest[0]));
        lemma_table_add(e.data, pair_key(first, second), encoded(rest[0]));
        lemma_add_from_counts(c1, second, rest[0], rest.drop_first());
        lemma_add_from_counts(e1, second, rest[0], rest.drop_first());
    }
}

/// A run of words adds to no count more than it has words, and one more
/// for the end of the message.
pub proof fn lemma_add_from_bound(
    c: ChainModel,
    first: Seq<char>,
    second: Seq<char>,
    rest: Seq<Seq<char>>,
)
    requires
        positive(c.data),
        inhabited(c.data),
    ensures
        forall|k: Seq<char>, t: Seq<char>| #[trigger]
            count(c.add_from(first, second, rest).data, k, t) <= count(c.data, k, t) + rest.len()
                + 2,
    decreases rest.len(),
{
    let nothing = Seq::<char>::empty();
    let r = c.add_from(first, second, rest);
    if rest.len() == 0 {
        let c1 = c.add_triplet(first, second, nothing);
        lemma_table_add(c.data, pair_key(first, second), encoded(nothing));
        lemma_table_add(c1.data, pair_key(second, nothing), encoded(nothing));
        assert forall|k: Seq<char>, t: Seq<char>| #[trigger]
            count(r.data, k, t) <= count(c.data, k, t) + rest.len() + 2 by {
            assert(count(c1.data, k, t) <= count(c.data, k, t) + 1);
        }
    } else {
        let c1 = c.add_triplet(first, second, rest[0]);
        lemma_table_add(c.data, pair_key(first, second), encoded(rest[0]));
        lemma_add_from_bound(c1, second, rest[0], rest.drop_first());
        assert forall|k: Seq<char>, t: Seq<char>| #[trigger]
            count(r.data, k, t) <= count(c.data, k, t) + rest.len() + 2 by {
            assert(count(c1.data, k, t) <= count(c.data, k, t) + 1);
            assert(count(c1.add_from(second, rest[0], rest.drop_first()).data, k, t) <= count(
                c1.data,
                k,
                t,
            ) + rest.drop_first().len() + 2);
        }
    }
}

/// The chain that has seen nothing is well-formed.
pub proof fn lemma_empty_wf()
    ensures
        ChainModel::empty().wf(),
{
    let e = ChainModel::empty();
    assert(e.data.dom() =~= Set::<Seq<char>>::empty());
    assert(seed_index(Set::<Seq<char>>::empty()) =~= Map::<Seq<char>, Set<Seq<char>>>::empty());
}

/// A message adds to no count more than it has words, and two more.
pub proof fn lemma_add_message_counts(c: ChainModel, words: Seq<Seq<char>>)
    requires
        c.wf(),
    ensures
        forall|k: Seq<char>, t: Seq<char>| #[trigger]
            count(c.add_message(words).data, k, t) <= count(c.data, k, t) + words.len() + 2,
{
    if words.len() > 0 {
        lemma_add_from_bound(c, Seq::empty(), Seq::empty(), words);
    }
}

/// A message that a chain has seen and that is then taken back leaves the
/// chain as it was before: its table and its seed index are the same again.
/// The message is taken back as the chain that has seen this message alone.
pub proof fn lemma_add_then_remove(c: ChainModel, words: Seq<Seq<char>>)
    requires
        c.wf(),
    ensures
        c.add_message(words).remove_chain(ChainModel::empty().add_message(words)) == c,
{
    let e = ChainModel::empty();
    let trained = c.add_message(words);
    let alone = e.add_message(words);
    let r = trained.remove_chain(alone);
    if words.len() > 0 {
        lemma_add_from_counts(c, Seq::empty(), Seq::empty(), words);
        lemma_add_from_counts(e, Seq::empty(), Seq::empty(), words);
    }
    lemma_remove_chain(trained, alone);
    assert forall|k: Seq<char>, t: Seq<char>| #[trigger] count(r.data, k, t) == count(
        c.data,
        k,
        t,
    ) by {
        lemma_count_not_negative(c.data, k, t);
        lemma_count_not_negative(alone.data, k, t);
        assert(count(r.data, k, t) == trained.left(alone, k, t));
        assert(count(trained.data, k, t) == count(c.data, k, t) + count(alone.data, k, t));
    }
    lemma_tables_equal(r.data, c.data);
}

/// The seed index after `key` was put under `seed`. Nothing is put under
/// the empty seed.
pub open spec fn register(meta: SeedIndex, seed: Seq<char>, key: Seq<char>) -> SeedIndex {
    if seed.len() == 0 {
        meta
    } else if meta.contains_key(seed) {
        meta.insert(seed, meta[seed].insert(key))
    } else {
        meta.insert(seed, Set::empty().insert(key))
    }
}

/// The seed index after `key` was taken from under `seed`. A seed under
/// which nothing is left leaves the index.
pub open spec fn unregister(meta: SeedIndex, seed: Seq<char>, key: Seq<char>) -> SeedIndex {
    if meta.contains_key(seed) {
        if meta[seed].remove(key) =~= Set::empty() {
            meta.remove(seed)
        } else {
            meta.insert(seed, meta[seed].remove(key))
        }
    } else {
        meta
    }
}

/// The seed index of a set of keys with one key more: the key is put under
/// the two seeds of its second word.
pub proof fn lemma_index_insert(keys: Set<Seq<char>>, key: Seq<char>)
    ensures
        seed_index(keys.insert(key)) == register(
            register(seed_index(keys), lowercase_seed(key_word(key)), key),
            cleaned_seed(key_word(key)),
            key,
        ),
{
    let a = lowercase_seed(key_word(key));
    let b = cleaned_seed(key_word(key));
    let m0 = seed_index(keys);
    let m1 = register(m0, a, key);
    let m2 = register(m1, b, key);
    let r = seed_index(keys.insert(key));
    assert forall|n: Seq<char>| r.contains_key(n) <==> m2.contains_key(n) by {
        if r.contains_key(n) {
            let k = choose|k: Seq<char>| keys.insert(key).contains(k) && is_seed_of(n, k);
            if k != key {
                assert(keys.contains(k) && is_seed_of(n, k));
                assert(m0.contains_key(n));
            }
        }
        if m2.contains_key(n) {
            if m0.contains_key(n) {
                let k = choose|k: Seq<char>| keys.contains(k) && is_seed_of(n, k);
                assert(keys.insert(key).contains(k) && is_seed_of(n, k));
            } else {
                assert(keys.insert(key).contains(key) && is_seed_of(n, key));
            }
        }
    }
    assert forall|n: Seq<char>| r.contains_key(n) implies r[n] =~= m2[n] by {
        if m0.contains_key(n) {
            assert(m0[n] =~= Set::new(|k: Seq<char>| keys.contains(k) && is_seed_of(n, k)));
        }
    }
    assert(r =~= m2);
}

/// The seed index of a set of keys with one key less: the key is taken from
/// under the two seeds of its second word.
pub proof fn lemma_index_remove(keys: Set<Seq<char>>, key: Seq<char>)
    ensures
        seed_index(keys.remove(key)) == unregister(
            unregister(seed_index(keys), lowercase_seed(key_word(key)), key),
            cleaned_seed(key_word(key)),
            key,
        ),
{
    let a = lowercase_seed(key_word(key));
    let b = cleaned_seed(key_word(key));
    let m0 = seed_index(keys);
    let m1 = unregister(m0, a, key);
    let m2 = unregister(m1, b, key);
    let r = seed_index(keys.remove(key));
    assert forall|n: Seq<char>| #[trigger] r.contains_key(n) implies m2.contains_key(n) by {
        let k = choose|k: Seq<char>| keys.remove(key).contains(k) && is_seed_of(n, k);
        assert(keys.contains(k) && is_seed_of(n, k));
        assert(m0.contains_key(n));
        assert(m0[n].contains(k));
        assert(m0[n].remove(key).contains(k));
        if m1.contains_key(n) {
            assert(m1[n].contains(k));
            assert(m1[n].remove(key).contains(k));
        }
    }
    assert forall|n: Seq<char>| #[trigger] m2.contains_key(n) implies r.contains_key(n) by {
        assert(m0.contains_key(n));
        if n == a || n == b {
            let s = m0[n].remove(key);
            assert(!(s =~= Set::empty()));
            assert(exists|k: Seq<char>| s.contains(k)) by {
                if forall|k: Seq<char>| !s.contains(k) {
                    assert(s =~= Set::empty());
                }
            }
            let k = choose|k: Seq<char>| s.contains(k);
            assert(keys.remove(key).contains(k) && is_seed_of(n, k));
        } else {
            let k = choose|k: Seq<char>| keys.contains(k) && is_seed_of(n, k);
            assert(k != key);
            assert(keys.remove(key).contains(k) && is_seed_of(n, k));
        }
    }
    assert forall|n: Seq<char>| r.contains_key(n) implies #[trigger] r[n] == m2[n] by {
        assert(m2.contains_key(n));
        assert(m0.contains_key(n));
        assert(m0[n] =~= Set::new(|k: Seq<char>| keys.contains(k) && is_seed_of(n, k)));
        if n == a || n == b {
            assert(is_seed_of(n, key));
            assert(m2[n] =~= m0[n].remove(key));
        } else {
            assert(!is_seed_of(n, key));
            assert(m2[n] =~= m0[n]);
        }
        assert(r[n] =~= m2[n]);
    }
    assert(r.dom() =~= m2.dom());
    assert(r =~= m2);
}

/// To put a key under a seed twice is to put it there once.
pub proof fn lemma_register_twice(meta: SeedIndex, seed: Seq<char>, key: Seq<char>)
    ensures
        register(register(meta, seed, key), seed, key) == register(meta, seed, key),
{
    let m1 = register(meta, seed, key);
    if seed.len() > 0 {
        assert(m1[seed].insert(key) =~= m1[seed]);
        assert(register(m1, seed, key) =~= m1);
    }
}

/// To take a key from under a seed twice is to take it from there once.
pub proof fn lemma_unregister_twice(meta: SeedIndex, seed: Seq<char>, key: Seq<char>)
    ensures
        unregister(unregister(meta, seed, key), seed, key) == unregister(meta, seed, key),
{
    let m1 = unregister(meta, seed, key);
    if m1.contains_key(seed) {
        assert(m1[seed].remove(key) =~= m1[seed]);
        assert(unregister(m1, seed, key) =~= m1);
    }
}

/// The sum of the counts of a distribution: how often the context that it
/// belongs to has been followed by a word.
pub open spec fn sum_of(counts: Map<Seq<char>, int>) -> int
    decreases counts.dom().len(),
    when counts.dom().finite()
{
    if counts.dom().len() == 0 {
        0
    } else {
        let t = counts.dom().choose();
        counts[t] + sum_of(counts.remove(t))
    }
}

/// The sum of the counts is the count of any one successor and the sum of
/// the others.
pub proof fn lemma_sum_of_remove(counts: Map<Seq<char>, int>, t: Seq<char>)
    requires
        counts.dom().finite(),
        counts.contains_key(t),
    ensures
        sum_of(counts) == counts[t] + sum_of(counts.remove(t)),
    decreases counts.dom().len(),
{
    let c = counts.dom().choose();
    assert(counts.dom().len() != 0) by {
        if counts.dom().len() == 0 {
            counts.dom().lemma_len0_is_empty();
        }
    }
    assert(counts.contains_key(c));
    if c != t {
        lemma_sum_of_remove(counts.remove(c), t);
        lemma_sum_of_remove(counts.remove(t), c);
        assert(counts.remove(c).remove(t) =~= counts.remove(t).remove(c));
    }
}

/// A chain stays well-formed when a word follows a context once more, and
/// the key of the context is put under the seeds of the word that it ends
/// with.
pub proof fn lemma_add_triplet(
    c: ChainModel,
    first: Seq<char>,
    second: Seq<char>,
    third: Seq<char>,
)
    requires
        c.wf(),
        !first.contains(' '),
    ensures
        c.add_triplet(first, second, third).wf(),
        key_word(pair_key(first, second)) == decoded(encoded(second)),
        c.add_triplet(first, second, third).meta == register(
            register(
                c.meta,
                lowercase_seed(decoded(encoded(second))),
                pair_key(first, second),
            ),
            cleaned_seed(decoded(encoded(second))),
            pair_key(first, second),
        ),
{
    let key = pair_key(first, second);
    let after = c.add_triplet(first, second, third);
    lemma_key_split(first, second);
    lemma_encoded(third);
    lemma_table_add(c.data, key, encoded(third));
    lemma_index_insert(c.data.dom(), key);
    assert forall|k: Seq<char>| #[trigger] after.data.contains_key(k) implies is_key(k)
        && after.data[k].dom().finite() by {
        if k != key {
            assert(c.data.contains_key(k));
        } else if c.data.contains_key(k) {
            assert(c.data[k].dom().finite());
        }
    }
    assert forall|k: Seq<char>, t: Seq<char>|
        after.data.contains_key(k) && #[trigger] after.data[k].contains_key(t) implies is_field_name(
        t,
    ) by {
        if !(k == key && t == encoded(third)) {
            assert(c.data.contains_key(k));
            assert(c.data[k].contains_key(t));
        }
    }
}

/// A chain stays well-formed when observations are taken back from it.
/// Its seed index changes only where the context leaves the table: the key
/// is then taken from under the seeds of the word that it ends with.
pub proof fn lemma_remove_triplet(
    c: ChainModel,
    first: Seq<char>,
    second: Seq<char>,
    third: Seq<char>,
    amount: int,
)
    requires
        c.wf(),
        !first.contains(' '),
    ensures
        c.remove_triplet(first, second, third, amount).wf(),
        key_word(pair_key(first, second)) == decoded(encoded(second)),
        c.data.contains_key(pair_key(first, second)) == c.remove_triplet(
            first,
            second,
            third,
            amount,
        ).data.contains_key(pair_key(first, second)) ==> c.remove_triplet(
            first,
            second,
            third,
            amount,
        ).meta == c.meta,
        c.data.contains_key(pair_key(first, second)) && !c.remove_triplet(
            first,
            second,
            third,
            amount,
        ).data.contains_key(pair_key(first, second)) ==> c.remove_triplet(
            first,
            second,
            third,
            amount,
        ).meta == unregister(
            unregister(
                c.meta,
                lowercase_seed(decoded(encoded(second))),
                pair_key(first, second),
            ),
            cleaned_seed(decoded(encoded(second))),
            pair_key(first, second),
        ),
{
    let key = pair_key(first, second);
    let after = c.remove_triplet(first, second, third, amount);
    lemma_key_split(first, second);
    lemma_table_remove(c.data, key, encoded(third), amount);
    if c.data.contains_key(key) && !after.data.contains_key(key) {
        assert(after.data.dom() =~= c.data.dom().remove(key));
        lemma_index_remove(c.data.dom(), key);
    } else {
        assert(after.data.dom() =~= c.data.dom());
    }
    assert forall|k: Seq<char>| #[trigger] after.data.contains_key(k) implies is_key(k)
        && after.data[k].dom().finite() by {
        assert(c.data.contains_key(k));
        assert(c.data[k].dom().finite());
    }
    assert forall|k: Seq<char>, t: Seq<char>|
        after.data.contains_key(k) && #[trigger] after.data[k].contains_key(t) implies is_field_name(
        t,
    ) by {
        assert(c.data.contains_key(k));
        assert(c.data[k].contains_key(t));
    }
}

} // verus!
