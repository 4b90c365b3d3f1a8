use vstd::prelude::*;
use crate::codec::{
    can_be_field_name, decode_db_field_name, decoded, encode_db_field_name, encoded,
    is_context_key, is_field_name, is_key, lemma_key_join, pair_key, pair_to_string,
    string_to_pair,
};
use crate::model::{
    count, lemma_add_then_remove, lemma_add_triplet, lemma_count_not_negative,
    lemma_index_insert,
    lemma_register_twice, lemma_remove_chain, lemma_remove_triplet, lemma_sum_of_remove,
    lemma_table_add, lemma_table_remove, lemma_tables_equal, lemma_unregister_twice, positive,
    register, seed_index, sum_of, table_add, table_remove, unregister, ChainModel, SeedIndex,
    Table,
};
use crate::sampling::{all_positive, total};
use crate::text::{
    cleaned_seed, get_associated_seeds_encoded, lemma_words, lemma_words_len, lowercase_seed,
    split_whitespace, words,
};
use crate::str_map::StrMap;

verus! {

/// How often a word has followed a context.
pub type Counter = i64;

/// The successors of one context as they are stored.
pub type Distribution = StrMap<Counter>;

/// A set of strings as it is stored.
pub type KeySet = StrMap<()>;

/// What a stored distribution holds.
pub open spec fn dist_view(d: Distribution) -> Map<Seq<char>, int> {
    Map::new(|t: Seq<char>| d@.contains_key(t), |t: Seq<char>| d@[t] as int)
}

/// What a stored table holds.
pub open spec fn table_view(data: StrMap<Distribution>) -> Table {
    Map::new(|k: Seq<char>| data@.contains_key(k), |k: Seq<char>| dist_view(data@[k]))
}

/// What a stored seed index holds.
pub open spec fn index_view(meta: StrMap<KeySet>) -> SeedIndex {
    Map::new(|n: Seq<char>| meta@.contains_key(n), |n: Seq<char>| meta@[n]@.dom())
}

/// No key of the table, and no successor of one context, is stored twice.
pub open spec fn table_ok(data: StrMap<Distribution>) -> bool {
    data.wf() && forall|k: Seq<char>| #[trigger] data@.contains_key(k) ==> data@[k].wf()
}

/// No seed of the index, and no key under one seed, is stored twice.
pub open spec fn index_ok(meta: StrMap<KeySet>) -> bool {
    meta.wf() && forall|n: Seq<char>| #[trigger] meta@.contains_key(n) ==> meta@[n].wf()
}

/// Counts one more observation of `successor` behind the context under
/// `key`.
fn table_increment(data: &mut StrMap<Distribution>, key: String, successor: String)
    requires
        table_ok(*old(data)),
        count(table_view(*old(data)), key@, successor@) < i64::MAX,
    ensures
        table_ok(*final(data)),
        table_view(*final(data)) == table_add(table_view(*old(data)), key@, successor@),
{
    let ghost before = table_view(*data);
    match data.find(key.as_str()) {
        Some(i) => {
            proof {
                data.lemma_view();
            }
            let mut dist = data.replace_value(i, StrMap::new());
            let ghost d0 = dist_view(dist);
            match dist.find(successor.as_str()) {
                Some(j) => {
                    proof {
                        dist.lemma_view();
                    }
                    let c = *dist.value_at(j);
                    dist.replace_value(j, c + 1);
                },
                None => {
                    dist.push_new(successor, 1);
                },
            }
            assert(dist_view(dist) =~= d0.insert(successor@, count(before, key@, successor@) + 1));
            data.replace_value(i, dist);
            assert(table_view(*data) =~= table_add(before, key@, successor@));
        },
        None => {
            let mut dist: Distribution = StrMap::new();
            dist.push_new(successor, 1);
            assert(dist_view(dist) =~= Map::<Seq<char>, int>::empty().insert(successor@, 1));
            data.push_new(key, dist);
            assert(table_view(*data) =~= table_add(before, key@, successor@));
        },
    }
}

/// A stored map without entries holds nothing.
proof fn lemma_empty_dom<T>(m: StrMap<T>)
    requires
        m.wf(),
    ensures
        m.keys().len() == 0 <==> m@.dom() =~= Set::empty(),
{
    m.lemma_view();
    if m.keys().len() == 0 {
        m@.dom().lemma_len0_is_empty();
    }
}

/// Takes `amount` from the count of `successor` behind the context under
/// `key`, and says whether the context left the table with it.
fn table_decrement(
    data: &mut StrMap<Distribution>,
    key: &str,
    successor: &str,
    amount: Counter,
) -> (gone: bool)
    requires
        table_ok(*old(data)),
        positive(table_view(*old(data))),
        count(table_view(*old(data)), key@, successor@) - amount <= i64::MAX,
    ensures
        table_ok(*final(data)),
        table_view(*final(data)) == table_remove(
            table_view(*old(data)),
            key@,
            successor@,
            amount as int,
        ),
        gone == (table_view(*old(data)).contains_key(key@) && !table_view(
            *final(data),
        ).contains_key(key@)),
{
    let ghost before = table_view(*data);
    match data.find(key) {
        Some(i) => {
            proof {
                data.lemma_view();
            }
            let mut dist = data.replace_value(i, StrMap::new());
            let ghost d0 = dist_view(dist);
            assert(d0 == before[key@]);
            match dist.find(successor) {
                Some(j) => {
                    proof {
                        dist.lemma_view();
                    }
                    let c = *dist.value_at(j);
                    assert(c as int == before[key@][successor@]);
                    let new_count = c - amount;
                    if new_count > 0 {
                        dist.replace_value(j, new_count);
                        assert(dist_view(dist) =~= d0.insert(successor@, new_count as int));
                        data.replace_value(i, dist);
                        assert(table_view(*data) =~= table_remove(
                            before,
                            key@,
                            successor@,
                            amount as int,
                        ));
                        false
                    } else {
                        dist.remove_at(j);
                        assert(dist_view(dist) =~= d0.remove(successor@));
                        proof {
                            lemma_empty_dom(dist);
                            assert(dist_view(dist).dom() =~= dist@.dom());
                        }
                        if dist.len() == 0 {
                            data.remove_at(i);
                            assert(table_view(*data) =~= table_remove(
                                before,
                                key@,
                                successor@,
                                amount as int,
                            ));
                            true
                        } else {
                            data.replace_value(i, dist);
                            assert(table_view(*data) =~= table_remove(
                                before,
                                key@,
                                successor@,
                                amount as int,
                            ));
                            false
                        }
                    }
                },
                None => {
                    data.replace_value(i, dist);
                    assert(table_view(*data) =~= before);
                    false
                },
            }
        },
        None => false,
    }
}

/// Puts `key` under `seed`, unless the seed is empty.
fn index_register(meta: &mut StrMap<KeySet>, seed: String, key: &String)
    requires
        index_ok(*old(meta)),
    ensures
        index_ok(*final(meta)),
        index_view(*final(meta)) == register(index_view(*old(meta)), seed@, key@),
{
    let ghost before = index_view(*meta);
    if seed.as_str().is_empty() {
        return ;
    }
    match meta.find(seed.as_str()) {
        Some(i) => {
            proof {
                meta.lemma_view();
            }
            let mut set = meta.replace_value(i, StrMap::new());
            let ghost s0 = set@.dom();
            if set.find(key.as_str()).is_none() {
                set.push_new(key.clone(), ());
            }
            assert(set@.dom() =~= s0.insert(key@));
            meta.replace_value(i, set);
            assert(index_view(*meta) =~= register(before, seed@, key@));
        },
        None => {
            let mut set: KeySet = StrMap::new();
            set.push_new(key.clone(), ());
            assert(set@.dom() =~= Set::<Seq<char>>::empty().insert(key@));
            meta.push_new(seed, set);
            assert(index_view(*meta) =~= register(before, seed@, key@));
        },
    }
}

/// Takes `key` from under `seed`, and the seed from the index where nothing
/// is left under it.
fn index_unregister(meta: &mut StrMap<KeySet>, seed: &str, key: &str)
    requires
        index_ok(*old(meta)),
    ensures
        index_ok(*final(meta)),
        index_view(*final(meta)) == unregister(index_view(*old(meta)), seed@, key@),
{
    let ghost before = index_view(*meta);
    match meta.find(seed) {
        Some(i) => {
            proof {
                meta.lemma_view();
            }
            let mut set = meta.replace_value(i, StrMap::new());
            let ghost s0 = set@.dom();
            match set.find(key) {
                Some(j) => {
                    proof {
                        set.lemma_view();
                    }
                    set.remove_at(j);
                },
                None => {},
            }
            assert(set@.dom() =~= s0.remove(key@));
            proof {
                lemma_empty_dom(set);
            }
            if set.len() == 0 {
                meta.remove_at(i);
                assert(index_view(*meta) =~= unregister(before, seed@, key@));
            } else {
                meta.replace_value(i, set);
                assert(index_view(*meta) =~= unregister(before, seed@, key@));
            }
        },
        None => {},
    }
}

/// Puts `key` under the seeds of the word that `second_encoded` stands
/// for.
fn index_register_key(meta: &mut StrMap<KeySet>, second_encoded: &str, key: &String)
    requires
        index_ok(*old(meta)),
    ensures
        index_ok(*final(meta)),
        index_view(*final(meta)) == register(
            register(index_view(*old(meta)), lowercase_seed(decoded(second_encoded@)), key@),
            cleaned_seed(decoded(second_encoded@)),
            key@,
        ),
{
    let word = decode_db_field_name(second_encoded);
    let seeds = get_associated_seeds_encoded(word.as_str());
    let ghost before = index_view(*meta);
    index_register(meta, seeds[0].clone(), key);
    if seeds.len() == 2 {
        index_register(meta, seeds[1].clone(), key);
    } else {
        proof {
            lemma_register_twice(before, lowercase_seed(word@), key@);
        }
    }
}

/// Takes `key` from under the seeds of the word that `second_encoded`
/// stands for.
fn index_unregister_key(meta: &mut StrMap<KeySet>, second_encoded: &str, key: &str)
    requires
        index_ok(*old(meta)),
    ensures
        index_ok(*final(meta)),
        index_view(*final(meta)) == unregister(
            unregister(index_view(*old(meta)), lowercase_seed(decoded(second_encoded@)), key@),
            cleaned_seed(decoded(second_encoded@)),
            key@,
        ),
{
    let word = decode_db_field_name(second_encoded);
    let seeds = get_associated_seeds_encoded(word.as_str());
    let ghost before = index_view(*meta);
    index_unregister(meta, seeds[0].as_str(), key);
    if seeds.len() == 2 {
        index_unregister(meta, seeds[1].as_str(), key);
    } else {
        proof {
            lemma_unregister_twice(before, lowercase_seed(word@), key@);
        }
    }
}

/// The counts of a stored distribution, in stored order.
pub fn counts_of(dist: &Distribution) -> (r: Vec<Counter>)
    requires
        dist.wf(),
    ensures
        r@ == dist.values(),
{
    let n = dist.len();
    let mut counts: Vec<Counter> = Vec::new();
    let mut j: usize = 0;
    while j < n
        invariant
            dist.wf(),
            n == dist.keys().len(),
            j <= n,
            counts@ == dist.values().take(j as int),
        decreases n - j,
    {
        counts.push(*dist.value_at(j));
        assert(counts@ =~= dist.values().take(j + 1));
        j += 1;
    }
    assert(dist.values().take(n as int) =~= dist.values());
    counts
}

/// The stored counts of a distribution that holds positive counts alone
/// are positive.
pub proof fn lemma_counts_positive(dist: Distribution)
    requires
        dist.wf(),
        forall|t: Seq<char>| dist_view(dist).contains_key(t) ==> #[trigger] dist_view(dist)[t] > 0,
    ensures
        all_positive(dist.values()),
{
    dist.lemma_view();
    assert forall|k: int| 0 <= k < dist.values().len() implies #[trigger] dist.values()[k]
        > 0 by {
        let t = dist.keys()[k];
        assert(dist@.contains_key(t));
        assert(dist_view(dist)[t] > 0);
    }
}

/// Whether two stored distributions hold the same.
fn same_counts(a: &Distribution, b: &Distribution) -> (r: bool)
    requires
        a.wf(),
        b.wf(),
    ensures
        r == (dist_view(*a) == dist_view(*b)),
{
    proof {
        a.lemma_view();
        b.lemma_view();
    }
    if a.len() != b.len() {
        assert(dist_view(*a).dom() =~= a@.dom());
        assert(dist_view(*b).dom() =~= b@.dom());
        return false;
    }
    let n = a.len();
    let mut i: usize = 0;
    while i < n
        invariant
            a.wf(),
            b.wf(),
            n == a.keys().len(),
            i <= n,
            forall|k: int|
                0 <= k < i ==> b@.contains_key(#[trigger] a.keys()[k]) && b@[a.keys()[k]]
                    == a.values()[k],
        decreases n - i,
    {
        let word = a.key_at(i);
        proof {
            a.lemma_view();
            b.lemma_view();
            assert(a@.contains_key(word@));
        }
        match b.find(word.as_str()) {
            Some(at) => {
                if *b.value_at(at) != *a.value_at(i) {
                    assert(dist_view(*a)[word@] != dist_view(*b)[word@]);
                    return false;
                }
            },
            None => {
                assert(dist_view(*a).contains_key(word@));
                assert(!dist_view(*b).contains_key(word@));
                return false;
            },
        }
        i += 1;
    }
    proof {
        a.lemma_view();
        b.lemma_view();
        a.lemma_same_keys(b);
        assert forall|t: Seq<char>| a@.contains_key(t) implies a@[t] == b@[t] by {
            let k = a.keys().index_of(t);
            assert(a.keys().contains(t));
            assert(a.keys()[k] == t);
        }
        assert(dist_view(*a) =~= dist_view(*b));
    }
    true
}

/// Whether two stored tables hold the same.
fn same_table(a: &StrMap<Distribution>, b: &StrMap<Distribution>) -> (r: bool)
    requires
        table_ok(*a),
        table_ok(*b),
    ensures
        r == (table_view(*a) == table_view(*b)),
{
    proof {
        a.lemma_view();
        b.lemma_view();
    }
    if a.len() != b.len() {
        assert(table_view(*a).dom() =~= a@.dom());
        assert(table_view(*b).dom() =~= b@.dom());
        return false;
    }
    let n = a.len();
    let mut i: usize = 0;
    while i < n
        invariant
            table_ok(*a),
            table_ok(*b),
            n == a.keys().len(),
            i <= n,
            forall|k: int|
                0 <= k < i ==> b@.contains_key(#[trigger] a.keys()[k]) && dist_view(
                    b@[a.keys()[k]],
                ) == dist_view(a.values()[k]),
        decreases n - i,
    {
        let key = a.key_at(i);
        proof {
            a.lemma_view();
            b.lemma_view();
            assert(a@.contains_key(key@));
        }
        match b.find(key.as_str()) {
            Some(at) => {
                if !same_counts(a.value_at(i), b.value_at(at)) {
                    assert(table_view(*a)[key@] != table_view(*b)[key@]);
                    return false;
                }
            },
            None => {
                assert(table_view(*a).contains_key(key@));
                assert(!table_view(*b).contains_key(key@));
                return false;
            },
        }
        i += 1;
    }
    proof {
        a.lemma_view();
        b.lemma_view();
        a.lemma_same_keys(b);
        assert forall|t: Seq<char>| a@.contains_key(t) implies dist_view(a@[t]) == dist_view(
            b@[t],
        ) by {
            let k = a.keys().index_of(t);
            assert(a.keys().contains(t));
            assert(a.keys()[k] == t);
        }
        assert(table_view(*a) =~= table_view(*b));
    }
    true
}

/// A Markov chain over the words of messages: it knows how often each word
/// has followed each pair of words, and under which seeds a pair is found.
#[derive(Debug, Clone)]
pub struct TripletMarkovChain {
    /// For the key of two words, how often each third word has followed
    /// them.
    data: StrMap<Distribution>,
    /// For a seed, the keys in `data` that end with a word of that seed.
    meta: StrMap<KeySet>,
}

impl View for TripletMarkovChain {
    type V = ChainModel;

    closed spec fn view(&self) -> ChainModel {
        ChainModel { data: table_view(self.data), meta: index_view(self.meta) }
    }
}

impl TripletMarkovChain {
    /// The chain's invariant: nothing is stored twice, and what is stored
    /// is a well-formed chain.
    pub closed spec fn wf(&self) -> bool {
        table_ok(self.data) && index_ok(self.meta) && self@.wf()
    }

    /// What a well-formed chain holds is well-formed.
    pub proof fn lemma_wf(&self)
        requires
            self.wf(),
        ensures
            self@.wf(),
    {
    }

    /// A chain that has seen nothing.
    pub fn new() -> (r: Self)
        ensures
            r.wf(),
            r@ == ChainModel::empty(),
    {
        let r = TripletMarkovChain { data: StrMap::new(), meta: StrMap::new() };
        proof {
            assert(table_view(r.data) =~= Map::<Seq<char>, Map<Seq<char>, int>>::empty());
            assert(index_view(r.meta) =~= Map::<Seq<char>, Set<Seq<char>>>::empty());
            assert(seed_index(Set::<Seq<char>>::empty()) =~= Map::<
                Seq<char>,
                Set<Seq<char>>,
            >::empty());
            assert(r@.data.dom() =~= Set::<Seq<char>>::empty());
        }
        r
    }

    /// The chain over a stored table, if the table can be the table of a
    /// chain: its keys and words are field names, each key holds a space,
    /// each context has a successor, and every count is positive. The seed
    /// index is made from the keys.
    pub fn from_table(data: StrMap<Distribution>) -> (r: Option<Self>)
        requires
            table_ok(data),
        ensures
            r is Some <==> ChainModel::over(table_view(data)).wf(),
            r matches Some(chain) ==> chain.wf() && chain@ == ChainModel::over(table_view(data)),
    {
        let mut meta: StrMap<KeySet> = StrMap::new();
        let n = data.len();
        let mut i: usize = 0;
        let ghost model = ChainModel::over(table_view(data));
        proof {
            data.lemma_view();
            assert(data.keys().take(0) =~= Seq::<Seq<char>>::empty());
            assert(data.keys().take(0).to_set() =~= Set::<Seq<char>>::empty());
            assert(index_view(meta) =~= seed_index(Set::<Seq<char>>::empty()));
        }
        while i < n
            invariant
                table_ok(data),
                model == ChainModel::over(table_view(data)),
                n == data.keys().len(),
                i <= n,
                index_ok(meta),
                index_view(meta) == seed_index(data.keys().take(i as int).to_set()),
                forall|a: int|
                    0 <= a < i ==> is_key(#[trigger] data.keys()[a]) && data.values()[a].keys().len()
                        > 0,
                forall|a: int, b: int|
                    0 <= a < i && 0 <= b < data.values()[a].keys().len() ==> is_field_name(
                        #[trigger] data.values()[a].keys()[b],
                    ),
                forall|a: int, b: int|
                    0 <= a < i && 0 <= b < data.values()[a].keys().len()
                        ==> #[trigger] data.values()[a].values()[b] > 0,
            decreases n - i,
        {
            let key = data.key_at(i);
            let dist = data.value_at(i);
            proof {
                data.lemma_view();
                assert(data@.contains_key(key@));
                dist.lemma_view();
            }
            if !is_context_key(key.as_str()) || dist.len() == 0 {
                proof {
                    assert(model.data.contains_key(key@));
                    assert(model.data[key@].dom() =~= dist@.dom());
                    if dist.keys().len() == 0 {
                        assert(forall|t: Seq<char>| !model.data[key@].contains_key(t));
                    }
                }
                return None;
            }
            let mut j: usize = 0;
            let successors = dist.len();
            while j < successors
                invariant
                    table_ok(data),
                    model == ChainModel::over(table_view(data)),
                    dist.wf(),
                    *dist == data.values()[i as int],
                    key@ == data.keys()[i as int],
                    i < data.keys().len(),
                    successors == dist.keys().len(),
                    j <= successors,
                    forall|b: int| 0 <= b < j ==> is_field_name(#[trigger] dist.keys()[b]),
                    forall|b: int| 0 <= b < j ==> #[trigger] dist.values()[b] > 0,
                decreases successors - j,
            {
                if !can_be_field_name(dist.key_at(j).as_str()) || *dist.value_at(j) <= 0 {
                    proof {
                        data.lemma_view();
                        dist.lemma_view();
                        let t = dist.keys()[j as int];
                        assert(data@.contains_key(key@));
                        assert(dist@.contains_key(t));
                        assert(model.data.contains_key(key@));
                        assert(model.data[key@].contains_key(t));
                        assert(model.data[key@][t] == dist.values()[j as int]);
                    }
                    return None;
                }
                j += 1;
            }
            assert(key@ == data.keys()[i as int]);
            assert(*dist == data.values()[i as int]);
            assert(is_key(data.keys()[i as int]) && data.values()[i as int].keys().len() > 0);
            let pair = string_to_pair(key.as_str());
            index_register_key(&mut meta, pair.1.as_str(), key);
            proof {
                let before = data.keys().take(i as int).to_set();
                lemma_index_insert(before, key@);
                assert(data.keys().take(i + 1) =~= data.keys().take(i as int).push(key@));
                data.keys().take(i as int).lemma_push_to_set_commute(key@);
                assert(data.keys().take(i + 1).to_set() =~= before.insert(key@));
                assert forall|a: int| 0 <= a < i + 1 implies is_key(#[trigger] data.keys()[a])
                    && data.values()[a].keys().len() > 0 by {
                    if a == i {
                    } else {
                        assert(0 <= a < i);
                    }
                }
            }
            i += 1;
        }
        let chain = TripletMarkovChain { data, meta };
        proof {
            chain.data.lemma_view();
            assert(chain.data.keys().take(n as int) =~= chain.data.keys());
            assert(chain@.data == model.data);
            assert(model.data.dom() =~= chain.data@.dom());
            assert(chain@.meta == model.meta);
            assert(chain@ == model);
            assert forall|k: Seq<char>| #[trigger] model.data.contains_key(k) implies is_key(k)
                && model.data[k].dom().finite() && exists|t: Seq<char>|
                model.data[k].contains_key(t) by {
                let a = chain.data.keys().index_of(k);
                assert(chain.data.keys().contains(k));
                assert(chain.data.keys()[a] == k);
                let dist = chain.data.values()[a];
                dist.lemma_view();
                assert(model.data[k].dom() =~= dist@.dom());
                assert(dist@.contains_key(dist.keys()[0]));
                assert(model.data[k].contains_key(dist.keys()[0]));
            }
            assert forall|k: Seq<char>, t: Seq<char>|
                model.data.contains_key(k) && #[trigger] model.data[k].contains_key(
                    t,
                ) implies is_field_name(t) && model.data[k][t] > 0 by {
                let a = chain.data.keys().index_of(k);
                assert(chain.data.keys().contains(k));
                assert(chain.data.keys()[a] == k);
                let dist = chain.data.values()[a];
                dist.lemma_view();
                assert(dist.keys().contains(t));
                let b = dist.keys().index_of(t);
                assert(dist.keys()[b] == t);
                assert(is_field_name(chain.data.values()[a].keys()[b]));
                assert(chain.data.values()[a].values()[b] > 0);
            }
            assert(model.data.dom() =~= chain.data@.dom());
        }
        Some(chain)
    }

    /// Whether two chains hold the same: the same table, and with it the
    /// same seed index.
    pub fn same_as(&self, other: &Self) -> (r: bool)
        requires
            self.wf(),
            other.wf(),
        ensures
            r == (self@ == other@),
    {
        same_table(&self.data, &other.data)
    }

    /// The table as it is stored: for each key of two words, the words that
    /// have followed them, each with its count.
    pub fn table(&self) -> (r: &StrMap<Distribution>)
        requires
            self.wf(),
        ensures
            table_ok(*r),
            table_view(*r) == self@.data,
    {
        &self.data
    }

    /// The seed index as it is stored: for each seed, the keys of the table
    /// that end with a word of that seed.
    pub fn index(&self) -> (r: &StrMap<KeySet>)
        requires
            self.wf(),
        ensures
            index_ok(*r),
            index_view(*r) == self@.meta,
    {
        &self.meta
    }

    /// Whether the chain has seen nothing.
    pub fn is_empty(&self) -> (r: bool)
        requires
            self.wf(),
        ensures
            r == (self@.data.dom() =~= Set::empty()),
    {
        proof {
            lemma_empty_dom(self.data);
            assert(self@.data.dom() =~= self.data@.dom());
        }
        self.data.len() == 0
    }

    /// The greatest count that the chain holds, zero where it holds none.
    pub fn max_count(&self) -> (r: Counter)
        requires
            self.wf(),
        ensures
            r >= 0,
            forall|k: Seq<char>, t: Seq<char>| #[trigger] count(self@.data, k, t) <= r,
            r > 0 ==> exists|k: Seq<char>, t: Seq<char>| count(self@.data, k, t) == r,
    {
        let mut r: Counter = 0;
        let ghost mut best: (Seq<char>, Seq<char>) = (Seq::empty(), Seq::empty());
        let contexts = self.data.len();
        let mut i: usize = 0;
        while i < contexts
            invariant
                self.wf(),
                i <= contexts,
                contexts == self.data.keys().len(),
                r >= 0,
                r > 0 ==> count(self@.data, best.0, best.1) == r,
                forall|a: int, b: int|
                    0 <= a < i && 0 <= b < self.data.values()[a].keys().len()
                        ==> #[trigger] self.data.values()[a].values()[b] <= r,
            decreases contexts - i,
        {
            let dist = self.data.value_at(i);
            proof {
                self.data.lemma_view();
                assert(self.data@.contains_key(self.data.keys()[i as int]));
            }
            let successors = dist.len();
            let mut j: usize = 0;
            while j < successors
                invariant
                    self.wf(),
                    i < contexts,
                    contexts == self.data.keys().len(),
                    dist.wf(),
                    *dist == self.data.values()[i as int],
                    successors == dist.keys().len(),
                    j <= successors,
                    r >= 0,
                    r > 0 ==> count(self@.data, best.0, best.1) == r,
                    forall|a: int, b: int|
                        0 <= a < i && 0 <= b < self.data.values()[a].keys().len()
                            ==> #[trigger] self.data.values()[a].values()[b] <= r,
                    forall|b: int| 0 <= b < j ==> #[trigger] dist.values()[b] <= r,
                decreases successors - j,
            {
                let c = *dist.value_at(j);
                if c > r {
                    r = c;
                    proof {
                        self.data.lemma_view();
                        dist.lemma_view();
                        best = (self.data.keys()[i as int], dist.keys()[j as int]);
                        assert(self.data@.contains_key(best.0));
                        assert(dist@.contains_key(best.1));
                    }
                }
                j += 1;
            }
            i += 1;
        }
        proof {
            self.data.lemma_view();
            assert forall|k: Seq<char>, t: Seq<char>| #[trigger] count(self@.data, k, t) <= r by {
                if self@.data.contains_key(k) && self@.data[k].contains_key(t) {
                    let a = self.data.keys().index_of(k);
                    assert(self.data.keys().contains(k));
                    assert(self.data.keys()[a] == k);
                    let dist = self.data.values()[a];
                    dist.lemma_view();
                    assert(dist.keys().contains(t));
                    let b = dist.keys().index_of(t);
                    assert(dist.keys()[b] == t);
                    assert(self.data.values()[a].values()[b] <= r);
                }
            }
        }
        r
    }

    /// Whether every count of the chain can grow by `n` without passing the
    /// greatest counter.
    pub fn has_spare(&self, n: usize) -> (r: bool)
        requires
            self.wf(),
        ensures
            r == spare(self@.data, n as int),
    {
        let greatest = self.max_count();
        let r = greatest as i128 + n as i128 <= i64::MAX as i128;
        proof {
            if !r {
                if greatest > 0 {
                    let (k, t) = choose|k: Seq<char>, t: Seq<char>|
                        count(self@.data, k, t) == greatest;
                    assert(count(self@.data, k, t) + n > i64::MAX);
                } else {
                    lemma_count_not_negative(self@.data, Seq::empty(), Seq::empty());
                    assert(count(self@.data, Seq::empty(), Seq::empty()) + n > i64::MAX);
                }
            }
        }
        r
    }

    /// Adds a single count to a triplet of words: `third` has followed the
    /// pair once more.
    pub fn add_word_triplet(&mut self, pair: (String, String), third: String)
        requires
            old(self).wf(),
            !pair.0@.contains(' '),
            count(old(self)@.data, pair_key(pair.0@, pair.1@), encoded(third@)) < i64::MAX,
        ensures
            final(self).wf(),
            final(self)@ == old(self)@.add_triplet(pair.0@, pair.1@, third@),
    {
        let key = pair_to_string(&pair);
        let third_encoded = encode_db_field_name(third.as_str());
        let second_encoded = encode_db_field_name(pair.1.as_str());
        proof {
            lemma_add_triplet(self@, pair.0@, pair.1@, third@);
        }
        table_increment(&mut self.data, key.clone(), third_encoded);
        // Keep track of the keys that end with the second word, under the
        // seeds of the word.
        index_register_key(&mut self.meta, second_encoded.as_str(), &key);
    }

    /// Removes a given count from a triplet of words. A count that is used
    /// up leaves the chain, a pair without a third word leaves it too, and
    /// the seeds of the pair with it.
    pub fn remove_word_triplet(&mut self, pair: &(String, String), third: &str, amount: &Counter)
        requires
            old(self).wf(),
            !pair.0@.contains(' '),
            count(old(self)@.data, pair_key(pair.0@, pair.1@), encoded(third@)) - *amount
                <= i64::MAX,
        ensures
            final(self).wf(),
            final(self)@ == old(self)@.remove_triplet(pair.0@, pair.1@, third@, *amount as int),
    {
        let key = pair_to_string(pair);
        let third_encoded = encode_db_field_name(third);
        proof {
            lemma_remove_triplet(self@, pair.0@, pair.1@, third@, *amount as int);
        }
        let gone = table_decrement(
            &mut self.data,
            key.as_str(),
            third_encoded.as_str(),
            *amount,
        );
        if gone {
            // The second word is no longer associated with this key
            let second_encoded = encode_db_field_name(pair.1.as_str());
            index_unregister_key(&mut self.meta, second_encoded.as_str(), key.as_str());
        }
    }

    /// Adds each word triplet of the given text to the chain: its words,
    /// with the start of the message before them and its end behind them.
    /// A text without a word changes nothing.
    pub fn add_message(&mut self, text: &str)
        requires
            old(self).wf(),
            forall|k: Seq<char>, t: Seq<char>| #[trigger]
                count(old(self)@.data, k, t) + text@.len() + 2 <= i64::MAX,
        ensures
            final(self).wf(),
            final(self)@ == old(self)@.add_message(words(text@)),
    {
        let ws = split_whitespace(text);
        let ghost before = self@;
        let ghost all = words(text@);
        proof {
            lemma_words(text@);
            lemma_words_len(text@);
        }
        if ws.len() > 0 {
            let mut last_pair = (String::new(), String::new());
            let mut i: usize = 0;
            assert(all.skip(0) =~= all);
            while i < ws.len()
                invariant
                    self.wf(),
                    i <= ws.len(),
                    ws.len() == all.len(),
                    all.len() <= text@.len(),
                    forall|n: int| 0 <= n < ws.len() ==> (#[trigger] ws[n])@ == all[n],
                    forall|n: int| 0 <= n < all.len() ==> !(#[trigger] all[n]).contains(' '),
                    !last_pair.0@.contains(' '),
                    !last_pair.1@.contains(' '),
                    before.add_from(Seq::empty(), Seq::empty(), all) == self@.add_from(
                        last_pair.0@,
                        last_pair.1@,
                        all.skip(i as int),
                    ),
                    forall|k: Seq<char>, t: Seq<char>| #[trigger]
                        count(before.data, k, t) + text@.len() + 2 <= i64::MAX,
                    forall|k: Seq<char>, t: Seq<char>| #[trigger]
                        count(self@.data, k, t) <= count(before.data, k, t) + i,
                decreases ws.len() - i,
            {
                let word = ws[i].clone();
                let ghost now = self@;
                proof {
                    let key = pair_key(last_pair.0@, last_pair.1@);
                    assert(count(self@.data, key, encoded(word@)) <= count(
                        before.data,
                        key,
                        encoded(word@),
                    ) + i);
                    assert(count(before.data, key, encoded(word@)) + text@.len() + 2
                        <= i64::MAX);
                    self.lemma_wf();
                    lemma_table_add(self@.data, key, encoded(word@));
                    assert(all.skip(i as int)[0] == all[i as int]);
                    assert(all.skip(i as int).drop_first() =~= all.skip(i + 1));
                }
                self.add_word_triplet((last_pair.0.clone(), last_pair.1.clone()), word.clone());
                proof {
                    assert forall|k: Seq<char>, t: Seq<char>| #[trigger]
                        count(self@.data, k, t) <= count(before.data, k, t) + i + 1 by {
                        assert(count(now.data, k, t) <= count(before.data, k, t) + i);
                    }
                }
                last_pair = (last_pair.1, word);
                i += 1;
            }
            let ghost now = self@;
            proof {
                let key = pair_key(last_pair.0@, last_pair.1@);
                let nothing = Seq::<char>::empty();
                assert(all.skip(i as int).len() == 0);
                assert(count(self@.data, key, encoded(nothing)) <= count(
                    before.data,
                    key,
                    encoded(nothing),
                ) + i);
                assert(count(before.data, key, encoded(nothing)) + text@.len() + 2 <= i64::MAX);
                self.lemma_wf();
                lemma_table_add(self@.data, key, encoded(nothing));
            }
            self.add_word_triplet((last_pair.0.clone(), last_pair.1.clone()), String::new());
            let ghost then = self@;
            last_pair = (last_pair.1, String::new());
            proof {
                let key = pair_key(last_pair.0@, last_pair.1@);
                let nothing = Seq::<char>::empty();
                assert(count(now.data, key, encoded(nothing)) <= count(
                    before.data,
                    key,
                    encoded(nothing),
                ) + i);
                assert(count(before.data, key, encoded(nothing)) + text@.len() + 2 <= i64::MAX);
                assert(count(then.data, key, encoded(nothing)) <= count(
                    now.data,
                    key,
                    encoded(nothing),
                ) + 1);
            }
            self.add_word_triplet(last_pair, String::new());
        }
    }

    /// Takes a message back that the chain has seen: the counts of the chain
    /// that has seen this message alone are removed from this chain.
    pub fn remove_message(&mut self, text: &str)
        requires
            old(self).wf(),
            text@.len() + 2 <= i64::MAX,
        ensures
            final(self).wf(),
            final(self)@ == old(self)@.remove_chain(
                ChainModel::empty().add_message(words(text@)),
            ),
            forall|c: ChainModel|
                c.wf() && old(self)@ == #[trigger] c.add_message(words(text@)) ==> final(self)@
                    == c,
    {
        let mut other = TripletMarkovChain::new();
        other.add_message(text);
        self.remove_markov_chain(&other);
    }

    /// Removes a Markov chain's word triplet counts from this Markov chain:
    /// what `other` has seen is taken back, count by count. Where `other`
    /// has seen one message alone and this chain has seen that message last,
    /// the chain is again what it was before the message.
    pub fn remove_markov_chain(&mut self, other: &TripletMarkovChain)
        requires
            old(self).wf(),
            other.wf(),
        ensures
            final(self).wf(),
            final(self)@ == old(self)@.remove_chain(other@),
            forall|c: ChainModel, message: Seq<Seq<char>>|
                c.wf() && old(self)@ == #[trigger] c.add_message(message) && other@
                    == ChainModel::empty().add_message(message) ==> final(self)@ == c,
    {
        let ghost before = self@;
        let contexts = other.data.len();
        let mut i: usize = 0;
        proof {
            other.data.lemma_view();
        }
        while i < contexts
            invariant
                self.wf(),
                other.wf(),
                before.wf(),
                i <= contexts,
                contexts == other.data.keys().len(),
                forall|k: Seq<char>, t: Seq<char>| #[trigger]
                    count(self@.data, k, t) == if seen(other.data, i as int, 0, k, t) {
                        before.left(other@, k, t)
                    } else {
                        count(before.data, k, t)
                    },
            decreases contexts - i,
        {
            let key = other.data.key_at(i);
            let dist = other.data.value_at(i);
            proof {
                other.data.lemma_view();
                assert(other@.data.contains_key(key@));
                assert(other.data@.contains_key(key@));
                lemma_key_join(key@);
            }
            let pair = string_to_pair(key.as_str());
            let successors = dist.len();
            let mut j: usize = 0;
            while j < successors
                invariant
                    self.wf(),
                    other.wf(),
                    before.wf(),
                    i < contexts,
                    contexts == other.data.keys().len(),
                    j <= successors,
                    dist.wf(),
                    *dist == other.data.values()[i as int],
                    successors == dist.keys().len(),
                    key@ == other.data.keys()[i as int],
                    pair_key(pair.0@, pair.1@) == key@,
                    !pair.0@.contains(' '),
                    forall|k: Seq<char>, t: Seq<char>| #[trigger]
                        count(self@.data, k, t) == if seen(
                            other.data,
                            i as int,
                            j as int,
                            k,
                            t,
                        ) {
                            before.left(other@, k, t)
                        } else {
                            count(before.data, k, t)
                        },
                decreases successors - j,
            {
                let third = dist.key_at(j);
                let amount = dist.value_at(j);
                let ghost now = self@;
                proof {
                    other.data.lemma_view();
                    dist.lemma_view();
                    self.lemma_wf();
                    other.lemma_wf();
                    assert(other@.data[key@].contains_key(third@));
                    assert(is_field_name(third@));
                    assert(count(other@.data, key@, third@) == *amount);
                    assert(*amount > 0) by {
                        assert(other@.data[key@][third@] > 0);
                    }
                    lemma_count_not_negative(self@.data, key@, third@);
                    lemma_table_remove(self@.data, key@, third@, *amount as int);
                    lemma_between(other.data, i as int, j as int);
                    lemma_count_not_negative(before.data, key@, third@);
                }
                self.remove_word_triplet(&pair, third.as_str(), amount);
                proof {
                    assert forall|k: Seq<char>, t: Seq<char>| #[trigger]
                        count(self@.data, k, t) == if seen(other.data, i as int, j + 1, k, t) {
                            before.left(other@, k, t)
                        } else {
                            count(before.data, k, t)
                        } by {
                        assert(count(now.data, k, t) == if seen(
                            other.data,
                            i as int,
                            j as int,
                            k,
                            t,
                        ) {
                            before.left(other@, k, t)
                        } else {
                            count(before.data, k, t)
                        });
                    }
                }
                j += 1;
            }
            proof {
                lemma_next(other.data, i as int);
            }
            i += 1;
        }
        proof {
            let r = before.remove_chain(other@);
            lemma_remove_chain(before, other@);
            self.lemma_wf();
            assert forall|k: Seq<char>, t: Seq<char>| #[trigger]
                count(self@.data, k, t) == count(r.data, k, t) by {
                lemma_all_seen(other.data, k, t);
                lemma_count_not_negative(other@.data, k, t);
                assert(count(r.data, k, t) == before.left(other@, k, t));
                assert(count(self@.data, k, t) == if seen(other.data, i as int, 0, k, t) {
                    before.left(other@, k, t)
                } else {
                    count(before.data, k, t)
                });
            }
            lemma_tables_equal(self@.data, r.data);
            assert forall|c: ChainModel, message: Seq<Seq<char>>|
                c.wf() && before == #[trigger] c.add_message(message) && other@
                    == ChainModel::empty().add_message(message) implies self@ == c by {
                lemma_add_then_remove(c, message);
            }
        }
    }
}

impl Default for TripletMarkovChain {
    /// A chain that has seen nothing.
    fn default() -> (r: Self)
        ensures
            r.wf(),
            r@ == ChainModel::empty(),
    {
        TripletMarkovChain::new()
    }
}

/// Whether every count of the table can grow by `n` without passing the
/// greatest counter.
pub open spec fn spare(data: Table, n: int) -> bool {
    forall|k: Seq<char>, t: Seq<char>| #[trigger] count(data, k, t) + n <= i64::MAX
}

/// Whether the successor `t` of the context `k` stands in the table before
/// the successor at position `j` of the context at position `i`.
pub open spec fn seen(
    data: StrMap<Distribution>,
    i: int,
    j: int,
    k: Seq<char>,
    t: Seq<char>,
) -> bool {
    exists|a: int, b: int|
        0 <= a < data.keys().len() && 0 <= b < data.values()[a].keys().len() && (a < i || (a == i
            && b < j)) && #[trigger] data.keys()[a] == k && #[trigger] data.values()[a].keys()[b]
            == t
}

/// One step on within a context: the successor at position `j` is seen, and
/// nothing else is new.
proof fn lemma_between(data: StrMap<Distribution>, i: int, j: int)
    requires
        table_ok(data),
        0 <= i < data.keys().len(),
        0 <= j < data.values()[i].keys().len(),
    ensures
        !seen(data, i, j, data.keys()[i], data.values()[i].keys()[j]),
        forall|k: Seq<char>, t: Seq<char>|
            seen(data, i, j + 1, k, t) <==> seen(data, i, j, k, t) || (k == data.keys()[i] && t
                == data.values()[i].keys()[j]),
{
    data.lemma_view();
    let k0 = data.keys()[i];
    let t0 = data.values()[i].keys()[j];
    assert(data@.contains_key(k0));
    assert(data.values()[i].wf());
    if seen(data, i, j, k0, t0) {
        let (a, b) = choose|a: int, b: int|
            0 <= a < data.keys().len() && 0 <= b < data.values()[a].keys().len() && (a < i || (a
                == i && b < j)) && #[trigger] data.keys()[a] == k0 && #[trigger] data.values()[a].keys()[b]
                == t0;
        assert(a == i);
        assert(false);
    }
    assert forall|k: Seq<char>, t: Seq<char>|
        seen(data, i, j + 1, k, t) <==> seen(data, i, j, k, t) || (k == k0 && t == t0) by {
        if seen(data, i, j + 1, k, t) {
            let (a, b) = choose|a: int, b: int|
                0 <= a < data.keys().len() && 0 <= b < data.values()[a].keys().len() && (a < i
                    || (a == i && b < j + 1)) && #[trigger] data.keys()[a] == k
                    && #[trigger] data.values()[a].keys()[b] == t;
            if a == i && b == j {
            } else {
                assert(data.keys()[a] == k && data.values()[a].keys()[b] == t);
                assert(seen(data, i, j, k, t));
            }
        }
        if seen(data, i, j, k, t) {
            let (a, b) = choose|a: int, b: int|
                0 <= a < data.keys().len() && 0 <= b < data.values()[a].keys().len() && (a < i
                    || (a == i && b < j)) && #[trigger] data.keys()[a] == k
                    && #[trigger] data.values()[a].keys()[b] == t;
            assert(data.keys()[a] == k && data.values()[a].keys()[b] == t);
            assert(seen(data, i, j + 1, k, t));
        }
        if k == k0 && t == t0 {
            assert(data.keys()[i] == k && data.values()[i].keys()[j] == t);
            assert(seen(data, i, j + 1, k, t));
        }
    }
}

/// One step on to the next context: nothing is new.
proof fn lemma_next(data: StrMap<Distribution>, i: int)
    requires
        0 <= i < data.keys().len(),
    ensures
        forall|k: Seq<char>, t: Seq<char>|
            seen(data, i + 1, 0, k, t) <==> seen(
                data,
                i,
                data.values()[i].keys().len() as int,
                k,
                t,
            ),
{
    let n = data.values()[i].keys().len() as int;
    assert forall|k: Seq<char>, t: Seq<char>| seen(data, i + 1, 0, k, t) <==> seen(
        data,
        i,
        n,
        k,
        t,
    ) by {
        if seen(data, i + 1, 0, k, t) {
            let (a, b) = choose|a: int, b: int|
                0 <= a < data.keys().len() && 0 <= b < data.values()[a].keys().len() && (a < i + 1
                    || (a == i + 1 && b < 0)) && #[trigger] data.keys()[a] == k
                    && #[trigger] data.values()[a].keys()[b] == t;
            assert(data.keys()[a] == k && data.values()[a].keys()[b] == t);
            assert(seen(data, i, n, k, t));
        }
        if seen(data, i, n, k, t) {
            let (a, b) = choose|a: int, b: int|
                0 <= a < data.keys().len() && 0 <= b < data.values()[a].keys().len() && (a < i
                    || (a == i && b < n)) && #[trigger] data.keys()[a] == k
                    && #[trigger] data.values()[a].keys()[b] == t;
            assert(data.keys()[a] == k && data.values()[a].keys()[b] == t);
            assert(seen(data, i + 1, 0, k, t));
        }
    }
}

/// At the end of the table everything that it holds is seen, and nothing
/// else.
proof fn lemma_all_seen(data: StrMap<Distribution>, k: Seq<char>, t: Seq<char>)
    requires
        table_ok(data),
    ensures
        seen(data, data.keys().len() as int, 0, k, t) <==> table_view(data).contains_key(k)
            && table_view(data)[k].contains_key(t),
{
    data.lemma_view();
    let n = data.keys().len() as int;
    if seen(data, n, 0, k, t) {
        let (a, b) = choose|a: int, b: int|
            0 <= a < data.keys().len() && 0 <= b < data.values()[a].keys().len() && (a < n || (a
                == n && b < 0)) && #[trigger] data.keys()[a] == k && #[trigger] data.values()[a].keys()[b]
                == t;
        assert(data@.contains_key(data.keys()[a]));
        data.values()[a].lemma_view();
        assert(data.values()[a]@.contains_key(data.values()[a].keys()[b]));
    }
    if table_view(data).contains_key(k) && table_view(data)[k].contains_key(t) {
        let a = data.keys().index_of(k);
        assert(data.keys().contains(k));
        assert(data.keys()[a] == k);
        assert(data@[k] == data.values()[a]);
        data.values()[a].lemma_view();
        assert(data.values()[a].keys().contains(t));
        let b = data.values()[a].keys().index_of(t);
        assert(data.keys()[a] == k && data.values()[a].keys()[b] == t);
    }
}

/// What the first `n` entries of a stored distribution hold.
spec fn first_counts(d: Distribution, n: int) -> Map<Seq<char>, int> {
    Map::new(|t: Seq<char>| d.keys().take(n).contains(t), |t: Seq<char>| d@[t] as int)
}

/// The counts of the first `n` entries of a stored distribution add up to
/// the sum of what these entries hold.
proof fn lemma_first_counts(d: Distribution, n: int)
    requires
        d.wf(),
        0 <= n <= d.keys().len(),
    ensures
        first_counts(d, n).dom().finite(),
        total(d.values(), n) == sum_of(first_counts(d, n)),
    decreases n,
{
    d.lemma_view();
    let now = first_counts(d, n);
    assert(now.dom() =~= d.keys().take(n).to_set());
    vstd::seq_lib::seq_to_set_is_finite(d.keys().take(n));
    if n == 0 {
        assert(now.dom() =~= Set::<Seq<char>>::empty());
    } else {
        lemma_first_counts(d, n - 1);
        let t = d.keys()[n - 1];
        let taken = d.keys().take(n);
        let before = d.keys().take(n - 1);
        assert(taken[n - 1] == t);
        assert(now.contains_key(t));
        lemma_sum_of_remove(now, t);
        assert(now.remove(t) =~= first_counts(d, n - 1)) by {
            assert forall|q: Seq<char>| now.remove(t).contains_key(q) implies first_counts(
                d,
                n - 1,
            ).contains_key(q) by {
                let i = choose|i: int| 0 <= i < taken.len() && taken[i] == q;
                assert(d.keys()[i] == q);
                assert(i != n - 1);
                assert(before[i] == q);
            }
            assert forall|q: Seq<char>| first_counts(d, n - 1).contains_key(
                q,
            ) implies now.remove(t).contains_key(q) by {
                let i = choose|i: int| 0 <= i < before.len() && before[i] == q;
                assert(d.keys()[i] == q);
                assert(taken[i] == q);
            }
        }
        assert(now[t] == d.values()[n - 1]) by {
            assert(d@[d.keys()[n - 1]] == d.values()[n - 1]);
        }
    }
}

/// The counts of a stored distribution, added up in stored order, are the
/// sum of what the distribution holds.
pub proof fn lemma_distribution_sum(d: Distribution)
    requires
        d.wf(),
    ensures
        dist_view(d).dom().finite(),
        total(d.values(), d.values().len() as int) == sum_of(dist_view(d)),
{
    d.lemma_view();
    lemma_first_counts(d, d.keys().len() as int);
    assert(d.keys().take(d.keys().len() as int) =~= d.keys());
    assert(first_counts(d, d.keys().len() as int) =~= dist_view(d));
}

} // verus!
