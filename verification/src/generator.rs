use vstd::prelude::*;
use crate::codec::{
    decode_db_field_name, decoded, encode_db_field_name, key_first, key_second, pair_key,
    pair_to_string, string_to_pair,
};
use crate::length::LengthRequirement;
use crate::markov_chain::{
    counts_of, dist_view, lemma_counts_positive, lemma_distribution_sum, TripletMarkovChain,
};
use crate::model::{successors, sum_of, ChainModel, SeedIndex, Table};
use crate::sampling::{all_positive, sum, weighted_order};
use crate::text::{cleaned_seed, lowercase_seed, to_lowercase, trim_non_alphanumeric};

verus! {

/// Enum type for all errors that can arise during a Markov chain operation.
#[derive(Debug, Clone, Copy, PartialEq, Eq, Structural)]
pub enum MarkovChainError {
    /// A generating operation was attempted on an empty Markov chain.
    Empty,
    /// A seed was given for a generation operation, but the Markov chain
    /// doesn't contain the seed.
    NoSuchSeed,
    /// A length requirement was given for a generated message, but it is
    /// invalid.
    LengthRequirementInvalid,
    /// A length requirement was given for a generated message, but it
    /// couldn't be met.
    CannotMeetLengthRequirement,
}

/// Whether the table has seen `word` behind the context `(first, second)`.
pub open spec fn follows(data: Table, first: Seq<char>, second: Seq<char>, word: Seq<char>) -> bool {
    exists|t: Seq<char>| #[trigger]
        successors(data, pair_key(first, second)).contains_key(t) && decoded(t) == word
}

/// Whether `out` is a message that the table can say from the context
/// `(first, second)` on: `second`, where it is a word, and then word after
/// word as the table has seen them follow, up to the end of a message. The
/// empty word stands for the start and for the end of a message.
pub open spec fn sentence(
    data: Table,
    first: Seq<char>,
    second: Seq<char>,
    out: Seq<Seq<char>>,
) -> bool
    decreases out.len(), (if second.len() == 0 { 1int } else { 0int }),
{
    if second.len() == 0 {
        if first.len() > 0 {
            out.len() == 0
        } else {
            out.len() > 0 && out[0].len() > 0 && follows(data, first, second, out[0]) && sentence(
                data,
                second,
                out[0],
                out,
            )
        }
    } else {
        out.len() > 0 && out[0] == second && {
            let next = if out.len() > 1 {
                out[1]
            } else {
                Seq::empty()
            };
            follows(data, first, second, next) && sentence(data, second, next, out.drop_first())
        }
    }
}

/// Whether a message of `n` words meets the requirement, if there is one.
pub open spec fn meets(requirement: Option<&LengthRequirement>, n: int) -> bool {
    match requirement {
        Some(r) => r.admits(n),
        None => true,
    }
}

/// Whether no message that the table can say from the context on, behind
/// `n` words that were said already, meets the requirement within the
/// greatest length that is counted.
pub open spec fn hopeless(
    data: Table,
    requirement: Option<&LengthRequirement>,
    first: Seq<char>,
    second: Seq<char>,
    n: int,
) -> bool {
    forall|out: Seq<Seq<char>>| #[trigger]
        sentence(data, first, second, out) && n + out.len() <= i32::MAX ==> !meets(
            requirement,
            n + out.len(),
        )
}

/// The words of a list of strings.
pub open spec fn word_views(words: Seq<String>) -> Seq<Seq<char>> {
    Seq::new(words.len(), |i: int| words[i]@)
}

impl TripletMarkovChain {
    /// Returns all connections for the given starting pair, in a weighted
    /// random order: for each word that has followed the pair, the pair
    /// that the word makes with the second word before it. The words come
    /// as they were said, not as they are stored.
    pub fn get_connections_in_weighted_random_order(&self, pair: &(String, String)) -> (r: Vec<
        (String, String),
    >)
        requires
            self.wf(),
        ensures
            r.len() == successors(self@.data, pair_key(pair.0@, pair.1@)).dom().len(),
            forall|i: int|
                0 <= i < r.len() ==> (#[trigger] r[i]).0@ == pair.1@ && follows(
                    self@.data,
                    pair.0@,
                    pair.1@,
                    r[i].1@,
                ),
            forall|w: Seq<char>|
                follows(self@.data, pair.0@, pair.1@, w) ==> exists|i: int|
                    0 <= i < r.len() && (#[trigger] r[i]).1@ == w,
    {
        let key = pair_to_string(pair);
        let table = self.table();
        let ghost succ = successors(self@.data, key@);
        match table.find(key.as_str()) {
            Some(at) => {
                let dist = table.value_at(at);
                proof {
                    self.lemma_wf();
                    table.lemma_view();
                    assert(table@.contains_key(key@));
                    dist.lemma_view();
                    assert(succ == dist_view(*dist));
                    assert(succ.dom() =~= dist@.dom());
                }
                let n = dist.len();
                let weights = counts_of(dist);
                proof {
                    assert forall|t: Seq<char>| dist_view(*dist).contains_key(t) implies #[trigger] dist_view(
                        *dist,
                    )[t] > 0 by {
                        assert(self@.data[key@].contains_key(t));
                        assert(self@.data[key@][t] > 0);
                    }
                    lemma_counts_positive(*dist);
                }
                let order = weighted_order(&weights);
                let mut connections: Vec<(String, String)> = Vec::new();
                let mut i: usize = 0;
                while i < order.len()
                    invariant
                        dist.wf(),
                        n == dist.keys().len(),
                        order.len() == n,
                        i <= order.len(),
                        connections.len() == i,
                        forall|k: int| 0 <= k < order.len() ==> #[trigger] order[k] < n,
                        forall|k: int|
                            0 <= k < i ==> (#[trigger] connections[k]).0@ == pair.1@
                                && connections[k].1@ == decoded(dist.keys()[order[k] as int]),
                    decreases order.len() - i,
                {
                    let selected = dist.key_at(order[i]);
                    let selected_decoded = decode_db_field_name(selected.as_str());
                    connections.push((pair.1.clone(), selected_decoded));
                    i += 1;
                }
                proof {
                    assert forall|k: int| 0 <= k < connections.len() implies follows(
                        self@.data,
                        pair.0@,
                        pair.1@,
                        (#[trigger] connections[k]).1@,
                    ) by {
                        let t = dist.keys()[order[k] as int];
                        assert(dist@.contains_key(t));
                        assert(succ.contains_key(t));
                    }
                    assert forall|w: Seq<char>|
                        follows(self@.data, pair.0@, pair.1@, w) implies exists|i: int|
                        0 <= i < connections.len() && (#[trigger] connections[i]).1@ == w by {
                        let t = choose|t: Seq<char>| #[trigger]
                            succ.contains_key(t) && decoded(t) == w;
                        assert(dist.keys().contains(t));
                        let p = choose|p: int| 0 <= p < dist.keys().len() && dist.keys()[p] == t;
                        assert(order@.contains(p as usize));
                        let k = choose|k: int| 0 <= k < order.len() && order[k] == p as usize;
                        assert(connections[k].1@ == w);
                    }
                }
                connections
            },
            None => {
                proof {
                    assert(!self@.data.contains_key(key@));
                    assert(succ.dom() =~= Set::<Seq<char>>::empty());
                }
                Vec::new()
            },
        }
    }

    /// Generates the rest of a message from the context `start` on, behind
    /// `current_length` words that were said already. The words that have
    /// followed the context are tried in a weighted random order, and the
    /// first one from which the message can be brought to an end within the
    /// requirement is taken.
    pub fn generate_internal(
        &self,
        length_requirement: Option<&LengthRequirement>,
        start: (String, String),
        current_length: i32,
    ) -> (r: Result<Vec<String>, MarkovChainError>)
        requires
            self.wf(),
            current_length >= 0,
        ensures
            match r {
                Ok(path) => sentence(self@.data, start.0@, start.1@, word_views(path@))
                    && current_length + path.len() <= i32::MAX && meets(
                    length_requirement,
                    current_length + path.len(),
                ),
                Err(e) => e == MarkovChainError::CannotMeetLengthRequirement && hopeless(
                    self@.data,
                    length_requirement,
                    start.0@,
                    start.1@,
                    current_length as int,
                ),
            },
        decreases i32::MAX - current_length, (if start.1@.len() == 0 { 1int } else { 0int }),
    {
        let ghost data = self@.data;
        let ghost a = start.0@;
        let ghost b = start.1@;
        let first_empty = start.0.as_str().is_empty();
        let second_empty = start.1.as_str().is_empty();
        let at_path_end = !first_empty && second_empty;
        if let Some(requirement) = length_requirement {
            // If we need fewer words, or if we need more and we are at the end
            // of a path, then this path cannot meet the length requirement.
            if requirement.needs_fewer(current_length) || (at_path_end && requirement.needs_more(
                current_length,
            )) {
                proof {
                    assert forall|out: Seq<Seq<char>>| #[trigger]
                        sentence(data, a, b, out) && current_length + out.len()
                            <= i32::MAX implies !meets(
                        length_requirement,
                        current_length + out.len(),
                    ) by {
                        requirement.lemma_gap(current_length as int, current_length + out.len());
                    }
                }
                return Err(MarkovChainError::CannotMeetLengthRequirement);
            }
            proof {
                requirement.lemma_gap(current_length as int, current_length as int);
            }
        }
        if at_path_end {
            let path: Vec<String> = Vec::new();
            assert(word_views(path@) =~= Seq::<Seq<char>>::empty());
            return Ok(path);
        }
        let is_real_word = !second_empty;
        if is_real_word && current_length == i32::MAX {
            return Err(MarkovChainError::CannotMeetLengthRequirement);
        }
        let next_length: i32 = if is_real_word {
            current_length + 1
        } else {
            current_length
        };
        let queue = self.get_connections_in_weighted_random_order(&start);
        let mut i: usize = 0;
        while i < queue.len()
            invariant
                self.wf(),
                data == self@.data,
                a == start.0@,
                b == start.1@,
                current_length >= 0,
                i <= queue.len(),
                is_real_word == (b.len() > 0),
                !is_real_word ==> a.len() == 0,
                next_length == if is_real_word {
                    current_length + 1
                } else {
                    current_length as int
                },
                forall|k: int|
                    0 <= k < queue.len() ==> (#[trigger] queue[k]).0@ == b && follows(
                        data,
                        a,
                        b,
                        queue[k].1@,
                    ),
                forall|k: int|
                    0 <= k < i ==> (!is_real_word && (#[trigger] queue[k]).1@.len() == 0)
                        || hopeless(
                        data,
                        length_requirement,
                        queue[k].0@,
                        queue[k].1@,
                        next_length as int,
                    ),
            decreases queue.len() - i,
        {
            let pair = (queue[i].0.clone(), queue[i].1.clone());
            // The start of a message is followed by a word: the end of a
            // message behind it leads nowhere.
            if is_real_word || !pair.1.as_str().is_empty() {
                let tail = self.generate_internal(length_requirement, pair, next_length);
                match tail {
                    Ok(mut tail) => {
                        let ghost rest = word_views(tail@);
                        let ghost next = queue[i as int].1@;
                        assert(sentence(data, b, next, rest));
                        if is_real_word {
                            tail.insert(0, start.1.clone());
                            proof {
                                let out = word_views(tail@);
                                assert(out.drop_first() =~= rest);
                                assert(out[0] == b);
                                if rest.len() > 0 {
                                    assert(out[1] == rest[0]);
                                    assert(rest[0] == next);
                                } else {
                                    assert(next.len() == 0);
                                    assert(next =~= Seq::<char>::empty());
                                }
                                assert(follows(data, a, b, next));
                                assert(sentence(data, a, b, out));
                            }
                        } else {
                            proof {
                                assert(next.len() > 0);
                                assert(rest[0] == next);
                                assert(follows(data, a, b, rest[0]));
                                assert(sentence(data, a, b, rest));
                            }
                        }
                        return Ok(tail);
                    },
                    Err(_) => {},
                }
            }
            i += 1;
        }
        proof {
            assert forall|out: Seq<Seq<char>>| #[trigger]
                sentence(data, a, b, out) && current_length + out.len() <= i32::MAX implies !meets(
                length_requirement,
                current_length + out.len(),
            ) by {
                if is_real_word {
                    let next = if out.len() > 1 {
                        out[1]
                    } else {
                        Seq::<char>::empty()
                    };
                    assert(follows(data, a, b, next));
                    let k = choose|k: int| 0 <= k < queue.len() && (#[trigger] queue[k]).1@ == next;
                    assert(hopeless(
                        data,
                        length_requirement,
                        queue[k].0@,
                        queue[k].1@,
                        next_length as int,
                    ));
                    assert(sentence(data, b, next, out.drop_first()));
                } else {
                    assert(follows(data, a, b, out[0]));
                    let k = choose|k: int|
                        0 <= k < queue.len() && (#[trigger] queue[k]).1@ == out[0];
                    assert(hopeless(
                        data,
                        length_requirement,
                        queue[k].0@,
                        queue[k].1@,
                        next_length as int,
                    ));
                    assert(sentence(data, b, out[0], out));
                }
            }
        }
        Err(MarkovChainError::CannotMeetLengthRequirement)
    }

    /// The weight with which a context is tried as the start of a message:
    /// how often it has been followed by a word, which is the sum of the
    /// counts of its successors, and no more than the greatest counter.
    fn context_weight(&self, key: &str) -> (w: i64)
        requires
            self.wf(),
            self@.data.contains_key(key@),
        ensures
            w > 0,
            w == capped(sum_of(self@.data[key@])),
    {
        let table = self.table();
        proof {
            self.lemma_wf();
            table.lemma_view();
        }
        match table.find(key) {
            Some(at) => {
                let dist = table.value_at(at);
                proof {
                    dist.lemma_view();
                    assert(dist_view(*dist) == self@.data[key@]);
                    assert forall|t: Seq<char>| dist_view(*dist).contains_key(t) implies #[trigger] dist_view(
                        *dist,
                    )[t] > 0 by {
                        assert(self@.data[key@].contains_key(t));
                        assert(self@.data[key@][t] > 0);
                    }
                    lemma_counts_positive(*dist);
                    lemma_distribution_sum(*dist);
                    let t = choose|t: Seq<char>| self@.data[key@].contains_key(t);
                    assert(dist@.contains_key(t));
                    assert(dist.keys().len() > 0);
                }
                let weights = counts_of(dist);
                let all = sum(&weights);
                if all > i64::MAX as i128 {
                    i64::MAX
                } else {
                    all as i64
                }
            },
            None => {
                proof {
                    assert(false);
                }
                1
            },
        }
    }

    /// Generates a message from the Markov chain. An optional seed word can
    /// be given to start with; otherwise the message starts as a message
    /// that the chain has seen. An optional requirement on the number of
    /// words can be given too.
    pub fn generate(
        &self,
        seed: Option<&String>,
        length_requirement: Option<&LengthRequirement>,
    ) -> (r: Result<Vec<String>, MarkovChainError>)
        requires
            self.wf(),
        ensures
            generated(self@, seed, length_requirement, r),
    {
        if self.is_empty() {
            return Err(MarkovChainError::Empty);
        }
        if let Some(requirement) = length_requirement {
            if !requirement.is_valid() {
                return Err(MarkovChainError::LengthRequirementInvalid);
            }
        }
        let mut starts: Vec<(String, String)> = Vec::new();
        let mut weights: Vec<i64> = Vec::new();
        match seed {
            // Use the given seed word
            Some(word) => {
                let lower = to_lowercase(word.as_str());
                let word_encoded = encode_db_field_name(lower.as_str());
                let index = self.index();
                let found = match index.find(word_encoded.as_str()) {
                    Some(at) => Some(at),
                    None => {
                        let cleaned = trim_non_alphanumeric(lower.as_str());
                        let cleaned_encoded = encode_db_field_name(cleaned.as_str());
                        index.find(cleaned_encoded.as_str())
                    },
                };
                match found {
                    None => {
                        return Err(MarkovChainError::NoSuchSeed);
                    },
                    Some(at) => {
                        let key_set = index.value_at(at);
                        let n = key_set.len();
                        let mut j: usize = 0;
                        proof {
                            self.lemma_wf();
                            index.lemma_view();
                            key_set.lemma_view();
                            assert(index@.contains_key(index.keys()[at as int]));
                            assert(key_set@.dom() == seed_keys(self@.meta, word@));
                        }
                        while j < n
                            invariant
                                self.wf(),
                                key_set.wf(),
                                n == key_set.keys().len(),
                                j <= n,
                                starts.len() == j,
                                weights.len() == j,
                                key_set@.dom() == seed_keys(self@.meta, word@),
                                self@.meta.contains_key(lowercase_seed(word@))
                                    || self@.meta.contains_key(cleaned_seed(word@)),
                                all_positive(weights@),
                                forall|k: int|
                                    0 <= k < j ==> (#[trigger] starts[k]).0@ == decoded(
                                        key_first(key_set.keys()[k]),
                                    ) && starts[k].1@ == decoded(key_second(key_set.keys()[k])),
                            decreases n - j,
                        {
                            let key = key_set.key_at(j);
                            proof {
                                self.lemma_wf();
                                key_set.lemma_view();
                                assert(key_set@.contains_key(key@));
                                assert(seed_keys(self@.meta, word@).contains(key@));
                                assert(self@.data.contains_key(key@));
                            }
                            let parts = string_to_pair(key.as_str());
                            starts.push(
                                (
                                    decode_db_field_name(parts.0.as_str()),
                                    decode_db_field_name(parts.1.as_str()),
                                ),
                            );
                            weights.push(self.context_weight(key.as_str()));
                            j += 1;
                        }
                        proof {
                            assert forall|first: Seq<char>, second: Seq<char>| #[trigger]
                                is_start(self@.meta, seed, first, second) implies exists|k: int|
                                0 <= k < starts.len() && (#[trigger] starts[k]).0@ == first
                                    && starts[k].1@ == second by {
                                let key = choose|key: Seq<char>|
                                    seed_keys(self@.meta, word@).contains(key) && first
                                        == decoded(key_first(key)) && second == decoded(
                                        key_second(key),
                                    );
                                key_set.lemma_view();
                                assert(key_set.keys().contains(key));
                                let k = choose|k: int|
                                    0 <= k < key_set.keys().len() && key_set.keys()[k] == key;
                                assert(starts[k].0@ == first);
                            }
                            assert forall|k: int| 0 <= k < starts.len() implies is_start(
                                self@.meta,
                                seed,
                                (#[trigger] starts[k]).0@,
                                starts[k].1@,
                            ) by {
                                key_set.lemma_view();
                                assert(key_set@.contains_key(key_set.keys()[k]));
                                assert(seed_keys(self@.meta, word@).contains(key_set.keys()[k]));
                            }
                        }
                    },
                }
            },
            // Use the default starting point, which is the start of a message
            None => {
                starts.push((String::new(), String::new()));
                weights.push(1);
                proof {
                    assert forall|first: Seq<char>, second: Seq<char>| #[trigger]
                        is_start(self@.meta, seed, first, second) implies exists|k: int|
                        0 <= k < starts.len() && (#[trigger] starts[k]).0@ == first
                            && starts[k].1@ == second by {
                        assert(starts[0].0@ =~= first);
                        assert(starts[0].1@ =~= second);
                    }
                }
            },
        }
        let order = weighted_order(&weights);
        let mut i: usize = 0;
        while i < order.len()
            invariant
                self.wf(),
                !(self@.data.dom() =~= Set::empty()),
                !unfit(length_requirement),
                knows_seed(self@.meta, seed),
                i <= order.len(),
                order.len() == starts.len(),
                forall|k: int| 0 <= k < order.len() ==> #[trigger] order[k] < starts.len(),
                forall|k: int|
                    0 <= k < starts.len() ==> is_start(
                        self@.meta,
                        seed,
                        (#[trigger] starts[k]).0@,
                        starts[k].1@,
                    ),
                forall|k: int|
                    0 <= k < i ==> hopeless(
                        self@.data,
                        length_requirement,
                        starts[#[trigger] order[k] as int].0@,
                        starts[order[k] as int].1@,
                        0,
                    ),
            decreases order.len() - i,
        {
            let at = order[i];
            let start = (starts[at].0.clone(), starts[at].1.clone());
            match self.generate_internal(length_requirement, start, 0) {
                Ok(path) => {
                    assert(is_start(self@.meta, seed, starts[at as int].0@, starts[at as int].1@));
                    assert(sentence(
                        self@.data,
                        starts[at as int].0@,
                        starts[at as int].1@,
                        word_views(path@),
                    ));
                    return Ok(path);
                },
                Err(_) => {},
            }
            i += 1;
        }
        proof {
            assert forall|first: Seq<char>, second: Seq<char>| #[trigger]
                is_start(self@.meta, seed, first, second) implies hopeless(
                self@.data,
                length_requirement,
                first,
                second,
                0,
            ) by {
                let k = choose|k: int|
                    0 <= k < starts.len() && (#[trigger] starts[k]).0@ == first && starts[k].1@
                        == second;
                assert(order@.contains(k as usize));
                let p = choose|p: int| 0 <= p < order.len() && order[p] == k as usize;
                assert(hopeless(
                    self@.data,
                    length_requirement,
                    starts[order[p] as int].0@,
                    starts[order[p] as int].1@,
                    0,
                ));
            }
            if speakable(self@, seed, length_requirement) {
                let (first, second, out) = choose|
                    first: Seq<char>,
                    second: Seq<char>,
                    out: Seq<Seq<char>>,
                | #[trigger]
                    sentence(self@.data, first, second, out) && is_start(
                        self@.meta,
                        seed,
                        first,
                        second,
                    ) && out.len() <= i32::MAX && meets(length_requirement, out.len() as int);
                assert(hopeless(self@.data, length_requirement, first, second, 0));
                assert(false);
            }
        }
        Err(MarkovChainError::CannotMeetLengthRequirement)
    }
}

/// Whether the chain can say a message that starts as the seed asks and
/// meets the length requirement, within the greatest length that is
/// counted.
pub open spec fn speakable(
    model: ChainModel,
    seed: Option<&String>,
    requirement: Option<&LengthRequirement>,
) -> bool {
    exists|first: Seq<char>, second: Seq<char>, out: Seq<Seq<char>>| #[trigger]
        sentence(model.data, first, second, out) && is_start(model.meta, seed, first, second)
            && out.len() <= i32::MAX && meets(requirement, out.len() as int)
}

/// Whether `r` is a result of generating a message from the chain: each
/// error comes on its inputs and on no others, in this order, and a
/// message that is returned is one that the chain can say, starts as the
/// seed asks and meets the length requirement. Where there is such a
/// message, one is returned.
pub open spec fn generated(
    model: ChainModel,
    seed: Option<&String>,
    requirement: Option<&LengthRequirement>,
    r: Result<Vec<String>, MarkovChainError>,
) -> bool {
    let empty = model.data.dom() =~= Set::empty();
    match r {
        Err(MarkovChainError::Empty) => empty,
        Err(MarkovChainError::LengthRequirementInvalid) => !empty && unfit(requirement),
        Err(MarkovChainError::NoSuchSeed) => !empty && !unfit(requirement) && !knows_seed(
            model.meta,
            seed,
        ),
        Err(MarkovChainError::CannotMeetLengthRequirement) => !empty && !unfit(requirement)
            && knows_seed(model.meta, seed) && !speakable(model, seed, requirement),
        Ok(path) => !empty && !unfit(requirement) && knows_seed(model.meta, seed) && path.len()
            <= i32::MAX && meets(requirement, path.len() as int) && exists|
            first: Seq<char>,
            second: Seq<char>,
        | #[trigger]
            is_start(model.meta, seed, first, second) && sentence(
                model.data,
                first,
                second,
                word_views(path@),
            ),
    }
}

/// A sum of counts as a weight: the sum, and where it is greater than the
/// greatest counter, that counter.
pub open spec fn capped(sum: int) -> int {
    if sum > i64::MAX {
        i64::MAX as int
    } else {
        sum
    }
}

/// Whether there is a length requirement that makes no sense.
pub open spec fn unfit(requirement: Option<&LengthRequirement>) -> bool {
    match requirement {
        Some(r) => !r.valid(),
        None => false,
    }
}

/// The keys of the contexts that a seed word stands for: those under its
/// lower-case form, or else those under its cleaned form.
pub open spec fn seed_keys(meta: SeedIndex, word: Seq<char>) -> Set<Seq<char>> {
    if meta.contains_key(lowercase_seed(word)) {
        meta[lowercase_seed(word)]
    } else if meta.contains_key(cleaned_seed(word)) {
        meta[cleaned_seed(word)]
    } else {
        Set::empty()
    }
}

/// Whether the seed, if one is given, is found in the seed index.
pub open spec fn knows_seed(meta: SeedIndex, seed: Option<&String>) -> bool {
    match seed {
        Some(word) => meta.contains_key(lowercase_seed(word@)) || meta.contains_key(
            cleaned_seed(word@),
        ),
        None => true,
    }
}

/// Whether a message may start from the context `(first, second)`: without
/// a seed, from the start of a message; with one, from the two words of a
/// context that the seed stands for.
pub open spec fn is_start(
    meta: SeedIndex,
    seed: Option<&String>,
    first: Seq<char>,
    second: Seq<char>,
) -> bool {
    match seed {
        Some(word) => exists|key: Seq<char>|
            seed_keys(meta, word@).contains(key) && first == decoded(key_first(key)) && second
                == decoded(key_second(key)),
        None => first.len() == 0 && second.len() == 0,
    }
}

} // verus!
