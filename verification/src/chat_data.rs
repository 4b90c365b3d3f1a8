use vstd::prelude::*;
use vstd::string::StringExecFns;
use crate::generator::{generated, MarkovChainError};
use crate::length::LengthRequirement;
use crate::markov_chain::{spare, TripletMarkovChain};
use crate::model::{
    count, lemma_add_message_counts, lemma_count_not_negative, lemma_empty_wf, ChainModel,
};
use crate::str_map::StrMap;
use crate::text::{chars_of, lemma_words_len, words};

verus! {

/// The chains of a chat: for the id of a user, what the user has said.
pub type Chains = Map<Seq<char>, ChainModel>;

/// The chain of a user, empty where the user has none.
pub open spec fn chain_of(chains: Chains, user_id: Seq<char>) -> ChainModel {
    if chains.contains_key(user_id) {
        chains[user_id]
    } else {
        ChainModel::empty()
    }
}

/// The chains after a user has said a text.
pub open spec fn said(chains: Chains, user_id: Seq<char>, text: Seq<char>) -> Chains {
    chains.insert(user_id, chain_of(chains, user_id).add_message(words(text)))
}

/// The chains after a user was forgotten: what the user has said is taken
/// back from the chain of all users, and the user's chain is gone.
pub open spec fn forgotten(chains: Chains, user_id: Seq<char>) -> Chains {
    if user_id != "all"@ && chains.contains_key(user_id) && chains.contains_key("all"@) {
        chains.remove(user_id).insert("all"@, chains["all"@].remove_chain(chains[user_id]))
    } else {
        chains.remove(user_id)
    }
}

/// Whether a text can be added to the chain of a user without a count
/// passing the greatest counter.
pub open spec fn has_room(chains: Chains, user_id: Seq<char>, text: Seq<char>) -> bool {
    forall|k: Seq<char>, t: Seq<char>| #[trigger]
        count(chain_of(chains, user_id).data, k, t) + text.len() + 2 <= i64::MAX
}

/// Whether a text of a sender can be recorded without a count passing the
/// greatest counter: the counts of the sender's chain can grow by the
/// number of characters of the text and two, and so can those of the chain
/// of all users, by twice as much where the sender is called `all`.
pub open spec fn fits(chains: Chains, sender_id: Seq<char>, text: Seq<char>) -> bool {
    text.len() <= usize::MAX / 2 - 2 && spare(
        chain_of(chains, sender_id).data,
        text.len() as int + 2,
    ) && spare(
        chain_of(chains, "all"@).data,
        if sender_id == "all"@ {
            2 * (text.len() as int + 2)
        } else {
            text.len() as int + 2
        },
    )
}

/// Data structure containing Markov chains for a chat.
pub struct ChatData {
    /// Id of the chat that this data belongs to.
    chat_id: i64,
    /// From a user's id to the user's Markov chain.
    data: StrMap<TripletMarkovChain>,
}

impl View for ChatData {
    type V = Chains;

    closed spec fn view(&self) -> Chains {
        Map::new(|k: Seq<char>| self.data@.contains_key(k), |k: Seq<char>| self.data@[k]@)
    }
}

impl ChatData {
    /// No user has two chains, and every chain is well-formed.
    pub closed spec fn wf(&self) -> bool {
        self.data.wf() && forall|k: Seq<char>| #[trigger]
            self.data@.contains_key(k) ==> self.data@[k].wf()
    }

    /// The id of the chat.
    pub closed spec fn id(&self) -> i64 {
        self.chat_id
    }

    /// Every chain of a well-formed chat is well-formed.
    pub proof fn lemma_wf(&self)
        requires
            self.wf(),
        ensures
            forall|k: Seq<char>| #[trigger] self@.contains_key(k) ==> self@[k].wf(),
    {
        assert forall|k: Seq<char>| #[trigger] self@.contains_key(k) implies self@[k].wf() by {
            self.data@[k].lemma_wf();
        }
    }

    /// The data of a chat without chains.
    pub fn new(chat_id: i64) -> (r: Self)
        ensures
            r.wf(),
            r.id() == chat_id,
            r@ == Map::<Seq<char>, ChainModel>::empty(),
    {
        let r = ChatData { chat_id, data: StrMap::new() };
        assert(r@ =~= Map::<Seq<char>, ChainModel>::empty());
        r
    }

    /// The id of the chat.
    pub fn chat_id(&self) -> (r: i64)
        ensures
            r == self.id(),
    {
        self.chat_id
    }

    /// The chains as they are stored.
    pub fn chains(&self) -> (r: &StrMap<TripletMarkovChain>)
        requires
            self.wf(),
        ensures
            r.wf(),
            forall|k: Seq<char>| #[trigger] r@.contains_key(k) <==> self@.contains_key(k),
            forall|k: Seq<char>| #[trigger] r@.contains_key(k) ==> r@[k].wf() && r@[k]@ == self@[k],
    {
        &self.data
    }

    /// Puts a chain in the place of the one that a user has, or gives the
    /// user a first one.
    pub fn set_chain(&mut self, user_id: String, chain: TripletMarkovChain)
        requires
            old(self).wf(),
            chain.wf(),
        ensures
            final(self).wf(),
            final(self).id() == old(self).id(),
            final(self)@ == old(self)@.insert(user_id@, chain@),
    {
        let ghost inserted = chain@;
        match self.data.find(user_id.as_str()) {
            Some(at) => {
                proof {
                    self.data.lemma_view();
                }
                self.data.replace_value(at, chain);
            },
            None => {
                self.data.push_new(user_id, chain);
            },
        }
        assert(self@ =~= old(self)@.insert(user_id@, inserted));
    }

    /// Adds a message to a user's Markov chain.
    pub fn add_message(&mut self, user_id: String, text: &str)
        requires
            old(self).wf(),
            has_room(old(self)@, user_id@, text@),
        ensures
            final(self).wf(),
            final(self).id() == old(self).id(),
            final(self)@ == said(old(self)@, user_id@, text@),
    {
        match self.data.find(user_id.as_str()) {
            Some(at) => {
                proof {
                    self.data.lemma_view();
                }
                let mut markov_chain = self.data.replace_value(at, TripletMarkovChain::new());
                assert(markov_chain@ == chain_of(old(self)@, user_id@));
                markov_chain.add_message(text);
                let ghost added = markov_chain@;
                self.data.replace_value(at, markov_chain);
                assert(self@ =~= old(self)@.insert(user_id@, added));
            },
            None => {
                let mut markov_chain = TripletMarkovChain::default();
                assert(markov_chain@ == chain_of(old(self)@, user_id@));
                markov_chain.add_message(text);
                let ghost added = markov_chain@;
                self.data.push_new(user_id, markov_chain);
                assert(self@ =~= old(self)@.insert(user_id@, added));
            },
        }
    }

    /// Adds a message to its sender's Markov chain and to the Markov chain
    /// of all users in the chat.
    pub fn record(&mut self, sender_id: String, text: &str)
        requires
            old(self).wf(),
            has_room(old(self)@, sender_id@, text@),
            has_room(said(old(self)@, sender_id@, text@), "all"@, text@),
        ensures
            final(self).wf(),
            final(self).id() == old(self).id(),
            final(self)@ == said(said(old(self)@, sender_id@, text@), "all"@, text@),
    {
        self.add_message(sender_id, text);
        self.add_message(String::from_str("all"), text);
    }

    /// Adds a message to its sender's Markov chain and to the Markov chain
    /// of all users in the chat, if the counters have room for it, and says
    /// whether it did. Without room nothing changes.
    pub fn try_record(&mut self, sender_id: String, text: &str) -> (recorded: bool)
        requires
            old(self).wf(),
        ensures
            final(self).wf(),
            final(self).id() == old(self).id(),
            recorded == fits(old(self)@, sender_id@, text@),
            recorded ==> final(self)@ == said(said(old(self)@, sender_id@, text@), "all"@, text@),
            !recorded ==> final(self)@ == old(self)@,
    {
        let length = chars_of(text).len();
        if length > usize::MAX / 2 - 2 {
            return false;
        }
        let once = length + 2;
        let same = *sender_id.as_str() == *"all";
        let for_all = if same {
            2 * once
        } else {
            once
        };
        proof {
            self.lemma_wf();
            self.data.lemma_view();
        }
        let sender_fits = match self.data.find(sender_id.as_str()) {
            Some(at) => self.data.value_at(at).has_spare(once),
            None => once as u128 <= i64::MAX as u128,
        };
        let all_fits = match self.data.find("all") {
            Some(at) => self.data.value_at(at).has_spare(for_all),
            None => for_all as u128 <= i64::MAX as u128,
        };
        proof {
            lemma_empty_wf();
            lemma_count_not_negative(ChainModel::empty().data, Seq::empty(), Seq::empty());
            assert(sender_fits == spare(chain_of(old(self)@, sender_id@).data, once as int));
            assert(all_fits == spare(chain_of(old(self)@, "all"@).data, for_all as int));
        }
        if sender_fits && all_fits {
            proof {
                let now = said(old(self)@, sender_id@, text@);
                if same {
                    let before = chain_of(old(self)@, "all"@);
                    let after = before.add_message(words(text@));
                    lemma_add_message_counts(before, words(text@));
                    lemma_words_len(text@);
                    assert(chain_of(now, "all"@) == after);
                    assert forall|k: Seq<char>, t: Seq<char>| #[trigger]
                        count(after.data, k, t) + text@.len() + 2 <= i64::MAX by {
                        assert(count(before.data, k, t) + for_all <= i64::MAX);
                    }
                } else {
                    assert(chain_of(now, "all"@) == chain_of(old(self)@, "all"@));
                }
            }
            self.record(sender_id, text);
            true
        } else {
            false
        }
    }

    /// Forgets a user: what the user has said is taken back from the chain
    /// of all users, and the user's chain is deleted. Says whether the user
    /// had a chain.
    pub fn forget_user(&mut self, user_id: &str) -> (found: bool)
        requires
            old(self).wf(),
        ensures
            final(self).wf(),
            final(self).id() == old(self).id(),
            found == old(self)@.contains_key(user_id@),
            final(self)@ == forgotten(old(self)@, user_id@),
    {
        match self.data.find(user_id) {
            Some(at) => {
                proof {
                    self.data.lemma_view();
                }
                let removed = self.data.remove_at(at);
                let markov_chain = removed.1;
                assert(self@ =~= old(self)@.remove(user_id@));
                let ghost without = self@;
                match self.data.find("all") {
                    Some(all_at) => {
                        proof {
                            self.data.lemma_view();
                        }
                        let mut all_markov_chain = self.data.replace_value(
                            all_at,
                            TripletMarkovChain::new(),
                        );
                        all_markov_chain.remove_markov_chain(&markov_chain);
                        let ghost taken = all_markov_chain@;
                        self.data.replace_value(all_at, all_markov_chain);
                        assert(self@ =~= without.insert("all"@, taken));
                    },
                    None => {},
                }
                true
            },
            None => {
                assert(self@ =~= old(self)@.remove(user_id@));
                false
            },
        }
    }

    /// Generates a message from the chain of a user, if the user has one.
    pub fn generate(
        &self,
        user_id: &str,
        seed: Option<&String>,
        length_requirement: Option<&LengthRequirement>,
    ) -> (r: Option<Result<Vec<String>, MarkovChainError>>)
        requires
            self.wf(),
        ensures
            r is Some <==> self@.contains_key(user_id@),
            r matches Some(result) ==> generated(
                self@[user_id@],
                seed,
                length_requirement,
                result,
            ),
    {
        match self.data.find(user_id) {
            Some(at) => {
                proof {
                    self.data.lemma_view();
                }
                Some(self.data.value_at(at).generate(seed, length_requirement))
            },
            None => None,
        }
    }
}

} // verus!
