use std::collections::HashMap;
use vstd::prelude::*;
use vstd::string::StringExecFns;

verus! {

broadcast use vstd::std_specs::hash::group_hash_axioms;

/// What the bot has asked a user.
#[derive(Debug, Clone)]
pub enum PromptKind {
    /// Whether to delete the user's own data.
    DeleteMyData,
    /// Whether to delete the data of the user with the given id.
    DeleteUserData(String),
}

/// A question of the bot that waits for its answer.
#[derive(Debug, Clone)]
pub struct Prompt {
    /// Message id of the message from the bot that asked.
    pub message_id: i32,
    pub kind: PromptKind,
}

/// The questions that wait for an answer, one for a user in a chat at
/// most.
pub struct PromptStore {
    /// First key is the chat id, second key is the user id within that chat.
    prompts: HashMap<i64, HashMap<u64, Prompt>>,
}

impl View for PromptStore {
    type V = Map<(i64, u64), Prompt>;

    closed spec fn view(&self) -> Map<(i64, u64), Prompt> {
        Map::new(
            |at: (i64, u64)| self.prompts@.contains_key(at.0) && self.prompts@[at.0]@.contains_key(
                at.1,
            ),
            |at: (i64, u64)| self.prompts@[at.0]@[at.1],
        )
    }
}

/// The question that a message answers: the one that waits for the
/// message's sender in its chat, where the message replies to the message
/// that asked it.
pub open spec fn prompt_answered(
    prompts: Map<(i64, u64), Prompt>,
    chat_id: i64,
    user_id: Option<u64>,
    reply_to_message_id: Option<i32>,
) -> Option<Prompt> {
    match (user_id, reply_to_message_id) {
        (Some(user), Some(message)) => if prompts.contains_key((chat_id, user)) && prompts[(
            chat_id,
            user,
        )].message_id == message {
            Some(prompts[(chat_id, user)])
        } else {
            None
        },
        _ => None,
    }
}

impl PromptStore {
    /// A store without questions.
    pub fn new() -> (r: Self)
        ensures
            r@ == Map::<(i64, u64), Prompt>::empty(),
    {
        let r = PromptStore { prompts: HashMap::new() };
        assert(r@ =~= Map::<(i64, u64), Prompt>::empty());
        r
    }

    /// Lets a question wait for a user in a chat, in the place of one that
    /// waited for the user there.
    pub fn add_prompt(&mut self, chat_id: i64, user_id: u64, prompt: Prompt)
        ensures
            final(self)@ == old(self)@.insert((chat_id, user_id), prompt),
    {
        let mut of_chat = match self.prompts.remove(&chat_id) {
            Some(of_chat) => of_chat,
            None => HashMap::new(),
        };
        of_chat.insert(user_id, prompt);
        self.prompts.insert(chat_id, of_chat);
        assert(self@ =~= old(self)@.insert((chat_id, user_id), prompt));
    }

    /// Lets no question wait for a user in a chat any more.
    pub fn remove_prompt(&mut self, chat_id: i64, user_id: &u64)
        ensures
            final(self)@ == old(self)@.remove((chat_id, *user_id)),
    {
        match self.prompts.remove(&chat_id) {
            Some(mut of_chat) => {
                of_chat.remove(user_id);
                self.prompts.insert(chat_id, of_chat);
            },
            None => {},
        }
        assert(self@ =~= old(self)@.remove((chat_id, *user_id)));
    }

    /// Gets the question that a message answers, if there is one.
    pub fn original_prompt_for(
        &self,
        chat_id: i64,
        user_id: Option<u64>,
        reply_to_message_id: Option<i32>,
    ) -> (r: Option<&Prompt>)
        ensures
            match r {
                Some(prompt) => prompt_answered(self@, chat_id, user_id, reply_to_message_id)
                    == Some(*prompt),
                None => prompt_answered(self@, chat_id, user_id, reply_to_message_id) is None,
            },
    {
        if let Some(message_id) = reply_to_message_id {
            if let Some(of_chat) = self.prompts.get(&chat_id) {
                if let Some(user) = user_id {
                    if let Some(prompt) = of_chat.get(&user) {
                        if prompt.message_id == message_id {
                            return Some(prompt);
                        }
                    }
                }
            }
        }
        None
    }
}

/// What the bot answers to the answer to a question: that the data was
/// deleted or was not found, where the answer was yes, and that nothing is
/// deleted, where it was not.
pub fn prompt_reply(kind: &PromptKind, confirmed: bool, found: bool) -> (r: String)
    ensures
        r@ == match *kind {
            PromptKind::DeleteMyData => if !confirmed {
                "Okay, I won't delete your Markov chain data in this group then."@
            } else if found {
                "Your Markov chain data in this group has been deleted."@
            } else {
                "No data found."@
            },
            PromptKind::DeleteUserData(_) => if !confirmed {
                "Okay, I won't delete their Markov chain data in this group then."@
            } else if found {
                "Their Markov chain data in this group has been deleted."@
            } else {
                "No data found."@
            },
        },
{
    match kind {
        PromptKind::DeleteMyData => {
            if !confirmed {
                String::from_str("Okay, I won't delete your Markov chain data in this group then.")
            } else if found {
                String::from_str("Your Markov chain data in this group has been deleted.")
            } else {
                String::from_str("No data found.")
            }
        },
        PromptKind::DeleteUserData(_) => {
            if !confirmed {
                String::from_str(
                    "Okay, I won't delete their Markov chain data in this group then.",
                )
            } else if found {
                String::from_str("Their Markov chain data in this group has been deleted.")
            } else {
                String::from_str("No data found.")
            }
        },
    }
}

} // verus!
