use vstd::prelude::*;
use vstd::string::{StringExecFns, StringSliceAdditionalSpecFns};
use vstd::utf8::{decode_utf8, encode_utf8_decode_utf8};
use crate::command::{byte_range, slice_bytes, EntityKind, MessageEntity, MsgCommandParamsError};
use crate::generator::MarkovChainError;
use crate::import::joined;
use crate::text::{lowercase, starts_with, to_lowercase};

verus! {

/// The commands that the bot follows.
#[derive(Debug, Clone, Copy, PartialEq, Eq, Structural)]
pub enum BotCommand {
    Msg,
    DeleteMyData,
    DeleteUserData,
}

/// What the bot does with a message.
#[derive(Debug, Clone, Copy, PartialEq, Eq, Structural)]
pub enum MessageAction {
    /// Nothing.
    Ignore,
    /// Take it as the answer to the question that it replies to.
    AnswerPrompt,
    /// Follow the command that it starts with.
    Run(BotCommand),
    /// Add its text to the chains of the chat.
    Learn,
}

/// The command that a name stands for: the name of the command, or that
/// name and then `@` and anything.
pub open spec fn command_named(name: Seq<char>) -> Option<BotCommand> {
    if name == "msg"@ || "msg@"@.is_prefix_of(name) {
        Some(BotCommand::Msg)
    } else if name == "deletemydata"@ || "deletemydata@"@.is_prefix_of(name) {
        Some(BotCommand::DeleteMyData)
    } else if name == "deleteusermydata"@ || "deleteuserdata@"@.is_prefix_of(name) {
        Some(BotCommand::DeleteUserData)
    } else {
        None
    }
}

/// The command that a name stands for, if it stands for one.
pub fn command_of(name: &str) -> (r: Option<BotCommand>)
    ensures
        r == command_named(name@),
{
    if *name == *"msg" || starts_with(name, "msg@") {
        Some(BotCommand::Msg)
    } else if *name == *"deletemydata" || starts_with(name, "deletemydata@") {
        Some(BotCommand::DeleteMyData)
    } else if *name == *"deleteusermydata" || starts_with(name, "deleteuserdata@") {
        Some(BotCommand::DeleteUserData)
    } else {
        None
    }
}

/// What the bot does with a message that has the given text and entities,
/// from what is known of it: whether it has a sender, and whether it
/// replies to a question that the bot has asked its sender.
pub open spec fn action_for(
    has_sender: bool,
    text: Option<&str>,
    answers_prompt: bool,
    entities: Seq<MessageEntity>,
) -> MessageAction {
    match text {
        Some(text) => if !has_sender {
            MessageAction::Ignore
        } else if answers_prompt {
            MessageAction::AnswerPrompt
        } else if entities.len() > 0 && entities[0].kind == EntityKind::BotCommand {
            match byte_range(
                text,
                entities[0].offset + 1,
                entities[0].offset + entities[0].length,
            ) {
                Some(bytes) => match command_named(decode_utf8(bytes)) {
                    Some(command) => MessageAction::Run(command),
                    None => MessageAction::Ignore,
                },
                None => MessageAction::Ignore,
            }
        } else {
            MessageAction::Learn
        },
        None => MessageAction::Ignore,
    }
}

/// Decides what to do with a message. A message that starts with a bot
/// command is never learned from, whether the command is known or not.
pub fn route(
    has_sender: bool,
    text: Option<&str>,
    answers_prompt: bool,
    entities: &Vec<MessageEntity>,
) -> (r: MessageAction)
    ensures
        r == action_for(has_sender, text, answers_prompt, entities@),
{
    match text {
        Some(text) => {
            if !has_sender {
                MessageAction::Ignore
            } else if answers_prompt {
                MessageAction::AnswerPrompt
            } else if entities.len() > 0 && entities[0].kind == EntityKind::BotCommand {
                let from = entities[0].offset as usize + 1;
                let to = entities[0].offset as usize + entities[0].length as usize;
                match slice_bytes(text, from, to) {
                    Some(command_text) => {
                        proof {
                            encode_utf8_decode_utf8(command_text@);
                        }
                        match command_of(command_text) {
                            Some(command) => MessageAction::Run(command),
                            None => MessageAction::Ignore,
                        }
                    },
                    None => MessageAction::Ignore,
                }
            } else {
                MessageAction::Learn
            }
        },
        None => MessageAction::Ignore,
    }
}

/// What the bot answers where it could not generate a message.
pub fn failure_reply(error: MarkovChainError) -> (r: String)
    ensures
        r@ == match error {
            MarkovChainError::Empty => "<no data>"@,
            MarkovChainError::NoSuchSeed => "<no such seed>"@,
            MarkovChainError::LengthRequirementInvalid => "<invalid length requirement>"@,
            MarkovChainError::CannotMeetLengthRequirement => "<could not meet length requirement>"@,
        },
{
    match error {
        MarkovChainError::Empty => String::from_str("<no data>"),
        MarkovChainError::NoSuchSeed => String::from_str("<no such seed>"),
        MarkovChainError::LengthRequirementInvalid => String::from_str(
            "<invalid length requirement>",
        ),
        MarkovChainError::CannotMeetLengthRequirement => String::from_str(
            "<could not meet length requirement>",
        ),
    }
}

/// What the bot answers where it did not understand the parameters of a
/// /msg command.
pub fn params_error_reply(error: &MsgCommandParamsError) -> (r: String)
    ensures
        r@ == match *error {
            MsgCommandParamsError::TooManySeeds => "<up to one seed word can be provided>"@,
            MsgCommandParamsError::ParseIntError(word) => "<invalid integer in length requirement \""@
                + word@ + "\">"@,
        },
{
    match error {
        MsgCommandParamsError::TooManySeeds => String::from_str(
            "<up to one seed word can be provided>",
        ),
        MsgCommandParamsError::ParseIntError(word) => {
            let mut r = String::from_str("<invalid integer in length requirement \"");
            r.append(word.as_str());
            r.append("\">");
            r
        },
    }
}

/// Whether a text in lower case is one of the ways to say yes.
pub open spec fn affirmative(lower: Seq<char>) -> bool {
    lower == "y"@ || lower == "yes"@ || lower == "ye"@ || lower == "ya"@ || lower == "yeah"@
        || lower == "yea"@ || lower == "yah"@
}

/// Whether an answer to a question of the bot says yes. No text says no.
pub fn is_yes(text: Option<&String>) -> (r: bool)
    ensures
        r == match text {
            Some(text) => affirmative(lowercase(text@)),
            None => false,
        },
{
    match text {
        Some(text) => {
            let lower = to_lowercase(text.as_str());
            let answer = lower.as_str();
            *answer == *"y" || *answer == *"yes" || *answer == *"ye" || *answer == *"ya" || *answer
                == *"yeah" || *answer == *"yea" || *answer == *"yah"
        },
        None => false,
    }
}

/// The words of a generated message as one text, with a space between each
/// two.
pub fn join_words(words: &Vec<String>) -> (r: String)
    ensures
        r@ == joined(Seq::new(words@.len(), |i: int| words@[i]@)),
{
    let ghost texts = Seq::new(words@.len(), |i: int| words@[i]@);
    let mut r = String::new();
    let mut i: usize = 0;
    assert(texts.take(0) =~= Seq::<Seq<char>>::empty());
    while i < words.len()
        invariant
            i <= words.len(),
            texts == Seq::new(words@.len(), |i: int| words@[i]@),
            r@ == joined(texts.take(i as int)),
        decreases words.len() - i,
    {
        if i > 0 {
            r.push(' ');
        }
        r.append(words[i].as_str());
        proof {
            let now = texts.take(i + 1);
            assert(now.drop_last() =~= texts.take(i as int));
            assert(now.last() == words@[i as int]@);
            if i == 0 {
                assert(r@ =~= words@[0]@);
            }
        }
        i += 1;
    }
    assert(texts.take(words.len() as int) =~= texts);
    r
}

} // verus!
