use vstd::prelude::*;
use vstd::string::{StringExecFns, StringSliceAdditionalSpecFns};
use vstd::utf8::{encode_utf8, is_char_boundary};
use crate::codec::{char_range, substring};
use crate::length::{ComparisonOperator, LengthRequirement};
use crate::number::{parse_i32, parsed_i32};
use crate::text::{chars_of, split_whitespace, words};

verus! {

/// What a marked part of a message is, as far as the bot tells the kinds
/// apart. A text mention comes with the id of the user that it names.
#[derive(Debug, Clone, Copy, PartialEq, Eq, Structural)]
pub enum EntityKind {
    Mention,
    TextMention(u64),
    BotCommand,
    Other,
}

/// A marked part of a message: its kind, and where it stands in the text.
#[derive(Debug, Clone, Copy, PartialEq, Eq, Structural)]
pub struct MessageEntity {
    pub kind: EntityKind,
    pub offset: u16,
    pub length: u16,
}

/// The two types of user mentions.
#[derive(Debug)]
pub enum UserMention {
    /// A mention of the form @username. The name does not include the
    /// leading @.
    AtMention(String),
    /// A text mention that is a link to a user who does not have a
    /// username, with the id of that user.
    TextMention(u64),
}

/// The source of a new message: one user's chain, or the chain of all
/// users.
#[derive(Debug)]
pub enum Source {
    SingleUser(UserMention),
    AllUsers,
}

/// What a /msg command asks for.
#[derive(Debug)]
pub struct MsgCommandParams {
    pub source: Source,
    pub seed: Option<String>,
    pub length_requirement: Option<LengthRequirement>,
}

/// Why the parameters of a /msg command were not understood.
#[derive(Debug)]
pub enum MsgCommandParamsError {
    TooManySeeds,
    ParseIntError(String),
}

/// The value of a length requirement is not a number.
#[derive(Debug, Clone, Copy, PartialEq, Eq, Structural)]
pub struct InvalidInteger;

/// Whether the bytes `from..to` of the text are a part of it that can be
/// taken out: the two positions are in order, within the text, and each at
/// the start of a character or at the end.
pub open spec fn sliceable(text: &str, from: int, to: int) -> bool {
    from <= to <= text.spec_bytes().len() && is_char_boundary(text.spec_bytes(), from)
        && is_char_boundary(text.spec_bytes(), to)
}

/// The bytes `from..to` of the text, where they can be taken out.
pub open spec fn byte_range(text: &str, from: int, to: int) -> Option<Seq<u8>> {
    if sliceable(text, from, to) {
        Some(text.spec_bytes().subrange(from, to))
    } else {
        None
    }
}

/// The bytes of a part of a text, if there is one.
pub open spec fn bytes_of(part: Option<&str>) -> Option<Seq<u8>> {
    match part {
        Some(part) => Some(part.spec_bytes()),
        None => None,
    }
}

/// `str::get` with a range of byte positions: the part of the string
/// between the two positions, where they are in order, within the string
/// and each at the start of a character or at the end; else nothing.
#[verifier::external_body]
pub(crate) fn slice_bytes<'a>(s: &'a str, from: usize, to: usize) -> (r: Option<&'a str>)
    ensures
        bytes_of(r) == byte_range(s, from as int, to as int),
{
    s.get(from..to)
}

/// The comparison operator that a string starts with, and how many
/// characters the operator has.
pub open spec fn operator_at(s: Seq<char>) -> Option<(ComparisonOperator, int)> {
    if s.len() == 0 {
        None
    } else if s[0] == '>' {
        if s.len() > 1 && s[1] == '=' {
            Some((ComparisonOperator::GreaterThanOrEqualTo, 2))
        } else {
            Some((ComparisonOperator::GreaterThan, 1))
        }
    } else if s[0] == '<' {
        if s.len() > 1 && s[1] == '=' {
            Some((ComparisonOperator::LessThanOrEqualTo, 2))
        } else {
            Some((ComparisonOperator::LessThan, 1))
        }
    } else if s[0] == '=' {
        Some((ComparisonOperator::EqualTo, 1))
    } else {
        None
    }
}

/// The length requirement that a word stands for: a comparison operator
/// and a number behind it. A word that starts with no operator stands for
/// none, and one with an operator and no number behind it is an error.
pub open spec fn length_requirement_of(s: Seq<char>) -> Result<
    Option<LengthRequirement>,
    InvalidInteger,
> {
    match operator_at(s) {
        Some((comparison_operator, n)) => match parsed_i32(s.skip(n)) {
            Some(value) => Ok(Some(LengthRequirement { value, comparison_operator })),
            None => Err(InvalidInteger),
        },
        None => Ok(None),
    }
}

/// Reads a length requirement from a word, if the word starts with a
/// comparison operator.
pub fn parse_length_requirement(s: &str) -> (r: Result<Option<LengthRequirement>, InvalidInteger>)
    ensures
        r == length_requirement_of(s@),
{
    let chars = chars_of(s);
    let n = chars.len();
    if n == 0 {
        return Ok(None);
    }
    let followed = n > 1 && chars[1] == '=';
    let (comparison_operator, length): (ComparisonOperator, usize) = if chars[0] == '>' {
        if followed {
            (ComparisonOperator::GreaterThanOrEqualTo, 2)
        } else {
            (ComparisonOperator::GreaterThan, 1)
        }
    } else if chars[0] == '<' {
        if followed {
            (ComparisonOperator::LessThanOrEqualTo, 2)
        } else {
            (ComparisonOperator::LessThan, 1)
        }
    } else if chars[0] == '=' {
        (ComparisonOperator::EqualTo, 1)
    } else {
        return Ok(None);
    };
    let rest = substring(s, length, n);
    assert(rest@ =~= s@.skip(length as int));
    match parse_i32(rest) {
        Some(value) => Ok(Some(LengthRequirement { value, comparison_operator })),
        None => Err(InvalidInteger),
    }
}

/// Parses up to one seed value from the given string. An error is returned
/// if more than one seed value is given.
pub fn get_seed(text: &str) -> (r: Result<Option<String>, String>)
    ensures
        match r {
            Ok(None) => words(text@).len() == 0,
            Ok(Some(seed)) => words(text@).len() == 1 && seed@ == words(text@)[0],
            Err(message) => words(text@).len() > 1 && message@
                == "<up to one seed word can be provided>"@,
        },
{
    let parts = split_whitespace(text);
    if parts.len() == 1 {
        Ok(Some(parts[0].clone()))
    } else if parts.len() > 1 {
        Err(String::from_str("<up to one seed word can be provided>"))
    } else {
        Ok(None)
    }
}

/// Where a marked part of a message ends, counted as its start is.
pub open spec fn entity_end(entity: MessageEntity) -> int {
    entity.offset + entity.length
}

/// Whom a mention names: the user with a name, given by the bytes of the
/// name, or the user with an id.
pub enum Mentioned {
    Name(Seq<u8>),
    User(u64),
}

/// Whom an entity of a text mentions: for a mention, the user whose name
/// stands behind the `@`, where the name can be taken out of the text; for
/// a text mention, the user that it links to; for another entity, nobody.
pub open spec fn mentioned(text: &str, entity: MessageEntity) -> Option<Mentioned> {
    match entity.kind {
        EntityKind::Mention => match byte_range(text, entity.offset + 1, entity_end(entity)) {
            Some(name) => Some(Mentioned::Name(name)),
            None => None,
        },
        EntityKind::TextMention(id) => Some(Mentioned::User(id)),
        _ => None,
    }
}

/// Whom a user mention names.
pub open spec fn mention_view(mention: UserMention) -> Mentioned {
    match mention {
        UserMention::AtMention(username) => Mentioned::Name(encode_utf8(username@)),
        UserMention::TextMention(id) => Mentioned::User(id),
    }
}

/// Whom a user mention names, if there is one.
pub open spec fn mention_views(mention: Option<UserMention>) -> Option<Mentioned> {
    match mention {
        Some(mention) => Some(mention_view(mention)),
        None => None,
    }
}

/// Given a message's text and an entity within it, returns the user
/// mention if one is present.
pub fn get_user_mention(text: &str, entity: &MessageEntity) -> (r: Option<UserMention>)
    ensures
        mention_views(r) == mentioned(text, *entity),
{
    match entity.kind {
        EntityKind::Mention => {
            let from = entity.offset as usize + 1;
            let to = entity.offset as usize + entity.length as usize;
            match slice_bytes(text, from, to) {
                Some(username) => Some(UserMention::AtMention(String::from_str(username))),
                None => None,
            }
        },
        EntityKind::TextMention(id) => Some(UserMention::TextMention(id)),
        _ => None,
    }
}

/// What the words behind a /msg command and its mention ask for.
pub enum Asked {
    Params { seed: Option<Seq<char>>, length_requirement: Option<LengthRequirement> },
    TooManySeeds,
    InvalidInteger(Seq<char>),
}

/// What the words behind a /msg command and its mention ask for: nothing,
/// a seed, a length requirement, or a seed and then a length requirement.
pub open spec fn asked(parts: Seq<Seq<char>>) -> Asked {
    if parts.len() == 0 {
        Asked::Params { seed: None, length_requirement: None }
    } else if parts.len() == 1 {
        match length_requirement_of(parts[0]) {
            Err(_) => Asked::InvalidInteger(parts[0]),
            Ok(None) => Asked::Params { seed: Some(parts[0]), length_requirement: None },
            Ok(Some(requirement)) => Asked::Params {
                seed: None,
                length_requirement: Some(requirement),
            },
        }
    } else if parts.len() == 2 {
        match length_requirement_of(parts[1]) {
            Err(_) => Asked::InvalidInteger(parts[1]),
            Ok(None) => Asked::TooManySeeds,
            Ok(Some(requirement)) => Asked::Params {
                seed: Some(parts[0]),
                length_requirement: Some(requirement),
            },
        }
    } else {
        Asked::TooManySeeds
    }
}

/// What a result of reading the parameters says, in characters.
pub open spec fn asked_by(r: Result<MsgCommandParams, MsgCommandParamsError>) -> Asked {
    match r {
        Ok(params) => Asked::Params {
            seed: match params.seed {
                Some(seed) => Some(seed@),
                None => None,
            },
            length_requirement: params.length_requirement,
        },
        Err(MsgCommandParamsError::TooManySeeds) => Asked::TooManySeeds,
        Err(MsgCommandParamsError::ParseIntError(word)) => Asked::InvalidInteger(word@),
    }
}

/// Whom a source names: the user of a mention, or nobody for all users.
pub open spec fn source_view(source: Source) -> Option<Mentioned> {
    match source {
        Source::SingleUser(mention) => Some(mention_view(mention)),
        Source::AllUsers => None,
    }
}

/// Where the parameters of a /msg command start: behind the mention that
/// follows the command, or behind the command where no mention follows.
pub open spec fn params_start(text: &str, entities: Seq<MessageEntity>) -> int {
    if entities.len() > 1 && mentioned(text, entities[1]) is Some {
        entity_end(entities[1])
    } else {
        entity_end(entities[0])
    }
}

/// Reads the parameters of a /msg command: `/msg [mention] [seed] [length
/// requirement]`. The first entity is the command itself.
pub fn parse_msg_command_params(text: &str, entities: &Vec<MessageEntity>) -> (r: Result<
    MsgCommandParams,
    MsgCommandParamsError,
>)
    requires
        entities.len() > 0,
    ensures
        asked_by(r) == asked(
            words(
                char_range(text@, params_start(text, entities@), text.len() as int),
            ),
        ),
        r matches Ok(params) ==> source_view(params.source) == if entities.len() > 1 {
            mentioned(text, entities[1])
        } else {
            None
        },
{
    let command_entity = entities[0];
    let command_end = command_entity.offset as usize + command_entity.length as usize;
    let mention = if entities.len() > 1 {
        get_user_mention(text, &entities[1])
    } else {
        None
    };
    let (source, start) = match mention {
        Some(user_mention) => (
            Source::SingleUser(user_mention),
            entities[1].offset as usize + entities[1].length as usize,
        ),
        None => (Source::AllUsers, command_end),
    };
    let remaining_text = substring(text, start, text.len());
    let parts = split_whitespace(remaining_text);
    let ghost ws = words(remaining_text@);
    proof {
        assert(start == params_start(text, entities@));
        assert(ws == words(
            char_range(text@, params_start(text, entities@), text.len() as int),
        ));
        if parts.len() > 0 {
            assert(parts[0]@ == ws[0]);
        }
        if parts.len() > 1 {
            assert(parts[1]@ == ws[1]);
        }
    }
    let (seed, length_requirement) = if parts.len() == 0 {
        // Neither
        (None, None)
    } else if parts.len() == 1 {
        // Seed or length requirement
        match parse_length_requirement(parts[0].as_str()) {
            Err(_) => {
                return Err(MsgCommandParamsError::ParseIntError(parts[0].clone()));
            },
            Ok(None) => (Some(parts[0].clone()), None),
            Ok(Some(length_requirement)) => (None, Some(length_requirement)),
        }
    } else if parts.len() == 2 {
        // Seed and length requirement
        match parse_length_requirement(parts[1].as_str()) {
            Err(_) => {
                return Err(MsgCommandParamsError::ParseIntError(parts[1].clone()));
            },
            Ok(None) => {
                return Err(MsgCommandParamsError::TooManySeeds);
            },
            Ok(Some(length_requirement)) => (Some(parts[0].clone()), Some(length_requirement)),
        }
    } else {
        // Too many arguments
        return Err(MsgCommandParamsError::TooManySeeds);
    };
    Ok(MsgCommandParams { source, seed, length_requirement })
}

} // verus!
