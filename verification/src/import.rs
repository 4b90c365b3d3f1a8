use vstd::prelude::*;
use vstd::string::StringExecFns;
use crate::codec::substring;
use crate::text::{chars_of, starts_with};

verus! {

/// A chat as an export file holds it.
#[derive(Debug)]
pub struct ChatExport {
    pub id: i64,
    pub type_field: ChatType,
    pub messages: Vec<Message>,
}

/// The kind of chat of an export.
#[derive(Debug, Clone, Copy, PartialEq, Eq, Structural)]
pub enum ChatType {
    PrivateGroup,
    PrivateSupergroup,
}

/// A message of an export.
#[derive(Debug)]
pub struct Message {
    pub from_id: Option<String>,
    pub contents: MessageContents,
}

/// The contents of a message: plain text, or pieces of text.
#[derive(Debug)]
pub enum MessageContents {
    PlainText(String),
    Pieces(Vec<TextPiece>),
}

/// A piece of a message: plain text, or an entity.
#[derive(Debug)]
pub enum TextPiece {
    PlainText(String),
    Entity(Entity),
}

/// A marked piece of a message, such as a link or a command.
#[derive(Debug)]
pub struct Entity {
    pub type_field: String,
    pub text: String,
}

/// The texts joined with one space between each two of them.
pub open spec fn joined(texts: Seq<Seq<char>>) -> Seq<char>
    decreases texts.len(),
{
    if texts.len() == 0 {
        Seq::empty()
    } else if texts.len() == 1 {
        texts[0]
    } else {
        joined(texts.drop_last()) + seq![' '] + texts.last()
    }
}

impl TextPiece {
    /// The text of the piece.
    pub open spec fn text(self) -> Seq<char> {
        match self {
            TextPiece::PlainText(text) => text@,
            TextPiece::Entity(entity) => entity.text@,
        }
    }

    /// The text of the piece.
    pub fn to_text(&self) -> (r: String)
        ensures
            r@ == self.text(),
    {
        match self {
            TextPiece::PlainText(text) => text.clone(),
            TextPiece::Entity(entity) => entity.text.clone(),
        }
    }
}

impl MessageContents {
    /// The text of the contents: the plain text, or the texts of the pieces
    /// with a space between each two.
    pub open spec fn text(self) -> Seq<char> {
        match self {
            MessageContents::PlainText(text) => text@,
            MessageContents::Pieces(pieces) => joined(
                Seq::new(pieces@.len(), |i: int| pieces@[i].text()),
            ),
        }
    }

    /// The text of the contents.
    pub fn to_text(&self) -> (r: String)
        ensures
            r@ == self.text(),
    {
        match self {
            MessageContents::PlainText(text) => text.clone(),
            MessageContents::Pieces(pieces) => {
                let ghost texts = Seq::new(pieces@.len(), |i: int| pieces@[i].text());
                let mut r = String::new();
                let mut i: usize = 0;
                assert(texts.take(0) =~= Seq::<Seq<char>>::empty());
                while i < pieces.len()
                    invariant
                        i <= pieces.len(),
                        texts == Seq::new(pieces@.len(), |i: int| pieces@[i].text()),
                        r@ == joined(texts.take(i as int)),
                    decreases pieces.len() - i,
                {
                    if i > 0 {
                        r.push(' ');
                    }
                    let piece = pieces[i].to_text();
                    r.append(piece.as_str());
                    proof {
                        let now = texts.take(i + 1);
                        assert(now.drop_last() =~= texts.take(i as int));
                        assert(now.last() == piece@);
                        if i == 0 {
                            assert(r@ =~= piece@);
                        }
                    }
                    i += 1;
                }
                assert(texts.take(pieces.len() as int) =~= texts);
                r
            },
        }
    }

    /// Whether the contents are to be learned from: plain text is, and
    /// pieces are unless there is none or the first is a bot command.
    pub open spec fn learnable(self) -> bool {
        match self {
            MessageContents::PlainText(_) => true,
            MessageContents::Pieces(pieces) => pieces@.len() > 0 && match pieces@[0] {
                TextPiece::Entity(entity) => entity.type_field@ != "bot_command"@,
                TextPiece::PlainText(_) => true,
            },
        }
    }

    /// Whether the contents are to be learned from.
    pub fn is_learnable(&self) -> (r: bool)
        ensures
            r == self.learnable(),
    {
        match self {
            MessageContents::PlainText(_) => true,
            MessageContents::Pieces(pieces) => {
                if pieces.len() > 0 {
                    match &pieces[0] {
                        TextPiece::Entity(entity) => !(*entity.type_field.as_str()
                            == *"bot_command"),
                        TextPiece::PlainText(_) => true,
                    }
                } else {
                    false
                }
            },
        }
    }
}

impl Message {
    /// The text of the message.
    pub fn to_text(&self) -> (r: String)
        ensures
            r@ == self.contents.text(),
    {
        self.contents.to_text()
    }
}

/// The sender that the field `from_id` of an export names: what stands
/// behind `user` or `channel`. Another field names no sender.
pub open spec fn sender(from_id: Option<String>) -> Option<Seq<char>> {
    match from_id {
        Some(id) => if "user"@.is_prefix_of(id@) {
            Some(id@.skip(4))
        } else if "channel"@.is_prefix_of(id@) {
            Some(id@.skip(7))
        } else {
            None
        },
        None => None,
    }
}

/// The sender that the field `from_id` of an export names, if it names one.
pub fn sender_of(from_id: &Option<String>) -> (r: Option<String>)
    ensures
        match r {
            Some(id) => sender(*from_id) == Some(id@),
            None => sender(*from_id) is None,
        },
{
    match from_id {
        Some(id) => {
            let length = chars_of(id.as_str()).len();
            proof {
                reveal_strlit("user");
                reveal_strlit("channel");
            }
            if starts_with(id.as_str(), "user") {
                let rest = String::from_str(substring(id.as_str(), 4, length));
                assert(rest@ =~= id@.skip(4));
                Some(rest)
            } else if starts_with(id.as_str(), "channel") {
                let rest = String::from_str(substring(id.as_str(), 7, length));
                assert(rest@ =~= id@.skip(7));
                Some(rest)
            } else {
                None
            }
        },
        None => None,
    }
}

/// Ten to the power of `d`.
pub open spec fn pow10(d: nat) -> int
    decreases d,
{
    if d == 0 {
        1
    } else {
        10 * pow10((d - 1) as nat)
    }
}

/// The number of decimal digits of a number that is not negative.
pub open spec fn decimal_len(n: int) -> nat
    decreases n,
{
    if n < 10 {
        1
    } else {
        1 + decimal_len(n / 10)
    }
}

/// The id under which the chat of an export is known to the bot: for a
/// group the negative of the id in the file, for a supergroup the negative
/// of the number that is written as `100` and then the id.
pub open spec fn fixed_id(id: int, chat_type: ChatType) -> int {
    match chat_type {
        ChatType::PrivateGroup => -id,
        ChatType::PrivateSupergroup => -(100 * pow10(decimal_len(id)) + id),
    }
}

/// Whether the id of an export can be fixed: the id of a supergroup is not
/// negative, and the fixed id is a 64-bit number.
pub open spec fn fixable(id: int, chat_type: ChatType) -> bool {
    i64::MIN <= fixed_id(id, chat_type) <= i64::MAX && (chat_type
        == ChatType::PrivateSupergroup ==> id >= 0)
}

/// The digits of a number that are left when its last ones are cut off:
/// none for zero.
spec fn digits_left(rest: int) -> nat {
    if rest <= 0 {
        0
    } else {
        decimal_len(rest)
    }
}

proof fn lemma_pow10_positive(d: nat)
    ensures
        pow10(d) >= 1,
    decreases d,
{
    if d > 0 {
        lemma_pow10_positive((d - 1) as nat);
    }
}

/// Fixes the id of an export to match what the chat is known as, if it can
/// be fixed.
pub fn fix_chat_id(id: i64, chat_type: ChatType) -> (r: Option<i64>)
    ensures
        r is Some <==> fixable(id as int, chat_type),
        r matches Some(fixed) ==> fixed == fixed_id(id as int, chat_type),
{
    match chat_type {
        ChatType::PrivateGroup => {
            if id == i64::MIN {
                None
            } else {
                Some(-id)
            }
        },
        ChatType::PrivateSupergroup => {
            if id < 0 {
                return None;
            }
            let mut power: i128 = 10;
            let mut rest: i64 = id / 10;
            let ghost mut k: nat = 1;
            proof {
                assert(pow10(1) == 10) by {
                    assert(pow10(0) == 1);
                }
            }
            while rest > 0
                invariant
                    id >= 0,
                    rest >= 0,
                    power == pow10(k),
                    power >= 10,
                    k + digits_left(rest as int) == decimal_len(id as int),
                    power * rest <= id,
                    power <= 10 * id + 10,
                decreases rest,
            {
                proof {
                    assert(power <= id) by (nonlinear_arith)
                        requires
                            power * rest <= id,
                            rest >= 1,
                            power >= 0,
                    ;
                    assert((power * 10) * (rest / 10) <= power * rest) by (nonlinear_arith)
                        requires
                            power >= 0,
                            rest >= 0,
                            10 * (rest / 10) <= rest,
                    ;
                    k = k + 1;
                }
                power = power * 10;
                rest = rest / 10;
            }
            let whole: i128 = 100 * power + id as i128;
            if whole > 0x8000_0000_0000_0000 {
                None
            } else {
                Some((-whole) as i64)
            }
        },
    }
}

/// The characters of the name in a field `from_id`.
pub open spec fn named(from_id: Option<String>) -> Option<Seq<char>> {
    match from_id {
        Some(id) => Some(id@),
        None => None,
    }
}

/// Whether `after` holds the messages of `before` that name a sender, in
/// their order, each with its sender in place of the field that named it.
pub open spec fn kept(before: Seq<Message>, after: Seq<Message>) -> bool
    decreases before.len(),
{
    if before.len() == 0 {
        after.len() == 0
    } else {
        match sender(before.last().from_id) {
            Some(id) => after.len() > 0 && after.last().contents == before.last().contents
                && named(after.last().from_id) == Some(id) && kept(
                before.drop_last(),
                after.drop_last(),
            ),
            None => kept(before.drop_last(), after),
        }
    }
}

/// Keeps the messages that name a user or a channel as their sender, and
/// takes the word `user` or `channel` from the sender's name.
pub fn keep_messages_with_sender(messages: Vec<Message>) -> (r: Vec<Message>)
    ensures
        kept(messages@, r@),
{
    let mut r: Vec<Message> = Vec::new();
    let ghost all = messages@;
    for message in it: messages
        invariant
            it.seq() == all,
            kept(all.take(it.index() as int), r@),
    {
        let ghost i = it.index() as int;
        let ghost before = r@;
        assert(all.take(i + 1).drop_last() =~= all.take(i));
        assert(all.take(i + 1).last() == message);
        match sender_of(&message.from_id) {
            Some(id) => {
                r.push(Message { from_id: Some(id), contents: message.contents });
                assert(r@.drop_last() =~= before);
            },
            None => {},
        }
    }
    assert(all.take(all.len() as int) =~= all);
    r
}

/// Prepares an export that was read for the import: its id is fixed, and
/// of its messages those with a sender are kept. An export whose id cannot
/// be fixed is given back as it is.
pub fn prepare(export: ChatExport) -> (r: Result<ChatExport, ChatExport>)
    ensures
        match r {
            Ok(prepared) => fixable(export.id as int, export.type_field) && prepared.id
                == fixed_id(export.id as int, export.type_field) && prepared.type_field
                == export.type_field && kept(export.messages@, prepared.messages@),
            Err(same) => !fixable(export.id as int, export.type_field) && same == export,
        },
{
    match fix_chat_id(export.id, export.type_field) {
        Some(id) => Ok(
            ChatExport {
                id,
                type_field: export.type_field,
                messages: keep_messages_with_sender(export.messages),
            },
        ),
        None => Err(export),
    }
}

} // verus!
