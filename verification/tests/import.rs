use markov_telegram_bot::import::{
    fix_chat_id, keep_messages_with_sender, prepare, sender_of, ChatExport, ChatType, Entity,
    Message, MessageContents, TextPiece,
};

fn plain(from_id: Option<&str>, text: &str) -> Message {
    Message {
        from_id: from_id.map(|id| id.to_string()),
        contents: MessageContents::PlainText(text.to_string()),
    }
}

fn entity(type_field: &str, text: &str) -> TextPiece {
    TextPiece::Entity(Entity {
        type_field: type_field.to_string(),
        text: text.to_string(),
    })
}

#[test]
fn the_text_of_pieces_is_joined_with_spaces() {
    assert_eq!("hello", TextPiece::PlainText("hello".to_string()).to_text());
    assert_eq!("@bob", entity("mention", "@bob").to_text());
    assert_eq!("hello", MessageContents::PlainText("hello".to_string()).to_text());
    assert_eq!("", MessageContents::Pieces(vec![]).to_text());
    assert_eq!(
        "hi",
        MessageContents::Pieces(vec![TextPiece::PlainText("hi".to_string())]).to_text()
    );
    let pieces = MessageContents::Pieces(vec![
        TextPiece::PlainText("hi".to_string()),
        entity("mention", "@bob"),
        TextPiece::PlainText("there".to_string()),
    ]);
    assert_eq!("hi @bob there", pieces.to_text());
    let message = Message {
        from_id: None,
        contents: pieces,
    };
    assert_eq!("hi @bob there", message.to_text());
}

#[test]
fn a_message_that_starts_with_a_bot_command_is_not_learned() {
    assert!(MessageContents::PlainText("/msg".to_string()).is_learnable());
    assert!(!MessageContents::Pieces(vec![]).is_learnable());
    assert!(!MessageContents::Pieces(vec![entity("bot_command", "/msg")]).is_learnable());
    assert!(MessageContents::Pieces(vec![entity("mention", "@bob")]).is_learnable());
    assert!(MessageContents::Pieces(vec![
        TextPiece::PlainText("see".to_string()),
        entity("bot_command", "/msg")
    ])
    .is_learnable());
}

#[test]
fn the_sender_is_what_stands_behind_user_or_channel() {
    assert_eq!(Some("123".to_string()), sender_of(&Some("user123".to_string())));
    assert_eq!(Some("456".to_string()), sender_of(&Some("channel456".to_string())));
    assert_eq!(Some("".to_string()), sender_of(&Some("user".to_string())));
    assert_eq!(None, sender_of(&Some("bot123".to_string())));
    assert_eq!(None, sender_of(&Some("use".to_string())));
    assert_eq!(None, sender_of(&Some("".to_string())));
    assert_eq!(None, sender_of(&None));
}

#[test]
fn the_id_of_a_group_is_negated() {
    assert_eq!(Some(-1234), fix_chat_id(1234, ChatType::PrivateGroup));
    assert_eq!(Some(1234), fix_chat_id(-1234, ChatType::PrivateGroup));
    assert_eq!(Some(0), fix_chat_id(0, ChatType::PrivateGroup));
    assert_eq!(Some(-i64::MAX), fix_chat_id(i64::MAX, ChatType::PrivateGroup));
    assert_eq!(None, fix_chat_id(i64::MIN, ChatType::PrivateGroup));
}

#[test]
fn the_id_of_a_supergroup_gets_minus_one_hundred_in_front() {
    assert_eq!(Some(-1001234567890), fix_chat_id(1234567890, ChatType::PrivateSupergroup));
    assert_eq!(Some(-1000), fix_chat_id(0, ChatType::PrivateSupergroup));
    assert_eq!(Some(-1007), fix_chat_id(7, ChatType::PrivateSupergroup));
    assert_eq!(Some(-10010), fix_chat_id(10, ChatType::PrivateSupergroup));
    assert_eq!(Some(-10099), fix_chat_id(99, ChatType::PrivateSupergroup));
    assert_eq!(
        Some(-1009999999999999999),
        fix_chat_id(9999999999999999, ChatType::PrivateSupergroup)
    );
    assert_eq!(None, fix_chat_id(99999999999999999, ChatType::PrivateSupergroup));
    assert_eq!(None, fix_chat_id(i64::MAX, ChatType::PrivateSupergroup));
    assert_eq!(None, fix_chat_id(-5, ChatType::PrivateSupergroup));
    for id in [1i64, 12, 123, 1000, 99999, 100000, 4611686018427] {
        let expected: i64 = format!("-100{}", id).parse().unwrap();
        assert_eq!(Some(expected), fix_chat_id(id, ChatType::PrivateSupergroup));
    }
}

#[test]
fn messages_without_a_sender_are_dropped() {
    let kept = keep_messages_with_sender(vec![
        plain(Some("user1"), "a"),
        plain(None, "b"),
        plain(Some("bot2"), "c"),
        plain(Some("channel3"), "d"),
        plain(Some("user4"), "e"),
    ]);
    let summary: Vec<(Option<String>, String)> = kept
        .iter()
        .map(|m| (m.from_id.clone(), m.to_text()))
        .collect();
    assert_eq!(
        vec![
            (Some("1".to_string()), "a".to_string()),
            (Some("3".to_string()), "d".to_string()),
            (Some("4".to_string()), "e".to_string()),
        ],
        summary
    );
    assert_eq!(0, keep_messages_with_sender(vec![]).len());
}

#[test]
fn an_export_is_prepared_as_a_whole() {
    let export = ChatExport {
        id: 42,
        type_field: ChatType::PrivateSupergroup,
        messages: vec![plain(Some("user1"), "a"), plain(None, "b")],
    };
    let prepared = prepare(export).unwrap();
    assert_eq!(-10042, prepared.id);
    assert_eq!(ChatType::PrivateSupergroup, prepared.type_field);
    assert_eq!(1, prepared.messages.len());
    assert_eq!(Some("1".to_string()), prepared.messages[0].from_id);

    let unfixable = ChatExport {
        id: -42,
        type_field: ChatType::PrivateSupergroup,
        messages: vec![plain(Some("user1"), "a")],
    };
    let same = prepare(unfixable).unwrap_err();
    assert_eq!(-42, same.id);
    assert_eq!(1, same.messages.len());
    assert_eq!(Some("user1".to_string()), same.messages[0].from_id);
}
