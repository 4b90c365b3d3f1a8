use markov_telegram_bot::codec::{
    decode_db_field_name, encode_db_field_name, pair_to_string, string_to_pair,
};

#[test]
fn test_string_to_pair() {
    assert_eq!(
        ("one".to_string(), "two".to_string()),
        string_to_pair("one two")
    );
}

#[test]
fn test_pair_to_string() {
    assert_eq!(
        "one two",
        pair_to_string(&("one".to_string(), "two".to_string()))
    );
}

#[test]
fn test_encode_db_field_name() {
    assert_eq!("foo", encode_db_field_name("foo"));
}

#[test]
fn test_encode_db_field_name_leading_dollar_sign() {
    assert_eq!("\\$foo", encode_db_field_name("$foo"));
}

#[test]
fn test_decode_db_field_name() {
    assert_eq!("foo", decode_db_field_name("foo"));
}

#[test]
fn test_decode_db_field_name_leading_dollar_sign() {
    assert_eq!("$foo", decode_db_field_name("\\$foo"));
}
