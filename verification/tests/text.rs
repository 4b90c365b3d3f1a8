use markov_telegram_bot::codec::{
    can_be_field_name, decode_db_field_name, encode_db_field_name, has_space, is_context_key,
    pair_to_string, string_to_pair,
};
use markov_telegram_bot::text::{
    chars_of, get_associated_seeds_encoded, split_whitespace, starts_with, string_from_chars,
    trim_non_alphanumeric,
};

fn strings(list: &[&str]) -> Vec<String> {
    list.iter().map(|w| w.to_string()).collect()
}

#[test]
fn split_whitespace_gives_the_words() {
    assert_eq!(strings(&["one", "two", "three"]), split_whitespace("one two three"));
    assert_eq!(strings(&["one", "two"]), split_whitespace("  one \t\n two  "));
    assert_eq!(strings(&["a"]), split_whitespace("a"));
    assert_eq!(Vec::<String>::new(), split_whitespace(""));
    assert_eq!(Vec::<String>::new(), split_whitespace(" \u{a0}\u{3000} "));
    assert_eq!(strings(&["é", "日本語", "$x"]), split_whitespace("é\u{2003}日本語 $x"));
}

#[test]
fn split_whitespace_agrees_with_std() {
    for text in ["", " ", "a b", " a  b ", "x\ty\nz", "é ü", "one,two  three!\r\n"] {
        let expected: Vec<String> = text.split_whitespace().map(|w| w.to_string()).collect();
        assert_eq!(expected, split_whitespace(text));
    }
}

#[test]
fn chars_and_strings_convert() {
    assert_eq!(vec!['a', 'é', '$'], chars_of("aé$"));
    assert_eq!(Vec::<char>::new(), chars_of(""));
    assert_eq!("bc", string_from_chars(&vec!['a', 'b', 'c', 'd'], 1, 3));
    assert_eq!("", string_from_chars(&vec!['a', 'b'], 1, 1));
}

#[test]
fn starts_with_compares_the_start() {
    assert!(starts_with("user123", "user"));
    assert!(starts_with("user", "user"));
    assert!(starts_with("anything", ""));
    assert!(!starts_with("use", "user"));
    assert!(!starts_with("xuser", "user"));
}

#[test]
fn trim_takes_what_is_neither_letter_nor_digit() {
    assert_eq!("two", trim_non_alphanumeric("two,"));
    assert_eq!("two", trim_non_alphanumeric("\"two!\""));
    assert_eq!("a-b", trim_non_alphanumeric("--a-b--"));
    assert_eq!("", trim_non_alphanumeric("!!!"));
    assert_eq!("", trim_non_alphanumeric(""));
    assert_eq!("é1", trim_non_alphanumeric("(é1)"));
    assert_eq!("x", trim_non_alphanumeric("x"));
}

#[test]
fn seeds_are_the_lowercase_and_the_cleaned_form() {
    assert_eq!(strings(&["two,", "two"]), get_associated_seeds_encoded("Two,"));
    assert_eq!(strings(&["two"]), get_associated_seeds_encoded("TWO"));
    assert_eq!(strings(&["\\$two", "two"]), get_associated_seeds_encoded("$Two"));
    assert_eq!(strings(&["!!!", ""]), get_associated_seeds_encoded("!!!"));
    assert_eq!(strings(&[""]), get_associated_seeds_encoded(""));
}

#[test]
fn encode_then_decode_is_the_identity() {
    for token in ["$foo", "$", "$$", "$ a", "foo", "", "\\", "f$oo", "é"] {
        assert_eq!(token, decode_db_field_name(&encode_db_field_name(token)));
    }
    for token in ["foo", "", "\\$foo", "f$", " $"] {
        assert_eq!(token, encode_db_field_name(token));
    }
    assert_eq!("\\$", encode_db_field_name("$"));
    assert_eq!("\\$$", encode_db_field_name("$$"));
    assert_eq!("$", decode_db_field_name("\\$"));
    assert_eq!("\\", decode_db_field_name("\\"));
    assert_eq!("\\foo", decode_db_field_name("\\foo"));
}

#[test]
fn keys_join_and_fall_apart() {
    assert_eq!(" ", pair_to_string(&("".to_string(), "".to_string())));
    assert_eq!(" \\$one", pair_to_string(&("".to_string(), "$one".to_string())));
    assert_eq!("\\$one \\$two", pair_to_string(&("$one".to_string(), "$two".to_string())));
    assert_eq!("\\$one two", pair_to_string(&("\\$one".to_string(), "two".to_string())));
    assert_eq!("three ", pair_to_string(&("three".to_string(), "".to_string())));
    assert_eq!(("".to_string(), "".to_string()), string_to_pair(" "));
    assert_eq!(("".to_string(), "\\$one".to_string()), string_to_pair(" \\$one"));
    assert_eq!(
        ("\\$one".to_string(), "\\$two".to_string()),
        string_to_pair("\\$one \\$two")
    );
    assert_eq!(("é".to_string(), "b c".to_string()), string_to_pair("é b c"));
    assert_eq!(("日本".to_string(), "語".to_string()), string_to_pair("日本 語"));
}

#[test]
fn field_names_are_told_apart() {
    assert!(has_space("a b"));
    assert!(has_space(" "));
    assert!(!has_space("ab"));
    assert!(!has_space("a\tb"));
    assert!(can_be_field_name("a$"));
    assert!(can_be_field_name(""));
    assert!(can_be_field_name("\\$a"));
    assert!(!can_be_field_name("$a"));
    assert!(is_context_key(" "));
    assert!(is_context_key("a b"));
    assert!(is_context_key("\\$a \\$b c"));
    assert!(!is_context_key("ab"));
    assert!(!is_context_key("$a b"));
    assert!(!is_context_key("a $b"));
}
