use vstd::prelude::*;
use vstd::string::StringExecFns;
use substring::Substring;
use crate::text::chars_of;

verus! {

/// The characters of `s` from position `start` up to, not including, `end`,
/// both cut off at the length of `s`; empty where `end <= start`.
pub open spec fn char_range(s: Seq<char>, start: int, end: int) -> Seq<char> {
    if end <= start {
        Seq::empty()
    } else {
        let from = if start < s.len() { start } else { s.len() as int };
        let to = if end < s.len() { end } else { s.len() as int };
        s.subrange(from, to)
    }
}

/// `substring::Substring::substring` on a `str`: the slice of the characters
/// with positions in `start..end`, counted in characters and not in bytes. A
/// position past the end counts as the end, and the slice is empty where
/// `end <= start`.
#[verifier::external_body]
pub(crate) fn substring<'a>(s: &'a str, start: usize, end: usize) -> (r: &'a str)
    ensures
        r@ == char_range(s@, start as int, end as int),
{
    s.substring(start, end)
}

/// A field name never starts with `$`: a string that does gets `\` put in
/// front of it.
pub open spec fn encoded(s: Seq<char>) -> Seq<char> {
    if s.len() > 0 && s[0] == '$' {
        seq!['\\'] + s
    } else {
        s
    }
}

/// The string that a field name stands for: a leading `\` in front of `$`
/// is dropped.
pub open spec fn decoded(s: Seq<char>) -> Seq<char> {
    if s.len() >= 2 && s[0] == '\\' && s[1] == '$' {
        s.subrange(1, s.len() as int)
    } else {
        s
    }
}

/// Whether a string can be stored as a field name.
pub open spec fn is_field_name(s: Seq<char>) -> bool {
    s.len() > 0 ==> s[0] != '$'
}

/// Escapes a string so that it can be stored as a field name.
pub fn encode_db_field_name(s: &str) -> (r: String)
    ensures
        r@ == encoded(s@),
        is_field_name(r@),
{
    let chars = chars_of(s);
    if chars.len() > 0 && chars[0] == '$' {
        let mut r = String::new();
        r.push('\\');
        r.append(s);
        assert(r@ =~= seq!['\\'] + s@);
        r
    } else {
        String::from_str(s)
    }
}

/// Undoes `encode_db_field_name`.
pub fn decode_db_field_name(s: &str) -> (r: String)
    ensures
        r@ == decoded(s@),
{
    let chars = chars_of(s);
    if chars.len() >= 2 && chars[0] == '\\' && chars[1] == '$' {
        String::from_str(substring(s, 1, chars.len()))
    } else {
        String::from_str(s)
    }
}

/// Decoding an encoded string gives the string back, unless the string
/// itself starts with `\$`, which no encoding produces from another string.
pub proof fn lemma_decode_encode(s: Seq<char>)
    requires
        !(s.len() >= 2 && s[0] == '\\' && s[1] == '$'),
    ensures
        decoded(encoded(s)) == s,
{
    if s.len() > 0 && s[0] == '$' {
        assert((seq!['\\'] + s).subrange(1, (s.len() + 1) as int) =~= s);
    }
}

/// Encoding and then decoding a string that starts with `$` gives the
/// string back, and encoding a string that does not start with `$` leaves
/// it as it is.
pub proof fn lemma_codec_identity(s: Seq<char>)
    ensures
        s.len() > 0 && s[0] == '$' ==> decoded(encoded(s)) == s,
        !(s.len() > 0 && s[0] == '$') ==> encoded(s) == s,
{
    if s.len() > 0 && s[0] == '$' {
        lemma_decode_encode(s);
    }
}

/// The key under which the context `(first, second)` is stored: the
/// escaped first word, one space, and the escaped second word.
pub open spec fn pair_key(first: Seq<char>, second: Seq<char>) -> Seq<char> {
    encoded(first) + seq![' '] + encoded(second)
}

/// The position of the first space in `s`, or the length of `s` where it
/// holds none.
pub open spec fn space_index(s: Seq<char>) -> int
    decreases s.len(),
{
    if s.len() == 0 || s[0] == ' ' {
        0
    } else {
        1 + space_index(s.drop_first())
    }
}

/// What stands before the first space of a key.
pub open spec fn key_first(key: Seq<char>) -> Seq<char> {
    key.take(space_index(key))
}

/// What stands behind the first space of a key.
pub open spec fn key_second(key: Seq<char>) -> Seq<char> {
    key.skip(space_index(key) + 1)
}

/// `space_index` is the least position that holds a space.
pub proof fn lemma_space_index(s: Seq<char>)
    ensures
        0 <= space_index(s) <= s.len(),
        space_index(s) < s.len() ==> s[space_index(s)] == ' ',
        forall|j: int| 0 <= j < space_index(s) ==> s[j] != ' ',
        s.contains(' ') <==> space_index(s) < s.len(),
    decreases s.len(),
{
    if s.len() == 0 || s[0] == ' ' {
    } else {
        let t = s.drop_first();
        lemma_space_index(t);
        assert forall|j: int| 0 <= j < space_index(s) implies s[j] != ' ' by {
            if j > 0 {
                assert(s[j] == t[j - 1]);
            }
        }
        if space_index(s) < s.len() {
            assert(s[space_index(s)] == t[space_index(t)]);
        }
        if s.contains(' ') {
            let j = choose|j: int| 0 <= j < s.len() && s[j] == ' ';
            assert(t[j - 1] == ' ');
        }
    }
}

/// A position that holds the first space is `space_index`.
pub proof fn lemma_space_index_is(s: Seq<char>, i: int)
    requires
        0 <= i < s.len(),
        s[i] == ' ',
        forall|j: int| 0 <= j < i ==> s[j] != ' ',
    ensures
        space_index(s) == i,
{
    lemma_space_index(s);
    if space_index(s) < i {
        assert(s[space_index(s)] == ' ');
    }
}

/// Whether a string is the key of a context: it holds a space, and what
/// stands before its first space and what stands behind it are field names.
pub open spec fn is_key(key: Seq<char>) -> bool {
    key.contains(' ') && is_field_name(key_first(key)) && is_field_name(key_second(key))
}

/// An escaped string is a field name, which escaping leaves as it is. It is
/// empty where the string is, and holds a space where the string does.
pub proof fn lemma_encoded(s: Seq<char>)
    ensures
        is_field_name(encoded(s)),
        encoded(encoded(s)) == encoded(s),
        encoded(s).len() == 0 <==> s.len() == 0,
        encoded(s).contains(' ') <==> s.contains(' '),
{
    let e = encoded(s);
    if s.len() > 0 && s[0] == '$' {
        if e.contains(' ') {
            let j = choose|j: int| 0 <= j < e.len() && e[j] == ' ';
            assert(s[j - 1] == ' ');
        }
        if s.contains(' ') {
            let j = choose|j: int| 0 <= j < s.len() && s[j] == ' ';
            assert(e[j + 1] == ' ');
        }
    }
}

/// A field name is the escaped form of the string that it stands for.
pub proof fn lemma_encode_decoded(t: Seq<char>)
    requires
        is_field_name(t),
    ensures
        encoded(decoded(t)) == t,
{
    if t.len() >= 2 && t[0] == '\\' && t[1] == '$' {
        let d = t.subrange(1, t.len() as int);
        assert(d[0] == '$');
        assert(seq!['\\'] + d =~= t);
    }
}

/// A key made of a first word without a space and a second word falls
/// apart into the two escaped words.
pub proof fn lemma_key_split(first: Seq<char>, second: Seq<char>)
    requires
        !first.contains(' '),
    ensures
        is_key(pair_key(first, second)),
        key_first(pair_key(first, second)) == encoded(first),
        key_second(pair_key(first, second)) == encoded(second),
{
    let key = pair_key(first, second);
    let head = encoded(first);
    lemma_encoded(first);
    lemma_encoded(second);
    assert forall|j: int| 0 <= j < head.len() implies key[j] != ' ' by {
        assert(head.contains(head[j]));
    }
    assert(key[head.len() as int] == ' ');
    lemma_space_index_is(key, head.len() as int);
    assert(key.take(head.len() as int) =~= head);
    assert(key.skip(head.len() as int + 1) =~= encoded(second));
}

/// A key is the key of the two parts that it falls apart into, and of the
/// two words that these stand for.
pub proof fn lemma_key_join(key: Seq<char>)
    requires
        is_key(key),
    ensures
        !key_first(key).contains(' '),
        !decoded(key_first(key)).contains(' '),
        pair_key(key_first(key), key_second(key)) == key,
        pair_key(decoded(key_first(key)), decoded(key_second(key))) == key,
{
    lemma_space_index(key);
    let first = key_first(key);
    assert(first + seq![' '] + key_second(key) =~= key);
    if first.contains(' ') {
        let j = choose|j: int| 0 <= j < first.len() && first[j] == ' ';
        assert(key[j] == ' ');
    }
    lemma_encode_decoded(first);
    lemma_encode_decoded(key_second(key));
    lemma_encoded(decoded(first));
}

/// Whether a string holds a space.
pub fn has_space(s: &str) -> (r: bool)
    ensures
        r == s@.contains(' '),
{
    let chars = chars_of(s);
    let mut i: usize = 0;
    while i < chars.len()
        invariant
            chars@ == s@,
            i <= chars.len(),
            forall|j: int| 0 <= j < i ==> s@[j] != ' ',
        decreases chars.len() - i,
    {
        if chars[i] == ' ' {
            assert(s@[i as int] == ' ');
            return true;
        }
        i += 1;
    }
    false
}

/// Whether a string can be stored as a field name.
pub fn can_be_field_name(s: &str) -> (r: bool)
    ensures
        r == is_field_name(s@),
{
    let chars = chars_of(s);
    !(chars.len() > 0 && chars[0] == '$')
}

/// Whether a string is the key of a context.
pub fn is_context_key(s: &str) -> (r: bool)
    ensures
        r == is_key(s@),
{
    if has_space(s) {
        let pair = string_to_pair(s);
        can_be_field_name(pair.0.as_str()) && can_be_field_name(pair.1.as_str())
    } else {
        false
    }
}

/// Joins the two words of a context into the key under which it is stored.
pub fn pair_to_string(pair: &(String, String)) -> (r: String)
    ensures
        r@ == pair_key(pair.0@, pair.1@),
{
    let mut key = encode_db_field_name(pair.0.as_str());
    key.push(' ');
    key.append(encode_db_field_name(pair.1.as_str()).as_str());
    assert(key@ =~= pair_key(pair.0@, pair.1@));
    key
}

/// Takes a key apart at its first space.
pub fn string_to_pair(s: &str) -> (r: (String, String))
    requires
        s@.contains(' '),
    ensures
        r.0@ == key_first(s@),
        r.1@ == key_second(s@),
{
    let chars = chars_of(s);
    let mut i: usize = 0;
    proof {
        lemma_space_index(s@);
    }
    while i < chars.len() && chars[i] != ' '
        invariant
            chars@ == s@,
            i <= chars.len(),
            i <= space_index(s@) < s@.len(),
            forall|j: int| 0 <= j < i ==> s@[j] != ' ',
        decreases chars.len() - i,
    {
        proof {
            lemma_space_index(s@);
        }
        i += 1;
    }
    proof {
        lemma_space_index_is(s@, i as int);
    }
    let first = String::from_str(substring(s, 0, i));
    let second = String::from_str(substring(s, i + 1, chars.len()));
    assert(first@ =~= key_first(s@));
    assert(second@ =~= key_second(s@));
    (first, second)
}

} // verus!
