use vstd::prelude::*;
use crate::codec::{encode_db_field_name, encoded};

verus! {

/// What `char::is_whitespace` answers for a character.
pub uninterp spec fn whitespace_char(c: char) -> bool;

/// What `char::is_alphanumeric` answers for a character.
pub uninterp spec fn alphanumeric_char(c: char) -> bool;

/// The characters of what `str::to_lowercase` returns for a string.
pub uninterp spec fn lowercase(s: Seq<char>) -> Seq<char>;

/// `char::is_whitespace`: whether the character has the Unicode property
/// `White_Space`. The answer depends on the character alone; the space
/// character U+0020 has the property.
#[verifier::external_body]
pub(crate) fn is_whitespace(c: char) -> (b: bool)
    ensures
        b == whitespace_char(c),
        c == ' ' ==> b,
{
    c.is_whitespace()
}

/// `char::is_alphanumeric`: whether the character is alphabetic or numeric
/// in Unicode. The answer depends on the character alone.
#[verifier::external_body]
pub(crate) fn is_alphanumeric(c: char) -> (b: bool)
    ensures
        b == alphanumeric_char(c),
{
    c.is_alphanumeric()
}

/// `str::to_lowercase`: the lowercase equivalent of the string, as a new
/// `String`. The result depends on the characters of the string alone.
#[verifier::external_body]
pub(crate) fn to_lowercase(s: &str) -> (r: String)
    ensures
        r@ == lowercase(s@),
{
    s.to_lowercase()
}

/// `String::push` appends one character to the end of the string.
pub assume_specification[ String::push ](s: &mut String, c: char)
    ensures
        final(s)@ == old(s)@.push(c),
;

/// `==` on `str`: whether the two strings hold the same characters.
pub assume_specification[ <str as PartialEq>::eq ](a: &str, b: &str) -> (r: bool)
    ensures
        r == (a@ == b@),
;

/// The characters of a string, in order.
pub fn chars_of(s: &str) -> (v: Vec<char>)
    ensures
        v@ == s@,
{
    let mut v: Vec<char> = Vec::new();
    for c in it: s.chars()
        invariant
            v@ == it.seq().take(it.index() as int),
            it.seq() == s@,
    {
        v.push(c);
    }
    v
}

/// A new string made of the characters `chars[from..to]`.
pub fn string_from_chars(chars: &Vec<char>, from: usize, to: usize) -> (r: String)
    requires
        from <= to <= chars.len(),
    ensures
        r@ == chars@.subrange(from as int, to as int),
{
    let mut r = String::new();
    let mut i: usize = from;
    while i < to
        invariant
            from <= i <= to <= chars.len(),
            r@ == chars@.subrange(from as int, i as int),
        decreases to - i,
    {
        r.push(chars[i]);
        assert(r@ =~= chars@.subrange(from as int, i + 1));
        i += 1;
    }
    r
}

/// How many characters at the start of `s` satisfy `p`, up to the first one
/// that does not.
pub open spec fn prefix_len(s: Seq<char>, p: spec_fn(char) -> bool) -> int
    decreases s.len(),
{
    if s.len() == 0 || !p(s[0]) {
        0
    } else {
        1 + prefix_len(s.drop_first(), p)
    }
}

/// How many characters at the end of `s` satisfy `p`, back to the last one
/// that does not.
pub open spec fn suffix_len(s: Seq<char>, p: spec_fn(char) -> bool) -> int
    decreases s.len(),
{
    if s.len() == 0 || !p(s.last()) {
        0
    } else {
        1 + suffix_len(s.drop_last(), p)
    }
}

pub proof fn lemma_prefix_len(s: Seq<char>, p: spec_fn(char) -> bool)
    ensures
        0 <= prefix_len(s, p) <= s.len(),
        forall|j: int| 0 <= j < prefix_len(s, p) ==> p(s[j]),
        prefix_len(s, p) < s.len() ==> !p(s[prefix_len(s, p)]),
    decreases s.len(),
{
    if s.len() == 0 || !p(s[0]) {
    } else {
        let t = s.drop_first();
        lemma_prefix_len(t, p);
        assert forall|j: int| 0 <= j < prefix_len(s, p) implies p(s[j]) by {
            if j > 0 {
                assert(s[j] == t[j - 1]);
            }
        }
        if prefix_len(s, p) < s.len() {
            assert(s[prefix_len(s, p)] == t[prefix_len(t, p)]);
        }
    }
}

pub proof fn lemma_prefix_len_is(s: Seq<char>, p: spec_fn(char) -> bool, i: int)
    requires
        0 <= i <= s.len(),
        forall|j: int| 0 <= j < i ==> p(s[j]),
        i < s.len() ==> !p(s[i]),
    ensures
        prefix_len(s, p) == i,
{
    lemma_prefix_len(s, p);
    let k = prefix_len(s, p);
    if k < i {
        assert(p(s[k]));
    } else if i < k {
        assert(p(s[i]));
    }
}

pub proof fn lemma_suffix_len(s: Seq<char>, p: spec_fn(char) -> bool)
    ensures
        0 <= suffix_len(s, p) <= s.len(),
        forall|j: int| s.len() - suffix_len(s, p) <= j < s.len() ==> p(s[j]),
        suffix_len(s, p) < s.len() ==> !p(s[s.len() - suffix_len(s, p) - 1]),
    decreases s.len(),
{
    if s.len() == 0 || !p(s.last()) {
    } else {
        let t = s.drop_last();
        lemma_suffix_len(t, p);
        assert forall|j: int| s.len() - suffix_len(s, p) <= j < s.len() implies p(s[j]) by {
            if j < s.len() - 1 {
                assert(s[j] == t[j]);
            }
        }
        if suffix_len(s, p) < s.len() {
            assert(s[s.len() - suffix_len(s, p) - 1] == t[t.len() - suffix_len(t, p) - 1]);
        }
    }
}

pub proof fn lemma_suffix_len_is(s: Seq<char>, p: spec_fn(char) -> bool, i: int)
    requires
        0 <= i <= s.len(),
        forall|j: int| s.len() - i <= j < s.len() ==> p(s[j]),
        i < s.len() ==> !p(s[s.len() - i - 1]),
    ensures
        suffix_len(s, p) == i,
{
    lemma_suffix_len(s, p);
    let k = suffix_len(s, p);
    if k < i {
        assert(p(s[s.len() - k - 1]));
    } else if i < k {
        assert(p(s[s.len() - i - 1]));
    }
}

/// Whether a character separates words: any whitespace does.
pub open spec fn separates(c: char) -> bool {
    c == ' ' || whitespace_char(c)
}

/// The test for a character that is part of a word.
pub open spec fn word_char() -> spec_fn(char) -> bool {
    |c: char| !separates(c)
}

/// The words of a text: its longest runs of characters that are not
/// whitespace, in order.
pub open spec fn words(s: Seq<char>) -> Seq<Seq<char>>
    decreases s.len(),
{
    if s.len() == 0 {
        Seq::empty()
    } else if separates(s[0]) {
        words(s.drop_first())
    } else {
        let n = prefix_len(s, word_char());
        if 0 < n <= s.len() {
            seq![s.take(n)] + words(s.skip(n))
        } else {
            Seq::empty()
        }
    }
}

/// Whether a string is a word: not empty, and free of whitespace.
pub open spec fn is_word(w: Seq<char>) -> bool {
    w.len() > 0 && forall|j: int| 0 <= j < w.len() ==> !separates(#[trigger] w[j])
}

/// Every word of a text is a word, so it holds no space.
pub proof fn lemma_words(s: Seq<char>)
    ensures
        forall|i: int| 0 <= i < words(s).len() ==> is_word(#[trigger] words(s)[i]),
        forall|i: int| 0 <= i < words(s).len() ==> !(#[trigger] words(s)[i]).contains(' '),
    decreases s.len(),
{
    if s.len() == 0 {
        assert(words(s).len() == 0);
    } else if separates(s[0]) {
        lemma_words(s.drop_first());
        assert(words(s) == words(s.drop_first()));
    } else {
        let p = word_char();
        let n = prefix_len(s, p);
        lemma_prefix_len(s, p);
        assert(n > 0) by {
            if n == 0 {
                assert(!p(s[0]));
            }
        }
        lemma_words(s.skip(n));
        let head = s.take(n);
        assert(words(s) == seq![head] + words(s.skip(n)));
        assert(words(s)[0] == head);
        assert(is_word(head)) by {
            assert forall|j: int| 0 <= j < head.len() implies !separates(#[trigger] head[j]) by {
                assert(p(s[j]));
            }
        }
        assert forall|i: int| 0 <= i < words(s).len() implies is_word(#[trigger] words(s)[i]) by {
            if i > 0 {
                assert(words(s)[i] == words(s.skip(n))[i - 1]);
            }
        }
        assert forall|i: int| 0 <= i < words(s).len() implies !(#[trigger] words(s)[i]).contains(
            ' ',
        ) by {
            let w = words(s)[i];
            assert(is_word(w));
            if w.contains(' ') {
                let j = choose|j: int| 0 <= j < w.len() && w[j] == ' ';
                assert(separates(w[j]));
            }
        }
    }
}

/// A text has no more words than characters.
pub proof fn lemma_words_len(s: Seq<char>)
    ensures
        words(s).len() <= s.len(),
    decreases s.len(),
{
    if s.len() == 0 {
    } else if separates(s[0]) {
        lemma_words_len(s.drop_first());
    } else {
        let n = prefix_len(s, word_char());
        lemma_prefix_len(s, word_char());
        if 0 < n <= s.len() {
            lemma_words_len(s.skip(n));
        }
    }
}

/// Splits a text into its words.
pub fn split_whitespace(text: &str) -> (r: Vec<String>)
    ensures
        r.len() == words(text@).len(),
        forall|i: int| 0 <= i < r.len() ==> (#[trigger] r[i])@ == words(text@)[i],
{
    let chars = chars_of(text);
    let n = chars.len();
    let mut r: Vec<String> = Vec::new();
    let mut i: usize = 0;
    let ghost mut done: Seq<Seq<char>> = Seq::empty();
    assert(chars@.skip(0) =~= text@);
    while i < n
        invariant
            chars@ == text@,
            n == chars.len(),
            i <= n,
            done.len() == r.len(),
            forall|k: int| 0 <= k < r.len() ==> (#[trigger] r[k])@ == done[k],
            words(text@) == done + words(chars@.skip(i as int)),
        decreases n - i,
    {
        let ghost rest = chars@.skip(i as int);
        assert(rest[0] == chars@[i as int]);
        if is_whitespace(chars[i]) {
            assert(rest.drop_first() =~= chars@.skip(i + 1));
            i += 1;
        } else {
            let mut j: usize = i + 1;
            while j < n && !is_whitespace(chars[j])
                invariant
                    i < j <= n,
                    n == chars.len(),
                    forall|k: int| i <= k < j ==> !separates(#[trigger] chars@[k]),
                decreases n - j,
            {
                j += 1;
            }
            let word = string_from_chars(&chars, i, j);
            proof {
                let p = word_char();
                assert forall|k: int| 0 <= k < j - i implies p(rest[k]) by {
                    assert(!separates(chars@[i + k]));
                }
                lemma_prefix_len_is(rest, p, j - i);
                assert(rest.take(j - i) =~= chars@.subrange(i as int, j as int));
                assert(rest.skip(j - i) =~= chars@.skip(j as int));
                assert(words(rest) == seq![word@] + words(chars@.skip(j as int)));
                assert(done.push(word@) + words(chars@.skip(j as int)) =~= done + words(rest));
                done = done.push(word@);
            }
            r.push(word);
            i = j;
        }
    }
    assert(words(chars@.skip(n as int)) =~= Seq::<Seq<char>>::empty());
    r
}

/// The test for a character that trimming takes away.
pub open spec fn trim_char() -> spec_fn(char) -> bool {
    |c: char| !alphanumeric_char(c)
}

/// A string without the characters at its start and at its end that are
/// neither letters nor digits.
pub open spec fn trimmed(s: Seq<char>) -> Seq<char> {
    let a = prefix_len(s, trim_char());
    if a >= s.len() {
        Seq::empty()
    } else {
        s.subrange(a, s.len() - suffix_len(s, trim_char()))
    }
}

/// Takes away the characters at the start and at the end of a string that
/// are neither letters nor digits.
pub fn trim_non_alphanumeric(s: &str) -> (r: String)
    ensures
        r@ == trimmed(s@),
{
    let chars = chars_of(s);
    let n = chars.len();
    let mut a: usize = 0;
    while a < n && !is_alphanumeric(chars[a])
        invariant
            a <= n,
            n == chars.len(),
            forall|j: int| 0 <= j < a ==> !alphanumeric_char(#[trigger] chars@[j]),
        decreases n - a,
    {
        a += 1;
    }
    proof {
        lemma_prefix_len_is(chars@, trim_char(), a as int);
    }
    if a == n {
        return String::new();
    }
    let mut b: usize = n;
    while b > a + 1 && !is_alphanumeric(chars[b - 1])
        invariant
            a < b <= n,
            n == chars.len(),
            alphanumeric_char(chars@[a as int]),
            forall|j: int| b <= j < n ==> !alphanumeric_char(#[trigger] chars@[j]),
        decreases b,
    {
        b -= 1;
    }
    proof {
        lemma_suffix_len_is(chars@, trim_char(), n - b);
    }
    string_from_chars(&chars, a, b)
}

/// The first form under which a word is found as a seed: in lower case.
pub open spec fn lowercase_seed(word: Seq<char>) -> Seq<char> {
    encoded(lowercase(word))
}

/// The second form under which a word is found as a seed: in lower case,
/// without what is neither letter nor digit at its start and end.
pub open spec fn cleaned_seed(word: Seq<char>) -> Seq<char> {
    encoded(trimmed(lowercase(word)))
}

/// The seeds of a word as field names: its lower-case form, and its cleaned
/// form where that is another string.
pub fn get_associated_seeds_encoded(decoded_word: &str) -> (r: Vec<String>)
    ensures
        1 <= r.len() <= 2,
        r[0]@ == lowercase_seed(decoded_word@),
        r.len() == 2 <==> cleaned_seed(decoded_word@) != lowercase_seed(decoded_word@),
        r.len() == 2 ==> r[1]@ == cleaned_seed(decoded_word@),
{
    let lower = to_lowercase(decoded_word);
    let cleaned = trim_non_alphanumeric(lower.as_str());
    let lowercase_encoded = encode_db_field_name(lower.as_str());
    let cleaned_encoded = encode_db_field_name(cleaned.as_str());
    let mut r: Vec<String> = Vec::new();
    let same = lowercase_encoded == cleaned_encoded;
    r.push(lowercase_encoded);
    if !same {
        r.push(cleaned_encoded);
    }
    r
}

/// Whether a string starts with another.
pub fn starts_with(s: &str, prefix: &str) -> (r: bool)
    ensures
        r == prefix@.is_prefix_of(s@),
{
    let chars = chars_of(s);
    let start = chars_of(prefix);
    if start.len() > chars.len() {
        return false;
    }
    let mut i: usize = 0;
    while i < start.len()
        invariant
            chars@ == s@,
            start@ == prefix@,
            start.len() <= chars.len(),
            i <= start.len(),
            forall|j: int| 0 <= j < i ==> chars@[j] == start@[j],
        decreases start.len() - i,
    {
        if chars[i] != start[i] {
            assert(s@.subrange(0, prefix@.len() as int)[i as int] != prefix@[i as int]);
            return false;
        }
        i += 1;
    }
    assert(s@.subrange(0, prefix@.len() as int) =~= prefix@);
    true
}

} // verus!
