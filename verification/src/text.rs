//! Text as a sequence of characters: character classes, letter case, searching,
//! and trimming.

use vstd::prelude::*;
use vstd::slice::slice_subrange;

verus! {

// ---------------------------------------------------------------------------
// Character classes
// ---------------------------------------------------------------------------

/// True for a character below U+0080.
pub open spec fn is_ascii_char(c: char) -> bool {
    c <= '\u{7f}'
}

/// True for `A` to `Z` and `a` to `z`.
pub open spec fn is_ascii_letter(c: char) -> bool {
    ('A' <= c && c <= 'Z') || ('a' <= c && c <= 'z')
}

/// True for `0` to `9`.
pub open spec fn is_ascii_digit(c: char) -> bool {
    '0' <= c && c <= '9'
}

/// True for the whitespace that SQL separates words by: space, tab, line feed,
/// form feed, and carriage return.
pub open spec fn is_ascii_space(c: char) -> bool {
    c == ' ' || c == '\t' || c == '\n' || c == '\u{c}' || c == '\r'
}

/// What `char::is_alphanumeric` says of a character.
pub uninterp spec fn unicode_alphanumeric(c: char) -> bool;

/// What `char::is_alphabetic` says of a character.
pub uninterp spec fn unicode_alphabetic(c: char) -> bool;

/// What `char::is_whitespace` says of a character.
pub uninterp spec fn unicode_whitespace(c: char) -> bool;

/// A letter or a digit, in any script.
pub open spec fn is_alphanumeric_char(c: char) -> bool {
    if is_ascii_char(c) {
        is_ascii_letter(c) || is_ascii_digit(c)
    } else {
        unicode_alphanumeric(c)
    }
}

/// A letter, in any script.
pub open spec fn is_alphabetic_char(c: char) -> bool {
    if is_ascii_char(c) {
        is_ascii_letter(c)
    } else {
        unicode_alphabetic(c)
    }
}

/// Whitespace, in the Unicode sense.
pub open spec fn is_whitespace_char(c: char) -> bool {
    if is_ascii_char(c) {
        c == ' ' || ('\t' <= c && c <= '\r')
    } else {
        unicode_whitespace(c)
    }
}

/// A character that an unquoted identifier can carry.
pub open spec fn is_name_char(c: char) -> bool {
    is_alphanumeric_char(c) || c == '_'
}

/// Calls `char::is_alphanumeric`: whether the character is alphabetic or
/// numeric by the Unicode tables. The contract only names the answer.
#[verifier::external_body]
fn std_is_alphanumeric(c: char) -> (answer: bool)
    ensures
        answer == unicode_alphanumeric(c),
{
    c.is_alphanumeric()
}

/// Calls `char::is_alphabetic`: whether the character has the Unicode property
/// `Alphabetic`. The contract only names the answer.
#[verifier::external_body]
fn std_is_alphabetic(c: char) -> (answer: bool)
    ensures
        answer == unicode_alphabetic(c),
{
    c.is_alphabetic()
}

/// Calls `char::is_whitespace`: whether the character has the Unicode property
/// `White_Space`. The contract only names the answer.
#[verifier::external_body]
fn std_is_whitespace(c: char) -> (answer: bool)
    ensures
        answer == unicode_whitespace(c),
{
    c.is_whitespace()
}

/// True for a letter or a digit, in any script.
pub fn is_alphanumeric(c: char) -> (answer: bool)
    ensures
        answer == is_alphanumeric_char(c),
{
    if c <= '\u{7f}' {
        ('A' <= c && c <= 'Z') || ('a' <= c && c <= 'z') || ('0' <= c && c <= '9')
    } else {
        std_is_alphanumeric(c)
    }
}

/// True for a character an unquoted identifier can carry.
///
/// One definition rather than one per reader, since a byte test and a character
/// test would disagree the moment a name is not ASCII.
pub fn is_identifier_char(c: char) -> (answer: bool)
    ensures
        answer == is_name_char(c),
{
    is_alphanumeric(c) || c == '_'
}

/// True for a letter, in any script.
pub fn is_alphabetic(c: char) -> (answer: bool)
    ensures
        answer == is_alphabetic_char(c),
{
    if c <= '\u{7f}' {
        ('A' <= c && c <= 'Z') || ('a' <= c && c <= 'z')
    } else {
        std_is_alphabetic(c)
    }
}

/// True for whitespace, in the Unicode sense.
pub fn is_whitespace(c: char) -> (answer: bool)
    ensures
        answer == is_whitespace_char(c),
{
    if c <= '\u{7f}' {
        c == ' ' || ('\t' <= c && c <= '\r')
    } else {
        std_is_whitespace(c)
    }
}

/// True for ASCII whitespace, the vertical tab excluded.
pub fn is_ascii_whitespace(c: char) -> (answer: bool)
    ensures
        answer == is_ascii_space(c),
{
    c == ' ' || c == '\t' || c == '\n' || c == '\u{c}' || c == '\r'
}

// ---------------------------------------------------------------------------
// Letter case
// ---------------------------------------------------------------------------

/// The lower-case form of an ASCII capital, and any other character as it is.
pub open spec fn ascii_lower(c: char) -> char {
    if 'A' <= c && c <= 'Z' {
        ((c as u32) + 32) as char
    } else {
        c
    }
}

/// The upper-case form of an ASCII small letter, and any other character as it
/// is.
pub open spec fn ascii_upper(c: char) -> char {
    if 'a' <= c && c <= 'z' {
        ((c as u32) - 32) as char
    } else {
        c
    }
}

/// Equality that ignores the case of ASCII letters.
pub open spec fn same_ignoring_case(a: Seq<char>, b: Seq<char>) -> bool {
    &&& a.len() == b.len()
    &&& forall|i: int| 0 <= i < a.len() ==> ascii_lower(#[trigger] a[i]) == ascii_lower(b[i])
}

/// What `str::to_uppercase` makes of a text.
pub uninterp spec fn unicode_uppercase(s: Seq<char>) -> Seq<char>;

/// What `str::to_lowercase` makes of a text.
pub uninterp spec fn unicode_lowercase(s: Seq<char>) -> Seq<char>;

/// The upper-case form of a text.
pub open spec fn uppercased(s: Seq<char>) -> Seq<char> {
    if vstd::utf8::is_ascii_chars(s) {
        Seq::new(s.len(), |i: int| ascii_upper(s[i]))
    } else {
        unicode_uppercase(s)
    }
}

/// The lower-case form of a text.
pub open spec fn lowercased(s: Seq<char>) -> Seq<char> {
    if vstd::utf8::is_ascii_chars(s) {
        Seq::new(s.len(), |i: int| ascii_lower(s[i]))
    } else {
        unicode_lowercase(s)
    }
}

/// Calls `str::to_uppercase`: the text with the Unicode upper-case mapping
/// applied. The contract only names the result.
#[verifier::external_body]
fn std_to_uppercase(text: &str) -> (mapped: String)
    ensures
        mapped@ == unicode_uppercase(text@),
{
    text.to_uppercase()
}

/// Calls `str::to_lowercase`: the text with the Unicode lower-case mapping
/// applied. The contract only names the result.
#[verifier::external_body]
fn std_to_lowercase(text: &str) -> (mapped: String)
    ensures
        mapped@ == unicode_lowercase(text@),
{
    text.to_lowercase()
}

/// The lower-case form of an ASCII capital, and any other character as it is.
fn lower(c: char) -> (mapped: char)
    ensures
        mapped == ascii_lower(c),
{
    if 'A' <= c && c <= 'Z' {
        ((c as u8) + 32) as char
    } else {
        c
    }
}

/// The upper-case form of an ASCII small letter, and any other character as it
/// is.
fn upper(c: char) -> (mapped: char)
    ensures
        mapped == ascii_upper(c),
{
    if 'a' <= c && c <= 'z' {
        ((c as u8) - 32) as char
    } else {
        c
    }
}

// ---------------------------------------------------------------------------
// Conversions
// ---------------------------------------------------------------------------

/// `String::push`: the character is added at the end.
pub assume_specification[ String::push ](string: &mut String, ch: char)
    ensures
        final(string)@ == old(string)@.push(ch),
;

/// The characters of `text`.
pub fn chars_of(text: &str) -> (chars: Vec<char>)
    ensures
        chars@ == text@,
{
    let mut chars: Vec<char> = Vec::new();
    for c in it: text.chars()
        invariant
            it.seq() == text@,
            chars@ == text@.take(it.index()),
    {
        chars.push(c);
    }
    chars
}

/// The text that `chars` spell.
pub fn string_of(chars: &[char]) -> (text: String)
    ensures
        text@ == chars@,
{
    let mut text = String::new();
    let mut i: usize = 0;
    while i < chars.len()
        invariant
            i <= chars@.len(),
            text@ == chars@.take(i as int),
        decreases chars@.len() - i,
    {
        text.push(chars[i]);
        i += 1;
    }
    text
}

/// Adds `tail` at the end of `chars`.
pub fn push_chars(chars: &mut Vec<char>, tail: &[char])
    ensures
        final(chars)@ == old(chars)@ + tail@,
{
    let mut i: usize = 0;
    while i < tail.len()
        invariant
            i <= tail@.len(),
            chars@ == old(chars)@ + tail@.take(i as int),
        decreases tail@.len() - i,
    {
        chars.push(tail[i]);
        i += 1;
    }
    assert(tail@.take(i as int) == tail@);
}

/// Adds the characters of `tail` at the end of `chars`.
pub fn push_text(chars: &mut Vec<char>, tail: &str)
    ensures
        final(chars)@ == old(chars)@ + tail@,
{
    let tail_chars = chars_of(tail);
    push_chars(chars, &tail_chars);
}

/// The upper-case form of `chars`.
pub fn uppercase(chars: &[char]) -> (mapped: Vec<char>)
    ensures
        mapped@ == uppercased(chars@),
{
    let mut mapped: Vec<char> = Vec::new();
    let mut i: usize = 0;
    while i < chars.len()
        invariant
            i <= chars@.len(),
            mapped@.len() == i,
            forall|j: int| 0 <= j < i ==> mapped@[j] == ascii_upper(#[trigger] chars@[j]),
            forall|j: int| 0 <= j < i ==> '\0' <= #[trigger] chars@[j] <= '\u{7f}',
        decreases chars@.len() - i,
    {
        if chars[i] > '\u{7f}' {
            assert(!vstd::utf8::is_ascii_chars(chars@)) by {
                assert(chars@[i as int] > '\u{7f}');
            }
            return chars_of(&std_to_uppercase(&string_of(chars)));
        }
        mapped.push(upper(chars[i]));
        i += 1;
    }
    mapped
}

/// The lower-case form of `chars`.
pub fn lowercase(chars: &[char]) -> (mapped: Vec<char>)
    ensures
        mapped@ == lowercased(chars@),
{
    let mut mapped: Vec<char> = Vec::new();
    let mut i: usize = 0;
    while i < chars.len()
        invariant
            i <= chars@.len(),
            mapped@.len() == i,
            forall|j: int| 0 <= j < i ==> mapped@[j] == ascii_lower(#[trigger] chars@[j]),
            forall|j: int| 0 <= j < i ==> '\0' <= #[trigger] chars@[j] <= '\u{7f}',
        decreases chars@.len() - i,
    {
        if chars[i] > '\u{7f}' {
            assert(!vstd::utf8::is_ascii_chars(chars@)) by {
                assert(chars@[i as int] > '\u{7f}');
            }
            return chars_of(&std_to_lowercase(&string_of(chars)));
        }
        mapped.push(lower(chars[i]));
        i += 1;
    }
    mapped
}

// ---------------------------------------------------------------------------
// Searching
// ---------------------------------------------------------------------------

/// The least `i` in `from..to` with `p(i)`.
pub open spec fn first_from(p: spec_fn(int) -> bool, from: int, to: int) -> Option<int>
    decreases to - from,
{
    if from >= to {
        None
    } else if p(from) {
        Some(from)
    } else {
        first_from(p, from + 1, to)
    }
}

/// A position, or `to` where there is none.
pub open spec fn or_end(found: Option<int>, to: int) -> int {
    match found {
        Some(i) => i,
        None => to,
    }
}

/// An offset as a mathematical integer.
pub open spec fn as_int(found: Option<usize>) -> Option<int> {
    match found {
        Some(i) => Some(i as int),
        None => None,
    }
}

/// What `first_from` says of its result.
pub proof fn lemma_first_from(p: spec_fn(int) -> bool, from: int, to: int)
    ensures
        match first_from(p, from, to) {
            Some(i) => from <= i < to && p(i) && forall|j: int| from <= j < i ==> !#[trigger] p(j),
            None => forall|j: int| from <= j < to ==> !#[trigger] p(j),
        },
    decreases to - from,
{
    if from < to && !p(from) {
        lemma_first_from(p, from + 1, to);
    }
}

/// A position that holds `p`, with none before it, is the first.
pub proof fn lemma_first_is(p: spec_fn(int) -> bool, from: int, to: int, i: int)
    requires
        from <= i < to,
        p(i),
        forall|j: int| from <= j < i ==> !#[trigger] p(j),
    ensures
        first_from(p, from, to) == Some(i),
{
    lemma_first_from(p, from, to);
}

/// With no position that holds `p` there is no first.
pub proof fn lemma_no_first(p: spec_fn(int) -> bool, from: int, to: int)
    requires
        forall|j: int| from <= j < to ==> !#[trigger] p(j),
    ensures
        first_from(p, from, to) is None,
{
    lemma_first_from(p, from, to);
}

/// `c` stands at `i` in `s`.
pub open spec fn is_char_at(s: Seq<char>, c: char) -> spec_fn(int) -> bool {
    |i: int| 0 <= i < s.len() && s[i] == c
}

/// The first `c` in `s` at or after `from`.
pub open spec fn find_char(s: Seq<char>, c: char, from: int) -> Option<int> {
    first_from(is_char_at(s, c), from, s.len() as int)
}

/// `needle` stands at `i` in `s`.
pub open spec fn occurs_at(s: Seq<char>, needle: Seq<char>, i: int) -> bool {
    0 <= i && i + needle.len() <= s.len() && s.subrange(i, i + needle.len()) == needle
}

/// `occurs_at` as a predicate on the position.
pub open spec fn occurrences(s: Seq<char>, needle: Seq<char>) -> spec_fn(int) -> bool {
    |i: int| occurs_at(s, needle, i)
}

/// The first place in `s` where `needle` stands.
pub open spec fn find_seq(s: Seq<char>, needle: Seq<char>) -> Option<int> {
    first_from(occurrences(s, needle), 0, s.len() as int + 1)
}

/// `needle` stands somewhere in `s`.
pub open spec fn contains_seq(s: Seq<char>, needle: Seq<char>) -> bool {
    find_seq(s, needle) is Some
}

/// `needle` stands at `i` in `s`, the case of ASCII letters ignored.
pub open spec fn occurs_ignoring_case_at(s: Seq<char>, needle: Seq<char>, i: int) -> bool {
    0 <= i && i + needle.len() <= s.len() && same_ignoring_case(
        s.subrange(i, i + needle.len()),
        needle,
    )
}

/// `s` starts with `prefix`, the case of ASCII letters ignored.
pub open spec fn starts_ignoring_case(s: Seq<char>, prefix: Seq<char>) -> bool {
    occurs_ignoring_case_at(s, prefix, 0)
}

/// The first `c` in `chars` at or after `from`.
pub fn position_of(chars: &[char], c: char, from: usize) -> (found: Option<usize>)
    requires
        from <= chars@.len(),
    ensures
        as_int(found) == find_char(chars@, c, from as int),
{
    let ghost p = is_char_at(chars@, c);
    let mut i: usize = from;
    while i < chars.len()
        invariant
            p == is_char_at(chars@, c),
            from <= i <= chars@.len(),
            forall|j: int| from <= j < i ==> !#[trigger] p(j),
        decreases chars@.len() - i,
    {
        if chars[i] == c {
            proof {
                lemma_first_is(p, from as int, chars@.len() as int, i as int);
            }
            return Some(i);
        }
        i += 1;
    }
    proof {
        lemma_no_first(p, from as int, chars@.len() as int);
    }
    None
}

/// True when `needle` stands at `i` in `chars`.
pub fn is_at(chars: &[char], needle: &[char], i: usize) -> (answer: bool)
    requires
        i <= chars@.len(),
    ensures
        answer == occurs_at(chars@, needle@, i as int),
{
    if needle.len() > chars.len() - i {
        return false;
    }
    let mut k: usize = 0;
    while k < needle.len()
        invariant
            k <= needle@.len(),
            i + needle@.len() <= chars.len(),
            forall|j: int| 0 <= j < k ==> chars@[i + j] == needle@[j],
        decreases needle@.len() - k,
    {
        if chars[i + k] != needle[k] {
            assert(chars@.subrange(i as int, i + needle@.len())[k as int] != needle@[k as int]);
            return false;
        }
        k += 1;
    }
    assert(chars@.subrange(i as int, i + needle@.len()) =~= needle@);
    true
}

/// True when `needle` stands at `i` in `chars`, the case of ASCII letters
/// ignored.
pub fn is_at_ignoring_case(chars: &[char], needle: &[char], i: usize) -> (answer: bool)
    requires
        i <= chars@.len(),
    ensures
        answer == occurs_ignoring_case_at(chars@, needle@, i as int),
{
    if needle.len() > chars.len() - i {
        return false;
    }
    let ghost window = chars@.subrange(i as int, i + needle@.len());
    let mut k: usize = 0;
    while k < needle.len()
        invariant
            k <= needle@.len(),
            i + needle@.len() <= chars.len(),
            window == chars@.subrange(i as int, i + needle@.len()),
            forall|j: int| 0 <= j < k ==> ascii_lower(#[trigger] window[j]) == ascii_lower(needle@[j]),
        decreases needle@.len() - k,
    {
        assert(window[k as int] == chars@[i + k]);
        if lower(chars[i + k]) != lower(needle[k]) {
            return false;
        }
        k += 1;
    }
    true
}

/// True when `a` and `b` hold the same characters.
pub fn equals(a: &[char], b: &[char]) -> (answer: bool)
    ensures
        answer == (a@ == b@),
{
    assert(a@.len() == b@.len() ==> a@.subrange(0, b@.len() as int) == a@);
    a.len() == b.len() && is_at(a, b, 0)
}

/// True when `a` and `b` hold the same characters, ignoring ASCII case.
pub fn equals_ignoring_case(a: &[char], b: &[char]) -> (answer: bool)
    ensures
        answer == same_ignoring_case(a@, b@),
{
    assert(a@.len() == b@.len() ==> a@.subrange(0, b@.len() as int) == a@);
    a.len() == b.len() && is_at_ignoring_case(a, b, 0)
}

/// The first place in `chars` where `needle` stands.
pub fn position_of_seq(chars: &[char], needle: &[char]) -> (found: Option<usize>)
    ensures
        as_int(found) == find_seq(chars@, needle@),
{
    let ghost p = occurrences(chars@, needle@);
    let mut i: usize = 0;
    loop
        invariant
            p == occurrences(chars@, needle@),
            i <= chars@.len(),
            forall|j: int| 0 <= j < i ==> !#[trigger] p(j),
        decreases chars@.len() - i,
    {
        if is_at(chars, needle, i) {
            proof {
                lemma_first_is(p, 0, chars@.len() as int + 1, i as int);
            }
            return Some(i);
        }
        if i == chars.len() {
            proof {
                lemma_no_first(p, 0, chars@.len() as int + 1);
            }
            return None;
        }
        i += 1;
    }
}

// ---------------------------------------------------------------------------
// Trimming
// ---------------------------------------------------------------------------

/// `s` without its leading whitespace.
pub open spec fn trimmed_start(s: Seq<char>) -> Seq<char>
    decreases s.len(),
{
    if s.len() > 0 && is_whitespace_char(s[0]) {
        trimmed_start(s.drop_first())
    } else {
        s
    }
}

/// `s` without its trailing whitespace.
pub open spec fn trimmed_end(s: Seq<char>) -> Seq<char>
    decreases s.len(),
{
    if s.len() > 0 && is_whitespace_char(s.last()) {
        trimmed_end(s.drop_last())
    } else {
        s
    }
}

/// `s` without whitespace at either end.
pub open spec fn trimmed(s: Seq<char>) -> Seq<char> {
    trimmed_end(trimmed_start(s))
}

/// `s` without the run of `c` at its end.
pub open spec fn without_trailing(s: Seq<char>, c: char) -> Seq<char>
    decreases s.len(),
{
    if s.len() > 0 && s.last() == c {
        without_trailing(s.drop_last(), c)
    } else {
        s
    }
}

/// `chars` without leading whitespace.
pub fn trim_start<'a>(chars: &'a [char]) -> (rest: &'a [char])
    ensures
        rest@ == trimmed_start(chars@),
{
    let mut i: usize = 0;
    assert(chars@.skip(0) == chars@);
    while i < chars.len() && is_whitespace(chars[i])
        invariant
            i <= chars@.len(),
            trimmed_start(chars@) == trimmed_start(chars@.skip(i as int)),
        decreases chars@.len() - i,
    {
        assert(chars@.skip(i as int).drop_first() == chars@.skip(i + 1));
        i += 1;
    }
    assert(chars@.skip(i as int) == chars@.subrange(i as int, chars@.len() as int));
    slice_subrange(chars, i, chars.len())
}

/// `chars` without trailing whitespace.
pub fn trim_end<'a>(chars: &'a [char]) -> (rest: &'a [char])
    ensures
        rest@ == trimmed_end(chars@),
{
    let mut n: usize = chars.len();
    assert(chars@.take(n as int) == chars@);
    while n > 0 && is_whitespace(chars[n - 1])
        invariant
            n <= chars@.len(),
            trimmed_end(chars@) == trimmed_end(chars@.take(n as int)),
        decreases n,
    {
        assert(chars@.take(n as int).drop_last() == chars@.take(n - 1));
        n -= 1;
    }
    slice_subrange(chars, 0, n)
}

/// `chars` without whitespace at either end.
pub fn trim<'a>(chars: &'a [char]) -> (rest: &'a [char])
    ensures
        rest@ == trimmed(chars@),
{
    trim_end(trim_start(chars))
}

/// `chars` without the run of `c` at its end.
pub fn trim_end_char<'a>(chars: &'a [char], c: char) -> (rest: &'a [char])
    ensures
        rest@ == without_trailing(chars@, c),
{
    let mut n: usize = chars.len();
    assert(chars@.take(n as int) == chars@);
    while n > 0 && chars[n - 1] == c
        invariant
            n <= chars@.len(),
            without_trailing(chars@, c) == without_trailing(chars@.take(n as int), c),
        decreases n,
    {
        assert(chars@.take(n as int).drop_last() == chars@.take(n - 1));
        n -= 1;
    }
    slice_subrange(chars, 0, n)
}

// ---------------------------------------------------------------------------
// Words and lists
// ---------------------------------------------------------------------------

/// Whitespace stands at `i` in `s`.
pub open spec fn is_whitespace_at(s: Seq<char>) -> spec_fn(int) -> bool {
    |i: int| 0 <= i < s.len() && is_whitespace_char(s[i])
}

/// The length of the run of characters before the first whitespace.
pub open spec fn word_len(s: Seq<char>) -> int {
    or_end(first_from(is_whitespace_at(s), 0, s.len() as int), s.len() as int)
}

/// The words of `s`, which whitespace separates.
pub open spec fn words(s: Seq<char>) -> Seq<Seq<char>>
    decreases s.len(),
{
    let rest = trimmed_start(s);
    if rest.len() == 0 {
        Seq::empty()
    } else {
        proof {
            lemma_trimmed_start(s);
            lemma_word_len(rest);
        }
        seq![rest.take(word_len(rest))] + words(rest.skip(word_len(rest)))
    }
}

/// `parts` in order, with `separator` between each two.
pub open spec fn joined(parts: Seq<Seq<char>>, separator: Seq<char>) -> Seq<char>
    decreases parts.len(),
{
    if parts.len() == 0 {
        Seq::empty()
    } else if parts.len() == 1 {
        parts[0]
    } else {
        joined(parts.drop_last(), separator) + separator + parts.last()
    }
}

/// Trimming the end leaves a prefix that ends in no whitespace.
pub proof fn lemma_trimmed_end(s: Seq<char>)
    ensures
        trimmed_end(s).len() <= s.len(),
        trimmed_end(s) == s.take(trimmed_end(s).len() as int),
        trimmed_end(s).len() > 0 ==> !is_whitespace_char(trimmed_end(s).last()),
    decreases s.len(),
{
    if s.len() > 0 && is_whitespace_char(s.last()) {
        lemma_trimmed_end(s.drop_last());
        let n = trimmed_end(s).len() as int;
        assert(s.drop_last().take(n) =~= s.take(n));
    } else {
        assert(s.take(s.len() as int) =~= s);
    }
}

/// What is left after trimming the start is a suffix that starts with no
/// whitespace.
pub proof fn lemma_trimmed_start(s: Seq<char>)
    ensures
        trimmed_start(s).len() <= s.len(),
        trimmed_start(s) == s.skip(s.len() - trimmed_start(s).len()),
        trimmed_start(s).len() > 0 ==> !is_whitespace_char(trimmed_start(s)[0]),
    decreases s.len(),
{
    if s.len() > 0 && is_whitespace_char(s[0]) {
        lemma_trimmed_start(s.drop_first());
        let rest = trimmed_start(s);
        assert(s.drop_first().skip(s.drop_first().len() - rest.len()) == s.skip(
            s.len() - rest.len(),
        ));
    } else {
        assert(s.skip(0) == s);
    }
}

/// A text that starts with no whitespace starts with a word.
pub proof fn lemma_word_len(s: Seq<char>)
    ensures
        0 <= word_len(s) <= s.len(),
        s.len() > 0 && !is_whitespace_char(s[0]) ==> word_len(s) > 0,
{
    lemma_first_from(is_whitespace_at(s), 0, s.len() as int);
}

/// The words of `chars`.
pub fn split_words<'a>(chars: &'a [char]) -> (parts: Vec<&'a [char]>)
    ensures
        parts@.len() == words(chars@).len(),
        forall|i: int| 0 <= i < parts@.len() ==> (#[trigger] parts@[i])@ == words(chars@)[i],
{
    let mut parts: Vec<&'a [char]> = Vec::new();
    let mut rest = trim_start(chars);
    let ghost all = words(chars@);
    proof {
        lemma_trimmed_start(chars@);
        lemma_trimmed_is_trimmed(chars@);
    }
    while rest.len() > 0
        invariant
            all == words(chars@),
            parts@.len() <= all.len(),
            forall|i: int| 0 <= i < parts@.len() ==> (#[trigger] parts@[i])@ == all[i],
            words(rest@) == all.skip(parts@.len() as int),
            trimmed_start(rest@) == rest@,
        decreases rest@.len(),
    {
        let ghost p = is_whitespace_at(rest@);
        let mut n: usize = 0;
        while n < rest.len() && !is_whitespace(rest[n])
            invariant
                p == is_whitespace_at(rest@),
                n <= rest@.len(),
                forall|j: int| 0 <= j < n ==> !#[trigger] p(j),
            decreases rest@.len() - n,
        {
            n += 1;
        }
        proof {
            if n < rest@.len() {
                lemma_first_is(p, 0, rest@.len() as int, n as int);
            } else {
                lemma_no_first(p, 0, rest@.len() as int);
            }
            lemma_trimmed_start(rest@);
            lemma_word_len(rest@);
        }
        let ghost before = rest@;
        let ghost count = parts@.len() as int;
        parts.push(slice_subrange(rest, 0, n));
        let tail = slice_subrange(rest, n, rest.len());
        assert(tail@ == before.skip(n as int));
        assert(words(before) == seq![before.take(n as int)] + words(tail@));
        assert(all[count] == words(before)[0]);
        assert(words(tail@) == words(before).skip(1));
        assert(all.skip(count).skip(1) == all.skip(count + 1));
        rest = trim_start(tail);
        proof {
            lemma_trimmed_start(tail@);
            lemma_trimmed_is_trimmed(tail@);
        }
    }
    parts
}

/// Trimming the start twice is trimming it once, and leaves the words as they
/// are.
proof fn lemma_trimmed_is_trimmed(s: Seq<char>)
    ensures
        trimmed_start(trimmed_start(s)) == trimmed_start(s),
        words(trimmed_start(s)) == words(s),
    decreases s.len(),
{
    lemma_trimmed_start(s);
}

}
