//! Laws of plain text: characters, letter case, searching, and trimming.

use vstd::prelude::*;

use crate::text;

verus! {

// ---------------------------------------------------------------------------
// Characters
// ---------------------------------------------------------------------------

/// Of the ASCII characters, the letters, the digits, and the underscore spell
/// identifiers, and only the letters and the underscore start one.
pub proof fn law_ascii_names(c: char)
    requires
        c <= '\u{7f}',
    ensures
        text::is_name_char(c) <==> ('a' <= c && c <= 'z') || ('A' <= c && c <= 'Z') || ('0' <= c
            && c <= '9') || c == '_',
        text::is_alphabetic_char(c) <==> ('a' <= c && c <= 'z') || ('A' <= c && c <= 'Z'),
        text::is_alphanumeric_char(c) <==> text::is_name_char(c) && c != '_',
{
}

/// Of the ASCII characters, the space and the five that move the carriage are
/// whitespace, and the vertical tab is none to SQL.
pub proof fn law_ascii_whitespace(c: char)
    requires
        c <= '\u{7f}',
    ensures
        text::is_whitespace_char(c) <==> c == ' ' || c == '\t' || c == '\n' || c == '\u{b}' || c
            == '\u{c}' || c == '\r',
        text::is_ascii_space(c) <==> text::is_whitespace_char(c) && c != '\u{b}',
{
}

/// No character is both whitespace and part of an ASCII identifier, and beyond
/// ASCII nothing is whitespace to SQL.
pub proof fn law_sql_whitespace_is_ascii(c: char)
    ensures
        text::is_ascii_space(c) ==> c <= '\u{7f}' && text::is_whitespace_char(c),
        c <= '\u{7f}' && text::is_whitespace_char(c) ==> !text::is_name_char(c),
{
}

/// Beyond ASCII the Unicode tables decide.
pub proof fn law_unicode_decides_beyond_ascii(c: char, s: Seq<char>, i: int)
    requires
        c > '\u{7f}',
        0 <= i < s.len(),
        s[i] > '\u{7f}',
    ensures
        text::is_name_char(c) <==> text::unicode_alphanumeric(c),
        text::is_alphanumeric_char(c) <==> text::unicode_alphanumeric(c),
        text::is_alphabetic_char(c) <==> text::unicode_alphabetic(c),
        text::is_whitespace_char(c) <==> text::unicode_whitespace(c),
        text::lowercased(s) == text::unicode_lowercase(s),
        text::uppercased(s) == text::unicode_uppercase(s),
{
}

/// `a` and `b` are the same letter in two cases.
pub open spec fn is_other_case(a: char, b: char) -> bool {
    ||| 'a' <= a && a <= 'z' && b as int + 32 == a as int
    ||| 'a' <= b && b <= 'z' && a as int + 32 == b as int
}

/// Two texts are the same up to case when each two characters are the same, or
/// the same ASCII letter in two cases.
pub proof fn law_case_is_that_of_ascii_letters(a: Seq<char>, b: Seq<char>)
    ensures
        text::same_ignoring_case(a, b) <==> a.len() == b.len() && forall|i: int|
            0 <= i < a.len() ==> #[trigger] a[i] == b[i] || is_other_case(a[i], b[i]),
{
    assert forall|c: char, d: char| (#[trigger] text::ascii_lower(c) == #[trigger] text::ascii_lower(
        d,
    )) <==> (c == d || is_other_case(c, d)) by {
        lemma_lower(c);
        lemma_lower(d);
    }
    if text::same_ignoring_case(a, b) {
        assert forall|i: int| 0 <= i < a.len() implies #[trigger] a[i] == b[i] || is_other_case(
            a[i],
            b[i],
        ) by {
            assert(text::ascii_lower(a[i]) == text::ascii_lower(b[i]));
        }
    }
}

/// What the code point of a lower-case form is.
proof fn lemma_lower(c: char)
    ensures
        'A' <= c && c <= 'Z' ==> text::ascii_lower(c) as int == c as int + 32,
        !('A' <= c && c <= 'Z') ==> text::ascii_lower(c) == c,
{
}

/// The case of a text in ASCII is changed letter by letter.
pub proof fn law_ascii_case_is_changed_by_letter(s: Seq<char>)
    requires
        forall|i: int| 0 <= i < s.len() ==> #[trigger] s[i] <= '\u{7f}',
    ensures
        text::same_ignoring_case(text::lowercased(s), s),
        text::same_ignoring_case(text::uppercased(s), s),
        forall|i: int|
            0 <= i < s.len() ==> !('A' <= #[trigger] text::lowercased(s)[i] && text::lowercased(
                s,
            )[i] <= 'Z'),
        forall|i: int|
            0 <= i < s.len() ==> !('a' <= #[trigger] text::uppercased(s)[i] && text::uppercased(
                s,
            )[i] <= 'z'),
{
    lemma_ascii(s);
}

/// A text below U+0080 is ASCII.
pub(crate) proof fn lemma_ascii(s: Seq<char>)
    requires
        forall|i: int| 0 <= i < s.len() ==> #[trigger] s[i] <= '\u{7f}',
    ensures
        vstd::utf8::is_ascii_chars(s),
{
    assert forall|i: int| 0 <= i < s.len() implies '\0' <= #[trigger] s[i] <= '\u{7f}' by {
        lemma_code_point(s[i]);
    }
}

/// No code point is below zero.
proof fn lemma_code_point(c: char)
    ensures
        '\0' <= c,
{
}

// ---------------------------------------------------------------------------
// Searching
// ---------------------------------------------------------------------------

/// `word` stands at `i` in `s`, character for character.
pub open spec fn reads_at(s: Seq<char>, i: int, word: Seq<char>) -> bool {
    &&& 0 <= i
    &&& i + word.len() <= s.len()
    &&& forall|k: int| 0 <= k < word.len() ==> s[i + k] == #[trigger] word[k]
}

/// A text contains another one when the other stands somewhere in it.
pub proof fn law_contained_text_stands_somewhere(s: Seq<char>, word: Seq<char>)
    ensures
        text::contains_seq(s, word) <==> exists|i: int| #[trigger] reads_at(s, i, word),
{
    let p = text::occurrences(s, word);
    text::lemma_first_from(p, 0, s.len() as int + 1);
    if let Some(i) = text::find_seq(s, word) {
        lemma_occurs_reads(s, i, word);
    }
    if exists|i: int| #[trigger] reads_at(s, i, word) {
        let i = choose|i: int| #[trigger] reads_at(s, i, word);
        lemma_occurs_reads(s, i, word);
        assert(p(i));
    }
}

/// To occur is to be read character for character.
pub(crate) proof fn lemma_occurs_reads(s: Seq<char>, i: int, word: Seq<char>)
    ensures
        text::occurs_at(s, word, i) == reads_at(s, i, word),
{
    if 0 <= i && i + word.len() <= s.len() {
        let window = s.subrange(i, i + word.len());
        if window == word {
            assert forall|k: int| 0 <= k < word.len() implies s[i + k] == #[trigger] word[k] by {
                assert(window[k] == s[i + k]);
            }
        }
        if reads_at(s, i, word) {
            assert(window =~= word);
        }
    }
}

// ---------------------------------------------------------------------------
// Trimming
// ---------------------------------------------------------------------------

/// `s` is whitespace throughout.
pub open spec fn is_blank(s: Seq<char>) -> bool {
    forall|i: int| 0 <= i < s.len() ==> text::is_whitespace_char(#[trigger] s[i])
}

/// `s` neither starts nor ends in whitespace.
pub open spec fn is_bare(s: Seq<char>) -> bool {
    s.len() > 0 ==> !text::is_whitespace_char(s[0]) && !text::is_whitespace_char(s.last())
}

/// Trimming takes the whitespace off both ends of a text and nothing else.
pub proof fn law_trimming_keeps_what_is_between(before: Seq<char>, s: Seq<char>, after: Seq<char>)
    requires
        is_blank(before),
        is_blank(after),
        is_bare(s),
    ensures
        text::trimmed(before + s + after) == s,
        s.len() > 0 ==> text::trimmed_start(before + s + after) == s + after,
        s.len() > 0 ==> text::trimmed_end(before + s + after) == before + s,
{
    let rest = s + after;
    assert(before + s + after =~= before + rest);
    if s.len() > 0 {
        assert(rest[0] == s[0]);
        lemma_blank_before(before, rest);
        lemma_blank_after(s, after);
        lemma_blank_after(before + s, after);
        assert((before + s).last() == s.last());
    } else {
        assert(before + s + after =~= before + after);
        lemma_all_blank(before + after);
    }
}

/// Trimming removes whitespace before a text that starts with none.
pub(crate) proof fn lemma_blank_before(blank: Seq<char>, rest: Seq<char>)
    requires
        is_blank(blank),
        rest.len() > 0 ==> !text::is_whitespace_char(rest[0]),
    ensures
        text::trimmed_start(blank + rest) == rest,
    decreases blank.len(),
{
    if blank.len() == 0 {
        assert(blank + rest =~= rest);
    } else {
        assert(text::is_whitespace_char(blank[0]));
        let tail = blank.drop_first();
        assert forall|i: int| 0 <= i < tail.len() implies text::is_whitespace_char(
            #[trigger] tail[i],
        ) by {
            assert(tail[i] == blank[i + 1]);
        }
        lemma_blank_before(tail, rest);
        assert((blank + rest).drop_first() =~= tail + rest);
    }
}

/// Trimming removes whitespace behind a text that ends in none.
pub(crate) proof fn lemma_blank_after(s: Seq<char>, blank: Seq<char>)
    requires
        is_blank(blank),
        s.len() > 0 ==> !text::is_whitespace_char(s.last()),
    ensures
        text::trimmed_end(s + blank) == s,
    decreases blank.len(),
{
    if blank.len() == 0 {
        assert(s + blank =~= s);
    } else {
        assert(text::is_whitespace_char(blank[blank.len() - 1]));
        let init = blank.drop_last();
        assert forall|i: int| 0 <= i < init.len() implies text::is_whitespace_char(
            #[trigger] init[i],
        ) by {
            assert(init[i] == blank[i]);
        }
        lemma_blank_after(s, init);
        assert((s + blank).drop_last() =~= s + init);
        assert((s + blank).last() == blank.last());
    }
}

/// Nothing is left of whitespace.
proof fn lemma_all_blank(blank: Seq<char>)
    requires
        is_blank(blank),
    ensures
        text::trimmed(blank) == Seq::<char>::empty(),
{
    lemma_blank_before(blank, Seq::empty());
    assert(blank + Seq::<char>::empty() =~= blank);
}

/// What trimming takes off the start of a text is whitespace.
pub(crate) proof fn lemma_trimmed_off(s: Seq<char>)
    ensures
        is_blank(s.take(s.len() - text::trimmed_start(s).len())),
        s == s.take(s.len() - text::trimmed_start(s).len()) + text::trimmed_start(s),
    decreases s.len(),
{
    text::lemma_trimmed_start(s);
    let n = s.len() - text::trimmed_start(s).len();
    assert(s =~= s.take(n) + s.skip(n));
    if s.len() > 0 && text::is_whitespace_char(s[0]) {
        let tail = s.drop_first();
        lemma_trimmed_off(tail);
        text::lemma_trimmed_start(tail);
        let off = tail.take(tail.len() - text::trimmed_start(tail).len());
        assert forall|i: int| 0 <= i < n implies text::is_whitespace_char(
            #[trigger] s.take(n)[i],
        ) by {
            if i > 0 {
                assert(s.take(n)[i] == off[i - 1]);
            }
        }
    }
}

/// `s` is one character again and again.
pub open spec fn is_run_of(s: Seq<char>, c: char) -> bool {
    forall|i: int| 0 <= i < s.len() ==> #[trigger] s[i] == c
}

/// Taking a character off the end of a text takes all of its run, and nothing
/// else.
pub proof fn law_a_run_is_taken_off_the_end(s: Seq<char>, run: Seq<char>, c: char)
    requires
        is_run_of(run, c),
        s.len() > 0 ==> s.last() != c,
    ensures
        text::without_trailing(s + run, c) == s,
    decreases run.len(),
{
    if run.len() == 0 {
        assert(s + run =~= s);
    } else {
        assert(run[run.len() - 1] == c);
        let init = run.drop_last();
        assert forall|i: int| 0 <= i < init.len() implies #[trigger] init[i] == c by {
            assert(init[i] == run[i]);
        }
        law_a_run_is_taken_off_the_end(s, init, c);
        assert((s + run).drop_last() =~= s + init);
        assert((s + run).last() == c);
    }
}

// ---------------------------------------------------------------------------
// Words
// ---------------------------------------------------------------------------

/// `s` is not empty and holds no whitespace.
pub open spec fn is_solid(s: Seq<char>) -> bool {
    s.len() > 0 && forall|i: int| 0 <= i < s.len() ==> !text::is_whitespace_char(#[trigger] s[i])
}

/// The words of a text are what whitespace parts: the first one, and then those
/// of what follows it.
pub proof fn law_whitespace_parts_words(blank: Seq<char>, word: Seq<char>, rest: Seq<char>)
    requires
        is_blank(blank),
        is_solid(word),
        rest.len() > 0 ==> text::is_whitespace_char(rest[0]),
    ensures
        text::words(blank + word + rest) == seq![word] + text::words(rest),
{
    let s = word + rest;
    assert(blank + word + rest =~= blank + s);
    assert(!text::is_whitespace_char(word[0]));
    assert(s[0] == word[0]);
    lemma_blank_before(blank, s);
    let p = text::is_whitespace_at(s);
    let n = word.len() as int;
    assert forall|j: int| 0 <= j < n implies !#[trigger] p(j) by {
        assert(s[j] == word[j]);
    }
    if rest.len() > 0 {
        assert(s[n] == rest[0]);
        text::lemma_first_is(p, 0, s.len() as int, n);
    } else {
        text::lemma_no_first(p, 0, s.len() as int);
    }
    assert(s.take(n) =~= word);
    assert(s.skip(n) =~= rest);
}

/// A text of whitespace has no words.
pub proof fn law_whitespace_holds_no_words(blank: Seq<char>)
    requires
        is_blank(blank),
    ensures
        text::words(blank).len() == 0,
{
    lemma_blank_before(blank, Seq::empty());
    assert(blank + Seq::<char>::empty() =~= blank);
}

/// Joining puts the separator between each two parts, and nowhere else.
pub proof fn law_joining_adds_a_part(parts: Seq<Seq<char>>, last: Seq<char>, separator: Seq<char>)
    ensures
        text::joined(Seq::<Seq<char>>::empty(), separator).len() == 0,
        text::joined(parts.push(last), separator) == (if parts.len() == 0 {
            last
        } else {
            text::joined(parts, separator) + separator + last
        }),
{
    assert(parts.push(last).drop_last() =~= parts);
}

}
