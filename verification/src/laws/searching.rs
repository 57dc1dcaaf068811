//! Laws of searching: words, keywords, separators, and nesting.

use vstd::prelude::*;

use crate::laws::wording;
use crate::preprocessor;
use crate::preprocessor::top_level;
use crate::scanner;
use crate::text;

verus! {

// ---------------------------------------------------------------------------
// Keywords
// ---------------------------------------------------------------------------

/// `c` extends an ASCII word: a letter, a digit, or an underscore.
pub open spec fn extends_word(c: char) -> bool {
    ('a' <= c && c <= 'z') || ('A' <= c && c <= 'Z') || ('0' <= c && c <= '9') || c == '_'
}

/// `keyword` stands at `i` in `s`, in any case.
pub open spec fn spelled_at(s: Seq<char>, keyword: Seq<char>, i: int) -> bool {
    &&& 0 <= i
    &&& i + keyword.len() <= s.len()
    &&& text::same_ignoring_case(s.subrange(i, i + keyword.len()), keyword)
}

/// A keyword is a whole word of live code in any case: no letter, digit,
/// underscore, or dollar sign stands right before or behind it.
pub proof fn law_keyword_is_a_whole_word(s: Seq<char>, keyword: Seq<char>, i: int)
    requires
        keyword.len() > 0,
    ensures
        scanner::keyword_at(s, keyword, i) <==> {
            &&& scanner::is_live(s, i)
            &&& spelled_at(s, keyword, i)
            &&& i > 0 ==> !extends_word(s[i - 1]) && s[i - 1] != '$'
            &&& i + keyword.len() < s.len() ==> !extends_word(s[i + keyword.len()]) && s[i
                + keyword.len()] != '$'
        },
        scanner::live_keyword_at(s, keyword, i) <==> {
            &&& scanner::is_live(s, i)
            &&& spelled_at(s, keyword, i)
            &&& scanner::is_live(s, i - 1) ==> !extends_word(s[i - 1]) && s[i - 1] != '$'
            &&& scanner::is_live(s, i + keyword.len()) ==> !extends_word(s[i + keyword.len()])
                && s[i + keyword.len()] != '$'
        },
{
}

/// A search gives the first place where what is searched for stands, and nothing
/// when it stands nowhere.
pub proof fn law_search_finds_the_first(s: Seq<char>, keyword: Seq<char>, c: char, from: int, i: int)
    requires
        keyword.len() > 0,
    ensures
        scanner::find_keyword_from(s, keyword, from) == Some(i) <==> {
            &&& from <= i < s.len()
            &&& scanner::keyword_at(s, keyword, i)
            &&& forall|j: int| from <= j < i ==> !#[trigger] scanner::keyword_at(s, keyword, j)
        },
        scanner::find_live_keyword(s, keyword, from) == Some(i) <==> {
            &&& from <= i < s.len()
            &&& scanner::live_keyword_at(s, keyword, i)
            &&& forall|j: int| from <= j < i ==> !#[trigger] scanner::live_keyword_at(s, keyword, j)
        },
        scanner::find_live_char(s, c, from) == Some(i) <==> {
            &&& from <= i < s.len()
            &&& scanner::is_live(s, i) && s[i] == c
            &&& forall|j: int| from <= j < i ==> !(#[trigger] scanner::is_live(s, j) && s[j] == c)
        },
        scanner::find_live_seq(s, keyword) == Some(i) <==> {
            &&& 0 <= i < s.len()
            &&& scanner::is_live(s, i) && wording::reads_at(s, i, keyword)
            &&& forall|j: int|
                0 <= j < i ==> !(#[trigger] scanner::is_live(s, j) && wording::reads_at(
                    s,
                    j,
                    keyword,
                ))
        },
        top_level::top_level_keyword(s, keyword, from) == Some(i) <==> {
            &&& from <= i < s.len()
            &&& top_level::top_level_keyword_at(s, keyword, i)
            &&& forall|j: int|
                from <= j < i ==> !#[trigger] top_level::top_level_keyword_at(s, keyword, j)
        },
{
    let len = s.len() as int;
    let p = scanner::keyword_positions(s, keyword);
    let q = scanner::live_keywords(s, keyword);
    let r = scanner::live_char(s, c);
    let t = scanner::live_occurrence(s, keyword);
    let u = top_level::top_level_keywords(s, keyword);
    text::lemma_first_from(p, from, len);
    text::lemma_first_from(q, from, len);
    text::lemma_first_from(r, from, len);
    text::lemma_first_from(t, 0, len);
    text::lemma_first_from(u, from, len);
    assert forall|j: int| #[trigger] scanner::keyword_at(s, keyword, j) == p(j) by {}
    assert forall|j: int| #[trigger] scanner::live_keyword_at(s, keyword, j) == q(j) by {}
    assert forall|j: int| (#[trigger] scanner::is_live(s, j) && s[j] == c) == r(j) by {}
    assert forall|j: int|
        (#[trigger] scanner::is_live(s, j) && wording::reads_at(s, j, keyword)) == t(j) by {
        wording::lemma_occurs_reads(s, j, keyword);
    }
    assert forall|j: int| #[trigger] top_level::top_level_keyword_at(s, keyword, j) == u(j) by {}
}

/// The next word of live code is the run of word characters that starts with the
/// first live character that is no whitespace.
pub proof fn law_next_word_is_read_whole(s: Seq<char>, from: int, start: int, end: int)
    requires
        0 <= from <= start < end <= s.len(),
        forall|j: int|
            from <= j < start ==> !(#[trigger] scanner::is_live(s, j) && !text::is_ascii_space(
                s[j],
            )),
        forall|j: int|
            start <= j < end ==> #[trigger] scanner::is_live(s, j) && (extends_word(s[j]) || s[j]
                == '$'),
        scanner::is_live(s, end) ==> !extends_word(s[end]) && s[end] != '$',
    ensures
        scanner::next_word_from(s, from) == Some(s.subrange(start, end)),
{
    let p = scanner::live_non_space(s);
    let q = scanner::not_live_word(s);
    assert(scanner::is_live(s, start));
    assert forall|j: int| from <= j < start implies !#[trigger] p(j) by {
        assert(!(scanner::is_live(s, j) && !text::is_ascii_space(s[j])));
    }
    text::lemma_first_is(p, from, s.len() as int, start);
    assert forall|j: int| start <= j < end implies !#[trigger] q(j) by {
        assert(scanner::is_live(s, j));
    }
    if end < s.len() {
        assert(q(end));
        text::lemma_first_is(q, start, s.len() as int, end);
    } else {
        text::lemma_no_first(q, start, s.len() as int);
    }
}

/// No word follows when the first live character that is no whitespace belongs to
/// none.
pub proof fn law_no_word_before_a_sign(s: Seq<char>, from: int, start: int)
    requires
        0 <= from <= start <= s.len(),
        forall|j: int|
            from <= j < start ==> !(#[trigger] scanner::is_live(s, j) && !text::is_ascii_space(
                s[j],
            )),
        start < s.len() ==> scanner::is_live(s, start) && !text::is_ascii_space(s[start])
            && !extends_word(s[start]) && s[start] != '$',
    ensures
        scanner::next_word_from(s, from) is None,
{
    let p = scanner::live_non_space(s);
    let q = scanner::not_live_word(s);
    assert forall|j: int| from <= j < start implies !#[trigger] p(j) by {
        assert(!(scanner::is_live(s, j) && !text::is_ascii_space(s[j])));
    }
    if start < s.len() {
        text::lemma_first_is(p, from, s.len() as int, start);
        assert(q(start));
        text::lemma_first_is(q, start, s.len() as int, start);
    } else {
        text::lemma_no_first(p, from, s.len() as int);
    }
}

/// A handler opens where `EXCEPTION` is followed by the word `WHEN`, with nothing
/// between but whitespace and comments.
pub proof fn law_exception_when_is_a_handler(s: Seq<char>, at: int, start: int)
    requires
        scanner::keyword_at(s, "EXCEPTION"@, at),
        at + 9 <= start,
        start + 4 <= s.len(),
        forall|j: int|
            at + 9 <= j < start ==> !(#[trigger] scanner::is_live(s, j) && !text::is_ascii_space(
                s[j],
            )),
        forall|j: int| start <= j < start + 4 ==> #[trigger] scanner::is_live(s, j),
        text::same_ignoring_case(s.subrange(start, start + 4), "WHEN"@),
        scanner::is_live(s, start + 4) ==> !extends_word(s[start + 4]) && s[start + 4] != '$',
    ensures
        preprocessor::opens_exception_handler(s),
{
    reveal_strlit("EXCEPTION");
    reveal_strlit("WHEN");
    reveal_strlit("when");
    let word = s.subrange(start, start + 4);
    assert forall|j: int| start <= j < start + 4 implies #[trigger] scanner::is_live(s, j) && (
    extends_word(s[j]) || s[j] == '$') by {
        assert(s[j] == word[j - start]);
        assert(text::ascii_lower(word[j - start]) == text::ascii_lower("WHEN"@[j - start]));
    }
    law_next_word_is_read_whole(s, at + 9, start, start + 4);
    assert forall|k: int| 0 <= k < 4 implies text::ascii_lower(#[trigger] word[k])
        == text::ascii_lower("when"@[k]) by {
        assert(text::ascii_lower("WHEN"@[k]) == "when"@[k]);
    }
    assert(preprocessor::is_exception_handler_at(s, at));
}

/// Raising an exception is no handler: a text opens one only where some
/// `EXCEPTION` has the word `WHEN` behind it.
pub proof fn law_handler_needs_exception_and_when(s: Seq<char>)
    requires
        preprocessor::opens_exception_handler(s),
    ensures
        exists|i: int| #[trigger]
            scanner::keyword_at(s, "EXCEPTION"@, i) && scanner::next_word_from(s, i + 9) is Some
                && text::same_ignoring_case(scanner::next_word_from(s, i + 9)->0, "WHEN"@),
{
    reveal_strlit("EXCEPTION");
    reveal_strlit("WHEN");
    reveal_strlit("when");
    let i = choose|i: int| preprocessor::is_exception_handler_at(s, i);
    let word = scanner::next_word_from(s, i + 9)->0;
    assert forall|k: int| 0 <= k < 4 implies text::ascii_lower(#[trigger] word[k])
        == text::ascii_lower("WHEN"@[k]) by {
        assert(text::ascii_lower(word[k]) == text::ascii_lower("when"@[k]));
        assert(text::ascii_lower("WHEN"@[k]) == "when"@[k]);
    }
    assert(scanner::keyword_at(s, "EXCEPTION"@, i));
}

// ---------------------------------------------------------------------------
// Separators
// ---------------------------------------------------------------------------

/// A separator of live code ends a piece, and everything else stays in it.
pub proof fn law_separator_ends_a_piece(s: Seq<char>, c: char, from: int, i: int)
    requires
        0 <= from <= i <= s.len(),
        forall|j: int| from <= j < i ==> !(#[trigger] scanner::is_live(s, j) && s[j] == c),
        i < s.len() ==> scanner::is_live(s, i) && s[i] == c,
    ensures
        scanner::live_pieces(s, c, from) == (if i < s.len() {
            seq![s.subrange(from, i)] + scanner::live_pieces(s, c, i + 1)
        } else {
            seq![s.subrange(from, i)]
        }),
{
    let p = scanner::live_char(s, c);
    assert forall|j: int| from <= j < i implies !#[trigger] p(j) by {
        assert(!(scanner::is_live(s, j) && s[j] == c));
    }
    if i < s.len() {
        text::lemma_first_is(p, from, s.len() as int, i);
    } else {
        text::lemma_no_first(p, from, s.len() as int);
    }
}

// ---------------------------------------------------------------------------
// Nesting
// ---------------------------------------------------------------------------

/// No parenthesis of live code stands in `s` from `from` on and before `to`.
pub open spec fn no_parenthesis_between(s: Seq<char>, from: int, to: int) -> bool {
    forall|k: int|
        from <= k < to ==> !(#[trigger] scanner::is_live(s, k) && (s[k] == '(' || s[k] == ')'))
}

/// What stands in parentheses is one level deeper, and what stands behind them is
/// as deep as what stands before.
pub proof fn law_parentheses_nest(s: Seq<char>, i: int, j: int)
    requires
        0 <= i < j < s.len(),
        scanner::is_live(s, i) && s[i] == '(',
        scanner::is_live(s, j) && s[j] == ')',
        no_parenthesis_between(s, i + 1, j),
    ensures
        forall|k: int|
            i < k <= j ==> #[trigger] top_level::depth_at(s, k) == top_level::depth_at(s, i) + 1,
        top_level::depth_at(s, j + 1) == top_level::depth_at(s, i),
{
    assert forall|k: int| i < k <= j implies #[trigger] top_level::depth_at(s, k)
        == top_level::depth_at(s, i) + 1 by {
        lemma_depth_stays(s, i + 1, k);
    }
    assert(top_level::depth_at(s, j) == top_level::depth_at(s, i) + 1);
}

/// The depth changes at parentheses only.
pub proof fn law_depth_changes_at_parentheses(s: Seq<char>, from: int, to: int)
    requires
        0 <= from <= to <= s.len(),
        no_parenthesis_between(s, from, to),
    ensures
        top_level::depth_at(s, to) == top_level::depth_at(s, from),
        top_level::depth_at(s, 0) == 0,
{
    lemma_depth_stays(s, from, to);
}

/// Without parentheses the depth stays.
proof fn lemma_depth_stays(s: Seq<char>, from: int, to: int)
    requires
        0 <= from <= to <= s.len(),
        no_parenthesis_between(s, from, to),
    ensures
        top_level::depth_at(s, to) == top_level::depth_at(s, from),
    decreases to - from,
{
    if from < to {
        lemma_depth_stays(s, from, to - 1);
        assert(!(scanner::is_live(s, to - 1) && (s[to - 1] == '(' || s[to - 1] == ')')));
    }
}

/// A keyword at the top level is a whole word of live code that no parentheses
/// enclose, with no letter, digit, or underscore right before or behind it.
pub proof fn law_top_level_keyword_is_a_whole_word(s: Seq<char>, keyword: Seq<char>, i: int)
    requires
        keyword.len() > 0,
        extends_word(keyword[0]),
    ensures
        top_level::top_level_keyword_at(s, keyword, i) <==> {
            &&& scanner::is_live(s, i)
            &&& top_level::depth_at(s, i) == 0
            &&& spelled_at(s, keyword, i)
            &&& i > 0 ==> !extends_word(s[i - 1])
            &&& i + keyword.len() < s.len() ==> !extends_word(s[i + keyword.len()])
        },
{
    if spelled_at(s, keyword, i) {
        let window = s.subrange(i, i + keyword.len());
        assert(window[0] == s[i]);
        assert(text::ascii_lower(window[0]) == text::ascii_lower(keyword[0]));
    }
}

/// A comma at the top level ends an item of a list, and an item is what is left
/// of it once trimmed, or nothing.
pub proof fn law_comma_ends_an_item(
    s: Seq<char>,
    from: int,
    i: int,
    before: Seq<char>,
    item: Seq<char>,
    after: Seq<char>,
)
    requires
        0 <= from <= i <= s.len(),
        forall|j: int|
            from <= j < i ==> !(#[trigger] scanner::is_live(s, j) && s[j] == ','
                && top_level::depth_at(s, j) == 0),
        i < s.len() ==> scanner::is_live(s, i) && s[i] == ',' && top_level::depth_at(s, i) == 0,
        s.subrange(from, i) == before + item + after,
        wording::is_blank(before),
        wording::is_blank(after),
        wording::is_bare(item),
    ensures
        top_level::list_items(s, from) == (if item.len() > 0 {
            seq![item]
        } else {
            Seq::empty()
        }) + (if i < s.len() {
            top_level::list_items(s, i + 1)
        } else {
            Seq::empty()
        }),
{
    let p = top_level::top_level_comma(s);
    assert forall|j: int| from <= j < i implies !#[trigger] p(j) by {
        assert(!(scanner::is_live(s, j) && s[j] == ',' && top_level::depth_at(s, j) == 0));
    }
    wording::law_trimming_keeps_what_is_between(before, item, after);
    if i < s.len() {
        text::lemma_first_is(p, from, s.len() as int, i);
    } else {
        text::lemma_no_first(p, from, s.len() as int);
        assert(s.skip(from) =~= s.subrange(from, i));
        assert(top_level::list_item(s.skip(from)) + Seq::<Seq<char>>::empty()
            =~= top_level::list_item(s.skip(from)));
    }
}

}
