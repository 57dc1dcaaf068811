//! What a change in one place of a text does to its lexical structure.

use vstd::prelude::*;

use crate::laws::scanning;
use crate::scanner;
use crate::scanner::{DollarLiteral, Region};
use crate::text;

verus! {

// ---------------------------------------------------------------------------
// The part of a text in one region
// ---------------------------------------------------------------------------

/// The characters of `s` whose place in `map` holds `region`, in order.
pub open spec fn selected(s: Seq<char>, map: Seq<Region>, region: Region) -> Seq<char>
    decreases s.len(),
{
    if s.len() == 0 {
        Seq::empty()
    } else if map[s.len() - 1] == region {
        selected(s.drop_last(), map.drop_last(), region).push(s.last())
    } else {
        selected(s.drop_last(), map.drop_last(), region)
    }
}

/// The live code of `s`, without anything quoted or commented.
pub open spec fn live_text(s: Seq<char>) -> Seq<char> {
    selected(s, scanner::regions(s), Region::Code)
}

/// Everything quoted or commented in `s`, without its live code.
pub open spec fn quoted_text(s: Seq<char>) -> Seq<char> {
    selected(s, scanner::regions(s), Region::Quoted)
}

/// What is selected of two texts put together is what is selected of each.
pub proof fn lemma_selected_concat(
    s: Seq<char>,
    map: Seq<Region>,
    t: Seq<char>,
    tail: Seq<Region>,
    region: Region,
)
    requires
        s.len() == map.len(),
        t.len() == tail.len(),
    ensures
        selected(s + t, map + tail, region) == selected(s, map, region) + selected(t, tail, region),
    decreases t.len(),
{
    if t.len() == 0 {
        assert(s + t =~= s);
        assert(map + tail =~= map);
    } else {
        lemma_selected_concat(s, map, t.drop_last(), tail.drop_last(), region);
        assert((s + t).drop_last() =~= s + t.drop_last());
        assert((map + tail).drop_last() =~= map + tail.drop_last());
        assert((s + t).last() == t.last());
        assert((map + tail)[(s + t).len() - 1] == tail[t.len() - 1]);
    }
}

/// Of a text in one region, everything or nothing is selected.
pub proof fn lemma_selected_uniform(s: Seq<char>, map: Seq<Region>, region: Region)
    requires
        s.len() == map.len(),
        forall|i: int, j: int| 0 <= i < j < map.len() ==> map[i] == map[j],
    ensures
        selected(s, map, region) == (if s.len() > 0 && map[0] == region {
            s
        } else {
            Seq::empty()
        }),
    decreases s.len(),
{
    if s.len() > 0 {
        lemma_selected_uniform(s.drop_last(), map.drop_last(), region);
        assert(s.drop_last().push(s.last()) =~= s);
        if s.len() > 1 {
            assert(map[0] == map[s.len() - 1]);
        }
    }
}

/// What is selected of a text comes from its first lexeme and then from the
/// rest.
pub proof fn lemma_selected_step(s: Seq<char>, region: Region)
    requires
        s.len() > 0,
    ensures
        selected(s, scanner::regions(s), region) == (if scanner::lexeme_region(s) == region {
            s.take(scanner::lexeme_len(s))
        } else {
            Seq::empty()
        }) + selected(
            s.skip(scanner::lexeme_len(s)),
            scanner::regions(s.skip(scanner::lexeme_len(s))),
            region,
        ),
{
    let n = scanner::lexeme_len(s);
    scanner::lemma_lexeme_len(s);
    let front = Seq::new(n as nat, |i: int| scanner::lexeme_region(s));
    let rest = s.skip(n);
    scanner::lemma_regions_len(rest);
    lemma_selected_concat(s.take(n), front, rest, scanner::regions(rest), region);
    lemma_selected_uniform(s.take(n), front, region);
    assert(s.take(n) + rest =~= s);
}

// ---------------------------------------------------------------------------
// What decides a lexeme
// ---------------------------------------------------------------------------

/// `s` and `t` hold the same characters before `m`.
pub open spec fn same_before(s: Seq<char>, t: Seq<char>, m: int) -> bool {
    &&& 0 <= m <= s.len()
    &&& m <= t.len()
    &&& forall|i: int| 0 <= i < m ==> s[i] == t[i]
}

/// Where a block comment ends is decided by the characters before.
pub(crate) proof fn lemma_block_comment_local(s: Seq<char>, t: Seq<char>, m: int, i: int, depth: int)
    requires
        same_before(s, t, m),
        0 <= i,
        scanner::block_comment_end(s, i, depth) <= m,
        m < s.len(),
    ensures
        i + 2 <= m,
        scanner::block_comment_end(t, i, depth) == scanner::block_comment_end(s, i, depth),
    decreases s.len() - i,
{
    if i < s.len() {
        if i + 1 < s.len() && s[i] == '/' && s[i + 1] == '*' {
            lemma_block_comment_local(s, t, m, i + 2, depth + 1);
        } else if i + 1 < s.len() && s[i] == '*' && s[i + 1] == '/' {
            if depth != 1 {
                lemma_block_comment_local(s, t, m, i + 2, depth - 1);
            }
        } else {
            lemma_block_comment_local(s, t, m, i + 1, depth);
        }
    }
}

/// No doubled quote starts at the end of what `s` and `t` share.
pub open spec fn no_quote_at(s: Seq<char>, m: int, quote: char) -> bool {
    m < s.len() ==> s[m] != quote
}

/// Where a string ends is decided by the characters before and by the next.
proof fn lemma_single_quoted_local(s: Seq<char>, t: Seq<char>, m: int, i: int)
    requires
        same_before(s, t, m),
        0 <= i,
        scanner::single_quoted_end(s, i) <= m,
        m < s.len(),
        no_quote_at(t, m, '\''),
    ensures
        i + 1 <= m,
        scanner::single_quoted_end(t, i) == scanner::single_quoted_end(s, i),
    decreases s.len() - i,
{
    if i < s.len() && !(s[i] == '\\' && i + 1 == s.len()) {
        if s[i] == '\\' {
            lemma_single_quoted_local(s, t, m, i + 2);
        } else if s[i] != '\'' {
            lemma_single_quoted_local(s, t, m, i + 1);
        } else if i + 1 < s.len() && s[i + 1] == '\'' {
            lemma_single_quoted_local(s, t, m, i + 2);
        }
    }
}

/// Where a quoted identifier ends is decided by the characters before and by
/// the next.
pub(crate) proof fn lemma_double_quoted_local(s: Seq<char>, t: Seq<char>, m: int, i: int)
    requires
        same_before(s, t, m),
        0 <= i,
        scanner::double_quoted_end(s, i) <= m,
        m < s.len(),
        no_quote_at(t, m, '"'),
    ensures
        i + 1 <= m,
        scanner::double_quoted_end(t, i) == scanner::double_quoted_end(s, i),
    decreases s.len() - i,
{
    if i < s.len() {
        if s[i] != '"' {
            lemma_double_quoted_local(s, t, m, i + 1);
        } else if i + 1 < s.len() && s[i + 1] == '"' {
            lemma_double_quoted_local(s, t, m, i + 2);
        }
    }
}

/// A dollar-quoted literal is decided by its own characters.
proof fn lemma_dollar_local(s: Seq<char>, t: Seq<char>, m: int, dollar: DollarLiteral)
    requires
        same_before(s, t, m),
        scanner::dollar_literal(s) == Some(dollar),
        dollar.closed,
        dollar.end <= m,
    ensures
        scanner::dollar_literal(t) == Some(dollar),
{
    let len = s.len() as int;
    text::lemma_first_from(text::is_char_at(s, '$'), 1, len);
    let tag_end = text::find_char(s, '$', 1)->0;
    let opener = tag_end + 1;
    scanner::lemma_dollar_literal(s);
    let rest = s.skip(opener);
    let delimiter = s.take(opener);
    let p = text::occurrences(rest, delimiter);
    text::lemma_first_from(p, 0, rest.len() as int + 1);
    let close = text::find_seq(rest, delimiter)->0;
    assert(opener + close + opener <= m);
    // The same tag, up to the same dollar sign.
    let q = text::is_char_at(t, '$');
    assert forall|j: int| 1 <= j < tag_end implies !#[trigger] q(j) by {
        assert(!text::is_char_at(s, '$')(j));
    }
    text::lemma_first_is(q, 1, t.len() as int, tag_end);
    assert(t.subrange(1, tag_end) =~= s.subrange(1, tag_end));
    // The same closing delimiter.
    let rest_t = t.skip(opener);
    assert(t.take(opener) =~= delimiter);
    let r = text::occurrences(rest_t, delimiter);
    assert forall|j: int| 0 <= j <= close implies #[trigger] r(j) == p(j) by {
        assert(rest_t.subrange(j, j + opener) =~= rest.subrange(j, j + opener));
    }
    text::lemma_first_is(r, 0, rest_t.len() as int + 1, close);
}

/// Where a string closes is decided by the characters before and by the next.
proof fn lemma_close_local(s: Seq<char>, t: Seq<char>, n: int, i: int)
    requires
        same_before(s, t, n),
        0 <= i,
        scanner::single_quoted_close(s, i) == Some(n),
        no_quote_at(t, n, '\''),
    ensures
        i + 1 <= n,
        scanner::single_quoted_close(t, i) == Some(n),
    decreases s.len() - i,
{
    if s[i] == '\\' {
        lemma_close_local(s, t, n, i + 2);
    } else if s[i] != '\'' {
        lemma_close_local(s, t, n, i + 1);
    } else if i + 1 < s.len() && s[i + 1] == '\'' {
        lemma_close_local(s, t, n, i + 2);
    }
}

/// A string that closes lies within the text.
proof fn lemma_close_within(s: Seq<char>, i: int)
    requires
        0 <= i,
    ensures
        scanner::single_quoted_close(s, i) matches Some(n) ==> i < n <= s.len(),
    decreases s.len() - i,
{
    if i < s.len() && !(s[i] == '\\' && i + 1 == s.len()) {
        if s[i] == '\\' {
            lemma_close_within(s, i + 2);
        } else if s[i] != '\'' {
            lemma_close_within(s, i + 1);
        } else if i + 1 < s.len() && s[i + 1] == '\'' {
            lemma_close_within(s, i + 2);
        }
    }
}

/// A literal at the front of a text lies within it, and starts with a quote or a
/// dollar sign.
pub proof fn lemma_literal_within(s: Seq<char>)
    ensures
        scanner::literal_len(s) matches Some(n) ==> 1 < n <= s.len() && (s[0] == '\'' || s[0]
            == '$'),
{
    lemma_close_within(s, 1);
    scanner::lemma_dollar_literal(s);
}

/// A string literal at the front of a text is the same at the front of every
/// text that shares its characters, when no quote follows them there.
pub proof fn lemma_literal_local(s: Seq<char>, t: Seq<char>, n: int)
    requires
        scanner::literal_len(s) == Some(n),
        same_before(s, t, n),
        no_quote_at(t, n, '\''),
    ensures
        scanner::literal_len(t) == Some(n),
{
    lemma_literal_within(s);
    if s[0] == '\'' {
        lemma_close_local(s, t, n, 1);
    } else {
        lemma_dollar_local(s, t, n, scanner::dollar_literal(s)->0);
    }
}

// ---------------------------------------------------------------------------
// One word in place of another
// ---------------------------------------------------------------------------

/// `s` is a word: one keyword character or more.
pub open spec fn is_word(s: Seq<char>) -> bool {
    &&& s.len() > 0
    &&& forall|i: int| 0 <= i < s.len() ==> scanning::is_keyword_char(#[trigger] s[i])
}

/// `n` characters of live code.
pub open spec fn all_code(n: nat) -> Seq<Region> {
    Seq::new(n, |i: int| Region::Code)
}

/// A word at the front of a text is live code.
pub proof fn lemma_word_is_code(word: Seq<char>, rest: Seq<char>)
    requires
        is_word(word),
    ensures
        scanner::regions(word + rest) == all_code(word.len()) + scanner::regions(rest),
    decreases word.len(),
{
    let s = word + rest;
    assert(scanning::is_keyword_char(word[0]));
    assert(s[0] == word[0]);
    assert(scanner::lexeme(s) is Code);
    let tail = word.drop_first();
    if tail.len() == 0 {
        assert(s.skip(1) =~= rest);
    } else {
        assert forall|i: int| 0 <= i < tail.len() implies scanning::is_keyword_char(
            #[trigger] tail[i],
        ) by {
            assert(scanning::is_keyword_char(word[i + 1]));
        }
        lemma_word_is_code(tail, rest);
        assert(s.skip(1) =~= tail + rest);
    }
    assert(scanner::regions(s) =~= all_code(word.len()) + scanner::regions(rest));
}

/// A lexeme that ends before a word is the same when another word stands there.
proof fn lemma_lexeme_before_word(
    before: Seq<char>,
    word: Seq<char>,
    other: Seq<char>,
    after: Seq<char>,
)
    requires
        before.len() > 0,
        is_word(word),
        is_word(other),
        before.len() == 1 ==> before[0] != '$',
        scanner::lexeme_len(before + word + after) <= before.len(),
    ensures
        scanner::lexeme(before + other + after) == scanner::lexeme(before + word + after),
{
    let s = before + word + after;
    let t = before + other + after;
    let m = before.len() as int;
    assert(scanning::is_keyword_char(word[0]));
    assert(scanning::is_keyword_char(other[0]));
    assert(s[m] == word[0]);
    assert(t[m] == other[0]);
    assert(same_before(s, t, m));
    scanner::lemma_lexeme_len(s);
    if s[0] == '-' && s[1] == '-' {
        let p = text::is_char_at(s, '\n');
        let q = text::is_char_at(t, '\n');
        text::lemma_first_from(p, 2, s.len() as int);
        let end = text::find_char(s, '\n', 2)->0;
        assert forall|j: int| 2 <= j < end implies !#[trigger] q(j) by {
            assert(!p(j));
        }
        text::lemma_first_is(q, 2, t.len() as int, end);
    } else if s[0] == '/' && s[1] == '*' {
        lemma_block_comment_local(s, t, m, 2, 1);
    } else if s[0] == '\'' {
        lemma_single_quoted_local(s, t, m, 1);
    } else if s[0] == '"' {
        lemma_double_quoted_local(s, t, m, 1);
    } else {
        match scanner::dollar_literal(s) {
            Some(dollar) => {
                assert(dollar.closed);
                lemma_dollar_local(s, t, m, dollar);
            },
            None => {
                lemma_no_dollar_literal(before, word, other, after);
            },
        }
    }
}

/// A dollar sign before a word opens no literal when it opened none with another
/// word there.
proof fn lemma_no_dollar_literal(
    before: Seq<char>,
    word: Seq<char>,
    other: Seq<char>,
    after: Seq<char>,
)
    requires
        before.len() > 0,
        is_word(word),
        is_word(other),
        before.len() == 1 ==> before[0] != '$',
        scanner::dollar_literal(before + word + after) is None,
    ensures
        scanner::dollar_literal(before + other + after) is None,
{
    let s = before + word + after;
    let t = before + other + after;
    let m = before.len() as int;
    let p = text::is_char_at(s, '$');
    let q = text::is_char_at(t, '$');
    text::lemma_first_from(p, 1, s.len() as int);
    text::lemma_first_from(q, 1, t.len() as int);
    if scanner::dollar_literal(t) is Some {
        let tag_end = text::find_char(t, '$', 1)->0;
        let tag = t.subrange(1, tag_end);
        // The place in `s` of the dollar sign that closes the tag.
        let place = if tag_end < m {
            tag_end
        } else {
            tag_end - other.len() + word.len()
        };
        if m <= tag_end < m + other.len() {
            assert(scanning::is_keyword_char(other[tag_end - m]));
        }
        assert(s[place] == '$');
        assert forall|j: int| 1 <= j < place implies !#[trigger] p(j) by {
            if j < m {
                assert(!q(j));
            } else if j < m + word.len() {
                assert(scanning::is_keyword_char(word[j - m]));
            } else {
                assert(!q(j - word.len() + other.len()));
            }
        }
        text::lemma_first_is(p, 1, s.len() as int, place);
        let tag_s = s.subrange(1, place);
        assert forall|j: int| 0 <= j < tag_s.len() implies text::is_name_char(
            #[trigger] tag_s[j],
        ) by {
            if j + 1 < m {
                assert(tag_s[j] == tag[j]);
            } else if j + 1 < m + word.len() {
                assert(scanning::is_keyword_char(word[j + 1 - m]));
            } else {
                assert(tag_s[j] == tag[j - word.len() + other.len()]);
            }
        }
        if tag_s.len() > 0 {
            // The word does not follow the opening dollar sign, so the tag
            // starts before the word.
            assert(m >= 2);
            assert(tag_s[0] == tag[0]);
        }
        assert(scanner::is_tag(tag_s));
    }
}

/// A lexeme of one character that is a dollar sign is live code.
proof fn lemma_lone_dollar_is_code(s: Seq<char>)
    requires
        s.len() > 0,
    ensures
        s[0] == '$' && scanner::lexeme_len(s) == 1 ==> scanner::lexeme(s) is Code,
{
    scanner::lemma_dollar_literal(s);
}

/// A word of live code that no live word character precedes can be replaced by
/// another word: the replacement is live code, and every other character stays
/// in its region.
pub proof fn law_words_of_live_code_are_interchangeable(
    before: Seq<char>,
    word: Seq<char>,
    other: Seq<char>,
    after: Seq<char>,
)
    requires
        is_word(word),
        is_word(other),
        !scanner::is_live_word(before + word + after, before.len() - 1),
        scanner::is_live(before + word + after, before.len() as int),
    ensures
        scanner::regions(before + word + after) == scanner::regions(before + word + after).take(
            before.len() as int,
        ) + all_code(word.len()) + scanner::regions(after),
        scanner::regions(before + other + after) == scanner::regions(before + word + after).take(
            before.len() as int,
        ) + all_code(other.len()) + scanner::regions(after),
    decreases before.len(),
{
    let s = before + word + after;
    let t = before + other + after;
    let m = before.len() as int;
    let all = scanner::regions(s);
    scanner::lemma_regions_len(s);
    if m == 0 {
        assert(s =~= word + after);
        assert(t =~= other + after);
        lemma_word_is_code(word, after);
        lemma_word_is_code(other, after);
        assert(all.take(0) =~= Seq::<Region>::empty());
        assert(all =~= all.take(0) + all_code(word.len()) + scanner::regions(after));
        assert(scanner::regions(t) =~= all.take(0) + all_code(other.len()) + scanner::regions(
            after,
        ));
    } else {
        let n = scanner::lexeme_len(s);
        scanner::lemma_lexeme_len(s);
        if n > m {
            assert(all[m] == scanner::lexeme_region(s));
            assert(false);
        }
        if m == 1 {
            assert(all[0] == scanner::lexeme_region(s));
            assert(s[0] == before[0]);
            lemma_lone_dollar_is_code(s);
        }
        lemma_lexeme_before_word(before, word, other, after);
        let front = Seq::new(n as nat, |i: int| scanner::lexeme_region(s));
        let rest = before.skip(n);
        assert(s.skip(n) =~= rest + word + after);
        assert(t.skip(n) =~= rest + other + after);
        let tail = scanner::regions(s.skip(n));
        assert(all == front + tail);
        assert(tail[m - n] == all[m]);
        if rest.len() > 0 {
            assert(s.skip(n)[m - n - 1] == s[m - 1]);
            assert(tail[m - n - 1] == all[m - 1]);
        }
        law_words_of_live_code_are_interchangeable(rest, word, other, after);
        assert(all.take(m) =~= front + tail.take(m - n));
        assert(all =~= all.take(m) + all_code(word.len()) + scanner::regions(after));
        assert(scanner::regions(t) =~= all.take(m) + all_code(other.len()) + scanner::regions(
            after,
        ));
    }
}

}
