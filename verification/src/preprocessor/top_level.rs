//! The top nesting level of a statement: live code outside parentheses.

use vstd::prelude::*;
use vstd::slice::slice_subrange;

use crate::offsets;
use crate::preprocessor::PlPgSqlPreprocessor;
use crate::scanner;
use crate::scanner::Region;
use crate::text;

verus! {

// ---------------------------------------------------------------------------
// Nesting
// ---------------------------------------------------------------------------

/// How many parentheses are open after a live `c`, where `depth` were open before.
pub open spec fn depth_after(depth: nat, c: char) -> nat {
    if c == '(' {
        depth + 1
    } else if c == ')' && depth > 0 {
        (depth - 1) as nat
    } else {
        depth
    }
}

/// How many parentheses of live code are open just before the character at `i`.
///
/// A closing parenthesis without an opening one counts for nothing.
pub open spec fn depth_at(s: Seq<char>, i: int) -> nat
    decreases i,
{
    if i <= 0 {
        0
    } else if scanner::is_live(s, i - 1) {
        depth_after(depth_at(s, i - 1), s[i - 1])
    } else {
        depth_at(s, i - 1)
    }
}

/// The character at `i` is live code outside parentheses, and is none itself.
pub open spec fn is_top_level(s: Seq<char>, i: int) -> bool {
    &&& scanner::is_live(s, i)
    &&& depth_at(s, i) == 0
    &&& s[i] != '(' && s[i] != ')'
}

/// How many parentheses are open after `c`, which stands in `region`.
fn pass(depth: usize, c: char, region: Region) -> (after: usize)
    requires
        depth < usize::MAX,
    ensures
        after == (if region == Region::Code {
            depth_after(depth as nat, c)
        } else {
            depth as nat
        }),
        after <= depth + 1,
{
    if region != Region::Code {
        depth
    } else if c == '(' {
        depth + 1
    } else if c == ')' && depth > 0 {
        depth - 1
    } else {
        depth
    }
}

// ---------------------------------------------------------------------------
// Keywords
// ---------------------------------------------------------------------------

/// A character that continues a word.
pub open spec fn is_plain_word_char(c: char) -> bool {
    text::is_ascii_letter(c) || text::is_ascii_digit(c) || c == '_'
}

/// A word character stands at `i`. The edges of the text always delimit.
pub open spec fn is_word_at(s: Seq<char>, i: int) -> bool {
    0 <= i < s.len() && is_plain_word_char(s[i])
}

/// `keyword` stands at `i` as a whole word at the top level, in any case.
pub open spec fn top_level_keyword_at(s: Seq<char>, keyword: Seq<char>, i: int) -> bool {
    &&& is_top_level(s, i)
    &&& text::occurs_ignoring_case_at(s, keyword, i)
    &&& !is_word_at(s, i - 1)
    &&& !is_word_at(s, i + keyword.len())
}

/// Where `keyword` stands as a whole word at the top level.
pub open spec fn top_level_keywords(s: Seq<char>, keyword: Seq<char>) -> spec_fn(int) -> bool {
    |i: int| top_level_keyword_at(s, keyword, i)
}

/// The first top-level `keyword` at or after `from`.
pub open spec fn top_level_keyword(s: Seq<char>, keyword: Seq<char>, from: int) -> Option<int> {
    text::first_from(top_level_keywords(s, keyword), from, s.len() as int)
}

/// Two keywords that start at different places do not overlap.
pub(crate) proof fn lemma_top_level_keywords_apart(
    s: Seq<char>,
    first: Seq<char>,
    i: int,
    second: Seq<char>,
    j: int,
)
    requires
        top_level_keyword_at(s, first, i),
        top_level_keyword_at(s, second, j),
        i < j,
        forall|k: int| 0 <= k < first.len() ==> is_plain_word_char(#[trigger] first[k]),
    ensures
        i + first.len() <= j,
{
    if j < i + first.len() {
        lemma_keyword_char(s, first, i, j - 1 - i);
    }
}

/// Where a word stands, in any case, every character is a word character.
proof fn lemma_keyword_char(s: Seq<char>, keyword: Seq<char>, i: int, k: int)
    requires
        text::occurs_ignoring_case_at(s, keyword, i),
        0 <= k < keyword.len(),
        is_plain_word_char(keyword[k]),
    ensures
        0 <= i + k < s.len(),
        is_plain_word_char(s[i + k]),
{
    let window = s.subrange(i, i + keyword.len());
    assert(window[k] == s[i + k]);
    assert(text::ascii_lower(window[k]) == text::ascii_lower(keyword[k]));
}

/// True when a word character stands at `i`.
fn is_word(chars: &[char], i: usize) -> (answer: bool)
    ensures
        answer == is_word_at(chars@, i as int),
{
    if i >= chars.len() {
        return false;
    }
    let c = chars[i];
    ('a' <= c && c <= 'z') || ('A' <= c && c <= 'Z') || ('0' <= c && c <= '9') || c == '_'
}

/// The first top-level `keyword` in `chars` at or after `from`.
pub(crate) fn top_level_position(chars: &[char], keyword: &str, from: usize) -> (found: Option<
    usize,
>)
    requires
        from <= chars@.len(),
    ensures
        text::as_int(found) == top_level_keyword(chars@, keyword@, from as int),
        found matches Some(i) ==> from <= i && i + keyword@.len() <= chars@.len()
            && top_level_keyword_at(chars@, keyword@, i as int),
{
    let word = text::chars_of(keyword);
    let ghost p = top_level_keywords(chars@, keyword@);
    let map = scanner::classify(chars);
    let mut depth: usize = 0;
    let mut i: usize = 0;
    while i < chars.len()
        invariant
            word@ == keyword@,
            map@ == scanner::regions(chars@),
            map@.len() == chars@.len(),
            p == top_level_keywords(chars@, keyword@),
            from <= chars@.len(),
            i <= chars@.len(),
            depth == depth_at(chars@, i as int),
            depth <= i,
            forall|j: int| from <= j < i ==> !#[trigger] p(j),
        decreases chars@.len() - i,
    {
        let c = chars[i];
        if i >= from && map[i] == Region::Code && depth == 0 && c != '(' && c != ')'
            && text::is_at_ignoring_case(chars, &word, i) {
            assert(i + word.len() <= chars.len());
            if !(i > 0 && is_word(chars, i - 1)) && !is_word(chars, i + word.len()) {
                proof {
                    text::lemma_first_is(p, from as int, chars@.len() as int, i as int);
                }
                return Some(i);
            }
        }
        depth = pass(depth, c, map[i]);
        i += 1;
    }
    proof {
        text::lemma_no_first(p, from as int, chars@.len() as int);
    }
    None
}

// ---------------------------------------------------------------------------
// Lists
// ---------------------------------------------------------------------------

/// A comma stands at `i` at the top level.
pub open spec fn top_level_comma(s: Seq<char>) -> spec_fn(int) -> bool {
    |i: int| is_top_level(s, i) && s[i] == ','
}

/// One item of a list, trimmed, or none when nothing is left of it.
pub open spec fn list_item(s: Seq<char>) -> Seq<Seq<char>> {
    if text::trimmed(s).len() > 0 {
        seq![text::trimmed(s)]
    } else {
        Seq::empty()
    }
}

/// The items of the list in `s` from `from` on, which top-level commas separate.
pub open spec fn list_items(s: Seq<char>, from: int) -> Seq<Seq<char>>
    decreases s.len() - from,
{
    match text::first_from(top_level_comma(s), from, s.len() as int) {
        Some(comma) => {
            proof {
                text::lemma_first_from(top_level_comma(s), from, s.len() as int);
            }
            list_item(s.subrange(from, comma)) + list_items(s, comma + 1)
        },
        None => list_item(s.skip(from)),
    }
}

/// The texts that `slices` hold.
pub(crate) open(crate) spec fn contents(slices: Seq<&[char]>) -> Seq<Seq<char>> {
    slices.map_values(|slice: &[char]| slice@)
}

/// Adds an item of a list to `items`, unless nothing is left of it.
fn push_item<'a>(items: &mut Vec<&'a [char]>, item: &'a [char])
    ensures
        contents(final(items)@) == contents(old(items)@) + list_item(item@),
{
    let trimmed = text::trim(item);
    if trimmed.len() > 0 {
        items.push(trimmed);
    }
    assert(contents(items@) =~= contents(old(items)@) + list_item(item@));
}

/// The items of the list that `chars` spell.
pub(crate) fn split_list<'a>(chars: &'a [char]) -> (items: Vec<&'a [char]>)
    ensures
        contents(items@) == list_items(chars@, 0),
{
    let ghost p = top_level_comma(chars@);
    let ghost end = chars@.len() as int;
    let mut items: Vec<&'a [char]> = Vec::new();
    let map = scanner::classify(chars);
    let mut depth: usize = 0;
    let mut start: usize = 0;
    let mut i: usize = 0;
    assert(contents(items@) + list_items(chars@, 0) =~= list_items(chars@, 0));
    while i < chars.len()
        invariant
            p == top_level_comma(chars@),
            end == chars@.len(),
            map@ == scanner::regions(chars@),
            map@.len() == chars@.len(),
            start <= i <= chars@.len(),
            depth == depth_at(chars@, i as int),
            depth <= i,
            forall|j: int| start <= j < i ==> !#[trigger] p(j),
            contents(items@) + list_items(chars@, start as int) == list_items(chars@, 0),
        decreases chars@.len() - i,
    {
        let c = chars[i];
        if c == ',' && map[i] == Region::Code && depth == 0 {
            let ghost before = contents(items@);
            let item = slice_subrange(chars, start, i);
            push_item(&mut items, item);
            proof {
                text::lemma_first_is(p, start as int, end, i as int);
                assert(before + (list_item(item@) + list_items(chars@, i + 1)) =~= before
                    + list_item(item@) + list_items(chars@, i + 1));
            }
            start = i + 1;
        }
        depth = pass(depth, c, map[i]);
        i += 1;
    }
    proof {
        text::lemma_no_first(p, start as int, end);
    }
    let tail = slice_subrange(chars, start, chars.len());
    assert(tail@ == chars@.skip(start as int));
    push_item(&mut items, tail);
    items
}

impl PlPgSqlPreprocessor {
    /// Splits a comma-separated SQL fragment on top-level commas only.
    ///
    /// Commas inside parentheses, and commas that are not live code, are ignored.
    pub fn split_top_level_csv(input: &str) -> (parts: Vec<String>)
        ensures
            parts@.map_values(|part: String| part@) == list_items(input@, 0),
    {
        let chars = text::chars_of(input);
        let items = split_list(&chars);
        let mut parts: Vec<String> = Vec::new();
        let mut i: usize = 0;
        while i < items.len()
            invariant
                i <= items@.len(),
                parts@.map_values(|part: String| part@) == contents(items@).take(i as int),
            decreases items@.len() - i,
        {
            let ghost before = parts@;
            parts.push(text::string_of(items[i]));
            assert(parts@.map_values(|part: String| part@) =~= before.map_values(
                |part: String| part@,
            ).push(contents(items@)[i as int]));
            assert(contents(items@).take(i as int).push(contents(items@)[i as int]) =~= contents(
                items@,
            ).take(i + 1));
            i += 1;
        }
        assert(contents(items@).take(i as int) =~= contents(items@));
        parts
    }

    /// Finds the first top-level occurrence of `keyword` at or after `start`.
    ///
    /// Top-level means live code, outside string literals and comments, at
    /// parenthesis depth zero, and the match must be delimited by non-word
    /// characters, so `FROM` inside a CTE body or a column named `INTOX` never
    /// matches. ASCII case insensitive.
    pub fn find_top_level_keyword(stmt: &str, keyword: &str, start: usize) -> (found: Option<
        usize,
    >)
        ensures
            match top_level_keyword(
                stmt@,
                keyword@,
                offsets::char_at_or_after(stmt@, start as int),
            ) {
                Some(i) => found == Some(offsets::byte_offset(stmt@, i) as usize)
                    && offsets::byte_offset(stmt@, i) <= usize::MAX,
                None => found is None,
            },
    {
        // The UTF-8 form has a length, so every offset into it fits a usize.
        let _len: usize = stmt.as_bytes().len();
        let chars = text::chars_of(stmt);
        let from = offsets::index_at_or_after(&chars, start);
        match top_level_position(&chars, keyword, from) {
            Some(i) => Some(offsets::offset_of(&chars, i)),
            None => None,
        }
    }
}

}
