//! One scanner over PL/pgSQL body text, answering whether a byte is inside a
//! string or a comment or is live code.
//!
//! Every transform shares it, so none of them can disagree with another about
//! where a literal ends.

use vstd::prelude::*;
use vstd::slice::slice_subrange;
use vstd::string::StrSliceExecFns;

use crate::offsets;
use crate::text;

verus! {

/// What the scanner is inside at a given offset.
#[derive(Clone, Copy, PartialEq, Eq, Debug, Structural)]
pub enum Region {
    /// Live code, where a keyword is a keyword.
    Code,
    /// Anything quoted or commented, where it is not.
    Quoted,
}

// ---------------------------------------------------------------------------
// The lexical structure of a text
// ---------------------------------------------------------------------------

/// The length of the line comment that `s` starts with, its line feed included.
pub open spec fn line_comment_len(s: Seq<char>) -> int {
    match text::find_char(s, '\n', 2) {
        Some(i) => i + 1,
        None => s.len() as int,
    }
}

/// Where a block comment ends that has `depth` comments open at `i`, or the end
/// of the text when it is never closed.
pub open spec fn block_comment_end(s: Seq<char>, i: int, depth: int) -> int
    decreases s.len() - i,
{
    if i >= s.len() {
        s.len() as int
    } else if i + 1 < s.len() && s[i] == '/' && s[i + 1] == '*' {
        block_comment_end(s, i + 2, depth + 1)
    } else if i + 1 < s.len() && s[i] == '*' && s[i + 1] == '/' {
        if depth == 1 {
            i + 2
        } else {
            block_comment_end(s, i + 2, depth - 1)
        }
    } else {
        block_comment_end(s, i + 1, depth)
    }
}

/// Where a single-quoted string ends that is open at `i`, when it is closed. A
/// doubled quote and a character after a backslash stay inside.
pub open spec fn single_quoted_close(s: Seq<char>, i: int) -> Option<int>
    decreases s.len() - i,
{
    if i >= s.len() || (s[i] == '\\' && i + 1 == s.len()) {
        None
    } else if s[i] == '\\' {
        single_quoted_close(s, i + 2)
    } else if s[i] != '\'' {
        single_quoted_close(s, i + 1)
    } else if i + 1 < s.len() && s[i + 1] == '\'' {
        single_quoted_close(s, i + 2)
    } else {
        Some(i + 1)
    }
}

/// Where a single-quoted string ends that is open at `i`, or the end of the
/// text when it is never closed.
pub open spec fn single_quoted_end(s: Seq<char>, i: int) -> int {
    text::or_end(single_quoted_close(s, i), s.len() as int)
}

/// Where a double-quoted identifier ends that is open at `i`, or the end of the
/// text when it is never closed. A doubled quote stays inside.
pub open spec fn double_quoted_end(s: Seq<char>, i: int) -> int
    decreases s.len() - i,
{
    if i >= s.len() {
        s.len() as int
    } else if s[i] != '"' {
        double_quoted_end(s, i + 1)
    } else if i + 1 < s.len() && s[i + 1] == '"' {
        double_quoted_end(s, i + 2)
    } else {
        i + 1
    }
}

/// A dollar-quote tag: empty, or an identifier.
pub open spec fn is_tag(tag: Seq<char>) -> bool {
    &&& forall|i: int| 0 <= i < tag.len() ==> text::is_name_char(#[trigger] tag[i])
    &&& tag.len() > 0 ==> !text::is_ascii_digit(tag[0])
}

/// A dollar-quoted literal at the front of a text.
pub struct DollarLiteral {
    /// Where the text between the delimiters starts.
    pub inner_start: int,
    /// Where the text between the delimiters ends.
    pub inner_end: int,
    /// Where the literal ends, its closing delimiter included.
    pub end: int,
    /// False when the closing delimiter is absent.
    pub closed: bool,
}

/// The dollar-quoted literal that `s` starts with.
///
/// The tag is everything between the opening `$` and the next `$`. The literal
/// ends at the next occurrence of the whole opening delimiter, and runs to the
/// end of the text without one.
pub open spec fn dollar_literal(s: Seq<char>) -> Option<DollarLiteral> {
    if s.len() == 0 || s[0] != '$' {
        None
    } else {
        match text::find_char(s, '$', 1) {
            None => None,
            Some(tag_end) => if !is_tag(s.subrange(1, tag_end)) {
                None
            } else {
                let opener = tag_end + 1;
                Some(
                    match text::find_seq(s.skip(opener), s.take(opener)) {
                        Some(close) => DollarLiteral {
                            inner_start: opener,
                            inner_end: opener + close,
                            end: opener + close + opener,
                            closed: true,
                        },
                        None => DollarLiteral {
                            inner_start: opener,
                            inner_end: s.len() as int,
                            end: s.len() as int,
                            closed: false,
                        },
                    },
                )
            },
        }
    }
}

/// What stands at the front of a text that is not empty.
pub enum Lexeme {
    /// A comment, a string, or a quoted identifier of this length.
    Verbatim(int),
    /// A dollar-quoted literal.
    Dollar(DollarLiteral),
    /// One character of live code.
    Code,
}

/// What stands at the front of `s`.
pub open spec fn lexeme(s: Seq<char>) -> Lexeme {
    if s.len() >= 2 && s[0] == '-' && s[1] == '-' {
        Lexeme::Verbatim(line_comment_len(s))
    } else if s.len() >= 2 && s[0] == '/' && s[1] == '*' {
        Lexeme::Verbatim(block_comment_end(s, 2, 1))
    } else if s[0] == '\'' {
        Lexeme::Verbatim(single_quoted_end(s, 1))
    } else if s[0] == '"' {
        Lexeme::Verbatim(double_quoted_end(s, 1))
    } else {
        match dollar_literal(s) {
            Some(dollar) => Lexeme::Dollar(dollar),
            None => Lexeme::Code,
        }
    }
}

/// The length of what stands at the front of `s`.
pub open spec fn lexeme_len(s: Seq<char>) -> int {
    match lexeme(s) {
        Lexeme::Verbatim(n) => n,
        Lexeme::Dollar(dollar) => dollar.end,
        Lexeme::Code => 1,
    }
}

/// The region of what stands at the front of `s`.
pub open spec fn lexeme_region(s: Seq<char>) -> Region {
    if lexeme(s) is Code {
        Region::Code
    } else {
        Region::Quoted
    }
}

/// The region of every character of `s`.
pub open spec fn regions(s: Seq<char>) -> Seq<Region>
    decreases s.len(),
{
    if s.len() == 0 {
        Seq::empty()
    } else {
        proof {
            lemma_lexeme_len(s);
        }
        Seq::new(lexeme_len(s) as nat, |i: int| lexeme_region(s)) + regions(s.skip(lexeme_len(s)))
    }
}

/// The region of every byte of the UTF-8 form of `s`, which is that of the
/// character the byte belongs to.
pub open spec fn byte_regions(s: Seq<char>) -> Seq<Region> {
    Seq::new(
        offsets::byte_len(s) as nat,
        |k: int| regions(s)[offsets::char_containing(s, k)],
    )
}

/// The character at `i` is live code.
pub open spec fn is_live(s: Seq<char>, i: int) -> bool {
    0 <= i < s.len() && regions(s)[i] == Region::Code
}

/// A dollar-quoted literal in `s` is never closed.
pub open spec fn has_open_dollar_literal(s: Seq<char>) -> bool
    decreases s.len(),
{
    if s.len() == 0 {
        false
    } else {
        proof {
            lemma_lexeme_len(s);
        }
        ||| lexeme(s) matches Lexeme::Dollar(dollar) && !dollar.closed
        ||| has_open_dollar_literal(s.skip(lexeme_len(s)))
    }
}

/// `s` ends in a line comment that no line feed closes.
pub open spec fn ends_in_line_comment(s: Seq<char>) -> bool
    decreases s.len(),
{
    if s.len() == 0 {
        false
    } else {
        proof {
            lemma_lexeme_len(s);
        }
        if lexeme_len(s) < s.len() {
            ends_in_line_comment(s.skip(lexeme_len(s)))
        } else {
            s.len() >= 2 && s[0] == '-' && s[1] == '-' && s.last() != '\n'
        }
    }
}

/// What must stand between `s` and code behind it: a line feed when `s` ends in
/// a line comment, which would take the code in, and `otherwise` when it does not.
pub open spec fn separation(s: Seq<char>, otherwise: Seq<char>) -> Seq<char> {
    if ends_in_line_comment(s) {
        "\n"@
    } else {
        otherwise
    }
}

/// `s` with every single quote doubled.
pub open spec fn quotes_doubled(s: Seq<char>) -> Seq<char>
    decreases s.len(),
{
    if s.len() == 0 {
        Seq::empty()
    } else if s.last() == '\'' {
        quotes_doubled(s.drop_last()) + seq!['\'', '\'']
    } else {
        quotes_doubled(s.drop_last()).push(s.last())
    }
}

/// The single-quoted string literal whose value is `s`.
pub open spec fn single_quoted(s: Seq<char>) -> Seq<char> {
    seq!['\''] + quotes_doubled(s) + seq!['\'']
}

/// What stands at the front of `s`, with a dollar-quoted literal spelled as a
/// single-quoted one.
pub open spec fn requoted_lexeme(s: Seq<char>) -> Seq<char> {
    match lexeme(s) {
        Lexeme::Dollar(dollar) => single_quoted(s.subrange(dollar.inner_start, dollar.inner_end)),
        _ => s.take(lexeme_len(s)),
    }
}

/// The text between the delimiters, when `s` is exactly one dollar-quoted
/// literal.
pub open spec fn sole_dollar_literal(s: Seq<char>) -> Option<Seq<char>> {
    match dollar_literal(s) {
        Some(dollar) => if dollar.closed && dollar.end == s.len() {
            Some(s.subrange(dollar.inner_start, dollar.inner_end))
        } else {
            None
        },
        None => None,
    }
}

/// The length of the string literal that `s` starts with, single-quoted or
/// dollar-quoted, when it is closed.
pub open spec fn literal_len(s: Seq<char>) -> Option<int> {
    if s.len() > 0 && s[0] == '\'' {
        single_quoted_close(s, 1)
    } else {
        match dollar_literal(s) {
            Some(dollar) => if dollar.closed {
                Some(dollar.end)
            } else {
                None
            },
            None => None,
        }
    }
}

/// `s` with every dollar-quoted literal spelled as a single-quoted one.
pub open spec fn requoted(s: Seq<char>) -> Seq<char>
    decreases s.len(),
{
    if s.len() == 0 {
        Seq::empty()
    } else {
        proof {
            lemma_lexeme_len(s);
        }
        requoted_lexeme(s) + requoted(s.skip(lexeme_len(s)))
    }
}

// ---------------------------------------------------------------------------
// Searching live code
// ---------------------------------------------------------------------------

/// A character that can appear inside an ASCII identifier or after `$`.
pub open spec fn is_word_char(c: char) -> bool {
    text::is_ascii_letter(c) || text::is_ascii_digit(c) || c == '_' || c == '$'
}

/// `needle` is the byte at `k` and live code.
pub open spec fn live_byte(s: Seq<char>, needle: u8) -> spec_fn(int) -> bool {
    |k: int|
        0 <= k < offsets::byte_len(s) && vstd::utf8::encode_utf8(s)[k] == needle
            && byte_regions(s)[k] == Region::Code
}

/// The byte offset of the first `needle` byte that is live code.
pub open spec fn find_live_byte(s: Seq<char>, needle: u8) -> Option<int> {
    text::first_from(live_byte(s, needle), 0, offsets::byte_len(s))
}

/// `c` is the character at `i` and live code.
pub open spec fn live_char(s: Seq<char>, c: char) -> spec_fn(int) -> bool {
    |i: int| is_live(s, i) && s[i] == c
}

/// The first `c` that is live code, at or after `from`.
pub open spec fn find_live_char(s: Seq<char>, c: char, from: int) -> Option<int> {
    text::first_from(live_char(s, c), from, s.len() as int)
}

/// `needle`, which is not empty, starts at `i` in live code.
pub open spec fn live_occurrence(s: Seq<char>, needle: Seq<char>) -> spec_fn(int) -> bool {
    |i: int| needle.len() > 0 && is_live(s, i) && text::occurs_at(s, needle, i)
}

/// The first place where `needle` starts in live code.
pub open spec fn find_live_seq(s: Seq<char>, needle: Seq<char>) -> Option<int> {
    text::first_from(live_occurrence(s, needle), 0, s.len() as int)
}

/// `keyword` stands at `i` as a whole word of live code, in any case.
pub open spec fn keyword_at(s: Seq<char>, keyword: Seq<char>, i: int) -> bool {
    &&& keyword.len() > 0
    &&& is_live(s, i)
    &&& text::occurs_ignoring_case_at(s, keyword, i)
    &&& i > 0 ==> !is_word_char(s[i - 1])
    &&& i + keyword.len() < s.len() ==> !is_word_char(s[i + keyword.len()])
}

/// `keyword_at` as a predicate on the position.
pub open spec fn keyword_positions(s: Seq<char>, keyword: Seq<char>) -> spec_fn(int) -> bool {
    |i: int| keyword_at(s, keyword, i)
}

/// The first place at or after `from` where `keyword` stands.
pub open spec fn find_keyword_from(s: Seq<char>, keyword: Seq<char>, from: int) -> Option<int> {
    text::first_from(keyword_positions(s, keyword), from, s.len() as int)
}

/// A word character of live code stands at `i`.
pub open spec fn is_live_word(s: Seq<char>, i: int) -> bool {
    is_live(s, i) && is_word_char(s[i])
}

/// `keyword` stands at `i` as a whole word of live code, in any case, and only
/// live code extends a word.
///
/// The delimiter of a dollar-quoted literal beside it belongs to the literal, as
/// the quote of a string does.
pub open spec fn live_keyword_at(s: Seq<char>, keyword: Seq<char>, i: int) -> bool {
    &&& keyword.len() > 0
    &&& is_live(s, i)
    &&& text::occurs_ignoring_case_at(s, keyword, i)
    &&& !is_live_word(s, i - 1)
    &&& !is_live_word(s, i + keyword.len())
}

/// `live_keyword_at` as a predicate on the position.
pub open spec fn live_keywords(s: Seq<char>, keyword: Seq<char>) -> spec_fn(int) -> bool {
    |i: int| live_keyword_at(s, keyword, i)
}

/// The first place at or after `from` where `keyword` stands, only live code
/// extending a word.
pub open spec fn find_live_keyword(s: Seq<char>, keyword: Seq<char>, from: int) -> Option<int> {
    text::first_from(live_keywords(s, keyword), from, s.len() as int)
}

/// A keyword of word characters ends before a later keyword starts.
pub proof fn lemma_keywords_apart(
    s: Seq<char>,
    first: Seq<char>,
    i: int,
    second: Seq<char>,
    j: int,
)
    requires
        keyword_at(s, first, i),
        keyword_at(s, second, j),
        i < j,
        forall|k: int| 0 <= k < first.len() ==> is_word_char(#[trigger] first[k]),
    ensures
        i + first.len() <= j,
{
    if j < i + first.len() {
        let k = j - 1 - i;
        let window = s.subrange(i, i + first.len());
        assert(window[k] == s[j - 1]);
        assert(text::ascii_lower(window[k]) == text::ascii_lower(first[k]));
        assert(is_word_char(first[k]));
        assert(is_word_char(s[j - 1]));
    }
}

/// Live code that is not ASCII whitespace stands at `i`.
pub open spec fn live_non_space(s: Seq<char>) -> spec_fn(int) -> bool {
    |i: int| is_live(s, i) && !text::is_ascii_space(s[i])
}

/// No word character of live code stands at `i`.
pub open spec fn not_live_word(s: Seq<char>) -> spec_fn(int) -> bool {
    |i: int| !(is_live(s, i) && is_word_char(s[i]))
}

/// Where the run of live word characters from `start` on ends.
pub open spec fn word_end(s: Seq<char>, start: int) -> int {
    text::or_end(
        text::first_from(not_live_word(s), start, s.len() as int),
        s.len() as int,
    )
}

/// The next word of live code at or after `from`, when the first live character
/// there that is not whitespace belongs to one.
pub open spec fn next_word_from(s: Seq<char>, from: int) -> Option<Seq<char>> {
    match text::first_from(live_non_space(s), from, s.len() as int) {
        Some(start) => if word_end(s, start) > start {
            Some(s.subrange(start, word_end(s, start)))
        } else {
            None
        },
        None => None,
    }
}

/// The pieces of `s` from `from` on that every live `c` separates.
pub open spec fn live_pieces(s: Seq<char>, c: char, from: int) -> Seq<Seq<char>>
    decreases s.len() - from,
{
    match find_live_char(s, c, from) {
        Some(i) => {
            proof {
                text::lemma_first_from(live_char(s, c), from, s.len() as int);
            }
            seq![s.subrange(from, i)] + live_pieces(s, c, i + 1)
        },
        None => seq![s.subrange(from, s.len() as int)],
    }
}

// ---------------------------------------------------------------------------
// Facts about the lexical structure
// ---------------------------------------------------------------------------

proof fn lemma_block_comment_end(s: Seq<char>, i: int, depth: int)
    requires
        0 <= i <= s.len(),
    ensures
        i <= block_comment_end(s, i, depth) <= s.len(),
    decreases s.len() - i,
{
    if i < s.len() {
        if i + 1 < s.len() && s[i] == '/' && s[i + 1] == '*' {
            lemma_block_comment_end(s, i + 2, depth + 1);
        } else if i + 1 < s.len() && s[i] == '*' && s[i + 1] == '/' {
            if depth != 1 {
                lemma_block_comment_end(s, i + 2, depth - 1);
            }
        } else {
            lemma_block_comment_end(s, i + 1, depth);
        }
    }
}

proof fn lemma_single_quoted_end(s: Seq<char>, i: int)
    requires
        0 <= i,
        0 < s.len(),
    ensures
        0 < single_quoted_end(s, i) <= s.len(),
    decreases s.len() - i,
{
    if i < s.len() && !(s[i] == '\\' && i + 1 == s.len()) {
        if s[i] == '\\' {
            lemma_single_quoted_end(s, i + 2);
        } else if s[i] != '\'' {
            lemma_single_quoted_end(s, i + 1);
        } else if i + 1 < s.len() && s[i + 1] == '\'' {
            lemma_single_quoted_end(s, i + 2);
        }
    }
}

proof fn lemma_double_quoted_end(s: Seq<char>, i: int)
    requires
        0 <= i,
        0 < s.len(),
    ensures
        0 < double_quoted_end(s, i) <= s.len(),
    decreases s.len() - i,
{
    if i < s.len() {
        if s[i] != '"' {
            lemma_double_quoted_end(s, i + 1);
        } else if i + 1 < s.len() && s[i + 1] == '"' {
            lemma_double_quoted_end(s, i + 2);
        }
    }
}

/// The parts of a dollar-quoted literal lie in order within the text.
pub proof fn lemma_dollar_literal(s: Seq<char>)
    ensures
        dollar_literal(s) matches Some(dollar) ==> 2 <= dollar.inner_start <= dollar.inner_end
            <= dollar.end <= s.len(),
{
    if s.len() > 0 && s[0] == '$' {
        text::lemma_first_from(text::is_char_at(s, '$'), 1, s.len() as int);
        if let Some(tag_end) = text::find_char(s, '$', 1) {
            let opener = tag_end + 1;
            let rest = s.skip(opener);
            text::lemma_first_from(
                text::occurrences(rest, s.take(opener)),
                0,
                rest.len() as int + 1,
            );
        }
    }
}

/// Something always stands at the front of a text, and lies within it.
pub proof fn lemma_lexeme_len(s: Seq<char>)
    requires
        s.len() > 0,
    ensures
        1 <= lexeme_len(s) <= s.len(),
{
    text::lemma_first_from(text::is_char_at(s, '\n'), 2, s.len() as int);
    if s.len() >= 2 {
        lemma_block_comment_end(s, 2, 1);
    }
    lemma_single_quoted_end(s, 1);
    lemma_double_quoted_end(s, 1);
    lemma_dollar_literal(s);
}

/// Every character has a region.
pub proof fn lemma_regions_len(s: Seq<char>)
    ensures
        regions(s).len() == s.len(),
    decreases s.len(),
{
    if s.len() > 0 {
        lemma_lexeme_len(s);
        lemma_regions_len(s.skip(lexeme_len(s)));
    }
}

/// The bytes of the character at `i` belong to it.
pub(crate) proof fn lemma_char_containing(s: Seq<char>, i: int, k: int)
    requires
        0 <= i < s.len(),
        offsets::byte_offset(s, i) <= k < offsets::byte_offset(s, i + 1),
    ensures
        offsets::char_containing(s, k) == i,
{
    let p = offsets::ends_after(s, k);
    assert forall|j: int| 0 <= j < i implies !#[trigger] p(j) by {
        offsets::lemma_offset_increases(s, j + 1, i);
    }
    text::lemma_first_is(p, 0, s.len() as int, i);
}

// ---------------------------------------------------------------------------
// Reading one lexeme
// ---------------------------------------------------------------------------

/// A dollar-quoted literal at the front of the text.
struct DollarQuoted {
    /// Where the text between the delimiters starts.
    inner_start: usize,
    /// Where the text between the delimiters ends.
    inner_end: usize,
    /// Length of the literal, both delimiters included.
    span: usize,
    /// False when the closing delimiter is absent.
    closed: bool,
}

/// One lexical span at the front of a text.
enum Span {
    /// A comment or a quoted string, of this length, copied as it stands.
    Verbatim(usize),
    /// A dollar-quoted literal, which has no SQLite spelling.
    Dollar(DollarQuoted),
    /// One character of live code.
    Code,
}

impl DollarQuoted {
    spec fn literal(self) -> DollarLiteral {
        DollarLiteral {
            inner_start: self.inner_start as int,
            inner_end: self.inner_end as int,
            end: self.span as int,
            closed: self.closed,
        }
    }
}

impl Span {
    spec fn lexeme(self) -> Lexeme {
        match self {
            Span::Verbatim(n) => Lexeme::Verbatim(n as int),
            Span::Dollar(dollar) => Lexeme::Dollar(dollar.literal()),
            Span::Code => Lexeme::Code,
        }
    }
}

/// Length of the nested block comment starting at the front of `rest`.
fn block_comment_len(rest: &[char]) -> (len: usize)
    requires
        rest@.len() >= 2,
    ensures
        len == block_comment_end(rest@, 2, 1),
{
    let mut depth: usize = 1;
    let mut i: usize = 2;
    while i < rest.len()
        invariant
            1 <= depth <= i <= rest@.len(),
            block_comment_end(rest@, 2, 1) == block_comment_end(rest@, i as int, depth as int),
        decreases rest@.len() - i,
    {
        if i + 1 < rest.len() && rest[i] == '/' && rest[i + 1] == '*' {
            depth += 1;
            i += 2;
        } else if i + 1 < rest.len() && rest[i] == '*' && rest[i + 1] == '/' {
            i += 2;
            if depth == 1 {
                return i;
            }
            depth -= 1;
        } else {
            i += 1;
        }
    }
    rest.len()
}

/// Length of the single-quoted string at the front of `rest`, both quotes
/// included, when it is closed.
///
/// A doubled quote is an escape and stays inside. Backslash escapes are honored
/// too, for `E'...'` strings.
fn single_quoted_len(rest: &[char]) -> (len: Option<usize>)
    requires
        rest@.len() > 0,
    ensures
        text::as_int(len) == single_quoted_close(rest@, 1),
        len matches Some(n) ==> 1 < n <= rest@.len(),
{
    let mut i: usize = 1;
    while i < rest.len()
        invariant
            1 <= i,
            single_quoted_close(rest@, 1) == single_quoted_close(rest@, i as int),
        decreases rest@.len() - i,
    {
        if rest[i] == '\\' {
            if i + 1 == rest.len() {
                return None;
            }
            i += 2;
        } else if rest[i] != '\'' {
            i += 1;
        } else if i + 1 < rest.len() && rest[i + 1] == '\'' {
            i += 2;
        } else {
            return Some(i + 1);
        }
    }
    None
}

/// Length of the double-quoted identifier starting at the front of `rest`.
fn double_quoted_len(rest: &[char]) -> (len: usize)
    requires
        rest@.len() > 0,
    ensures
        len == double_quoted_end(rest@, 1),
{
    let mut i: usize = 1;
    while i < rest.len()
        invariant
            1 <= i,
            double_quoted_end(rest@, 1) == double_quoted_end(rest@, i as int),
        decreases rest@.len() - i,
    {
        if rest[i] != '"' {
            i += 1;
        } else if i + 1 < rest.len() && rest[i + 1] == '"' {
            i += 2;
        } else {
            return i + 1;
        }
    }
    rest.len()
}

/// True when `tag` can name a dollar quote.
fn is_dollar_tag(tag: &[char]) -> (answer: bool)
    ensures
        answer == is_tag(tag@),
{
    let mut i: usize = 0;
    while i < tag.len()
        invariant
            i <= tag@.len(),
            forall|j: int| 0 <= j < i ==> text::is_name_char(#[trigger] tag@[j]),
        decreases tag@.len() - i,
    {
        if !text::is_identifier_char(tag[i]) {
            return false;
        }
        i += 1;
    }
    tag.len() == 0 || !('0' <= tag[0] && tag[0] <= '9')
}

/// The dollar-quoted string starting at the front of `rest`, or `None` when
/// the `$` does not open one.
///
/// The tag is everything between the opening `$` and the next `$`, and it must
/// be a valid identifier or empty, so `$1` is a placeholder rather than a tag.
/// An unterminated literal runs to the end of the text.
fn dollar_quoted(rest: &[char]) -> (found: Option<DollarQuoted>)
    ensures
        match found {
            Some(dollar) => dollar_literal(rest@) == Some(dollar.literal()),
            None => dollar_literal(rest@) is None,
        },
{
    if rest.len() == 0 || rest[0] != '$' {
        return None;
    }
    let tag_end = match text::position_of(rest, '$', 1) {
        Some(tag_end) => tag_end,
        None => {
            return None;
        },
    };
    proof {
        text::lemma_first_from(text::is_char_at(rest@, '$'), 1, rest@.len() as int);
    }
    if !is_dollar_tag(slice_subrange(rest, 1, tag_end)) {
        return None;
    }
    let opener = tag_end + 1;
    let delimiter = slice_subrange(rest, 0, opener);
    let after = slice_subrange(rest, opener, rest.len());
    assert(after@ == rest@.skip(opener as int));
    assert(delimiter@ == rest@.take(opener as int));
    match text::position_of_seq(after, delimiter) {
        Some(close) => {
            proof {
                text::lemma_first_from(
                    text::occurrences(after@, delimiter@),
                    0,
                    after@.len() as int + 1,
                );
            }
            Some(
                DollarQuoted {
                    inner_start: opener,
                    inner_end: opener + close,
                    span: opener + close + opener,
                    closed: true,
                },
            )
        },
        None => Some(
            DollarQuoted {
                inner_start: opener,
                inner_end: rest.len(),
                span: rest.len(),
                closed: false,
            },
        ),
    }
}

/// Classifies the span starting at the front of `rest`, which must not be
/// empty.
///
/// Every walk over the text goes through here, so the region map, the
/// requoting, and the unterminated-literal check cannot drift apart.
fn next_span(rest: &[char]) -> (span: Span)
    requires
        rest@.len() > 0,
    ensures
        span.lexeme() == lexeme(rest@),
{
    if rest.len() >= 2 && rest[0] == '-' && rest[1] == '-' {
        match text::position_of(rest, '\n', 2) {
            Some(end) => {
                proof {
                    text::lemma_first_from(text::is_char_at(rest@, '\n'), 2, rest@.len() as int);
                }
                Span::Verbatim(end + 1)
            },
            None => Span::Verbatim(rest.len()),
        }
    } else if rest.len() >= 2 && rest[0] == '/' && rest[1] == '*' {
        Span::Verbatim(block_comment_len(rest))
    } else if rest[0] == '\'' {
        match single_quoted_len(rest) {
            Some(len) => Span::Verbatim(len),
            None => Span::Verbatim(rest.len()),
        }
    } else if rest[0] == '"' {
        Span::Verbatim(double_quoted_len(rest))
    } else {
        match dollar_quoted(rest) {
            Some(dollar) => Span::Dollar(dollar),
            None => Span::Code,
        }
    }
}

// ---------------------------------------------------------------------------
// Walking a whole text
// ---------------------------------------------------------------------------

/// The region of every character of `chars`.
pub(crate) fn classify(chars: &[char]) -> (map: Vec<Region>)
    ensures
        map@ == regions(chars@),
        map@.len() == chars@.len(),
{
    let mut map: Vec<Region> = Vec::new();
    let mut index: usize = 0;
    proof {
        lemma_regions_len(chars@);
        assert(chars@.skip(0) == chars@);
    }
    while index < chars.len()
        invariant
            index <= chars@.len(),
            map@.len() == index,
            regions(chars@) == map@ + regions(chars@.skip(index as int)),
        decreases chars@.len() - index,
    {
        let rest = slice_subrange(chars, index, chars.len());
        assert(rest@ == chars@.skip(index as int));
        proof {
            lemma_lexeme_len(rest@);
        }
        let (span, region): (usize, Region) = match next_span(rest) {
            Span::Verbatim(len) => (len, Region::Quoted),
            Span::Dollar(dollar) => (dollar.span, Region::Quoted),
            Span::Code => (1, Region::Code),
        };
        let ghost before = map@;
        let end = index + span;
        while index < end
            invariant
                end <= chars@.len(),
                before.len() + span == end,
                before.len() <= index <= end,
                map@ == before + Seq::new((index - before.len()) as nat, |i: int| region),
            decreases end - index,
        {
            map.push(region);
            index += 1;
        }
        assert(rest@.skip(span as int) == chars@.skip(index as int));
    }
    map
}

/// The first `c` of live code in `chars` at or after `from`.
pub(crate) fn live_position_of(chars: &[char], c: char, from: usize) -> (found: Option<usize>)
    requires
        from <= chars@.len(),
    ensures
        text::as_int(found) == find_live_char(chars@, c, from as int),
        found matches Some(i) ==> from <= i < chars@.len(),
{
    let map = classify(chars);
    let ghost p = live_char(chars@, c);
    let mut i: usize = from;
    while i < chars.len()
        invariant
            map@ == regions(chars@),
            map@.len() == chars@.len(),
            p == live_char(chars@, c),
            from <= i <= chars@.len(),
            forall|j: int| from <= j < i ==> !#[trigger] p(j),
        decreases chars@.len() - i,
    {
        if chars[i] == c && map[i] == Region::Code {
            proof {
                text::lemma_first_is(p, from as int, chars@.len() as int, i as int);
            }
            return Some(i);
        }
        i += 1;
    }
    proof {
        text::lemma_no_first(p, from as int, chars@.len() as int);
    }
    None
}

/// The first place in `chars` where `needle` starts in live code.
pub(crate) fn live_position_of_seq(chars: &[char], needle: &[char]) -> (found: Option<usize>)
    ensures
        text::as_int(found) == find_live_seq(chars@, needle@),
        found matches Some(i) ==> i + needle@.len() <= chars@.len(),
{
    let map = classify(chars);
    let ghost p = live_occurrence(chars@, needle@);
    let mut i: usize = 0;
    while i < chars.len()
        invariant
            map@ == regions(chars@),
            map@.len() == chars@.len(),
            p == live_occurrence(chars@, needle@),
            i <= chars@.len(),
            forall|j: int| 0 <= j < i ==> !#[trigger] p(j),
        decreases chars@.len() - i,
    {
        if needle.len() > 0 && map[i] == Region::Code && text::is_at(chars, needle, i) {
            proof {
                text::lemma_first_is(p, 0, chars@.len() as int, i as int);
            }
            return Some(i);
        }
        i += 1;
    }
    proof {
        text::lemma_no_first(p, 0, chars@.len() as int);
    }
    None
}

/// True for a character that can appear inside an identifier.
fn is_word(c: char) -> (answer: bool)
    ensures
        answer == is_word_char(c),
{
    ('A' <= c && c <= 'Z') || ('a' <= c && c <= 'z') || ('0' <= c && c <= '9') || c == '_' || c
        == '$'
}

/// True when `keyword` stands at `i` in `chars`, whose regions are `map`.
pub(crate) fn is_keyword_at(
    chars: &[char],
    map: &[Region],
    keyword: &[char],
    i: usize,
) -> (answer: bool)
    requires
        map@ == regions(chars@),
        map@.len() == chars@.len(),
        i < chars@.len(),
    ensures
        answer == keyword_at(chars@, keyword@, i as int),
{
    if keyword.len() == 0 || map[i] != Region::Code || !text::is_at_ignoring_case(
        chars,
        keyword,
        i,
    ) {
        return false;
    }
    let end = i + keyword.len();
    (i == 0 || !is_word(chars[i - 1])) && (end == chars.len() || !is_word(chars[end]))
}

/// The first place in `chars` at or after `from` where `keyword` stands.
pub(crate) fn keyword_position(chars: &[char], keyword: &str, from: usize) -> (found: Option<
    usize,
>)
    requires
        from <= chars@.len(),
    ensures
        text::as_int(found) == find_keyword_from(chars@, keyword@, from as int),
        found matches Some(i) ==> from <= i && i + keyword@.len() <= chars@.len(),
{
    let map = classify(chars);
    let word = text::chars_of(keyword);
    let ghost p = keyword_positions(chars@, keyword@);
    let mut i: usize = from;
    while i < chars.len()
        invariant
            map@ == regions(chars@),
            map@.len() == chars@.len(),
            word@ == keyword@,
            p == keyword_positions(chars@, keyword@),
            from <= i <= chars@.len(),
            forall|j: int| from <= j < i ==> !#[trigger] p(j),
        decreases chars@.len() - i,
    {
        if is_keyword_at(chars, &map, &word, i) {
            proof {
                text::lemma_first_is(p, from as int, chars@.len() as int, i as int);
            }
            return Some(i);
        }
        i += 1;
    }
    proof {
        text::lemma_no_first(p, from as int, chars@.len() as int);
    }
    None
}

/// True when `keyword` stands at `i` in `chars`, whose regions are `map`, only
/// live code extending a word.
pub(crate) fn is_live_keyword_at(
    chars: &[char],
    map: &[Region],
    keyword: &[char],
    i: usize,
) -> (answer: bool)
    requires
        map@ == regions(chars@),
        map@.len() == chars@.len(),
        i < chars@.len(),
    ensures
        answer == live_keyword_at(chars@, keyword@, i as int),
{
    if keyword.len() == 0 || map[i] != Region::Code || !text::is_at_ignoring_case(
        chars,
        keyword,
        i,
    ) {
        return false;
    }
    let end = i + keyword.len();
    let extends_left = i > 0 && map[i - 1] == Region::Code && is_word(chars[i - 1]);
    let extends_right = end < chars.len() && map[end] == Region::Code && is_word(chars[end]);
    !extends_left && !extends_right
}

/// The first place in `chars` at or after `from` where `keyword` stands,
/// only live code extending a word.
pub(crate) fn live_keyword_position(chars: &[char], keyword: &str, from: usize) -> (found: Option<
    usize,
>)
    requires
        from <= chars@.len(),
    ensures
        text::as_int(found) == find_live_keyword(chars@, keyword@, from as int),
        found matches Some(i) ==> from <= i && i + keyword@.len() <= chars@.len(),
{
    let map = classify(chars);
    let word = text::chars_of(keyword);
    let ghost p = live_keywords(chars@, keyword@);
    let mut i: usize = from;
    while i < chars.len()
        invariant
            map@ == regions(chars@),
            map@.len() == chars@.len(),
            word@ == keyword@,
            p == live_keywords(chars@, keyword@),
            from <= i <= chars@.len(),
            forall|j: int| from <= j < i ==> !#[trigger] p(j),
        decreases chars@.len() - i,
    {
        if is_live_keyword_at(chars, &map, &word, i) {
            proof {
                text::lemma_first_is(p, from as int, chars@.len() as int, i as int);
            }
            return Some(i);
        }
        i += 1;
    }
    proof {
        text::lemma_no_first(p, from as int, chars@.len() as int);
    }
    None
}

/// The next word of live code in `chars` at or after `from`, as the positions
/// where it starts and ends.
pub(crate) fn next_word_bounds(chars: &[char], from: usize) -> (found: Option<(usize, usize)>)
    requires
        from <= chars@.len(),
    ensures
        match found {
            Some((start, end)) => from <= start < end <= chars@.len() && next_word_from(
                chars@,
                from as int,
            ) == Some(chars@.subrange(start as int, end as int)),
            None => next_word_from(chars@, from as int) is None,
        },
{
    let map = classify(chars);
    let ghost p = live_non_space(chars@);
    let mut start: usize = from;
    while start < chars.len() && !(map[start] == Region::Code && !text::is_ascii_whitespace(
        chars[start],
    ))
        invariant
            map@ == regions(chars@),
            map@.len() == chars@.len(),
            p == live_non_space(chars@),
            from <= start <= chars@.len(),
            forall|j: int| from <= j < start ==> !#[trigger] p(j),
        decreases chars@.len() - start,
    {
        start += 1;
    }
    if start == chars.len() {
        proof {
            text::lemma_no_first(p, from as int, chars@.len() as int);
        }
        return None;
    }
    proof {
        text::lemma_first_is(p, from as int, chars@.len() as int, start as int);
    }
    let ghost q = not_live_word(chars@);
    let mut end: usize = start;
    while end < chars.len() && map[end] == Region::Code && is_word(chars[end])
        invariant
            map@ == regions(chars@),
            map@.len() == chars@.len(),
            q == not_live_word(chars@),
            start <= end <= chars@.len(),
            forall|j: int| start <= j < end ==> !#[trigger] q(j),
        decreases chars@.len() - end,
    {
        end += 1;
    }
    proof {
        if end < chars@.len() {
            text::lemma_first_is(q, start as int, chars@.len() as int, end as int);
        } else {
            text::lemma_no_first(q, start as int, chars@.len() as int);
        }
    }
    if end > start {
        Some((start, end))
    } else {
        None
    }
}

/// Adds `inner` at the end of `out` with every single quote doubled.
fn push_doubling_quotes(out: &mut Vec<char>, inner: &[char])
    ensures
        final(out)@ == old(out)@ + quotes_doubled(inner@),
{
    let mut i: usize = 0;
    assert(inner@.take(0) == Seq::<char>::empty());
    while i < inner.len()
        invariant
            i <= inner@.len(),
            out@ == old(out)@ + quotes_doubled(inner@.take(i as int)),
        decreases inner@.len() - i,
    {
        let c = inner[i];
        if c == '\'' {
            out.push('\'');
        }
        out.push(c);
        assert(inner@.take(i + 1).drop_last() == inner@.take(i as int));
        i += 1;
        assert(out@ =~= old(out)@ + quotes_doubled(inner@.take(i as int)));
    }
    assert(inner@.take(i as int) == inner@);
}

/// The single-quoted string literal whose value is `inner`.
pub(crate) fn quote(inner: &[char]) -> (literal: Vec<char>)
    ensures
        literal@ == single_quoted(inner@),
{
    let mut literal: Vec<char> = Vec::new();
    literal.push('\'');
    push_doubling_quotes(&mut literal, inner);
    literal.push('\'');
    assert(literal@ =~= single_quoted(inner@));
    literal
}

/// The text between the delimiters of a dollar-quoted literal, when `chars` is
/// exactly one such literal.
pub(crate) fn dollar_quoted_body<'a>(chars: &'a [char]) -> (body: Option<&'a [char]>)
    ensures
        match body {
            Some(inner) => sole_dollar_literal(chars@) == Some(inner@),
            None => sole_dollar_literal(chars@) is None,
        },
{
    proof {
        lemma_dollar_literal(chars@);
    }
    match dollar_quoted(chars) {
        Some(dollar) => if dollar.closed && dollar.span == chars.len() {
            Some(slice_subrange(chars, dollar.inner_start, dollar.inner_end))
        } else {
            None
        },
        None => None,
    }
}

/// True when `chars` end in a line comment that no line feed closes.
fn has_open_line_comment(chars: &[char]) -> (answer: bool)
    ensures
        answer == ends_in_line_comment(chars@),
{
    let mut index: usize = 0;
    assert(chars@.skip(0) == chars@);
    while index < chars.len()
        invariant
            index <= chars@.len(),
            ends_in_line_comment(chars@) == ends_in_line_comment(chars@.skip(index as int)),
        decreases chars@.len() - index,
    {
        let rest = slice_subrange(chars, index, chars.len());
        assert(rest@ == chars@.skip(index as int));
        proof {
            lemma_lexeme_len(rest@);
        }
        let len: usize = match next_span(rest) {
            Span::Verbatim(len) => len,
            Span::Dollar(dollar) => dollar.span,
            Span::Code => 1,
        };
        if len == rest.len() {
            return rest.len() >= 2 && rest[0] == '-' && rest[1] == '-' && rest[rest.len() - 1]
                != '\n';
        }
        assert(rest@.skip(len as int) == chars@.skip(index + len));
        index += len;
    }
    false
}

/// Adds to `out` what must stand between `chars` and code behind them.
pub(crate) fn push_separation(out: &mut Vec<char>, chars: &[char], otherwise: &str)
    ensures
        final(out)@ == old(out)@ + separation(chars@, otherwise@),
{
    if has_open_line_comment(chars) {
        text::push_text(out, "\n");
    } else {
        text::push_text(out, otherwise);
    }
}

/// True when `chars` start with a double quote and the identifier that it opens
/// runs to their end.
pub(crate) fn is_quoted_identifier(chars: &[char]) -> (answer: bool)
    ensures
        answer == (chars@.len() > 0 && chars@[0] == '"' && double_quoted_end(chars@, 1)
            == chars@.len()),
{
    chars.len() > 0 && chars[0] == '"' && double_quoted_len(chars) == chars.len()
}

/// The length of the string literal that `chars` start with, when it is closed.
pub(crate) fn leading_literal_len(chars: &[char]) -> (len: Option<usize>)
    ensures
        text::as_int(len) == literal_len(chars@),
        len matches Some(n) ==> n <= chars@.len(),
{
    if chars.len() > 0 && chars[0] == '\'' {
        return single_quoted_len(chars);
    }
    proof {
        lemma_dollar_literal(chars@);
    }
    match dollar_quoted(chars) {
        Some(dollar) => if dollar.closed {
            Some(dollar.span)
        } else {
            None
        },
        None => None,
    }
}

/// `chars` with every dollar-quoted literal spelled as a single-quoted one.
pub(crate) fn requote(chars: &[char]) -> (out: Vec<char>)
    ensures
        out@ == requoted(chars@),
{
    let mut out: Vec<char> = Vec::new();
    let mut index: usize = 0;
    assert(chars@.skip(0) == chars@);
    while index < chars.len()
        invariant
            index <= chars@.len(),
            requoted(chars@) == out@ + requoted(chars@.skip(index as int)),
        decreases chars@.len() - index,
    {
        let rest = slice_subrange(chars, index, chars.len());
        assert(rest@ == chars@.skip(index as int));
        proof {
            lemma_lexeme_len(rest@);
            lemma_dollar_literal(rest@);
        }
        let ghost before = out@;
        let span: usize = match next_span(rest) {
            Span::Verbatim(len) => {
                text::push_chars(&mut out, slice_subrange(rest, 0, len));
                len
            },
            Span::Dollar(dollar) => {
                let inner = slice_subrange(rest, dollar.inner_start, dollar.inner_end);
                text::push_chars(&mut out, &quote(inner));
                dollar.span
            },
            Span::Code => {
                out.push(rest[0]);
                assert(rest@.take(1) == seq![rest@[0]]);
                1
            },
        };
        index += span;
        assert(rest@.skip(span as int) == chars@.skip(index as int));
        assert(out@ =~= before + requoted_lexeme(rest@));
    }
    out
}

// ---------------------------------------------------------------------------
// The scanner
// ---------------------------------------------------------------------------

/// Walks a text, reporting the region each byte belongs to.
///
/// Delimiters count as [`Region::Quoted`], so a keyword scan can skip every
/// quoted byte.
pub struct Scanner<'a> {
    text: &'a str,
}

impl<'a> View for Scanner<'a> {
    type V = Seq<char>;

    /// The characters of the text.
    closed spec fn view(&self) -> Seq<char> {
        self.text@
    }
}

impl<'a> Scanner<'a> {
    /// Creates a scanner over `text`.
    #[must_use]
    pub fn new(text: &'a str) -> (scanner: Self)
        ensures
            scanner@ == text@,
    {
        Self { text }
    }

    /// The characters of the text, whose UTF-8 form fits in memory.
    fn chars(&self) -> (chars: Vec<char>)
        ensures
            chars@ == self@,
            offsets::byte_len(self@) <= usize::MAX,
    {
        // The UTF-8 form has a length, so every offset into it fits a usize.
        let _len: usize = self.text.as_bytes().len();
        text::chars_of(self.text)
    }

    /// The region of every byte offset in the text, as a parallel map.
    #[must_use]
    pub fn regions(&self) -> (map: Vec<Region>)
        ensures
            map@ == byte_regions(self@),
            map@.len() == offsets::byte_len(self@),
    {
        let chars = self.chars();
        let char_map = classify(&chars);
        let mut map: Vec<Region> = Vec::new();
        let mut i: usize = 0;
        proof {
            offsets::lemma_offset_ends(chars@);
        }
        while i < chars.len()
            invariant
                chars@ == self@,
                char_map@ == regions(chars@),
                char_map@.len() == chars@.len(),
                i <= chars@.len(),
                map@.len() == offsets::byte_offset(chars@, i as int),
                offsets::byte_offset(chars@, i as int) <= offsets::byte_len(chars@),
                forall|k: int|
                    0 <= k < map@.len() ==> #[trigger] map@[k] == byte_regions(chars@)[k],
            decreases chars@.len() - i,
        {
            let bytes: usize = offsets::char_width(chars[i]);
            let region = char_map[i];
            let ghost start = map@.len() as int;
            proof {
                offsets::lemma_offset_step(chars@, i as int);
            }
            let mut n: usize = 0;
            while n < bytes
                invariant
                    i < chars@.len(),
                    n <= bytes == offsets::width(chars@[i as int]),
                    region == regions(chars@)[i as int],
                    start == offsets::byte_offset(chars@, i as int),
                    offsets::byte_offset(chars@, i + 1) == start + bytes,
                    start + bytes <= offsets::byte_len(chars@),
                    map@.len() == start + n,
                    forall|k: int|
                        0 <= k < map@.len() ==> #[trigger] map@[k] == byte_regions(chars@)[k],
                decreases bytes - n,
            {
                proof {
                    lemma_char_containing(chars@, i as int, start + n);
                }
                map.push(region);
                n += 1;
            }
            i += 1;
        }
        proof {
            offsets::lemma_offset_ends(chars@);
        }
        map
    }

    /// True when a dollar-quoted literal opens and never closes, swallowing the
    /// rest of the text.
    #[must_use]
    pub fn has_unterminated_dollar_quote(&self) -> (answer: bool)
        ensures
            answer == has_open_dollar_literal(self@),
    {
        let chars = self.chars();
        let mut index: usize = 0;
        assert(chars@.skip(0) == chars@);
        while index < chars.len()
            invariant
                chars@ == self@,
                index <= chars@.len(),
                has_open_dollar_literal(chars@) == has_open_dollar_literal(
                    chars@.skip(index as int),
                ),
            decreases chars@.len() - index,
        {
            let rest = slice_subrange(&chars, index, chars.len());
            assert(rest@ == chars@.skip(index as int));
            proof {
                lemma_lexeme_len(rest@);
            }
            let span: usize = match next_span(rest) {
                Span::Verbatim(len) => len,
                Span::Dollar(dollar) => {
                    if !dollar.closed {
                        return true;
                    }
                    dollar.span
                },
                Span::Code => 1,
            };
            index += span;
            assert(rest@.skip(span as int) == chars@.skip(index as int));
        }
        false
    }

    /// The offset of the first `needle` byte that is live code.
    #[must_use]
    pub fn find_in_code(&self, needle: u8) -> (found: Option<usize>)
        ensures
            text::as_int(found) == find_live_byte(self@, needle),
    {
        let map = self.regions();
        let bytes = self.text.as_bytes();
        let ghost p = live_byte(self@, needle);
        let mut k: usize = 0;
        while k < bytes.len()
            invariant
                map@ == byte_regions(self@),
                map@.len() == bytes@.len(),
                bytes@ == vstd::utf8::encode_utf8(self@),
                p == live_byte(self@, needle),
                k <= bytes@.len(),
                forall|j: int| 0 <= j < k ==> !#[trigger] p(j),
            decreases bytes@.len() - k,
        {
            if bytes[k] == needle && map[k] == Region::Code {
                proof {
                    text::lemma_first_is(p, 0, bytes@.len() as int, k as int);
                }
                return Some(k);
            }
            k += 1;
        }
        proof {
            text::lemma_no_first(p, 0, bytes@.len() as int);
        }
        None
    }

    /// The offset of the first occurrence of `needle` that is live code.
    #[must_use]
    pub fn find_str_in_code(&self, needle: &str) -> (found: Option<usize>)
        ensures
            match find_live_seq(self@, needle@) {
                Some(i) => found == Some(offsets::byte_offset(self@, i) as usize)
                    && offsets::byte_offset(self@, i) <= usize::MAX,
                None => found is None,
            },
    {
        let chars = self.chars();
        match live_position_of_seq(&chars, &text::chars_of(needle)) {
            Some(i) => Some(offsets::offset_of(&chars, i)),
            None => None,
        }
    }

    /// The offset of `keyword` as a whole word in live code, searched from
    /// `from`, comparing case-insensitively.
    ///
    /// Both sides need a word boundary, which is what stops `myelsif` from
    /// matching `elsif`.
    #[must_use]
    pub fn find_keyword(&self, keyword: &str, from: usize) -> (found: Option<usize>)
        ensures
            match find_keyword_from(
                self@,
                keyword@,
                offsets::char_at_or_after(self@, from as int),
            ) {
                Some(i) => found == Some(offsets::byte_offset(self@, i) as usize)
                    && offsets::byte_offset(self@, i) <= usize::MAX,
                None => found is None,
            },
    {
        let chars = self.chars();
        let start = offsets::index_at_or_after(&chars, from);
        match keyword_position(&chars, keyword, start) {
            Some(i) => Some(offsets::offset_of(&chars, i)),
            None => None,
        }
    }

    /// The next word of live code at or after `from`, skipping whitespace and
    /// anything quoted or commented.
    #[must_use]
    pub fn next_word_in_code(&self, from: usize) -> (word: Option<&'a str>)
        ensures
            match next_word_from(self@, offsets::char_containing(self@, from as int)) {
                Some(expected) => word is Some && word->0@ == expected,
                None => word is None,
            },
    {
        let chars = self.chars();
        let start = offsets::index_containing(&chars, from);
        match next_word_bounds(&chars, start) {
            Some((start, end)) => Some(self.text.substring_char(start, end)),
            None => None,
        }
    }

    /// Split on every `separator` byte that is live code.
    ///
    /// A separator above ASCII is a fragment of a character, so it must not
    /// occur in live code.
    #[must_use]
    pub fn split_in_code(&self, separator: u8) -> (pieces: Vec<&'a str>)
        requires
            separator < 128 || find_live_byte(self@, separator) is None,
        ensures
            separator < 128 ==> {
                let expected = live_pieces(self@, separator as char, 0);
                &&& pieces@.len() == expected.len()
                &&& forall|i: int|
                    0 <= i < pieces@.len() ==> (#[trigger] pieces@[i])@ == expected[i]
            },
            separator >= 128 ==> pieces@.len() == 1 && pieces@[0]@ == self@,
    {
        let mut pieces: Vec<&'a str> = Vec::new();
        if separator >= 128 {
            pieces.push(self.text);
            return pieces;
        }
        let chars = self.chars();
        let c = separator as char;
        let ghost expected = live_pieces(self@, c, 0);
        let mut start: usize = 0;
        loop
            invariant
                chars@ == self@,
                separator < 128,
                c == separator as char,
                expected == live_pieces(self@, c, 0),
                start <= chars@.len(),
                expected.len() > pieces@.len(),
                live_pieces(self@, c, start as int) == expected.skip(pieces@.len() as int),
                forall|i: int| 0 <= i < pieces@.len() ==> (#[trigger] pieces@[i])@ == expected[i],
            decreases chars@.len() - start,
        {
            let ghost count = pieces@.len() as int;
            let ghost rest = live_pieces(self@, c, start as int);
            assert(rest[0] == expected[count]);
            match live_position_of(&chars, c, start) {
                Some(i) => {
                    assert(i < chars.len());
                    pieces.push(self.text.substring_char(start, i));
                    assert(rest.skip(1) == live_pieces(self@, c, i + 1));
                    assert(expected.skip(count).skip(1) == expected.skip(count + 1));
                    assert(live_pieces(self@, c, i + 1).len() > 0);
                    start = i + 1;
                },
                None => {
                    pieces.push(self.text.substring_char(start, chars.len()));
                    assert(rest.len() == 1);
                    return pieces;
                },
            }
        }
    }

    /// Re-emits every dollar-quoted literal as a single-quoted one, doubling
    /// any single quote inside it.
    ///
    /// `$tag$...$tag$` has no SQLite counterpart, and doubling is the only
    /// escape SQLite has. Other quoted spans are copied byte for byte, so a `$`
    /// inside an ordinary string is not mistaken for a delimiter.
    #[must_use]
    pub fn requote_dollar_literals(&self) -> (out: String)
        ensures
            out@ == requoted(self@),
    {
        text::string_of(&requote(&self.chars()))
    }
}

}
