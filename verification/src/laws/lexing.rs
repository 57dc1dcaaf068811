//! Laws of the lexical structure: what is quoted, what is commented, and what is
//! live code.

use vstd::prelude::*;

use crate::laws::splicing;
use crate::laws::wording;
use crate::scanner;
use crate::scanner::{Lexeme, Region};
use crate::text;

verus! {

/// `n` characters that are quoted or commented.
pub open spec fn all_quoted(n: nat) -> Seq<Region> {
    Seq::new(n, |i: int| Region::Quoted)
}

/// `front` is quoted or commented where `rest` follows it, requoting copies it, it
/// leaves no dollar-quoted literal open, and nothing in it is taken for a comment
/// that what follows stands in.
pub open spec fn is_passed_over(front: Seq<char>, rest: Seq<char>) -> bool {
    &&& scanner::regions(front + rest) == all_quoted(front.len()) + scanner::regions(rest)
    &&& scanner::requoted(front + rest) == front + scanner::requoted(rest)
    &&& scanner::has_open_dollar_literal(front + rest) == scanner::has_open_dollar_literal(rest)
    &&& rest.len() > 0 ==> scanner::ends_in_line_comment(front + rest)
        == scanner::ends_in_line_comment(rest)
    &&& rest.len() == 0 && front[0] != '-' ==> !scanner::ends_in_line_comment(front + rest)
}

/// What is copied as it stands is passed over.
proof fn lemma_passed_over(front: Seq<char>, rest: Seq<char>)
    requires
        front.len() > 0,
        scanner::lexeme(front + rest) == Lexeme::Verbatim(front.len() as int),
    ensures
        is_passed_over(front, rest),
{
    let s = front + rest;
    scanner::lemma_lexeme_len(s);
    assert(s.skip(front.len() as int) =~= rest);
    assert(s.take(front.len() as int) =~= front);
    assert(scanner::regions(s) =~= all_quoted(front.len()) + scanner::regions(rest));
}

// ---------------------------------------------------------------------------
// Comments
// ---------------------------------------------------------------------------

/// A line comment runs to the end of its line, whatever it holds.
pub proof fn law_line_comment_ends_with_its_line(comment: Seq<char>, rest: Seq<char>)
    requires
        forall|i: int| 0 <= i < comment.len() ==> #[trigger] comment[i] != '\n',
    ensures
        is_passed_over(seq!['-', '-'] + comment + seq!['\n'], rest),
        is_passed_over(seq!['-', '-'] + comment, Seq::empty()),
{
    let front = seq!['-', '-'] + comment + seq!['\n'];
    let s = front + rest;
    let end = comment.len() as int + 2;
    let p = text::is_char_at(s, '\n');
    assert forall|j: int| 2 <= j < end implies !#[trigger] p(j) by {
        assert(s[j] == comment[j - 2]);
    }
    assert(s[end] == '\n');
    text::lemma_first_is(p, 2, s.len() as int, end);
    lemma_passed_over(front, rest);
    let open = seq!['-', '-'] + comment;
    let t = open + Seq::<char>::empty();
    let q = text::is_char_at(t, '\n');
    assert forall|j: int| 2 <= j < t.len() implies !#[trigger] q(j) by {
        assert(t[j] == comment[j - 2]);
    }
    text::lemma_no_first(q, 2, t.len() as int);
    lemma_passed_over(open, Seq::empty());
}

/// A text ends in a line comment when one starts in live code and no line feed
/// follows, and what is written behind it then starts a new line.
pub proof fn law_open_line_comment_is_closed(
    before: Seq<char>,
    comment: Seq<char>,
    otherwise: Seq<char>,
)
    requires
        is_plain(before),
        forall|i: int| 0 <= i < comment.len() ==> #[trigger] comment[i] != '\n',
    ensures
        scanner::separation(before + seq!['-', '-'] + comment, otherwise) == seq!['\n'],
        scanner::separation(before + seq!['-', '-'] + comment + seq!['\n'], otherwise)
            == otherwise,
        scanner::separation(before, otherwise) == otherwise,
{
    reveal_strlit("\n");
    assert("\n"@ =~= seq!['\n']);
    let open = seq!['-', '-'] + comment;
    let none = Seq::<char>::empty();
    let p = text::is_char_at(open, '\n');
    assert forall|j: int| 2 <= j < open.len() implies !#[trigger] p(j) by {
        assert(open[j] == comment[j - 2]);
    }
    text::lemma_no_first(p, 2, open.len() as int);
    if comment.len() > 0 {
        assert(open.last() == comment[comment.len() - 1]);
    }
    lemma_comment_behind_plain(before, open);
    assert(before + seq!['-', '-'] + comment =~= before + open);
    let closed = open + seq!['\n'];
    let q = text::is_char_at(closed, '\n');
    let end = open.len() as int;
    assert forall|j: int| 2 <= j < end implies !#[trigger] q(j) by {
        assert(closed[j] == comment[j - 2]);
    }
    text::lemma_first_is(q, 2, closed.len() as int, end);
    lemma_comment_behind_plain(before, closed);
    assert(before + seq!['-', '-'] + comment + seq!['\n'] =~= before + closed);
    lemma_comment_behind_plain(before, none);
    assert(before + none =~= before);
}

/// Plain text does not change whether what follows it ends in a line comment.
proof fn lemma_comment_behind_plain(before: Seq<char>, rest: Seq<char>)
    requires
        is_plain(before),
    ensures
        scanner::ends_in_line_comment(before + rest) == scanner::ends_in_line_comment(rest),
    decreases before.len(),
{
    if before.len() == 0 {
        assert(before + rest =~= rest);
    } else {
        let s = before + rest;
        let tail = before.drop_first();
        assert forall|i: int| 0 <= i < tail.len() implies #[trigger] tail[i] != '\'' && tail[i]
            != '"' && tail[i] != '$' && tail[i] != '-' && tail[i] != '/' by {
            assert(tail[i] == before[i + 1]);
        }
        lemma_comment_behind_plain(tail, rest);
        assert(s[0] == before[0]);
        assert(scanner::lexeme(s) is Code);
        assert(s.skip(1) =~= tail + rest);
        if s.len() == 1 {
            assert(tail + rest =~= Seq::<char>::empty());
        }
    }
}

/// `filler` in `n` block comments, one inside the other.
pub open spec fn nested(n: nat, filler: Seq<char>) -> Seq<char>
    decreases n,
{
    if n == 0 {
        filler
    } else {
        seq!['/', '*'] + nested((n - 1) as nat, filler) + seq!['*', '/']
    }
}

/// Block comments nest: one ends where as many are closed as were opened.
pub proof fn law_block_comments_nest(
    n: nat,
    before: Seq<char>,
    filler: Seq<char>,
    after: Seq<char>,
    rest: Seq<char>,
)
    requires
        forall|i: int| 0 <= i < before.len() ==> #[trigger] before[i] != '/' && before[i] != '*',
        forall|i: int| 0 <= i < filler.len() ==> #[trigger] filler[i] != '/' && filler[i] != '*',
        forall|i: int| 0 <= i < after.len() ==> #[trigger] after[i] != '/' && after[i] != '*',
    ensures
        is_passed_over(
            seq!['/', '*'] + before + nested(n, filler) + after + seq!['*', '/'],
            rest,
        ),
{
    let open = seq!['/', '*'];
    let close = seq!['*', '/'];
    let inner = nested(n, filler);
    let front = open + before + inner + after + close;
    let s = front + rest;
    assert(s =~= open + before + (inner + after + close + rest));
    lemma_filler_passed(open, before, inner + after + close + rest, 1);
    assert(s =~= (open + before) + inner + (after + close + rest));
    lemma_nested_passed(n, filler, open + before, after + close + rest, 1);
    assert(s =~= (open + before + inner) + after + (close + rest));
    lemma_filler_passed(open + before + inner, after, close + rest, 1);
    let end = (open + before + inner + after).len() as int;
    assert(s[end] == '*' && s[end + 1] == '/');
    assert(scanner::block_comment_end(s, end, 1) == end + 2);
    lemma_passed_over(front, rest);
}

/// A block comment and a quoted identifier that nothing closes run to the end of
/// the text.
pub proof fn law_open_quotes_run_to_the_end(filler: Seq<char>, body: Seq<char>)
    requires
        forall|i: int| 0 <= i < filler.len() ==> #[trigger] filler[i] != '/' && filler[i] != '*',
        is_identifier_body(body),
    ensures
        is_passed_over(seq!['/', '*'] + filler, Seq::empty()),
        is_passed_over(seq!['"'] + body, Seq::empty()),
{
    let none = Seq::<char>::empty();
    let open = seq!['/', '*'];
    lemma_filler_passed(open, filler, none, 1);
    assert(open + filler + none =~= (open + filler) + none);
    lemma_passed_over(open + filler, none);
    let quote = seq!['"'];
    lemma_identifier_body_passed(quote, body, none);
    assert(quote + body + none =~= (quote + body) + none);
    lemma_passed_over(quote + body, none);
}

/// A comment stays as deep over characters that neither open nor close one.
proof fn lemma_filler_passed(front: Seq<char>, filler: Seq<char>, rest: Seq<char>, depth: int)
    requires
        forall|i: int| 0 <= i < filler.len() ==> #[trigger] filler[i] != '/' && filler[i] != '*',
    ensures
        scanner::block_comment_end(front + filler + rest, front.len() as int, depth)
            == scanner::block_comment_end(
            front + filler + rest,
            (front + filler).len() as int,
            depth,
        ),
    decreases filler.len(),
{
    if filler.len() > 0 {
        let s = front + filler + rest;
        let tail = filler.drop_first();
        assert(s[front.len() as int] == filler[0]);
        assert(front + seq![filler[0]] + tail + rest =~= s);
        assert forall|i: int| 0 <= i < tail.len() implies #[trigger] tail[i] != '/' && tail[i]
            != '*' by {
            assert(tail[i] == filler[i + 1]);
        }
        lemma_filler_passed(front + seq![filler[0]], tail, rest, depth);
    }
}

/// A comment is as deep behind a nested one as before it.
proof fn lemma_nested_passed(
    n: nat,
    filler: Seq<char>,
    front: Seq<char>,
    rest: Seq<char>,
    depth: int,
)
    requires
        depth >= 1,
        forall|i: int| 0 <= i < filler.len() ==> #[trigger] filler[i] != '/' && filler[i] != '*',
    ensures
        scanner::block_comment_end(front + nested(n, filler) + rest, front.len() as int, depth)
            == scanner::block_comment_end(
            front + nested(n, filler) + rest,
            (front + nested(n, filler)).len() as int,
            depth,
        ),
    decreases n,
{
    if n == 0 {
        lemma_filler_passed(front, filler, rest, depth);
    } else {
        let open = seq!['/', '*'];
        let close = seq!['*', '/'];
        let inner = nested((n - 1) as nat, filler);
        let s = front + nested(n, filler) + rest;
        let at = front.len() as int;
        assert(s =~= (front + open) + inner + (close + rest));
        assert(s[at] == '/' && s[at + 1] == '*');
        lemma_nested_passed((n - 1) as nat, filler, front + open, close + rest, depth + 1);
        let end = (front + open + inner).len() as int;
        assert(s[end] == '*' && s[end + 1] == '/');
    }
}

// ---------------------------------------------------------------------------
// Quoted text
// ---------------------------------------------------------------------------

/// `body` can stand between single quotes: a quote in it is doubled, and a
/// backslash takes the character behind it.
pub open spec fn is_string_body(body: Seq<char>) -> bool
    decreases body.len(),
{
    ||| body.len() == 0
    ||| body[0] != '\'' && body[0] != '\\' && is_string_body(body.skip(1))
    ||| body.len() >= 2 && body[0] == '\'' && body[1] == '\'' && is_string_body(body.skip(2))
    ||| body.len() >= 2 && body[0] == '\\' && is_string_body(body.skip(2))
}

/// A string runs from its quote to the next one that is neither doubled nor
/// behind a backslash.
pub proof fn law_string_ends_at_its_quote(body: Seq<char>, rest: Seq<char>)
    requires
        is_string_body(body),
        rest.len() > 0 ==> rest[0] != '\'',
    ensures
        is_passed_over(seq!['\''] + body + seq!['\''], rest),
        scanner::literal_len(seq!['\''] + body + seq!['\''] + rest) == Some(
            body.len() as int + 2,
        ),
{
    let quote = seq!['\''];
    let front = quote + body + quote;
    let s = front + rest;
    assert(s =~= quote + body + (quote + rest));
    lemma_string_body_passed(quote, body, quote + rest);
    let end = body.len() as int + 1;
    assert(s[end] == '\'');
    if rest.len() > 0 {
        assert(s[end + 1] == rest[0]);
    }
    assert(scanner::single_quoted_close(s, end) == Some(end + 1));
    lemma_passed_over(front, rest);
}

/// A string that nothing closes runs to the end of the text.
pub proof fn law_open_string_runs_to_the_end(body: Seq<char>)
    requires
        is_string_body(body),
    ensures
        is_passed_over(seq!['\''] + body, Seq::empty()),
        scanner::literal_len(seq!['\''] + body) is None,
{
    let quote = seq!['\''];
    let none = Seq::<char>::empty();
    lemma_string_body_passed(quote, body, none);
    assert(quote + body + none =~= quote + body);
    lemma_passed_over(quote + body, none);
}

/// A string that is open before its body is open behind it.
proof fn lemma_string_body_passed(front: Seq<char>, body: Seq<char>, rest: Seq<char>)
    requires
        is_string_body(body),
    ensures
        scanner::single_quoted_close(front + body + rest, front.len() as int)
            == scanner::single_quoted_close(front + body + rest, (front + body).len() as int),
    decreases body.len(),
{
    if body.len() > 0 {
        let s = front + body + rest;
        let at = front.len() as int;
        assert(s[at] == body[0]);
        let n: int = if body[0] != '\'' && body[0] != '\\' {
            1
        } else {
            2
        };
        if n == 2 {
            assert(s[at + 1] == body[1]);
        }
        assert(front + body.take(n) + body.skip(n) + rest =~= s);
        lemma_string_body_passed(front + body.take(n), body.skip(n), rest);
    }
}

/// `body` can stand between double quotes: a quote in it is doubled.
pub open spec fn is_identifier_body(body: Seq<char>) -> bool
    decreases body.len(),
{
    ||| body.len() == 0
    ||| body[0] != '"' && is_identifier_body(body.skip(1))
    ||| body.len() >= 2 && body[0] == '"' && body[1] == '"' && is_identifier_body(body.skip(2))
}

/// A quoted identifier runs from its quote to the next one that is not doubled,
/// and a backslash in it is a character like any other.
pub proof fn law_quoted_identifier_ends_at_its_quote(body: Seq<char>, rest: Seq<char>)
    requires
        is_identifier_body(body),
        rest.len() > 0 ==> rest[0] != '"',
    ensures
        is_passed_over(seq!['"'] + body + seq!['"'], rest),
{
    let quote = seq!['"'];
    let front = quote + body + quote;
    let s = front + rest;
    assert(s =~= quote + body + (quote + rest));
    lemma_identifier_body_passed(quote, body, quote + rest);
    let end = body.len() as int + 1;
    assert(s[end] == '"');
    if rest.len() > 0 {
        assert(s[end + 1] == rest[0]);
    }
    lemma_passed_over(front, rest);
}

/// A quoted identifier that is open before its body is open behind it.
pub(crate) proof fn lemma_identifier_body_passed(front: Seq<char>, body: Seq<char>, rest: Seq<char>)
    requires
        is_identifier_body(body),
    ensures
        scanner::double_quoted_end(front + body + rest, front.len() as int)
            == scanner::double_quoted_end(front + body + rest, (front + body).len() as int),
    decreases body.len(),
{
    if body.len() > 0 {
        let s = front + body + rest;
        let at = front.len() as int;
        assert(s[at] == body[0]);
        let n: int = if body[0] != '"' {
            1
        } else {
            2
        };
        if n == 2 {
            assert(s[at + 1] == body[1]);
        }
        assert(front + body.take(n) + body.skip(n) + rest =~= s);
        lemma_identifier_body_passed(front + body.take(n), body.skip(n), rest);
    }
}

// ---------------------------------------------------------------------------
// Dollar-quoted literals
// ---------------------------------------------------------------------------

/// `tag` can name a dollar quote: it is empty, or identifier characters of which
/// the first is no digit.
pub open spec fn names_dollar_quote(tag: Seq<char>) -> bool {
    &&& forall|i: int| 0 <= i < tag.len() ==> text::is_name_char(#[trigger] tag[i])
    &&& tag.len() > 0 ==> !('0' <= tag[0] && tag[0] <= '9')
}

/// `tag` between dollar signs.
pub open spec fn delimiter(tag: Seq<char>) -> Seq<char> {
    seq!['$'] + tag + seq!['$']
}

/// `inner` between two delimiters is what the delimiters quote: none stands
/// before the second one.
pub open spec fn is_delimited(tag: Seq<char>, inner: Seq<char>) -> bool {
    &&& names_dollar_quote(tag)
    &&& forall|j: int|
        0 <= j < inner.len() ==> !#[trigger] wording::reads_at(
            inner + delimiter(tag),
            j,
            delimiter(tag),
        )
}

/// A dollar-quoted literal runs from its delimiter to the next one that is the
/// same, and requoting spells what is between as a string.
pub proof fn law_dollar_literal_ends_at_its_delimiter(
    tag: Seq<char>,
    inner: Seq<char>,
    rest: Seq<char>,
)
    requires
        is_delimited(tag, inner),
    ensures
        ({
            let literal = delimiter(tag) + inner + delimiter(tag);
            &&& scanner::regions(literal + rest) == all_quoted(literal.len()) + scanner::regions(
                rest,
            )
            &&& scanner::requoted(literal + rest) == seq!['\''] + scanner::quotes_doubled(inner)
                + seq!['\''] + scanner::requoted(rest)
            &&& scanner::has_open_dollar_literal(literal + rest)
                == scanner::has_open_dollar_literal(rest)
            &&& scanner::literal_len(literal + rest) == Some(literal.len() as int)
            &&& scanner::ends_in_line_comment(literal + rest) == scanner::ends_in_line_comment(rest)
            &&& rest.len() == 0 ==> scanner::sole_dollar_literal(literal + rest) == Some(inner)
        }),
{
    let mark = delimiter(tag);
    let literal = mark + inner + mark;
    let s = literal + rest;
    let opener = mark.len() as int;
    lemma_opener(tag, inner + mark + rest);
    assert(s =~= mark + (inner + mark + rest));
    let behind = s.skip(opener);
    assert(behind =~= inner + mark + rest);
    assert(s.take(opener) =~= mark);
    let p = text::occurrences(behind, mark);
    let close = inner.len() as int;
    assert forall|j: int| 0 <= j < close implies !#[trigger] p(j) by {
        if p(j) {
            wording::lemma_occurs_reads(behind, j, mark);
            assert forall|k: int| 0 <= k < mark.len() implies (inner + mark)[j + k]
                == #[trigger] mark[k] by {
                assert(behind[j + k] == mark[k]);
            }
            assert(wording::reads_at(inner + mark, j, mark));
        }
    }
    assert(behind.subrange(close, close + opener) =~= mark);
    text::lemma_first_is(p, 0, behind.len() as int + 1, close);
    let dollar = scanner::dollar_literal(s)->0;
    assert(dollar.closed && dollar.end == literal.len());
    assert(s.subrange(dollar.inner_start, dollar.inner_end) =~= inner);
    assert(s[0] == '$');
    assert(s.skip(literal.len() as int) =~= rest);
    scanner::lemma_lexeme_len(s);
    assert(scanner::regions(s) =~= all_quoted(literal.len()) + scanner::regions(rest));
    assert(scanner::requoted(s) =~= seq!['\''] + scanner::quotes_doubled(inner) + seq!['\'']
        + scanner::requoted(rest));
}

/// A dollar-quoted literal without its second delimiter runs to the end of the
/// text, and is open.
pub proof fn law_open_dollar_literal_runs_to_the_end(tag: Seq<char>, inner: Seq<char>)
    requires
        names_dollar_quote(tag),
        forall|j: int| !#[trigger] wording::reads_at(inner, j, delimiter(tag)),
    ensures
        scanner::has_open_dollar_literal(delimiter(tag) + inner),
        scanner::regions(delimiter(tag) + inner) == all_quoted((delimiter(tag) + inner).len()),
        scanner::requoted(delimiter(tag) + inner) == seq!['\''] + scanner::quotes_doubled(inner)
            + seq!['\''],
        scanner::literal_len(delimiter(tag) + inner) is None,
        scanner::sole_dollar_literal(delimiter(tag) + inner) is None,
{
    let mark = delimiter(tag);
    let s = mark + inner;
    let opener = mark.len() as int;
    lemma_opener(tag, inner);
    assert(s.skip(opener) =~= inner);
    assert(s.take(opener) =~= mark);
    let p = text::occurrences(inner, mark);
    assert forall|j: int| 0 <= j < inner.len() + 1 implies !#[trigger] p(j) by {
        wording::lemma_occurs_reads(inner, j, mark);
    }
    text::lemma_no_first(p, 0, inner.len() as int + 1);
    assert(s[0] == '$');
    let none = Seq::<char>::empty();
    assert(s.skip(s.len() as int) =~= none);
    scanner::lemma_regions_len(none);
    assert(scanner::regions(none) =~= Seq::<Region>::empty());
    assert(scanner::regions(s) =~= all_quoted(s.len()));
    let dollar = scanner::dollar_literal(s)->0;
    assert(s.subrange(dollar.inner_start, dollar.inner_end) =~= inner);
    assert(scanner::requoted(none) =~= none);
    assert(scanner::requoted(s) =~= seq!['\''] + scanner::quotes_doubled(inner) + seq!['\'']);
}

/// Where the tag of a dollar-quoted literal ends.
proof fn lemma_opener(tag: Seq<char>, rest: Seq<char>)
    requires
        names_dollar_quote(tag),
    ensures
        text::find_char(delimiter(tag) + rest, '$', 1) == Some(tag.len() as int + 1),
        scanner::is_tag((delimiter(tag) + rest).subrange(1, tag.len() as int + 1)),
{
    let s = delimiter(tag) + rest;
    let p = text::is_char_at(s, '$');
    let end = tag.len() as int + 1;
    assert forall|j: int| 1 <= j < end implies !#[trigger] p(j) by {
        assert(text::is_name_char(tag[j - 1]));
        assert(s[j] == tag[j - 1]);
    }
    assert(s[end] == '$');
    text::lemma_first_is(p, 1, s.len() as int, end);
    assert(s.subrange(1, end) =~= tag);
}

/// What stands up to `n` in `rest` is no tag: no dollar sign stands there, and the
/// last character is no part of an identifier.
pub open spec fn is_no_tag(rest: Seq<char>, n: int) -> bool {
    &&& 0 <= n < rest.len()
    &&& !text::is_name_char(rest[n])
    &&& forall|k: int| 0 <= k <= n ==> #[trigger] rest[k] != '$'
}

/// A dollar sign with a digit behind it is a placeholder, and one with no second
/// dollar sign behind it, or with more than an identifier between the two, opens
/// nothing: all of them are live code.
pub proof fn law_lone_dollar_sign_is_code(rest: Seq<char>, n: int)
    requires
        (rest.len() > 0 && '0' <= rest[0] && rest[0] <= '9') || is_no_tag(rest, n) || forall|i: int|
            0 <= i < rest.len() ==> #[trigger] rest[i] != '$',
    ensures
        is_code_before('$', rest),
{
    let s = seq!['$'] + rest;
    let p = text::is_char_at(s, '$');
    text::lemma_first_from(p, 1, s.len() as int);
    if let Some(tag_end) = text::find_char(s, '$', 1) {
        assert(s[tag_end] == rest[tag_end - 1]);
        let tag = s.subrange(1, tag_end);
        if is_no_tag(rest, n) {
            assert(n < tag_end - 1);
            assert(tag[n] == rest[n]);
        } else {
            assert(s[1] == rest[0]);
            assert(tag[0] == rest[0]);
        }
        assert(!scanner::is_tag(tag));
    }
    lemma_code('$', rest);
}

// ---------------------------------------------------------------------------
// Live code
// ---------------------------------------------------------------------------

/// `c` is live code where `rest` follows it, requoting copies it, it leaves no
/// dollar-quoted literal open, and it is no part of a comment.
pub open spec fn is_code_before(c: char, rest: Seq<char>) -> bool {
    &&& scanner::ends_in_line_comment(seq![c] + rest) == scanner::ends_in_line_comment(rest)
    &&& scanner::regions(seq![c] + rest) == seq![Region::Code] + scanner::regions(rest)
    &&& scanner::requoted(seq![c] + rest) == seq![c] + scanner::requoted(rest)
    &&& scanner::has_open_dollar_literal(seq![c] + rest) == scanner::has_open_dollar_literal(rest)
}

/// A character that opens nothing is live code.
proof fn lemma_code(c: char, rest: Seq<char>)
    requires
        scanner::lexeme(seq![c] + rest) is Code,
    ensures
        is_code_before(c, rest),
{
    let s = seq![c] + rest;
    scanner::lemma_lexeme_len(s);
    assert(s.skip(1) =~= rest);
    assert(s.take(1) =~= seq![c]);
    assert(scanner::regions(s) =~= seq![Region::Code] + scanner::regions(rest));
}

/// Every character is live code that opens no comment, no string, no quoted
/// identifier, and no dollar-quoted literal.
pub proof fn law_other_characters_are_code(c: char, rest: Seq<char>)
    requires
        c != '\'' && c != '"' && c != '$',
        c == '-' && rest.len() > 0 ==> rest[0] != '-',
        c == '/' && rest.len() > 0 ==> rest[0] != '*',
    ensures
        is_code_before(c, rest),
{
    let s = seq![c] + rest;
    if rest.len() > 0 {
        assert(s[1] == rest[0]);
    }
    lemma_code(c, rest);
}

/// `s` holds nothing that could open a comment, a string, a quoted identifier, or
/// a dollar-quoted literal.
pub open spec fn is_plain(s: Seq<char>) -> bool {
    forall|i: int|
        0 <= i < s.len() ==> #[trigger] s[i] != '\'' && s[i] != '"' && s[i] != '$' && s[i] != '-'
            && s[i] != '/'
}

/// A text of plain characters is live code, whatever follows it.
pub proof fn law_plain_text_is_code(s: Seq<char>, rest: Seq<char>)
    requires
        is_plain(s),
    ensures
        scanner::regions(s + rest) == splicing::all_code(s.len()) + scanner::regions(rest),
        scanner::requoted(s + rest) == s + scanner::requoted(rest),
    decreases s.len(),
{
    if s.len() == 0 {
        assert(s + rest =~= rest);
        assert(splicing::all_code(0) + scanner::regions(rest) =~= scanner::regions(rest));
        assert(s + scanner::requoted(rest) =~= scanner::requoted(rest));
    } else {
        let tail = s.drop_first();
        assert forall|i: int| 0 <= i < tail.len() implies #[trigger] tail[i] != '\'' && tail[i]
            != '"' && tail[i] != '$' && tail[i] != '-' && tail[i] != '/' by {
            assert(tail[i] == s[i + 1]);
        }
        law_plain_text_is_code(tail, rest);
        law_other_characters_are_code(s[0], tail + rest);
        assert(seq![s[0]] + (tail + rest) =~= s + rest);
        assert(scanner::regions(s + rest) =~= splicing::all_code(s.len()) + scanner::regions(
            rest,
        ));
        assert(scanner::requoted(s + rest) =~= s + scanner::requoted(rest));
    }
}

// ---------------------------------------------------------------------------
// Quotes
// ---------------------------------------------------------------------------

/// Spelling a value as a string doubles its quotes and keeps everything else, in
/// order.
pub proof fn law_quotes_are_doubled(before: Seq<char>, after: Seq<char>)
    requires
        forall|i: int| 0 <= i < before.len() ==> #[trigger] before[i] != '\'',
    ensures
        scanner::quotes_doubled(before) == before,
        scanner::quotes_doubled(before + seq!['\''] + after) == before + seq!['\'', '\'']
            + scanner::quotes_doubled(after),
        scanner::single_quoted(before) == seq!['\''] + before + seq!['\''],
    decreases before.len() + after.len(),
{
    let quote = seq!['\''];
    if before.len() > 0 {
        let init = before.drop_last();
        assert forall|i: int| 0 <= i < init.len() implies #[trigger] init[i] != '\'' by {
            assert(init[i] == before[i]);
        }
        law_quotes_are_doubled(init, Seq::empty());
        assert(before[before.len() - 1] != '\'');
        assert(init.push(before.last()) =~= before);
    } else {
        assert(scanner::quotes_doubled(before) =~= before);
    }
    assert(scanner::quotes_doubled(before) == before);
    let s = before + quote + after;
    if after.len() == 0 {
        assert(s.drop_last() =~= before);
        assert(s.last() == '\'');
        assert(scanner::quotes_doubled(s) == scanner::quotes_doubled(before) + seq!['\'', '\'']);
        assert(scanner::quotes_doubled(after) =~= Seq::<char>::empty());
        assert(scanner::quotes_doubled(s) =~= before + seq!['\'', '\''] + scanner::quotes_doubled(
            after,
        ));
    } else {
        law_quotes_are_doubled(before, after.drop_last());
        assert(s.drop_last() =~= before + quote + after.drop_last());
        assert(s.last() == after.last());
        assert(scanner::quotes_doubled(s) =~= before + seq!['\'', '\''] + scanner::quotes_doubled(
            after,
        ));
    }
}

}
