//! Laws of RAISE statements.

use vstd::prelude::*;

use crate::error::ErrorView;
use crate::laws::lexing;
use crate::laws::scanning;
use crate::laws::searching;
use crate::laws::splicing;
use crate::laws::wording;
use crate::preprocessor::raise;
use crate::scanner;
use crate::text;

verus! {

/// The only refusal of a RAISE statement is that of a USING clause, and it names
/// the clause.
pub proof fn law_raise_refusal_names_a_using_clause(s: Seq<char>, from: int)
    requires
        0 <= from <= s.len(),
    ensures
        raise::raises_rewritten(s, from) matches Err(error) ==> {
            &&& error matches ErrorView::UnsupportedRaiseUsing { clause }
            &&& text::starts_ignoring_case(clause, "USING"@)
        },
    decreases s.len() - from,
{
    text::lemma_first_from(scanner::live_keywords(s, "RAISE"@), from, s.len() as int);
    if let Some(at) = scanner::find_live_keyword(s, "RAISE"@, from) {
        let level_start = at + "RAISE"@.len() + 1;
        if level_start <= s.len() {
            raise::lemma_level_within(s.skip(level_start));
            raise::lemma_statement_end(s, level_start);
            match raise::level_of(s.skip(level_start)) {
                raise::Level::Unknown => {
                    law_raise_refusal_names_a_using_clause(s, level_start);
                },
                raise::Level::Informational => {
                    let end = raise::statement_end(s, level_start);
                    law_raise_refusal_names_a_using_clause(s, raise::next_statement(s, end));
                },
                raise::Level::Exception(n) => {
                    let end = raise::statement_end(s, level_start + n);
                    law_raise_refusal_names_a_using_clause(s, raise::next_statement(s, end));
                },
            }
        }
    }
}

/// `s` is a string literal, single-quoted or dollar-quoted, and nothing else.
pub open spec fn is_literal(s: Seq<char>) -> bool {
    scanner::literal_len(s) == Some(s.len() as int)
}

/// `s` is what an exception can raise: a string literal, or an `E` directly before
/// a single-quoted one.
pub open spec fn is_message(s: Seq<char>) -> bool {
    raise::message_literal_len(s) == Some(s.len() as int)
}

/// The literal at the front of a text is a literal by itself.
proof fn lemma_literal_alone(s: Seq<char>, n: int)
    requires
        scanner::literal_len(s) == Some(n),
    ensures
        0 <= n <= s.len(),
        is_literal(s.take(n)),
{
    splicing::lemma_literal_within(s);
    splicing::lemma_literal_local(s, s.take(n), n);
}

/// The message at the front of a text is a message by itself, and is one at the
/// front of every text that shares its characters, when no quote follows them
/// there.
proof fn lemma_message_local(s: Seq<char>, t: Seq<char>, n: int)
    requires
        raise::message_literal_len(s) == Some(n),
        splicing::same_before(s, t, n),
        splicing::no_quote_at(t, n, '\''),
    ensures
        1 < n <= s.len(),
        raise::message_literal_len(t) == Some(n),
{
    splicing::lemma_literal_within(s);
    splicing::lemma_literal_within(s.skip(1));
    if s[0] == 'E' || s[0] == 'e' {
        assert(s.skip(1)[0] == s[1]);
        assert(t[0] == s[0] && t[1] == s[1]);
        splicing::lemma_literal_local(s.skip(1), t.skip(1), n - 1);
    } else {
        assert(t[0] == s[0]);
        splicing::lemma_literal_local(s, t, n);
    }
}

/// The message of an exception is a string literal in every case.
pub proof fn law_exception_message_is_a_literal(content: Seq<char>, message: Seq<char>)
    requires
        raise::exception_message(content) == Ok::<_, ErrorView>(message),
    ensures
        is_message(message),
{
    reveal_strlit("'error'");
    reveal_with_fuel(scanner::single_quoted_close, 8);
    let clause = text::trimmed_start(content);
    let item = text::trimmed_start(clause.skip("USING"@.len() as int));
    let sign = text::trimmed_start(item.skip("MESSAGE"@.len() as int));
    let value = text::trimmed_start(sign.skip(1));
    if let Some(n) = scanner::literal_len(value) {
        lemma_literal_alone(value, n);
        splicing::lemma_literal_within(value);
        assert(value.take(n)[0] == value[0]);
    }
    let trimmed = text::trimmed(content);
    if let Some(n) = raise::message_literal_len(trimmed) {
        splicing::lemma_literal_within(trimmed);
        splicing::lemma_literal_within(trimmed.skip(1));
        lemma_message_local(trimmed, trimmed.take(n), n);
    }
}

/// `s` is whitespace throughout.
pub open spec fn is_blank(s: Seq<char>) -> bool {
    forall|i: int| 0 <= i < s.len() ==> text::is_whitespace_char(#[trigger] s[i])
}

/// Trimming removes whitespace before a text that starts with none.
proof fn lemma_blank_is_trimmed(blank: Seq<char>, rest: Seq<char>)
    requires
        is_blank(blank),
        rest.len() > 0 ==> !text::is_whitespace_char(rest[0]),
    ensures
        text::trimmed_start(blank + rest) == rest,
    decreases blank.len(),
{
    if blank.len() == 0 {
        assert(blank + rest =~= rest);
    } else {
        assert(text::is_whitespace_char(blank[0]));
        let tail = blank.drop_first();
        assert forall|i: int| 0 <= i < tail.len() implies text::is_whitespace_char(
            #[trigger] tail[i],
        ) by {
            assert(tail[i] == blank[i + 1]);
        }
        lemma_blank_is_trimmed(tail, rest);
        assert((blank + rest).drop_first() =~= tail + rest);
    }
}

/// `USING MESSAGE = '<literal>'` raises the literal, whatever case the two words
/// are in and however much whitespace stands between the parts.
pub proof fn law_using_message_is_read(
    using: Seq<char>,
    message: Seq<char>,
    literal: Seq<char>,
    blanks: (Seq<char>, Seq<char>, Seq<char>, Seq<char>),
)
    requires
        text::same_ignoring_case(using, "USING"@),
        text::same_ignoring_case(message, "MESSAGE"@),
        is_literal(literal),
        is_blank(blanks.0),
        is_blank(blanks.1),
        is_blank(blanks.2),
        is_blank(blanks.3),
    ensures
        raise::exception_message(
            using + blanks.0 + message + blanks.1 + "="@ + blanks.2 + literal + blanks.3,
        ) == Ok::<_, ErrorView>(literal),
{
    reveal_strlit("USING");
    reveal_strlit("MESSAGE");
    reveal_strlit("=");
    let content = using + blanks.0 + message + blanks.1 + "="@ + blanks.2 + literal + blanks.3;
    assert(text::ascii_lower(using[0]) == text::ascii_lower("USING"@[0]));
    assert(text::ascii_lower(message[0]) == text::ascii_lower("MESSAGE"@[0]));
    assert(content[0] == using[0]);
    assert(content.subrange(0, 5) =~= using);
    let item = message + blanks.1 + "="@ + blanks.2 + literal + blanks.3;
    assert(content.skip(5) =~= blanks.0 + item);
    assert(item[0] == message[0]);
    lemma_blank_is_trimmed(blanks.0, item);
    assert(item.subrange(0, 7) =~= message);
    let sign = "="@ + blanks.2 + literal + blanks.3;
    assert(item.skip(7) =~= blanks.1 + sign);
    assert(sign[0] == '=');
    lemma_blank_is_trimmed(blanks.1, sign);
    let tail = literal + blanks.3;
    assert(sign.skip(1) =~= blanks.2 + tail);
    splicing::lemma_literal_within(literal);
    assert(tail[0] == literal[0]);
    lemma_blank_is_trimmed(blanks.2, tail);
    let n = literal.len() as int;
    if blanks.3.len() > 0 {
        assert(text::is_whitespace_char(blanks.3[0]));
        assert(tail[n] == blanks.3[0]);
    }
    splicing::lemma_literal_local(literal, tail, n);
    assert(tail.take(n) =~= literal);
    assert(tail.skip(n) =~= blanks.3 + Seq::<char>::empty());
    lemma_blank_is_trimmed(blanks.3, Seq::empty());
}

/// The format string of a RAISE EXCEPTION is its message, and the format
/// arguments are dropped.
pub proof fn law_first_literal_is_the_message(literal: Seq<char>, arguments: Seq<char>)
    requires
        is_message(literal),
        arguments.len() > 0 ==> arguments[0] != '\'',
    ensures
        raise::exception_message(literal + arguments) == Ok::<_, ErrorView>(literal),
{
    let content = literal + arguments;
    let n = literal.len() as int;
    reveal_strlit("USING");
    lemma_message_ends(literal);
    assert(content[0] == literal[0]);
    if text::starts_ignoring_case(content, "USING"@) {
        assert(content.subrange(0, 5)[0] == content[0]);
        assert(text::ascii_lower(content.subrange(0, 5)[0]) == text::ascii_lower("USING"@[0]));
    }
    assert(content[n - 1] == literal[n - 1]);
    lemma_trimmed_end_keeps(content, n);
    let trimmed = text::trimmed(content);
    assert(splicing::same_before(literal, trimmed, n));
    if n < trimmed.len() {
        assert(trimmed[n] == arguments[0]);
    }
    lemma_message_local(literal, trimmed, n);
    assert(trimmed.take(n) =~= literal);
}

/// A message starts with a quote, a dollar sign, or an `E`, and ends in a quote
/// or a dollar sign.
proof fn lemma_message_ends(s: Seq<char>)
    requires
        is_message(s),
    ensures
        s.len() > 1,
        s[0] == '\'' || s[0] == '$' || s[0] == 'E' || s[0] == 'e',
        s.last() == '\'' || s.last() == '$',
{
    splicing::lemma_literal_within(s);
    let rest = s.skip(1);
    splicing::lemma_literal_within(rest);
    if is_literal(s) {
        lemma_literal_ends(s);
    } else {
        lemma_literal_ends(rest);
        assert(rest.last() == s.last());
    }
}

/// A literal ends in a quote or a dollar sign.
proof fn lemma_literal_ends(s: Seq<char>)
    requires
        is_literal(s),
    ensures
        s.len() > 1,
        s.last() == '\'' || s.last() == '$',
{
    splicing::lemma_literal_within(s);
    if s[0] == '\'' {
        lemma_string_ends(s, 1);
    } else {
        let tag_end = text::find_char(s, '$', 1)->0;
        text::lemma_first_from(text::is_char_at(s, '$'), 1, s.len() as int);
        let opener = tag_end + 1;
        let rest = s.skip(opener);
        let delimiter = s.take(opener);
        text::lemma_first_from(text::occurrences(rest, delimiter), 0, rest.len() as int + 1);
        let close = text::find_seq(rest, delimiter)->0;
        assert(rest.subrange(close, close + opener)[opener - 1] == delimiter[opener - 1]);
        assert(s.last() == rest[close + opener - 1]);
    }
}

/// A string that closes ends in a quote.
proof fn lemma_string_ends(s: Seq<char>, i: int)
    requires
        0 <= i,
    ensures
        scanner::single_quoted_close(s, i) matches Some(n) ==> i < n <= s.len() && s[n - 1]
            == '\'',
    decreases s.len() - i,
{
    if i < s.len() && !(s[i] == '\\' && i + 1 == s.len()) {
        if s[i] == '\\' {
            lemma_string_ends(s, i + 2);
        } else if s[i] != '\'' {
            lemma_string_ends(s, i + 1);
        } else if i + 1 < s.len() && s[i + 1] == '\'' {
            lemma_string_ends(s, i + 2);
        }
    }
}

/// Trimming the end of a text leaves a prefix that reaches at least to its last
/// character that is no whitespace.
proof fn lemma_trimmed_end_keeps(s: Seq<char>, n: int)
    requires
        0 < n <= s.len(),
        !text::is_whitespace_char(s[n - 1]),
    ensures
        n <= text::trimmed_end(s).len() <= s.len(),
        text::trimmed_end(s) == s.take(text::trimmed_end(s).len() as int),
    decreases s.len(),
{
    if text::is_whitespace_char(s.last()) {
        let init = s.drop_last();
        lemma_trimmed_end_keeps(init, n);
        let m = text::trimmed_end(s).len() as int;
        assert(init.take(m) =~= s.take(m));
    } else {
        assert(s.take(s.len() as int) =~= s);
    }
}

// ---------------------------------------------------------------------------
// Messages
// ---------------------------------------------------------------------------

/// A string, a string behind an `E`, and a dollar-quoted literal are messages.
pub proof fn law_literals_are_messages(body: Seq<char>, tag: Seq<char>, inner: Seq<char>)
    requires
        lexing::is_string_body(body),
        lexing::is_delimited(tag, inner),
    ensures
        is_message(seq!['\''] + body + seq!['\'']),
        is_message(seq!['E', '\''] + body + seq!['\'']),
        is_message(seq!['e', '\''] + body + seq!['\'']),
        is_message(lexing::delimiter(tag) + inner + lexing::delimiter(tag)),
        is_literal(seq!['\''] + body + seq!['\'']),
        is_literal(lexing::delimiter(tag) + inner + lexing::delimiter(tag)),
{
    let none = Seq::<char>::empty();
    let string = seq!['\''] + body + seq!['\''];
    lexing::law_string_ends_at_its_quote(body, none);
    assert(string + none =~= string);
    let upper = seq!['E', '\''] + body + seq!['\''];
    let lower = seq!['e', '\''] + body + seq!['\''];
    assert(upper.skip(1) =~= string);
    assert(lower.skip(1) =~= string);
    let literal = lexing::delimiter(tag) + inner + lexing::delimiter(tag);
    lexing::law_dollar_literal_ends_at_its_delimiter(tag, inner, none);
    assert(literal + none =~= literal);
    assert(literal[0] == '$');
}

/// Arguments that start with no string literal raise `'error'`.
pub proof fn law_missing_literal_raises_error(content: Seq<char>)
    requires
        wording::is_bare(content),
        !searching::spelled_at(content, "USING"@, 0),
        scanner::literal_len(content) is None,
        content.len() > 1 && (content[0] == 'E' || content[0] == 'e') && content[1] == '\''
            ==> scanner::literal_len(content.skip(1)) is None,
    ensures
        raise::exception_message(content) == Ok::<_, ErrorView>("'error'"@),
{
    let none = Seq::<char>::empty();
    wording::law_trimming_keeps_what_is_between(none, content, none);
    assert(none + content + none =~= content);
    assert(text::trimmed_start(content) == content);
}

/// Nothing but a quote or a dollar sign starts a string literal.
pub proof fn law_literal_starts_with_a_quote(s: Seq<char>)
    requires
        s.len() == 0 || (s[0] != '\'' && s[0] != '$'),
    ensures
        scanner::literal_len(s) is None,
{
    splicing::lemma_literal_within(s);
}

/// `content` is `USING MESSAGE = literal`, the words in any case and with any
/// whitespace between the parts.
pub open spec fn is_using_message(
    content: Seq<char>,
    literal: Seq<char>,
    blanks: (Seq<char>, Seq<char>, Seq<char>, Seq<char>),
) -> bool {
    let n = blanks.0.len() as int;
    &&& wording::is_blank(blanks.0)
    &&& wording::is_blank(blanks.1)
    &&& wording::is_blank(blanks.2)
    &&& wording::is_blank(blanks.3)
    &&& searching::spelled_at(content, "USING"@, 0)
    &&& searching::spelled_at(content, "MESSAGE"@, 5 + n)
    &&& content == content.take(5) + blanks.0 + content.subrange(5 + n, 12 + n) + blanks.1 + "="@
        + blanks.2 + literal + blanks.3
}

/// A USING clause that is accepted is `USING MESSAGE = literal` and raises the
/// literal, and any other is refused by name.
pub proof fn law_using_clause_is_read_or_refused(content: Seq<char>)
    requires
        wording::is_bare(content),
        searching::spelled_at(content, "USING"@, 0),
    ensures
        match raise::exception_message(content) {
            Ok(literal) => is_literal(literal) && exists|
                blanks: (Seq<char>, Seq<char>, Seq<char>, Seq<char>),
            | #[trigger]
                is_using_message(content, literal, blanks),
            Err(error) => error == (ErrorView::UnsupportedRaiseUsing { clause: content }),
        },
{
    reveal_strlit("USING");
    reveal_strlit("MESSAGE");
    reveal_strlit("=");
    let none = Seq::<char>::empty();
    assert(text::trimmed_start(content) == content);
    if let Ok(literal) = raise::exception_message(content) {
        let after_using = content.skip(5);
        let item = text::trimmed_start(after_using);
        wording::lemma_trimmed_off(after_using);
        let b0 = after_using.take(after_using.len() - item.len());
        let after_message = item.skip(7);
        let sign = text::trimmed_start(after_message);
        wording::lemma_trimmed_off(after_message);
        let b1 = after_message.take(after_message.len() - sign.len());
        let after_sign = sign.skip(1);
        let value = text::trimmed_start(after_sign);
        wording::lemma_trimmed_off(after_sign);
        let b2 = after_sign.take(after_sign.len() - value.len());
        let n = scanner::literal_len(value)->0;
        lemma_literal_alone(value, n);
        let tail = value.skip(n);
        wording::lemma_trimmed_off(tail);
        let b3 = tail.take(tail.len() - text::trimmed_start(tail).len());
        assert(b3 =~= tail);
        let k = b0.len() as int;
        assert(text::starts_ignoring_case(item, "MESSAGE"@));
        assert(content =~= content.take(5) + (b0 + item));
        assert(item =~= item.subrange(0, 7) + (b1 + sign));
        assert(sign =~= "="@ + (b2 + value));
        assert(value =~= literal + b3);
        assert(content.subrange(5 + k, 12 + k) =~= item.subrange(0, 7));
        assert(content =~= content.take(5) + b0 + content.subrange(5 + k, 12 + k) + b1 + "="@ + b2
            + literal + b3);
        assert(is_using_message(content, literal, (b0, b1, b2, b3)));
    }
}

// ---------------------------------------------------------------------------
// Statements
// ---------------------------------------------------------------------------

/// The first `RAISE` of live code in `s` from `from` on stands at `raise`, and
/// the one character of live code that parts it from what follows stands behind.
pub open spec fn is_next_raise(s: Seq<char>, from: int, raise: int) -> bool {
    &&& 0 <= from <= raise
    &&& scanner::live_keyword_at(s, "RAISE"@, raise)
    &&& forall|j: int| from <= j < raise ==> !#[trigger] scanner::live_keyword_at(s, "RAISE"@, j)
    &&& scanner::is_live(s, raise + 5)
}

/// The first semicolon of live code in `s` from `from` on stands at `end`, which
/// is the end of the text when there is none.
pub open spec fn is_statement_end(s: Seq<char>, from: int, end: int) -> bool {
    &&& from <= end <= s.len()
    &&& forall|j: int| from <= j < end ==> !(#[trigger] scanner::is_live(s, j) && s[j] == ';')
    &&& end < s.len() ==> scanner::is_live(s, end) && s[end] == ';'
}

/// The level of a message that goes nowhere stands at `i`.
pub open spec fn is_informational_at(s: Seq<char>, i: int) -> bool {
    ||| searching::spelled_at(s, "NOTICE"@, i)
    ||| searching::spelled_at(s, "WARNING"@, i)
    ||| searching::spelled_at(s, "DEBUG"@, i)
    ||| searching::spelled_at(s, "LOG"@, i)
    ||| {
        &&& searching::spelled_at(s, "INFO"@, i)
        &&& i + 4 < s.len()
        &&& s[i + 4] == ' ' || s[i + 4] == '\n' || s[i + 4] == ';'
    }
}

/// What stands at `i` in a text starts what follows there.
proof fn lemma_spelled_starts(s: Seq<char>, word: Seq<char>, i: int)
    requires
        0 <= i <= s.len(),
    ensures
        searching::spelled_at(s, word, i) == text::starts_ignoring_case(s.skip(i), word),
{
    if i + word.len() <= s.len() {
        assert(s.skip(i).subrange(0, word.len() as int) =~= s.subrange(i, i + word.len()));
    }
}

/// `INFO` counts with a separator behind it.
proof fn lemma_info_with(s: Seq<char>, i: int, word: Seq<char>, c: char)
    requires
        0 <= i <= s.len(),
        word == "INFO"@.push(c),
        !text::is_ascii_letter(c),
    ensures
        searching::spelled_at(s, word, i) == (searching::spelled_at(s, "INFO"@, i) && i + 4
            < s.len() && s[i + 4] == c),
{
    reveal_strlit("INFO");
    if i + 5 <= s.len() {
        let long = s.subrange(i, i + 5);
        let short = s.subrange(i, i + 4);
        assert forall|k: int| 0 <= k < 4 implies long[k] == short[k] && word[k] == "INFO"@[k] by {}
        assert(long[4] == s[i + 4]);
        assert(word[4] == c);
        wording::law_case_is_that_of_ascii_letters(long, word);
        wording::law_case_is_that_of_ascii_letters(short, "INFO"@);
        if searching::spelled_at(s, word, i) {
            assert(long[4] == word[4] || wording::is_other_case(long[4], word[4]));
            assert forall|k: int| 0 <= k < short.len() implies #[trigger] short[k] == "INFO"@[k]
                || wording::is_other_case(short[k], "INFO"@[k]) by {
                assert(long[k] == word[k] || wording::is_other_case(long[k], word[k]));
            }
        }
        if searching::spelled_at(s, "INFO"@, i) && s[i + 4] == c {
            assert forall|k: int| 0 <= k < long.len() implies #[trigger] long[k] == word[k]
                || wording::is_other_case(long[k], word[k]) by {
                if k < 4 {
                    assert(short[k] == "INFO"@[k] || wording::is_other_case(
                        short[k],
                        "INFO"@[k],
                    ));
                }
            }
        }
    }
}

/// A level is informational where the text says so.
proof fn lemma_informational(s: Seq<char>, i: int)
    requires
        0 <= i <= s.len(),
    ensures
        raise::is_informational(s.skip(i)) == is_informational_at(s, i),
        text::starts_ignoring_case(s.skip(i), "EXCEPTION"@) == searching::spelled_at(
            s,
            "EXCEPTION"@,
            i,
        ),
{
    reveal_strlit("INFO");
    reveal_strlit("INFO ");
    reveal_strlit("INFO\n");
    reveal_strlit("INFO;");
    lemma_spelled_starts(s, "NOTICE"@, i);
    lemma_spelled_starts(s, "WARNING"@, i);
    lemma_spelled_starts(s, "DEBUG"@, i);
    lemma_spelled_starts(s, "LOG"@, i);
    lemma_spelled_starts(s, "INFO "@, i);
    lemma_spelled_starts(s, "INFO\n"@, i);
    lemma_spelled_starts(s, "INFO;"@, i);
    lemma_spelled_starts(s, "EXCEPTION"@, i);
    assert("INFO "@ =~= "INFO"@.push(' '));
    assert("INFO\n"@ =~= "INFO"@.push('\n'));
    assert("INFO;"@ =~= "INFO"@.push(';'));
    lemma_info_with(s, i, "INFO "@, ' ');
    lemma_info_with(s, i, "INFO\n"@, '\n');
    lemma_info_with(s, i, "INFO;"@, ';');
}

/// A statement ends at its semicolon, counted in the whole text.
proof fn lemma_statement_end_at(s: Seq<char>, from: int, end: int)
    requires
        0 <= from,
        is_statement_end(s, from, end),
        scanner::regions(s.skip(from)) == scanner::regions(s).skip(from),
    ensures
        raise::statement_end(s, from) == end,
        raise::next_statement(s, end) == (if end < s.len() {
            end + 1
        } else {
            end
        }),
{
    let rest = s.skip(from);
    let p = scanner::live_char(rest, ';');
    scanner::lemma_regions_len(s);
    assert forall|j: int| 0 <= j < rest.len() implies #[trigger] p(j) == (scanner::is_live(
        s,
        from + j,
    ) && s[from + j] == ';') by {
        assert(scanner::regions(rest)[j] == scanner::regions(s)[from + j]);
    }
    assert forall|j: int| 0 <= j < end - from implies !#[trigger] p(j) by {
        assert(!(scanner::is_live(s, from + j) && s[from + j] == ';'));
    }
    if end < s.len() {
        assert(p(end - from));
        text::lemma_first_is(p, 0, rest.len() as int, end - from);
    } else {
        text::lemma_no_first(p, 0, rest.len() as int);
    }
}

/// An informational message goes nowhere: from its RAISE to its semicolon nothing
/// is written.
pub proof fn law_informational_message_is_dropped(s: Seq<char>, from: int, raise: int, end: int)
    requires
        is_next_raise(s, from, raise),
        is_informational_at(s, raise + 6),
        is_statement_end(s, raise + 6, end),
    ensures
        raise::raises_rewritten(s, from) == (match raise::raises_rewritten(
            s,
            if end < s.len() {
                end + 1
            } else {
                end
            },
        ) {
            Ok(rest) => Ok(s.subrange(from, raise) + rest),
            Err(error) => Err::<Seq<char>, ErrorView>(error),
        }),
{
    lemma_next_raise(s, from, raise);
    lemma_statement_end_at(s, raise + 6, end);
    lemma_levels_differ(s, raise + 6);
}

/// An exception becomes a statement that aborts with its message, and is refused
/// when its USING clause is.
pub proof fn law_exception_aborts(s: Seq<char>, from: int, raise: int, end: int)
    requires
        is_next_raise(s, from, raise),
        searching::spelled_at(s, "EXCEPTION"@, raise + 6),
        is_statement_end(s, raise + 15, end),
    ensures
        raise::raises_rewritten(s, from) == (match raise::exception_message(
            text::trimmed(s.subrange(raise + 15, end)),
        ) {
            Ok(message) => match raise::raises_rewritten(
                s,
                if end < s.len() {
                    end + 1
                } else {
                    end
                },
            ) {
                Ok(rest) => Ok(
                    s.subrange(from, raise) + "SELECT RAISE(ABORT, "@ + message + ");"@ + rest,
                ),
                Err(error) => Err::<Seq<char>, ErrorView>(error),
            },
            Err(error) => Err::<Seq<char>, ErrorView>(error),
        }),
{
    reveal_strlit("EXCEPTION");
    lemma_next_raise(s, from, raise);
    let level = s.subrange(raise + 6, raise + 15);
    let behind = s.skip(raise + 6);
    assert forall|k: int| 0 <= k < level.len() implies scanning::is_keyword_char(
        #[trigger] level[k],
    ) by {
        assert(text::ascii_lower(level[k]) == text::ascii_lower("EXCEPTION"@[k]));
    }
    let rest = s.skip(raise + 15);
    assert(behind =~= level + rest);
    splicing::lemma_word_is_code(level, rest);
    scanner::lemma_regions_len(s);
    assert(scanner::regions(rest) =~= scanner::regions(s).skip(raise + 15)) by {
        assert(scanner::regions(behind).skip(9) =~= scanner::regions(rest));
        assert(scanner::regions(s).skip(raise + 6).skip(9) =~= scanner::regions(s).skip(
            raise + 15,
        ));
    }
    lemma_statement_end_at(s, raise + 15, end);
    if let Ok(message) = raise::exception_message(text::trimmed(s.subrange(raise + 15, end))) {
        let next = raise::next_statement(s, end);
        if let Ok(tail) = raise::raises_rewritten(s, next) {
            assert(s.subrange(from, raise) + raise::abort_statement(message) + tail =~= s.subrange(
                from,
                raise,
            ) + "SELECT RAISE(ABORT, "@ + message + ");"@ + tail);
        }
    }
}

/// A RAISE of any other level is left as it is.
pub proof fn law_other_levels_are_kept(s: Seq<char>, from: int, raise: int)
    requires
        is_next_raise(s, from, raise),
        !searching::spelled_at(s, "EXCEPTION"@, raise + 6),
        !is_informational_at(s, raise + 6),
    ensures
        raise::raises_rewritten(s, from) == (match raise::raises_rewritten(s, raise + 6) {
            Ok(rest) => Ok(s.subrange(from, raise + 6) + rest),
            Err(error) => Err::<Seq<char>, ErrorView>(error),
        }),
{
    lemma_next_raise(s, from, raise);
}

/// A text without a RAISE in live code is left as it is.
pub proof fn law_text_without_raise_is_kept(s: Seq<char>, from: int)
    requires
        0 <= from <= s.len(),
        forall|j: int| from <= j < s.len() ==> !#[trigger] scanner::live_keyword_at(
            s,
            "RAISE"@,
            j,
        ),
    ensures
        raise::raises_rewritten(s, from) == Ok::<_, ErrorView>(
            s.subrange(from, s.len() as int),
        ),
{
    let p = scanner::live_keywords(s, "RAISE"@);
    assert forall|j: int| from <= j < s.len() implies !#[trigger] p(j) by {
        assert(!scanner::live_keyword_at(s, "RAISE"@, j));
    }
    text::lemma_no_first(p, from, s.len() as int);
    assert(s.skip(from) =~= s.subrange(from, s.len() as int));
}

/// A RAISE with nothing behind it is left as it is.
pub proof fn law_raise_at_the_end_is_kept(s: Seq<char>, from: int, raise: int)
    requires
        0 <= from <= raise,
        raise + 5 == s.len(),
        scanner::live_keyword_at(s, "RAISE"@, raise),
        forall|j: int| from <= j < raise ==> !#[trigger] scanner::live_keyword_at(
            s,
            "RAISE"@,
            j,
        ),
    ensures
        raise::raises_rewritten(s, from) == Ok::<_, ErrorView>(
            s.subrange(from, s.len() as int),
        ),
{
    reveal_strlit("RAISE");
    searching::law_search_finds_the_first(s, "RAISE"@, ';', from, raise);
    assert(s.skip(from) =~= s.subrange(from, s.len() as int));
}

/// What the next RAISE means for the search for it and for what stands behind.
proof fn lemma_next_raise(s: Seq<char>, from: int, raise: int)
    requires
        is_next_raise(s, from, raise),
    ensures
        "RAISE"@.len() == 5,
        raise + 6 <= s.len(),
        scanner::find_live_keyword(s, "RAISE"@, from) == Some(raise),
        scanner::regions(s.skip(raise + 6)) == scanner::regions(s).skip(raise + 6),
        raise::is_informational(s.skip(raise + 6)) == is_informational_at(s, raise + 6),
        text::starts_ignoring_case(s.skip(raise + 6), "EXCEPTION"@) == searching::spelled_at(
            s,
            "EXCEPTION"@,
            raise + 6,
        ),
{
    reveal_strlit("RAISE");
    searching::law_search_finds_the_first(s, "RAISE"@, ';', from, raise);
    scanning::law_rescan_from_live_code(s, raise + 5);
    lemma_informational(s, raise + 6);
}

/// No informational level is an exception.
proof fn lemma_levels_differ(s: Seq<char>, i: int)
    requires
        is_informational_at(s, i),
    ensures
        !searching::spelled_at(s, "EXCEPTION"@, i),
{
    reveal_strlit("EXCEPTION");
    reveal_strlit("NOTICE");
    reveal_strlit("WARNING");
    reveal_strlit("DEBUG");
    reveal_strlit("LOG");
    reveal_strlit("INFO");
    if searching::spelled_at(s, "EXCEPTION"@, i) {
        lemma_first_letter(s, "EXCEPTION"@, i);
        if searching::spelled_at(s, "NOTICE"@, i) {
            lemma_first_letter(s, "NOTICE"@, i);
        } else if searching::spelled_at(s, "WARNING"@, i) {
            lemma_first_letter(s, "WARNING"@, i);
        } else if searching::spelled_at(s, "DEBUG"@, i) {
            lemma_first_letter(s, "DEBUG"@, i);
        } else if searching::spelled_at(s, "LOG"@, i) {
            lemma_first_letter(s, "LOG"@, i);
        } else {
            lemma_first_letter(s, "INFO"@, i);
        }
    }
}

/// A word starts with its first letter, in some case.
proof fn lemma_first_letter(s: Seq<char>, word: Seq<char>, i: int)
    requires
        word.len() > 0,
        searching::spelled_at(s, word, i),
    ensures
        text::ascii_lower(s[i]) == text::ascii_lower(word[0]),
{
    let window = s.subrange(i, i + word.len());
    assert(window[0] == s[i]);
}

}
