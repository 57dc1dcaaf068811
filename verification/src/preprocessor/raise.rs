//! RAISE statements: an exception becomes `SELECT RAISE(ABORT, ...)`, and an
//! informational message is dropped.

use vstd::prelude::*;
use vstd::slice::slice_subrange;

use crate::error::{Error, ErrorView};
use crate::preprocessor;
use crate::preprocessor::PlPgSqlPreprocessor;
use crate::scanner;
use crate::text;

verus! {

// ---------------------------------------------------------------------------
// Messages
// ---------------------------------------------------------------------------

/// The length of the string literal that `s` starts with, an `E` directly before
/// a single-quoted one included.
pub open spec fn message_literal_len(s: Seq<char>) -> Option<int> {
    if s.len() >= 2 && (s[0] == 'E' || s[0] == 'e') && s[1] == '\'' {
        match scanner::literal_len(s.skip(1)) {
            Some(n) => Some(n + 1),
            None => None,
        }
    } else {
        scanner::literal_len(s)
    }
}

/// The string literal that a list of arguments starts with, or `'error'` when
/// the first argument is no string literal.
pub open spec fn first_literal(args: Seq<char>) -> Seq<char> {
    let trimmed = text::trimmed(args);
    match message_literal_len(trimmed) {
        Some(n) => trimmed.take(n),
        None => "'error'"@,
    }
}

/// The literal of `USING MESSAGE = '<literal>'`, nothing for a text that does
/// not begin with `USING`, and a refusal for any other `USING` form.
pub open spec fn using_message(content: Seq<char>) -> Result<Option<Seq<char>>, ErrorView> {
    let clause = text::trimmed_start(content);
    if !text::starts_ignoring_case(clause, "USING"@) {
        Ok(None)
    } else {
        let item = text::trimmed_start(clause.skip("USING"@.len() as int));
        let sign = text::trimmed_start(item.skip("MESSAGE"@.len() as int));
        let value = text::trimmed_start(sign.skip(1));
        if !text::starts_ignoring_case(item, "MESSAGE"@) || sign.len() == 0 || sign[0] != '=' {
            Err(ErrorView::UnsupportedRaiseUsing { clause })
        } else {
            match scanner::literal_len(value) {
                Some(n) => if text::trimmed_start(value.skip(n)).len() == 0 {
                    Ok(Some(value.take(n)))
                } else {
                    Err(ErrorView::UnsupportedRaiseUsing { clause })
                },
                None => Err(ErrorView::UnsupportedRaiseUsing { clause }),
            }
        }
    }
}

/// The message of a RAISE EXCEPTION whose arguments are `content`.
pub open spec fn exception_message(content: Seq<char>) -> Result<Seq<char>, ErrorView> {
    match using_message(content) {
        Ok(Some(literal)) => Ok(literal),
        Ok(None) => Ok(first_literal(content)),
        Err(error) => Err(error),
    }
}

/// The length of the string literal that `chars` start with, an `E` directly
/// before a single-quoted one included.
fn find_message_literal(chars: &[char]) -> (len: Option<usize>)
    ensures
        text::as_int(len) == message_literal_len(chars@),
        len matches Some(n) ==> n <= chars@.len(),
{
    if chars.len() >= 2 && (chars[0] == 'E' || chars[0] == 'e') && chars[1] == '\'' {
        let rest = slice_subrange(chars, 1, chars.len());
        assert(rest@ == chars@.skip(1));
        match scanner::leading_literal_len(rest) {
            Some(n) => {
                assert(n + 1 <= chars.len());
                Some(n + 1)
            },
            None => None,
        }
    } else {
        scanner::leading_literal_len(chars)
    }
}

/// Extracts the first string literal from a comma-separated argument list.
///
/// For `'hello', arg1, arg2` returns `'hello'`.
/// If the first argument is not a string literal, returns `'error'` as a
/// safe fallback.
fn extract_first_string_literal(args: &[char]) -> (literal: Vec<char>)
    ensures
        literal@ == first_literal(args@),
{
    let trimmed = text::trim(args);
    let mut literal: Vec<char> = Vec::new();
    match find_message_literal(trimmed) {
        Some(n) => {
            text::push_chars(&mut literal, slice_subrange(trimmed, 0, n));
        },
        None => {
            text::push_text(&mut literal, "'error'");
        },
    }
    literal
}

/// True when `chars` start with the ASCII `prefix`, ignoring case.
fn starts_with_ignoring_case(chars: &[char], prefix: &str) -> (answer: bool)
    ensures
        answer == text::starts_ignoring_case(chars@, prefix@),
        answer ==> prefix@.len() <= chars@.len(),
{
    text::is_at_ignoring_case(chars, &text::chars_of(prefix), 0)
}

/// The refusal of a USING clause.
fn unsupported(clause: &[char]) -> (error: Error)
    ensures
        error@ == (ErrorView::UnsupportedRaiseUsing { clause: clause@ }),
{
    Error::UnsupportedRaiseUsing { clause: text::string_of(clause) }
}

/// Extracts the string literal from `USING MESSAGE = '<literal>'`.
///
/// Returns `Ok(None)` when `content` does not begin with `USING`.
/// Returns `Ok(Some(literal))` for the single-item `MESSAGE = '<literal>'`
/// form. Returns [`Error::UnsupportedRaiseUsing`] for any other USING
/// form (non-literal value, unrecognised item, or multiple items).
fn extract_using_message_literal<'a>(content: &'a [char]) -> (message: Result<
    Option<&'a [char]>,
    Error,
>)
    ensures
        match message {
            Ok(Some(literal)) => using_message(content@) == Ok::<_, ErrorView>(Some(literal@)),
            Ok(None) => using_message(content@) == Ok::<_, ErrorView>(None::<Seq<char>>),
            Err(error) => using_message(content@) == Err::<Option<Seq<char>>, _>(error@),
        },
{
    proof {
        reveal_strlit("USING");
        reveal_strlit("MESSAGE");
    }
    let clause = text::trim_start(content);
    if !starts_with_ignoring_case(clause, "USING") {
        return Ok(None);
    }
    let after_using = slice_subrange(clause, 5, clause.len());
    assert(after_using@ == clause@.skip(5));
    let item = text::trim_start(after_using);
    if !starts_with_ignoring_case(item, "MESSAGE") {
        return Err(unsupported(clause));
    }
    let after_message = slice_subrange(item, 7, item.len());
    assert(after_message@ == item@.skip(7));
    let sign = text::trim_start(after_message);
    if sign.len() == 0 || sign[0] != '=' {
        return Err(unsupported(clause));
    }
    let after_sign = slice_subrange(sign, 1, sign.len());
    assert(after_sign@ == sign@.skip(1));
    let value = text::trim_start(after_sign);
    match scanner::leading_literal_len(value) {
        Some(n) => {
            let remainder = slice_subrange(value, n, value.len());
            assert(remainder@ == value@.skip(n as int));
            if text::trim_start(remainder).len() > 0 {
                return Err(unsupported(clause));
            }
            let literal = slice_subrange(value, 0, n);
            assert(literal@ == value@.take(n as int));
            Ok(Some(literal))
        },
        None => Err(unsupported(clause)),
    }
}

/// The message of a RAISE EXCEPTION whose arguments are `content`.
fn extract_message(content: &[char]) -> (message: Result<Vec<char>, Error>)
    ensures
        match message {
            Ok(literal) => exception_message(content@) == Ok::<_, ErrorView>(literal@),
            Err(error) => exception_message(content@) == Err::<Seq<char>, _>(error@),
        },
{
    match extract_using_message_literal(content) {
        Ok(Some(literal)) => {
            let mut message: Vec<char> = Vec::new();
            text::push_chars(&mut message, literal);
            Ok(message)
        },
        Ok(None) => Ok(extract_first_string_literal(content)),
        Err(error) => Err(error),
    }
}

// ---------------------------------------------------------------------------
// Levels
// ---------------------------------------------------------------------------

/// The level that follows RAISE.
pub enum Level {
    /// An exception, its keyword of this length.
    Exception(int),
    /// A message that goes nowhere.
    Informational,
    /// Something else.
    Unknown,
}

/// `s` starts with the keyword of an informational level.
pub open spec fn is_informational(s: Seq<char>) -> bool {
    ||| text::starts_ignoring_case(s, "NOTICE"@)
    ||| text::starts_ignoring_case(s, "WARNING"@)
    ||| text::starts_ignoring_case(s, "INFO "@)
    ||| text::starts_ignoring_case(s, "INFO\n"@)
    ||| text::starts_ignoring_case(s, "INFO;"@)
    ||| text::starts_ignoring_case(s, "DEBUG"@)
    ||| text::starts_ignoring_case(s, "LOG"@)
}

/// The level that `s` starts with.
pub open spec fn level_of(s: Seq<char>) -> Level {
    if text::starts_ignoring_case(s, "EXCEPTION"@) {
        Level::Exception("EXCEPTION"@.len() as int)
    } else if is_informational(s) {
        Level::Informational
    } else {
        Level::Unknown
    }
}

/// The level that follows RAISE, with the length of the keyword of an exception.
enum RaiseLevel {
    Exception(usize),
    Informational,
    Unknown,
}

/// The level that `rest` starts with.
fn read_level(rest: &[char]) -> (level: RaiseLevel)
    ensures
        match level {
            RaiseLevel::Exception(n) => level_of(rest@) == Level::Exception(n as int) && n
                <= rest@.len(),
            RaiseLevel::Informational => level_of(rest@) == Level::Informational,
            RaiseLevel::Unknown => level_of(rest@) == Level::Unknown,
        },
{
    proof {
        reveal_strlit("EXCEPTION");
    }
    if starts_with_ignoring_case(rest, "EXCEPTION") {
        return RaiseLevel::Exception(9);
    }
    if starts_with_ignoring_case(rest, "NOTICE") || starts_with_ignoring_case(rest, "WARNING")
        || starts_with_ignoring_case(rest, "INFO ") || starts_with_ignoring_case(rest, "INFO\n")
        || starts_with_ignoring_case(rest, "INFO;") || starts_with_ignoring_case(rest, "DEBUG")
        || starts_with_ignoring_case(rest, "LOG") {
        return RaiseLevel::Informational;
    }
    RaiseLevel::Unknown
}

// ---------------------------------------------------------------------------
// Statements
// ---------------------------------------------------------------------------

/// Where the statement that goes on at `from` ends, its semicolon excluded.
pub open spec fn statement_end(s: Seq<char>, from: int) -> int {
    match scanner::find_live_char(s.skip(from), ';', 0) {
        Some(i) => from + i,
        None => s.len() as int,
    }
}

/// Where the statement after the one that ends at `end` starts.
pub open spec fn next_statement(s: Seq<char>, end: int) -> int {
    if end < s.len() {
        end + 1
    } else {
        s.len() as int
    }
}

/// The SQLite statement that raises `message`.
pub open spec fn abort_statement(message: Seq<char>) -> Seq<char> {
    "SELECT RAISE(ABORT, "@ + message + ");"@
}

/// `s` from `from` on, with every RAISE EXCEPTION as a statement that aborts and
/// without informational messages, or the refusal of the first USING clause
/// that does not translate.
///
/// One separator character follows RAISE, and the level follows that. A RAISE
/// with no known level is left as it is.
pub open spec fn raises_rewritten(s: Seq<char>, from: int) -> Result<Seq<char>, ErrorView>
    decreases s.len() - from,
{
    match scanner::find_live_keyword(s, "RAISE"@, from) {
        None => Ok(s.skip(from)),
        Some(raise) => {
            let level_start = raise + "RAISE"@.len() + 1;
            proof {
                text::lemma_first_from(
                    scanner::live_keywords(s, "RAISE"@),
                    from,
                    s.len() as int,
                );
                lemma_level_within(s.skip(level_start));
                lemma_statement_end(s, level_start);
            }
            if from < 0 || level_start > s.len() {
                Ok(s.skip(from))
            } else {
                match level_of(s.skip(level_start)) {
                    Level::Unknown => preprocessor::after_writing(
                        s.subrange(from, level_start),
                        raises_rewritten(s, level_start),
                    ),
                    Level::Informational => preprocessor::after_writing(
                        s.subrange(from, raise),
                        raises_rewritten(s, next_statement(s, statement_end(s, level_start))),
                    ),
                    Level::Exception(n) => {
                        let end = statement_end(s, level_start + n);
                        match exception_message(text::trimmed(s.subrange(level_start + n, end))) {
                            Ok(message) => preprocessor::after_writing(
                                s.subrange(from, raise) + abort_statement(message),
                                raises_rewritten(s, next_statement(s, end)),
                            ),
                            Err(error) => Err(error),
                        }
                    },
                }
            }
        },
    }
}

/// The keyword of a level lies within the text.
pub proof fn lemma_level_within(s: Seq<char>)
    ensures
        match level_of(s) {
            Level::Exception(n) => 0 <= n <= s.len(),
            _ => true,
        },
{
}

/// A statement ends where it goes on or later.
pub proof fn lemma_statement_end(s: Seq<char>, low: int)
    ensures
        forall|from: int|
            #![trigger statement_end(s, from)]
            low <= from <= s.len() && 0 <= from ==> from <= statement_end(s, from) <= s.len(),
{
    assert forall|from: int|
        #![trigger statement_end(s, from)]
        low <= from <= s.len() && 0 <= from implies from <= statement_end(s, from) <= s.len() by {
        let rest = s.skip(from);
        text::lemma_first_from(scanner::live_char(rest, ';'), 0, rest.len() as int);
    }
}

/// Returns the offset of the first unquoted semicolon in `chars`.
fn find_unquoted_semicolon(chars: &[char]) -> (found: Option<usize>)
    ensures
        text::as_int(found) == scanner::find_live_char(chars@, ';', 0),
        found matches Some(i) ==> i < chars@.len(),
{
    scanner::live_position_of(chars, ';', 0)
}

impl PlPgSqlPreprocessor {
    /// Rewrites RAISE statements; scans body text directly so RAISE inside
    /// IF/THEN blocks is transformed too.
    ///
    /// # Errors
    ///
    /// Returns [`Error::UnsupportedRaiseUsing`] when a RAISE EXCEPTION
    /// USING clause is present but not in the single-item `MESSAGE =
    /// '<literal>'` form that translates cleanly.
    pub fn transform_raise_statements(body: &str) -> (result: Result<String, Error>)
        ensures
            preprocessor::agrees(result, raises_rewritten(body@, 0)),
    {
        let chars = text::chars_of(body);
        let mut out: Vec<char> = Vec::new();
        let mut from: usize = 0;
        proof {
            reveal_strlit("RAISE");
            if let Ok(tail) = raises_rewritten(body@, 0) {
                assert(out@ + tail =~= tail);
            }
        }
        loop
            invariant
                chars@ == body@,
                "RAISE"@.len() == 5,
                from <= chars@.len(),
                raises_rewritten(body@, 0) == preprocessor::after_writing(
                    out@,
                    raises_rewritten(body@, from as int),
                ),
            decreases chars@.len() - from,
        {
            let ghost done = out@;
            let found = scanner::live_keyword_position(&chars, "RAISE", from);
            let raise = match found {
                Some(raise) if raise + 5 < chars.len() => raise,
                _ => {
                    let rest = slice_subrange(&chars, from, chars.len());
                    assert(rest@ == chars@.skip(from as int));
                    text::push_chars(&mut out, rest);
                    return Ok(text::string_of(&out));
                },
            };
            let level_start = raise + 6;
            let rest = slice_subrange(&chars, level_start, chars.len());
            assert(rest@ == chars@.skip(level_start as int));
            let (n, is_exception): (usize, bool) = match read_level(rest) {
                RaiseLevel::Exception(n) => (n, true),
                RaiseLevel::Informational => (0, false),
                RaiseLevel::Unknown => {
                    text::push_chars(&mut out, slice_subrange(&chars, from, level_start));
                    proof {
                        lemma_written_twice(
                            done,
                            chars@.subrange(from as int, level_start as int),
                            raises_rewritten(body@, level_start as int),
                        );
                    }
                    from = level_start;
                    continue;
                },
            };
            text::push_chars(&mut out, slice_subrange(&chars, from, raise));
            let level_end = level_start + n;
            let arguments = slice_subrange(&chars, level_end, chars.len());
            assert(arguments@ == chars@.skip(level_end as int));
            let end = match find_unquoted_semicolon(arguments) {
                Some(i) => level_end + i,
                None => chars.len(),
            };
            let next: usize = if end < chars.len() {
                end + 1
            } else {
                chars.len()
            };
            let ghost kept = chars@.subrange(from as int, raise as int);
            if is_exception {
                let content = text::trim(slice_subrange(&chars, level_end, end));
                match extract_message(content) {
                    Ok(message) => {
                        text::push_text(&mut out, "SELECT RAISE(ABORT, ");
                        text::push_chars(&mut out, &message);
                        text::push_text(&mut out, ");");
                        proof {
                            assert(out@ =~= done + (kept + abort_statement(message@)));
                            lemma_written_twice(
                                done,
                                kept + abort_statement(message@),
                                raises_rewritten(body@, next as int),
                            );
                        }
                    },
                    Err(error) => {
                        return Err(error);
                    },
                }
            } else {
                proof {
                    lemma_written_twice(done, kept, raises_rewritten(body@, next as int));
                }
            }
            from = next;
        }
    }
}

/// Writing two texts is writing the first and then the second.
proof fn lemma_written_twice(
    first: Seq<char>,
    second: Seq<char>,
    rest: Result<Seq<char>, ErrorView>,
)
    ensures
        preprocessor::after_writing(first, preprocessor::after_writing(second, rest))
            == preprocessor::after_writing(first + second, rest),
{
    if let Ok(tail) = rest {
        assert(first + (second + tail) =~= first + second + tail);
    }
}

}
