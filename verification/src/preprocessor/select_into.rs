//! SELECT INTO statements, rewritten as SET statements with a subquery.

use vstd::prelude::*;
use vstd::slice::slice_subrange;

use crate::context::PlPgSqlContext;
use crate::preprocessor::top_level;
use crate::preprocessor::PlPgSqlPreprocessor;
use crate::scanner;
use crate::text;

verus! {

// ---------------------------------------------------------------------------
// One statement
// ---------------------------------------------------------------------------

/// Where the line that holds `i` starts.
pub open spec fn line_start(s: Seq<char>, i: int) -> int
    decreases i,
{
    if i <= 0 {
        0
    } else if s[i - 1] == '\n' {
        i
    } else {
        line_start(s, i - 1)
    }
}

/// No whitespace stands at `i` in `s`.
pub open spec fn not_blank_at(s: Seq<char>) -> spec_fn(int) -> bool {
    |i: int| 0 <= i < s.len() && !text::is_whitespace_char(s[i])
}

/// The whitespace that the line which holds `i` starts with, as far as `i`.
pub open spec fn indentation(s: Seq<char>, i: int) -> Seq<char> {
    let start = line_start(s, i);
    s.subrange(start, text::or_end(text::first_from(not_blank_at(s), start, i), i))
}

/// The last semicolon in `s` from `from` on and before `to`.
pub open spec fn last_semicolon(s: Seq<char>, from: int, to: int) -> Option<int>
    decreases to - from,
{
    if to <= from {
        None
    } else if s[to - 1] == ';' {
        Some(to - 1)
    } else {
        last_semicolon(s, from, to - 1)
    }
}

/// The places that cut a SELECT INTO statement into its parts.
pub struct SelectInto {
    /// Where WITH stands, or SELECT when no WITH precedes it.
    pub start: int,
    /// Where SELECT stands.
    pub select: int,
    /// Where INTO stands.
    pub into_at: int,
    /// Where FROM stands, or without one the last semicolon behind INTO, or the
    /// end of the statement.
    pub vars_end: int,
    /// Whether there is a FROM.
    pub has_from: bool,
}

/// The parts of a statement, when it is a SELECT INTO.
///
/// The main SELECT is the first one at the top level: the bodies of common
/// table expressions sit inside parentheses, so a WITH prefix is skipped.
pub open spec fn select_into_parts(stmt: Seq<char>) -> Option<SelectInto> {
    match top_level::top_level_keyword(stmt, "SELECT"@, 0) {
        None => None,
        Some(select) => match top_level::top_level_keyword(stmt, "INTO"@, select) {
            None => None,
            Some(into_at) => {
                let from = top_level::top_level_keyword(stmt, "FROM"@, into_at);
                let vars_start = into_at + "INTO"@.len();
                let end = stmt.len() as int;
                let start = match top_level::top_level_keyword(stmt, "WITH"@, 0) {
                    Some(with_at) => if with_at < select {
                        with_at
                    } else {
                        select
                    },
                    None => select,
                };
                Some(
                    SelectInto {
                        start,
                        select,
                        into_at,
                        vars_end: text::or_end(
                            from,
                            text::or_end(last_semicolon(stmt, vars_start, end), end),
                        ),
                        has_from: from is Some,
                    },
                )
            },
        },
    }
}

/// What is selected.
pub open spec fn columns_of(stmt: Seq<char>, parts: SelectInto) -> Seq<Seq<char>> {
    top_level::list_items(
        text::trimmed(stmt.subrange(parts.select + "SELECT"@.len(), parts.into_at)),
        0,
    )
}

/// What is selected into.
pub open spec fn variables_of(stmt: Seq<char>, parts: SelectInto) -> Seq<Seq<char>> {
    top_level::list_items(
        text::trimmed(stmt.subrange(parts.into_at + "INTO"@.len(), parts.vars_end)),
        0,
    )
}

/// The statement from FROM on, without what ends it.
pub open spec fn source_of(stmt: Seq<char>, parts: SelectInto) -> Seq<char> {
    if parts.has_from {
        text::without_trailing(text::trimmed_end(stmt.skip(parts.vars_end)), ';')
    } else {
        Seq::empty()
    }
}

/// `SET variable = (...)`, with one column of the statement as a subquery that
/// gives one row. What follows a line comment starts a new line.
pub open spec fn set_statement(
    with_part: Seq<char>,
    column: Seq<char>,
    variable: Seq<char>,
    source: Seq<char>,
) -> Seq<char> {
    let query = with_part + "SELECT "@ + column + scanner::separation(column, " "@) + source;
    let written = text::trimmed_end(query);
    let limit = if text::contains_seq(text::uppercased(query), " LIMIT "@) {
        ""@
    } else {
        " LIMIT 1"@
    };
    "SET "@ + variable + " = ("@ + written + scanner::separation(written, ""@) + limit + ");"@
}

/// The SET statements of a SELECT INTO, one for each variable.
pub open spec fn set_statements(stmt: Seq<char>, parts: SelectInto) -> Seq<Seq<char>> {
    let columns = columns_of(stmt, parts);
    let variables = variables_of(stmt, parts);
    Seq::new(
        columns.len(),
        |k: int|
            set_statement(
                stmt.subrange(parts.start, parts.select),
                columns[k],
                variables[k],
                source_of(stmt, parts),
            ),
    )
}

/// A name that SET can assign to: identifier characters and dollar signs, the
/// first of them no digit, or a quoted identifier without whitespace.
pub open spec fn is_bare_name(s: Seq<char>) -> bool {
    ||| {
        &&& s.len() > 0
        &&& text::is_alphabetic_char(s[0]) || s[0] == '_' || s[0] == '$'
        &&& forall|i: int|
            0 <= i < s.len() ==> text::is_name_char(#[trigger] s[i]) || s[i] == '$'
    }
    ||| {
        &&& s.len() > 0
        &&& s[0] == '"'
        &&& scanner::double_quoted_end(s, 1) == s.len()
        &&& forall|i: int| 0 <= i < s.len() ==> !text::is_whitespace_char(#[trigger] s[i])
    }
}

/// A SELECT INTO can be spelled with SET: there are as many columns as
/// variables, at least one of each, and every variable is a bare name.
pub open spec fn has_set_spelling(stmt: Seq<char>, parts: SelectInto) -> bool {
    let variables = variables_of(stmt, parts);
    &&& columns_of(stmt, parts).len() == variables.len()
    &&& columns_of(stmt, parts).len() > 0
    &&& forall|k: int| 0 <= k < variables.len() ==> is_bare_name(#[trigger] variables[k])
}

/// A statement, with a SELECT INTO as SET statements, one to a line and indented
/// alike, and anything else unchanged.
pub open spec fn statement_rewritten(stmt: Seq<char>) -> Seq<char> {
    match select_into_parts(stmt) {
        None => stmt,
        Some(parts) => if has_set_spelling(stmt, parts) {
            stmt.take(parts.start) + text::joined(
                set_statements(stmt, parts),
                "\n"@ + indentation(stmt, parts.start),
            )
        } else {
            stmt
        },
    }
}

/// The whitespace that the line which holds `i` starts with, as far as `i`.
fn find_indentation<'a>(chars: &'a [char], i: usize) -> (indent: &'a [char])
    requires
        i <= chars@.len(),
    ensures
        indent@ == indentation(chars@, i as int),
{
    let mut start: usize = i;
    while start > 0 && chars[start - 1] != '\n'
        invariant
            start <= i <= chars@.len(),
            line_start(chars@, i as int) == line_start(chars@, start as int),
        decreases start,
    {
        start -= 1;
    }
    let ghost p = not_blank_at(chars@);
    let mut end: usize = start;
    while end < i && text::is_whitespace(chars[end])
        invariant
            start <= end <= i <= chars@.len(),
            p == not_blank_at(chars@),
            forall|j: int| start <= j < end ==> !#[trigger] p(j),
        decreases i - end,
    {
        end += 1;
    }
    proof {
        if end < i {
            text::lemma_first_is(p, start as int, i as int, end as int);
        } else {
            text::lemma_no_first(p, start as int, i as int);
        }
    }
    slice_subrange(chars, start, end)
}

/// Adds the SET statement for one column and variable to `out`.
fn push_set_statement(
    out: &mut Vec<char>,
    with_part: &[char],
    column: &[char],
    variable: &[char],
    source: &[char],
)
    ensures
        final(out)@ == old(out)@ + set_statement(with_part@, column@, variable@, source@),
{
    let mut query: Vec<char> = Vec::new();
    text::push_chars(&mut query, with_part);
    text::push_text(&mut query, "SELECT ");
    text::push_chars(&mut query, column);
    scanner::push_separation(&mut query, column, " ");
    text::push_chars(&mut query, source);
    assert(query@ =~= with_part@ + "SELECT "@ + column@ + scanner::separation(column@, " "@)
        + source@);
    let has_limit = match text::position_of_seq(
        &text::uppercase(&query),
        &text::chars_of(" LIMIT "),
    ) {
        Some(_) => true,
        None => false,
    };
    text::push_text(out, "SET ");
    text::push_chars(out, variable);
    text::push_text(out, " = (");
    let written = text::trim_end(&query);
    text::push_chars(out, written);
    scanner::push_separation(out, written, "");
    if !has_limit {
        text::push_text(out, " LIMIT 1");
    }
    text::push_text(out, ");");
    proof {
        reveal_strlit("");
        assert(out@ =~= old(out)@ + set_statement(with_part@, column@, variable@, source@));
    }
}

/// Adds the SET statements for `columns` and `variables` to `out`, a line break
/// and `indent` between each two.
fn push_set_statements(
    out: &mut Vec<char>,
    with_part: &[char],
    columns: &Vec<&[char]>,
    variables: &Vec<&[char]>,
    source: &[char],
    indent: &[char],
)
    requires
        columns@.len() == variables@.len(),
    ensures
        final(out)@ == old(out)@ + text::joined(
            Seq::new(
                columns@.len(),
                |k: int| set_statement(with_part@, columns@[k]@, variables@[k]@, source@),
            ),
            "\n"@ + indent@,
        ),
{
    let ghost sets = Seq::new(
        columns@.len(),
        |k: int| set_statement(with_part@, columns@[k]@, variables@[k]@, source@),
    );
    let ghost separator = "\n"@ + indent@;
    let mut i: usize = 0;
    assert(out@ =~= old(out)@ + text::joined(sets.take(0), separator));
    while i < columns.len()
        invariant
            columns@.len() == variables@.len(),
            sets == Seq::new(
                columns@.len(),
                |k: int| set_statement(with_part@, columns@[k]@, variables@[k]@, source@),
            ),
            separator == "\n"@ + indent@,
            i <= columns@.len(),
            out@ == old(out)@ + text::joined(sets.take(i as int), separator),
        decreases columns@.len() - i,
    {
        if i > 0 {
            text::push_text(out, "\n");
            text::push_chars(out, indent);
        }
        push_set_statement(out, with_part, columns[i], variables[i], source);
        proof {
            assert(sets.take(i + 1).drop_last() =~= sets.take(i as int));
            assert(sets.take(i + 1).last() == sets[i as int]);
            assert(out@ =~= old(out)@ + text::joined(sets.take(i + 1), separator));
        }
        i += 1;
    }
    assert(sets.take(i as int) =~= sets);
}

/// True when `chars` are a name that SET can assign to.
fn is_bare(chars: &[char]) -> (answer: bool)
    ensures
        answer == is_bare_name(chars@),
{
    if chars.len() == 0 {
        return false;
    }
    let quoted = scanner::is_quoted_identifier(chars);
    let mut plain = text::is_alphabetic(chars[0]) || chars[0] == '_' || chars[0] == '$';
    let mut spaced = false;
    let mut i: usize = 0;
    let ghost starts = plain;
    while i < chars.len()
        invariant
            i <= chars@.len(),
            plain == (starts && forall|k: int|
                0 <= k < i ==> text::is_name_char(#[trigger] chars@[k]) || chars@[k] == '$'),
            spaced == exists|k: int| 0 <= k < i && text::is_whitespace_char(#[trigger] chars@[k]),
        decreases chars@.len() - i,
    {
        if !text::is_identifier_char(chars[i]) && chars[i] != '$' {
            plain = false;
        }
        if text::is_whitespace(chars[i]) {
            spaced = true;
        }
        i += 1;
    }
    plain || (quoted && !spaced)
}

/// True when each of `items` is a bare name.
fn all_bare_names(items: &Vec<&[char]>) -> (answer: bool)
    ensures
        answer == forall|k: int|
            0 <= k < items@.len() ==> is_bare_name(#[trigger] items@[k]@),
{
    let mut i: usize = 0;
    while i < items.len()
        invariant
            i <= items@.len(),
            forall|k: int| 0 <= k < i ==> is_bare_name(#[trigger] items@[k]@),
        decreases items@.len() - i,
    {
        if !is_bare(items[i]) {
            return false;
        }
        i += 1;
    }
    true
}

/// The keywords of a SELECT INTO statement are words, of known length.
proof fn lemma_select_into_words()
    ensures
        "SELECT"@.len() == 6,
        "INTO"@.len() == 4,
        forall|k: int|
            0 <= k < "SELECT"@.len() ==> top_level::is_plain_word_char(#[trigger] "SELECT"@[k]),
        forall|k: int|
            0 <= k < "INTO"@.len() ==> top_level::is_plain_word_char(#[trigger] "INTO"@[k]),
        "SELECT"@[0] == 'S',
        "INTO"@[0] == 'I',
        "FROM"@.len() == 4,
        "FROM"@[0] == 'F',
{
    reveal_strlit("SELECT");
    reveal_strlit("INTO");
    reveal_strlit("FROM");
}

/// The last semicolon lies where it is looked for.
proof fn lemma_last_semicolon(s: Seq<char>, from: int, to: int)
    ensures
        last_semicolon(s, from, to) matches Some(i) ==> from <= i < to,
    decreases to - from,
{
    if from < to {
        lemma_last_semicolon(s, from, to - 1);
    }
}

/// Where the last semicolon from `from` on stands, or the end of `chars`.
fn find_last_semicolon(chars: &[char], from: usize) -> (end: usize)
    requires
        from <= chars@.len(),
    ensures
        end == text::or_end(
            last_semicolon(chars@, from as int, chars@.len() as int),
            chars@.len() as int,
        ),
        from <= end <= chars@.len(),
{
    let mut to: usize = chars.len();
    while to > from
        invariant
            from <= to <= chars@.len(),
            last_semicolon(chars@, from as int, chars@.len() as int) == last_semicolon(
                chars@,
                from as int,
                to as int,
            ),
        decreases to,
    {
        if chars[to - 1] == ';' {
            return to - 1;
        }
        to -= 1;
    }
    chars.len()
}

/// The parts of a SELECT INTO statement follow each other.
proof fn lemma_parts_in_order(stmt: Seq<char>)
    ensures
        select_into_parts(stmt) matches Some(parts) ==> 0 <= parts.start <= parts.select
            && parts.select + "SELECT"@.len() <= parts.into_at && parts.into_at + "INTO"@.len()
            <= parts.vars_end <= stmt.len(),
{
    lemma_select_into_words();
    let end = stmt.len() as int;
    text::lemma_first_from(top_level::top_level_keywords(stmt, "SELECT"@), 0, end);
    text::lemma_first_from(top_level::top_level_keywords(stmt, "WITH"@), 0, end);
    if let Some(select) = top_level::top_level_keyword(stmt, "SELECT"@, 0) {
        text::lemma_first_from(top_level::top_level_keywords(stmt, "INTO"@), select, end);
        if let Some(into_at) = top_level::top_level_keyword(stmt, "INTO"@, select) {
            if into_at == select {
                let letter = stmt.subrange(select, select + 4)[0];
                assert(stmt.subrange(select, select + 6)[0] == letter);
                assert(text::ascii_lower(letter) == 's');
                assert(text::ascii_lower(letter) == 'i');
            }
            top_level::lemma_top_level_keywords_apart(stmt, "SELECT"@, select, "INTO"@, into_at);
            lemma_last_semicolon(stmt, into_at + 4, end);
            text::lemma_first_from(top_level::top_level_keywords(stmt, "FROM"@), into_at, end);
            if let Some(from) = top_level::top_level_keyword(stmt, "FROM"@, into_at) {
                if from == into_at {
                    let letter = stmt.subrange(from, from + 4)[0];
                    assert(text::ascii_lower(letter) == 'i');
                    assert(text::ascii_lower(letter) == 'f');
                }
                top_level::lemma_top_level_keywords_apart(stmt, "INTO"@, into_at, "FROM"@, from);
            }
        }
    }
}

impl PlPgSqlPreprocessor {
    /// Tries to transform a single SELECT INTO statement.
    ///
    /// Handled shapes, each with an optional leading `WITH` clause that moves
    /// inside the generated subquery, since `SET` has no place for it:
    ///
    /// - `SELECT <exprs> INTO <vars> FROM ...` becomes one `SET var = (SELECT
    ///   expr FROM ... LIMIT 1);` per variable.
    /// - `SELECT <exprs> INTO <vars>;` with no FROM clause, the plpgsql
    ///   spelling of `var := expr`, becomes `SET var = (SELECT expr LIMIT 1);`.
    ///
    /// Keywords are located at the top nesting level only, outside strings and
    /// parentheses, so a CTE body's own SELECT or FROM never splits the
    /// statement. Anything left untransformed keeps its INTO and is refused
    /// loudly by the trigger body translator rather than emitted.
    fn try_transform_select_into_stmt(stmt: &[char]) -> (rewritten: Vec<char>)
        ensures
            rewritten@ == statement_rewritten(stmt@),
    {
        let ghost parts = select_into_parts(stmt@);
        let mut rewritten: Vec<char> = Vec::new();
        proof {
            lemma_select_into_words();
            lemma_parts_in_order(stmt@);
        }
        let select = match top_level::top_level_position(stmt, "SELECT", 0) {
            Some(select) => select,
            None => {
                text::push_chars(&mut rewritten, stmt);
                return rewritten;
            },
        };
        let into_at = match top_level::top_level_position(stmt, "INTO", select) {
            Some(into_at) => into_at,
            None => {
                text::push_chars(&mut rewritten, stmt);
                return rewritten;
            },
        };
        let from = top_level::top_level_position(stmt, "FROM", into_at);
        let start = match top_level::top_level_position(stmt, "WITH", 0) {
            Some(with_at) if with_at < select => with_at,
            _ => select,
        };
        assert(into_at + 4 <= stmt.len());
        let (vars_end, source): (usize, &[char]) = match from {
            Some(from) => {
                let rest = slice_subrange(stmt, from, stmt.len());
                assert(rest@ == stmt@.skip(from as int));
                (from, text::trim_end_char(text::trim_end(rest), ';'))
            },
            None => (find_last_semicolon(stmt, into_at + 4), slice_subrange(stmt, 0, 0)),
        };
        assert(parts == Some(
            SelectInto {
                start: start as int,
                select: select as int,
                into_at: into_at as int,
                vars_end: vars_end as int,
                has_from: from is Some,
            },
        ));
        assert(source@ == source_of(stmt@, parts->0));
        let columns = top_level::split_list(text::trim(slice_subrange(stmt, select + 6, into_at)));
        let variables = top_level::split_list(
            text::trim(slice_subrange(stmt, into_at + 4, vars_end)),
        );
        assert(forall|k: int|
            0 <= k < variables@.len() ==> #[trigger] variables@[k]@ == variables_of(
                stmt@,
                parts->0,
            )[k]);
        if columns.len() != variables.len() || columns.len() == 0 || !all_bare_names(&variables) {
            text::push_chars(&mut rewritten, stmt);
            return rewritten;
        }
        let with_part = slice_subrange(stmt, start, select);
        let indent = find_indentation(stmt, start);
        text::push_chars(&mut rewritten, slice_subrange(stmt, 0, start));
        push_set_statements(&mut rewritten, with_part, &columns, &variables, source, indent);
        proof {
            assert(stmt@.subrange(0, start as int) == stmt@.take(start as int));
            assert(Seq::new(
                columns@.len(),
                |k: int| set_statement(with_part@, columns@[k]@, variables@[k]@, source@),
            ) =~= set_statements(stmt@, parts->0)) by {
                assert(forall|k: int|
                    0 <= k < columns@.len() ==> #[trigger] columns@[k]@ == columns_of(
                        stmt@,
                        parts->0,
                    )[k]);
            }
        }
        rewritten
    }
}

// ---------------------------------------------------------------------------
// A body
// ---------------------------------------------------------------------------

/// `s` from `from` on, with every SELECT INTO statement as SET statements. What
/// follows the last semicolon is left as it is.
pub open spec fn select_into_rewritten(s: Seq<char>, from: int) -> Seq<char>
    decreases s.len() - from,
{
    match scanner::find_live_char(s, ';', from) {
        Some(end) => {
            proof {
                text::lemma_first_from(scanner::live_char(s, ';'), from, s.len() as int);
            }
            statement_rewritten(s.subrange(from, end + 1)) + select_into_rewritten(s, end + 1)
        },
        None => s.skip(from),
    }
}

impl PlPgSqlPreprocessor {
    /// Transforms SELECT ... INTO var1, var2 FROM ... statements.
    ///
    /// PL/pgSQL: SELECT col1, col2 INTO v1, v2 FROM table WHERE ...
    /// We convert this to a form that records the bindings and removes the INTO
    /// clause since `SQLite` doesn't support SELECT INTO in triggers.
    pub fn transform_select_into(body: &str, _context: &PlPgSqlContext) -> (rewritten: String)
        ensures
            rewritten@ == select_into_rewritten(body@, 0),
    {
        let chars = text::chars_of(body);
        let mut out: Vec<char> = Vec::new();
        let mut start: usize = 0;
        assert(out@ + select_into_rewritten(body@, 0) =~= select_into_rewritten(body@, 0));
        loop
            invariant
                chars@ == body@,
                start <= chars@.len(),
                out@ + select_into_rewritten(body@, start as int) == select_into_rewritten(
                    body@,
                    0,
                ),
            decreases chars@.len() - start,
        {
            let ghost done = out@;
            proof {
                text::lemma_first_from(
                    scanner::live_char(body@, ';'),
                    start as int,
                    body@.len() as int,
                );
            }
            match scanner::live_position_of(&chars, ';', start) {
                Some(end) => {
                    assert(end < chars.len());
                    let next = end + 1;
                    let stmt = slice_subrange(&chars, start, next);
                    let rewritten = Self::try_transform_select_into_stmt(stmt);
                    text::push_chars(&mut out, &rewritten);
                    assert(done + (rewritten@ + select_into_rewritten(body@, next as int)) =~= done
                        + rewritten@ + select_into_rewritten(body@, next as int));
                    start = next;
                },
                None => {
                    let tail = slice_subrange(&chars, start, chars.len());
                    assert(tail@ == chars@.skip(start as int));
                    text::push_chars(&mut out, tail);
                    return text::string_of(&out);
                },
            }
        }
    }
}

}
