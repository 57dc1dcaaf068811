//! Laws of SELECT INTO statements.

use vstd::prelude::*;

use crate::laws::lexing;
use crate::laws::searching;
use crate::laws::wording;
use crate::preprocessor::select_into;
use crate::preprocessor::top_level;
use crate::scanner;
use crate::text;

verus! {

// ---------------------------------------------------------------------------
// Targets
// ---------------------------------------------------------------------------

/// An identifier of letters, digits, underscores, and dollar signs can be set, and
/// so can a quoted one without whitespace.
pub proof fn law_identifiers_can_be_set(name: Seq<char>, body: Seq<char>)
    requires
        name.len() > 0,
        forall|i: int|
            0 <= i < name.len() ==> searching::extends_word(#[trigger] name[i]) || name[i] == '$',
        !('0' <= name[0] && name[0] <= '9'),
        lexing::is_identifier_body(body),
        forall|i: int| 0 <= i < body.len() ==> !text::is_whitespace_char(#[trigger] body[i]),
    ensures
        select_into::is_bare_name(name),
        select_into::is_bare_name(seq!['"'] + body + seq!['"']),
{
    assert(searching::extends_word(name[0]) || name[0] == '$');
    assert forall|i: int| 0 <= i < name.len() implies text::is_name_char(#[trigger] name[i])
        || name[i] == '$' by {
        assert(searching::extends_word(name[i]) || name[i] == '$');
    }
    let quote = seq!['"'];
    let quoted = quote + body + quote;
    lexing::lemma_identifier_body_passed(quote, body, quote);
    assert(scanner::double_quoted_end(quoted, body.len() as int + 1) == quoted.len());
    assert forall|i: int| 0 <= i < quoted.len() implies !text::is_whitespace_char(
        #[trigger] quoted[i],
    ) by {
        if 0 < i < quoted.len() - 1 {
            assert(quoted[i] == body[i - 1]);
        }
    }
}

/// Nothing with whitespace in quotes can be set, and without quotes nothing but
/// identifier characters and dollar signs: no field of a record, no element of an
/// array, and nothing that starts with a digit.
pub proof fn law_other_targets_cannot_be_set(target: Seq<char>, i: int)
    requires
        0 <= i < target.len(),
        (target[0] == '"' && text::is_whitespace_char(target[i])) || (target[0] != '"' && target[i]
            != '$' && !text::is_name_char(target[i])) || ('0' <= target[0] && target[0] <= '9'),
    ensures
        !select_into::is_bare_name(target),
{
    if select_into::is_bare_name(target) {
        assert(text::is_name_char(target[i]) || target[i] == '$' || !text::is_whitespace_char(
            target[i],
        ));
        if target[0] == '"' {
            assert(!text::is_name_char(target[0]) && target[0] != '$');
        }
    }
}

// ---------------------------------------------------------------------------
// One SET statement
// ---------------------------------------------------------------------------

/// `LIMIT` stands in `query` in any case, with a space on both sides.
pub open spec fn has_limit(query: Seq<char>) -> bool {
    exists|i: int| #[trigger] wording::reads_at(text::uppercased(query), i, " LIMIT "@)
}

/// What is written between `s` and code behind it: a new line when `s` ends in a
/// line comment, and `otherwise` when it does not.
pub open spec fn parted(s: Seq<char>, otherwise: Seq<char>) -> Seq<char> {
    if scanner::ends_in_line_comment(s) {
        seq!['\n']
    } else {
        otherwise
    }
}

/// The SET statement of a variable reads its column from all of the source, takes
/// one row unless the source is limited as it is, and comments nothing out.
pub proof fn law_set_statement_reads_all_of_its_source(
    with_part: Seq<char>,
    column: Seq<char>,
    variable: Seq<char>,
    source: Seq<char>,
    gap: Seq<char>,
)
    requires
        source.len() > 0,
        !text::is_whitespace_char(source.last()),
        wording::is_blank(gap),
    ensures
        ({
            let query = with_part + "SELECT "@ + column + parted(column, seq![' ']) + source;
            select_into::set_statement(with_part, column, variable, source + gap) == "SET "@
                + variable + " = ("@ + query + parted(query, seq![]) + (if has_limit(
                query + gap,
            ) {
                seq![]
            } else {
                " LIMIT 1"@
            }) + ");"@
        }),
{
    lemma_parted(column, " "@, seq![' ']);
    let query = with_part + "SELECT "@ + column + parted(column, seq![' ']) + source;
    lemma_parted(query, ""@, seq![]);
    let spaced = with_part + "SELECT "@ + column + scanner::separation(column, " "@) + (source
        + gap);
    assert(spaced =~= query + gap);
    assert(query.last() == source.last());
    wording::lemma_blank_after(query, gap);
    wording::law_contained_text_stands_somewhere(text::uppercased(spaced), " LIMIT "@);
    reveal_strlit("");
    assert(""@ =~= Seq::<char>::empty());
}

/// A SELECT INTO without a source is an assignment: its SET statement reads the
/// column alone.
pub proof fn law_set_statement_without_a_source(
    with_part: Seq<char>,
    column: Seq<char>,
    variable: Seq<char>,
)
    requires
        column.len() > 0,
        !text::is_whitespace_char(column.last()),
    ensures
        ({
            let query = with_part + "SELECT "@ + column;
            select_into::set_statement(with_part, column, variable, Seq::empty()) == "SET "@
                + variable + " = ("@ + query + parted(query, seq![]) + (if has_limit(
                query + parted(column, seq![' ']),
            ) {
                seq![]
            } else {
                " LIMIT 1"@
            }) + ");"@
        }),
{
    lemma_parted(column, " "@, seq![' ']);
    let query = with_part + "SELECT "@ + column;
    lemma_parted(query, ""@, seq![]);
    let gap = parted(column, seq![' ']);
    let spaced = query + gap;
    assert(with_part + "SELECT "@ + column + scanner::separation(column, " "@)
        + Seq::<char>::empty() =~= spaced);
    assert(query.last() == column.last());
    wording::lemma_blank_after(query, gap);
    wording::law_contained_text_stands_somewhere(text::uppercased(spaced), " LIMIT "@);
    reveal_strlit("");
    assert(""@ =~= Seq::<char>::empty());
}

/// What parts two texts, spelled character by character.
proof fn lemma_parted(s: Seq<char>, literal: Seq<char>, otherwise: Seq<char>)
    requires
        literal == " "@ && otherwise == seq![' '] || literal == ""@ && otherwise
            == Seq::<char>::empty(),
    ensures
        scanner::separation(s, literal) == parted(s, otherwise),
{
    reveal_strlit("\n");
    reveal_strlit(" ");
    reveal_strlit("");
    assert("\n"@ =~= seq!['\n']);
    assert(" "@ =~= seq![' ']);
    assert(""@ =~= Seq::<char>::empty());
}

// ---------------------------------------------------------------------------
// One statement
// ---------------------------------------------------------------------------

/// The first `keyword` at the top level of `stmt` from `from` on stands at `i`,
/// which is the end of the statement when there is none.
pub open spec fn is_first_keyword(stmt: Seq<char>, keyword: Seq<char>, from: int, i: int) -> bool {
    &&& from <= i <= stmt.len()
    &&& i < stmt.len() ==> top_level::top_level_keyword_at(stmt, keyword, i)
    &&& forall|j: int|
        from <= j < i ==> !#[trigger] top_level::top_level_keyword_at(stmt, keyword, j)
}

/// A search for a keyword gives the first one.
proof fn lemma_first_keyword(stmt: Seq<char>, keyword: Seq<char>, from: int, i: int)
    requires
        is_first_keyword(stmt, keyword, from, i),
    ensures
        top_level::top_level_keyword(stmt, keyword, from) == (if i < stmt.len() {
            Some(i)
        } else {
            None
        }),
{
    let p = top_level::top_level_keywords(stmt, keyword);
    assert forall|j: int| from <= j < i implies !#[trigger] p(j) by {
        assert(!top_level::top_level_keyword_at(stmt, keyword, j));
    }
    if i < stmt.len() {
        text::lemma_first_is(p, from, stmt.len() as int, i);
    } else {
        text::lemma_no_first(p, from, stmt.len() as int);
    }
}

/// Where the keywords of a SELECT INTO statement stand: the first SELECT, a WITH
/// before it if there is one, and the first INTO behind it.
pub open spec fn is_select_into(stmt: Seq<char>, start: int, select: int, into_at: int) -> bool {
    &&& 0 <= start <= select < into_at < stmt.len()
    &&& is_first_keyword(stmt, "SELECT"@, 0, select)
    &&& is_first_keyword(stmt, "INTO"@, select, into_at)
    &&& start < select ==> is_first_keyword(stmt, "WITH"@, 0, start)
    &&& start == select ==> forall|j: int|
        0 <= j < select ==> !#[trigger] top_level::top_level_keyword_at(stmt, "WITH"@, j)
}

/// `indent` is the whitespace that the line which holds `at` starts with.
pub open spec fn is_indentation(
    s: Seq<char>,
    at: int,
    lines: Seq<char>,
    indent: Seq<char>,
    rest: Seq<char>,
) -> bool {
    &&& 0 <= at <= s.len()
    &&& s.take(at) == lines + indent + rest
    &&& lines.len() > 0 ==> lines.last() == '\n'
    &&& forall|i: int|
        0 <= i < indent.len() ==> text::is_whitespace_char(#[trigger] indent[i]) && indent[i]
            != '\n'
    &&& forall|i: int| 0 <= i < rest.len() ==> #[trigger] rest[i] != '\n'
    &&& rest.len() > 0 ==> !text::is_whitespace_char(rest[0])
}

/// The SET statements of a SELECT INTO are indented as its line is.
proof fn lemma_indentation(
    s: Seq<char>,
    at: int,
    lines: Seq<char>,
    indent: Seq<char>,
    rest: Seq<char>,
)
    requires
        is_indentation(s, at, lines, indent, rest),
    ensures
        select_into::indentation(s, at) == indent,
{
    let start = lines.len() as int;
    let end = start + indent.len();
    let front = s.take(at);
    assert(front.len() == at);
    assert(end + rest.len() == at);
    assert forall|j: int| start <= j < at implies #[trigger] s[j] != '\n' by {
        assert(s[j] == front[j]);
        if j < end {
            assert(front[j] == indent[j - start]);
        } else {
            assert(front[j] == rest[j - end]);
        }
    }
    if start > 0 {
        assert(s[start - 1] == front[start - 1]);
        assert(front[start - 1] == lines[start - 1]);
    }
    lemma_line_start(s, start, at);
    let p = select_into::not_blank_at(s);
    assert forall|j: int| start <= j < end implies !#[trigger] p(j) by {
        assert(s[j] == front[j]);
        assert(front[j] == indent[j - start]);
    }
    if end < at {
        assert(s[end] == front[end]);
        assert(front[end] == rest[0]);
        text::lemma_first_is(p, start, at, end);
    } else {
        text::lemma_no_first(p, start, at);
    }
    assert(s.subrange(start, end) =~= indent) by {
        assert forall|k: int| 0 <= k < indent.len() implies s.subrange(start, end)[k]
            == indent[k] by {
            assert(s[start + k] == front[start + k]);
        }
    }
}

/// A line starts behind the last line feed.
proof fn lemma_line_start(s: Seq<char>, start: int, at: int)
    requires
        0 <= start <= at <= s.len(),
        start > 0 ==> s[start - 1] == '\n',
        forall|j: int| start <= j < at ==> #[trigger] s[j] != '\n',
    ensures
        select_into::line_start(s, at) == start,
    decreases at - start,
{
    if start < at {
        assert(s[at - 1] != '\n');
        lemma_line_start(s, start, at - 1);
    }
}

/// A SELECT INTO becomes one SET statement for each variable, in order, each on a
/// line of its own. Every one of them reads its column from all that stands from
/// FROM to the end of the statement, but for the semicolon.
pub proof fn law_select_into_reads_all_of_its_source(
    stmt: Seq<char>,
    places: (int, int, int, int),
    source: Seq<char>,
    ending: (Seq<char>, Seq<char>, Seq<char>),
    line: (Seq<char>, Seq<char>, Seq<char>),
)
    requires
        is_select_into(stmt, places.0, places.1, places.2),
        places.3 < stmt.len(),
        is_first_keyword(stmt, "FROM"@, places.2, places.3),
        is_indentation(stmt, places.0, line.0, line.1, line.2),
        stmt.skip(places.3) == source + ending.0 + ending.1 + ending.2,
        wording::is_blank(ending.0),
        wording::is_run_of(ending.1, ';'),
        wording::is_blank(ending.2),
        ending.1.len() == 0 ==> ending.0.len() == 0,
        source.len() > 0,
        !text::is_whitespace_char(source.last()) && source.last() != ';',
    ensures
        ({
            let columns = top_level::list_items(
                text::trimmed(stmt.subrange(places.1 + 6, places.2)),
                0,
            );
            let variables = top_level::list_items(
                text::trimmed(stmt.subrange(places.2 + 4, places.3)),
                0,
            );
            select_into::statement_rewritten(stmt) == (if columns.len() == variables.len()
                && columns.len() > 0 && forall|k: int|
                0 <= k < variables.len() ==> select_into::is_bare_name(#[trigger] variables[k]) {
                stmt.take(places.0) + text::joined(
                    Seq::new(
                        columns.len(),
                        |k: int|
                            select_into::set_statement(
                                stmt.subrange(places.0, places.1),
                                columns[k],
                                variables[k],
                                source + ending.0,
                            ),
                    ),
                    "\n"@ + line.1,
                )
            } else {
                stmt
            })
        }),
{
    reveal_strlit("SELECT");
    reveal_strlit("INTO");
    let (start, select, into_at, from) = places;
    let end = stmt.len() as int;
    lemma_parts(stmt, start, select, into_at);
    lemma_first_keyword(stmt, "FROM"@, into_at, from);
    let parts = select_into::select_into_parts(stmt)->0;
    assert(parts.vars_end == from && parts.has_from);
    let spaced = source + ending.0;
    let ended = spaced + ending.1;
    if ending.1.len() > 0 {
        assert(ending.1[ending.1.len() - 1] == ';');
        assert(ended.last() == ';');
    } else {
        assert(ended =~= source);
    }
    assert(stmt.skip(from) =~= ended + ending.2);
    wording::lemma_blank_after(ended, ending.2);
    if ending.0.len() > 0 {
        assert(text::is_whitespace_char(ending.0[ending.0.len() - 1]));
        assert(spaced.last() == ending.0[ending.0.len() - 1]);
    } else {
        assert(spaced =~= source);
    }
    wording::law_a_run_is_taken_off_the_end(spaced, ending.1, ';');
    assert(select_into::source_of(stmt, parts) == spaced);
    lemma_indentation(stmt, start, line.0, line.1, line.2);
    let columns = top_level::list_items(text::trimmed(stmt.subrange(select + 6, into_at)), 0);
    let variables = top_level::list_items(text::trimmed(stmt.subrange(into_at + 4, from)), 0);
    assert(select_into::columns_of(stmt, parts) == columns);
    assert(select_into::variables_of(stmt, parts) == variables);
    assert(select_into::set_statements(stmt, parts) =~= Seq::new(
        columns.len(),
        |k: int|
            select_into::set_statement(
                stmt.subrange(start, select),
                columns[k],
                variables[k],
                spaced,
            ),
    ));
}

/// A SELECT INTO without FROM sets each variable to its column alone.
pub proof fn law_select_into_without_from(
    stmt: Seq<char>,
    places: (int, int, int),
    variables_end: int,
    line: (Seq<char>, Seq<char>, Seq<char>),
)
    requires
        is_select_into(stmt, places.0, places.1, places.2),
        is_first_keyword(stmt, "FROM"@, places.2, stmt.len() as int),
        is_indentation(stmt, places.0, line.0, line.1, line.2),
        places.2 + 4 <= variables_end <= stmt.len(),
        variables_end < stmt.len() ==> stmt[variables_end] == ';',
        variables_end == stmt.len() ==> forall|j: int|
            places.2 + 4 <= j < stmt.len() ==> #[trigger] stmt[j] != ';',
        forall|j: int| variables_end < j < stmt.len() ==> #[trigger] stmt[j] != ';',
    ensures
        ({
            let columns = top_level::list_items(
                text::trimmed(stmt.subrange(places.1 + 6, places.2)),
                0,
            );
            let variables = top_level::list_items(
                text::trimmed(stmt.subrange(places.2 + 4, variables_end)),
                0,
            );
            select_into::statement_rewritten(stmt) == (if columns.len() == variables.len()
                && columns.len() > 0 && forall|k: int|
                0 <= k < variables.len() ==> select_into::is_bare_name(#[trigger] variables[k]) {
                stmt.take(places.0) + text::joined(
                    Seq::new(
                        columns.len(),
                        |k: int|
                            select_into::set_statement(
                                stmt.subrange(places.0, places.1),
                                columns[k],
                                variables[k],
                                Seq::empty(),
                            ),
                    ),
                    "\n"@ + line.1,
                )
            } else {
                stmt
            })
        }),
{
    reveal_strlit("SELECT");
    reveal_strlit("INTO");
    let (start, select, into_at) = places;
    let end = stmt.len() as int;
    lemma_parts(stmt, start, select, into_at);
    lemma_first_keyword(stmt, "FROM"@, into_at, end);
    lemma_last_semicolon_is(stmt, into_at + 4, end, variables_end);
    let parts = select_into::select_into_parts(stmt)->0;
    assert(parts.vars_end == variables_end && !parts.has_from);
    lemma_indentation(stmt, start, line.0, line.1, line.2);
    let columns = top_level::list_items(text::trimmed(stmt.subrange(select + 6, into_at)), 0);
    let variables = top_level::list_items(
        text::trimmed(stmt.subrange(into_at + 4, variables_end)),
        0,
    );
    assert(select_into::columns_of(stmt, parts) == columns);
    assert(select_into::variables_of(stmt, parts) == variables);
    assert(select_into::set_statements(stmt, parts) =~= Seq::new(
        columns.len(),
        |k: int|
            select_into::set_statement(
                stmt.subrange(start, select),
                columns[k],
                variables[k],
                Seq::empty(),
            ),
    ));
}

/// The last semicolon is the one with none behind it.
proof fn lemma_last_semicolon_is(s: Seq<char>, from: int, to: int, at: int)
    requires
        0 <= from <= at <= s.len(),
        from <= to <= s.len(),
        at < s.len() ==> at < to && s[at] == ';',
        at == s.len() ==> forall|j: int| from <= j < s.len() ==> #[trigger] s[j] != ';',
        forall|j: int| at < j < s.len() ==> #[trigger] s[j] != ';',
    ensures
        text::or_end(select_into::last_semicolon(s, from, to), s.len() as int) == at,
    decreases to - from,
{
    if from < to && s[to - 1] != ';' {
        lemma_last_semicolon_is(s, from, to - 1, at);
    }
}

/// The parts of a SELECT INTO statement.
proof fn lemma_parts(stmt: Seq<char>, start: int, select: int, into_at: int)
    requires
        is_select_into(stmt, start, select, into_at),
    ensures
        select_into::select_into_parts(stmt) matches Some(parts) && parts.start == start
            && parts.select == select && parts.into_at == into_at,
{
    let end = stmt.len() as int;
    lemma_first_keyword(stmt, "SELECT"@, 0, select);
    lemma_first_keyword(stmt, "INTO"@, select, into_at);
    if start < select {
        lemma_first_keyword(stmt, "WITH"@, 0, start);
    } else {
        let p = top_level::top_level_keywords(stmt, "WITH"@);
        text::lemma_first_from(p, 0, end);
        if let Some(with_at) = top_level::top_level_keyword(stmt, "WITH"@, 0) {
            if with_at < select {
                assert(!top_level::top_level_keyword_at(stmt, "WITH"@, with_at));
            }
        }
    }
}

/// A statement without a SELECT at the top level, or without an INTO behind it,
/// is left as it is.
pub proof fn law_statement_without_into_is_kept(stmt: Seq<char>, select: int)
    requires
        is_first_keyword(stmt, "SELECT"@, 0, select),
        is_first_keyword(stmt, "INTO"@, select, stmt.len() as int),
    ensures
        select_into::statement_rewritten(stmt) == stmt,
{
    lemma_first_keyword(stmt, "SELECT"@, 0, select);
    lemma_first_keyword(stmt, "INTO"@, select, stmt.len() as int);
}

// ---------------------------------------------------------------------------
// A body
// ---------------------------------------------------------------------------

/// A body is rewritten statement by statement, each with the semicolon that ends
/// it, and what no semicolon ends is left as it is.
pub proof fn law_statements_are_rewritten_one_by_one(s: Seq<char>, from: int, end: int)
    requires
        0 <= from <= end <= s.len(),
        forall|j: int| from <= j < end ==> !(#[trigger] scanner::is_live(s, j) && s[j] == ';'),
        end < s.len() ==> scanner::is_live(s, end) && s[end] == ';',
    ensures
        select_into::select_into_rewritten(s, from) == (if end < s.len() {
            select_into::statement_rewritten(s.subrange(from, end + 1))
                + select_into::select_into_rewritten(s, end + 1)
        } else {
            s.subrange(from, end)
        }),
{
    let p = scanner::live_char(s, ';');
    assert forall|j: int| from <= j < end implies !#[trigger] p(j) by {
        assert(!(scanner::is_live(s, j) && s[j] == ';'));
    }
    if end < s.len() {
        text::lemma_first_is(p, from, s.len() as int, end);
    } else {
        text::lemma_no_first(p, from, s.len() as int);
        assert(s.skip(from) =~= s.subrange(from, end));
    }
}

}
