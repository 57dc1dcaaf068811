//! Assignments: `name := expression` becomes `SET name = expression`, and an
//! assignment to a qualified target is refused.

use vstd::prelude::*;
use vstd::slice::slice_subrange;

use crate::context::{BindingView, PlPgSqlContext, VariableBinding};
use crate::error::{Error, ErrorView};
use crate::preprocessor;
use crate::preprocessor::PlPgSqlPreprocessor;
use crate::scanner;
use crate::scanner::Region;
use crate::text;

verus! {

// ---------------------------------------------------------------------------
// Identifiers
// ---------------------------------------------------------------------------

/// Where the identifier that ends `s` begins, or `s.len()` when `s` does not
/// end in one.
pub open spec fn identifier_start(s: Seq<char>) -> int
    decreases s.len(),
{
    if s.len() > 0 && text::is_name_char(s.last()) {
        identifier_start(s.drop_last())
    } else {
        s.len() as int
    }
}

/// No identifier character stands at `i`.
pub open spec fn not_name_char(s: Seq<char>) -> spec_fn(int) -> bool {
    |i: int| 0 <= i < s.len() && !text::is_name_char(s[i])
}

/// Where the identifier starting at `from` ends, which is `from` when none
/// starts there.
pub open spec fn name_end(s: Seq<char>, from: int) -> int {
    text::or_end(
        text::first_from(not_name_char(s), from, s.len() as int),
        s.len() as int,
    )
}

/// No ASCII whitespace stands at `i`.
pub open spec fn not_ascii_space(s: Seq<char>) -> spec_fn(int) -> bool {
    |i: int| 0 <= i < s.len() && !text::is_ascii_space(s[i])
}

/// The first place at or after `from` that is not ASCII whitespace.
pub open spec fn space_end(s: Seq<char>, from: int) -> int {
    text::or_end(
        text::first_from(not_ascii_space(s), from, s.len() as int),
        s.len() as int,
    )
}

/// `c` stands at `i` in `s`.
pub open spec fn stands_at(s: Seq<char>, c: char, i: int) -> bool {
    0 <= i < s.len() && s[i] == c
}

/// Where the identifier that ends `chars` begins, or `chars.len()` when `chars`
/// does not end in one.
fn trailing_identifier_start(chars: &[char]) -> (start: usize)
    ensures
        start == identifier_start(chars@),
        start <= chars@.len(),
{
    let mut n: usize = chars.len();
    assert(chars@.take(n as int) == chars@);
    while n > 0 && text::is_identifier_char(chars[n - 1])
        invariant
            n <= chars@.len(),
            identifier_start(chars@) == identifier_start(chars@.take(n as int)),
        decreases n,
    {
        assert(chars@.take(n as int).drop_last() == chars@.take(n - 1));
        n -= 1;
    }
    n
}

/// Where the identifier starting at `from` ends, which is `from` when none
/// starts there.
fn identifier_end(chars: &[char], from: usize) -> (end: usize)
    requires
        from <= chars@.len(),
    ensures
        end == name_end(chars@, from as int),
        from <= end <= chars@.len(),
{
    let ghost p = not_name_char(chars@);
    let mut i: usize = from;
    while i < chars.len() && text::is_identifier_char(chars[i])
        invariant
            p == not_name_char(chars@),
            from <= i <= chars@.len(),
            forall|j: int| from <= j < i ==> !#[trigger] p(j),
        decreases chars@.len() - i,
    {
        i += 1;
    }
    proof {
        if i < chars@.len() {
            text::lemma_first_is(p, from as int, chars@.len() as int, i as int);
        } else {
            text::lemma_no_first(p, from as int, chars@.len() as int);
        }
    }
    i
}

/// The first place at or after `from` that is not ASCII whitespace.
///
/// ASCII rather than Unicode whitespace, since SQL does not treat a
/// non-breaking space as a separator and neither should this.
fn skip_ascii_whitespace(chars: &[char], from: usize) -> (end: usize)
    requires
        from <= chars@.len(),
    ensures
        end == space_end(chars@, from as int),
        from <= end <= chars@.len(),
{
    let ghost p = not_ascii_space(chars@);
    let mut i: usize = from;
    while i < chars.len() && text::is_ascii_whitespace(chars[i])
        invariant
            p == not_ascii_space(chars@),
            from <= i <= chars@.len(),
            forall|j: int| from <= j < i ==> !#[trigger] p(j),
        decreases chars@.len() - i,
    {
        i += 1;
    }
    proof {
        if i < chars@.len() {
            text::lemma_first_is(p, from as int, chars@.len() as int, i as int);
        } else {
            text::lemma_no_first(p, from as int, chars@.len() as int);
        }
    }
    i
}

// ---------------------------------------------------------------------------
// Qualified targets
// ---------------------------------------------------------------------------

/// A qualified name: the qualifier and the name.
pub type QualifiedName = (Seq<char>, Seq<char>);

/// The `<qualifier>.<name>` that stands before `operator`.
pub open spec fn qualified_name_ending_at(s: Seq<char>, operator: int) -> Option<QualifiedName> {
    let before = text::trimmed_end(s.take(operator));
    let name_start = identifier_start(before);
    let name = before.skip(name_start);
    let prefix = before.take(name_start);
    if name.len() == 0 || prefix.len() == 0 || prefix.last() != '.' {
        None
    } else {
        let qualifier_text = prefix.drop_last();
        let qualifier = qualifier_text.skip(identifier_start(qualifier_text));
        if qualifier.len() == 0 {
            None
        } else {
            Some((qualifier, name))
        }
    }
}

/// The first qualified target of a `:=` in live code at or after `from`.
pub open spec fn walrus_target(s: Seq<char>, from: int) -> Option<QualifiedName>
    decreases s.len() - from,
{
    if from < 0 || from > s.len() {
        None
    } else {
        match scanner::find_live_seq(s.skip(from), ":="@) {
            None => None,
            Some(offset) => match qualified_name_ending_at(s, from + offset) {
                Some(target) => Some(target),
                None => {
                    proof {
                        lemma_walrus_within(s.skip(from));
                    }
                    walrus_target(s, from + offset + 2)
                },
            },
        }
    }
}

/// The `<qualifier>.<name>` at `from` that a lone `=` follows.
///
/// The `=` must stand alone, so `==` and the `=>` that spells a named function
/// argument are both rejected.
pub open spec fn equals_target_at(s: Seq<char>, from: int) -> Option<QualifiedName> {
    let qualifier_start = space_end(s, from);
    let qualifier_end = name_end(s, qualifier_start);
    let name_start = qualifier_end + 1;
    let end = name_end(s, name_start);
    let operator = space_end(s, end);
    if qualifier_end > qualifier_start && stands_at(s, '.', qualifier_end) && end > name_start
        && stands_at(s, '=', operator) && !stands_at(s, '=', operator + 1) && !stands_at(
        s,
        '>',
        operator + 1,
    ) {
        Some((s.subrange(qualifier_start, qualifier_end), s.subrange(name_start, end)))
    } else {
        None
    }
}

/// `keyword` stands at `i` and a statement can follow it.
pub open spec fn opens_statement(s: Seq<char>, i: int) -> Option<int> {
    if scanner::live_keyword_at(s, "BEGIN"@, i) {
        Some(i + "BEGIN"@.len())
    } else if scanner::live_keyword_at(s, "THEN"@, i) {
        Some(i + "THEN"@.len())
    } else if scanner::live_keyword_at(s, "ELSE"@, i) {
        Some(i + "ELSE"@.len())
    } else if scanner::live_keyword_at(s, "LOOP"@, i) {
        Some(i + "LOOP"@.len())
    } else {
        None
    }
}

/// The places after `BEGIN`, `THEN`, `ELSE`, and `LOOP` at or after `i`, but for
/// those inside a `CASE`, of which `case_depth` are open at `i`.
///
/// An `END` closes the innermost `CASE`, and counts for nothing without one.
pub open spec fn starts_after(s: Seq<char>, i: int, case_depth: int) -> Seq<int>
    decreases s.len() - i,
{
    if i >= s.len() {
        Seq::empty()
    } else if scanner::live_keyword_at(s, "CASE"@, i) {
        starts_after(s, i + 1, case_depth + 1)
    } else if scanner::live_keyword_at(s, "END"@, i) {
        starts_after(s, i + 1, if case_depth > 0 { case_depth - 1 } else { 0 })
    } else {
        match opens_statement(s, i) {
            Some(after) => if case_depth == 0 {
                seq![after] + starts_after(s, i + 1, case_depth)
            } else {
                starts_after(s, i + 1, case_depth)
            },
            None => starts_after(s, i + 1, case_depth),
        }
    }
}

/// The places in `s` where a plpgsql statement can begin.
pub open spec fn statement_starts(s: Seq<char>) -> Seq<int> {
    seq![0int] + starts_after(s, 0, 0)
}

/// The first qualified target of a lone `=` at one of `starts`.
pub open spec fn equals_target(s: Seq<char>, starts: Seq<int>) -> Option<QualifiedName>
    decreases starts.len(),
{
    if starts.len() == 0 {
        None
    } else {
        match equals_target_at(s, starts[0]) {
            Some(target) => Some(target),
            None => equals_target(s, starts.drop_first()),
        }
    }
}

/// The qualified target that a statement assigns to.
///
/// `:=` only ever assigns in plpgsql, so a qualified name in front of one is
/// conclusive wherever it sits. A lone `=` also compares, so it counts only
/// where a statement can start.
pub open spec fn qualified_target(s: Seq<char>) -> Option<QualifiedName> {
    match walrus_target(s, 0) {
        Some(target) => Some(target),
        None => equals_target(s, statement_starts(s)),
    }
}

/// A `:=` that is found lies within the text.
pub proof fn lemma_walrus_within(s: Seq<char>)
    ensures
        scanner::find_live_seq(s, ":="@) matches Some(i) ==> 0 <= i && i + 2 <= s.len(),
{
    reveal_strlit(":=");
    text::lemma_first_from(scanner::live_occurrence(s, ":="@), 0, s.len() as int);
}

/// Two exec names as a qualified name.
spec fn as_qualified(target: Option<(String, String)>) -> Option<QualifiedName> {
    match target {
        Some((qualifier, name)) => Some((qualifier@, name@)),
        None => None,
    }
}

/// Reads `<qualifier>.<name>` backwards from `operator`.
fn qualified_name_before(statement: &[char], operator: usize) -> (target: Option<
    (String, String),
>)
    requires
        operator <= statement@.len(),
    ensures
        as_qualified(target) == qualified_name_ending_at(statement@, operator as int),
{
    let ghost full = statement@;
    let before = text::trim_end(slice_subrange(statement, 0, operator));
    assert(full.subrange(0, operator as int) == full.take(operator as int));
    let name_start = trailing_identifier_start(before);
    let name = slice_subrange(before, name_start, before.len());
    let prefix = slice_subrange(before, 0, name_start);
    assert(name@ == before@.skip(name_start as int));
    assert(prefix@ == before@.take(name_start as int));
    if name.len() == 0 || prefix.len() == 0 || prefix[prefix.len() - 1] != '.' {
        return None;
    }
    let qualifier_text = slice_subrange(prefix, 0, prefix.len() - 1);
    assert(qualifier_text@ == prefix@.drop_last());
    let qualifier_start = trailing_identifier_start(qualifier_text);
    let qualifier = slice_subrange(qualifier_text, qualifier_start, qualifier_text.len());
    assert(qualifier@ == qualifier_text@.skip(qualifier_start as int));
    if qualifier.len() == 0 {
        return None;
    }
    Some((text::string_of(qualifier), text::string_of(name)))
}

/// The qualified target of a `:=` assignment anywhere in `statement`.
///
/// The name is read the same way the rewrite below reads it, back from the
/// operator over identifier characters, so the two agree on what the target is.
/// A named function argument also spells `:=`, but its name is never qualified,
/// so it cannot land here.
fn qualified_walrus_target(statement: &[char]) -> (target: Option<(String, String)>)
    ensures
        as_qualified(target) == walrus_target(statement@, 0),
{
    let walrus = text::chars_of(":=");
    let mut from: usize = 0;
    loop
        invariant
            walrus@ == ":="@,
            from <= statement@.len(),
            walrus_target(statement@, 0) == walrus_target(statement@, from as int),
        decreases statement@.len() - from,
    {
        let rest = slice_subrange(statement, from, statement.len());
        assert(rest@ == statement@.skip(from as int));
        proof {
            lemma_walrus_within(rest@);
        }
        match scanner::live_position_of_seq(rest, &walrus) {
            Some(offset) => {
                let operator = from + offset;
                let target = qualified_name_before(statement, operator);
                if target.is_some() {
                    return target;
                }
                from = operator + 2;
            },
            None => {
                return None;
            },
        }
    }
}

/// Reads `<qualifier>.<name>` followed by a lone `=` at `from`.
///
/// The `=` must stand alone, so `==` and the `=>` that spells a named function
/// argument are both rejected. A leading `<`, `>`, or `!` would already have
/// ended the name, so only what follows the `=` needs checking.
fn qualified_name_at_with_equals(statement: &[char], from: usize) -> (target: Option<
    (String, String),
>)
    requires
        from <= statement@.len(),
    ensures
        as_qualified(target) == equals_target_at(statement@, from as int),
{
    let qualifier_start = skip_ascii_whitespace(statement, from);
    let qualifier_end = identifier_end(statement, qualifier_start);
    if qualifier_end == qualifier_start || qualifier_end == statement.len()
        || statement[qualifier_end] != '.' {
        return None;
    }
    let name_start = qualifier_end + 1;
    let end = identifier_end(statement, name_start);
    if end == name_start {
        return None;
    }
    let operator = skip_ascii_whitespace(statement, end);
    if operator == statement.len() || statement[operator] != '=' {
        return None;
    }
    if operator + 1 < statement.len() && (statement[operator + 1] == '=' || statement[operator + 1]
        == '>') {
        return None;
    }
    Some(
        (
            text::string_of(slice_subrange(statement, qualifier_start, qualifier_end)),
            text::string_of(slice_subrange(statement, name_start, end)),
        ),
    )
}

/// Positions as mathematical integers.
spec fn as_ints(positions: Seq<usize>) -> Seq<int> {
    Seq::new(positions.len(), |i: int| positions[i] as int)
}

/// Offsets in `statement` where a plpgsql statement can begin.
fn find_statement_starts(statement: &[char]) -> (starts: Vec<usize>)
    ensures
        as_ints(starts@) == statement_starts(statement@),
        forall|i: int| 0 <= i < starts@.len() ==> #[trigger] starts@[i] <= statement@.len(),
{
    let map = scanner::classify(statement);
    let case = text::chars_of("CASE");
    let end = text::chars_of("END");
    let begin = text::chars_of("BEGIN");
    let then = text::chars_of("THEN");
    let otherwise = text::chars_of("ELSE");
    let repeat = text::chars_of("LOOP");
    let mut starts: Vec<usize> = Vec::new();
    starts.push(0);
    let mut case_depth: usize = 0;
    let mut i: usize = 0;
    assert(as_ints(starts@) =~= seq![0int]);
    while i < statement.len()
        invariant
            map@ == scanner::regions(statement@),
            map@.len() == statement@.len(),
            case@ == "CASE"@,
            end@ == "END"@,
            begin@ == "BEGIN"@,
            then@ == "THEN"@,
            otherwise@ == "ELSE"@,
            repeat@ == "LOOP"@,
            case_depth <= i <= statement@.len(),
            forall|k: int| 0 <= k < starts@.len() ==> #[trigger] starts@[k] <= statement@.len(),
            statement_starts(statement@) == as_ints(starts@) + starts_after(
                statement@,
                i as int,
                case_depth as int,
            ),
        decreases statement@.len() - i,
    {
        let ghost before = as_ints(starts@);
        let ghost depth = case_depth as int;
        if scanner::is_live_keyword_at(statement, &map, &case, i) {
            case_depth += 1;
        } else if scanner::is_live_keyword_at(statement, &map, &end, i) {
            if case_depth > 0 {
                case_depth -= 1;
            }
        } else {
            let after: Option<usize> = if scanner::is_live_keyword_at(statement, &map, &begin, i) {
                Some(i + begin.len())
            } else if scanner::is_live_keyword_at(statement, &map, &then, i) {
                Some(i + then.len())
            } else if scanner::is_live_keyword_at(statement, &map, &otherwise, i) {
                Some(i + otherwise.len())
            } else if scanner::is_live_keyword_at(statement, &map, &repeat, i) {
                Some(i + repeat.len())
            } else {
                None
            };
            if let Some(start) = after {
                if case_depth == 0 {
                    starts.push(start);
                    assert(as_ints(starts@) =~= before.push(start as int));
                    assert(before.push(start as int) + starts_after(
                        statement@,
                        i + 1,
                        depth,
                    ) =~= before + (seq![start as int] + starts_after(statement@, i + 1, depth)));
                }
            }
        }
        i += 1;
    }
    starts
}

/// The qualified target of a bare `=` assignment at a statement start.
///
/// A statement starts at the front of the chunk or just past `BEGIN`, `THEN`,
/// `ELSE`, or `LOOP`, since the caller has already split on live semicolons. A
/// `THEN` or `ELSE` inside an open `CASE` belongs to the expression rather than
/// to a branch, and skipping those is what keeps
/// `CASE WHEN c THEN t.n = 1 ELSE FALSE END` a comparison.
fn qualified_equals_target(statement: &[char]) -> (target: Option<(String, String)>)
    ensures
        as_qualified(target) == equals_target(statement@, statement_starts(statement@)),
{
    let starts = find_statement_starts(statement);
    let ghost all = statement_starts(statement@);
    let mut i: usize = 0;
    assert(all.skip(0) == all);
    while i < starts.len()
        invariant
            all == statement_starts(statement@),
            all == as_ints(starts@),
            forall|k: int| 0 <= k < starts@.len() ==> #[trigger] starts@[k] <= statement@.len(),
            i <= starts@.len(),
            equals_target(statement@, all) == equals_target(statement@, all.skip(i as int)),
        decreases starts@.len() - i,
    {
        assert(all.skip(i as int)[0] == starts@[i as int]);
        assert(all.skip(i as int).drop_first() == all.skip(i + 1));
        let target = qualified_name_at_with_equals(statement, starts[i]);
        if target.is_some() {
            return target;
        }
        i += 1;
    }
    None
}

/// The `(qualifier, name)` a statement assigns to, when its target is
/// qualified.
///
/// Two rules, because the two spellings carry different evidence. `:=` only
/// ever assigns in plpgsql, so a qualified name in front of one is conclusive
/// wherever it sits. A lone `=` also compares, so it counts only where a
/// statement can start, and no SQL statement opens with a qualified identifier.
fn qualified_assignment_target(statement: &[char]) -> (target: Option<(String, String)>)
    ensures
        as_qualified(target) == qualified_target(statement@),
{
    let target = qualified_walrus_target(statement);
    if target.is_some() {
        return target;
    }
    qualified_equals_target(statement)
}

/// The refusal of an assignment to `target`.
pub open spec fn refused_assignment(target: QualifiedName) -> ErrorView {
    ErrorView::QualifiedAssignment { qualifier: target.0, name: target.1 }
}

/// Refuses a statement that assigns to a qualified target.
fn reject_qualified_assignment(statement: &[char]) -> (verdict: Result<(), Error>)
    ensures
        match verdict {
            Ok(()) => qualified_target(statement@) is None,
            Err(error) => qualified_target(statement@) matches Some(target) && error@
                == refused_assignment(target),
        },
{
    match qualified_assignment_target(statement) {
        Some((qualifier, name)) => Err(Error::QualifiedAssignment { qualifier, name }),
        None => Ok(()),
    }
}

// ---------------------------------------------------------------------------
// Rewriting
// ---------------------------------------------------------------------------

/// A variable name: identifier characters, the first of them no digit.
pub open spec fn is_variable_name(s: Seq<char>) -> bool {
    &&& forall|i: int| 0 <= i < s.len() ==> text::is_name_char(#[trigger] s[i])
    &&& s.len() > 0
    &&& text::is_alphabetic_char(s[0]) || s[0] == '_'
}

/// The binding that `line` spells as `name := expression`, a trailing semicolon
/// aside.
pub open spec fn assignment_of(line: Seq<char>) -> Option<BindingView> {
    let stripped = text::trimmed(text::without_trailing(text::trimmed(line), ';'));
    match text::find_seq(stripped, ":="@) {
        None => None,
        Some(operator) => {
            let name = text::trimmed(stripped.take(operator));
            let expression = text::trimmed(stripped.skip(operator + 2));
            if is_variable_name(name) && expression.len() > 0 {
                Some(BindingView { name, expression })
            } else {
                None
            }
        },
    }
}

/// The last live character before `at` that is not whitespace.
pub open spec fn last_live_before(s: Seq<char>, at: int) -> Option<int>
    decreases at,
{
    if at <= 0 {
        None
    } else if scanner::is_live(s, at - 1) && !text::is_whitespace_char(s[at - 1]) {
        Some(at - 1)
    } else {
        last_live_before(s, at - 1)
    }
}

/// What a statement can follow ends at `end`: the keyword `BEGIN`, `THEN`, `ELSE`,
/// or `LOOP`, the keywords `END IF`, or the `>>` of a label.
pub open spec fn ends_opener(s: Seq<char>, end: int) -> bool {
    ||| scanner::live_keyword_at(s, "BEGIN"@, end - "BEGIN"@.len())
    ||| scanner::live_keyword_at(s, "THEN"@, end - "THEN"@.len())
    ||| scanner::live_keyword_at(s, "ELSE"@, end - "ELSE"@.len())
    ||| scanner::live_keyword_at(s, "LOOP"@, end - "LOOP"@.len())
    ||| {
        &&& scanner::live_keyword_at(s, "IF"@, end - "IF"@.len())
        &&& last_live_before(s, end - "IF"@.len()) matches Some(last)
        &&& scanner::live_keyword_at(s, "END"@, last + 1 - "END"@.len())
    }
    ||| ends_label(s, end)
}

/// The `>>` of a label ends at `end`.
pub open spec fn ends_label(s: Seq<char>, end: int) -> bool {
    &&& scanner::is_live(s, end - 2) && s[end - 2] == '>'
    &&& scanner::is_live(s, end - 1) && s[end - 1] == '>'
}

/// A statement can start at `at`: no live code stands before it, or the last of
/// it is what a statement can follow.
pub open spec fn can_start_statement(s: Seq<char>, at: int) -> bool {
    match last_live_before(s, at) {
        Some(last) => ends_opener(s, last + 1),
        None => true,
    }
}

/// What stands before the `:=` at `operator`, without whitespace at its end.
pub open spec fn before_operator(s: Seq<char>, operator: int) -> Seq<char> {
    text::trimmed_end(s.take(operator))
}

/// Where the identifier right before the `:=` at `operator` starts.
pub open spec fn target_start(s: Seq<char>, operator: int) -> int {
    identifier_start(before_operator(s, operator))
}

/// A live `:=` stands at `i`, and the identifier right before it stands where a
/// statement can start.
///
/// A named function argument also spells `:=`, and never stands there.
pub open spec fn assigns_at(s: Seq<char>) -> spec_fn(int) -> bool {
    |i: int|
        {
            &&& scanner::is_live(s, i)
            &&& text::occurs_at(s, ":="@, i)
            &&& target_start(s, i) < before_operator(s, i).len()
            &&& scanner::is_live(s, target_start(s, i))
            &&& can_start_statement(s, target_start(s, i))
        }
}

/// The `:=` of the assignment that a statement holds.
pub open spec fn assignment_operator(s: Seq<char>) -> Option<int> {
    text::first_from(assigns_at(s), 0, s.len() as int)
}

/// The assignment that a statement is: what stands ahead of the name, and the
/// name with the expression.
pub open spec fn assignment_in(s: Seq<char>) -> Option<(Seq<char>, BindingView)> {
    match assignment_operator(s) {
        None => None,
        Some(operator) => {
            let before = before_operator(s, operator);
            let name_start = target_start(s, operator);
            let line = text::trimmed(before.skip(name_start)) + " := "@ + text::trimmed(
                s.skip(operator + 2),
            );
            match assignment_of(line) {
                Some(binding) => Some((before.take(name_start), binding)),
                None => None,
            }
        },
    }
}

/// One statement, rewritten to `SET name = expr` when it is an assignment, with
/// everything ahead of the name passed through, and unchanged when it is not.
pub open spec fn assignment_rewritten(s: Seq<char>) -> Seq<char> {
    match assignment_in(s) {
        None => s,
        Some((prefix, binding)) => prefix + "SET "@ + binding.name + " = "@ + binding.expression,
    }
}

/// One statement that a semicolon follows, rewritten: an expression that ends in
/// a line comment also keeps the semicolon out of the comment.
pub open spec fn assignment_closed(s: Seq<char>) -> Seq<char> {
    match assignment_in(s) {
        None => s,
        Some((_, binding)) => assignment_rewritten(s) + scanner::separation(
            binding.expression,
            ""@,
        ),
    }
}

/// `s` with the assignment in each of its statements rewritten, or the refusal
/// of the first that assigns to a qualified target.
///
/// A statement ends at a live semicolon.
pub open spec fn assignments_rewritten(s: Seq<char>) -> Result<Seq<char>, ErrorView>
    decreases s.len(),
{
    match scanner::find_live_char(s, ';', 0) {
        Some(end) => {
            proof {
                text::lemma_first_from(scanner::live_char(s, ';'), 0, s.len() as int);
            }
            match qualified_target(s.take(end)) {
                Some(target) => Err(refused_assignment(target)),
                None => match assignments_rewritten(s.skip(end + 1)) {
                    Ok(rest) => Ok(assignment_closed(s.take(end)) + ";"@ + rest),
                    Err(error) => Err(error),
                },
            }
        },
        None => match qualified_target(s) {
            Some(target) => Err(refused_assignment(target)),
            None => Ok(assignment_rewritten(s)),
        },
    }
}

/// Rewriting assignments refuses qualified targets only.
pub proof fn lemma_assignment_refusal(s: Seq<char>)
    ensures
        assignments_rewritten(s) matches Err(error) ==> error is QualifiedAssignment,
    decreases s.len(),
{
    if let Some(end) = scanner::find_live_char(s, ';', 0) {
        text::lemma_first_from(scanner::live_char(s, ';'), 0, s.len() as int);
        lemma_assignment_refusal(s.skip(end + 1));
    }
}

/// Writing the first statement moves on to the next.
proof fn lemma_assignments_step(s: Seq<char>, end: int, done: Seq<char>)
    requires
        scanner::find_live_char(s, ';', 0) == Some(end),
        qualified_target(s.take(end)) is None,
    ensures
        preprocessor::after_writing(done, assignments_rewritten(s)) == preprocessor::after_writing(
            done + assignment_closed(s.take(end)) + ";"@,
            assignments_rewritten(s.skip(end + 1)),
        ),
{
    if let Ok(tail) = assignments_rewritten(s.skip(end + 1)) {
        let first = assignment_closed(s.take(end));
        assert(done + (first + ";"@ + tail) =~= done + first + ";"@ + tail);
    }
}

/// True when `chars` spell a variable name.
fn is_variable(chars: &[char]) -> (answer: bool)
    ensures
        answer == is_variable_name(chars@),
{
    let mut i: usize = 0;
    while i < chars.len()
        invariant
            i <= chars@.len(),
            forall|j: int| 0 <= j < i ==> text::is_name_char(#[trigger] chars@[j]),
        decreases chars@.len() - i,
    {
        if !text::is_identifier_char(chars[i]) {
            return false;
        }
        i += 1;
    }
    chars.len() > 0 && (text::is_alphabetic(chars[0]) || chars[0] == '_')
}

/// The view of a binding that may be absent.
pub open spec fn optional_binding(binding: Option<VariableBinding>) -> Option<BindingView> {
    match binding {
        Some(present) => Some(present@),
        None => None,
    }
}

/// Parses a line to see if it's a variable assignment.
fn parse_assignment(line: &[char]) -> (binding: Option<VariableBinding>)
    ensures
        optional_binding(binding) == assignment_of(line@),
{
    let stripped = text::trim(text::trim_end_char(text::trim(line), ';'));
    proof {
        reveal_strlit(":=");
        text::lemma_first_from(
            text::occurrences(stripped@, ":="@),
            0,
            stripped@.len() as int + 1,
        );
    }
    let operator = match text::position_of_seq(stripped, &text::chars_of(":=")) {
        Some(operator) => operator,
        None => {
            return None;
        },
    };
    assert(operator + 2 <= stripped.len());
    let name = text::trim(slice_subrange(stripped, 0, operator));
    let expression = text::trim(slice_subrange(stripped, operator + 2, stripped.len()));
    assert(stripped@.subrange(0, operator as int) == stripped@.take(operator as int));
    assert(stripped@.subrange(operator + 2, stripped@.len() as int) == stripped@.skip(
        operator + 2,
    ));
    if is_variable(name) && expression.len() > 0 {
        Some(
            VariableBinding {
                name: text::string_of(name),
                expression: text::string_of(expression),
            },
        )
    } else {
        None
    }
}

/// The last live character before `at` that is not whitespace.
fn find_last_live_before(chars: &[char], map: &[Region], at: usize) -> (last: Option<usize>)
    requires
        map@ == scanner::regions(chars@),
        map@.len() == chars@.len(),
        at <= chars@.len(),
    ensures
        text::as_int(last) == last_live_before(chars@, at as int),
        last matches Some(i) ==> i < at,
{
    let mut n: usize = at;
    while n > 0
        invariant
            map@ == scanner::regions(chars@),
            map@.len() == chars@.len(),
            n <= at <= chars@.len(),
            last_live_before(chars@, at as int) == last_live_before(chars@, n as int),
        decreases n,
    {
        if map[n - 1] == Region::Code && !text::is_whitespace(chars[n - 1]) {
            return Some(n - 1);
        }
        n -= 1;
    }
    None
}

/// True when `keyword` ends at `end` in `chars`, whose regions are `map`.
fn is_keyword_ending_at(chars: &[char], map: &[Region], keyword: &str, end: usize) -> (answer: bool)
    requires
        map@ == scanner::regions(chars@),
        map@.len() == chars@.len(),
        end <= chars@.len(),
    ensures
        answer == scanner::live_keyword_at(chars@, keyword@, end - keyword@.len()),
        answer ==> 0 < keyword@.len() <= end,
{
    let word = text::chars_of(keyword);
    if word.len() == 0 || word.len() > end {
        return false;
    }
    scanner::is_live_keyword_at(chars, map, &word, end - word.len())
}

/// True when a statement can start at `at` in `chars`, whose regions are `map`.
fn starts_statement(chars: &[char], map: &[Region], at: usize) -> (answer: bool)
    requires
        map@ == scanner::regions(chars@),
        map@.len() == chars@.len(),
        at <= chars@.len(),
    ensures
        answer == can_start_statement(chars@, at as int),
{
    let end = match find_last_live_before(chars, map, at) {
        Some(last) => last + 1,
        None => {
            return true;
        },
    };
    if is_keyword_ending_at(chars, map, "BEGIN", end) || is_keyword_ending_at(
        chars,
        map,
        "THEN",
        end,
    ) || is_keyword_ending_at(chars, map, "ELSE", end) || is_keyword_ending_at(
        chars,
        map,
        "LOOP",
        end,
    ) {
        return true;
    }
    if end >= 2 && map[end - 2] == Region::Code && chars[end - 2] == '>' && map[end - 1]
        == Region::Code && chars[end - 1] == '>' {
        return true;
    }
    proof {
        reveal_strlit("IF");
    }
    if !is_keyword_ending_at(chars, map, "IF", end) {
        return false;
    }
    match find_last_live_before(chars, map, end - 2) {
        Some(last) => is_keyword_ending_at(chars, map, "END", last + 1),
        None => false,
    }
}

/// The `:=` of the assignment that a statement holds.
fn find_assignment_operator(statement: &[char]) -> (operator: Option<usize>)
    ensures
        text::as_int(operator) == assignment_operator(statement@),
        operator matches Some(i) ==> i + 2 <= statement@.len(),
{
    let map = scanner::classify(statement);
    let walrus = text::chars_of(":=");
    let ghost p = assigns_at(statement@);
    let mut i: usize = 0;
    proof {
        reveal_strlit(":=");
    }
    while i < statement.len()
        invariant
            map@ == scanner::regions(statement@),
            map@.len() == statement@.len(),
            walrus@ == ":="@,
            ":="@.len() == 2,
            p == assigns_at(statement@),
            i <= statement@.len(),
            forall|j: int| 0 <= j < i ==> !#[trigger] p(j),
        decreases statement@.len() - i,
    {
        if map[i] == Region::Code && text::is_at(statement, &walrus, i) {
            let before = text::trim_end(slice_subrange(statement, 0, i));
            assert(statement@.subrange(0, i as int) == statement@.take(i as int));
            let start = trailing_identifier_start(before);
            assert(before.len() <= i) by {
                text::lemma_trimmed_end(statement@.take(i as int));
            }
            if start < before.len() && map[start] == Region::Code && starts_statement(
                statement,
                &map,
                start,
            ) {
                proof {
                    text::lemma_first_is(p, 0, statement@.len() as int, i as int);
                }
                return Some(i);
            }
        }
        i += 1;
    }
    proof {
        text::lemma_no_first(p, 0, statement@.len() as int);
    }
    None
}

/// One statement, rewritten to `SET name = expr` when it is an assignment and
/// returned unchanged when it is not.
///
/// A chunk can carry text before the assignment, `BEGIN` on the first one and
/// `END IF` after a branch, so the variable is the identifier immediately before
/// `:=` and everything ahead of it passes through.
///
/// Where the statement is `closed` by a semicolon, an expression that ends in a
/// line comment keeps the semicolon out of the comment.
fn rewrite_assignment(statement: &[char], closed: bool) -> (rewritten: Vec<char>)
    ensures
        rewritten@ == (if closed {
            assignment_closed(statement@)
        } else {
            assignment_rewritten(statement@)
        }),
{
    let mut rewritten: Vec<char> = Vec::new();
    let operator = match find_assignment_operator(statement) {
        Some(operator) => operator,
        None => {
            text::push_chars(&mut rewritten, statement);
            return rewritten;
        },
    };
    assert(operator + 2 <= statement.len());
    let before = text::trim_end(slice_subrange(statement, 0, operator));
    assert(statement@.subrange(0, operator as int) == statement@.take(operator as int));
    let name_start = trailing_identifier_start(before);
    let name = slice_subrange(before, name_start, before.len());
    assert(name@ == before@.skip(name_start as int));
    let expression = slice_subrange(statement, operator + 2, statement.len());
    assert(expression@ == statement@.skip(operator + 2));
    let mut line: Vec<char> = Vec::new();
    text::push_chars(&mut line, text::trim(name));
    text::push_text(&mut line, " := ");
    text::push_chars(&mut line, text::trim(expression));
    match parse_assignment(&line) {
        Some(binding) => {
            let prefix = slice_subrange(before, 0, name_start);
            assert(prefix@ == before@.take(name_start as int));
            text::push_chars(&mut rewritten, prefix);
            text::push_text(&mut rewritten, "SET ");
            text::push_text(&mut rewritten, &binding.name);
            text::push_text(&mut rewritten, " = ");
            text::push_text(&mut rewritten, &binding.expression);
            if closed {
                let written = text::chars_of(&binding.expression);
                scanner::push_separation(&mut rewritten, &written, "");
            }
        },
        None => {
            text::push_chars(&mut rewritten, statement);
        },
    }
    rewritten
}

impl PlPgSqlPreprocessor {
    /// Transforms variable assignments from := to SET syntax.
    ///
    /// Split on unquoted semicolons rather than newlines, since the right-hand
    /// side of an assignment can span lines and a statement ends at a
    /// semicolon.
    ///
    /// # Errors
    ///
    /// Returns [`Error::QualifiedAssignment`] when a statement assigns to
    /// a qualified target.
    pub fn transform_assignments(body: &str, _context: &PlPgSqlContext) -> (result: Result<
        String,
        Error,
    >)
        ensures
            preprocessor::agrees(result, assignments_rewritten(body@)),
    {
        let chars = text::chars_of(body);
        let mut out: Vec<char> = Vec::new();
        let mut start: usize = 0;
        assert(chars@.skip(0) == chars@);
        loop
            invariant
                chars@ == body@,
                start <= chars@.len(),
                assignments_rewritten(body@) == preprocessor::after_writing(
                    out@,
                    assignments_rewritten(chars@.skip(start as int)),
                ),
            decreases chars@.len() - start,
        {
            let rest = slice_subrange(&chars, start, chars.len());
            assert(rest@ == chars@.skip(start as int));
            match scanner::live_position_of(rest, ';', 0) {
                Some(end) => {
                    let statement = slice_subrange(rest, 0, end);
                    assert(statement@ == rest@.take(end as int));
                    match reject_qualified_assignment(statement) {
                        Ok(()) => {},
                        Err(error) => {
                            return Err(error);
                        },
                    }
                    proof {
                        lemma_assignments_step(rest@, end as int, out@);
                    }
                    text::push_chars(&mut out, &rewrite_assignment(statement, true));
                    text::push_text(&mut out, ";");
                    assert(rest@.skip(end + 1) == chars@.skip(start + end + 1));
                    start = start + end + 1;
                },
                None => {
                    match reject_qualified_assignment(rest) {
                        Ok(()) => {},
                        Err(error) => {
                            return Err(error);
                        },
                    }
                    text::push_chars(&mut out, &rewrite_assignment(rest, false));
                    return Ok(text::string_of(&out));
                },
            }
        }
    }

    /// Parses a line to see if it's a variable assignment.
    pub fn parse_assignment_line(line: &str, _context: &PlPgSqlContext) -> (binding: Option<
        VariableBinding,
    >)
        ensures
            optional_binding(binding) == assignment_of(line@),
    {
        parse_assignment(&text::chars_of(line))
    }
}

}
