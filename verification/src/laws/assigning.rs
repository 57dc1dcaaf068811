//! Laws of assignments.

use vstd::prelude::*;

use crate::context::BindingView;
use crate::error::ErrorView;
use crate::laws::lexing;
use crate::laws::scanning;
use crate::laws::searching;
use crate::laws::wording;
use crate::preprocessor::assignment;
use crate::scanner;
use crate::scanner::Region;
use crate::text;

verus! {

// ---------------------------------------------------------------------------
// Statements
// ---------------------------------------------------------------------------

/// The regions of `s` from `k` on are those of what stands there.
spec fn is_clean_cut(s: Seq<char>, k: int) -> bool {
    &&& 0 <= k <= s.len()
    &&& scanner::regions(s.skip(k)) == scanner::regions(s).skip(k)
}

/// A search from a clean cut on finds the same place, counted from there.
proof fn lemma_search_from_cut(s: Seq<char>, c: char, k: int, from: int)
    requires
        is_clean_cut(s, k),
        0 <= from <= s.len() - k,
    ensures
        scanner::find_live_char(s, c, k + from) == (match scanner::find_live_char(
            s.skip(k),
            c,
            from,
        ) {
            Some(i) => Some(k + i),
            None => None::<int>,
        }),
{
    let rest = s.skip(k);
    let p = scanner::live_char(s, c);
    let q = scanner::live_char(rest, c);
    let len = s.len() as int;
    scanner::lemma_regions_len(s);
    assert forall|i: int| 0 <= i < rest.len() implies #[trigger] q(i) == p(k + i) by {
        assert(scanner::regions(rest)[i] == scanner::regions(s)[k + i]);
    }
    text::lemma_first_from(q, from, rest.len() as int);
    match scanner::find_live_char(rest, c, from) {
        Some(i) => {
            assert forall|j: int| k + from <= j < k + i implies !#[trigger] p(j) by {
                assert(!q(j - k));
            }
            text::lemma_first_is(p, k + from, len, k + i);
        },
        None => {
            assert forall|j: int| k + from <= j < len implies !#[trigger] p(j) by {
                assert(!q(j - k));
            }
            text::lemma_no_first(p, k + from, len);
        },
    }
}

/// The pieces from a clean cut on are the pieces of what stands there.
proof fn lemma_pieces_from_cut(s: Seq<char>, c: char, k: int, from: int)
    requires
        is_clean_cut(s, k),
        0 <= from <= s.len() - k,
    ensures
        scanner::live_pieces(s, c, k + from) == scanner::live_pieces(s.skip(k), c, from),
    decreases s.len() - k - from,
{
    let rest = s.skip(k);
    lemma_search_from_cut(s, c, k, from);
    text::lemma_first_from(scanner::live_char(rest, c), from, rest.len() as int);
    match scanner::find_live_char(rest, c, from) {
        Some(i) => {
            lemma_pieces_from_cut(s, c, k, i + 1);
            assert(s.subrange(k + from, k + i) =~= rest.subrange(from, i));
        },
        None => {
            assert(s.subrange(k + from, s.len() as int) =~= rest.subrange(
                from,
                rest.len() as int,
            ));
        },
    }
}

/// The statements of `s`: its pieces between live semicolons.
pub open spec fn statements(s: Seq<char>) -> Seq<Seq<char>> {
    scanner::live_pieces(s, ';', 0)
}

/// The statements of a text with a semicolon are the first one and those of
/// what follows the semicolon.
proof fn lemma_statements_step(s: Seq<char>, end: int)
    requires
        scanner::find_live_char(s, ';', 0) == Some(end),
    ensures
        0 <= end < s.len(),
        statements(s) == seq![s.take(end)] + statements(s.skip(end + 1)),
        statements(s.skip(end + 1)).len() > 0,
{
    text::lemma_first_from(scanner::live_char(s, ';'), 0, s.len() as int);
    scanning::law_rescan_from_live_code(s, end);
    lemma_pieces_from_cut(s, ';', end + 1, 0);
    assert(s.subrange(0, end) =~= s.take(end));
}

/// No statement of `s` assigns to a qualified target.
pub open spec fn assigns_to_plain_names(s: Seq<char>) -> bool {
    forall|k: int|
        0 <= k < statements(s).len() ==> assignment::qualified_target(
            #[trigger] statements(s)[k],
        ) is None
}

/// The first statement of `s` that assigns to a qualified target is the one at
/// `k`, and it assigns to `target`.
pub open spec fn first_qualified_assignment(
    s: Seq<char>,
    k: int,
    target: assignment::QualifiedName,
) -> bool {
    &&& 0 <= k < statements(s).len()
    &&& assignment::qualified_target(statements(s)[k]) == Some(target)
    &&& forall|j: int|
        0 <= j < k ==> assignment::qualified_target(#[trigger] statements(s)[j]) is None
}

/// Each statement with its assignment rewritten, the last as one that no
/// semicolon follows.
pub open spec fn each_rewritten(list: Seq<Seq<char>>) -> Seq<Seq<char>> {
    Seq::new(
        list.len(),
        |k: int|
            if k + 1 < list.len() {
                assignment::assignment_closed(list[k])
            } else {
                assignment::assignment_rewritten(list[k])
            },
    )
}

/// A text is rewritten statement by statement when every statement assigns to a
/// plain name.
pub proof fn law_plain_assignments_are_rewritten(s: Seq<char>)
    requires
        assigns_to_plain_names(s),
    ensures
        assignment::assignments_rewritten(s) == Ok::<_, ErrorView>(
            text::joined(each_rewritten(statements(s)), ";"@),
        ),
    decreases s.len(),
{
    match scanner::find_live_char(s, ';', 0) {
        Some(end) => {
            lemma_statements_step(s, end);
            let first = s.take(end);
            let rest = s.skip(end + 1);
            assert(statements(s)[0] == first);
            assert forall|k: int| 0 <= k < statements(rest).len() implies
                assignment::qualified_target(#[trigger] statements(rest)[k]) is None by {
                assert(statements(s)[k + 1] == statements(rest)[k]);
            }
            law_plain_assignments_are_rewritten(rest);
            let rewritten = each_rewritten(statements(rest));
            assert(each_rewritten(statements(s)) =~= seq![assignment::assignment_closed(first)]
                + rewritten);
            scanning::lemma_joined_first(
                assignment::assignment_closed(first),
                rewritten,
                ";"@,
            );
        },
        None => {
            assert(s.subrange(0, s.len() as int) =~= s);
            assert(statements(s)[0] == s);
            assert(each_rewritten(statements(s)) =~= seq![assignment::assignment_rewritten(s)]);
        },
    }
}

/// A text with an assignment to a qualified target is refused, and the refusal
/// names the target of the first.
pub proof fn law_qualified_assignment_is_refused(
    s: Seq<char>,
    k: int,
    target: assignment::QualifiedName,
)
    requires
        first_qualified_assignment(s, k, target),
    ensures
        assignment::assignments_rewritten(s) == Err::<Seq<char>, _>(
            assignment::refused_assignment(target),
        ),
    decreases s.len(),
{
    match scanner::find_live_char(s, ';', 0) {
        Some(end) => {
            lemma_statements_step(s, end);
            let rest = s.skip(end + 1);
            assert(statements(s)[0] == s.take(end));
            if k > 0 {
                assert(statements(s)[k] == statements(rest)[k - 1]);
                assert forall|j: int| 0 <= j < k - 1 implies assignment::qualified_target(
                    #[trigger] statements(rest)[j],
                ) is None by {
                    assert(statements(s)[j + 1] == statements(rest)[j]);
                }
                law_qualified_assignment_is_refused(rest, k - 1, target);
            }
        },
        None => {
            assert(s.subrange(0, s.len() as int) =~= s);
            assert(statements(s)[0] == s);
        },
    }
}

/// A text is rewritten if and only if every statement assigns to a plain name.
pub proof fn law_only_qualified_assignments_are_refused(s: Seq<char>)
    ensures
        assignment::assignments_rewritten(s) is Ok <==> assigns_to_plain_names(s),
{
    let list = statements(s);
    let p = |k: int| 0 <= k < list.len() && assignment::qualified_target(list[k]) is Some;
    text::lemma_first_from(p, 0, list.len() as int);
    match text::first_from(p, 0, list.len() as int) {
        Some(k) => {
            assert forall|j: int| 0 <= j < k implies assignment::qualified_target(
                #[trigger] statements(s)[j],
            ) is None by {
                assert(!p(j));
            }
            let target = assignment::qualified_target(list[k])->0;
            law_qualified_assignment_is_refused(s, k, target);
            assert(assignment::qualified_target(statements(s)[k]) is Some);
        },
        None => {
            assert forall|j: int| 0 <= j < list.len() implies assignment::qualified_target(
                #[trigger] statements(s)[j],
            ) is None by {
                assert(!p(j));
            }
            law_plain_assignments_are_rewritten(s);
        },
    }
}

// ---------------------------------------------------------------------------
// Targets
// ---------------------------------------------------------------------------

/// A qualified name in front of a live `:=` is an assignment to a qualified
/// target wherever in the statement it stands.
pub proof fn law_qualified_walrus_is_a_target(s: Seq<char>, i: int)
    requires
        scanner::is_live(s, i),
        text::occurs_at(s, ":="@, i),
        assignment::qualified_name_ending_at(s, i) is Some,
    ensures
        assignment::qualified_target(s) is Some,
{
    assert(s.skip(0) =~= s);
    assert(scanner::regions(s).skip(0) =~= scanner::regions(s));
    lemma_walrus_is_reached(s, 0, i);
}

/// The first `:=` in live code that a qualified name stands before names the
/// target.
pub proof fn law_first_qualified_sign_names_the_target(s: Seq<char>, i: int)
    requires
        scanner::is_live(s, i),
        text::occurs_at(s, ":="@, i),
        assignment::qualified_name_ending_at(s, i) is Some,
        forall|j: int|
            0 <= j < i && #[trigger] scanner::is_live(s, j) && text::occurs_at(s, ":="@, j)
                ==> assignment::qualified_name_ending_at(s, j) is None,
    ensures
        assignment::qualified_target(s) == assignment::qualified_name_ending_at(s, i),
{
    assert(s.skip(0) =~= s);
    assert(scanner::regions(s).skip(0) =~= scanner::regions(s));
    lemma_walrus_is_named(s, 0, i);
}

/// A search for qualified targets from a clean cut on gives the first.
proof fn lemma_walrus_is_named(s: Seq<char>, from: int, i: int)
    requires
        is_clean_cut(s, from),
        from <= i,
        scanner::is_live(s, i),
        text::occurs_at(s, ":="@, i),
        assignment::qualified_name_ending_at(s, i) is Some,
        forall|j: int|
            0 <= j < i && #[trigger] scanner::is_live(s, j) && text::occurs_at(s, ":="@, j)
                ==> assignment::qualified_name_ending_at(s, j) is None,
    ensures
        assignment::walrus_target(s, from) == assignment::qualified_name_ending_at(s, i),
    decreases s.len() - from,
{
    reveal_strlit(":=");
    let rest = s.skip(from);
    let p = scanner::live_occurrence(rest, ":="@);
    scanner::lemma_regions_len(s);
    text::lemma_first_from(p, 0, rest.len() as int);
    assert(s.subrange(i, i + 2) =~= rest.subrange(i - from, i - from + 2));
    assert(scanner::regions(rest)[i - from] == scanner::regions(s)[i]);
    assert(p(i - from));
    let offset = scanner::find_live_seq(rest, ":="@)->0;
    let at = from + offset;
    assert(at <= i);
    assert(scanner::regions(s)[at] == scanner::regions(rest)[offset]);
    assert(s.subrange(at, at + 2) =~= rest.subrange(offset, offset + 2));
    assert(scanner::is_live(s, at) && text::occurs_at(s, ":="@, at));
    if at < i {
        assert(assignment::qualified_name_ending_at(s, at) is None);
        assert(rest.subrange(offset, offset + 2)[1] == s[at + 1]);
        assert(s.subrange(i, i + 2)[0] == s[i]);
        scanning::law_rescan_from_live_code(s, at);
        let behind = s.skip(at + 1);
        assert(behind[0] == '=');
        assert(scanner::lexeme(behind) is Code);
        assert(scanner::regions(behind)[0] == Region::Code);
        assert(scanner::is_live(s, at + 1));
        scanning::law_rescan_from_live_code(s, at + 1);
        lemma_walrus_is_named(s, at + 2, i);
    }
}

/// A search for qualified targets from a clean cut on reaches every `:=` behind
/// it.
proof fn lemma_walrus_is_reached(s: Seq<char>, from: int, i: int)
    requires
        is_clean_cut(s, from),
        from <= i,
        scanner::is_live(s, i),
        text::occurs_at(s, ":="@, i),
        assignment::qualified_name_ending_at(s, i) is Some,
    ensures
        assignment::walrus_target(s, from) is Some,
    decreases s.len() - from,
{
    reveal_strlit(":=");
    let rest = s.skip(from);
    let p = scanner::live_occurrence(rest, ":="@);
    scanner::lemma_regions_len(s);
    text::lemma_first_from(p, 0, rest.len() as int);
    assert(s.subrange(i, i + 2) =~= rest.subrange(i - from, i - from + 2));
    assert(scanner::regions(rest)[i - from] == scanner::regions(s)[i]);
    assert(p(i - from));
    let offset = scanner::find_live_seq(rest, ":="@)->0;
    let at = from + offset;
    if assignment::qualified_name_ending_at(s, at) is None {
        assert(scanner::regions(s)[at] == scanner::regions(rest)[offset]);
        assert(rest.subrange(offset, offset + 2)[1] == s[at + 1]);
        assert(s.subrange(i, i + 2)[0] == s[i]);
        scanning::law_rescan_from_live_code(s, at);
        let behind = s.skip(at + 1);
        assert(behind[0] == '=');
        assert(scanner::lexeme(behind) is Code);
        assert(scanner::regions(behind)[0] == Region::Code);
        assert(scanner::is_live(s, at + 1));
        scanning::law_rescan_from_live_code(s, at + 1);
        lemma_walrus_is_reached(s, at + 2, i);
    }
}

/// A statement that is not refused assigns to a name that no qualifier precedes:
/// the refusal and the rewrite read the same target.
pub proof fn law_rewritten_target_is_plain(s: Seq<char>, operator: int)
    requires
        assignment::qualified_target(s) is None,
        assignment::assignment_operator(s) == Some(operator),
    ensures
        assignment::qualified_name_ending_at(s, operator) is None,
{
    text::lemma_first_from(assignment::assigns_at(s), 0, s.len() as int);
    if assignment::qualified_name_ending_at(s, operator) is Some {
        law_qualified_walrus_is_a_target(s, operator);
    }
}

/// A `:=` whose target an opening parenthesis or a comma precedes is that of a
/// named argument, and makes no assignment.
pub proof fn law_named_argument_is_no_assignment(s: Seq<char>, i: int, last: int)
    requires
        assignment::last_live_before(s, assignment::target_start(s, i)) == Some(last),
        s[last] == '(' || s[last] == ',',
    ensures
        !assignment::assigns_at(s)(i),
        assignment::assignment_operator(s) != Some(i),
{
    lemma_last_live_before(s, assignment::target_start(s, i));
    reveal_strlit("BEGIN");
    reveal_strlit("THEN");
    reveal_strlit("ELSE");
    reveal_strlit("LOOP");
    reveal_strlit("IF");
    lemma_keyword_ends_in_a_letter(s, "BEGIN"@, last);
    lemma_keyword_ends_in_a_letter(s, "THEN"@, last);
    lemma_keyword_ends_in_a_letter(s, "ELSE"@, last);
    lemma_keyword_ends_in_a_letter(s, "LOOP"@, last);
    lemma_keyword_ends_in_a_letter(s, "IF"@, last);
    text::lemma_first_from(assignment::assigns_at(s), 0, s.len() as int);
}

/// A `:=` assigns only where a statement can start: nothing live stands before its
/// target, or the last of it ends `BEGIN`, `THEN`, `ELSE`, `LOOP`, `END IF`, or a
/// label. So the default of a declaration, behind its type, is no assignment.
pub proof fn law_assignment_needs_a_statement_start(s: Seq<char>, i: int, last: int)
    requires
        assignment::assigns_at(s)(i),
        assignment::last_live_before(s, assignment::target_start(s, i)) == Some(last),
    ensures
        ({
            ||| searching::spelled_at(s, "BEGIN"@, last - 4)
            ||| searching::spelled_at(s, "THEN"@, last - 3)
            ||| searching::spelled_at(s, "ELSE"@, last - 3)
            ||| searching::spelled_at(s, "LOOP"@, last - 3)
            ||| {
                &&& searching::spelled_at(s, "IF"@, last - 1)
                &&& assignment::last_live_before(s, last - 1) matches Some(end)
                &&& searching::spelled_at(s, "END"@, end - 2)
            }
            ||| last > 0 && s[last] == '>' && s[last - 1] == '>'
        }),
{
    reveal_strlit("BEGIN");
    reveal_strlit("THEN");
    reveal_strlit("ELSE");
    reveal_strlit("LOOP");
    reveal_strlit("IF");
    reveal_strlit("END");
}

/// The last live character before a place stands before it.
proof fn lemma_last_live_before(s: Seq<char>, at: int)
    ensures
        assignment::last_live_before(s, at) matches Some(last) ==> 0 <= last < at
            && scanner::is_live(s, last),
    decreases at,
{
    if at > 0 {
        lemma_last_live_before(s, at - 1);
    }
}

/// No keyword ends in a parenthesis or a comma.
proof fn lemma_keyword_ends_in_a_letter(s: Seq<char>, keyword: Seq<char>, last: int)
    requires
        keyword.len() > 0,
        text::is_ascii_letter(keyword.last()),
        s[last] == '(' || s[last] == ',',
    ensures
        !scanner::live_keyword_at(s, keyword, last + 1 - keyword.len()),
{
    let i = last + 1 - keyword.len();
    if scanner::live_keyword_at(s, keyword, i) {
        let window = s.subrange(i, i + keyword.len());
        let k = keyword.len() - 1;
        assert(window[k] == s[last]);
        assert(text::ascii_lower(window[k]) == text::ascii_lower(keyword[k]));
    }
}

/// An assignment of a plain name becomes `SET name = expression`, and what
/// stands before the name passes through. A semicolon behind it stays outside a
/// line comment that ends the expression.
pub proof fn law_assignment_becomes_set(s: Seq<char>, operator: int)
    requires
        assignment::assignment_operator(s) == Some(operator),
        assignment::is_variable_name(text::trimmed(assigned_name(s, operator))),
        assigned_expression(s, operator).len() > 0,
        assigned_expression(s, operator).last() != ';',
    ensures
        assignment::assignment_rewritten(s) == assigned_prefix(s, operator) + "SET "@
            + text::trimmed(assigned_name(s, operator)) + " = "@ + assigned_expression(s, operator),
        assignment::assignment_closed(s) == assignment::assignment_rewritten(s)
            + scanner::separation(assigned_expression(s, operator), ""@),
{
    let name = text::trimmed(assigned_name(s, operator));
    let expression = assigned_expression(s, operator);
    let line = name + " := "@ + expression;
    reveal_strlit(":=");
    reveal_strlit(" := ");
    lemma_trimmed_edges(assigned_name(s, operator));
    lemma_trimmed_edges(s.skip(operator + 2));
    assert(line[0] == name[0]);
    assert(line.last() == expression.last());
    lemma_already_trimmed(line);
    let at = name.len() as int + 1;
    let p = text::occurrences(line, ":="@);
    assert(line.subrange(at, at + 2) =~= ":="@);
    assert forall|j: int| 0 <= j < at implies !#[trigger] p(j) by {
        if p(j) {
            assert(line.subrange(j, j + 2)[0] == line[j]);
            if j < name.len() {
                assert(text::is_name_char(name[j]));
            }
        }
    }
    text::lemma_first_is(p, 0, line.len() as int + 1, at);
    assert(line.take(at) =~= name + seq![' ']);
    lemma_trailing_space(name);
    assert(line.skip(at + 2) =~= seq![' '] + expression);
    lemma_leading_space(expression);
}

/// What stands before the name that a `:=` at `operator` assigns to.
pub open spec fn assigned_prefix(s: Seq<char>, operator: int) -> Seq<char> {
    assignment::before_operator(s, operator).take(assignment::target_start(s, operator))
}

/// The identifier right before a `:=` at `operator`.
pub open spec fn assigned_name(s: Seq<char>, operator: int) -> Seq<char> {
    assignment::before_operator(s, operator).skip(assignment::target_start(s, operator))
}

/// What stands behind a `:=` at `operator`, trimmed.
pub open spec fn assigned_expression(s: Seq<char>, operator: int) -> Seq<char> {
    text::trimmed(s.skip(operator + 2))
}

/// No whitespace stands at either end of a text that was trimmed.
proof fn lemma_trimmed_edges(s: Seq<char>)
    ensures
        text::trimmed(s).len() > 0 ==> !text::is_whitespace_char(text::trimmed(s)[0])
            && !text::is_whitespace_char(text::trimmed(s).last()),
{
    text::lemma_trimmed_start(s);
    text::lemma_trimmed_end(text::trimmed_start(s));
}

/// A text with no whitespace at either end, and no semicolon at its end, is
/// what stripping it leaves.
proof fn lemma_already_trimmed(s: Seq<char>)
    requires
        s.len() > 0,
        !text::is_whitespace_char(s[0]),
        !text::is_whitespace_char(s.last()),
    ensures
        text::trimmed(s) == s,
        s.last() != ';' ==> text::without_trailing(s, ';') == s,
{
}

/// A space behind a trimmed text is trimmed.
proof fn lemma_trailing_space(s: Seq<char>)
    requires
        s.len() > 0,
        !text::is_whitespace_char(s[0]),
        !text::is_whitespace_char(s.last()),
    ensures
        text::trimmed(s + seq![' ']) == s,
{
    let padded = s + seq![' '];
    assert(padded[0] == s[0]);
    assert(padded.last() == ' ');
    assert(padded.drop_last() =~= s);
    assert(text::trimmed_start(padded) == padded);
    assert(text::trimmed_end(s) == s);
}

/// A space before a trimmed text is trimmed.
proof fn lemma_leading_space(s: Seq<char>)
    requires
        s.len() > 0,
        !text::is_whitespace_char(s[0]),
        !text::is_whitespace_char(s.last()),
    ensures
        text::trimmed(seq![' '] + s) == s,
{
    let padded = seq![' '] + s;
    assert(padded[0] == ' ');
    assert(padded.drop_first() =~= s);
    assert(text::trimmed_start(s) == s);
}

// ---------------------------------------------------------------------------
// Names and values
// ---------------------------------------------------------------------------

/// `name` is made of identifier characters, and no digit starts it.
pub open spec fn is_identifier(name: Seq<char>) -> bool {
    &&& name.len() > 0
    &&& text::is_alphabetic_char(name[0]) || name[0] == '_'
    &&& forall|i: int| 0 <= i < name.len() ==> text::is_name_char(#[trigger] name[i])
}

/// Every identifier is a variable name, digits and underscores included, and
/// nothing else is one.
pub proof fn law_identifiers_are_variable_names(name: Seq<char>)
    ensures
        assignment::is_variable_name(name) <==> is_identifier(name),
        name.len() > 0 && (forall|i: int|
            0 <= i < name.len() ==> searching::extends_word(#[trigger] name[i])) && !('0'
            <= name[0] && name[0] <= '9') ==> assignment::is_variable_name(name),
{
    if name.len() > 0 && (forall|i: int|
        0 <= i < name.len() ==> searching::extends_word(#[trigger] name[i])) {
        assert(searching::extends_word(name[0]));
        assert forall|i: int| 0 <= i < name.len() implies text::is_name_char(#[trigger] name[i]) by {
            assert(searching::extends_word(name[i]));
        }
    }
}

/// A character of a name or of whitespace opens nothing.
proof fn lemma_plain(s: Seq<char>)
    requires
        forall|i: int|
            0 <= i < s.len() ==> text::is_name_char(#[trigger] s[i]) || text::is_whitespace_char(
                s[i],
            ) || s[i] == ':' || s[i] == '.' || s[i] == '=',
    ensures
        lexing::is_plain(s),
{
    assert forall|i: int| 0 <= i < s.len() implies #[trigger] s[i] != '\'' && s[i] != '"' && s[i]
        != '$' && s[i] != '-' && s[i] != '/' by {
        assert(text::is_name_char(s[i]) || text::is_whitespace_char(s[i]) || s[i] == ':' || s[i]
            == '.' || s[i] == '=');
    }
}

/// Plain text at the front of what follows a clean cut is live.
proof fn lemma_plain_is_live(s: Seq<char>, k: int, front: Seq<char>)
    requires
        is_clean_cut(s, k),
        k + front.len() <= s.len(),
        s.subrange(k, k + front.len()) == front,
        lexing::is_plain(front),
    ensures
        forall|j: int| k <= j < k + front.len() ==> #[trigger] scanner::is_live(s, j),
{
    let rest = s.skip(k + front.len());
    lexing::law_plain_text_is_code(front, rest);
    assert(s.skip(k) =~= front + rest);
    scanner::lemma_regions_len(s);
    assert forall|j: int| k <= j < k + front.len() implies #[trigger] scanner::is_live(s, j) by {
        assert(scanner::regions(s.skip(k))[j - k] == scanner::regions(s)[j]);
    }
}

/// The parts of an assignment: a name without whitespace and an expression, with
/// whitespace around the sign and behind the expression.
pub open spec fn is_assignment(
    name: Seq<char>,
    expression: Seq<char>,
    blanks: (Seq<char>, Seq<char>, Seq<char>),
) -> bool {
    &&& is_identifier(name)
    &&& wording::is_solid(name)
    &&& expression.len() > 0
    &&& wording::is_bare(expression)
    &&& expression.last() != ';'
    &&& wording::is_blank(blanks.0)
    &&& wording::is_blank(blanks.1)
    &&& wording::is_blank(blanks.2)
}

/// An assignment as it is written.
pub open spec fn spelled(
    name: Seq<char>,
    expression: Seq<char>,
    blanks: (Seq<char>, Seq<char>, Seq<char>),
) -> Seq<char> {
    name + blanks.0 + ":="@ + blanks.1 + expression + blanks.2
}

/// Where the sign of an assignment behind `prefix` stands.
pub open spec fn sign_at(prefix: Seq<char>, name: Seq<char>, gap: Seq<char>) -> int {
    prefix.len() as int + name.len() + gap.len()
}

/// A name and the sign behind it are live code behind a clean cut.
proof fn lemma_sign_is_live(
    prefix: Seq<char>,
    name: Seq<char>,
    expression: Seq<char>,
    blanks: (Seq<char>, Seq<char>, Seq<char>),
)
    requires
        is_assignment(name, expression, blanks),
        is_clean_cut(prefix + spelled(name, expression, blanks), prefix.len() as int),
    ensures
        scanner::is_live(prefix + spelled(name, expression, blanks), prefix.len() as int),
        scanner::is_live(
            prefix + spelled(name, expression, blanks),
            sign_at(prefix, name, blanks.0),
        ),
        text::occurs_at(
            prefix + spelled(name, expression, blanks),
            ":="@,
            sign_at(prefix, name, blanks.0),
        ),
{
    reveal_strlit(":=");
    let s = prefix + spelled(name, expression, blanks);
    let start = prefix.len() as int;
    let operator = sign_at(prefix, name, blanks.0);
    let front = name + blanks.0 + ":="@;
    assert(s.subrange(start, start + front.len()) =~= front);
    assert forall|i: int| 0 <= i < front.len() implies text::is_name_char(#[trigger] front[i])
        || text::is_whitespace_char(front[i]) || front[i] == ':' || front[i] == '.' || front[i]
        == '=' by {
        if i < name.len() {
            assert(text::is_name_char(name[i]));
        } else if i < name.len() + blanks.0.len() {
            assert(text::is_whitespace_char(blanks.0[i - name.len()]));
        }
    }
    lemma_plain(front);
    lemma_plain_is_live(s, start, front);
    assert(s.subrange(operator, operator + 2) =~= ":="@);
}

/// The identifier before the sign of an assignment is its name.
proof fn lemma_target_behind(
    prefix: Seq<char>,
    name: Seq<char>,
    expression: Seq<char>,
    blanks: (Seq<char>, Seq<char>, Seq<char>),
)
    requires
        is_assignment(name, expression, blanks),
        prefix.len() > 0 ==> !text::is_name_char(prefix.last()),
    ensures
        ({
            let s = prefix + spelled(name, expression, blanks);
            let operator = sign_at(prefix, name, blanks.0);
            &&& assignment::before_operator(s, operator) == prefix + name
            &&& assignment::target_start(s, operator) == prefix.len()
            &&& assigned_name(s, operator) == name
            &&& assigned_prefix(s, operator) == prefix
            &&& text::trimmed(name) == name
            &&& assigned_expression(s, operator) == expression
        }),
{
    reveal_strlit(":=");
    let s = prefix + spelled(name, expression, blanks);
    let operator = sign_at(prefix, name, blanks.0);
    let none = Seq::<char>::empty();
    assert(text::is_name_char(name[name.len() - 1]));
    assert(!text::is_whitespace_char(name[name.len() - 1]));
    assert(!text::is_whitespace_char(name[0]));
    assert(s.take(operator) =~= (prefix + name) + blanks.0);
    wording::lemma_blank_after(prefix + name, blanks.0);
    lemma_identifier_start(prefix, name);
    assert((prefix + name).skip(prefix.len() as int) =~= name);
    assert((prefix + name).take(prefix.len() as int) =~= prefix);
    wording::law_trimming_keeps_what_is_between(none, name, none);
    assert(none + name + none =~= name);
    assert(s.skip(operator + 2) =~= blanks.1 + expression + blanks.2);
    wording::law_trimming_keeps_what_is_between(blanks.1, expression, blanks.2);
}

/// What an assignment behind `prefix` is read as, where a statement can start
/// behind `prefix`.
proof fn lemma_assignment_behind(
    prefix: Seq<char>,
    name: Seq<char>,
    expression: Seq<char>,
    blanks: (Seq<char>, Seq<char>, Seq<char>),
)
    requires
        is_assignment(name, expression, blanks),
        is_clean_cut(prefix + spelled(name, expression, blanks), prefix.len() as int),
        assignment::can_start_statement(
            prefix + spelled(name, expression, blanks),
            prefix.len() as int,
        ),
        prefix.len() > 0 ==> !text::is_name_char(prefix.last()),
        forall|j: int|
            0 <= j < prefix.len() ==> !(#[trigger] scanner::is_live(
                prefix + spelled(name, expression, blanks),
                j,
            ) && prefix[j] == ':'),
    ensures
        ({
            let s = prefix + spelled(name, expression, blanks);
            &&& assignment::assignment_rewritten(s) == prefix + "SET "@ + name + " = "@ + expression
            &&& assignment::assignment_closed(s) == prefix + "SET "@ + name + " = "@ + expression
                + scanner::separation(expression, ""@)
        }),
{
    let s = prefix + spelled(name, expression, blanks);
    let operator = sign_at(prefix, name, blanks.0);
    lemma_sign_is_live(prefix, name, expression, blanks);
    lemma_target_behind(prefix, name, expression, blanks);
    lemma_no_sign_before(prefix, name, expression, blanks);
    let p = assignment::assigns_at(s);
    assert(p(operator));
    text::lemma_first_is(p, 0, s.len() as int, operator);
    law_assignment_becomes_set(s, operator);
}

/// No sign of an assignment stands before that of the one behind `prefix`.
proof fn lemma_no_sign_before(
    prefix: Seq<char>,
    name: Seq<char>,
    expression: Seq<char>,
    blanks: (Seq<char>, Seq<char>, Seq<char>),
)
    requires
        is_assignment(name, expression, blanks),
        forall|j: int|
            0 <= j < prefix.len() ==> !(#[trigger] scanner::is_live(
                prefix + spelled(name, expression, blanks),
                j,
            ) && prefix[j] == ':'),
    ensures
        forall|j: int|
            0 <= j < sign_at(prefix, name, blanks.0) ==> !#[trigger] assignment::assigns_at(
                prefix + spelled(name, expression, blanks),
            )(j),
{
    reveal_strlit(":=");
    let s = prefix + spelled(name, expression, blanks);
    let start = prefix.len() as int;
    let p = assignment::assigns_at(s);
    assert forall|j: int| 0 <= j < sign_at(prefix, name, blanks.0) implies !#[trigger] p(j) by {
        if p(j) {
            assert(s.subrange(j, j + 2)[0] == s[j]);
            assert(s[j] == ':');
            if j < start {
                assert(scanner::is_live(s, j));
                assert(s[j] == prefix[j]);
            } else if j < start + name.len() {
                assert(text::is_name_char(name[j - start]));
            } else {
                assert(text::is_whitespace_char(blanks.0[j - start - name.len()]));
            }
        }
    }
}

/// An identifier behind what does not continue it starts there.
proof fn lemma_identifier_start(prefix: Seq<char>, name: Seq<char>)
    requires
        prefix.len() > 0 ==> !text::is_name_char(prefix.last()),
        forall|i: int| 0 <= i < name.len() ==> text::is_name_char(#[trigger] name[i]),
    ensures
        assignment::identifier_start(prefix + name) == prefix.len(),
    decreases name.len(),
{
    if name.len() == 0 {
        assert(prefix + name =~= prefix);
    } else {
        let init = name.drop_last();
        assert(text::is_name_char(name[name.len() - 1]));
        assert forall|i: int| 0 <= i < init.len() implies text::is_name_char(#[trigger] init[i]) by {
            assert(init[i] == name[i]);
        }
        lemma_identifier_start(prefix, init);
        assert((prefix + name).drop_last() =~= prefix + init);
        assert((prefix + name).last() == name.last());
    }
}

/// `name := expression` becomes `SET name = expression` for every name and every
/// expression, and the semicolon behind it stays outside a line comment that
/// ends the expression.
pub proof fn law_assignment_is_spelled_with_set(
    name: Seq<char>,
    expression: Seq<char>,
    blanks: (Seq<char>, Seq<char>, Seq<char>),
)
    requires
        is_assignment(name, expression, blanks),
    ensures
        assignment::assignment_rewritten(spelled(name, expression, blanks)) == "SET "@ + name
            + " = "@ + expression,
        assignment::assignment_closed(spelled(name, expression, blanks)) == "SET "@ + name + " = "@
            + expression + scanner::separation(expression, ""@),
{
    let none = Seq::<char>::empty();
    let s = spelled(name, expression, blanks);
    assert(none + s =~= s);
    assert(s.skip(0) =~= s);
    assert(scanner::regions(s).skip(0) =~= scanner::regions(s));
    lemma_assignment_behind(none, name, expression, blanks);
    assert(none + "SET "@ =~= "SET "@);
}

/// An assignment behind `BEGIN`, `THEN`, `ELSE`, or `LOOP`, in any case, becomes a
/// SET too, and everything up to the name passes through.
pub proof fn law_assignment_behind_a_keyword_is_spelled_with_set(
    before: Seq<char>,
    keyword: Seq<char>,
    gap: Seq<char>,
    name: Seq<char>,
    expression: Seq<char>,
    blanks: (Seq<char>, Seq<char>, Seq<char>),
)
    requires
        is_assignment(name, expression, blanks),
        text::same_ignoring_case(keyword, "BEGIN"@) || text::same_ignoring_case(keyword, "THEN"@)
            || text::same_ignoring_case(keyword, "ELSE"@) || text::same_ignoring_case(
            keyword,
            "LOOP"@,
        ),
        gap.len() > 0,
        forall|i: int| 0 <= i < gap.len() ==> text::is_ascii_space(#[trigger] gap[i]),
        scanner::is_live(
            before + keyword + gap + spelled(name, expression, blanks),
            before.len() as int,
        ),
        before.len() > 0 ==> !searching::extends_word(before.last()) && before.last() != '$',
        forall|j: int| 0 <= j < before.len() ==> #[trigger] before[j] != ':',
    ensures
        assignment::assignment_rewritten(
            before + keyword + gap + spelled(name, expression, blanks),
        ) == before + keyword + gap + "SET "@ + name + " = "@ + expression,
{
    reveal_strlit("BEGIN");
    reveal_strlit("THEN");
    reveal_strlit("ELSE");
    reveal_strlit("LOOP");
    let prefix = before + keyword + gap;
    let s = prefix + spelled(name, expression, blanks);
    let at = before.len() as int;
    let end = at + keyword.len();
    let start = prefix.len() as int;
    let word = if text::same_ignoring_case(keyword, "BEGIN"@) {
        "BEGIN"@
    } else if text::same_ignoring_case(keyword, "THEN"@) {
        "THEN"@
    } else if text::same_ignoring_case(keyword, "ELSE"@) {
        "ELSE"@
    } else {
        "LOOP"@
    };
    assert(text::same_ignoring_case(keyword, word));
    assert forall|k: int| 0 <= k < keyword.len() implies scanning::is_keyword_char(
        #[trigger] keyword[k],
    ) by {
        assert(text::ascii_lower(keyword[k]) == text::ascii_lower(word[k]));
    }
    assert(s.subrange(at, end) =~= keyword);
    scanning::lemma_word_stays_live(s, at, end);
    assert(scanner::is_live(s, end - 1));
    scanning::law_rescan_from_live_code(s, end - 1);
    assert(is_clean_cut(s, end));
    assert forall|i: int| 0 <= i < gap.len() implies text::is_name_char(#[trigger] gap[i])
        || text::is_whitespace_char(gap[i]) || gap[i] == ':' || gap[i] == '.' || gap[i] == '=' by {
        assert(text::is_ascii_space(gap[i]));
    }
    lemma_plain(gap);
    assert(s.subrange(end, end + gap.len()) =~= gap);
    lemma_plain_is_live(s, end, gap);
    assert(scanner::is_live(s, start - 1));
    scanning::law_rescan_from_live_code(s, start - 1);
    assert(text::is_ascii_space(gap[0]));
    assert(s[end] == gap[0]);
    assert(text::is_ascii_space(gap[gap.len() - 1]));
    assert(prefix.last() == gap[gap.len() - 1]);
    if at > 0 {
        assert(s[at - 1] == before.last());
    }
    assert(scanner::live_keyword_at(s, word, at));
    lemma_last_live_is(s, end - 1, start);
    assert(s[end - 1] == keyword[keyword.len() - 1]);
    assert(assignment::ends_opener(s, end));
    assert forall|j: int| 0 <= j < prefix.len() implies !(#[trigger] scanner::is_live(s, j)
        && prefix[j] == ':') by {
        if j < at {
            assert(before[j] != ':');
        } else if j < end {
            assert(scanning::is_keyword_char(keyword[j - at]));
        } else {
            assert(text::is_ascii_space(gap[j - end]));
        }
    }
    lemma_assignment_behind(prefix, name, expression, blanks);
}

/// The last live character before a place that only whitespace parts from it.
proof fn lemma_last_live_is(s: Seq<char>, last: int, at: int)
    requires
        0 <= last < at <= s.len(),
        scanner::is_live(s, last),
        !text::is_whitespace_char(s[last]),
        forall|j: int| last < j < at ==> text::is_whitespace_char(#[trigger] s[j]),
    ensures
        assignment::last_live_before(s, at) == Some(last),
    decreases at,
{
    if at - 1 > last {
        assert(text::is_whitespace_char(s[at - 1]));
        lemma_last_live_is(s, last, at - 1);
    }
}

/// A statement without a `:=` in live code is no assignment and is left as it is.
pub proof fn law_statement_without_sign_is_kept(s: Seq<char>)
    requires
        forall|i: int|
            0 <= i < s.len() ==> !(#[trigger] scanner::is_live(s, i) && wording::reads_at(
                s,
                i,
                ":="@,
            )),
    ensures
        assignment::assignment_rewritten(s) == s,
        assignment::assignment_closed(s) == s,
{
    let p = assignment::assigns_at(s);
    assert forall|j: int| 0 <= j < s.len() implies !#[trigger] p(j) by {
        wording::lemma_occurs_reads(s, j, ":="@);
        assert(!(scanner::is_live(s, j) && wording::reads_at(s, j, ":="@)));
    }
    text::lemma_no_first(p, 0, s.len() as int);
}

/// An assignment that a semicolon follows is rewritten by itself, and what
/// follows the semicolon by itself.
pub proof fn law_assignment_is_rewritten_in_place(
    name: Seq<char>,
    expression: Seq<char>,
    blanks: (Seq<char>, Seq<char>, Seq<char>),
    rest: Seq<char>,
)
    requires
        is_assignment(name, expression, blanks),
        ({
            let statement = spelled(name, expression, blanks);
            let s = statement + ";"@ + rest;
            &&& scanner::is_live(s, statement.len() as int)
            &&& forall|j: int|
                0 <= j < statement.len() ==> !(#[trigger] scanner::is_live(s, j) && s[j] == ';')
            &&& assignment::qualified_target(statement) is None
        }),
    ensures
        assignment::assignments_rewritten(spelled(name, expression, blanks) + ";"@ + rest) == (
        match assignment::assignments_rewritten(rest) {
            Ok(written) => Ok(
                "SET "@ + name + " = "@ + expression + scanner::separation(expression, ""@) + ";"@
                    + written,
            ),
            Err(error) => Err::<Seq<char>, ErrorView>(error),
        }),
{
    reveal_strlit(";");
    let statement = spelled(name, expression, blanks);
    let s = statement + ";"@ + rest;
    let end = statement.len() as int;
    searching::law_search_finds_the_first(s, ";"@, ';', 0, end);
    assert(s.take(end) =~= statement);
    assert(s.skip(end + 1) =~= rest);
    law_assignment_is_spelled_with_set(name, expression, blanks);
}

/// A line that assigns is read as a binding, whatever whitespace and semicolons
/// stand around it.
pub proof fn law_assignment_line_is_a_binding(
    name: Seq<char>,
    expression: Seq<char>,
    blanks: (Seq<char>, Seq<char>, Seq<char>),
    edges: (Seq<char>, Seq<char>, Seq<char>),
)
    requires
        is_assignment(name, expression, blanks),
        wording::is_blank(edges.0),
        wording::is_run_of(edges.1, ';'),
        wording::is_blank(edges.2),
    ensures
        assignment::assignment_of(
            edges.0 + spelled(name, expression, blanks) + edges.1 + edges.2,
        ) == Some(BindingView { name, expression }),
{
    reveal_strlit(":=");
    let none = Seq::<char>::empty();
    let core = name + blanks.0 + ":="@ + blanks.1 + expression;
    let line = edges.0 + spelled(name, expression, blanks) + edges.1 + edges.2;
    assert(!text::is_whitespace_char(name[0]));
    assert(core[0] == name[0]);
    assert(core.last() == expression.last());
    if edges.1.len() == 0 {
        assert forall|i: int| 0 <= i < (blanks.2 + edges.2).len() implies
            text::is_whitespace_char(#[trigger] (blanks.2 + edges.2)[i]) by {
            if i < blanks.2.len() {
                assert(text::is_whitespace_char(blanks.2[i]));
            } else {
                assert(text::is_whitespace_char(edges.2[i - blanks.2.len()]));
            }
        }
        assert(line =~= edges.0 + core + (blanks.2 + edges.2));
        wording::law_trimming_keeps_what_is_between(edges.0, core, blanks.2 + edges.2);
        wording::law_a_run_is_taken_off_the_end(core, none, ';');
        assert(core + none =~= core);
        wording::law_trimming_keeps_what_is_between(none, core, none);
        assert(none + core + none =~= core);
    } else {
        let ended = core + blanks.2 + edges.1;
        assert(edges.1[edges.1.len() - 1] == ';');
        assert(ended[0] == core[0]);
        assert(ended.last() == ';');
        assert(line =~= edges.0 + ended + edges.2);
        wording::law_trimming_keeps_what_is_between(edges.0, ended, edges.2);
        let open = core + blanks.2;
        if blanks.2.len() > 0 {
            assert(text::is_whitespace_char(blanks.2[blanks.2.len() - 1]));
            assert(open.last() == blanks.2[blanks.2.len() - 1]);
        } else {
            assert(open =~= core);
        }
        wording::law_a_run_is_taken_off_the_end(open, edges.1, ';');
        wording::law_trimming_keeps_what_is_between(none, core, blanks.2);
        assert(none + core + blanks.2 =~= open);
    }
    let at = name.len() as int + blanks.0.len();
    let p = text::occurrences(core, ":="@);
    assert(core.subrange(at, at + 2) =~= ":="@);
    assert forall|j: int| 0 <= j < at implies !#[trigger] p(j) by {
        if p(j) {
            assert(core.subrange(j, j + 2)[0] == core[j]);
            if j < name.len() {
                assert(text::is_name_char(name[j]));
            } else {
                assert(text::is_whitespace_char(blanks.0[j - name.len()]));
            }
        }
    }
    text::lemma_first_is(p, 0, core.len() as int + 1, at);
    assert(core.take(at) =~= none + name + blanks.0);
    assert(!text::is_whitespace_char(name[name.len() - 1]));
    wording::law_trimming_keeps_what_is_between(none, name, blanks.0);
    assert(core.skip(at + 2) =~= blanks.1 + expression + none);
    wording::law_trimming_keeps_what_is_between(blanks.1, expression, none);
    law_identifiers_are_variable_names(name);
}

/// A line is a binding only when a name and an expression stand around a `:=`.
pub proof fn law_binding_has_a_name_and_an_expression(line: Seq<char>)
    ensures
        assignment::assignment_of(line) matches Some(binding) ==> {
            &&& is_identifier(binding.name)
            &&& binding.expression.len() > 0
            &&& wording::is_bare(binding.expression)
        },
        (forall|i: int| !#[trigger] wording::reads_at(line, i, ":="@)) ==> assignment::assignment_of(
            line,
        ) is None,
{
    let stripped = text::trimmed(text::without_trailing(text::trimmed(line), ';'));
    if let Some(binding) = assignment::assignment_of(line) {
        law_identifiers_are_variable_names(binding.name);
        reveal_strlit(":=");
        let operator = text::find_seq(stripped, ":="@)->0;
        lemma_trimmed_edges(stripped.skip(operator + 2));
        text::lemma_first_from(
            text::occurrences(stripped, ":="@),
            0,
            stripped.len() as int + 1,
        );
        wording::lemma_occurs_reads(stripped, operator, ":="@);
        lemma_trimmed_is_within(line);
        lemma_run_is_within(text::trimmed(line), ';');
        lemma_trimmed_is_within(text::without_trailing(text::trimmed(line), ';'));
        let a = choose|a: int| #[trigger] wording::reads_at(line, a, text::trimmed(line));
        let b = choose|b: int| #[trigger]
            wording::reads_at(text::trimmed(line), b, text::without_trailing(
                text::trimmed(line),
                ';',
            ));
        let c = choose|c: int| #[trigger]
            wording::reads_at(text::without_trailing(text::trimmed(line), ';'), c, stripped);
        let inner = text::without_trailing(text::trimmed(line), ';');
        let whole = text::trimmed(line);
        assert forall|k: int| 0 <= k < ":="@.len() implies line[a + b + c + operator + k]
            == #[trigger] ":="@[k] by {
            assert(stripped[operator + k] == ":="@[k]);
            assert(inner[c + (operator + k)] == stripped[operator + k]);
            assert(whole[b + (c + operator + k)] == inner[c + operator + k]);
            assert(line[a + (b + c + operator + k)] == whole[b + c + operator + k]);
        }
        assert(wording::reads_at(line, a + b + c + operator, ":="@));
    }
}

/// What is left of a trimmed text stands in it.
proof fn lemma_trimmed_is_within(s: Seq<char>)
    ensures
        exists|i: int| #[trigger] wording::reads_at(s, i, text::trimmed(s)),
{
    text::lemma_trimmed_start(s);
    let rest = text::trimmed_start(s);
    text::lemma_trimmed_end(rest);
    let at = s.len() - rest.len();
    let kept = text::trimmed(s);
    assert forall|k: int| 0 <= k < kept.len() implies s[at + k] == #[trigger] kept[k] by {
        assert(kept[k] == rest[k]);
    }
    assert(wording::reads_at(s, at, kept));
}

/// What is left of a text without the run at its end stands in it.
proof fn lemma_run_is_within(s: Seq<char>, c: char)
    ensures
        wording::reads_at(s, 0, text::without_trailing(s, c)),
    decreases s.len(),
{
    if s.len() > 0 && s.last() == c {
        lemma_run_is_within(s.drop_last(), c);
        let kept = text::without_trailing(s, c);
        assert forall|k: int| 0 <= k < kept.len() implies s[0 + k] == #[trigger] kept[k] by {
            assert(s.drop_last()[0 + k] == kept[k]);
        }
    }
}

/// A sign without a name before it that starts with no digit, or without an
/// expression behind it, makes no assignment: the statement is left as it is.
pub proof fn law_incomplete_assignment_is_kept(s: Seq<char>, operator: int)
    requires
        assignment::assignment_operator(s) == Some(operator),
        wording::is_solid(assigned_name(s, operator)),
        !is_identifier(assigned_name(s, operator)) || assigned_expression(s, operator).len() == 0,
        assigned_expression(s, operator).len() > 0 ==> assigned_expression(s, operator).last()
            != ';',
    ensures
        assignment::assignment_rewritten(s) == s,
        assignment::assignment_closed(s) == s,
{
    reveal_strlit(":=");
    reveal_strlit(" := ");
    let none = Seq::<char>::empty();
    let name = assigned_name(s, operator);
    let expression = assigned_expression(s, operator);
    assert(!text::is_whitespace_char(name[0]));
    assert(!text::is_whitespace_char(name[name.len() - 1]));
    wording::law_trimming_keeps_what_is_between(none, name, none);
    assert(none + name + none =~= name);
    lemma_trimmed_edges(s.skip(operator + 2));
    text::lemma_first_from(assignment::assigns_at(s), 0, s.len() as int);
    let before = assignment::before_operator(s, operator);
    lemma_identifier_run(before);
    let line = name + " := "@ + expression;
    let core = if expression.len() > 0 {
        line
    } else {
        name + " :="@
    };
    reveal_strlit(" :=");
    assert(core[0] == name[0]);
    if expression.len() > 0 {
        assert(core.last() == expression.last());
        wording::law_trimming_keeps_what_is_between(none, core, none);
        assert(none + core + none =~= line);
    } else {
        reveal_strlit(" ");
        assert(core.last() == '=');
        assert(line =~= none + core + " "@);
        wording::law_trimming_keeps_what_is_between(none, core, " "@);
    }
    wording::law_a_run_is_taken_off_the_end(core, none, ';');
    assert(core + none =~= core);
    wording::law_trimming_keeps_what_is_between(none, core, none);
    assert(none + core + none =~= core);
    let at = name.len() as int + 1;
    let p = text::occurrences(core, ":="@);
    assert(core.subrange(at, at + 2) =~= ":="@);
    assert forall|j: int| 0 <= j < at implies !#[trigger] p(j) by {
        if p(j) {
            assert(core.subrange(j, j + 2)[0] == core[j]);
            if j < name.len() {
                assert(text::is_name_char(name[j]));
            }
        }
    }
    text::lemma_first_is(p, 0, core.len() as int + 1, at);
    reveal_strlit(" ");
    assert(core.take(at) =~= none + name + " "@);
    wording::law_trimming_keeps_what_is_between(none, name, " "@);
    law_identifiers_are_variable_names(name);
    if expression.len() == 0 {
        assert(core.skip(at + 2) =~= none);
    }
}

/// The identifier that ends a text is made of identifier characters.
proof fn lemma_identifier_run(s: Seq<char>)
    ensures
        0 <= assignment::identifier_start(s) <= s.len(),
        forall|i: int|
            0 <= i < s.skip(assignment::identifier_start(s)).len() ==> text::is_name_char(
                #[trigger] s.skip(assignment::identifier_start(s))[i],
            ),
    decreases s.len(),
{
    if s.len() > 0 && text::is_name_char(s.last()) {
        let init = s.drop_last();
        lemma_identifier_run(init);
        let n = assignment::identifier_start(s);
        assert forall|i: int| 0 <= i < s.skip(n).len() implies text::is_name_char(
            #[trigger] s.skip(n)[i],
        ) by {
            if i < init.skip(n).len() {
                assert(init.skip(n)[i] == s.skip(n)[i]);
            }
        }
    }
}

// ---------------------------------------------------------------------------
// Qualified names
// ---------------------------------------------------------------------------

/// `name` is not empty and made of identifier characters without whitespace.
pub open spec fn is_name(name: Seq<char>) -> bool {
    &&& wording::is_solid(name)
    &&& forall|i: int| 0 <= i < name.len() ==> text::is_name_char(#[trigger] name[i])
}

/// `qualifier.name := expression` assigns to a qualified target, and a text of
/// that one statement is refused with both names.
pub proof fn law_qualified_assignment_names_its_target(
    qualifier: Seq<char>,
    name: Seq<char>,
    gap: Seq<char>,
    expression: Seq<char>,
)
    requires
        is_name(qualifier),
        is_name(name),
        wording::is_blank(gap),
    ensures
        ({
            let s = qualifier + "."@ + name + gap + ":="@ + expression;
            &&& assignment::qualified_target(s) == Some((qualifier, name))
            &&& (forall|j: int| !(#[trigger] scanner::is_live(s, j) && s[j] == ';'))
                ==> assignment::assignments_rewritten(s) == Err::<Seq<char>, _>(
                ErrorView::QualifiedAssignment { qualifier, name },
            )
        }),
{
    reveal_strlit(".");
    reveal_strlit(":=");
    let none = Seq::<char>::empty();
    let s = qualifier + "."@ + name + gap + ":="@ + expression;
    let front = qualifier + "."@ + name + gap + ":="@;
    let operator = front.len() - 2;
    assert(s.skip(0) =~= s);
    assert(scanner::regions(s).skip(0) =~= scanner::regions(s));
    assert(s.subrange(0, front.len() as int) =~= front);
    assert forall|i: int| 0 <= i < front.len() implies text::is_name_char(#[trigger] front[i])
        || text::is_whitespace_char(front[i]) || front[i] == ':' || front[i] == '.' || front[i]
        == '=' by {
        let n = qualifier.len() as int;
        let m = n + 1 + name.len();
        if i < n {
            assert(text::is_name_char(qualifier[i]));
        } else if i == n {
            assert(front[i] == '.');
        } else if i < m {
            assert(text::is_name_char(name[i - n - 1]));
        } else if i < m + gap.len() {
            assert(text::is_whitespace_char(gap[i - m]));
        }
    }
    lemma_plain(front);
    lemma_plain_is_live(s, 0, front);
    let p = scanner::live_occurrence(s, ":="@);
    assert(s.subrange(operator, operator + 2) =~= ":="@);
    assert forall|j: int| 0 <= j < operator implies !#[trigger] p(j) by {
        if p(j) {
            assert(s.subrange(j, j + 2)[0] == s[j]);
            let n = qualifier.len() as int;
            let m = n + 1 + name.len();
            if j < n {
                assert(text::is_name_char(qualifier[j]));
            } else if j == n {
                assert(s[j] == '.');
            } else if j < m {
                assert(text::is_name_char(name[j - n - 1]));
            } else {
                assert(text::is_whitespace_char(gap[j - m]));
            }
        }
    }
    assert(p(operator));
    text::lemma_first_is(p, 0, s.len() as int, operator);
    let whole = qualifier + "."@ + name;
    assert(!text::is_whitespace_char(name[name.len() - 1]));
    assert(whole.last() == name[name.len() - 1]);
    assert(s.take(operator) =~= whole + gap);
    wording::lemma_blank_after(whole, gap);
    let prefix = qualifier + "."@;
    assert(prefix.last() == '.');
    lemma_identifier_start(prefix, name);
    assert(whole.skip(prefix.len() as int) =~= name);
    assert(whole.take(prefix.len() as int) =~= prefix);
    assert(prefix.drop_last() =~= none + qualifier);
    lemma_identifier_start(none, qualifier);
    assert((none + qualifier).skip(0) =~= qualifier);
    if forall|j: int| !(#[trigger] scanner::is_live(s, j) && s[j] == ';') {
        let q = scanner::live_char(s, ';');
        assert forall|j: int| 0 <= j < s.len() implies !#[trigger] q(j) by {
            assert(!(scanner::is_live(s, j) && s[j] == ';'));
        }
        text::lemma_no_first(q, 0, s.len() as int);
    }
}

/// Wherever in a statement a qualified name stands right before a sign, it is read
/// whole: the identifier before the dot and the one behind it.
pub proof fn law_qualified_name_is_read_whole(
    before: Seq<char>,
    qualifier: Seq<char>,
    name: Seq<char>,
    gap: Seq<char>,
    rest: Seq<char>,
)
    requires
        before.len() > 0 ==> !text::is_name_char(before.last()),
        is_name(qualifier),
        is_name(name),
        wording::is_blank(gap),
    ensures
        assignment::qualified_name_ending_at(
            before + qualifier + "."@ + name + gap + rest,
            (before + qualifier + "."@ + name + gap).len() as int,
        ) == Some((qualifier, name)),
{
    reveal_strlit(".");
    let s = before + qualifier + "."@ + name + gap + rest;
    let whole = before + qualifier + "."@ + name;
    let prefix = before + qualifier + "."@;
    let operator = (whole + gap).len() as int;
    assert(s.take(operator) =~= whole + gap);
    assert(!text::is_whitespace_char(name[name.len() - 1]));
    assert(whole.last() == name[name.len() - 1]);
    wording::lemma_blank_after(whole, gap);
    assert(prefix.last() == '.');
    lemma_identifier_start(prefix, name);
    assert(whole.skip(prefix.len() as int) =~= name);
    assert(whole.take(prefix.len() as int) =~= prefix);
    assert(prefix.drop_last() =~= before + qualifier);
    lemma_identifier_start(before, qualifier);
    assert((before + qualifier).skip(before.len() as int) =~= qualifier);
}

/// `qualifier.name = expression` at the start of a statement assigns to a
/// qualified target, unless the sign is part of `==` or `=>`.
pub proof fn law_lone_equals_sign_names_its_target(
    blanks: (Seq<char>, Seq<char>),
    qualifier: Seq<char>,
    name: Seq<char>,
    rest: Seq<char>,
)
    requires
        forall|i: int| 0 <= i < blanks.0.len() ==> text::is_ascii_space(#[trigger] blanks.0[i]),
        forall|i: int| 0 <= i < blanks.1.len() ==> text::is_ascii_space(#[trigger] blanks.1[i]),
        is_name(qualifier),
        is_name(name),
        ({
            let s = blanks.0 + qualifier + "."@ + name + blanks.1 + "="@ + rest;
            forall|j: int|
                !(#[trigger] scanner::is_live(s, j) && wording::reads_at(s, j, ":="@))
        }),
    ensures
        ({
            let s = blanks.0 + qualifier + "."@ + name + blanks.1 + "="@ + rest;
            let is_lone = !(rest.len() > 0 && (rest[0] == '=' || rest[0] == '>'));
            &&& assignment::equals_target_at(s, 0) == (if is_lone {
                Some((qualifier, name))
            } else {
                None
            })
            &&& is_lone ==> assignment::qualified_target(s) == Some((qualifier, name))
        }),
{
    reveal_strlit(".");
    reveal_strlit("=");
    let s = blanks.0 + qualifier + "."@ + name + blanks.1 + "="@ + rest;
    let len = s.len() as int;
    let a = blanks.0.len() as int;
    let b = a + qualifier.len();
    let c = b + 1;
    let d = c + name.len();
    let e = d + blanks.1.len();
    assert forall|k: int| 0 <= k < blanks.0.len() implies s[k] == #[trigger] blanks.0[k] by {}
    assert forall|k: int| 0 <= k < qualifier.len() implies s[a + k] == #[trigger] qualifier[k] by {}
    assert forall|k: int| 0 <= k < name.len() implies s[c + k] == #[trigger] name[k] by {}
    assert forall|k: int| 0 <= k < blanks.1.len() implies s[d + k] == #[trigger] blanks.1[k] by {}
    assert(s[b] == '.');
    assert(s[e] == '=');
    if rest.len() > 0 {
        assert(s[e + 1] == rest[0]);
    }
    let space = assignment::not_ascii_space(s);
    let not_name = assignment::not_name_char(s);
    assert(text::is_name_char(qualifier[0]) && text::is_name_char(name[name.len() - 1]));
    assert(!text::is_whitespace_char(qualifier[0]));
    assert(s[a] == qualifier[0]);
    assert forall|j: int| 0 <= j < a implies !#[trigger] space(j) by {
        assert(text::is_ascii_space(blanks.0[j]));
    }
    text::lemma_first_is(space, 0, len, a);
    assert forall|j: int| a <= j < b implies !#[trigger] not_name(j) by {
        assert(text::is_name_char(qualifier[j - a]));
    }
    text::lemma_first_is(not_name, a, len, b);
    assert forall|j: int| c <= j < d implies !#[trigger] not_name(j) by {
        assert(text::is_name_char(name[j - c]));
    }
    if blanks.1.len() > 0 {
        assert(text::is_ascii_space(blanks.1[0]));
        assert(s[d] == blanks.1[0]);
    }
    text::lemma_first_is(not_name, c, len, d);
    assert forall|j: int| d <= j < e implies !#[trigger] space(j) by {
        assert(text::is_ascii_space(blanks.1[j - d]));
    }
    text::lemma_first_is(space, d, len, e);
    assert(s.subrange(a, b) =~= qualifier);
    assert(s.subrange(c, d) =~= name);
    let p = scanner::live_occurrence(s, ":="@);
    assert forall|j: int| 0 <= j < len implies !#[trigger] p(j) by {
        wording::lemma_occurs_reads(s, j, ":="@);
        assert(!(scanner::is_live(s, j) && wording::reads_at(s, j, ":="@)));
    }
    text::lemma_no_first(p, 0, len);
    assert(s.skip(0) =~= s);
    assert(assignment::statement_starts(s)[0] == 0);
}

/// A statement can start behind `BEGIN`, `THEN`, `ELSE`, and `LOOP` outside a CASE:
/// a qualified name with a lone `=` behind one is an assignment.
pub proof fn law_statement_starts_behind_a_keyword(s: Seq<char>, keyword: Seq<char>, i: int)
    requires
        keyword == "BEGIN"@ || keyword == "THEN"@ || keyword == "ELSE"@ || keyword == "LOOP"@,
        scanner::live_keyword_at(s, keyword, i),
        forall|j: int| 0 <= j <= i ==> !#[trigger] scanner::live_keyword_at(s, "CASE"@, j),
        assignment::equals_target_at(s, i + keyword.len()) is Some,
    ensures
        assignment::qualified_target(s) is Some,
{
    lemma_words_differ(s, keyword, i);
    lemma_start_is_reached(s, i + keyword.len(), 0, i);
    let starts = assignment::statement_starts(s);
    let k = choose|k: int|
        0 <= k < assignment::starts_after(s, 0, 0).len() && #[trigger] assignment::starts_after(
            s,
            0,
            0,
        )[k] == i + keyword.len();
    assert(starts[k + 1] == i + keyword.len());
    lemma_target_is_found(s, starts, k + 1);
}

/// The keywords that a statement can follow are no END, and each is its own.
proof fn lemma_words_differ(s: Seq<char>, keyword: Seq<char>, i: int)
    requires
        keyword == "BEGIN"@ || keyword == "THEN"@ || keyword == "ELSE"@ || keyword == "LOOP"@,
        scanner::live_keyword_at(s, keyword, i),
    ensures
        !scanner::live_keyword_at(s, "END"@, i),
        assignment::opens_statement(s, i) == Some(i + keyword.len()),
{
    reveal_strlit("BEGIN");
    reveal_strlit("THEN");
    reveal_strlit("ELSE");
    reveal_strlit("LOOP");
    reveal_strlit("END");
    let window = s.subrange(i, i + keyword.len());
    assert(window[0] == s[i]);
    assert(window[1] == s[i + 1]);
    assert(text::ascii_lower(window[0]) == text::ascii_lower(keyword[0]));
    assert(text::ascii_lower(window[1]) == text::ascii_lower(keyword[1]));
    if scanner::live_keyword_at(s, "END"@, i) {
        let other = s.subrange(i, i + 3);
        assert(text::ascii_lower(other[0]) == text::ascii_lower("END"@[0]));
        assert(text::ascii_lower(other[1]) == text::ascii_lower("END"@[1]));
        assert(other[0] == s[i] && other[1] == s[i + 1]);
    }
    if scanner::live_keyword_at(s, "BEGIN"@, i) {
        assert(s.subrange(i, i + 5)[0] == s[i]);
        assert(text::ascii_lower(s.subrange(i, i + 5)[0]) == text::ascii_lower("BEGIN"@[0]));
    }
    if scanner::live_keyword_at(s, "THEN"@, i) {
        assert(s.subrange(i, i + 4)[0] == s[i]);
        assert(text::ascii_lower(s.subrange(i, i + 4)[0]) == text::ascii_lower("THEN"@[0]));
    }
    if scanner::live_keyword_at(s, "ELSE"@, i) {
        assert(s.subrange(i, i + 4)[0] == s[i]);
        assert(text::ascii_lower(s.subrange(i, i + 4)[0]) == text::ascii_lower("ELSE"@[0]));
    }
    if scanner::live_keyword_at(s, "LOOP"@, i) {
        assert(s.subrange(i, i + 4)[0] == s[i]);
        assert(text::ascii_lower(s.subrange(i, i + 4)[0]) == text::ascii_lower("LOOP"@[0]));
    }
}

/// A search for statements outside a CASE reaches every keyword they can follow.
proof fn lemma_start_is_reached(s: Seq<char>, after: int, from: int, i: int)
    requires
        0 <= from <= i < s.len(),
        assignment::opens_statement(s, i) == Some(after),
        !scanner::live_keyword_at(s, "END"@, i),
        forall|j: int| 0 <= j <= i ==> !#[trigger] scanner::live_keyword_at(s, "CASE"@, j),
    ensures
        exists|k: int|
            0 <= k < assignment::starts_after(s, from, 0).len()
                && #[trigger] assignment::starts_after(s, from, 0)[k] == after,
    decreases i - from,
{
    let starts = assignment::starts_after(s, from, 0);
    assert(!scanner::live_keyword_at(s, "CASE"@, from));
    if from == i {
        assert(starts[0] == after);
    } else {
        lemma_start_is_reached(s, after, from + 1, i);
        let rest = assignment::starts_after(s, from + 1, 0);
        let k = choose|k: int|
            0 <= k < rest.len() && #[trigger] assignment::starts_after(s, from + 1, 0)[k] == after;
        if starts.len() == rest.len() {
            assert(starts =~= rest);
            assert(starts[k] == after);
        } else {
            assert(starts[k + 1] == after);
        }
    }
}

/// A target at one of several places is found, there or before.
proof fn lemma_target_is_found(s: Seq<char>, starts: Seq<int>, k: int)
    requires
        0 <= k < starts.len(),
        assignment::equals_target_at(s, starts[k]) is Some,
    ensures
        assignment::equals_target(s, starts) is Some,
    decreases starts.len(),
{
    if k > 0 && assignment::equals_target_at(s, starts[0]) is None {
        assert(starts.drop_first()[k - 1] == starts[k]);
        lemma_target_is_found(s, starts.drop_first(), k - 1);
    }
}

/// No statement starts inside a CASE: a comparison behind its THEN or ELSE stays a
/// comparison.
pub proof fn law_no_statement_starts_in_a_case(s: Seq<char>, open: int, close: int, depth: int)
    requires
        0 <= open < close < s.len(),
        0 <= depth,
        scanner::live_keyword_at(s, "CASE"@, open),
        scanner::live_keyword_at(s, "END"@, close),
        forall|j: int|
            open < j < close ==> !#[trigger] scanner::live_keyword_at(s, "CASE"@, j)
                && !scanner::live_keyword_at(s, "END"@, j),
    ensures
        assignment::starts_after(s, open, depth) == assignment::starts_after(s, close + 1, depth),
{
    lemma_case_is_passed(s, open + 1, close, depth + 1);
}

/// Up to its END, a CASE starts no statement.
proof fn lemma_case_is_passed(s: Seq<char>, from: int, close: int, depth: int)
    requires
        0 <= from <= close < s.len(),
        1 <= depth,
        scanner::live_keyword_at(s, "END"@, close),
        forall|j: int|
            from <= j < close ==> !#[trigger] scanner::live_keyword_at(s, "CASE"@, j)
                && !scanner::live_keyword_at(s, "END"@, j),
    ensures
        assignment::starts_after(s, from, depth) == assignment::starts_after(
            s,
            close + 1,
            depth - 1,
        ),
    decreases close - from,
{
    if from == close {
        reveal_strlit("CASE");
        reveal_strlit("END");
        if scanner::live_keyword_at(s, "CASE"@, close) {
            assert(s.subrange(close, close + 4)[0] == s[close]);
            assert(s.subrange(close, close + 3)[0] == s[close]);
            assert(text::ascii_lower(s.subrange(close, close + 4)[0]) == text::ascii_lower(
                "CASE"@[0],
            ));
            assert(text::ascii_lower(s.subrange(close, close + 3)[0]) == text::ascii_lower(
                "END"@[0],
            ));
        }
    } else {
        assert(!scanner::live_keyword_at(s, "CASE"@, from));
        lemma_case_is_passed(s, from + 1, close, depth);
    }
}

}
