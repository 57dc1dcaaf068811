//! Laws of the rewrites.

use vstd::prelude::*;

use crate::error::ErrorView;
use crate::laws::assigning;
use crate::laws::raising;
use crate::laws::requoting;
use crate::laws::scanning;
use crate::laws::splicing;
use crate::preprocessor;
use crate::preprocessor::assignment;
use crate::preprocessor::declaration;
use crate::preprocessor::raise;
use crate::preprocessor::select_into;
use crate::preprocessor::top_level;
use crate::scanner;
use crate::scanner::Region;
use crate::text;

verus! {

// ---------------------------------------------------------------------------
// ELSIF
// ---------------------------------------------------------------------------

/// `s` with every live `ELSIF` from `from` on spelled `ELSEIF`.
spec fn spelled_from(s: Seq<char>, from: int) -> Seq<char> {
    s.take(from) + preprocessor::elsif_rewritten(s, from)
}

/// No live `ELSIF` stands in `s` from `from` on.
spec fn no_elsif_from(s: Seq<char>, from: int) -> bool {
    forall|j: int| from <= j ==> !scanner::live_keyword_at(s, "ELSIF"@, j)
}

/// The spelling of both keywords.
proof fn lemma_elsif_words()
    ensures
        "ELSIF"@ == seq!['E', 'L', 'S', 'I', 'F'],
        "ELSEIF"@ == seq!['E', 'L', 'S', 'E', 'I', 'F'],
        splicing::is_word("ELSIF"@),
        splicing::is_word("ELSEIF"@),
{
    reveal_strlit("ELSIF");
    reveal_strlit("ELSEIF");
    assert("ELSIF"@ =~= seq!['E', 'L', 'S', 'I', 'F']);
    assert("ELSEIF"@ =~= seq!['E', 'L', 'S', 'E', 'I', 'F']);
}

/// Where a keyword stands, in any case, a word stands.
proof fn lemma_keyword_is_word(s: Seq<char>, keyword: Seq<char>, i: int)
    requires
        text::occurs_ignoring_case_at(s, keyword, i),
        splicing::is_word(keyword),
    ensures
        splicing::is_word(s.subrange(i, i + keyword.len())),
{
    let word = s.subrange(i, i + keyword.len());
    assert forall|k: int| 0 <= k < word.len() implies scanning::is_keyword_char(
        #[trigger] word[k],
    ) by {
        assert(scanning::is_keyword_char(keyword[k]));
        assert(text::ascii_lower(word[k]) == text::ascii_lower(keyword[k]));
    }
}

/// Respelling from `from` on leaves the regions before `from` and everything
/// quoted as they are, and leaves no `ELSIF` from there on.
proof fn lemma_elsif_from(s: Seq<char>, from: int)
    requires
        0 <= from <= s.len(),
    ensures
        scanner::regions(spelled_from(s, from)).take(from) == scanner::regions(s).take(from),
        splicing::quoted_text(spelled_from(s, from)) == splicing::quoted_text(s),
        no_elsif_from(spelled_from(s, from), from),
    decreases s.len() - from,
{
    let r = spelled_from(s, from);
    let p = scanner::live_keywords(s, "ELSIF"@);
    text::lemma_first_from(p, from, s.len() as int);
    lemma_elsif_words();
    match scanner::find_live_keyword(s, "ELSIF"@, from) {
        None => {
            assert(r =~= s);
            assert forall|j: int| from <= j implies !scanner::live_keyword_at(r, "ELSIF"@, j) by {
                assert(j < s.len() ==> !p(j));
            }
        },
        Some(i) => {
            let before = s.take(i);
            let word = s.subrange(i, i + 5);
            let tail = preprocessor::elsif_rewritten(s, i + 5);
            let r1 = spelled_from(s, i + 5);
            lemma_elsif_from(s, i + 5);
            assert(r1 =~= before + word + tail);
            assert(r =~= before + "ELSEIF"@ + tail);
            let map = scanner::regions(s);
            let map1 = scanner::regions(r1);
            scanner::lemma_regions_len(s);
            scanner::lemma_regions_len(r1);
            scanner::lemma_regions_len(r);
            scanner::lemma_regions_len(tail);
            assert(map1.take(i + 5)[i] == map.take(i + 5)[i]);
            assert(scanner::is_live(r1, i));
            if i > 0 {
                assert(map1.take(i + 5)[i - 1] == map.take(i + 5)[i - 1]);
                assert(r1[i - 1] == s[i - 1]);
            }
            lemma_keyword_is_word(s, "ELSIF"@, i);
            splicing::law_words_of_live_code_are_interchangeable(before, word, "ELSEIF"@, tail);
            let front = map1.take(i);
            assert(front =~= map.take(i)) by {
                assert(map1.take(i) =~= map1.take(i + 5).take(i));
                assert(map.take(i) =~= map.take(i + 5).take(i));
            }
            assert(scanner::regions(r).take(from) =~= map.take(from)) by {
                assert(scanner::regions(r).take(i) =~= front);
                assert(scanner::regions(r).take(from) =~= scanner::regions(r).take(i).take(from));
            }
            lemma_same_quoted_text(before, word, "ELSEIF"@, tail, front);
            assert forall|k: int| from <= k < i implies !scanner::live_keyword_at(s, "ELSIF"@, k) by {
                assert(!p(k));
            }
            assert forall|j: int| from <= j implies !scanner::live_keyword_at(r, "ELSIF"@, j) by {
                lemma_no_elsif_at(s, i, tail, j, from);
            }
        },
    }
}

/// A word of live code adds nothing to what is quoted.
proof fn lemma_same_quoted_text(
    before: Seq<char>,
    word: Seq<char>,
    other: Seq<char>,
    after: Seq<char>,
    front: Seq<Region>,
)
    requires
        front.len() == before.len(),
        scanner::regions(before + word + after) == front + splicing::all_code(word.len())
            + scanner::regions(after),
        scanner::regions(before + other + after) == front + splicing::all_code(other.len())
            + scanner::regions(after),
    ensures
        splicing::quoted_text(before + word + after) == splicing::quoted_text(
            before + other + after,
        ),
{
    let quoted = Region::Quoted;
    scanner::lemma_regions_len(after);
    splicing::lemma_selected_concat(
        before,
        front,
        word,
        splicing::all_code(word.len()),
        quoted,
    );
    splicing::lemma_selected_concat(
        before,
        front,
        other,
        splicing::all_code(other.len()),
        quoted,
    );
    splicing::lemma_selected_uniform(word, splicing::all_code(word.len()), quoted);
    splicing::lemma_selected_uniform(other, splicing::all_code(other.len()), quoted);
    splicing::lemma_selected_concat(
        before + word,
        front + splicing::all_code(word.len()),
        after,
        scanner::regions(after),
        quoted,
    );
    splicing::lemma_selected_concat(
        before + other,
        front + splicing::all_code(other.len()),
        after,
        scanner::regions(after),
        quoted,
    );
}

/// Once the first `ELSIF`, at `i`, is respelled, none is left from `from` on.
proof fn lemma_no_elsif_at(s: Seq<char>, i: int, tail: Seq<char>, j: int, from: int)
    requires
        tail == preprocessor::elsif_rewritten(s, i + 5),
        0 <= from <= i <= s.len() - 5,
        !scanner::is_live_word(s, i - 1),
        forall|k: int| from <= k < i ==> !scanner::live_keyword_at(s, "ELSIF"@, k),
        scanner::regions(s.take(i) + "ELSEIF"@ + tail) == scanner::regions(s).take(i)
            + splicing::all_code(6) + scanner::regions(tail),
        scanner::regions(spelled_from(s, i + 5)) == scanner::regions(s).take(i)
            + splicing::all_code(5) + scanner::regions(tail),
        no_elsif_from(spelled_from(s, i + 5), i + 5),
        from <= j,
    ensures
        !scanner::live_keyword_at(s.take(i) + "ELSEIF"@ + tail, "ELSIF"@, j),
{
    let r = s.take(i) + "ELSEIF"@ + tail;
    if scanner::live_keyword_at(r, "ELSIF"@, j) {
        let r1 = spelled_from(s, i + 5);
        lemma_elsif_words();
        scanner::lemma_regions_len(s);
        scanner::lemma_regions_len(tail);
        lemma_keyword_is_word(r, "ELSIF"@, j);
        let window = r.subrange(j, j + 5);
        scanning::lemma_word_stays_live(r, j, j + 5);
        assert forall|k: int| j <= k < j + 5 implies #[trigger] scanner::is_live_word(r, k) by {
            assert(scanning::is_keyword_char(window[k - j]));
            assert(scanner::is_live(r, k));
        }
        let map = scanner::regions(s);
        let respelled = scanner::regions(r);
        assert forall|k: int| 0 <= k < i implies respelled[k] == map[k] by {}
        if j < i {
            if j + 5 > i {
                assert(scanner::is_live_word(r, i - 1));
                assert(r[i - 1] == s[i - 1]);
                assert(scanner::is_live_word(s, i - 1));
            }
            assert(j + 5 <= i);
            if j + 5 == i {
                assert(r[i] == "ELSEIF"@[0]);
                assert(scanner::is_live_word(r, i));
            }
            assert(s.subrange(j, j + 5) =~= window);
            assert(scanner::live_keyword_at(s, "ELSIF"@, j));
        } else if j == i {
            assert(window[3] == "ELSEIF"@[3]);
            assert(text::ascii_lower(window[3]) == text::ascii_lower("ELSIF"@[3]));
        } else if j <= i + 6 {
            assert(r[j - 1] == "ELSEIF"@[j - 1 - i]);
            assert(scanning::is_keyword_char("ELSEIF"@[j - 1 - i]));
            assert(respelled[j - 1] == Region::Code);
            assert(scanner::is_live_word(r, j - 1));
        } else {
            let map1 = scanner::regions(r1);
            assert(r1.subrange(j - 1, j + 4) =~= window);
            assert(map1[j - 1] == respelled[j]);
            assert(r1[j - 2] == r[j - 1]);
            assert(map1[j - 2] == respelled[j - 1]);
            if j + 5 < r.len() {
                assert(r1[j + 4] == r[j + 5]);
                assert(map1[j + 4] == respelled[j + 5]);
            }
            assert(scanner::live_keyword_at(r1, "ELSIF"@, j - 1));
        }
    }
}

/// Respelling `ELSIF` leaves every string, comment, and literal as it is.
pub proof fn law_elsif_rewrite_keeps_quoted_text(s: Seq<char>)
    ensures
        splicing::quoted_text(preprocessor::elsif_rewritten(s, 0)) == splicing::quoted_text(s),
{
    lemma_elsif_from(s, 0);
    assert(spelled_from(s, 0) =~= preprocessor::elsif_rewritten(s, 0));
}

/// Respelling `ELSIF` leaves none in live code, so a second pass changes
/// nothing.
pub proof fn law_elsif_rewrite_is_complete(s: Seq<char>)
    ensures
        scanner::find_live_keyword(preprocessor::elsif_rewritten(s, 0), "ELSIF"@, 0) is None,
        preprocessor::elsif_rewritten(preprocessor::elsif_rewritten(s, 0), 0)
            == preprocessor::elsif_rewritten(s, 0),
{
    let r = preprocessor::elsif_rewritten(s, 0);
    lemma_elsif_from(s, 0);
    assert(spelled_from(s, 0) =~= r);
    text::lemma_no_first(scanner::live_keywords(r, "ELSIF"@), 0, r.len() as int);
    assert(r.skip(0) =~= r);
}

/// The first `ELSIF` of live code becomes `ELSEIF`, with what stands before it as
/// it is, and then what stands behind it is respelled.
pub proof fn law_elsif_becomes_elseif(s: Seq<char>, from: int, i: int)
    requires
        0 <= from <= i <= s.len(),
        i < s.len() ==> scanner::live_keyword_at(s, "ELSIF"@, i),
        forall|j: int| from <= j < i ==> !#[trigger] scanner::live_keyword_at(s, "ELSIF"@, j),
    ensures
        preprocessor::elsif_rewritten(s, from) == (if i < s.len() {
            s.subrange(from, i) + "ELSEIF"@ + preprocessor::elsif_rewritten(s, i + 5)
        } else {
            s.subrange(from, i)
        }),
{
    lemma_elsif_words();
    let p = scanner::live_keywords(s, "ELSIF"@);
    assert forall|j: int| from <= j < i implies !#[trigger] p(j) by {
        assert(!scanner::live_keyword_at(s, "ELSIF"@, j));
    }
    if i < s.len() {
        text::lemma_first_is(p, from, s.len() as int, i);
    } else {
        text::lemma_no_first(p, from, s.len() as int);
        assert(s.skip(from) =~= s.subrange(from, i));
    }
}

// ---------------------------------------------------------------------------
// SELECT INTO
// ---------------------------------------------------------------------------

/// A SELECT INTO with a SET spelling becomes one SET for each of its variables,
/// in order, and each takes the column at the same place from the same source.
pub proof fn law_select_into_sets_each_variable(
    stmt: Seq<char>,
    parts: select_into::SelectInto,
    k: int,
)
    requires
        select_into::select_into_parts(stmt) == Some(parts),
        select_into::has_set_spelling(stmt, parts),
        0 <= k < select_into::variables_of(stmt, parts).len(),
    ensures
        select_into::set_statements(stmt, parts).len() == select_into::variables_of(
            stmt,
            parts,
        ).len(),
        select_into::set_statements(stmt, parts)[k] == select_into::set_statement(
            stmt.subrange(parts.start, parts.select),
            select_into::columns_of(stmt, parts)[k],
            select_into::variables_of(stmt, parts)[k],
            select_into::source_of(stmt, parts),
        ),
        select_into::statement_rewritten(stmt) == stmt.take(parts.start) + text::joined(
            select_into::set_statements(stmt, parts),
            "\n"@ + select_into::indentation(stmt, parts.start),
        ),
{
}

/// A statement that is no SELECT INTO, or one with no SET spelling, is kept as
/// it is.
pub proof fn law_other_statements_are_kept(stmt: Seq<char>)
    requires
        select_into::select_into_parts(stmt) matches Some(parts) ==> !select_into::has_set_spelling(
            stmt,
            parts,
        ),
    ensures
        select_into::statement_rewritten(stmt) == stmt,
{
}

/// Nothing quoted, commented, or inside parentheses is taken for a keyword of a
/// statement.
pub proof fn law_nested_text_holds_no_top_level_keyword(
    s: Seq<char>,
    keyword: Seq<char>,
    from: int,
    i: int,
)
    requires
        top_level::top_level_keyword(s, keyword, from) == Some(i),
    ensures
        from <= i < s.len(),
        scanner::is_live(s, i),
        top_level::depth_at(s, i) == 0,
        text::occurs_ignoring_case_at(s, keyword, i),
        forall|j: int| from <= j < i ==> !#[trigger] top_level::top_level_keyword_at(s, keyword, j),
{
    let p = top_level::top_level_keywords(s, keyword);
    text::lemma_first_from(p, from, s.len() as int);
    assert forall|j: int| from <= j < i implies !#[trigger] top_level::top_level_keyword_at(
        s,
        keyword,
        j,
    ) by {
        assert(!p(j));
    }
}

/// `INTO` stands nowhere in `s`, in any case.
pub open spec fn holds_no_into(s: Seq<char>) -> bool {
    forall|i: int| !#[trigger] text::occurs_ignoring_case_at(s, "INTO"@, i)
}

/// A text without `INTO` holds no SELECT INTO and is left as it is.
pub proof fn law_text_without_into_is_kept(s: Seq<char>, from: int)
    requires
        0 <= from <= s.len(),
        holds_no_into(s),
    ensures
        select_into::select_into_rewritten(s, from) == s.skip(from),
    decreases s.len() - from,
{
    text::lemma_first_from(scanner::live_char(s, ';'), from, s.len() as int);
    if let Some(end) = scanner::find_live_char(s, ';', from) {
        let stmt = s.subrange(from, end + 1);
        if let Some(select) = top_level::top_level_keyword(stmt, "SELECT"@, 0) {
            let q = top_level::top_level_keywords(stmt, "INTO"@);
            assert forall|j: int| select <= j < stmt.len() implies !#[trigger] q(j) by {
                if q(j) {
                    assert(stmt.subrange(j, j + "INTO"@.len()) =~= s.subrange(
                        from + j,
                        from + j + "INTO"@.len(),
                    ));
                    text::lemma_first_from(
                        top_level::top_level_keywords(stmt, "SELECT"@),
                        0,
                        stmt.len() as int,
                    );
                    assert(text::occurs_ignoring_case_at(s, "INTO"@, from + j));
                }
            }
            text::lemma_no_first(q, select, stmt.len() as int);
        }
        law_text_without_into_is_kept(s, end + 1);
        assert(stmt + s.skip(end + 1) =~= s.skip(from));
    }
}

// ---------------------------------------------------------------------------
// Whole bodies
// ---------------------------------------------------------------------------

/// Preprocessing refuses two shapes and no others: an assignment to a qualified
/// target, and a USING clause that has no translation.
pub proof fn law_preprocessing_refuses_two_shapes(body: Seq<char>)
    ensures
        preprocessor::preprocessed(body) matches Err(error) ==> error is QualifiedAssignment
            || error is UnsupportedRaiseUsing,
{
    let block = declaration::sections(body).1;
    let branched = preprocessor::elsif_rewritten(block, 0);
    assignment::lemma_assignment_refusal(branched);
    if let Ok(assigned) = assignment::assignments_rewritten(branched) {
        raising::law_raise_refusal_names_a_using_clause(
            select_into::select_into_rewritten(assigned, 0),
            0,
        );
    }
}

/// A preprocessed body holds no dollar-quoted literal.
pub proof fn law_preprocessed_body_holds_no_dollar_literal(body: Seq<char>, written: Seq<char>)
    requires
        preprocessor::statements_rewritten(declaration::sections(body).1) == Ok::<_, ErrorView>(
            written,
        ),
        requoting::dollar_literals_escape_no_quote(written),
    ensures
        preprocessor::preprocessed(body) matches Ok(sql) && !scanning::has_dollar_literal(sql),
{
    requoting::law_requoted_text_holds_no_dollar_literal(written);
}

/// `block` holds nothing to rewrite: no dollar-quoted literal, no live `ELSIF` or
/// `RAISE`, no assignment, and no `INTO`.
pub open spec fn holds_nothing_to_rewrite(block: Seq<char>) -> bool {
    &&& !scanning::has_dollar_literal(block)
    &&& scanner::find_live_keyword(block, "ELSIF"@, 0) is None
    &&& scanner::find_live_keyword(block, "RAISE"@, 0) is None
    &&& holds_no_into(block)
    &&& assigning::assigns_to_plain_names(block)
    &&& forall|k: int|
        0 <= k < assigning::statements(block).len() ==> assignment::assignment_operator(
            #[trigger] assigning::statements(block)[k],
        ) is None
}

/// A block that holds nothing to rewrite passes through preprocessing unchanged.
pub proof fn law_plain_block_passes_through(body: Seq<char>)
    requires
        holds_nothing_to_rewrite(declaration::sections(body).1),
    ensures
        preprocessor::preprocessed(body) == Ok::<_, ErrorView>(declaration::sections(body).1),
{
    let block = declaration::sections(body).1;
    scanning::law_requoting_without_dollar_literal(block);
    assert(block.skip(0) =~= block);
    assert(preprocessor::elsif_rewritten(block, 0) == block);
    assigning::law_plain_assignments_are_rewritten(block);
    let list = assigning::statements(block);
    assert(assigning::each_rewritten(list) =~= list);
    scanning::law_pieces_join_to_the_text(block, ';', 0);
    reveal_strlit(";");
    assert(";"@ =~= seq![';']);
    law_text_without_into_is_kept(block, 0);
    assert(raise::raises_rewritten(block, 0) == Ok::<_, ErrorView>(block));
}

/// A block goes through every rewrite, each on what the one before it wrote:
/// ELSIF, assignments, SELECT INTO, RAISE, and at last the dollar-quoted literals.
pub proof fn law_every_rewrite_is_applied(
    body: Seq<char>,
    assigned: Seq<char>,
    raised: Seq<char>,
)
    requires
        ({
            let block = declaration::sections(body).1;
            &&& assignment::assignments_rewritten(preprocessor::elsif_rewritten(block, 0)) == Ok::<
                _,
                ErrorView,
            >(assigned)
            &&& raise::raises_rewritten(select_into::select_into_rewritten(assigned, 0), 0) == Ok::<
                _,
                ErrorView,
            >(raised)
        }),
    ensures
        preprocessor::preprocessed(body) == Ok::<_, ErrorView>(scanner::requoted(raised)),
{
}

/// The refusal of a rewrite is the refusal of the body, with the dollar-quoted
/// literals of a clause that it names spelled as strings.
pub proof fn law_refusals_are_passed_on(body: Seq<char>, assigned: Seq<char>, clause: Seq<char>)
    ensures
        ({
            let block = declaration::sections(body).1;
            let written = assignment::assignments_rewritten(
                preprocessor::elsif_rewritten(block, 0),
            );
            &&& written is Err ==> preprocessor::preprocessed(body) == written
            &&& written == Ok::<_, ErrorView>(assigned) && raise::raises_rewritten(
                select_into::select_into_rewritten(assigned, 0),
                0,
            ) == Err::<Seq<char>, _>(ErrorView::UnsupportedRaiseUsing { clause })
                ==> preprocessor::preprocessed(body) == Err::<Seq<char>, _>(
                ErrorView::UnsupportedRaiseUsing { clause: scanner::requoted(clause) },
            )
        }),
{
    assignment::lemma_assignment_refusal(
        preprocessor::elsif_rewritten(declaration::sections(body).1, 0),
    );
}

}
