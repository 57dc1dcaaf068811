//! Laws of the DECLARE section.

use vstd::prelude::*;

use crate::context::{ContextView, DeclarationView};
use crate::laws::context;
use crate::laws::lexing;
use crate::laws::searching;
use crate::laws::wording;
use crate::preprocessor::declaration;
use crate::scanner;
use crate::text;

verus! {

// ---------------------------------------------------------------------------
// Sections
// ---------------------------------------------------------------------------

/// The block is the text from the first `BEGIN` on, and the DECLARE section is
/// what stands between the first `DECLARE` and it, trimmed.
pub proof fn law_sections_meet_at_begin(body: Seq<char>, declare: int, begin: int)
    requires
        scanner::keyword_at(body, "BEGIN"@, begin),
        forall|j: int| 0 <= j < begin ==> !#[trigger] scanner::keyword_at(body, "BEGIN"@, j),
        scanner::keyword_at(body, "DECLARE"@, declare),
        forall|j: int| 0 <= j < declare ==> !#[trigger] scanner::keyword_at(body, "DECLARE"@, j),
    ensures
        declaration::sections(body).1 == body.subrange(begin, body.len() as int),
        declare < begin ==> declaration::sections(body).0 == Some(
            text::trimmed(body.subrange(declare + 7, begin)),
        ),
        begin <= declare ==> declaration::sections(body).0 is None,
{
    reveal_strlit("BEGIN");
    reveal_strlit("DECLARE");
    searching::law_search_finds_the_first(body, "BEGIN"@, ';', 0, begin);
    searching::law_search_finds_the_first(body, "DECLARE"@, ';', 0, declare);
    assert(body.skip(begin) =~= body.subrange(begin, body.len() as int));
}

/// A body without `DECLARE` declares nothing, and one without `BEGIN` is a block
/// as a whole.
pub proof fn law_sections_without_a_keyword(body: Seq<char>, begin: int)
    requires
        forall|j: int| 0 <= j < body.len() ==> !#[trigger] scanner::keyword_at(
            body,
            "DECLARE"@,
            j,
        ),
        forall|j: int| 0 <= j < begin ==> !#[trigger] scanner::keyword_at(body, "BEGIN"@, j),
        0 <= begin <= body.len(),
        begin < body.len() ==> scanner::keyword_at(body, "BEGIN"@, begin),
    ensures
        declaration::sections(body).0 is None,
        declaration::sections(body).1 == (if begin < body.len() {
            body.subrange(begin, body.len() as int)
        } else {
            body
        }),
{
    reveal_strlit("BEGIN");
    reveal_strlit("DECLARE");
    searching::law_search_finds_the_first(body, "BEGIN"@, ';', 0, begin);
    let p = scanner::keyword_positions(body, "DECLARE"@);
    assert forall|j: int| 0 <= j < body.len() implies !#[trigger] p(j) by {
        assert(!scanner::keyword_at(body, "DECLARE"@, j));
    }
    text::lemma_no_first(p, 0, body.len() as int);
    if begin == body.len() {
        let q = scanner::keyword_positions(body, "BEGIN"@);
        assert forall|j: int| 0 <= j < body.len() implies !#[trigger] q(j) by {
            assert(!scanner::keyword_at(body, "BEGIN"@, j));
        }
        text::lemma_no_first(q, 0, body.len() as int);
    } else {
        assert(body.skip(begin) =~= body.subrange(begin, body.len() as int));
    }
}

// ---------------------------------------------------------------------------
// Declarations
// ---------------------------------------------------------------------------

/// A `:=` of live code stands at `i`.
pub open spec fn assigns_default_at(s: Seq<char>, i: int) -> bool {
    scanner::is_live(s, i) && wording::reads_at(s, i, ":="@)
}

/// The first sign of a default value in `s` stands at `at` and takes `len`
/// characters: a `:=`, or the keyword `DEFAULT`.
pub open spec fn is_default_sign(s: Seq<char>, at: int, len: int) -> bool {
    &&& 0 <= at < s.len()
    &&& (len == 2 && assigns_default_at(s, at)) || (len == 7 && scanner::keyword_at(
        s,
        "DEFAULT"@,
        at,
    ))
    &&& forall|j: int|
        0 <= j < at ==> !#[trigger] assigns_default_at(s, j) && !scanner::keyword_at(
            s,
            "DEFAULT"@,
            j,
        )
}

/// What introduces a default is the first sign of one.
proof fn lemma_default_sign(s: Seq<char>, at: int, len: int)
    requires
        is_default_sign(s, at, len),
    ensures
        declaration::default_sign(s) == Some((at, len)),
        at + len <= s.len(),
{
    reveal_strlit(":=");
    reveal_strlit("DEFAULT");
    let end = s.len() as int;
    let p = scanner::live_occurrence(s, ":="@);
    let q = scanner::keyword_positions(s, "DEFAULT"@);
    text::lemma_first_from(p, 0, end);
    text::lemma_first_from(q, 0, end);
    assert forall|j: int| #[trigger] assigns_default_at(s, j) == p(j) by {
        wording::lemma_occurs_reads(s, j, ":="@);
    }
    assert forall|j: int| 0 <= j < at implies !#[trigger] p(j) by {
        assert(!assigns_default_at(s, j));
    }
    assert forall|j: int| 0 <= j < at implies !#[trigger] q(j) by {
        assert(!assigns_default_at(s, j));
    }
    if len == 2 {
        assert(p(at));
        text::lemma_first_is(p, 0, end, at);
        if q(at) {
            assert(s.subrange(at, at + 7)[0] == s[at]);
            assert(s.subrange(at, at + 2)[0] == s[at]);
            assert(text::ascii_lower(s.subrange(at, at + 7)[0]) == text::ascii_lower(
                "DEFAULT"@[0],
            ));
            assert(false);
        }
    } else {
        assert(q(at));
        text::lemma_first_is(q, 0, end, at);
    }
}

/// `s` is one dollar-quoted literal and nothing else, and `inner` is what it
/// quotes.
pub open spec fn is_sole_dollar_literal(s: Seq<char>, tag: Seq<char>, inner: Seq<char>) -> bool {
    &&& lexing::is_delimited(tag, inner)
    &&& s == lexing::delimiter(tag) + inner + lexing::delimiter(tag)
}

/// A default value is carried character for character, unless all of it is one
/// dollar-quoted literal, which is spelled as a string.
pub proof fn law_default_is_carried_whole(value: Seq<char>)
    ensures
        (forall|tag: Seq<char>, inner: Seq<char>|
            !#[trigger] is_sole_dollar_literal(value, tag, inner)) ==> declaration::default_spelled(
            value,
        ) == value,
        forall|tag: Seq<char>, inner: Seq<char>|
            #[trigger] is_sole_dollar_literal(value, tag, inner) ==> declaration::default_spelled(
                value,
            ) == seq!['\''] + scanner::quotes_doubled(inner) + seq!['\''],
        value.len() > 0 && value[0] != '$' ==> declaration::default_spelled(value) == value,
{
    assert forall|tag: Seq<char>, inner: Seq<char>| #[trigger]
        is_sole_dollar_literal(value, tag, inner) implies declaration::default_spelled(value)
        == seq!['\''] + scanner::quotes_doubled(inner) + seq!['\''] by {
        lexing::law_dollar_literal_ends_at_its_delimiter(tag, inner, Seq::empty());
        assert(value + Seq::<char>::empty() =~= value);
    }
    if scanner::sole_dollar_literal(value) is Some {
        let dollar = scanner::dollar_literal(value)->0;
        let tag_end = text::find_char(value, '$', 1)->0;
        text::lemma_first_from(text::is_char_at(value, '$'), 1, value.len() as int);
        let tag = value.subrange(1, tag_end);
        let opener = tag_end + 1;
        let mark = lexing::delimiter(tag);
        assert(value.take(opener) =~= mark);
        let rest = value.skip(opener);
        let p = text::occurrences(rest, mark);
        text::lemma_first_from(p, 0, rest.len() as int + 1);
        let close = text::find_seq(rest, mark)->0;
        let inner = value.subrange(opener, opener + close);
        assert(rest.subrange(close, close + opener) =~= mark);
        assert(rest =~= inner + mark);
        assert(value =~= mark + inner + mark);
        assert forall|j: int| 0 <= j < inner.len() implies !#[trigger] wording::reads_at(
            inner + mark,
            j,
            mark,
        ) by {
            wording::lemma_occurs_reads(rest, j, mark);
            assert(!p(j));
        }
        assert(is_sole_dollar_literal(value, tag, inner));
    }
}

/// A declaration is a name, a type of one word or more, and perhaps a default:
/// all that stands behind the sign, trimmed.
pub proof fn law_declaration_with_a_default(
    decl: Seq<char>,
    at: int,
    len: int,
    name: Seq<char>,
    kind: Seq<char>,
    value: Seq<char>,
    blanks: (Seq<char>, Seq<char>),
)
    requires
        wording::is_bare(decl),
        is_default_sign(decl, at, len),
        decl.take(at) == name + kind,
        wording::is_solid(name),
        kind.len() > 0 ==> text::is_whitespace_char(kind[0]),
        decl.skip(at + len) == blanks.0 + value + blanks.1,
        wording::is_blank(blanks.0),
        wording::is_blank(blanks.1),
        wording::is_bare(value),
    ensures
        text::words(kind).len() > 0 ==> declaration::declaration_of(decl) == Some(
            DeclarationView {
                name,
                data_type: text::joined(text::words(kind), " "@),
                default_value: Some(declaration::default_spelled(value)),
            },
        ),
        text::words(kind).len() > 0 && (forall|tag: Seq<char>, inner: Seq<char>|
            !#[trigger] is_sole_dollar_literal(value, tag, inner)) ==> declaration::declaration_of(
            decl,
        )->0.default_value == Some(value),
        text::words(kind).len() == 0 ==> declaration::declaration_of(decl) is None,
{
    let none = Seq::<char>::empty();
    lemma_default_sign(decl, at, len);
    wording::law_trimming_keeps_what_is_between(none, decl, none);
    assert(none + decl + none =~= decl);
    wording::law_trimming_keeps_what_is_between(blanks.0, value, blanks.1);
    lemma_name_and_kind(name, kind);
    law_default_is_carried_whole(value);
}

/// The name of a declaration and the words of its type.
proof fn lemma_name_and_kind(name: Seq<char>, kind: Seq<char>)
    requires
        wording::is_solid(name),
        kind.len() > 0 ==> text::is_whitespace_char(kind[0]),
    ensures
        text::words(text::trimmed(name + kind)) == seq![name] + text::words(kind),
        (seq![name] + text::words(kind)).skip(1) == text::words(kind),
{
    let none = Seq::<char>::empty();
    let whole = name + kind;
    assert(!text::is_whitespace_char(name[0]));
    assert(whole[0] == name[0]);
    text::lemma_trimmed_end(whole);
    assert(text::trimmed_start(whole) == whole);
    lemma_trimming_keeps_words(name, kind);
    assert((seq![name] + text::words(kind)).skip(1) =~= text::words(kind));
}

/// Whitespace at the end of a text adds no words.
proof fn lemma_trimming_keeps_words(name: Seq<char>, kind: Seq<char>)
    requires
        wording::is_solid(name),
        kind.len() > 0 ==> text::is_whitespace_char(kind[0]),
    ensures
        text::words(text::trimmed_end(name + kind)) == seq![name] + text::words(kind),
    decreases kind.len(),
{
    let none = Seq::<char>::empty();
    let whole = name + kind;
    wording::law_whitespace_parts_words(none, name, kind);
    assert(none + name + kind =~= whole);
    if kind.len() > 0 && text::is_whitespace_char(kind.last()) {
        let init = kind.drop_last();
        assert(whole.drop_last() =~= name + init);
        assert(whole.last() == kind.last());
        if init.len() > 0 {
            assert(init[0] == kind[0]);
        }
        lemma_trimming_keeps_words(name, init);
        lemma_space_adds_no_word(init, kind.last());
        assert(init.push(kind.last()) =~= kind);
    } else {
        if kind.len() == 0 {
            assert(whole =~= name);
            assert(!text::is_whitespace_char(name[name.len() - 1]));
        } else {
            assert(whole.last() == kind.last());
        }
        assert(text::trimmed_end(whole) == whole);
    }
}

/// One more space at the end of a text adds no word.
proof fn lemma_space_adds_no_word(s: Seq<char>, c: char)
    requires
        text::is_whitespace_char(c),
    ensures
        text::words(s.push(c)) == text::words(s),
    decreases s.len(),
{
    let t = s.push(c);
    text::lemma_trimmed_start(s);
    let rest = text::trimmed_start(s);
    let blank = s.take(s.len() - rest.len());
    wording::lemma_trimmed_off(s);
    if rest.len() == 0 {
        assert forall|i: int| 0 <= i < t.len() implies text::is_whitespace_char(
            #[trigger] t[i],
        ) by {
            if i < s.len() {
                assert(t[i] == blank[i]);
            }
        }
        wording::law_whitespace_holds_no_words(t);
    } else {
        assert(t =~= blank + rest.push(c));
        assert(rest.push(c)[0] == rest[0]);
        wording::lemma_blank_before(blank, rest.push(c));
        let n = text::word_len(rest);
        text::lemma_word_len(rest);
        let p = text::is_whitespace_at(rest);
        let q = text::is_whitespace_at(rest.push(c));
        text::lemma_first_from(p, 0, rest.len() as int);
        assert forall|j: int| 0 <= j < n implies !#[trigger] q(j) by {
            assert(!p(j));
        }
        assert(q(n));
        text::lemma_first_is(q, 0, rest.len() as int + 1, n);
        assert(rest.push(c).take(n) =~= rest.take(n));
        assert(rest.push(c).skip(n) =~= rest.skip(n).push(c));
        lemma_space_adds_no_word(rest.skip(n), c);
    }
}

/// A declaration without a default carries none, and what is no name with a type
/// declares nothing.
pub proof fn law_declaration_without_a_default(decl: Seq<char>, name: Seq<char>, kind: Seq<char>)
    requires
        wording::is_bare(decl),
        decl == name + kind,
        wording::is_solid(name),
        kind.len() > 0 ==> text::is_whitespace_char(kind[0]),
        forall|j: int|
            0 <= j < decl.len() ==> !#[trigger] assigns_default_at(decl, j) && !scanner::keyword_at(
                decl,
                "DEFAULT"@,
                j,
            ),
    ensures
        text::words(kind).len() > 0 ==> declaration::declaration_of(decl) == Some(
            DeclarationView {
                name,
                data_type: text::joined(text::words(kind), " "@),
                default_value: None,
            },
        ),
        text::words(kind).len() == 0 ==> declaration::declaration_of(decl) is None,
{
    let none = Seq::<char>::empty();
    wording::law_trimming_keeps_what_is_between(none, decl, none);
    assert(none + decl + none =~= decl);
    reveal_strlit(":=");
    reveal_strlit("DEFAULT");
    let end = decl.len() as int;
    let p = scanner::live_occurrence(decl, ":="@);
    let q = scanner::keyword_positions(decl, "DEFAULT"@);
    assert forall|j: int| 0 <= j < end implies !#[trigger] p(j) by {
        wording::lemma_occurs_reads(decl, j, ":="@);
        assert(!assigns_default_at(decl, j));
    }
    assert forall|j: int| 0 <= j < end implies !#[trigger] q(j) by {
        assert(!assigns_default_at(decl, j));
    }
    text::lemma_no_first(p, 0, end);
    text::lemma_no_first(q, 0, end);
    lemma_name_and_kind(name, kind);
}

/// Whitespace around a declaration says nothing.
pub proof fn law_whitespace_around_a_declaration(
    before: Seq<char>,
    decl: Seq<char>,
    after: Seq<char>,
)
    requires
        wording::is_blank(before),
        wording::is_blank(after),
        wording::is_bare(decl),
    ensures
        declaration::declaration_of(before + decl + after) == declaration::declaration_of(decl),
{
    let none = Seq::<char>::empty();
    wording::law_trimming_keeps_what_is_between(before, decl, after);
    wording::law_trimming_keeps_what_is_between(none, decl, none);
    assert(none + decl + none =~= decl);
}

/// The context of a body holds what its DECLARE section declares, piece by piece,
/// and nothing else.
pub proof fn law_context_holds_what_is_declared(body: Seq<char>, name: Seq<char>)
    ensures
        declaration::declared_context(body) == (ContextView {
            declarations: declaration::declared_context(body).declarations,
            ..ContextView::empty()
        }),
        declaration::declared_context(body).declarations.contains_key(name) <==> (
        declaration::sections(body).0 matches Some(section) && exists|k: int|
            0 <= k < scanner::live_pieces(section, ';', 0).len() && context::declares(
                #[trigger] scanner::live_pieces(section, ';', 0)[k],
                name,
            )),
{
    if let Some(section) = declaration::sections(body).0 {
        context::law_section_declares_its_names(
            ContextView::empty(),
            scanner::live_pieces(section, ';', 0),
            name,
        );
    }
}

}
