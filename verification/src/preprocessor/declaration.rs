//! The DECLARE section: where it stands, and what its declarations say.

use vstd::prelude::*;
use vstd::slice::slice_subrange;

use crate::context::{ContextView, DeclarationView, PlPgSqlContext, VariableDeclaration};
use crate::preprocessor::PlPgSqlPreprocessor;
use crate::scanner;
use crate::scanner::Scanner;
use crate::text;

verus! {

// ---------------------------------------------------------------------------
// Sections
// ---------------------------------------------------------------------------

/// The text between the first `DECLARE` and the first `BEGIN`, when they stand
/// in this order, and the text from the first `BEGIN` on, which is the whole
/// text without one.
pub open spec fn sections(body: Seq<char>) -> (Option<Seq<char>>, Seq<char>) {
    match scanner::find_keyword_from(body, "BEGIN"@, 0) {
        None => (None, body),
        Some(begin) => match scanner::find_keyword_from(body, "DECLARE"@, 0) {
            Some(declare) => if declare < begin {
                (
                    Some(text::trimmed(body.subrange(declare + "DECLARE"@.len(), begin))),
                    body.skip(begin),
                )
            } else {
                (None, body.skip(begin))
            },
            None => (None, body.skip(begin)),
        },
    }
}

// ---------------------------------------------------------------------------
// Declarations
// ---------------------------------------------------------------------------

/// A default value, with a dollar-quoted literal rewritten as a single-quoted
/// one, which is the only string literal SQLite has, and anything else
/// unchanged.
pub open spec fn default_spelled(default: Seq<char>) -> Seq<char> {
    match scanner::sole_dollar_literal(default) {
        Some(inner) => scanner::single_quoted(inner),
        None => default,
    }
}

/// Where the default value of a declaration is introduced, and how long what
/// introduces it is: a live `:=` or the keyword `DEFAULT`, whichever comes first.
pub open spec fn default_sign(decl: Seq<char>) -> Option<(int, int)> {
    let walrus = scanner::find_live_seq(decl, ":="@);
    match scanner::find_keyword_from(decl, "DEFAULT"@, 0) {
        Some(word) => if walrus matches Some(at) && at < word {
            Some((walrus->0, ":="@.len() as int))
        } else {
            Some((word, "DEFAULT"@.len() as int))
        },
        None => match walrus {
            Some(at) => Some((at, ":="@.len() as int)),
            None => None,
        },
    }
}

/// What stands before the default value of a declaration, and the default
/// value.
pub open spec fn split_default(decl: Seq<char>) -> (Seq<char>, Option<Seq<char>>) {
    match default_sign(decl) {
        Some((at, len)) => (
            text::trimmed(decl.take(at)),
            Some(text::trimmed(decl.skip(at + len))),
        ),
        None => (decl, None),
    }
}

/// The declaration that `decl` spells: a name, the words of a type, and perhaps
/// a default value.
pub open spec fn declaration_of(decl: Seq<char>) -> Option<DeclarationView> {
    let (name_type, default) = split_default(text::trimmed(decl));
    let parts = text::words(name_type);
    if parts.len() >= 2 {
        Some(
            DeclarationView {
                name: parts[0],
                data_type: text::joined(parts.skip(1), " "@),
                default_value: match default {
                    Some(value) => Some(default_spelled(value)),
                    None => None,
                },
            },
        )
    } else {
        None
    }
}

/// `context` with the declarations that `pieces` spell, in order.
pub open spec fn declared(context: ContextView, pieces: Seq<Seq<char>>) -> ContextView
    decreases pieces.len(),
{
    if pieces.len() == 0 {
        context
    } else {
        let before = declared(context, pieces.drop_last());
        match declaration_of(pieces.last()) {
            Some(declaration) => before.declare(declaration),
            None => before,
        }
    }
}

/// The context that a body's DECLARE section makes.
pub open spec fn declared_context(body: Seq<char>) -> ContextView {
    match sections(body).0 {
        Some(section) => declared(ContextView::empty(), scanner::live_pieces(section, ';', 0)),
        None => ContextView::empty(),
    }
}

/// The view of a declaration that may be absent.
pub open spec fn optional_declaration(declaration: Option<VariableDeclaration>) -> Option<
    DeclarationView,
> {
    match declaration {
        Some(present) => Some(present@),
        None => None,
    }
}

/// Rewrite a dollar-quoted default as a single-quoted one, which is the only
/// string literal SQLite has.
///
/// Anything else is returned unchanged, so a value that is already a literal or
/// an expression passes through.
fn single_quoted_default(default: &[char]) -> (spelled: String)
    ensures
        spelled@ == default_spelled(default@),
{
    match scanner::dollar_quoted_body(default) {
        Some(inner) => text::string_of(&scanner::quote(inner)),
        None => text::string_of(default),
    }
}

/// Where the sign that introduces a default value starts and ends.
fn find_default_sign(decl: &[char]) -> (found: Option<(usize, usize)>)
    ensures
        match found {
            Some((at, after)) => at <= after <= decl@.len() && default_sign(decl@) == Some(
                (at as int, after - at),
            ),
            None => default_sign(decl@) is None,
        },
{
    proof {
        reveal_strlit(":=");
        reveal_strlit("DEFAULT");
    }
    let walrus = scanner::live_position_of_seq(decl, &text::chars_of(":="));
    let word = scanner::keyword_position(decl, "DEFAULT", 0);
    match (walrus, word) {
        (Some(at), Some(word)) => {
            assert(at + 2 <= decl.len() && word + 7 <= decl.len());
            if at < word {
                Some((at, at + 2))
            } else {
                Some((word, word + 7))
            }
        },
        (Some(at), None) => {
            assert(at + 2 <= decl.len());
            Some((at, at + 2))
        },
        (None, Some(word)) => {
            assert(word + 7 <= decl.len());
            Some((word, word + 7))
        },
        (None, None) => None,
    }
}

/// The words from the second on, with a space between each two.
fn join_tail(parts: &Vec<&[char]>, words: Ghost<Seq<Seq<char>>>) -> (joined: String)
    requires
        parts@.len() == words@.len(),
        parts@.len() >= 1,
        forall|i: int| 0 <= i < parts@.len() ==> (#[trigger] parts@[i])@ == words@[i],
    ensures
        joined@ == text::joined(words@.skip(1), " "@),
{
    let ghost tail = words@.skip(1);
    let mut out: Vec<char> = Vec::new();
    let mut i: usize = 1;
    assert(tail.take(0) == Seq::<Seq<char>>::empty());
    while i < parts.len()
        invariant
            parts@.len() == words@.len(),
            forall|k: int| 0 <= k < parts@.len() ==> (#[trigger] parts@[k])@ == words@[k],
            tail == words@.skip(1),
            1 <= i <= parts@.len(),
            out@ == text::joined(tail.take(i - 1), " "@),
        decreases parts@.len() - i,
    {
        let ghost before = out@;
        if i > 1 {
            text::push_text(&mut out, " ");
        }
        text::push_chars(&mut out, parts[i]);
        proof {
            let now = tail.take(i as int);
            assert(now.drop_last() == tail.take(i - 1));
            assert(now.last() == parts@[i as int]@);
            if i > 1 {
                assert(out@ =~= before + " "@ + now.last());
            } else {
                assert(out@ =~= now[0]);
            }
        }
        i += 1;
    }
    assert(tail.take(i - 1) == tail);
    text::string_of(&out)
}

impl PlPgSqlPreprocessor {
    /// Splits a body into its DECLARE section and the block from `BEGIN` on.
    pub fn split_declare_and_body(body: &str) -> (parts: (Option<String>, String))
        ensures
            parts.1@ == sections(body@).1,
            match parts.0 {
                Some(section) => sections(body@).0 == Some(section@),
                None => sections(body@).0 is None,
            },
    {
        let chars = text::chars_of(body);
        let begin = match scanner::keyword_position(&chars, "BEGIN", 0) {
            Some(begin) => begin,
            None => {
                return (None, text::string_of(&chars));
            },
        };
        let block = text::string_of(slice_subrange(&chars, begin, chars.len()));
        assert(block@ == chars@.skip(begin as int));
        match scanner::keyword_position(&chars, "DECLARE", 0) {
            Some(declare) => {
                if declare < begin {
                    proof {
                        reveal_strlit("DECLARE");
                        text::lemma_first_from(
                            scanner::keyword_positions(chars@, "DECLARE"@),
                            0,
                            chars@.len() as int,
                        );
                        text::lemma_first_from(
                            scanner::keyword_positions(chars@, "BEGIN"@),
                            0,
                            chars@.len() as int,
                        );
                        scanner::lemma_keywords_apart(
                            chars@,
                            "DECLARE"@,
                            declare as int,
                            "BEGIN"@,
                            begin as int,
                        );
                    }
                    let section = text::trim(slice_subrange(&chars, declare + 7, begin));
                    (Some(text::string_of(section)), block)
                } else {
                    (None, block)
                }
            },
            None => (None, block),
        }
    }

    /// Reads one declaration, or nothing when it has no type.
    pub fn parse_single_declaration(decl: &str) -> (found: Option<VariableDeclaration>)
        ensures
            optional_declaration(found) == declaration_of(decl@),
    {
        let chars = text::chars_of(decl);
        let decl_chars = text::trim(&chars);
        let ghost whole = decl_chars@;
        let (name_type, default_value): (&[char], Option<String>) = match find_default_sign(
            decl_chars,
        ) {
            Some((at, after)) => {
                assert(whole.subrange(0, at as int) == whole.take(at as int));
                assert(whole.subrange(after as int, whole.len() as int) == whole.skip(
                    after as int,
                ));
                (
                    text::trim(slice_subrange(decl_chars, 0, at)),
                    Some(
                        single_quoted_default(
                            text::trim(slice_subrange(decl_chars, after, decl_chars.len())),
                        ),
                    ),
                )
            },
            None => (decl_chars, None),
        };
        let parts = text::split_words(name_type);
        if parts.len() >= 2 {
            let data_type = join_tail(&parts, Ghost(text::words(name_type@)));
            Some(
                VariableDeclaration {
                    name: text::string_of(parts[0]),
                    data_type,
                    default_value,
                },
            )
        } else {
            None
        }
    }

    /// Adds the declarations of a DECLARE section to `context`.
    pub fn parse_declarations(declare_section: &str, context: &mut PlPgSqlContext)
        ensures
            final(context)@ == declared(
                old(context)@,
                scanner::live_pieces(declare_section@, ';', 0),
            ),
    {
        let pieces = Scanner::new(declare_section).split_in_code(';' as u8);
        let ghost all = scanner::live_pieces(declare_section@, ';', 0);
        let mut i: usize = 0;
        assert(all.take(0) == Seq::<Seq<char>>::empty());
        while i < pieces.len()
            invariant
                pieces@.len() == all.len(),
                forall|k: int| 0 <= k < pieces@.len() ==> (#[trigger] pieces@[k])@ == all[k],
                i <= pieces@.len(),
                context@ == declared(old(context)@, all.take(i as int)),
            decreases pieces@.len() - i,
        {
            assert(all.take(i + 1).drop_last() == all.take(i as int));
            assert(all.take(i + 1).last() == pieces@[i as int]@);
            if let Some(declaration) = Self::parse_single_declaration(pieces[i]) {
                context.add_declaration(declaration);
            }
            i += 1;
        }
        assert(all.take(i as int) == all);
    }
}

}
