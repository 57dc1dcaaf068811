//! Preprocessor for PL/pgSQL function bodies.
//!
//! Transforms variable assignments (`:=`) into SET statements, extracts DECLARE
//! blocks, and rewrites SELECT INTO as SET subqueries for sqlparser
//! compatibility.

use vstd::prelude::*;
use vstd::slice::slice_subrange;

use crate::context::PlPgSqlContext;
use crate::error::{Error, ErrorView};
use crate::scanner;
use crate::scanner::Scanner;
use crate::text;

pub mod assignment;
pub mod declaration;
pub mod raise;
pub mod select_into;
pub mod top_level;

verus! {

/// Preprocessor for PL/pgSQL function bodies.
pub struct PlPgSqlPreprocessor;

/// What rewriting a whole text gives, once `done` has been written and `rest` is
/// what rewriting its remainder gives.
pub open spec fn after_writing(done: Seq<char>, rest: Result<Seq<char>, ErrorView>) -> Result<
    Seq<char>,
    ErrorView,
> {
    match rest {
        Ok(tail) => Ok(done + tail),
        Err(error) => Err(error),
    }
}

/// `result` is what `expected` says, text for text.
pub open spec fn agrees(
    result: Result<String, Error>,
    expected: Result<Seq<char>, ErrorView>,
) -> bool {
    match result {
        Ok(written) => expected == Ok::<Seq<char>, ErrorView>(written@),
        Err(error) => expected == Err::<Seq<char>, ErrorView>(error@),
    }
}

// ---------------------------------------------------------------------------
// Exception handlers
// ---------------------------------------------------------------------------

/// An exception handler opens at `i`: `EXCEPTION`, followed by `WHEN`.
pub open spec fn is_exception_handler_at(body: Seq<char>, i: int) -> bool {
    &&& scanner::keyword_at(body, "EXCEPTION"@, i)
    &&& scanner::next_word_from(body, i + "EXCEPTION"@.len()) matches Some(word)
    &&& text::same_ignoring_case(word, "when"@)
}

/// `body` opens an exception handler.
pub open spec fn opens_exception_handler(body: Seq<char>) -> bool {
    exists|i: int| is_exception_handler_at(body, i)
}

impl PlPgSqlPreprocessor {
    /// True when `body` opens an exception handler.
    ///
    /// A handler is `EXCEPTION WHEN`, which is what separates it from the
    /// `RAISE EXCEPTION` statement that shares the keyword. Read through the
    /// scanner, so neither one inside a literal or a comment counts.
    #[must_use]
    pub fn has_exception_handler(body: &str) -> (answer: bool)
        ensures
            answer == opens_exception_handler(body@),
    {
        let chars = text::chars_of(body);
        let when_word = text::chars_of("when");
        let ghost p = scanner::keyword_positions(chars@, "EXCEPTION"@);
        let mut from: usize = 0;
        proof {
            reveal_strlit("EXCEPTION");
        }
        loop
            invariant
                chars@ == body@,
                when_word@ == "when"@,
                p == scanner::keyword_positions(chars@, "EXCEPTION"@),
                "EXCEPTION"@.len() == 9,
                forall|k: int|
                    0 <= k < "EXCEPTION"@.len() ==> scanner::is_word_char(
                        #[trigger] "EXCEPTION"@[k],
                    ),
                from <= chars@.len(),
                forall|j: int| j < from ==> !#[trigger] is_exception_handler_at(body@, j),
            decreases chars@.len() - from,
        {
            proof {
                text::lemma_first_from(p, from as int, chars@.len() as int);
            }
            let position = match scanner::keyword_position(&chars, "EXCEPTION", from) {
                Some(position) => position,
                None => {
                    assert forall|j: int| !#[trigger] is_exception_handler_at(body@, j) by {
                        assert(j >= from && j < chars@.len() ==> !p(j));
                    }
                    return false;
                },
            };
            let after = position + 9;
            if let Some((start, end)) = scanner::next_word_bounds(&chars, after) {
                let word = slice_subrange(&chars, start, end);
                if text::equals_ignoring_case(word, &when_word) {
                    assert(is_exception_handler_at(body@, position as int));
                    return true;
                }
            }
            assert forall|j: int| j < after implies !#[trigger] is_exception_handler_at(
                body@,
                j,
            ) by {
                if from <= j < position {
                    assert(!p(j));
                } else if position < j && is_exception_handler_at(body@, j) {
                    scanner::lemma_keywords_apart(
                        chars@,
                        "EXCEPTION"@,
                        position as int,
                        "EXCEPTION"@,
                        j,
                    );
                }
            }
            from = after;
        }
    }
}

// ---------------------------------------------------------------------------
// ELSIF
// ---------------------------------------------------------------------------

/// `s` from `from` on, with every live `ELSIF` spelled `ELSEIF`.
pub open spec fn elsif_rewritten(s: Seq<char>, from: int) -> Seq<char>
    decreases s.len() - from,
{
    match scanner::find_live_keyword(s, "ELSIF"@, from) {
        Some(i) => {
            proof {
                text::lemma_first_from(
                    scanner::live_keywords(s, "ELSIF"@),
                    from,
                    s.len() as int,
                );
            }
            s.subrange(from, i) + "ELSEIF"@ + elsif_rewritten(s, i + "ELSIF"@.len())
        },
        None => s.skip(from),
    }
}

impl PlPgSqlPreprocessor {
    /// Rewrites PL/pgSQL's `ELSIF` to the `ELSEIF` SQLite accepts, in live
    /// code only.
    ///
    /// A word boundary is required on both sides, so a column named `preelsif`
    /// is left alone, and every quoted span, dollar quotes included, is
    /// untouchable and extends no word.
    pub fn transform_elsif(body: &str) -> (rewritten: String)
        ensures
            rewritten@ == elsif_rewritten(body@, 0),
    {
        let chars = text::chars_of(body);
        let mut out: Vec<char> = Vec::new();
        let mut from: usize = 0;
        proof {
            reveal_strlit("ELSIF");
        }
        assert(out@ + elsif_rewritten(body@, 0) =~= elsif_rewritten(body@, 0));
        loop
            invariant
                chars@ == body@,
                "ELSIF"@.len() == 5,
                from <= chars@.len(),
                out@ + elsif_rewritten(body@, from as int) == elsif_rewritten(body@, 0),
            decreases chars@.len() - from,
        {
            let ghost done = out@;
            match scanner::live_keyword_position(&chars, "ELSIF", from) {
                Some(i) => {
                    let after = i + 5;
                    text::push_chars(&mut out, slice_subrange(&chars, from, i));
                    text::push_text(&mut out, "ELSEIF");
                    assert(out@ + elsif_rewritten(body@, i + 5) =~= done + (chars@.subrange(
                        from as int,
                        i as int,
                    ) + "ELSEIF"@ + elsif_rewritten(body@, i + 5)));
                    from = after;
                },
                None => {
                    let tail = slice_subrange(&chars, from, chars.len());
                    assert(tail@ == chars@.skip(from as int));
                    text::push_chars(&mut out, tail);
                    return text::string_of(&out);
                },
            }
        }
    }
}

// ---------------------------------------------------------------------------
// Whole bodies
// ---------------------------------------------------------------------------

/// A refusal, with the dollar-quoted literals of the clause that it names
/// requoted, as they are in a rewritten block.
pub open spec fn refusal_requoted(error: ErrorView) -> ErrorView {
    match error {
        ErrorView::UnsupportedRaiseUsing { clause } => ErrorView::UnsupportedRaiseUsing {
            clause: scanner::requoted(clause),
        },
        _ => error,
    }
}

/// A block with every rewrite applied, one after the other, but for its
/// dollar-quoted literals.
pub open spec fn statements_rewritten(block: Seq<char>) -> Result<Seq<char>, ErrorView> {
    match assignment::assignments_rewritten(elsif_rewritten(block, 0)) {
        Ok(assigned) => raise::raises_rewritten(
            select_into::select_into_rewritten(assigned, 0),
            0,
        ),
        Err(error) => Err(error),
    }
}

/// A block with every rewrite applied.
///
/// A dollar-quoted literal has no SQLite syntax, so it becomes a single-quoted
/// one. Doing it last means that every rewrite before sees the text as it was
/// written: a backslash is an ordinary character in a dollar-quoted literal, and
/// would escape the closing quote of a single-quoted one.
pub open spec fn block_rewritten(block: Seq<char>) -> Result<Seq<char>, ErrorView> {
    match statements_rewritten(block) {
        Ok(written) => Ok(scanner::requoted(written)),
        Err(error) => Err(refusal_requoted(error)),
    }
}

/// What preprocessing a body gives: the rewritten block.
pub open spec fn preprocessed(body: Seq<char>) -> Result<Seq<char>, ErrorView> {
    block_rewritten(declaration::sections(body).1)
}

impl PlPgSqlPreprocessor {
    /// Preprocesses a PL/pgSQL function body string.
    ///
    /// # Errors
    ///
    /// Returns [`Error::QualifiedAssignment`] when a statement assigns to
    /// a qualified target, such as `NEW.col`, outside the one shape that is
    /// translatable, and [`Error::UnsupportedRaiseUsing`] when a RAISE EXCEPTION
    /// USING clause has no translation.
    pub fn preprocess(body: &str) -> (result: Result<(String, PlPgSqlContext), Error>)
        ensures
            match result {
                Ok((rewritten, context)) => preprocessed(body@) == Ok::<_, ErrorView>(rewritten@)
                    && context@ == declaration::declared_context(body@),
                Err(error) => preprocessed(body@) == Err::<Seq<char>, _>(error@),
            },
    {
        let mut context = PlPgSqlContext::new();
        let (declare_section, body_section) = Self::split_declare_and_body(body);
        if let Some(declare) = declare_section {
            Self::parse_declarations(declare.as_str(), &mut context);
        }
        match Self::transform_body(body_section.as_str(), &context) {
            Ok(rewritten) => Ok((rewritten, context)),
            Err(error) => Err(error),
        }
    }

    /// Applies every rewrite to a block.
    fn transform_body(body: &str, context: &PlPgSqlContext) -> (result: Result<String, Error>)
        ensures
            agrees(result, block_rewritten(body@)),
    {
        let branched = Self::transform_elsif(body);
        proof {
            assignment::lemma_assignment_refusal(branched@);
        }
        let assigned = match Self::transform_assignments(branched.as_str(), context) {
            Ok(assigned) => assigned,
            Err(error) => {
                return Err(error);
            },
        };
        let selected = Self::transform_select_into(assigned.as_str(), context);
        match Self::transform_raise_statements(selected.as_str()) {
            Ok(raised) => Ok(Scanner::new(raised.as_str()).requote_dollar_literals()),
            Err(Error::UnsupportedRaiseUsing { clause }) => Err(
                Error::UnsupportedRaiseUsing {
                    clause: Scanner::new(clause.as_str()).requote_dollar_literals(),
                },
            ),
            Err(error) => Err(error),
        }
    }
}

}
