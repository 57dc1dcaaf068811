//! Laws of parsing whole bodies.

use sqlparser::ast::Statement;
use sqlparser::parser::ParserError;
use sqlparser::tokenizer::{Token, TokenizerError};
use vstd::prelude::*;

use crate::body;
use crate::body::{BlockWord, MissingDelimiter};
use crate::context::ContextView;
use crate::error;
use crate::error::ErrorView;
use crate::laws::wording;
use crate::preprocessor;
use crate::preprocessor::declaration;
use crate::scanner;
use crate::text;

verus! {

/// The block that is found opens with the first BEGIN and closes with the last
/// END, which stands behind it.
pub proof fn law_block_is_outermost(words: Seq<BlockWord>, begin: int, end: int)
    requires
        body::block_bounds(words) == Ok::<_, MissingDelimiter>((begin, end)),
    ensures
        0 <= begin < end < words.len(),
        words[begin] == BlockWord::Begin,
        words[end] == BlockWord::End,
        forall|i: int| 0 <= i < begin ==> words[i] != BlockWord::Begin,
        forall|i: int| end < i < words.len() ==> words[i] != BlockWord::End,
{
    let p = body::begin_at(words);
    text::lemma_first_from(p, 0, words.len() as int);
    lemma_last_end(words, words.len() as int);
    assert forall|i: int| 0 <= i < begin implies words[i] != BlockWord::Begin by {
        assert(!p(i));
    }
}

/// A block is found if and only if an END stands behind some BEGIN.
pub proof fn law_block_is_found(words: Seq<BlockWord>)
    ensures
        body::block_bounds(words) is Ok <==> exists|i: int, j: int|
            0 <= i < j < words.len() && #[trigger] words[i] == BlockWord::Begin
                && #[trigger] words[j] == BlockWord::End,
        body::block_bounds(words) == Err::<(int, int), _>(MissingDelimiter::Begin) <==> forall|
            i: int,
        |
            0 <= i < words.len() ==> words[i] != BlockWord::Begin,
{
    let p = body::begin_at(words);
    let len = words.len() as int;
    text::lemma_first_from(p, 0, len);
    lemma_last_end(words, len);
    if let Ok((begin, end)) = body::block_bounds(words) {
        assert(words[begin] == BlockWord::Begin && words[end] == BlockWord::End);
    }
    assert forall|i: int, j: int|
        0 <= i < j < len && #[trigger] words[i] == BlockWord::Begin && #[trigger] words[j]
            == BlockWord::End implies body::block_bounds(words) is Ok by {
        assert(p(i));
        let begin = text::first_from(p, 0, len)->0;
        let end = body::last_end(words, len)->0;
        assert(begin <= i);
        assert(j <= end);
    }
    if text::first_from(p, 0, len) is None {
        assert forall|i: int| 0 <= i < len implies words[i] != BlockWord::Begin by {
            assert(!p(i));
        }
    } else {
        let begin = text::first_from(p, 0, len)->0;
        assert(words[begin] == BlockWord::Begin);
    }
}

/// The last END before a place, and no other END between.
proof fn lemma_last_end(words: Seq<BlockWord>, to: int)
    requires
        0 <= to <= words.len(),
    ensures
        match body::last_end(words, to) {
            Some(end) => 0 <= end < to && words[end] == BlockWord::End && forall|i: int|
                end < i < to ==> words[i] != BlockWord::End,
            None => forall|i: int| 0 <= i < to ==> words[i] != BlockWord::End,
        },
    decreases to,
{
    if to > 0 && words[to - 1] != BlockWord::End {
        lemma_last_end(words, to - 1);
    }
}

/// A body with an exception handler is refused, whatever else it holds.
pub proof fn law_exception_handler_is_refused(name: Seq<char>, raw_body: Seq<char>)
    requires
        preprocessor::opens_exception_handler(body::stripped(raw_body)),
    ensures
        body::parsed(name, raw_body) == Err::<(Seq<Statement>, ContextView), _>(
            ErrorView::ExceptionHandler { name },
        ),
{
}

/// A body with a dollar-quoted literal that never closes is refused.
pub proof fn law_open_dollar_literal_is_refused(name: Seq<char>, raw_body: Seq<char>)
    requires
        scanner::has_open_dollar_literal(body::stripped(raw_body)),
    ensures
        body::parsed(name, raw_body) matches Err(error) && (error
            == (ErrorView::UnterminatedDollarQuote { name }) || error
            == (ErrorView::ExceptionHandler { name })),
{
}

/// A body whose tokens hold no block is refused, and the refusal says which
/// delimiter is missing.
pub proof fn law_missing_block_is_refused(
    name: Seq<char>,
    rewritten: Seq<char>,
    tokens: Seq<Token>,
)
    requires
        body::block_bounds(body::block_words(tokens)) is Err,
    ensures
        body::statements_in_block(name, rewritten, tokens) matches Err(error) && error == (
        if forall|i: int|
            0 <= i < tokens.len() ==> body::block_word_of(#[trigger] tokens[i])
                != BlockWord::Begin {
            ErrorView::MissingBeginBlock { name, body: rewritten }
        } else {
            ErrorView::MissingEndBlock { name, body: rewritten }
        }),
{
    let words = body::block_words(tokens);
    law_block_is_found(words);
    if forall|i: int|
        0 <= i < tokens.len() ==> body::block_word_of(#[trigger] tokens[i]) != BlockWord::Begin {
        assert forall|i: int| 0 <= i < words.len() implies words[i] != BlockWord::Begin by {
            assert(words[i] == body::block_word_of(tokens[i]));
        }
    } else {
        let i = choose|i: int|
            0 <= i < tokens.len() && body::block_word_of(#[trigger] tokens[i])
                == BlockWord::Begin;
        assert(words[i] == BlockWord::Begin);
    }
}

/// Only a closing return of the row of a trigger is removed from the statements
/// of a block.
pub proof fn law_only_a_closing_row_return_is_removed(statements: Seq<Statement>)
    ensures
        body::without_row_return(statements).len() + 1 >= statements.len(),
        body::without_row_return(statements) == statements.take(
            body::without_row_return(statements).len() as int,
        ),
        body::without_row_return(statements).len() < statements.len() <==> statements.len() > 0
            && body::is_row(body::returned_text_of(statements.last())),
{
    assert(statements.take(statements.len() as int) =~= statements);
    if statements.len() > 0 {
        assert(statements.drop_last() =~= statements.take(statements.len() - 1));
    }
}

/// A body is read without the whitespace around it and without the semicolons at
/// its end.
pub proof fn law_body_is_stripped(
    before: Seq<char>,
    inner: Seq<char>,
    gap: Seq<char>,
    semicolons: Seq<char>,
    after: Seq<char>,
)
    requires
        wording::is_blank(before),
        wording::is_blank(gap),
        wording::is_blank(after),
        wording::is_run_of(semicolons, ';'),
        semicolons.len() == 0 ==> gap.len() == 0,
        inner.len() > 0,
        wording::is_bare(inner),
        inner.last() != ';',
    ensures
        body::stripped(before + inner + gap + semicolons + after) == inner,
{
    let none = Seq::<char>::empty();
    let open = inner + gap;
    let ended = open + semicolons;
    assert(ended[0] == inner[0]);
    if semicolons.len() > 0 {
        assert(semicolons[semicolons.len() - 1] == ';');
        assert(ended.last() == ';');
    } else {
        assert(ended =~= inner);
    }
    assert(before + inner + gap + semicolons + after =~= before + ended + after);
    wording::law_trimming_keeps_what_is_between(before, ended, after);
    if gap.len() > 0 {
        assert(text::is_whitespace_char(gap[gap.len() - 1]));
        assert(open.last() == gap[gap.len() - 1]);
    } else {
        assert(open =~= inner);
    }
    wording::law_a_run_is_taken_off_the_end(open, semicolons, ';');
    wording::law_trimming_keeps_what_is_between(none, inner, gap);
    assert(none + inner + gap =~= open);
}

/// A body that opens a dollar-quoted literal and no handler is refused for the
/// literal.
pub proof fn law_open_dollar_literal_alone_is_refused(name: Seq<char>, raw_body: Seq<char>)
    requires
        !preprocessor::opens_exception_handler(body::stripped(raw_body)),
        scanner::has_open_dollar_literal(body::stripped(raw_body)),
    ensures
        body::parsed(name, raw_body) == Err::<(Seq<Statement>, ContextView), _>(
            ErrorView::UnterminatedDollarQuote { name },
        ),
{
}

/// A body that is not refused is read from the tokens between its first BEGIN and
/// its last END. A closing `RETURN NEW` or `RETURN OLD` is dropped, and every
/// other statement is kept, in order.
pub proof fn law_block_is_parsed_between_its_delimiters(
    name: Seq<char>,
    raw_body: Seq<char>,
    rewritten: Seq<char>,
    tokens: Seq<Token>,
    begin: int,
    end: int,
    statements: Seq<Statement>,
)
    requires
        !preprocessor::opens_exception_handler(body::stripped(raw_body)),
        !scanner::has_open_dollar_literal(body::stripped(raw_body)),
        preprocessor::preprocessed(body::stripped(raw_body)) == Ok::<_, ErrorView>(rewritten),
        body::tokens_of(rewritten) == Ok::<_, TokenizerError>(tokens),
        0 <= begin < end < tokens.len(),
        body::block_word_of(tokens[begin]) == BlockWord::Begin,
        body::block_word_of(tokens[end]) == BlockWord::End,
        forall|i: int|
            0 <= i < begin ==> body::block_word_of(#[trigger] tokens[i]) != BlockWord::Begin,
        forall|i: int|
            end < i < tokens.len() ==> body::block_word_of(#[trigger] tokens[i]) != BlockWord::End,
        body::statements_of(tokens.subrange(begin + 1, end)) == Ok::<_, ParserError>(statements),
    ensures
        body::parsed(name, raw_body) == Ok::<_, ErrorView>(
            (
                if statements.len() > 0 && (body::returned_text_of(statements.last()) == Some(
                    "NEW"@,
                ) || body::returned_text_of(statements.last()) == Some("OLD"@)) {
                    statements.take(statements.len() - 1)
                } else {
                    statements
                },
                declaration::declared_context(body::stripped(raw_body)),
            ),
        ),
{
    let words = body::block_words(tokens);
    let p = body::begin_at(words);
    let len = words.len() as int;
    assert forall|i: int| 0 <= i < begin implies !#[trigger] p(i) by {
        assert(words[i] == body::block_word_of(tokens[i]));
    }
    assert(words[begin] == body::block_word_of(tokens[begin]));
    assert(words[end] == body::block_word_of(tokens[end]));
    text::lemma_first_is(p, 0, len, begin);
    lemma_last_end(words, len);
    let last = body::last_end(words, len)->0;
    if last > end {
        assert(words[last] == body::block_word_of(tokens[last]));
    }
    assert(last == end);
    if statements.len() > 0 {
        assert(statements.drop_last() =~= statements.take(statements.len() - 1));
    }
}

/// What stands in the way of parsing is named: the tokenizer's error, or that of
/// the parser, with the body as it was rewritten.
pub proof fn law_parse_errors_are_passed_on(
    name: Seq<char>,
    raw_body: Seq<char>,
    rewritten: Seq<char>,
)
    requires
        !preprocessor::opens_exception_handler(body::stripped(raw_body)),
        !scanner::has_open_dollar_literal(body::stripped(raw_body)),
    ensures
        preprocessor::preprocessed(body::stripped(raw_body)) matches Err(error) ==> body::parsed(
            name,
            raw_body,
        ) == Err::<(Seq<Statement>, ContextView), _>(error),
        preprocessor::preprocessed(body::stripped(raw_body)) == Ok::<_, ErrorView>(rewritten) ==> (
        body::tokens_of(rewritten) matches Err(source) ==> body::parsed(name, raw_body) == Err::<
            (Seq<Statement>, ContextView),
            _,
        >(ErrorView::Tokenization { name, body: rewritten, source })),
{
}

/// A block whose tokens the parser does not read is refused with the parser's
/// error.
pub proof fn law_unreadable_block_is_refused(
    name: Seq<char>,
    rewritten: Seq<char>,
    tokens: Seq<Token>,
    begin: int,
    end: int,
    source: ParserError,
)
    requires
        body::block_bounds(body::block_words(tokens)) == Ok::<_, MissingDelimiter>((begin, end)),
        body::statements_of(tokens.subrange(begin + 1, end)) == Err::<Seq<Statement>, _>(source),
    ensures
        body::statements_in_block(name, rewritten, tokens) == Err::<Seq<Statement>, _>(
            ErrorView::ParseStatements { name, body: rewritten, source },
        ),
{
}

// ---------------------------------------------------------------------------
// Messages
// ---------------------------------------------------------------------------

/// A message names what it is about: the function, the target, or the clause, and
/// says what the tokenizer or the parser said.
pub proof fn law_message_names_its_subject(
    name: Seq<char>,
    other: Seq<char>,
    tokenizer: TokenizerError,
    parser: ParserError,
)
    ensures
        quotes(error::message_of(ErrorView::ExceptionHandler { name }), name),
        quotes(error::message_of(ErrorView::MissingBeginBlock { name, body: other }), name),
        quotes(error::message_of(ErrorView::MissingEndBlock { name, body: other }), name),
        quotes(error::message_of(ErrorView::UnterminatedDollarQuote { name }), name),
        quotes(
            error::message_of(
                ErrorView::Tokenization { name, body: other, source: tokenizer },
            ),
            name,
        ),
        quotes(
            error::message_of(ErrorView::ParseStatements { name, body: other, source: parser }),
            name,
        ),
        quotes(
            error::message_of(ErrorView::QualifiedAssignment { qualifier: other, name }),
            other + "."@ + name,
        ),
        ends_with(
            error::message_of(
                ErrorView::Tokenization { name, body: other, source: tokenizer },
            ),
            error::tokenizer_error_text(tokenizer),
        ),
        ends_with(
            error::message_of(ErrorView::ParseStatements { name, body: other, source: parser }),
            error::parser_error_reason(parser),
        ),
        wording::reads_at(
            error::message_of(ErrorView::UnsupportedRaiseUsing { clause: name }),
            22,
            name,
        ),
{
    reveal_strlit("trigger function '");
    reveal_strlit("assignment to qualified target '");
    reveal_strlit("RAISE EXCEPTION USING ");
    reveal_strlit(".");
    let open = "trigger function '"@;
    lemma_quotes(
        open,
        name,
        "' uses an exception handler (EXCEPTION WHEN), which has no generic equivalent"@,
    );
    lemma_quotes(open, name, "' body has no BEGIN...END block"@);
    lemma_quotes(open, name, "' body has no END"@);
    lemma_quotes(open, name, "' body has an unterminated dollar-quoted string"@);
    reveal_strlit(
        "' uses an exception handler (EXCEPTION WHEN), which has no generic equivalent",
    );
    reveal_strlit("' body has no BEGIN...END block");
    reveal_strlit("' body has no END");
    reveal_strlit("' body has an unterminated dollar-quoted string");
    reveal_strlit("' body could not be tokenized: ");
    reveal_strlit("' body statements could not be parsed: sql parser error: ");
    reveal_strlit("' cannot be preprocessed as a standalone statement");
    let told = error::tokenizer_error_text(tokenizer);
    let reason = error::parser_error_reason(parser);
    let untokenized = "' body could not be tokenized: "@;
    let unparsed = "' body statements could not be parsed: sql parser error: "@;
    lemma_quotes(open, name, untokenized + told);
    assert(open + name + untokenized + told =~= open + name + (untokenized + told));
    lemma_quotes(open, name, unparsed + reason);
    assert(open + name + unparsed + reason =~= open + name + (unparsed + reason));
    let target = other + "."@ + name;
    let assigned = "assignment to qualified target '"@;
    let closing = "' cannot be preprocessed as a standalone statement"@;
    lemma_quotes(assigned, target, closing);
    assert(assigned + other + "."@ + name + closing =~= assigned + target + closing);
}

/// `subject` stands in `message` between single quotes.
pub open spec fn quotes(message: Seq<char>, subject: Seq<char>) -> bool {
    exists|i: int| #[trigger]
        wording::reads_at(message, i, seq!['\''] + subject + seq!['\''])
}

/// `message` ends in `tail`.
pub open spec fn ends_with(message: Seq<char>, tail: Seq<char>) -> bool {
    wording::reads_at(message, message.len() - tail.len(), tail)
}

/// What stands between a text that ends in a quote and one that starts with one is
/// quoted.
proof fn lemma_quotes(open: Seq<char>, subject: Seq<char>, close: Seq<char>)
    ensures
        open.len() > 0 && open.last() == '\'' && close.len() > 0 && close[0] == '\'' ==> quotes(
            open + subject + close,
            subject,
        ),
{
    if open.len() > 0 && open.last() == '\'' && close.len() > 0 && close[0] == '\'' {
        let message = open + subject + close;
        let quoted = seq!['\''] + subject + seq!['\''];
        let at = open.len() - 1;
        assert forall|k: int| 0 <= k < quoted.len() implies message[at + k]
            == #[trigger] quoted[k] by {}
        assert(wording::reads_at(message, at, quoted));
    }
}

}
