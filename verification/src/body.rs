//! Parsing PL/pgSQL function bodies into sqlparser statements.

use sqlparser::ast::helpers::attached_token::AttachedToken;
use sqlparser::ast::{BeginEndStatements, ReturnStatement, ReturnStatementValue, Statement};
use sqlparser::dialect::PostgreSqlDialect;
use sqlparser::keywords::Keyword;
use sqlparser::parser::{Parser, ParserError};
use sqlparser::tokenizer::{Token, TokenWithSpan, Tokenizer, TokenizerError, Word};
use vstd::prelude::*;

use crate::context;
use crate::context::{ContextView, PlPgSqlContext};
use crate::error::{Error, ErrorView};
use crate::preprocessor;
use crate::preprocessor::declaration;
use crate::preprocessor::PlPgSqlPreprocessor;
use crate::scanner;
use crate::scanner::Scanner;
use crate::text;

verus! {

// ---------------------------------------------------------------------------
// What sqlparser does
// ---------------------------------------------------------------------------

/// `sqlparser::tokenizer::Token`, carried as it came.
#[verifier::external_type_specification]
#[verifier::external_body]
pub struct ExToken(Token);

/// `sqlparser::ast::Statement`, carried as it came.
#[verifier::external_type_specification]
#[verifier::external_body]
pub struct ExStatement(Statement);

/// `sqlparser::ast::BeginEndStatements`, carried as it came.
#[verifier::external_type_specification]
#[verifier::external_body]
pub struct ExBeginEndStatements(BeginEndStatements);

/// What a token is to a block.
#[derive(Clone, Copy, Debug, PartialEq, Eq, Structural)]
pub enum BlockWord {
    /// The keyword that opens a block.
    Begin,
    /// The keyword that closes a block.
    End,
    /// Any other token.
    Other,
}

/// The tokens of a text in the PostgreSQL dialect, or why it has none.
pub uninterp spec fn tokens_of(body: Seq<char>) -> Result<Seq<Token>, TokenizerError>;

/// What a token is to a block.
pub uninterp spec fn block_word_of(token: Token) -> BlockWord;

/// The statements that tokens spell in the PostgreSQL dialect, or why they spell
/// none.
pub uninterp spec fn statements_of(tokens: Seq<Token>) -> Result<Seq<Statement>, ParserError>;

/// The text of the expression that a statement returns, when it is a RETURN with
/// an expression.
pub uninterp spec fn returned_text_of(statement: Statement) -> Option<Seq<char>>;

/// The statements inside a block.
pub uninterp spec fn block_statements(block: BeginEndStatements) -> Seq<Statement>;

/// The words of the two tokens that delimit a block.
pub uninterp spec fn block_delimiters(block: BeginEndStatements) -> (Seq<char>, Seq<char>);

/// `tokens` are all that the tokenizer reads from some text.
pub open spec fn is_tokenized(tokens: Seq<Token>) -> bool {
    exists|body: Seq<char>| #[trigger] tokens_of(body) == Ok::<_, TokenizerError>(tokens)
}

/// `part` is a run of the tokens that the tokenizer reads from some text.
pub open spec fn is_tokenized_part(part: Seq<Token>) -> bool {
    exists|tokens: Seq<Token>, from: int, to: int|
        is_tokenized(tokens) && 0 <= from <= to <= tokens.len() && part
            == #[trigger] tokens.subrange(from, to)
}

/// `statements` are all that the parser reads from tokens of some text.
pub open spec fn is_parsed(statements: Seq<Statement>) -> bool {
    exists|part: Seq<Token>|
        is_tokenized_part(part) && #[trigger] statements_of(part) == Ok::<_, ParserError>(
            statements,
        )
}

/// The parser reads `statement` from tokens of some text.
pub open spec fn is_parsed_statement(statement: Statement) -> bool {
    exists|statements: Seq<Statement>|
        #[trigger] is_parsed(statements) && statements.contains(statement)
}

/// Calls `Tokenizer::tokenize` with the PostgreSQL dialect. The contract only
/// names its result, which the text alone decides.
#[verifier::external_body]
fn tokenize(body: &str) -> (result: Result<Vec<Token>, TokenizerError>)
    ensures
        match result {
            Ok(tokens) => tokens_of(body@) == Ok::<_, TokenizerError>(tokens@),
            Err(error) => tokens_of(body@) == Err::<Seq<Token>, _>(error),
        },
{
    Tokenizer::new(&PostgreSqlDialect {}, body).tokenize()
}

/// Reads the keyword of a `Token::Word`, which sqlparser sets to
/// `Keyword::BEGIN` or `Keyword::END` for the words that delimit a block. The
/// contract only names the answer.
#[verifier::external_body]
fn block_word(token: &Token) -> (word: BlockWord)
    ensures
        word == block_word_of(*token),
{
    match token {
        Token::Word(word) => match word.keyword {
            Keyword::BEGIN => BlockWord::Begin,
            Keyword::END => BlockWord::End,
            _ => BlockWord::Other,
        },
        _ => BlockWord::Other,
    }
}

/// Calls `Parser::parse_statements` with the PostgreSQL dialect on `tokens`. The
/// contract only names its result, which the tokens alone decide. The tokens must
/// come from the tokenizer: the parser prints tokens in its errors, and printing
/// a word with a quote style that SQL does not have panics.
#[verifier::external_body]
fn parse_tokens(tokens: Vec<Token>) -> (result: Result<Vec<Statement>, ParserError>)
    requires
        is_tokenized_part(tokens@),
    ensures
        match result {
            Ok(statements) => statements_of(tokens@) == Ok::<_, ParserError>(statements@),
            Err(error) => statements_of(tokens@) == Err::<Seq<Statement>, _>(error),
        },
{
    Parser::new(&PostgreSqlDialect {}).with_tokens(tokens).parse_statements()
}

/// Calls `to_string` on the expression of a `Statement::Return` that has one.
/// The contract only names the text. The statement must come from the parser:
/// printing an identifier with a quote style that SQL does not have panics.
#[verifier::external_body]
fn returned_text(statement: &Statement) -> (returned: Option<String>)
    requires
        is_parsed_statement(*statement),
    ensures
        context::optional_text(returned) == returned_text_of(*statement),
{
    match statement {
        Statement::Return(ReturnStatement { value: Some(ReturnStatementValue::Expr(expr)) }) => {
            Some(expr.to_string())
        },
        _ => None,
    }
}

/// Builds a `BeginEndStatements` that holds `statements` between the keyword
/// tokens `BEGIN` and `END`, unquoted and with empty spans.
#[verifier::external_body]
fn delimited(statements: Vec<Statement>) -> (block: BeginEndStatements)
    ensures
        block_statements(block) == statements@,
        block_delimiters(block) == ("BEGIN"@, "END"@),
{
    let begin = Word { value: "BEGIN".into(), quote_style: None, keyword: Keyword::BEGIN };
    let end = Word { value: "END".into(), quote_style: None, keyword: Keyword::END };
    BeginEndStatements {
        begin_token: AttachedToken(TokenWithSpan::wrap(Token::Word(begin))),
        statements,
        end_token: AttachedToken(TokenWithSpan::wrap(Token::Word(end))),
    }
}

// ---------------------------------------------------------------------------
// Blocks
// ---------------------------------------------------------------------------

/// The delimiter that a body lacks.
#[derive(Clone, Copy, Debug, PartialEq, Eq, Structural)]
pub enum MissingDelimiter {
    /// No BEGIN.
    Begin,
    /// No END after the first BEGIN.
    End,
}

/// A BEGIN stands at `i`.
pub open spec fn begin_at(words: Seq<BlockWord>) -> spec_fn(int) -> bool {
    |i: int| 0 <= i < words.len() && words[i] == BlockWord::Begin
}

/// The last END before `to`.
pub open spec fn last_end(words: Seq<BlockWord>, to: int) -> Option<int>
    decreases to,
{
    if to <= 0 {
        None
    } else if words[to - 1] == BlockWord::End {
        Some(to - 1)
    } else {
        last_end(words, to - 1)
    }
}

/// Where the outermost block opens and closes: at the first BEGIN and at the
/// last END, which must follow it.
pub open spec fn block_bounds(words: Seq<BlockWord>) -> Result<(int, int), MissingDelimiter> {
    match text::first_from(begin_at(words), 0, words.len() as int) {
        None => Err(MissingDelimiter::Begin),
        Some(begin) => match last_end(words, words.len() as int) {
            Some(end) => if end > begin {
                Ok((begin, end))
            } else {
                Err(MissingDelimiter::End)
            },
            None => Err(MissingDelimiter::End),
        },
    }
}

/// Where the outermost block opens and closes.
///
/// The END must close the BEGIN, so an earlier one does not count.
pub fn find_block(words: &[BlockWord]) -> (bounds: Result<(usize, usize), MissingDelimiter>)
    ensures
        match bounds {
            Ok((begin, end)) => begin < end < words@.len() && block_bounds(words@) == Ok::<
                _,
                MissingDelimiter,
            >((begin as int, end as int)),
            Err(missing) => block_bounds(words@) == Err::<(int, int), _>(missing),
        },
{
    let ghost p = begin_at(words@);
    let mut begin: usize = 0;
    while begin < words.len() && words[begin] != BlockWord::Begin
        invariant
            p == begin_at(words@),
            begin <= words@.len(),
            forall|j: int| 0 <= j < begin ==> !#[trigger] p(j),
        decreases words@.len() - begin,
    {
        begin += 1;
    }
    if begin == words.len() {
        proof {
            text::lemma_no_first(p, 0, words@.len() as int);
        }
        return Err(MissingDelimiter::Begin);
    }
    proof {
        text::lemma_first_is(p, 0, words@.len() as int, begin as int);
    }
    let mut to: usize = words.len();
    while to > 0 && words[to - 1] != BlockWord::End
        invariant
            to <= words@.len(),
            last_end(words@, words@.len() as int) == last_end(words@, to as int),
        decreases to,
    {
        to -= 1;
    }
    if to == 0 || to - 1 <= begin {
        return Err(MissingDelimiter::End);
    }
    Ok((begin, to - 1))
}

/// A statement that returns this text returns the row of a trigger.
pub open spec fn is_row(returned: Option<Seq<char>>) -> bool {
    returned == Some("NEW"@) || returned == Some("OLD"@)
}

/// True when a statement that returns this text returns the row of a trigger.
pub fn returns_row(returned: &Option<String>) -> (answer: bool)
    ensures
        answer == is_row(context::optional_text(*returned)),
{
    match returned {
        Some(row) => {
            let chars = text::chars_of(row.as_str());
            text::equals(&chars, &text::chars_of("NEW")) || text::equals(
                &chars,
                &text::chars_of("OLD"),
            )
        },
        None => false,
    }
}

/// `statements` without a closing RETURN of the row of a trigger.
pub open spec fn without_row_return(statements: Seq<Statement>) -> Seq<Statement> {
    if statements.len() > 0 && is_row(returned_text_of(statements.last())) {
        statements.drop_last()
    } else {
        statements
    }
}

/// Removes a closing `RETURN NEW` or `RETURN OLD` statement.
pub fn drop_row_return(statements: Vec<Statement>) -> (kept: Vec<Statement>)
    requires
        is_parsed(statements@),
    ensures
        kept@ == without_row_return(statements@),
{
    let mut kept = statements;
    if kept.len() > 0 {
        assert(statements@.contains(statements@[statements@.len() - 1]));
        let returned = returned_text(&kept[kept.len() - 1]);
        if returns_row(&returned) {
            let _row = kept.pop();
        }
    }
    kept
}

/// What each of `tokens` is to a block.
pub open spec fn block_words(tokens: Seq<Token>) -> Seq<BlockWord> {
    tokens.map_values(|token: Token| block_word_of(token))
}

// ---------------------------------------------------------------------------
// Bodies
// ---------------------------------------------------------------------------

/// A body without the whitespace and the semicolons around it.
pub open spec fn stripped(raw_body: Seq<char>) -> Seq<char> {
    text::trimmed(text::without_trailing(text::trimmed(raw_body), ';'))
}

/// The statements of the block that `tokens` hold, or why there are none. The
/// tokens are those of `body`, the preprocessed body of the function `name`.
pub open spec fn statements_in_block(
    name: Seq<char>,
    body: Seq<char>,
    tokens: Seq<Token>,
) -> Result<Seq<Statement>, ErrorView> {
    match block_bounds(block_words(tokens)) {
        Err(MissingDelimiter::Begin) => Err(ErrorView::MissingBeginBlock { name, body }),
        Err(MissingDelimiter::End) => Err(ErrorView::MissingEndBlock { name, body }),
        Ok((begin, end)) => match statements_of(tokens.subrange(begin + 1, end)) {
            Ok(statements) => Ok(without_row_return(statements)),
            Err(source) => Err(ErrorView::ParseStatements { name, body, source }),
        },
    }
}

/// The statements and the context of a body, or why it is refused.
///
/// The shapes that cannot survive preprocessing are refused first: an exception
/// handler, then a dollar-quoted literal that never closes.
pub open spec fn parsed(name: Seq<char>, raw_body: Seq<char>) -> Result<
    (Seq<Statement>, ContextView),
    ErrorView,
> {
    let body = stripped(raw_body);
    if preprocessor::opens_exception_handler(body) {
        Err(ErrorView::ExceptionHandler { name })
    } else if scanner::has_open_dollar_literal(body) {
        Err(ErrorView::UnterminatedDollarQuote { name })
    } else {
        match preprocessor::preprocessed(body) {
            Err(error) => Err(error),
            Ok(rewritten) => match tokens_of(rewritten) {
                Err(source) => Err(ErrorView::Tokenization { name, body: rewritten, source }),
                Ok(tokens) => match statements_in_block(name, rewritten, tokens) {
                    Ok(statements) => Ok((statements, declaration::declared_context(body))),
                    Err(error) => Err(error),
                },
            },
        }
    }
}

/// The statements of the block that `tokens` hold, which are those of `body`,
/// the preprocessed body of the function `name`.
///
/// # Errors
///
/// Returns an [`Error`] when the block is not delimited or cannot be parsed.
pub fn parse_block(name: &str, body: &str, tokens: Vec<Token>) -> (result: Result<
    Vec<Statement>,
    Error,
>)
    requires
        is_tokenized(tokens@),
    ensures
        match result {
            Ok(statements) => statements_in_block(name@, body@, tokens@) == Ok::<_, ErrorView>(
                statements@,
            ),
            Err(error) => statements_in_block(name@, body@, tokens@) == Err::<Seq<Statement>, _>(
                error@,
            ),
        },
{
    let mut words: Vec<BlockWord> = Vec::new();
    let mut i: usize = 0;
    while i < tokens.len()
        invariant
            i <= tokens@.len(),
            words@ == block_words(tokens@.take(i as int)),
        decreases tokens@.len() - i,
    {
        words.push(block_word(&tokens[i]));
        assert(words@ =~= block_words(tokens@.take(i + 1)));
        i += 1;
    }
    assert(tokens@.take(i as int) =~= tokens@);
    let (begin, end) = match find_block(&words) {
        Ok(bounds) => bounds,
        Err(MissingDelimiter::Begin) => {
            return Err(
                Error::MissingBeginBlock { name: name.to_owned(), body: body.to_owned() },
            );
        },
        Err(MissingDelimiter::End) => {
            return Err(Error::MissingEndBlock { name: name.to_owned(), body: body.to_owned() });
        },
    };
    let ghost all = tokens@;
    let mut opened = tokens;
    opened.truncate(end);
    let inner = opened.split_off(begin + 1);
    assert(inner@ =~= all.subrange(begin + 1, end as int));
    match parse_tokens(inner) {
        Ok(statements) => Ok(drop_row_return(statements)),
        Err(source) => Err(
            Error::ParseStatements { name: name.to_owned(), body: body.to_owned(), source },
        ),
    }
}

/// Preprocesses, tokenizes, and parses a PL/pgSQL function body.
///
/// A trailing `RETURN NEW` or `RETURN OLD` statement is removed.
///
/// # Errors
///
/// Returns an [`Error`] when the body is malformed or cannot be parsed.
pub fn parse_body(name: &str, raw_body: &str) -> (result: Result<
    (BeginEndStatements, PlPgSqlContext),
    Error,
>)
    ensures
        match result {
            Ok((block, context)) => parsed(name@, raw_body@) == Ok::<_, ErrorView>(
                (block_statements(block), context@),
            ) && block_delimiters(block) == ("BEGIN"@, "END"@),
            Err(error) => parsed(name@, raw_body@) == Err::<(Seq<Statement>, ContextView), _>(
                error@,
            ),
        },
{
    let chars = text::chars_of(raw_body);
    let body = text::string_of(text::trim(text::trim_end_char(text::trim(&chars), ';')));
    if PlPgSqlPreprocessor::has_exception_handler(body.as_str()) {
        return Err(Error::ExceptionHandler { name: name.to_owned() });
    }
    if Scanner::new(body.as_str()).has_unterminated_dollar_quote() {
        return Err(Error::UnterminatedDollarQuote { name: name.to_owned() });
    }
    let (preprocessed_body, context) = match PlPgSqlPreprocessor::preprocess(body.as_str()) {
        Ok(preprocessed) => preprocessed,
        Err(error) => {
            return Err(error);
        },
    };
    let tokens = match tokenize(preprocessed_body.as_str()) {
        Ok(tokens) => tokens,
        Err(source) => {
            return Err(
                Error::Tokenization { name: name.to_owned(), body: preprocessed_body, source },
            );
        },
    };
    match parse_block(name, preprocessed_body.as_str(), tokens) {
        Ok(statements) => Ok((delimited(statements), context)),
        Err(error) => Err(error),
    }
}

}
