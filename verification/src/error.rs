//! Error type for PL/pgSQL preprocessing and parsing.

use sqlparser::parser::ParserError;
use sqlparser::tokenizer::TokenizerError;
use vstd::prelude::*;

use crate::text;

verus! {

/// `sqlparser::tokenizer::TokenizerError`, carried as it came.
#[verifier::external_type_specification]
#[verifier::external_body]
pub struct ExTokenizerError(TokenizerError);

/// `sqlparser::parser::ParserError`, carried as it came.
#[verifier::external_type_specification]
#[verifier::external_body]
pub struct ExParserError(ParserError);

/// An error produced while preprocessing or parsing a PL/pgSQL function body.
#[allow(inconsistent_fields)]
#[derive(Debug)]
pub enum Error {
    /// The function contains an exception handler.
    ExceptionHandler {
        /// The function name.
        name: String,
    },
    /// A qualified assignment target cannot be preprocessed.
    QualifiedAssignment {
        /// The target qualifier.
        qualifier: String,
        /// The target name.
        name: String,
    },
    /// The RAISE EXCEPTION USING clause is unsupported.
    UnsupportedRaiseUsing {
        /// The unsupported clause.
        clause: String,
    },
    /// Tokenizing the function body failed.
    Tokenization {
        /// The function name.
        name: String,
        /// The preprocessed body.
        body: String,
        /// The tokenizer error.
        source: TokenizerError,
    },
    /// The function body has no BEGIN...END block.
    MissingBeginBlock {
        /// The function name.
        name: String,
        /// The preprocessed body.
        body: String,
    },
    /// The function body has no END statement.
    MissingEndBlock {
        /// The function name.
        name: String,
        /// The preprocessed body.
        body: String,
    },
    /// The function body opens a dollar-quoted literal that never closes.
    UnterminatedDollarQuote {
        /// The function name.
        name: String,
    },
    /// Parsing the function body statements failed.
    ParseStatements {
        /// The function name.
        name: String,
        /// The preprocessed body.
        body: String,
        /// The parser error.
        source: ParserError,
    },
}

/// An [`Error`] with its texts as character sequences.
#[allow(inconsistent_fields)]
#[verifier::ext_equal]
pub enum ErrorView {
    /// See [`Error::ExceptionHandler`].
    ExceptionHandler { name: Seq<char> },
    /// See [`Error::QualifiedAssignment`].
    QualifiedAssignment { qualifier: Seq<char>, name: Seq<char> },
    /// See [`Error::UnsupportedRaiseUsing`].
    UnsupportedRaiseUsing { clause: Seq<char> },
    /// See [`Error::Tokenization`].
    Tokenization { name: Seq<char>, body: Seq<char>, source: TokenizerError },
    /// See [`Error::MissingBeginBlock`].
    MissingBeginBlock { name: Seq<char>, body: Seq<char> },
    /// See [`Error::MissingEndBlock`].
    MissingEndBlock { name: Seq<char>, body: Seq<char> },
    /// See [`Error::UnterminatedDollarQuote`].
    UnterminatedDollarQuote { name: Seq<char> },
    /// See [`Error::ParseStatements`].
    ParseStatements { name: Seq<char>, body: Seq<char>, source: ParserError },
}

impl View for Error {
    type V = ErrorView;

    open spec fn view(&self) -> ErrorView {
        match *self {
            Error::ExceptionHandler { name } => ErrorView::ExceptionHandler { name: name@ },
            Error::QualifiedAssignment { qualifier, name } => ErrorView::QualifiedAssignment {
                qualifier: qualifier@,
                name: name@,
            },
            Error::UnsupportedRaiseUsing { clause } => ErrorView::UnsupportedRaiseUsing {
                clause: clause@,
            },
            Error::Tokenization { name, body, source } => ErrorView::Tokenization {
                name: name@,
                body: body@,
                source,
            },
            Error::MissingBeginBlock { name, body } => ErrorView::MissingBeginBlock {
                name: name@,
                body: body@,
            },
            Error::MissingEndBlock { name, body } => ErrorView::MissingEndBlock {
                name: name@,
                body: body@,
            },
            Error::UnterminatedDollarQuote { name } => ErrorView::UnterminatedDollarQuote {
                name: name@,
            },
            Error::ParseStatements { name, body, source } => ErrorView::ParseStatements {
                name: name@,
                body: body@,
                source,
            },
        }
    }
}

/// What `Display` prints of a tokenizer error.
pub uninterp spec fn tokenizer_error_text(error: TokenizerError) -> Seq<char>;

/// What `Display` prints of a parser error after its fixed heading.
pub uninterp spec fn parser_error_reason(error: ParserError) -> Seq<char>;

/// Calls `to_string` through the `Display` of `TokenizerError`, which prints
/// its message and its location. The contract only names the text.
#[verifier::external_body]
fn describe_tokenizer_error(error: &TokenizerError) -> (description: String)
    ensures
        description@ == tokenizer_error_text(*error),
{
    error.to_string()
}

/// Calls `to_string` through the `Display` of `ParserError`, which prints its
/// reason after a fixed heading. The contract states the heading and names the
/// reason.
#[verifier::external_body]
fn describe_parser_error(error: &ParserError) -> (description: String)
    ensures
        description@ == "sql parser error: "@ + parser_error_reason(*error),
{
    error.to_string()
}

/// The message that describes an error to a user.
pub open spec fn message_of(error: ErrorView) -> Seq<char> {
    match error {
        ErrorView::ExceptionHandler { name } => "trigger function '"@ + name
            + "' uses an exception handler (EXCEPTION WHEN), which has no generic equivalent"@,
        ErrorView::QualifiedAssignment { qualifier, name } => "assignment to qualified target '"@
            + qualifier + "."@ + name + "' cannot be preprocessed as a standalone statement"@,
        ErrorView::UnsupportedRaiseUsing { clause } => "RAISE EXCEPTION USING "@ + clause
            + ": only USING MESSAGE = '<string literal>' can be preprocessed"@,
        ErrorView::Tokenization { name, body, source } => "trigger function '"@ + name
            + "' body could not be tokenized: "@ + tokenizer_error_text(source),
        ErrorView::MissingBeginBlock { name, body } => "trigger function '"@ + name
            + "' body has no BEGIN...END block"@,
        ErrorView::MissingEndBlock { name, body } => "trigger function '"@ + name
            + "' body has no END"@,
        ErrorView::UnterminatedDollarQuote { name } => "trigger function '"@ + name
            + "' body has an unterminated dollar-quoted string"@,
        ErrorView::ParseStatements { name, body, source } => "trigger function '"@ + name
            + "' body statements could not be parsed: sql parser error: "@ + parser_error_reason(
            source,
        ),
    }
}

impl Error {
    /// The message that describes this error to a user.
    pub fn message(&self) -> (message: String)
        ensures
            message@ == message_of(self@),
    {
        let mut out: Vec<char> = Vec::new();
        match self {
            Error::ExceptionHandler { name } => {
                text::push_text(&mut out, "trigger function '");
                text::push_text(&mut out, name);
                text::push_text(
                    &mut out,
                    "' uses an exception handler (EXCEPTION WHEN), which has no generic equivalent",
                );
            },
            Error::QualifiedAssignment { qualifier, name } => {
                text::push_text(&mut out, "assignment to qualified target '");
                text::push_text(&mut out, qualifier);
                text::push_text(&mut out, ".");
                text::push_text(&mut out, name);
                text::push_text(
                    &mut out,
                    "' cannot be preprocessed as a standalone statement",
                );
            },
            Error::UnsupportedRaiseUsing { clause } => {
                text::push_text(&mut out, "RAISE EXCEPTION USING ");
                text::push_text(&mut out, clause);
                text::push_text(
                    &mut out,
                    ": only USING MESSAGE = '<string literal>' can be preprocessed",
                );
            },
            Error::Tokenization { name, body: _, source } => {
                text::push_text(&mut out, "trigger function '");
                text::push_text(&mut out, name);
                text::push_text(&mut out, "' body could not be tokenized: ");
                text::push_text(&mut out, &describe_tokenizer_error(source));
            },
            Error::MissingBeginBlock { name, body: _ } => {
                text::push_text(&mut out, "trigger function '");
                text::push_text(&mut out, name);
                text::push_text(&mut out, "' body has no BEGIN...END block");
            },
            Error::MissingEndBlock { name, body: _ } => {
                text::push_text(&mut out, "trigger function '");
                text::push_text(&mut out, name);
                text::push_text(&mut out, "' body has no END");
            },
            Error::UnterminatedDollarQuote { name } => {
                text::push_text(&mut out, "trigger function '");
                text::push_text(&mut out, name);
                text::push_text(
                    &mut out,
                    "' body has an unterminated dollar-quoted string",
                );
            },
            Error::ParseStatements { name, body: _, source } => {
                text::push_text(&mut out, "trigger function '");
                text::push_text(&mut out, name);
                text::push_text(&mut out, "' body statements could not be parsed: ");
                text::push_text(&mut out, &describe_parser_error(source));
                proof {
                    reveal_strlit("' body statements could not be parsed: ");
                    reveal_strlit("sql parser error: ");
                    reveal_strlit("' body statements could not be parsed: sql parser error: ");
                    assert("' body statements could not be parsed: sql parser error: "@
                        =~= "' body statements could not be parsed: "@ + "sql parser error: "@);
                }
            },
        }
        assert(out@ =~= message_of(self@));
        text::string_of(&out)
    }
}

}
