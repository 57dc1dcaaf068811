//! Refusals of whole bodies, their messages, and what a parsed block holds.

use sqlparser::ast::Statement;
use sqlparser::dialect::PostgreSqlDialect;
use sqlparser::keywords::Keyword;
use sqlparser::parser::Parser;
use sqlparser::tokenizer::{Token, Tokenizer};
use sqlparser_plpgsql::body::{
    drop_row_return, find_block, parse_block, returns_row, BlockWord, MissingDelimiter,
};
use sqlparser_plpgsql::{parse_body, Error};

fn refusal(body: &str) -> Error {
    parse_body("f", body).unwrap_err()
}

fn tokens(text: &str) -> Vec<Token> {
    Tokenizer::new(&PostgreSqlDialect {}, text)
        .tokenize()
        .unwrap()
}

#[test]
fn an_exception_handler_is_refused_first() {
    let error = refusal("BEGIN\n  NEW.a := 1;\nEXCEPTION WHEN others THEN NULL;\nEND;");
    assert!(matches!(&error, Error::ExceptionHandler { name } if name == "f"));
    assert_eq!(
        error.message(),
        "trigger function 'f' uses an exception handler (EXCEPTION WHEN), which has no generic \
         equivalent"
    );
}

#[test]
fn an_open_dollar_literal_is_refused_before_preprocessing() {
    let error = refusal("BEGIN\n  NEW.a := $x$;\nEND;");
    assert!(matches!(&error, Error::UnterminatedDollarQuote { name } if name == "f"));
    assert_eq!(
        error.message(),
        "trigger function 'f' body has an unterminated dollar-quoted string"
    );
}

#[test]
fn a_qualified_assignment_stops_parsing() {
    let error = refusal("BEGIN\n  NEW.col := 1;\nEND;");
    assert_eq!(
        error.message(),
        "assignment to qualified target 'NEW.col' cannot be preprocessed as a standalone statement"
    );
}

#[test]
fn an_unsupported_using_clause_stops_parsing() {
    let error = refusal("BEGIN\n  RAISE EXCEPTION USING HINT = 'h';\nEND;");
    assert_eq!(
        error.message(),
        "RAISE EXCEPTION USING USING HINT = 'h': only USING MESSAGE = '<string literal>' can be \
         preprocessed"
    );
}

#[test]
fn a_tokenizer_error_is_reported() {
    let error = refusal("BEGIN\n  x = 'abc;\nEND;");
    match &error {
        Error::Tokenization { name, body, source } => {
            assert_eq!(name, "f");
            assert_eq!(body, "BEGIN\n  x = 'abc;\nEND");
            assert_eq!(
                error.message(),
                format!("trigger function 'f' body could not be tokenized: {source}")
            );
            assert!(error.message().contains("Unterminated string literal"));
        }
        other => panic!("{:?}", other),
    }
}

#[test]
fn a_missing_delimiter_is_reported_with_the_preprocessed_body() {
    match refusal("x := 1;") {
        Error::MissingBeginBlock { name, body } => {
            assert_eq!(name, "f");
            assert_eq!(body, "SET x = 1");
        }
        other => panic!("{:?}", other),
    }
    assert_eq!(
        refusal("SELECT 1").message(),
        "trigger function 'f' body has no BEGIN...END block"
    );
    match refusal("END; BEGIN x := 1;;") {
        Error::MissingEndBlock { name, body } => {
            assert_eq!(name, "f");
            assert_eq!(body, "BEGIN SET x = 1");
        }
        other => panic!("{:?}", other),
    }
    assert_eq!(
        refusal("BEGIN SELECT 1").message(),
        "trigger function 'f' body has no END"
    );
}

#[test]
fn a_parser_error_names_its_source() {
    let error = refusal("BEGIN\n  SELECT FROM;\nEND;");
    match &error {
        Error::ParseStatements { name, body, source } => {
            assert_eq!(name, "f");
            assert_eq!(body, "BEGIN\n  SELECT FROM;\nEND");
            assert_eq!(
                error.message(),
                format!("trigger function 'f' body statements could not be parsed: {source}")
            );
            assert!(error.message().contains("sql parser error: "));
        }
        other => panic!("{:?}", other),
    }
}

#[test]
fn a_parsed_block_holds_its_statements_between_keywords() {
    let body = " DECLARE v INT DEFAULT 7; BEGIN SELECT 1; SELECT 2; RETURN OLD; END; ; ";
    // The semicolons at the end are apart, so only the outer one is stripped.
    let (block, context) = parse_body("f", body).unwrap();
    assert_eq!(block.statements.len(), 2);
    assert_eq!(block.statements[0].to_string(), "SELECT 1");
    assert_eq!(block.statements[1].to_string(), "SELECT 2");
    assert_eq!(
        context.get_declaration("v").unwrap().default_value.as_deref(),
        Some("7")
    );
    match (&block.begin_token.0.token, &block.end_token.0.token) {
        (Token::Word(begin), Token::Word(end)) => {
            assert_eq!((begin.value.as_str(), begin.keyword), ("BEGIN", Keyword::BEGIN));
            assert_eq!((end.value.as_str(), end.keyword), ("END", Keyword::END));
            assert_eq!((begin.quote_style, end.quote_style), (None, None));
        }
        other => panic!("{:?}", other),
    }
}

#[test]
fn only_one_closing_row_return_is_removed() {
    let (block, _) = parse_body("f", "BEGIN RETURN NEW; RETURN NEW; END").unwrap();
    assert_eq!(block.statements.len(), 1);
    let (block, _) = parse_body("f", "BEGIN RETURN NEW; SELECT 1; END").unwrap();
    assert_eq!(block.statements.len(), 2);
    let (block, _) = parse_body("f", "BEGIN RETURN new_row; END").unwrap();
    assert_eq!(block.statements.len(), 1);
    let (block, _) = parse_body("f", "BEGIN END").unwrap();
    assert!(block.statements.is_empty());
}

#[test]
fn the_outermost_block_is_found() {
    let (begin, end, other) = (BlockWord::Begin, BlockWord::End, BlockWord::Other);
    assert_eq!(
        find_block(&[other, begin, begin, end, other, end, other]),
        Ok((1, 5))
    );
    assert_eq!(find_block(&[begin, end]), Ok((0, 1)));
    assert_eq!(find_block(&[]), Err(MissingDelimiter::Begin));
    assert_eq!(find_block(&[end, other]), Err(MissingDelimiter::Begin));
    assert_eq!(find_block(&[begin, other]), Err(MissingDelimiter::End));
    assert_eq!(find_block(&[end, begin]), Err(MissingDelimiter::End));
}

#[test]
fn a_row_is_new_or_old() {
    assert!(returns_row(&Some("NEW".to_string())));
    assert!(returns_row(&Some("OLD".to_string())));
    assert!(!returns_row(&Some("new".to_string())));
    assert!(!returns_row(&Some("NEW.id".to_string())));
    assert!(!returns_row(&Some(String::new())));
    assert!(!returns_row(&None));
}

#[test]
fn a_block_is_parsed_from_its_tokens() {
    let statements = parse_block("f", "b", tokens("x BEGIN SELECT 1; RETURN NEW; END y")).unwrap();
    assert_eq!(statements.len(), 1);
    assert_eq!(statements[0].to_string(), "SELECT 1");
    assert!(matches!(
        parse_block("f", "b", tokens("SELECT 1")).unwrap_err(),
        Error::MissingBeginBlock { name, body } if name == "f" && body == "b"
    ));
    assert!(matches!(
        parse_block("f", "b", tokens("BEGIN SELECT 1")).unwrap_err(),
        Error::MissingEndBlock { name, body } if name == "f" && body == "b"
    ));
    assert!(matches!(
        parse_block("f", "b", tokens("BEGIN SELECT FROM; END")).unwrap_err(),
        Error::ParseStatements { .. }
    ));
    assert!(matches!(
        parse_block("f", "b", tokens("\"BEGIN\" SELECT 1; \"END\"")).unwrap_err(),
        Error::MissingBeginBlock { .. }
    ));
}

#[test]
fn a_closing_row_return_is_dropped() {
    let parsed = |text: &str| -> Vec<Statement> {
        Parser::new(&PostgreSqlDialect {})
            .with_tokens(tokens(text))
            .parse_statements()
            .unwrap()
    };
    let kept = drop_row_return(parsed("RETURN NEW; RETURN 1"));
    assert_eq!(kept.len(), 2);
    assert!(matches!(kept[1], Statement::Return(_)));
    assert_eq!(drop_row_return(parsed("SELECT 1; RETURN OLD")).len(), 1);
    assert!(drop_row_return(parsed("RETURN NEW")).is_empty());
    assert!(drop_row_return(parsed("")).is_empty());
}
