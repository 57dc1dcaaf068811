//! Whole bodies, parsed by sqlparser.

use sqlparser::ast::Statement;
use sqlparser_plpgsql::{parse_body, Error};

#[test]
fn trailing_return_new_is_stripped() {
    let body = "BEGIN\n  INSERT INTO t VALUES (1);\n  RETURN NEW;\nEND;";
    let (parsed, _) = parse_body("f", body).unwrap();
    assert!(
        parsed
            .statements
            .iter()
            .all(|s| !matches!(s, Statement::Return(_)))
    );
}

#[test]
fn trailing_return_value_is_kept() {
    let body = "BEGIN\n  RETURN 1;\nEND;";
    let (parsed, _) = parse_body("f", body).unwrap();
    assert!(matches!(
        parsed.statements.last(),
        Some(Statement::Return(_))
    ));
}

#[test]
fn missing_begin_block_is_refused() {
    assert!(matches!(
        parse_body("f", "SELECT 1;").unwrap_err(),
        Error::MissingBeginBlock { .. }
    ));
}

#[test]
fn parse_error_is_reported() {
    assert!(matches!(
        parse_body("f", "BEGIN\n  SELECT FROM;\nEND;").unwrap_err(),
        Error::ParseStatements { .. }
    ));
}

#[test]
fn unterminated_dollar_quote_is_refused() {
    assert!(matches!(
        parse_body("f", "BEGIN\n  x := $tag$abc;\nEND;").unwrap_err(),
        Error::UnterminatedDollarQuote { .. }
    ));
}

#[test]
fn an_end_before_the_begin_is_refused() {
    assert!(matches!(
        parse_body("f", "END; BEGIN SELECT 1;").unwrap_err(),
        Error::MissingEndBlock { .. }
    ));
}
