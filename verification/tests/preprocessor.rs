//! The rewrites of the preprocessor.

use sqlparser_plpgsql::{Error, PlPgSqlContext, PlPgSqlPreprocessor};

#[test]
fn assignments_are_split_on_statements_not_lines() {
    let context = PlPgSqlContext::new();
    let body = "BEGIN\n    v_label :=\n        'a; b';\n    RETURN NEW;\nEND";
    let out = PlPgSqlPreprocessor::transform_assignments(body, &context).expect("no target");
    assert!(out.contains("SET v_label = 'a; b'"), "got: {out}");
}

#[test]
fn test_split_declare_and_body() {
    let body = r"
DECLARE
    v_id UUID;
    v_name TEXT;
BEGIN
    v_id := uuidv7();
    INSERT INTO t (id) VALUES (v_id);
END
";

    let (declare, body) = PlPgSqlPreprocessor::split_declare_and_body(body);
    assert!(declare.is_some());
    assert!(declare.unwrap().contains("v_id UUID"));
    assert!(body.contains("BEGIN"));
}

#[test]
fn test_parse_declaration() {
    let decl = PlPgSqlPreprocessor::parse_single_declaration("v_new_id UUID");
    assert!(decl.is_some());
    let decl = decl.unwrap();
    assert_eq!(decl.name, "v_new_id");
    assert_eq!(decl.data_type, "UUID");
    assert!(decl.default_value.is_none());
}

#[test]
fn test_parse_declaration_with_default() {
    let decl = PlPgSqlPreprocessor::parse_single_declaration("v_count INT DEFAULT 0");
    assert!(decl.is_some());
    let decl = decl.unwrap();
    assert_eq!(decl.name, "v_count");
    assert_eq!(decl.data_type, "INT");
    assert_eq!(decl.default_value, Some("0".to_string()));
}

#[test]
fn test_transform_select_into() {
    let body = r"BEGIN
    SELECT o.owner_id, o.creator_id, e.role_level
    INTO v_owner_id, v_creator_id, v_role_level
    FROM ownables o
    JOIN entities e ON o.id = e.id
    WHERE o.id = NEW.id;
END";

    let (transformed, _context) = PlPgSqlPreprocessor::preprocess(body).expect("preprocess");

    // Should have SET statements instead of SELECT INTO
    assert!(
        transformed.contains("SET v_owner_id ="),
        "Should transform v_owner_id"
    );
    assert!(
        transformed.contains("SET v_creator_id ="),
        "Should transform v_creator_id"
    );
    assert!(
        transformed.contains("SET v_role_level ="),
        "Should transform v_role_level"
    );
    assert!(
        !transformed.contains("INTO v_owner_id"),
        "Should remove INTO clause"
    );
}

#[test]
fn test_transform_select_into_with_declare() {
    let body = r"DECLARE
    v_new_id UUID;
    v_owner_id UUID;
BEGIN
    SELECT o.owner_id, o.creator_id
    INTO v_owner_id, v_creator_id
    FROM ownables o
    WHERE o.id = NEW.id;
END";

    let (transformed, _context) = PlPgSqlPreprocessor::preprocess(body).expect("preprocess");

    // Should have SET statements instead of SELECT INTO
    assert!(
        transformed.contains("SET v_owner_id ="),
        "Should transform v_owner_id"
    );
    assert!(
        transformed.contains("SET v_creator_id ="),
        "Should transform v_creator_id"
    );
    assert!(
        !transformed.contains("INTO v_owner_id"),
        "Should remove INTO clause"
    );
}

#[test]
fn test_transform_select_into_with_comma_in_expression() {
    let body = r"BEGIN
    SELECT COALESCE(NEW.a, NEW.b)
    INTO v_value
    FROM t
    LIMIT 1;
END";

    let (transformed, _context) = PlPgSqlPreprocessor::preprocess(body).expect("preprocess");

    assert!(
        transformed.contains("SET v_value ="),
        "Should transform INTO target"
    );
    assert!(
        transformed.contains("COALESCE(NEW.a, NEW.b)"),
        "Should preserve expression with comma"
    );
    assert!(!transformed.contains(" INTO "), "Should remove INTO clause");
}

#[test]
fn test_parse_declaration_and_assignment_edge_cases() {
    assert!(PlPgSqlPreprocessor::parse_single_declaration("").is_none());
    assert!(PlPgSqlPreprocessor::parse_single_declaration("only_name").is_none());

    let decl = PlPgSqlPreprocessor::parse_single_declaration("v_now TIMESTAMP := now()");
    assert!(decl.is_some());
    let decl = decl.unwrap();
    assert_eq!(decl.name, "v_now");
    assert_eq!(decl.data_type, "TIMESTAMP");
    assert_eq!(decl.default_value.as_deref(), Some("now()"));

    let context = PlPgSqlContext::new();
    assert!(PlPgSqlPreprocessor::parse_assignment_line("1bad := 1;", &context).is_none());
    assert!(PlPgSqlPreprocessor::parse_assignment_line("v_ok := ;", &context).is_none());
}

#[test]
fn test_transform_elsif_handles_partial_and_identifier_suffix_inputs() {
    let single = PlPgSqlPreprocessor::transform_elsif("E");
    assert_eq!(single, "E");

    let transformed = PlPgSqlPreprocessor::transform_elsif("E\nELS\nELSIFX\nELSIF\n");
    assert!(transformed.contains("E\n"));
    assert!(transformed.contains("ELS\n"));
    assert!(transformed.contains("ELSIFX\n"));
    assert!(transformed.contains("ELSEIF\n"));
}

#[test]
fn test_transform_raise_exception_simple() {
    let body = "BEGIN\n  RAISE EXCEPTION 'val must be non-negative';\n  RETURN NEW;\nEND";
    let (transformed, _) = PlPgSqlPreprocessor::preprocess(body).expect("preprocess");
    assert!(
        transformed.contains("SELECT RAISE(ABORT, 'val must be non-negative')"),
        "RAISE EXCEPTION should become SELECT RAISE(ABORT, ...), got: {transformed}"
    );
    assert!(
        !transformed.contains("RAISE EXCEPTION"),
        "Original form should be removed"
    );
}

#[test]
fn test_transform_raise_exception_with_format_args() {
    let body = "BEGIN\n  RAISE EXCEPTION 'bad value: %', NEW.val;\n  RETURN NEW;\nEND";
    let (transformed, _) = PlPgSqlPreprocessor::preprocess(body).expect("preprocess");
    assert!(
        transformed.contains("SELECT RAISE(ABORT, 'bad value: %')"),
        "Format args should be dropped, got: {transformed}"
    );
}

#[test]
fn test_transform_raise_notice_dropped() {
    let body = "BEGIN\n  RAISE NOTICE 'debug info';\n  RETURN NEW;\nEND";
    let (transformed, _) = PlPgSqlPreprocessor::preprocess(body).expect("preprocess");
    assert!(
        !transformed.contains("RAISE NOTICE"),
        "RAISE NOTICE should be dropped, got: {transformed}"
    );
}

#[test]
fn an_exception_handler_is_detected() {
    let body = "BEGIN\n  SELECT 1;\nEXCEPTION WHEN others THEN\n  NULL;\nEND";
    assert!(PlPgSqlPreprocessor::has_exception_handler(body));
    assert!(!PlPgSqlPreprocessor::has_exception_handler(
        "BEGIN\n  RAISE EXCEPTION 'boom';\nEND"
    ));
}

#[test]
fn a_top_level_keyword_ignores_quoted_and_parenthesized_text() {
    let find = PlPgSqlPreprocessor::find_top_level_keyword;
    assert_eq!(
        find("SELECT 'INTO x' FROM t", "INTO", 0),
        None,
        "single quoted"
    );
    assert_eq!(find("SELECT \"INTO\" x", "INTO", 0), None, "double quoted");
    assert_eq!(find("SELECT (INTO) x", "INTO", 0), None, "parenthesized");
}

#[test]
fn a_quote_closes_and_the_keyword_after_it_is_found() {
    let find = PlPgSqlPreprocessor::find_top_level_keyword;
    assert_eq!(find("SELECT 'a' INTO x", "INTO", 0), Some(11));
    assert_eq!(find("SELECT \"a\" INTO x", "INTO", 0), Some(11));
}

/// A keyword glued to an identifier is part of that identifier.
#[test]
fn a_top_level_keyword_needs_a_word_boundary() {
    let find = PlPgSqlPreprocessor::find_top_level_keyword;
    assert_eq!(find("xINTO y", "INTO", 0), None);
    assert_eq!(find("INTO y", "INTO", 0), Some(0), "at the very start");
}

#[test]
fn a_qualified_assignment_is_refused() {
    assert!(matches!(
        PlPgSqlPreprocessor::preprocess("BEGIN\n  NEW.col := 1;\nEND").unwrap_err(),
        Error::QualifiedAssignment { .. }
    ));
}

fn declared_default(body: &str) -> Option<String> {
    let (_, ctx) = PlPgSqlPreprocessor::preprocess(body).expect("preprocess");
    ctx.get_declaration("v")
        .and_then(|d| d.default_value.clone())
}

#[test]
fn a_dollar_quoted_default_becomes_single_quoted() {
    let untagged =
        declared_default("DECLARE\n  v TEXT := $$hello$$;\nBEGIN\n  RETURN NEW;\nEND");
    assert_eq!(untagged.as_deref(), Some("'hello'"));

    let tagged =
        declared_default("DECLARE\n  v TEXT := $t_g$hello$t_g$;\nBEGIN\n  RETURN NEW;\nEND");
    assert_eq!(tagged.as_deref(), Some("'hello'"), "an underscore tag");
}

#[test]
fn a_plain_default_passes_through_unchanged() {
    let plain = declared_default("DECLARE\n  v INT := 42;\nBEGIN\n  RETURN NEW;\nEND");
    assert_eq!(plain.as_deref(), Some("42"));
}

/// The character after `RAISE` may be more than one byte wide.
#[test]
fn raise_followed_by_a_multibyte_character_is_passed_through() {
    let body = "BEGIN\n  RAISE\u{e9};\nEND";
    let (transformed, _) = PlPgSqlPreprocessor::preprocess(body).expect("preprocess");
    assert!(transformed.contains("RAISE\u{e9}"));
}

/// A level word is matched without case folding the whole body, so an
/// offset can never point into a differently sized uppercase form.
#[test]
fn raise_level_matching_ignores_case() {
    let body = "BEGIN\n  raise notice 'x';\n  RETURN NEW;\nEND";
    let (transformed, _) = PlPgSqlPreprocessor::preprocess(body).expect("preprocess");
    assert!(!transformed.to_uppercase().contains("RAISE NOTICE"));
}

#[test]
fn raise_exception_without_a_semicolon_keeps_the_whole_message() {
    let body = "BEGIN\n  RAISE EXCEPTION 'boom'";
    let (transformed, _) = PlPgSqlPreprocessor::preprocess(body).expect("preprocess");
    assert!(
        transformed.contains("'boom'"),
        "the closing quote must survive, got: {transformed}"
    );
}

#[test]
fn test_split_top_level_csv_handles_escaped_single_and_double_quotes() {
    let parts = PlPgSqlPreprocessor::split_top_level_csv(
        "'a''b', \"x,y\", COALESCE(a, b), plain_value",
    );
    assert_eq!(parts.len(), 4);
    assert_eq!(parts[0], "'a''b'");
    assert_eq!(parts[1], "\"x,y\"");
    assert_eq!(parts[2], "COALESCE(a, b)");
    assert_eq!(parts[3], "plain_value");
}

#[test]
fn elsif_inside_a_string_is_not_rewritten() {
    let body = "BEGIN\n  x := 'ELSIF goes here';\nEND";
    let (out, _) = PlPgSqlPreprocessor::preprocess(body).unwrap();
    assert!(
        out.contains("'ELSIF goes here'"),
        "literal unchanged: {out}"
    );
    assert!(
        !out.contains("'ELSEIF"),
        "must not rewrite inside string: {out}"
    );
}

#[test]
fn exception_in_string_is_not_a_handler() {
    assert!(!PlPgSqlPreprocessor::has_exception_handler(
        "BEGIN\n  x := 'EXCEPTION WHEN';\nEND"
    ));
}
