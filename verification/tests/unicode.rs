//! Names, whitespace, and case beyond ASCII.

use sqlparser_plpgsql::{PlPgSqlContext, PlPgSqlPreprocessor, VariableBinding};

fn assigned(body: &str) -> String {
    PlPgSqlPreprocessor::transform_assignments(body, &PlPgSqlContext::new()).expect("assign")
}

#[test]
fn a_name_may_hold_letters_of_any_script() {
    assert_eq!(assigned("na\u{ef}ve := 1;"), "SET na\u{ef}ve = 1;");
    assert_eq!(assigned("\u{fc}ber := 1;"), "SET \u{fc}ber = 1;");
    assert_eq!(assigned("\u{4e2d}\u{6587} := 1;"), "SET \u{4e2d}\u{6587} = 1;");
}

#[test]
fn a_name_does_not_start_with_a_digit_of_any_script() {
    assert_eq!(assigned("\u{b2}x := 1;"), "\u{b2}x := 1;");
    assert_eq!(assigned("\u{663}x := 1;"), "\u{663}x := 1;");
}

#[test]
fn a_symbol_is_no_part_of_a_name() {
    assert_eq!(assigned("a\u{20ac}b := 1;"), "a\u{20ac}b := 1;");
    assert_eq!(assigned("\u{20ac} := 1;"), "\u{20ac} := 1;");
}

#[test]
fn whitespace_of_any_script_is_trimmed() {
    assert_eq!(assigned("x\u{a0}:=\u{2003}1\u{3000};"), "SET x = 1;");
    assert_eq!(assigned("x\u{200b}:= 1;"), "x\u{200b}:= 1;", "not whitespace");
}

#[test]
fn a_declaration_is_split_at_whitespace_of_any_script() {
    let declaration = PlPgSqlPreprocessor::parse_single_declaration("v\u{a0}INT\u{2003}ARRAY");
    let declaration = declaration.unwrap();
    assert_eq!(declaration.name, "v");
    assert_eq!(declaration.data_type, "INT ARRAY");
}

#[test]
fn a_limit_is_looked_for_in_upper_case() {
    let context = PlPgSqlContext::new();
    assert_eq!(
        PlPgSqlPreprocessor::transform_select_into("SELECT \u{e9} INTO x FROM t limit 2;", &context),
        "SET x = (SELECT \u{e9} FROM t limit 2);"
    );
    assert_eq!(
        PlPgSqlPreprocessor::transform_select_into("SELECT \u{e9} INTO x FROM t;", &context),
        "SET x = (SELECT \u{e9} FROM t LIMIT 1);"
    );
    assert_eq!(
        PlPgSqlPreprocessor::transform_select_into(
            "SELECT a INTO x FROM t l\u{131}m\u{131}t 2;",
            &context
        ),
        "SET x = (SELECT a FROM t l\u{131}m\u{131}t 2);",
        "a dotless i is an I in upper case"
    );
}

#[test]
fn a_uuid_function_is_looked_for_in_lower_case() {
    let mut context = PlPgSqlContext::new();
    for (name, expression) in [
        ("a", "GEN_RANDOM_UUID()"),
        ("b", "\u{c9} || UUIDv7()"),
        ("c", "\u{c9} || now()"),
    ] {
        context.add_binding(VariableBinding {
            name: name.to_string(),
            expression: expression.to_string(),
        });
    }
    assert!(context.is_uuid_generation("a"));
    assert!(context.is_uuid_generation("b"));
    assert!(!context.is_uuid_generation("c"));
}
