//! Exact results of the rewrites.

use sqlparser_plpgsql::{Error, PlPgSqlContext, PlPgSqlPreprocessor, Scanner};

fn preprocessed(body: &str) -> String {
    PlPgSqlPreprocessor::preprocess(body).expect("preprocess").0
}

fn select_into(body: &str) -> String {
    PlPgSqlPreprocessor::transform_select_into(body, &PlPgSqlContext::new())
}

fn raised(body: &str) -> String {
    PlPgSqlPreprocessor::transform_raise_statements(body).expect("raise")
}

fn refused_clause(body: &str) -> String {
    match PlPgSqlPreprocessor::transform_raise_statements(body) {
        Err(Error::UnsupportedRaiseUsing { clause }) => clause,
        other => panic!("not refused: {:?}", other),
    }
}

fn assigned(body: &str) -> String {
    PlPgSqlPreprocessor::transform_assignments(body, &PlPgSqlContext::new()).expect("assign")
}

fn refused_target(body: &str) -> (String, String) {
    match PlPgSqlPreprocessor::transform_assignments(body, &PlPgSqlContext::new()) {
        Err(Error::QualifiedAssignment { qualifier, name }) => (qualifier, name),
        other => panic!("not refused: {:?}", other),
    }
}

#[test]
fn the_body_of_the_readme_is_rewritten() {
    assert_eq!(
        preprocessed("BEGIN\n  total := 1;\nEND"),
        "BEGIN\n  SET total = 1;\nEND"
    );
}

#[test]
fn every_rewrite_applies_to_one_body() {
    let body = "DECLARE\n  v INT;\nBEGIN\n  IF a THEN\n    v := $t$it's$t$;\n  ELSIF b THEN\n    \
                SELECT c INTO v FROM d;\n  ELSE\n    RAISE EXCEPTION 'no';\n  END IF;\nEND";
    assert_eq!(
        preprocessed(body),
        "BEGIN\n  IF a THEN\n    SET v = 'it''s';\n  ELSEIF b THEN\n    SET v = (SELECT c FROM d \
         LIMIT 1);\n  ELSE\n    SELECT RAISE(ABORT, 'no');\n  END IF;\nEND"
    );
}

#[test]
fn a_body_with_nothing_to_rewrite_passes_through() {
    let block = "BEGIN\n  UPDATE t SET a = 'x := y; ELSIF' WHERE b = 1;\n  RETURN NEW;\nEND";
    assert_eq!(preprocessed(block), block);
}

#[test]
fn a_body_without_begin_is_rewritten_from_its_start() {
    assert_eq!(preprocessed("x := 1; y := 2;"), "SET x = 1; SET y = 2;");
    assert_eq!(preprocessed("DECLARE x := 1;"), "DECLARE x := 1;");
}

#[test]
fn a_begin_before_declare_leaves_no_declarations() {
    let (sql, context) = PlPgSqlPreprocessor::preprocess("BEGIN DECLARE v INT; END").unwrap();
    assert_eq!(sql, "BEGIN DECLARE v INT; END");
    assert!(!context.is_declared_variable("v"));
}

#[test]
fn each_variable_of_a_select_into_gets_its_own_set() {
    assert_eq!(
        select_into("BEGIN\n    SELECT a, b INTO x, y FROM t WHERE id = 1;\nEND"),
        "BEGIN\n    SET x = (SELECT a FROM t WHERE id = 1 LIMIT 1);\n    SET y = (SELECT b FROM t \
         WHERE id = 1 LIMIT 1);\nEND"
    );
}

#[test]
fn what_stands_before_a_select_into_passes_once() {
    assert_eq!(
        select_into("BEGIN SELECT a, b INTO x, y FROM t;"),
        "BEGIN SET x = (SELECT a FROM t LIMIT 1);\nSET y = (SELECT b FROM t LIMIT 1);"
    );
    assert_eq!(
        select_into("\n\t THEN SELECT a, b INTO x, y FROM t;"),
        "\n\t THEN SET x = (SELECT a FROM t LIMIT 1);\n\t SET y = (SELECT b FROM t LIMIT 1);"
    );
}

#[test]
fn only_live_code_cuts_a_select_into() {
    assert_eq!(
        select_into("SELECT 'a\\'; INTO b' INTO x FROM t;"),
        "SET x = (SELECT 'a\\'; INTO b' FROM t LIMIT 1);"
    );
    assert_eq!(
        select_into("SELECT $$a, b; INTO '$$, c INTO x, y FROM t;"),
        "SET x = (SELECT $$a, b; INTO '$$ FROM t LIMIT 1);\nSET y = (SELECT c FROM t LIMIT 1);"
    );
    assert_eq!(
        select_into("SELECT a /* it's; INTO */ INTO x FROM t;"),
        "SET x = (SELECT a /* it's; INTO */ FROM t LIMIT 1);"
    );
}

#[test]
fn a_select_into_without_from_is_an_assignment() {
    assert_eq!(
        select_into("BEGIN SELECT 1 INTO x;END"),
        "BEGIN SET x = (SELECT 1 LIMIT 1);END"
    );
}

#[test]
fn a_with_clause_moves_into_the_subquery() {
    assert_eq!(
        select_into("WITH q AS (SELECT 1 AS a FROM z) SELECT a INTO x FROM q;"),
        "SET x = (WITH q AS (SELECT 1 AS a FROM z) SELECT a FROM q LIMIT 1);"
    );
}

#[test]
fn a_limit_is_not_added_twice() {
    assert_eq!(
        select_into("SELECT a INTO x FROM t limit 5;"),
        "SET x = (SELECT a FROM t limit 5);"
    );
}

#[test]
fn a_select_into_with_no_set_spelling_is_kept() {
    for kept in [
        "SELECT a INTO STRICT x FROM t;",
        "SELECT a, b INTO x FROM t;",
        "SELECT a INTO r.f FROM t;",
        "SELECT a, b INTO x, r.f FROM t;",
        "SELECT a INTO \"my x\" FROM t;",
        "SELECT a INTO \"r\".\"f\" FROM t;",
        "SELECT a INTO x[1] FROM t;",
        "-- SELECT a INTO x FROM t;\n",
        "SELECT INTO x FROM t;",
        "SELECT a FROM t;",
        "INSERT INTO t VALUES (1);",
        "SELECT f('a INTO b') FROM t;",
        "SELECT a INTO x FROM t",
    ] {
        assert_eq!(select_into(kept), kept);
    }
}

#[test]
fn a_quoted_name_and_a_dollar_sign_are_bare_names() {
    assert_eq!(
        select_into("SELECT a INTO \"x\" FROM t;"),
        "SET \"x\" = (SELECT a FROM t LIMIT 1);"
    );
    assert_eq!(
        select_into("SELECT a, b INTO x$1, \"y.\"\"z\" FROM t;"),
        "SET x$1 = (SELECT a FROM t LIMIT 1);\nSET \"y.\"\"z\" = (SELECT b FROM t LIMIT 1);"
    );
}

#[test]
fn a_line_comment_of_a_select_into_ends_with_its_line() {
    assert_eq!(
        select_into("SELECT a -- n\nINTO x FROM t;"),
        "SET x = (SELECT a -- n\nFROM t LIMIT 1);"
    );
    assert_eq!(
        select_into("SELECT a -- INTO\nINTO x FROM t;"),
        "SET x = (SELECT a -- INTO\nFROM t LIMIT 1);"
    );
    assert_eq!(
        select_into("SELECT a -- n\nINTO x;"),
        "SET x = (SELECT a -- n\n LIMIT 1);"
    );
    assert_eq!(
        select_into("SELECT a, b -- n\nINTO x, y FROM t -- m\n;"),
        "SET x = (SELECT a FROM t -- m\n LIMIT 1);\nSET y = (SELECT b -- n\nFROM t -- m\n LIMIT 1);"
    );
    assert_eq!(
        select_into("SELECT '-- n' INTO x FROM t limit 1 -- m\n;"),
        "SET x = (SELECT '-- n' FROM t limit 1 -- m\n);"
    );
}

#[test]
fn a_quoted_semicolon_does_not_end_a_statement() {
    assert_eq!(
        select_into("SELECT ';' INTO x FROM t; SELECT \"a;b\" INTO y FROM u;"),
        "SET x = (SELECT ';' FROM t LIMIT 1); SET y = (SELECT \"a;b\" FROM u LIMIT 1);"
    );
}

#[test]
fn empty_list_items_are_dropped() {
    assert_eq!(
        PlPgSqlPreprocessor::split_top_level_csv(" a , ,b,, (c, d) ,"),
        vec!["a", "b", "(c, d)"]
    );
    assert!(PlPgSqlPreprocessor::split_top_level_csv("  ").is_empty());
    assert_eq!(
        PlPgSqlPreprocessor::split_top_level_csv(") , (a, b"),
        vec![")", "(a, b"]
    );
}

#[test]
fn a_top_level_keyword_is_searched_from_a_byte() {
    let find = PlPgSqlPreprocessor::find_top_level_keyword;
    assert_eq!(find("\u{e9} INTO into", "INTO", 0), Some(3));
    assert_eq!(find("\u{e9} INTO into", "INTO", 4), Some(8));
    assert_eq!(find("\u{e9} INTO into", "INTO", 9), None);
    assert_eq!(find("\u{e9}INTO", "INTO", 0), Some(2), "only ASCII extends a word");
    assert_eq!(find("INTO$", "INTO", 0), Some(0), "a dollar sign delimits");
    assert_eq!(find("'a''INTO' INTO", "INTO", 0), Some(10), "a doubled quote");
    assert_eq!(find("'a\\'INTO' INTO", "INTO", 0), Some(10), "an escaped quote");
    assert_eq!(find("$$INTO$$ INTO", "INTO", 0), Some(9), "a dollar-quoted literal");
    assert_eq!(find("/* INTO */ INTO", "INTO", 0), Some(11), "a comment");
    assert_eq!(find("')' (INTO) INTO", "INTO", 0), Some(11), "a quoted parenthesis");
    assert_eq!(find(")INTO", "INTO", 0), Some(1), "a stray parenthesis");
    assert_eq!(find("INTO", "INTO", 100), None);
}

#[test]
fn raise_statements_are_rewritten_dropped_or_kept() {
    assert_eq!(
        raised("BEGIN RAISE EXCEPTION 'a''b %', v; RAISE NOTICE 'n; m'; RAISE foo; END"),
        "BEGIN SELECT RAISE(ABORT, 'a''b %');  RAISE foo; END"
    );
    assert_eq!(raised("x RAISE LOG"), "x ");
    assert_eq!(raised("RAISE INFO;y"), "y");
    assert_eq!(raised("RAISE INFORM;y"), "RAISE INFORM;y");
    assert_eq!(raised("a RAISE"), "a RAISE");
    assert_eq!(raised("'RAISE NOTICE 1;'"), "'RAISE NOTICE 1;'");
}

#[test]
fn a_message_that_is_no_literal_becomes_error() {
    assert_eq!(
        raised("RAISE EXCEPTION v_message, 'x';"),
        "SELECT RAISE(ABORT, 'error');"
    );
    assert_eq!(raised("RAISE EXCEPTION;"), "SELECT RAISE(ABORT, 'error');");
}

#[test]
fn a_message_ends_where_its_literal_ends() {
    assert_eq!(
        raised("RAISE EXCEPTION 'a\\'b', 'c';"),
        "SELECT RAISE(ABORT, 'a\\'b');"
    );
    assert_eq!(
        raised("RAISE EXCEPTION $$a, 'b'; c$$, d;"),
        "SELECT RAISE(ABORT, $$a, 'b'; c$$);"
    );
    assert_eq!(
        raised("RAISE EXCEPTION USING MESSAGE = $m$it's$m$;"),
        "SELECT RAISE(ABORT, $m$it's$m$);"
    );
    assert_eq!(raised("RAISE NOTICE'a;b';c"), "c");
}

#[test]
fn an_escape_string_is_a_message() {
    assert_eq!(raised("RAISE EXCEPTION E'a', b;"), "SELECT RAISE(ABORT, E'a');");
    assert_eq!(
        raised("RAISE EXCEPTION e'a\\', b', c;"),
        "SELECT RAISE(ABORT, e'a\\', b');"
    );
    assert_eq!(raised("RAISE EXCEPTION E 'a';"), "SELECT RAISE(ABORT, 'error');");
    assert_eq!(raised("RAISE EXCEPTION E;"), "SELECT RAISE(ABORT, 'error');");
    assert_eq!(
        refused_clause("RAISE EXCEPTION USING MESSAGE = E'm';"),
        "USING MESSAGE = E'm'"
    );
}

#[test]
fn a_dollar_quoted_message_is_requoted_in_a_body() {
    assert_eq!(
        preprocessed("BEGIN RAISE EXCEPTION $$it's$$; END"),
        "BEGIN SELECT RAISE(ABORT, 'it''s'); END"
    );
    match PlPgSqlPreprocessor::preprocess("BEGIN RAISE EXCEPTION USING HINT = $$h$$; END") {
        Err(Error::UnsupportedRaiseUsing { clause }) => assert_eq!(clause, "USING HINT = 'h'"),
        other => panic!("not refused: {:?}", other),
    }
}

#[test]
fn a_backslash_in_a_dollar_literal_hides_nothing_behind_it() {
    let sql = preprocessed("BEGIN\n  x := $$a\\$$;\n  y := 1;\nEND");
    assert_eq!(sql, "BEGIN\n  SET x = 'a\\';\n  SET y = 1;\nEND");
    assert_eq!(
        preprocessed(
            "BEGIN x := $$\\$$; SELECT a INTO y FROM t; ELSIF RAISE EXCEPTION 'e'; END"
        ),
        "BEGIN SET x = '\\'; SET y = (SELECT a FROM t LIMIT 1); ELSEIF SELECT RAISE(ABORT, \
         'e'); END"
    );
}

#[test]
fn a_keyword_next_to_a_dollar_literal_is_a_whole_word() {
    assert_eq!(preprocessed("$$x$$ELSIF$$y$$"), "'x'ELSEIF'y'");
    assert_eq!(
        preprocessed("BEGIN IF a = $$x$$THEN y := 1; END IF; END"),
        "BEGIN IF a = 'x'THEN SET y = 1; END IF; END"
    );
    assert_eq!(refused_target("IF a = $$x$$THEN r.f = 1;"), ("r".to_string(), "f".to_string()));
    assert_eq!(
        preprocessed("BEGIN IF a = $$x$$THEN RAISE EXCEPTION 'e'; END IF; END"),
        "BEGIN IF a = 'x'THEN SELECT RAISE(ABORT, 'e'); END IF; END"
    );
    assert_eq!(raised("$$x$$RAISE LOG;y"), "$$x$$y");
    assert_eq!(raised("x$RAISE LOG;y"), "x$RAISE LOG;y");
    let scanner = Scanner::new("$$x$$ELSIF ELSIF");
    assert_eq!(scanner.find_keyword("ELSIF", 0), Some(11), "a scan keeps its own boundary");
}

#[test]
fn a_using_message_is_the_message() {
    assert_eq!(
        raised("RAISE EXCEPTION using\n message = 'it''s' ;"),
        "SELECT RAISE(ABORT, 'it''s');"
    );
}

#[test]
fn other_using_clauses_are_refused() {
    assert_eq!(
        refused_clause("RAISE EXCEPTION USING ERRCODE = '1';"),
        "USING ERRCODE = '1'"
    );
    assert_eq!(
        refused_clause("RAISE EXCEPTION USING MESSAGE = 'm', HINT = 'h';"),
        "USING MESSAGE = 'm', HINT = 'h'"
    );
    assert_eq!(
        refused_clause("RAISE EXCEPTION USING MESSAGE = v;"),
        "USING MESSAGE = v"
    );
    assert_eq!(
        refused_clause("RAISE EXCEPTION USING MESSAGE 'm';"),
        "USING MESSAGE 'm'"
    );
    assert_eq!(
        refused_clause("RAISE EXCEPTION USING MESSAGE = 'm"),
        "USING MESSAGE = 'm"
    );
}

#[test]
fn elsif_is_respelled_in_live_code_only() {
    let elsif = PlPgSqlPreprocessor::transform_elsif;
    assert_eq!(
        elsif("ELSIF a elsif b -- ELSIF\n'ELSIF' $$ELSIF$$ preelsif ELSIF"),
        "ELSEIF a ELSEIF b -- ELSIF\n'ELSIF' $$ELSIF$$ preelsif ELSEIF"
    );
    let once = elsif("a ELSIF b ElsIf c");
    assert_eq!(elsif(&once), once);
}

#[test]
fn assignments_are_rewritten_one_by_one() {
    assert_eq!(
        assigned("BEGIN a := 1; b:=2;c := ; d = 3; 1e := 4"),
        "BEGIN SET a = 1; SET b = 2;c := ; d = 3; 1e := 4"
    );
}

#[test]
fn a_named_argument_is_no_assignment() {
    for kept in [
        "PERFORM f(a := 1)",
        "PERFORM f(1, a := 2, b := 3);",
        "SELECT f( a := 1 );",
        "DECLARE v INT := 1;",
        "v \u{e9} := 1;",
    ] {
        assert_eq!(assigned(kept), kept);
    }
    assert_eq!(assigned("x := f(a := 1)"), "SET x = f(a := 1)");
    assert_eq!(
        assigned("IF f(a := 1) THEN x := f(b := 2);"),
        "IF f(a := 1) THEN SET x = f(b := 2);"
    );
}

#[test]
fn an_assignment_stands_where_a_statement_can_start() {
    assert_eq!(
        assigned("BEGIN -- note\n x := 1; /* a */ y := 2; -- z := 3\n"),
        "BEGIN -- note\n SET x = 1; /* a */ SET y = 2; -- z := 3\n"
    );
    assert_eq!(assigned("IF a THEN x := 1;"), "IF a THEN SET x = 1;");
    assert_eq!(assigned("else x := 1;"), "else SET x = 1;");
    assert_eq!(assigned("LOOP x := 1;"), "LOOP SET x = 1;");
    assert_eq!(assigned("END IF x := 1;"), "END IF SET x = 1;");
    assert_eq!(assigned("CASE a WHEN 1 THEN x := 1;"), "CASE a WHEN 1 THEN SET x = 1;");
    assert_eq!(assigned("IF x := 1;"), "IF x := 1;");
    assert_eq!(assigned("mythen x := 1;"), "mythen x := 1;");
}

#[test]
fn an_assignment_can_follow_a_label() {
    assert_eq!(assigned("<<lbl>> x := 1;"), "<<lbl>> SET x = 1;");
    assert_eq!(
        preprocessed("BEGIN\n  <<lbl>>\n  x := 1;\nEND"),
        "BEGIN\n  <<lbl>>\n  SET x = 1;\nEND"
    );
    assert_eq!(assigned("a > x := 1;"), "a > x := 1;");
    assert_eq!(assigned("r . f := 1;"), "r . f := 1;");
}

#[test]
fn a_line_comment_of_an_assignment_ends_with_its_line() {
    assert_eq!(assigned("x := 1 -- c\n;"), "SET x = 1 -- c\n;");
    assert_eq!(assigned("x := 1 /* -- */;"), "SET x = 1 /* -- */;");
    assert_eq!(assigned("x := 1 -- c\n + 2;"), "SET x = 1 -- c\n + 2;");
    assert_eq!(assigned("x := '-- c';y := 2 -- d"), "SET x = '-- c';SET y = 2 -- d");
}

#[test]
fn a_qualified_target_is_refused_wherever_it_stands() {
    let pair = |q: &str, n: &str| (q.to_string(), n.to_string());
    assert_eq!(refused_target("NEW.col := 1"), pair("NEW", "col"));
    assert_eq!(refused_target("a := 1; t.n\n:= 2; u.m := 3"), pair("t", "n"));
    assert_eq!(refused_target("BEGIN NEW.col = 1;"), pair("NEW", "col"));
    assert_eq!(refused_target("IF a THEN r.x = 2;"), pair("r", "x"));
    assert_eq!(refused_target("LOOP r.x = 2;"), pair("r", "x"));
}

#[test]
fn a_comparison_is_not_an_assignment() {
    for kept in [
        "UPDATE t SET a = 1 WHERE t.n = 1;",
        "CASE WHEN c THEN t.n = 1 ELSE t.m = 2 END",
        "t.n == 1",
        "t.n => 1",
        "f(a := 'NEW.x := 1')",
        "-- NEW.x := 1\n",
    ] {
        assert_eq!(assigned(kept), kept);
    }
}

#[test]
fn declarations_keep_their_type_and_default() {
    let body = "DECLARE\n  a NUMERIC ( 10 , 2 ) := 1;\n  b TEXT DEFAULT 'x;y';\n  b INT;\n  \
                c;\nBEGIN\nEND";
    let (_, context) = PlPgSqlPreprocessor::preprocess(body).unwrap();
    let a = context.get_declaration("a").unwrap();
    assert_eq!(a.data_type, "NUMERIC ( 10 , 2 )");
    assert_eq!(a.default_value.as_deref(), Some("1"));
    let b = context.get_declaration("b").unwrap();
    assert_eq!(b.data_type, "INT", "the last declaration counts");
    assert_eq!(b.default_value, None);
    assert!(!context.is_declared_variable("c"), "no type");
}

#[test]
fn a_default_is_introduced_in_live_code() {
    let declared = |decl: &str| {
        let found = PlPgSqlPreprocessor::parse_single_declaration(decl).unwrap();
        (found.name, found.data_type, found.default_value.unwrap())
    };
    let expected = |default: &str| ("v".to_string(), "TEXT".to_string(), default.to_string());
    assert_eq!(declared("v TEXT DEFAULT 'a := b'"), expected("'a := b'"));
    assert_eq!(declared("v TEXT := 'DEFAULT'"), expected("'DEFAULT'"));
    assert_eq!(declared("v TEXT DEFAULT f(a := 1)"), expected("f(a := 1)"));
    assert_eq!(declared("v TEXT := f(DEFAULT)"), expected("f(DEFAULT)"));
}

#[test]
fn only_a_sole_dollar_literal_is_a_dollar_quoted_default() {
    let default = |decl: &str| {
        PlPgSqlPreprocessor::parse_single_declaration(decl)
            .unwrap()
            .default_value
            .unwrap()
    };
    assert_eq!(default("v TEXT := $$it's$$"), "'it''s'");
    assert_eq!(default("v TEXT := $$a$$ || $$b$$"), "$$a$$ || $$b$$");
    assert_eq!(default("v TEXT := $1$a$1$"), "$1$a$1$");
    assert_eq!(default("v TEXT := $$a"), "$$a");
}

#[test]
fn an_assignment_line_is_a_binding() {
    let context = PlPgSqlContext::new();
    let binding = PlPgSqlPreprocessor::parse_assignment_line(" v_a := b + 1 ;; ", &context);
    let binding = binding.unwrap();
    assert_eq!(binding.name, "v_a");
    assert_eq!(binding.expression, "b + 1");
    assert!(PlPgSqlPreprocessor::parse_assignment_line("a.b := 1", &context).is_none());
    assert!(PlPgSqlPreprocessor::parse_assignment_line("a = 1", &context).is_none());
}

#[test]
fn an_exception_handler_needs_when() {
    let opens = PlPgSqlPreprocessor::has_exception_handler;
    assert!(opens("exception /* c */ when others"));
    assert!(opens("RAISE EXCEPTION 'a'; EXCEPTION\nWHEN x"));
    assert!(!opens("EXCEPTION"));
    assert!(!opens("EXCEPTION WHENEVER"));
    assert!(!opens("EXCEPTION 'x' THEN"));
    assert!(!opens("-- EXCEPTION WHEN\n"));
}

#[test]
fn requoting_leaves_no_dollar_literal() {
    for body in ["a $$b$$ c", "'a'$$b$$'c'", "$x$it's$x$$$$$ $1 $", "-- $$\n$$ ' $$"] {
        let once = Scanner::new(body).requote_dollar_literals();
        assert!(!Scanner::new(&once).has_unterminated_dollar_quote());
        assert_eq!(Scanner::new(&once).requote_dollar_literals(), once);
    }
    assert_eq!(
        Scanner::new("'a'$$b$$'c'").requote_dollar_literals(),
        "'a''b''c'"
    );
}

#[test]
fn a_backslash_in_a_dollar_literal_is_kept_as_it_is() {
    assert_eq!(
        Scanner::new("$$a\\$$ ' $$b$$ '").requote_dollar_literals(),
        "'a\\' ' $$b$$ '"
    );
}
