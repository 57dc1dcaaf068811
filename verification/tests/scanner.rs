//! The scanner: which bytes are live code.

use sqlparser_plpgsql::{Region, Scanner};

fn regions_of(text: &str) -> Vec<Region> {
    Scanner::new(text).regions()
}

#[test]
fn a_double_quoted_identifier_ends_at_its_closing_quote() {
    let text = "x \"a\" ; y";
    let regions = regions_of(text);
    assert_eq!(regions[2], Region::Quoted, "the opening quote");
    assert_eq!(regions[3], Region::Quoted, "the identifier body");
    assert_eq!(regions[4], Region::Quoted, "the closing quote");
    assert_eq!(regions[5], Region::Code, "the space after it");
    assert_eq!(Scanner::new(text).find_in_code(b';'), Some(6));
}

#[test]
fn a_doubled_double_quote_does_not_close_the_identifier() {
    let text = "\"abc\"\"d\" ; x";
    assert_eq!(Scanner::new(text).find_in_code(b';'), Some(9));
}

/// A doubled quote right after the opening one closes an empty identifier
/// rather than escaping, so the quote that follows opens a new span.
#[test]
fn a_doubled_quote_at_the_start_closes_an_empty_identifier() {
    assert_eq!(Scanner::new("\"\"a\" ; x").find_in_code(b';'), None);
}

#[test]
fn a_backslash_escapes_the_next_quote() {
    assert_eq!(Scanner::new("'abc\\'d';").find_in_code(b';'), Some(8));
}

#[test]
fn an_empty_string_closes_at_its_second_quote() {
    assert_eq!(Scanner::new("'';").find_in_code(b';'), Some(2));
}

#[test]
fn a_doubled_quote_late_in_a_string_stays_inside() {
    assert_eq!(Scanner::new("'abc''d';").find_in_code(b';'), Some(8));
}

#[test]
fn an_underscore_is_allowed_in_a_dollar_tag() {
    // The semicolon sits after the literal, so rejecting `_` as a tag
    // character shifts it inside a bogus literal opened further along.
    assert_eq!(Scanner::new("$_t$x$_t$;").find_in_code(b';'), Some(9));
}

#[test]
fn a_keyword_touching_an_underscore_is_not_a_match() {
    assert_eq!(Scanner::new("_ELSIF x").find_keyword("ELSIF", 0), None);
}

/// A needle exactly as long as the haystack still matches.
#[test]
fn a_full_length_needle_is_found() {
    assert_eq!(Scanner::new(":=").find_str_in_code(":="), Some(0));
    assert_eq!(Scanner::new("ELSIF").find_keyword("ELSIF", 0), Some(0));
}

#[test]
fn a_non_word_byte_yields_no_next_word() {
    assert_eq!(Scanner::new("; x").next_word_in_code(0), None);
}

#[test]
fn a_closed_literal_before_an_open_one_is_still_reported() {
    assert!(Scanner::new("$a$x$a$ $b$").has_unterminated_dollar_quote());
}

#[test]
fn a_doubled_quote_does_not_close_the_string() {
    let text = "a 'it''s' b";
    let regions = regions_of(text);
    assert_eq!(regions[2], Region::Quoted, "the opening quote");
    assert_eq!(regions[8], Region::Quoted, "the closing quote");
    assert_eq!(regions[10], Region::Code, "the b after it");
}

#[test]
fn a_dollar_quote_spans_its_tag() {
    let text = "x $tag$ ; $tag$ y";
    assert_eq!(Scanner::new(text).find_in_code(b';'), None);
    assert_eq!(regions_of(text)[16], Region::Code);
}

#[test]
fn an_unterminated_dollar_quote_requotes_to_the_end() {
    assert_eq!(Scanner::new("$$").requote_dollar_literals(), "''");
    assert_eq!(Scanner::new("$tag$abc").requote_dollar_literals(), "'abc'");
    assert_eq!(
        Scanner::new("$na\u{ef}ve$x").requote_dollar_literals(),
        "'x'"
    );
}

#[test]
fn an_unterminated_dollar_quote_is_reported() {
    assert!(Scanner::new("$$").has_unterminated_dollar_quote());
    assert!(Scanner::new("a := $tag$abc;").has_unterminated_dollar_quote());
    assert!(!Scanner::new("a := $tag$abc$tag$;").has_unterminated_dollar_quote());
    assert!(!Scanner::new("x").has_unterminated_dollar_quote());
}

/// A `$$` that is commented out or quoted opens nothing.
#[test]
fn a_dollar_quote_inside_another_span_is_not_unterminated() {
    assert!(!Scanner::new("-- $$\nx").has_unterminated_dollar_quote());
    assert!(!Scanner::new("/* $$ */ x").has_unterminated_dollar_quote());
    assert!(!Scanner::new("'$$'").has_unterminated_dollar_quote());
}

#[test]
fn a_placeholder_is_not_a_dollar_quote() {
    let text = "$1 ; $2";
    assert_eq!(Scanner::new(text).find_in_code(b';'), Some(3));
}

#[test]
fn a_keyword_needs_a_boundary_on_both_sides() {
    assert_eq!(Scanner::new("myelsif x").find_keyword("elsif", 0), None);
    assert_eq!(Scanner::new("elsifx x").find_keyword("elsif", 0), None);
    assert_eq!(Scanner::new("a ELSIF b").find_keyword("elsif", 0), Some(2));
}

#[test]
fn a_keyword_inside_a_comment_is_not_found() {
    assert_eq!(Scanner::new("-- elsif\nx").find_keyword("elsif", 0), None);
    assert_eq!(Scanner::new("/* elsif */ x").find_keyword("elsif", 0), None);
}

#[test]
fn the_next_word_skips_whitespace_and_comments() {
    let scanner = Scanner::new("EXCEPTION -- note\n  WHEN x");
    assert_eq!(scanner.next_word_in_code(9), Some("WHEN"));
    assert_eq!(Scanner::new("EXCEPTION").next_word_in_code(9), None);
}

#[test]
fn a_substring_inside_a_literal_is_not_found() {
    assert_eq!(Scanner::new("a := 1").find_str_in_code(":="), Some(2));
    assert_eq!(Scanner::new("'x := y'").find_str_in_code(":="), None);
}

/// A haystack shorter than the keyword has no match and must not index
/// past its end.
#[test]
fn a_short_text_has_no_keyword() {
    assert_eq!(Scanner::new("x, y").find_keyword("DEFAULT", 0), None);
    assert_eq!(Scanner::new("").find_keyword("BEGIN", 0), None);
}

#[test]
fn splitting_ignores_separators_inside_quotes() {
    let pieces = Scanner::new("a := 'x;y'; b := 2").split_in_code(b';');
    assert_eq!(pieces, vec!["a := 'x;y'", " b := 2"]);
}

#[test]
fn unicode_in_live_code_does_not_panic() {
    let text = "\u{e9} SELECT";
    let regions = regions_of(text);
    assert_eq!(regions.len(), text.len());
    assert_eq!(regions[0], Region::Code);
    assert_eq!(regions[1], Region::Code);
    assert_eq!(regions[2], Region::Code);
}

#[test]
fn unicode_inside_a_comment_does_not_panic() {
    let text = "-- caf\u{e9}\nSELECT 1";
    let regions = regions_of(text);
    assert_eq!(regions.len(), text.len());
    let select_byte = text.find("SELECT").unwrap();
    assert_eq!(regions[select_byte], Region::Code);
}

#[test]
fn unicode_in_dollar_quoted_string_does_not_panic() {
    let text = "$tag$caf\u{e9}$tag$ x";
    let regions = regions_of(text);
    assert_eq!(regions.len(), text.len());
    let x_byte = text.rfind('x').unwrap();
    assert_eq!(regions[x_byte], Region::Code);
}

#[test]
fn nested_block_comment_is_fully_quoted() {
    let text = "/* a /* b */ c */ x";
    let regions = regions_of(text);
    assert_eq!(regions[10], Region::Quoted, "inner * must be Quoted");
    assert_eq!(regions[11], Region::Quoted, "inner / must be Quoted");
    assert_eq!(
        regions[12],
        Region::Quoted,
        "space after inner */ must be Quoted"
    );
    assert_eq!(regions[15], Region::Quoted, "outer * must be Quoted");
    assert_eq!(regions[16], Region::Quoted, "outer / must be Quoted");
    assert_eq!(
        regions[17],
        Region::Code,
        "space after outer comment must be Code"
    );
}

#[test]
fn doubly_nested_block_comment_is_fully_quoted() {
    let text = "/* /* /* x */ */ */ y";
    let regions = regions_of(text);
    assert_eq!(regions[17], Region::Quoted, "outermost * must be Quoted");
    assert_eq!(regions[18], Region::Quoted, "outermost / must be Quoted");
    assert_eq!(
        regions[19],
        Region::Code,
        "space after outer comment must be Code"
    );
}

#[test]
fn non_nested_block_comment_still_works_after_fix() {
    let text = "/* simple */ x";
    let regions = regions_of(text);
    let x = text.rfind('x').unwrap();
    assert_eq!(regions[x - 1], Region::Code);
    assert_eq!(regions[x - 2], Region::Quoted);
    assert_eq!(regions[x], Region::Code);
}
