//! Byte offsets and regions on texts that are not ASCII, and the laws of the
//! scanner on concrete texts.

use sqlparser_plpgsql::{Region, Scanner};

#[test]
fn the_readme_example_searches_live_code() {
    let scanner = Scanner::new("IF x THEN y := 'THEN inside a string'; END IF");
    assert_eq!(scanner.find_keyword("THEN", 0), Some(5));
    assert_eq!(scanner.find_keyword("THEN", 6), None);
}

#[test]
fn the_readme_example_requotes_a_literal() {
    let scanner = Scanner::new("msg := $tag$it's here$tag$");
    assert_eq!(scanner.requote_dollar_literals(), "msg := 'it''s here'");
}

#[test]
fn offsets_count_bytes() {
    let scanner = Scanner::new("\u{e9} SELECT \u{1f600} x := ;");
    assert_eq!(scanner.find_keyword("SELECT", 0), Some(3));
    assert_eq!(scanner.find_keyword("SELECT", 1), Some(3));
    assert_eq!(scanner.find_keyword("SELECT", 4), None);
    assert_eq!(scanner.find_str_in_code(":="), Some(17));
    assert_eq!(scanner.find_str_in_code(""), None);
    assert_eq!(scanner.find_in_code(b';'), Some(20));
    assert_eq!(scanner.find_in_code(0xc3), Some(0), "the first byte of a character");
    assert_eq!(scanner.find_in_code(0xa9), Some(1), "the second byte of a character");
    assert_eq!(scanner.find_in_code(0xff), None);
}

#[test]
fn the_next_word_starts_at_a_byte() {
    let scanner = Scanner::new("\u{e9}a 'q' b$1 ");
    assert_eq!(scanner.next_word_in_code(0), None, "not an ASCII word");
    assert_eq!(scanner.next_word_in_code(1), None, "inside a character");
    assert_eq!(scanner.next_word_in_code(2), Some("a"));
    assert_eq!(scanner.next_word_in_code(3), Some("b$1"));
    assert_eq!(scanner.next_word_in_code(11), None);
    assert_eq!(scanner.next_word_in_code(100), None);
}

#[test]
fn every_byte_of_a_character_has_its_region() {
    let text = "'\u{e9}'\u{e9}";
    let regions = Scanner::new(text).regions();
    assert_eq!(
        regions,
        vec![
            Region::Quoted,
            Region::Quoted,
            Region::Quoted,
            Region::Quoted,
            Region::Code,
            Region::Code
        ]
    );
}

#[test]
fn a_search_for_a_byte_agrees_with_the_regions() {
    let text = "a;'\u{e9};'-- ;\n;$$;$$\u{1f600};\"x;\";/* ; */;";
    let scanner = Scanner::new(text);
    let regions = scanner.regions();
    for needle in 0..=255u8 {
        let expected = text
            .bytes()
            .zip(regions.iter())
            .position(|(byte, region)| byte == needle && *region == Region::Code);
        assert_eq!(scanner.find_in_code(needle), expected);
    }
}

#[test]
fn pieces_join_to_the_text() {
    let text = "a;'b;c';\u{e9};;d";
    let pieces = Scanner::new(text).split_in_code(b';');
    assert_eq!(pieces, vec!["a", "'b;c'", "\u{e9}", "", "d"]);
    assert_eq!(pieces.join(";"), text);
    assert_eq!(Scanner::new("").split_in_code(b';'), vec![""]);
    assert_eq!(Scanner::new("abc").split_in_code(0xff), vec!["abc"]);
}

#[test]
fn a_keyword_is_found_in_any_case_and_never_in_a_literal() {
    let text = "'END' -- END\n\"END\" $$END$$ /* END */ eNd";
    let scanner = Scanner::new(text);
    let at = scanner.find_keyword("END", 0).unwrap();
    assert_eq!(&text[at..], "eNd");
    assert!(scanner.regions()[at..].iter().all(|region| *region == Region::Code));
}

#[test]
fn an_open_dollar_literal_swallows_the_rest() {
    let scanner = Scanner::new("a $x$ b ; c");
    assert!(scanner.has_unterminated_dollar_quote());
    assert!(scanner.regions()[2..].iter().all(|region| *region == Region::Quoted));
    assert_eq!(scanner.find_in_code(b';'), None);
}

#[test]
fn unclosed_spans_run_to_the_end() {
    for text in ["'abc;", "\"abc;", "/* a /* b */ ;", "-- ;", "'abc\\"] {
        let scanner = Scanner::new(text);
        assert!(scanner.regions().iter().all(|region| *region == Region::Quoted));
        assert_eq!(scanner.find_in_code(b';'), None);
        assert_eq!(scanner.requote_dollar_literals(), text);
    }
}

#[test]
fn a_tag_may_hold_letters_of_any_script() {
    let scanner = Scanner::new("$\u{e9}\u{4e2d}1$a$b$\u{e9}\u{4e2d}1$;");
    assert_eq!(scanner.requote_dollar_literals(), "'a$b';");
    assert_eq!(Scanner::new("$a b$ ;").requote_dollar_literals(), "$a b$ ;");
    assert_eq!(
        Scanner::new("$\u{20ac}$ ;").requote_dollar_literals(),
        "$\u{20ac}$ ;",
        "a currency sign is no letter"
    );
}
