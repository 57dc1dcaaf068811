//! The stages composed over whole function bodies, through the public API only.
//!
//! These run whole bodies through the crate the way a dependent sees it, so a
//! break in the handoff between stages fails here even when every stage is
//! individually correct.

use sqlparser_plpgsql::{parse_body, Error, PlPgSqlPreprocessor, Scanner};

/// Every fixture body, with its name.
fn fixtures() -> Vec<(&'static str, &'static str)> {
    vec![
        ("tiny", "BEGIN\n  total := 1;\n  RETURN NEW;\nEND;"),
        (
            "create_owner_for_group",
            "DECLARE\n    v_owner_id UUID;\n    v_label TEXT DEFAULT 'owner';\nBEGIN\n    \
             v_owner_id := gen_random_uuid();\n    INSERT INTO owners (id, label) VALUES \
             (v_owner_id, v_label);\n    SELECT g.creator_id, g.level\n    INTO v_creator, \
             v_level\n    FROM groups g\n    WHERE g.id = NEW.id;\n    RETURN NEW;\nEND;",
        ),
        (
            "log_event_trigger",
            "BEGIN\n  IF TG_OP = 'INSERT' THEN\n    v_kind := 'ELSIF';\n  ELSIF TG_OP = 'UPDATE' \
             THEN\n    v_kind := 'update';\n  ELSE\n    RAISE EXCEPTION 'unexpected %', TG_OP;\n  \
             END IF;\n  INSERT INTO log (kind) VALUES (v_kind);\n  RETURN NEW;\nEND;",
        ),
        (
            "large_concatenated",
            "BEGIN\n  a := 1;\n  RETURN NEW;\nEND;\nBEGIN\n  b := $$two$$;\n  RAISE NOTICE 'b';\n  \
             RETURN OLD;\nEND;",
        ),
        (
            "adversarial_unicode",
            "BEGIN\n  -- caf\u{e9} \u{1f600}\n  na\u{ef}ve := 'd\u{e9}j\u{e0} vu';\n  \u{fc}ber \
             := $t\u{e9}g$it's\u{a0}here$t\u{e9}g$;\nEND;",
        ),
        (
            "adversarial_nested",
            "BEGIN\n  /* a /* b ; BEGIN */ END */\n  x := '$$ ;''';\n  y := \"q ; \"\"q\";\nEND;",
        ),
        (
            "dollar_literals",
            "BEGIN\n  a := $$plain$$;\n  b := $tag$it's here$tag$;\n  c := $_x1$BEGIN; \
             END$_x1$;\nEND;",
        ),
    ]
}

#[test]
fn the_scanner_maps_every_byte_of_every_fixture() {
    for (name, body) in fixtures() {
        let regions = Scanner::new(body).regions();
        assert_eq!(
            regions.len(),
            body.len(),
            "{name}: the region map must cover every byte"
        );
    }
}

#[test]
fn no_fixture_leaves_a_dollar_quote_open() {
    for (name, body) in fixtures() {
        assert!(
            !Scanner::new(body).has_unterminated_dollar_quote(),
            "{name}: a fixture with an open dollar quote would silently truncate every later stage"
        );
    }
}

#[test]
fn every_fixture_preprocesses_into_non_empty_sql() {
    for (name, body) in fixtures() {
        let (sql, _context) = PlPgSqlPreprocessor::preprocess(body).unwrap_or_else(|error| {
            panic!("{name}: a real body must preprocess: {}", error.message())
        });
        assert!(
            !sql.trim().is_empty(),
            "{name}: preprocessing must not erase the body"
        );
    }
}

/// The crate's own scanner and the tokenizer inside `parse_body` are separate
/// mechanisms, so a fixture where they disagree about the block is a real bug.
///
/// Only block presence is compared. A body can be found and still fail to
/// parse, which `large_concatenated` does by design: it is several bodies in
/// one text, so the first `BEGIN` and the last `END` span all of them.
#[test]
fn the_scanner_and_the_parser_agree_on_whether_a_block_is_present() {
    for (name, body) in fixtures() {
        let scanner_sees_begin = Scanner::new(body.trim()).find_keyword("BEGIN", 0).is_some();
        let parser_found_block = !matches!(
            parse_body(name, body),
            Err(Error::MissingBeginBlock { .. })
        );
        assert_eq!(
            scanner_sees_begin, parser_found_block,
            "{name}: the scanner and the tokenizer disagree about whether a block is present"
        );
    }
}
