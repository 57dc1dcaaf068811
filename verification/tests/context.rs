//! The context: declarations, bindings, conditions, and trigger events.

use sqlparser_plpgsql::{PlPgSqlContext, VariableBinding, VariableDeclaration};

#[test]
fn declarations_and_bindings_are_tracked() {
    let mut ctx = PlPgSqlContext::new();

    ctx.add_declaration(VariableDeclaration {
        name: "v_id".to_string(),
        data_type: "UUID".to_string(),
        default_value: Some("uuidv7()".to_string()),
    });
    assert!(ctx.is_declared_variable("v_id"));
    assert_eq!(
        ctx.get_declaration("v_id").map(|d| d.data_type.as_str()),
        Some("UUID")
    );

    ctx.add_persistent_binding(VariableBinding {
        name: "v_persist".to_string(),
        expression: "(SELECT NEW.id)".to_string(),
    });
    ctx.add_binding(VariableBinding {
        name: "v_scoped".to_string(),
        expression: "42".to_string(),
    });

    assert_eq!(
        ctx.get_binding("v_persist").map(|b| b.expression.as_str()),
        Some("(SELECT NEW.id)")
    );
    assert_eq!(
        ctx.get_binding("v_scoped").map(|b| b.expression.as_str()),
        Some("42")
    );

    let binding_names = ctx
        .bindings()
        .iter()
        .map(|b| b.name.clone())
        .collect::<Vec<_>>();
    assert!(binding_names.iter().any(|n| n == "v_persist"));
    assert!(binding_names.iter().any(|n| n == "v_scoped"));

    ctx.clear_scoped_bindings();
    assert!(ctx.get_binding("v_scoped").is_none());
    assert!(ctx.get_binding("v_persist").is_some());
}

#[test]
fn conditions_and_uuid_tracking_are_scoped() {
    let mut ctx = PlPgSqlContext::new();

    assert!(ctx.current_condition().is_none());
    ctx.push_condition("NEW.kind = 'a'".to_string());
    ctx.push_condition("NEW.active = true".to_string());
    assert_eq!(
        ctx.current_condition().as_deref(),
        Some("(NEW.kind = 'a') AND (NEW.active = true)")
    );
    assert_eq!(ctx.pop_condition().as_deref(), Some("NEW.active = true"));
    assert_eq!(ctx.current_condition().as_deref(), Some("(NEW.kind = 'a')"));

    ctx.add_binding(VariableBinding {
        name: "v_uuid".to_string(),
        expression: "gen_random_uuid()".to_string(),
    });
    assert!(ctx.is_uuid_generation("v_uuid"));

    ctx.record_uuid_first_use("v_uuid", "items", "id");
    let first_use = ctx.get_uuid_first_use("v_uuid").unwrap();
    assert_eq!(first_use.table_name, "items");
    assert_eq!(first_use.column_name, "id");

    ctx.clear_uuid_first_use();
    assert!(ctx.get_uuid_first_use("v_uuid").is_none());
}

#[test]
fn an_unknown_name_is_not_a_declared_variable() {
    let ctx = PlPgSqlContext::new();
    assert!(!ctx.is_declared_variable("nope"));
}

#[test]
fn every_uuid_spelling_is_recognized() {
    let mut ctx = PlPgSqlContext::new();
    for (name, expression) in [
        ("a", "uuidv7()"),
        ("b", "uuidv4()"),
        ("c", "uuid_generate_v4()"),
        ("d", "gen_random_uuid()"),
    ] {
        ctx.add_binding(VariableBinding {
            name: name.to_string(),
            expression: expression.to_string(),
        });
        assert!(
            ctx.is_uuid_generation(name),
            "{expression} generates a UUID"
        );
    }

    ctx.add_binding(VariableBinding {
        name: "e".to_string(),
        expression: "now()".to_string(),
    });
    assert!(!ctx.is_uuid_generation("e"));
    assert!(!ctx.is_uuid_generation("never_bound"));
}

#[test]
fn declaration_defaults_become_persistent_bindings() {
    let mut ctx = PlPgSqlContext::new();
    ctx.add_declaration(VariableDeclaration {
        name: "v_id".to_string(),
        data_type: "UUID".to_string(),
        default_value: Some("uuidv7()".to_string()),
    });
    assert!(
        ctx.get_binding("v_id").is_none(),
        "not bound before seeding"
    );

    ctx.seed_default_bindings();
    assert_eq!(
        ctx.get_binding("v_id").map(|b| b.expression.as_str()),
        Some("uuidv7()")
    );
}

#[test]
fn folding_tg_op_needs_exactly_one_trigger_event() {
    let mut ctx = PlPgSqlContext::new();
    assert_eq!(ctx.single_trigger_event(), None, "no events");
    assert!(!ctx.has_multiple_trigger_events(), "no events");

    ctx.trigger_events.push("INSERT".to_string());
    assert_eq!(ctx.single_trigger_event(), Some("INSERT"));
    assert!(!ctx.has_multiple_trigger_events(), "one event");

    ctx.trigger_events.push("UPDATE".to_string());
    assert_eq!(ctx.single_trigger_event(), None, "two events");
    assert!(ctx.has_multiple_trigger_events(), "two events");
}
