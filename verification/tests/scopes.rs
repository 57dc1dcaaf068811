//! The context over several calls.

use sqlparser_plpgsql::{PlPgSqlContext, VariableBinding, VariableDeclaration};

fn binding(name: &str, expression: &str) -> VariableBinding {
    VariableBinding {
        name: name.to_string(),
        expression: expression.to_string(),
    }
}

fn declaration(name: &str, default_value: Option<&str>) -> VariableDeclaration {
    VariableDeclaration {
        name: name.to_string(),
        data_type: "INT".to_string(),
        default_value: default_value.map(str::to_string),
    }
}

fn bound(context: &PlPgSqlContext, name: &str) -> Option<String> {
    context.get_binding(name).map(|b| b.expression.clone())
}

#[test]
fn a_scoped_binding_hides_a_persistent_one() {
    let mut context = PlPgSqlContext::new();
    context.add_binding(binding("v", "scoped"));
    context.add_persistent_binding(binding("v", "persistent"));
    assert_eq!(bound(&context, "v").as_deref(), Some("scoped"));
    context.clear_scoped_bindings();
    assert_eq!(bound(&context, "v").as_deref(), Some("persistent"));
    assert_eq!(bound(&context, "w"), None);
}

#[test]
fn a_second_binding_replaces_the_first() {
    let mut context = PlPgSqlContext::new();
    context.add_binding(binding("v", "1"));
    context.add_binding(binding("v", "2"));
    assert_eq!(bound(&context, "v").as_deref(), Some("2"));
    assert_eq!(context.bindings().len(), 1);
}

#[test]
fn bindings_are_listed_scoped_first_and_by_name() {
    let mut context = PlPgSqlContext::new();
    context.add_persistent_binding(binding("b", "1"));
    context.add_persistent_binding(binding("a", "2"));
    context.add_binding(binding("d", "3"));
    context.add_binding(binding("c", "4"));
    context.add_binding(binding("a", "5"));
    let listed = context
        .bindings()
        .iter()
        .map(|b| format!("{}={}", b.name, b.expression))
        .collect::<Vec<_>>();
    assert_eq!(listed, vec!["a=5", "c=4", "d=3", "a=2", "b=1"]);
}

#[test]
fn leaving_a_condition_undoes_entering_it() {
    let mut context = PlPgSqlContext::new();
    assert_eq!(context.pop_condition(), None);
    context.push_condition("a".to_string());
    let outer = context.current_condition();
    context.push_condition("b".to_string());
    context.push_condition("c".to_string());
    assert_eq!(
        context.current_condition().as_deref(),
        Some("(a) AND (b) AND (c)")
    );
    assert_eq!(context.pop_condition().as_deref(), Some("c"));
    assert_eq!(context.pop_condition().as_deref(), Some("b"));
    assert_eq!(context.current_condition(), outer);
}

#[test]
fn seeding_defaults_never_replaces_a_binding() {
    let mut context = PlPgSqlContext::new();
    context.add_declaration(declaration("a", Some("1")));
    context.add_declaration(declaration("b", Some("2")));
    context.add_declaration(declaration("c", None));
    context.add_persistent_binding(binding("b", "kept"));
    context.add_binding(binding("a", "scoped"));
    context.seed_default_bindings();
    context.seed_default_bindings();
    assert_eq!(bound(&context, "a").as_deref(), Some("scoped"));
    context.clear_scoped_bindings();
    assert_eq!(bound(&context, "a").as_deref(), Some("1"));
    assert_eq!(bound(&context, "b").as_deref(), Some("kept"));
    assert_eq!(bound(&context, "c"), None);
}

#[test]
fn first_uses_are_kept_by_variable() {
    let mut context = PlPgSqlContext::new();
    context.record_uuid_first_use("a", "t", "id");
    context.record_uuid_first_use("b", "u", "key");
    assert_eq!(context.get_uuid_first_use("a").unwrap().table_name, "t");
    assert_eq!(context.get_uuid_first_use("b").unwrap().column_name, "key");
    assert!(context.get_uuid_first_use("c").is_none());
    context.clear_uuid_first_use();
    assert!(context.get_uuid_first_use("a").is_none());
}

#[test]
fn a_copy_is_independent() {
    let mut context = PlPgSqlContext::default();
    context.add_declaration(declaration("a", None));
    context.trigger_table = Some("t".to_string());
    let copy = context.clone();
    context.add_declaration(declaration("b", None));
    assert!(copy.is_declared_variable("a"));
    assert!(!copy.is_declared_variable("b"));
    assert_eq!(copy.trigger_table.as_deref(), Some("t"));
    assert_eq!(copy.get_declaration("a").unwrap().clone().name, "a");
}
