//! Laws of the translation context.

use vstd::prelude::*;

use crate::context;
use crate::context::{BindingView, ContextView, DeclarationView, FirstUseView};
use crate::laws::wording;
use crate::names;
use crate::preprocessor::declaration;
use crate::text;

verus! {

/// A declaration is found under the name it declares, and nothing else changes.
pub proof fn law_declared_variable_is_found(
    context: ContextView,
    declaration: DeclarationView,
    other: Seq<char>,
)
    ensures
        context.declare(declaration).declarations.contains_key(declaration.name),
        context.declare(declaration).declarations[declaration.name] == declaration,
        other != declaration.name ==> (context.declare(declaration).declarations.contains_key(other)
            == context.declarations.contains_key(other)),
        other != declaration.name && context.declarations.contains_key(other)
            ==> context.declare(declaration).declarations[other] == context.declarations[other],
        context.declare(declaration).binding(other) == context.binding(other),
{
}

/// A binding of the current IF block is what a lookup finds, and it hides a
/// persistent one of the same name without replacing it.
pub proof fn law_scoped_binding_hides_persistent(
    context: ContextView,
    scoped: BindingView,
    persistent: BindingView,
)
    requires
        scoped.name == persistent.name,
    ensures
        context.bind(scoped).binding(scoped.name) == Some(scoped),
        context.bind_persistently(persistent).bind(scoped).binding(scoped.name) == Some(scoped),
        context.bind(scoped).bind_persistently(persistent).binding(scoped.name) == Some(scoped),
        context.bind_persistently(persistent).bind(scoped).leave_scope().binding(scoped.name)
            == Some(persistent),
{
}

/// Leaving an IF block keeps the persistent bindings and no others.
pub proof fn law_persistent_bindings_outlive_a_scope(context: ContextView, name: Seq<char>)
    ensures
        context.leave_scope().persistent_bindings == context.persistent_bindings,
        context.leave_scope().binding(name) == (if context.persistent_bindings.contains_key(name) {
            Some(context.persistent_bindings[name])
        } else {
            None::<BindingView>
        }),
        context.leave_scope().leave_scope() == context.leave_scope(),
{
}

/// A binding of one name leaves the lookup of every other name alone.
pub proof fn law_bindings_do_not_interfere(
    context: ContextView,
    binding: BindingView,
    other: Seq<char>,
)
    requires
        other != binding.name,
    ensures
        context.bind(binding).binding(other) == context.binding(other),
        context.bind_persistently(binding).binding(other) == context.binding(other),
{
}

/// Leaving a condition undoes entering it.
pub proof fn law_leaving_undoes_entering(context: ContextView, condition: Seq<char>)
    ensures
        context.enter(condition).conditions.last() == condition,
        context.enter(condition).leave() == context,
{
    assert(context.conditions.push(condition).drop_last() == context.conditions);
    assert(context.enter(condition).leave() =~= context);
}

/// Entering a condition adds it, in parentheses, to the combined condition.
pub proof fn law_conditions_are_joined_by_and(context: ContextView, condition: Seq<char>)
    ensures
        context.condition() is None <==> context.conditions.len() == 0,
        context.enter(condition).condition() == (match context.condition() {
            Some(outer) => Some(outer + " AND "@ + ("("@ + condition + ")"@)),
            None => Some("("@ + condition + ")"@),
        }),
{
    let before = context::parenthesized(context.conditions);
    let after = context::parenthesized(context.enter(condition).conditions);
    assert(after =~= before.push("("@ + condition + ")"@));
    if before.len() > 0 {
        assert(after.drop_last() =~= before);
    }
}

/// A recorded first use is found under its variable until the uses are
/// forgotten.
pub proof fn law_first_use_is_kept_until_forgotten(
    context: ContextView,
    variable: Seq<char>,
    first_use: FirstUseView,
    other: Seq<char>,
)
    ensures
        context.record_first_use(variable, first_use).uuid_first_use.contains_key(variable),
        context.record_first_use(variable, first_use).uuid_first_use[variable] == first_use,
        other != variable ==> (context.record_first_use(
            variable,
            first_use,
        ).uuid_first_use.contains_key(other) == context.uuid_first_use.contains_key(other)),
        !context.forget_first_uses().uuid_first_use.contains_key(other),
{
}

/// Seeding defaults binds every declared variable that has a default, never
/// replaces a persistent binding, and does nothing the second time.
pub proof fn law_seeding_defaults(context: ContextView, name: Seq<char>)
    ensures
        context.persistent_bindings.contains_key(name)
            ==> context.seed_defaults().persistent_bindings.contains_key(name)
            && context.seed_defaults().persistent_bindings[name]
            == context.persistent_bindings[name],
        context.takes_default(name) ==> context.seed_defaults().persistent_bindings.contains_key(
            name,
        ) && context.seed_defaults().persistent_bindings[name] == (BindingView {
            name,
            expression: context.declarations[name].default_value->0,
        }),
        context.seed_defaults().persistent_bindings.contains_key(name)
            ==> context.persistent_bindings.contains_key(name) || context.takes_default(name),
        context.seed_defaults().seed_defaults() == context.seed_defaults(),
{
    let once = context.seed_defaults();
    let twice = once.seed_defaults();
    assert forall|other: Seq<char>| !#[trigger] once.takes_default(other) by {
        assert(once.persistent_bindings.contains_key(other) == (
        context.persistent_bindings.contains_key(other) || context.takes_default(other)));
    }
    assert(twice.persistent_bindings =~= once.persistent_bindings);
    assert(twice =~= once);
}

/// `piece` declares `name`.
pub open spec fn declares(piece: Seq<char>, name: Seq<char>) -> bool {
    declaration::declaration_of(piece) matches Some(found) && found.name == name
}

/// A DECLARE section declares the names that its pieces declare, and nothing
/// else of the context changes.
pub proof fn law_section_declares_its_names(
    context: ContextView,
    pieces: Seq<Seq<char>>,
    name: Seq<char>,
)
    ensures
        declaration::declared(context, pieces) == (ContextView {
            declarations: declaration::declared(context, pieces).declarations,
            ..context
        }),
        declaration::declared(context, pieces).declarations.contains_key(name) <==> (
        context.declarations.contains_key(name) || exists|k: int|
            0 <= k < pieces.len() && declares(#[trigger] pieces[k], name)),
    decreases pieces.len(),
{
    if pieces.len() > 0 {
        let init = pieces.drop_last();
        law_section_declares_its_names(context, init, name);
        if declares(pieces.last(), name) {
            assert(declares(pieces[pieces.len() - 1], name));
        }
        if exists|k: int| 0 <= k < init.len() && declares(#[trigger] init[k], name) {
            let k = choose|k: int| 0 <= k < init.len() && declares(#[trigger] init[k], name);
            assert(declares(pieces[k], name));
        }
        if exists|k: int| 0 <= k < pieces.len() && declares(#[trigger] pieces[k], name) {
            let k = choose|k: int| 0 <= k < pieces.len() && declares(#[trigger] pieces[k], name);
            if k < init.len() {
                assert(declares(init[k], name));
            }
        }
    }
}

/// Of several declarations of a name, the last one counts.
pub proof fn law_last_declaration_counts(
    context: ContextView,
    pieces: Seq<Seq<char>>,
    k: int,
    name: Seq<char>,
)
    requires
        0 <= k < pieces.len(),
        declares(pieces[k], name),
        forall|j: int| k < j < pieces.len() ==> !declares(#[trigger] pieces[j], name),
    ensures
        declaration::declared(context, pieces).declarations.contains_key(name),
        declaration::declared(context, pieces).declarations[name] == declaration::declaration_of(
            pieces[k],
        )->0,
    decreases pieces.len(),
{
    let init = pieces.drop_last();
    if k < init.len() {
        assert(!declares(pieces[pieces.len() - 1], name));
        assert forall|j: int| k < j < init.len() implies !declares(#[trigger] init[j], name) by {
            assert(init[j] == pieces[j]);
        }
        law_last_declaration_counts(context, init, k, name);
    }
}

/// Every change of a context touches one thing that it knows and leaves the others
/// alone.
pub proof fn law_changes_are_local(
    context: ContextView,
    declaration: DeclarationView,
    binding: BindingView,
    condition: Seq<char>,
    first_use: FirstUseView,
)
    ensures
        same_but_for_declarations(context, context.declare(declaration)),
        same_but_for_bindings(context, context.bind(binding)),
        context.bind(binding).persistent_bindings == context.persistent_bindings,
        same_but_for_bindings(context, context.bind_persistently(binding)),
        context.bind_persistently(binding).scoped_bindings == context.scoped_bindings,
        same_but_for_bindings(context, context.leave_scope()),
        same_but_for_bindings(context, context.seed_defaults()),
        context.seed_defaults().scoped_bindings == context.scoped_bindings,
        same_but_for_conditions(context, context.enter(condition)),
        same_but_for_conditions(context, context.leave()),
        same_but_for_first_uses(context, context.record_first_use(condition, first_use)),
        same_but_for_first_uses(context, context.forget_first_uses()),
{
}

/// Two contexts differ in their declarations at most.
pub open spec fn same_but_for_declarations(a: ContextView, b: ContextView) -> bool {
    &&& a.persistent_bindings == b.persistent_bindings && a.scoped_bindings == b.scoped_bindings
    &&& a.conditions == b.conditions && a.uuid_first_use == b.uuid_first_use
    &&& a.trigger_events == b.trigger_events && a.trigger_table == b.trigger_table
}

/// Two contexts differ in their bindings at most.
pub open spec fn same_but_for_bindings(a: ContextView, b: ContextView) -> bool {
    &&& a.declarations == b.declarations
    &&& a.conditions == b.conditions && a.uuid_first_use == b.uuid_first_use
    &&& a.trigger_events == b.trigger_events && a.trigger_table == b.trigger_table
}

/// Two contexts differ in their conditions at most.
pub open spec fn same_but_for_conditions(a: ContextView, b: ContextView) -> bool {
    &&& a.declarations == b.declarations
    &&& a.persistent_bindings == b.persistent_bindings && a.scoped_bindings == b.scoped_bindings
    &&& a.uuid_first_use == b.uuid_first_use
    &&& a.trigger_events == b.trigger_events && a.trigger_table == b.trigger_table
}

/// Two contexts differ in their first uses of UUIDs at most.
pub open spec fn same_but_for_first_uses(a: ContextView, b: ContextView) -> bool {
    &&& a.declarations == b.declarations
    &&& a.persistent_bindings == b.persistent_bindings && a.scoped_bindings == b.scoped_bindings
    &&& a.conditions == b.conditions
    &&& a.trigger_events == b.trigger_events && a.trigger_table == b.trigger_table
}

/// A new context knows nothing: it finds no declaration, no binding, and no first
/// use, and it is under no condition and in no trigger.
pub proof fn law_empty_context_knows_nothing(name: Seq<char>)
    ensures
        !ContextView::empty().declarations.contains_key(name),
        ContextView::empty().binding(name) is None,
        ContextView::empty().condition() is None,
        !ContextView::empty().uuid_first_use.contains_key(name),
        ContextView::empty().trigger_events.len() == 0,
        ContextView::empty().trigger_table is None,
{
}

/// A default is what is bound where nothing else is: seeding gives a declared
/// variable the default of its declaration, and gives nothing to a variable that
/// has no default or is not declared.
pub proof fn law_defaults_are_those_declared(context: ContextView, name: Seq<char>)
    requires
        !context.persistent_bindings.contains_key(name),
    ensures
        context.seed_defaults().persistent_bindings.contains_key(name) <==> (
        context.declarations.contains_key(name) && context.declarations[name].default_value is Some),
        context.declarations.contains_key(name) ==> (
        context.declarations[name].default_value matches Some(value)
            ==> context.seed_defaults().persistent_bindings[name] == (BindingView {
            name,
            expression: value,
        })),
{
}

/// Names are listed as in a dictionary: a name comes before every longer one that
/// starts with it, and the first character that differs decides otherwise.
pub proof fn law_names_are_in_dictionary_order(
    start: Seq<char>,
    a: char,
    b: char,
    tails: (Seq<char>, Seq<char>),
)
    requires
        a < b,
    ensures
        names::precedes(start, start + seq![a] + tails.0),
        names::precedes(start + seq![a] + tails.0, start + seq![b] + tails.1),
        !names::precedes(start + seq![b] + tails.1, start + seq![a] + tails.0),
        !names::precedes(start + seq![a] + tails.0, start),
    decreases start.len(),
{
    let left = start + seq![a] + tails.0;
    let right = start + seq![b] + tails.1;
    if start.len() > 0 {
        let rest = start.drop_first();
        law_names_are_in_dictionary_order(rest, a, b, tails);
        assert(left.drop_first() =~= rest + seq![a] + tails.0);
        assert(right.drop_first() =~= rest + seq![b] + tails.1);
        assert(left[0] == start[0] && right[0] == start[0]);
    } else {
        assert(left[0] == a && right[0] == b);
    }
}

// ---------------------------------------------------------------------------
// UUIDs
// ---------------------------------------------------------------------------

/// A call without arguments of a function that generates a UUID stands at `i`,
/// in lower case.
pub open spec fn generator_called_at(s: Seq<char>, i: int) -> bool {
    ||| wording::reads_at(s, i, "uuidv7()"@)
    ||| wording::reads_at(s, i, "uuidv4()"@)
    ||| wording::reads_at(s, i, "uuid_generate_v4()"@)
    ||| wording::reads_at(s, i, "gen_random_uuid()"@)
}

/// An expression generates a UUID if and only if it calls one of four functions,
/// in any case and without arguments.
pub proof fn law_uuid_generation_is_a_call(expression: Seq<char>)
    ensures
        context::generates_uuid(expression) <==> exists|i: int| #[trigger]
            generator_called_at(text::lowercased(expression), i),
{
    let lower = text::lowercased(expression);
    wording::law_contained_text_stands_somewhere(lower, "uuidv7()"@);
    wording::law_contained_text_stands_somewhere(lower, "uuidv4()"@);
    wording::law_contained_text_stands_somewhere(lower, "uuid_generate_v4()"@);
    wording::law_contained_text_stands_somewhere(lower, "gen_random_uuid()"@);
    if context::generates_uuid(expression) {
        let i = choose|i: int|
            {
                ||| wording::reads_at(lower, i, "uuidv7()"@)
                ||| wording::reads_at(lower, i, "uuidv4()"@)
                ||| wording::reads_at(lower, i, "uuid_generate_v4()"@)
                ||| wording::reads_at(lower, i, "gen_random_uuid()"@)
            };
        assert(generator_called_at(lower, i));
    }
}

/// A value that is only copied is not generated: an expression without a pair of
/// parentheses right behind each other generates no UUID.
pub proof fn law_copied_value_is_not_generated(expression: Seq<char>)
    requires
        forall|i: int| 0 <= i < expression.len() ==> #[trigger] expression[i] <= '\u{7f}',
        forall|i: int|
            0 <= i < expression.len() - 1 && #[trigger] expression[i] == '(' ==> expression[i + 1]
                != ')',
    ensures
        !context::generates_uuid(expression),
{
    reveal_strlit("uuidv7()");
    reveal_strlit("uuidv4()");
    reveal_strlit("uuid_generate_v4()");
    reveal_strlit("gen_random_uuid()");
    let lower = text::lowercased(expression);
    law_uuid_generation_is_a_call(expression);
    wording::lemma_ascii(expression);
    if context::generates_uuid(expression) {
        let i = choose|i: int| #[trigger] generator_called_at(lower, i);
        let n: int = if wording::reads_at(lower, i, "uuid_generate_v4()"@) {
            18
        } else if wording::reads_at(lower, i, "gen_random_uuid()"@) {
            17
        } else {
            8
        };
        let word = if wording::reads_at(lower, i, "uuid_generate_v4()"@) {
            "uuid_generate_v4()"@
        } else if wording::reads_at(lower, i, "gen_random_uuid()"@) {
            "gen_random_uuid()"@
        } else if wording::reads_at(lower, i, "uuidv7()"@) {
            "uuidv7()"@
        } else {
            "uuidv4()"@
        };
        assert(lower[i + (n - 2)] == word[n - 2]);
        assert(lower[i + (n - 1)] == word[n - 1]);
        assert(expression[i + n - 2] == '(');
        assert(expression[i + n - 1] == ')');
    }
}

/// A call of a generating function is found wherever it stands in an expression,
/// and in whatever case.
pub proof fn law_uuid_call_is_found(before: Seq<char>, call: Seq<char>, after: Seq<char>)
    requires
        forall|i: int|
            0 <= i < (before + call + after).len() ==> #[trigger] (before + call + after)[i]
                <= '\u{7f}',
        text::same_ignoring_case(call, "uuidv7()"@) || text::same_ignoring_case(call, "uuidv4()"@)
            || text::same_ignoring_case(call, "uuid_generate_v4()"@) || text::same_ignoring_case(
            call,
            "gen_random_uuid()"@,
        ),
    ensures
        context::generates_uuid(before + call + after),
{
    reveal_strlit("uuidv7()");
    reveal_strlit("uuidv4()");
    reveal_strlit("uuid_generate_v4()");
    reveal_strlit("gen_random_uuid()");
    let expression = before + call + after;
    let lower = text::lowercased(expression);
    wording::lemma_ascii(expression);
    law_uuid_generation_is_a_call(expression);
    let word = if text::same_ignoring_case(call, "uuidv7()"@) {
        "uuidv7()"@
    } else if text::same_ignoring_case(call, "uuidv4()"@) {
        "uuidv4()"@
    } else if text::same_ignoring_case(call, "uuid_generate_v4()"@) {
        "uuid_generate_v4()"@
    } else {
        "gen_random_uuid()"@
    };
    let at = before.len() as int;
    assert forall|k: int| 0 <= k < word.len() implies lower[at + k] == #[trigger] word[k] by {
        assert(text::ascii_lower(call[k]) == text::ascii_lower(word[k]));
        assert(expression[at + k] == call[k]);
        assert(text::ascii_lower(word[k]) == word[k]);
    }
    assert(wording::reads_at(lower, at, word));
    assert(generator_called_at(lower, at));
}

}
