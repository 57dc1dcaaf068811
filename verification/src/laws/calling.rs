//! Laws of calls: how the results of calls relate to their arguments and to each
//! other.

use sqlparser::ast::{BeginEndStatements, Statement};
use vstd::prelude::*;

use crate::body;
use crate::body::{BlockWord, MissingDelimiter};
use crate::context;
use crate::context::{
    BindingView,
    ContextView,
    PlPgSqlContext,
    UuidFirstUse,
    VariableBinding,
    VariableDeclaration,
};
use crate::error;
use crate::error::{Error, ErrorView};
use crate::laws::context as context_laws;
use crate::names;
use crate::offsets;
use crate::preprocessor;
use crate::preprocessor::assignment;
use crate::preprocessor::declaration;
use crate::preprocessor::raise;
use crate::preprocessor::select_into;
use crate::preprocessor::top_level;
use crate::preprocessor::PlPgSqlPreprocessor;
use crate::scanner;
use crate::scanner::{Region, Scanner};
use crate::text;

verus! {

// ---------------------------------------------------------------------------
// The context
// ---------------------------------------------------------------------------

/// A new context knows nothing.
pub proof fn law_new_context_is_empty(
    context: PlPgSqlContext,
    name: &str,
    binding: Option<&VariableBinding>,
    declared: bool,
    condition: Option<String>,
)
    requires
        call_ensures(PlPgSqlContext::new, (), context),
        call_ensures(PlPgSqlContext::get_binding, (&context, name), binding),
        call_ensures(PlPgSqlContext::is_declared_variable, (&context, name), declared),
        call_ensures(PlPgSqlContext::current_condition, (&context,), condition),
    ensures
        context@ == ContextView::empty(),
        binding is None,
        !declared,
        condition is None,
{
}

/// A declaration that was added is found under its name, and every other name is
/// declared or not as before.
pub proof fn law_added_declaration_is_found(
    context: &mut PlPgSqlContext,
    declaration: VariableDeclaration,
    after: &PlPgSqlContext,
    name: &str,
    found: Option<&VariableDeclaration>,
    answer: bool,
)
    requires
        call_ensures(PlPgSqlContext::add_declaration, (context, declaration), ()),
        after@ == final(context)@,
        call_ensures(PlPgSqlContext::get_declaration, (after, name), found),
        call_ensures(PlPgSqlContext::is_declared_variable, (after, name), answer),
    ensures
        context_laws::same_but_for_declarations(old(context)@, final(context)@),
        answer <==> found is Some,
        name@ == declaration.name@ ==> found is Some && found->0@ == declaration@,
        name@ != declaration.name@ ==> (answer <==> old(context)@.declarations.contains_key(name@)),
        name@ != declaration.name@ && answer ==> found->0@ == old(context)@.declarations[name@],
{
}

/// A binding of the IF block that was added is what a lookup of its name finds.
pub proof fn law_added_binding_is_found(
    context: &mut PlPgSqlContext,
    binding: VariableBinding,
    after: &PlPgSqlContext,
    name: &str,
    found: Option<&VariableBinding>,
)
    requires
        call_ensures(PlPgSqlContext::add_binding, (context, binding), ()),
        after@ == final(context)@,
        call_ensures(PlPgSqlContext::get_binding, (after, name), found),
    ensures
        context_laws::same_but_for_bindings(old(context)@, final(context)@),
        final(context)@.persistent_bindings == old(context)@.persistent_bindings,
        name@ == binding.name@ ==> found is Some && found->0@ == binding@,
        name@ != binding.name@ ==> (found is Some <==> old(context)@.binding(name@) is Some),
        name@ != binding.name@ && found is Some ==> old(context)@.binding(name@) == Some(
            found->0@,
        ),
{
}

/// A persistent binding that was added is what a lookup of its name finds, unless
/// the IF block binds the name.
pub proof fn law_added_persistent_binding_is_found(
    context: &mut PlPgSqlContext,
    binding: VariableBinding,
    after: &PlPgSqlContext,
    name: &str,
    found: Option<&VariableBinding>,
)
    requires
        call_ensures(PlPgSqlContext::add_persistent_binding, (context, binding), ()),
        after@ == final(context)@,
        call_ensures(PlPgSqlContext::get_binding, (after, name), found),
    ensures
        context_laws::same_but_for_bindings(old(context)@, final(context)@),
        final(context)@.scoped_bindings == old(context)@.scoped_bindings,
        name@ == binding.name@ && !old(context)@.scoped_bindings.contains_key(name@) ==> found is Some
            && found->0@ == binding@,
        old(context)@.scoped_bindings.contains_key(name@) ==> found is Some && found->0@
            == old(context)@.scoped_bindings[name@],
{
}

/// Clearing the bindings of an IF block leaves those that outlive it, and nothing
/// else of the block.
pub proof fn law_cleared_scope_keeps_persistent_bindings(
    context: &mut PlPgSqlContext,
    after: &PlPgSqlContext,
    name: &str,
    found: Option<&VariableBinding>,
)
    requires
        call_ensures(PlPgSqlContext::clear_scoped_bindings, (context,), ()),
        after@ == final(context)@,
        call_ensures(PlPgSqlContext::get_binding, (after, name), found),
    ensures
        context_laws::same_but_for_bindings(old(context)@, final(context)@),
        found is Some <==> old(context)@.persistent_bindings.contains_key(name@),
        found is Some ==> found->0@ == old(context)@.persistent_bindings[name@],
{
}

/// All bindings are listed: every one of the IF block and every one that outlives
/// it, and no others.
pub proof fn law_all_bindings_are_listed(
    context: &PlPgSqlContext,
    all: Vec<&VariableBinding>,
    name: Seq<char>,
    i: int,
)
    requires
        call_ensures(PlPgSqlContext::bindings, (context,), all),
    ensures
        context@.scoped_bindings.contains_key(name) ==> exists|k: int|
            0 <= k < all@.len() && (#[trigger] all@[k])@ == context@.scoped_bindings[name],
        context@.persistent_bindings.contains_key(name) ==> exists|k: int|
            0 <= k < all@.len() && (#[trigger] all@[k])@ == context@.persistent_bindings[name],
        0 <= i < all@.len() ==> exists|key: Seq<char>| #[trigger]
            is_bound(context@, key, all@[i]@),
{
    let (scoped, persistent) = choose|
        scoped: Seq<(Seq<char>, BindingView)>,
        persistent: Seq<(Seq<char>, BindingView)>,
    |
        {
            &&& #[trigger] names::lists(scoped, context@.scoped_bindings)
            &&& #[trigger] names::lists(persistent, context@.persistent_bindings)
            &&& all@.len() == scoped.len() + persistent.len()
            &&& forall|i: int| 0 <= i < scoped.len() ==> (#[trigger] all@[i])@ == scoped[i].1
            &&& forall|i: int|
                0 <= i < persistent.len() ==> (#[trigger] all@[scoped.len() + i])@
                    == persistent[i].1
        };
    if context@.scoped_bindings.contains_key(name) {
        let k = choose|k: int| 0 <= k < scoped.len() && (#[trigger] scoped[k]).0 == name;
        assert(context@.scoped_bindings.contains_key(scoped[k].0));
        assert(all@[k]@ == scoped[k].1);
    }
    if context@.persistent_bindings.contains_key(name) {
        let k = choose|k: int| 0 <= k < persistent.len() && (#[trigger] persistent[k]).0 == name;
        assert(context@.persistent_bindings.contains_key(persistent[k].0));
        assert(all@[scoped.len() + k]@ == persistent[k].1);
    }
    if 0 <= i < scoped.len() {
        assert(context@.scoped_bindings.contains_key(scoped[i].0));
        assert(all@[i]@ == scoped[i].1);
        assert(is_bound(context@, scoped[i].0, all@[i]@));
    } else if scoped.len() <= i < all@.len() {
        let k = i - scoped.len();
        assert(all@[scoped.len() + k]@ == persistent[k].1);
        let key = persistent[k].0;
        assert(context@.persistent_bindings.contains_key(key));
        assert(is_bound(context@, key, all@[i]@));
    }
}

/// `all` are bindings of `map` from `from` on and before `to`, under `keys`, in the
/// order of the names.
pub open spec fn is_ordered_group(
    all: Seq<BindingView>,
    keys: Seq<Seq<char>>,
    map: Map<Seq<char>, BindingView>,
    from: int,
    to: int,
) -> bool {
    &&& forall|i: int|
        from <= i < to ==> map.contains_key(#[trigger] keys[i]) && map[keys[i]] == all[i]
    &&& forall|i: int, j: int|
        from <= i < j < to ==> names::precedes(#[trigger] keys[i], #[trigger] keys[j])
}

/// The bindings of the IF block come first, then those that outlive it, each group
/// in the order of the names.
pub proof fn law_bindings_are_listed_in_order(
    context: &PlPgSqlContext,
    all: Vec<&VariableBinding>,
) -> (listed: (Seq<Seq<char>>, int))
    requires
        call_ensures(PlPgSqlContext::bindings, (context,), all),
    ensures
        listed.0.len() == all@.len(),
        0 <= listed.1 <= all@.len(),
        is_ordered_group(
            Seq::new(all@.len(), |i: int| all@[i]@),
            listed.0,
            context@.scoped_bindings,
            0,
            listed.1,
        ),
        is_ordered_group(
            Seq::new(all@.len(), |i: int| all@[i]@),
            listed.0,
            context@.persistent_bindings,
            listed.1,
            all@.len() as int,
        ),
{
    let (scoped, persistent) = choose|
        scoped: Seq<(Seq<char>, BindingView)>,
        persistent: Seq<(Seq<char>, BindingView)>,
    |
        {
            &&& #[trigger] names::lists(scoped, context@.scoped_bindings)
            &&& #[trigger] names::lists(persistent, context@.persistent_bindings)
            &&& all@.len() == scoped.len() + persistent.len()
            &&& forall|i: int| 0 <= i < scoped.len() ==> (#[trigger] all@[i])@ == scoped[i].1
            &&& forall|i: int|
                0 <= i < persistent.len() ==> (#[trigger] all@[scoped.len() + i])@
                    == persistent[i].1
        };
    let n = scoped.len() as int;
    let views = Seq::new(all@.len(), |i: int| all@[i]@);
    let keys = Seq::new(
        all@.len(),
        |i: int|
            if i < n {
                scoped[i].0
            } else {
                persistent[i - n].0
            },
    );
    assert forall|i: int| 0 <= i < n implies context@.scoped_bindings.contains_key(
        #[trigger] keys[i],
    ) && context@.scoped_bindings[keys[i]] == views[i] by {
        assert(context@.scoped_bindings.contains_key(scoped[i].0));
        assert(all@[i]@ == scoped[i].1);
    }
    assert forall|i: int| n <= i < all@.len() implies context@.persistent_bindings.contains_key(
        #[trigger] keys[i],
    ) && context@.persistent_bindings[keys[i]] == views[i] by {
        assert(context@.persistent_bindings.contains_key(persistent[i - n].0));
        assert(all@[scoped.len() + (i - n)]@ == persistent[i - n].1);
    }
    (keys, n)
}

/// `context` binds `name` to what `binding` says, in the IF block or beyond it.
pub open spec fn is_bound(context: ContextView, name: Seq<char>, binding: BindingView) -> bool {
    ||| context.scoped_bindings.contains_key(name) && context.scoped_bindings[name] == binding
    ||| context.persistent_bindings.contains_key(name) && context.persistent_bindings[name]
        == binding
}

/// A condition that was pushed is what is popped, and popping it brings back what
/// was there before.
pub proof fn law_pushed_condition_is_popped(
    context: &mut PlPgSqlContext,
    condition: String,
    inside: &mut PlPgSqlContext,
    popped: Option<String>,
)
    requires
        call_ensures(PlPgSqlContext::push_condition, (context, condition), ()),
        old(inside)@ == final(context)@,
        call_ensures(PlPgSqlContext::pop_condition, (inside,), popped),
    ensures
        popped is Some && popped->0@ == condition@,
        final(inside)@ == old(context)@,
{
    context_laws::law_leaving_undoes_entering(old(context)@, condition@);
}

/// Nothing is popped where no condition is, and the context stays as it is.
pub proof fn law_nothing_to_pop(context: &mut PlPgSqlContext, popped: Option<String>)
    requires
        old(context)@.conditions.len() == 0,
        call_ensures(PlPgSqlContext::pop_condition, (context,), popped),
    ensures
        popped is None,
        final(context)@ == old(context)@,
{
}

/// The current condition is that of all IF blocks around: a pushed condition is
/// added to it in parentheses.
pub proof fn law_conditions_add_up(
    context: &mut PlPgSqlContext,
    condition: String,
    before: &PlPgSqlContext,
    outer: Option<String>,
    after: &PlPgSqlContext,
    inner: Option<String>,
)
    requires
        before@ == old(context)@,
        call_ensures(PlPgSqlContext::current_condition, (before,), outer),
        call_ensures(PlPgSqlContext::push_condition, (context, condition), ()),
        after@ == final(context)@,
        call_ensures(PlPgSqlContext::current_condition, (after,), inner),
    ensures
        outer is None <==> old(context)@.conditions.len() == 0,
        inner is Some,
        inner->0@ == (match outer {
            Some(text) => text@ + " AND ("@ + condition@ + ")"@,
            None => "("@ + condition@ + ")"@,
        }),
{
    reveal_strlit(" AND (");
    reveal_strlit(" AND ");
    reveal_strlit("(");
    context_laws::law_conditions_are_joined_by_and(old(context)@, condition@);
    assert(" AND ("@ =~= " AND "@ + "("@);
    if let Some(text) = outer {
        assert(text@ + " AND "@ + ("("@ + condition@ + ")"@) =~= text@ + " AND ("@ + condition@
            + ")"@);
    }
}

/// A variable generates a UUID when what it is bound to calls one of the functions
/// that do, and one that is not bound generates none.
pub proof fn law_bound_call_generates_a_uuid(
    context: &PlPgSqlContext,
    name: &str,
    bound: Option<&VariableBinding>,
    answer: bool,
)
    requires
        call_ensures(PlPgSqlContext::get_binding, (context, name), bound),
        call_ensures(PlPgSqlContext::is_uuid_generation, (context, name), answer),
    ensures
        bound is None ==> !answer,
        bound is Some ==> (answer <==> exists|i: int| #[trigger]
            context_laws::generator_called_at(text::lowercased(bound->0.expression@), i)),
{
    if let Some(binding) = bound {
        context_laws::law_uuid_generation_is_a_call(binding.expression@);
    }
}

/// A first use that was recorded is found under its variable until the uses are
/// cleared.
pub proof fn law_recorded_first_use_is_found(
    context: &mut PlPgSqlContext,
    variable: &str,
    table: &str,
    column: &str,
    after: &PlPgSqlContext,
    other: &str,
    found: Option<&UuidFirstUse>,
)
    requires
        call_ensures(
            PlPgSqlContext::record_uuid_first_use,
            (context, variable, table, column),
            (),
        ),
        after@ == final(context)@,
        call_ensures(PlPgSqlContext::get_uuid_first_use, (after, other), found),
    ensures
        context_laws::same_but_for_first_uses(old(context)@, final(context)@),
        other@ == variable@ ==> found is Some && found->0.table_name@ == table@
            && found->0.column_name@ == column@,
        other@ != variable@ ==> (found is Some <==> old(context)@.uuid_first_use.contains_key(
            other@,
        )),
        other@ != variable@ && found is Some ==> found->0@ == old(context)@.uuid_first_use[other@],
{
}

/// No first use is found once they are cleared.
pub proof fn law_cleared_first_uses_are_gone(
    context: &mut PlPgSqlContext,
    after: &PlPgSqlContext,
    variable: &str,
    found: Option<&UuidFirstUse>,
)
    requires
        call_ensures(PlPgSqlContext::clear_uuid_first_use, (context,), ()),
        after@ == final(context)@,
        call_ensures(PlPgSqlContext::get_uuid_first_use, (after, variable), found),
    ensures
        found is None,
        context_laws::same_but_for_first_uses(old(context)@, final(context)@),
{
}

/// Seeding binds a declared variable without a binding to its default, and changes
/// no binding that is there.
pub proof fn law_seeded_default_is_found(
    context: &mut PlPgSqlContext,
    after: &PlPgSqlContext,
    name: &str,
    found: Option<&VariableBinding>,
)
    requires
        call_ensures(PlPgSqlContext::seed_default_bindings, (context,), ()),
        after@ == final(context)@,
        call_ensures(PlPgSqlContext::get_binding, (after, name), found),
    ensures
        context_laws::same_but_for_bindings(old(context)@, final(context)@),
        old(context)@.binding(name@) is Some ==> found is Some && found->0@ == old(
            context,
        )@.binding(name@)->0,
        old(context)@.binding(name@) is None ==> (found is Some <==> old(
            context,
        )@.declarations.contains_key(name@) && old(context)@.declarations[name@].default_value is Some),
        old(context)@.binding(name@) is None && found is Some ==> found->0.name@ == name@
            && found->0.expression@ == old(context)@.declarations[name@].default_value->0,
{
    context_laws::law_seeding_defaults(old(context)@, name@);
    if old(context)@.binding(name@) is None {
        context_laws::law_defaults_are_those_declared(old(context)@, name@);
    }
}

/// A trigger with one event has that event, and only one with more has several.
pub proof fn law_one_event_or_several(
    context: &PlPgSqlContext,
    several: bool,
    single: Option<&str>,
)
    requires
        call_ensures(PlPgSqlContext::has_multiple_trigger_events, (context,), several),
        call_ensures(PlPgSqlContext::single_trigger_event, (context,), single),
    ensures
        several <==> context@.trigger_events.len() >= 2,
        single is Some <==> context@.trigger_events.len() == 1,
        single is Some ==> context@.trigger_events == seq![single->0@],
        !(several && single is Some),
{
    if let Some(event) = single {
        assert(context@.trigger_events =~= seq![event@]);
    }
}

/// A copy of a context knows what the context knows, and a default one nothing.
pub proof fn law_copied_context_is_the_same(
    context: &PlPgSqlContext,
    copy: PlPgSqlContext,
    fresh: PlPgSqlContext,
)
    requires
        call_ensures(PlPgSqlContext::clone, (context,), copy),
        call_ensures(PlPgSqlContext::default, (), fresh),
    ensures
        copy@ == context@,
        fresh@ == ContextView::empty(),
{
}

/// The views of what a context holds carry every field under its own name.
pub proof fn law_views_carry_every_field(
    declaration: VariableDeclaration,
    binding: VariableBinding,
    first_use: UuidFirstUse,
    value: String,
)
    ensures
        declaration@.name == declaration.name@,
        declaration@.data_type == declaration.data_type@,
        declaration.default_value == Some(value) ==> declaration@.default_value == Some(value@),
        declaration.default_value is None ==> declaration@.default_value is None,
        binding@.name == binding.name@,
        binding@.expression == binding.expression@,
        first_use@.table_name == first_use.table_name@,
        first_use@.column_name == first_use.column_name@,
{
}

/// The views of errors carry every field under its own name.
pub proof fn law_error_views_carry_every_field(name: String, other: String)
    ensures
        (Error::QualifiedAssignment { qualifier: other, name })@ == (
        ErrorView::QualifiedAssignment { qualifier: other@, name: name@ }),
        (Error::UnsupportedRaiseUsing { clause: other })@ == (ErrorView::UnsupportedRaiseUsing {
            clause: other@,
        }),
        (Error::ExceptionHandler { name })@ == (ErrorView::ExceptionHandler { name: name@ }),
        (Error::UnterminatedDollarQuote { name })@ == (ErrorView::UnterminatedDollarQuote {
            name: name@,
        }),
        (Error::MissingBeginBlock { name, body: other })@ == (ErrorView::MissingBeginBlock {
            name: name@,
            body: other@,
        }),
        (Error::MissingEndBlock { name, body: other })@ == (ErrorView::MissingEndBlock {
            name: name@,
            body: other@,
        }),
{
}

// ---------------------------------------------------------------------------
// The scanner
// ---------------------------------------------------------------------------

/// A scanner answers for the text it was made of, byte by byte.
pub proof fn law_scanner_answers_for_its_text(
    body: &str,
    over: Scanner,
    map: Vec<Region>,
    open: bool,
    requoted: String,
)
    requires
        call_ensures(Scanner::new, (body,), over),
        call_ensures(Scanner::regions, (&over,), map),
        call_ensures(Scanner::has_unterminated_dollar_quote, (&over,), open),
        call_ensures(Scanner::requote_dollar_literals, (&over,), requoted),
    ensures
        map@.len() == vstd::utf8::encode_utf8(body@).len(),
        forall|k: int|
            0 <= k < map@.len() ==> #[trigger] map@[k] == scanner::regions(
                body@,
            )[offsets::char_containing(body@, k)],
        open <==> scanner::has_open_dollar_literal(body@),
        requoted@ == scanner::requoted(body@),
{
}

/// Searches give byte offsets: that of the first place where what is searched for
/// stands in live code.
pub proof fn law_searches_give_byte_offsets(
    over: &Scanner,
    word: &str,
    from: usize,
    needle: u8,
    first: Option<usize>,
    sequence: Option<usize>,
    keyword: Option<usize>,
    next: Option<&str>,
)
    requires
        call_ensures(Scanner::find_in_code, (over, needle), first),
        call_ensures(Scanner::find_str_in_code, (over, word), sequence),
        call_ensures(Scanner::find_keyword, (over, word, from), keyword),
        call_ensures(Scanner::next_word_in_code, (over, from), next),
    ensures
        text::as_int(first) == scanner::find_live_byte(over@, needle),
        text::as_int(sequence) == offset_of(over@, scanner::find_live_seq(over@, word@)),
        text::as_int(keyword) == offset_of(
            over@,
            scanner::find_keyword_from(
                over@,
                word@,
                offsets::char_at_or_after(over@, from as int),
            ),
        ),
        next is Some <==> scanner::next_word_from(
            over@,
            offsets::char_containing(over@, from as int),
        ) is Some,
        next is Some ==> scanner::next_word_from(
            over@,
            offsets::char_containing(over@, from as int),
        ) == Some(next->0@),
{
    if let Some(i) = scanner::find_live_seq(over@, word@) {
        let p = scanner::live_occurrence(over@, word@);
        text::lemma_first_from(p, 0, over@.len() as int);
        offsets::lemma_offset_increases(over@, 0, i);
    }
    let low = offsets::char_at_or_after(over@, from as int);
    let q = scanner::keyword_positions(over@, word@);
    text::lemma_first_from(q, low, over@.len() as int);
    if let Some(i) = scanner::find_keyword_from(over@, word@, low) {
        offsets::lemma_offset_increases(over@, 0, i);
    }
}

/// The byte offset of a place that may be absent.
pub open spec fn offset_of(s: Seq<char>, place: Option<int>) -> Option<int> {
    match place {
        Some(i) => Some(offsets::byte_offset(s, i)),
        None => None,
    }
}

/// In a text of ASCII every character is one byte, so places and offsets are the
/// same.
pub proof fn law_ascii_offsets_are_places(s: Seq<char>, i: int, from: int)
    requires
        forall|k: int| 0 <= k < s.len() ==> #[trigger] s[k] <= '\u{7f}',
        0 <= i <= s.len(),
        0 <= from,
    ensures
        offsets::byte_offset(s, i) == i,
        offsets::char_at_or_after(s, from) == (if from < s.len() {
            from
        } else {
            s.len() as int
        }),
        offsets::char_containing(s, from) == (if from < s.len() {
            from
        } else {
            s.len() as int
        }),
{
    let len = s.len() as int;
    assert forall|k: int| 0 <= k <= len implies #[trigger] offsets::byte_offset(s, k) == k by {
        lemma_ascii_offset(s, k);
    }
    let p = offsets::starts_at_or_after(s, from);
    let q = offsets::ends_after(s, from);
    assert forall|k: int| 0 <= k < len implies #[trigger] p(k) == (k >= from) by {
        assert(offsets::byte_offset(s, k) == k);
    }
    assert forall|k: int| 0 <= k < len implies #[trigger] q(k) == (k >= from) by {
        assert(offsets::byte_offset(s, k + 1) == k + 1);
    }
    if from < len {
        text::lemma_first_is(p, 0, len, from);
        text::lemma_first_is(q, 0, len, from);
    } else {
        text::lemma_no_first(p, 0, len);
        text::lemma_no_first(q, 0, len);
    }
}

/// A byte offset is rounded up to the start of a character where a search starts,
/// and taken for the character that it lies in where a word is read.
pub proof fn law_offsets_between_characters(s: Seq<char>, i: int, from: int)
    requires
        0 <= i < s.len(),
    ensures
        offsets::byte_offset(s, i) < from <= offsets::byte_offset(s, i + 1)
            ==> offsets::char_at_or_after(s, from) == i + 1,
        from <= 0 ==> offsets::char_at_or_after(s, from) == 0,
        offsets::byte_offset(s, i) <= from < offsets::byte_offset(s, i + 1)
            ==> offsets::char_containing(s, from) == i,
{
    let len = s.len() as int;
    let p = offsets::starts_at_or_after(s, from);
    offsets::lemma_offset_ends(s);
    if offsets::byte_offset(s, i) <= from < offsets::byte_offset(s, i + 1) {
        scanner::lemma_char_containing(s, i, from);
    }
    if offsets::byte_offset(s, i) < from <= offsets::byte_offset(s, i + 1) {
        assert forall|j: int| 0 <= j < i + 1 implies !#[trigger] p(j) by {
            offsets::lemma_offset_increases(s, j, i);
        }
        if i + 1 < len {
            text::lemma_first_is(p, 0, len, i + 1);
        } else {
            text::lemma_no_first(p, 0, len);
        }
    }
    if from <= 0 {
        assert(p(0));
        text::lemma_first_is(p, 0, len, 0);
    }
}

/// The offset of a character behind ASCII.
proof fn lemma_ascii_offset(s: Seq<char>, i: int)
    requires
        forall|k: int| 0 <= k < s.len() ==> #[trigger] s[k] <= '\u{7f}',
        0 <= i <= s.len(),
    ensures
        offsets::byte_offset(s, i) == i,
    decreases i,
{
    if i == 0 {
        offsets::lemma_offset_ends(s);
    } else {
        lemma_ascii_offset(s, i - 1);
        offsets::lemma_offset_step(s, i - 1);
        offsets::lemma_width(s[i - 1]);
    }
}

/// Splitting on a byte of ASCII gives the pieces between the separators of live
/// code, in order.
pub proof fn law_split_gives_the_pieces(over: &Scanner, separator: u8, pieces: Vec<&str>)
    requires
        separator < 128,
        call_ensures(Scanner::split_in_code, (over, separator), pieces),
    ensures
        pieces@.len() == scanner::live_pieces(over@, separator as char, 0).len(),
        forall|i: int|
            0 <= i < pieces@.len() ==> (#[trigger] pieces@[i])@ == scanner::live_pieces(
                over@,
                separator as char,
                0,
            )[i],
{
}

// ---------------------------------------------------------------------------
// The preprocessor
// ---------------------------------------------------------------------------

/// The rewrites of a text give the texts that the laws of each speak of.
pub proof fn law_rewrites_give_texts(
    body: &str,
    over: &PlPgSqlContext,
    branched: String,
    assigned: Result<String, Error>,
    selected: String,
    raised: Result<String, Error>,
    handled: bool,
)
    requires
        call_ensures(PlPgSqlPreprocessor::transform_elsif, (body,), branched),
        call_ensures(PlPgSqlPreprocessor::transform_assignments, (body, over), assigned),
        call_ensures(PlPgSqlPreprocessor::transform_select_into, (body, over), selected),
        call_ensures(PlPgSqlPreprocessor::transform_raise_statements, (body,), raised),
        call_ensures(PlPgSqlPreprocessor::has_exception_handler, (body,), handled),
    ensures
        branched@ == preprocessor::elsif_rewritten(body@, 0),
        assigned is Ok ==> assignment::assignments_rewritten(body@) == Ok::<_, ErrorView>(
            assigned->Ok_0@,
        ),
        assigned is Err ==> assignment::assignments_rewritten(body@) == Err::<Seq<char>, _>(
            assigned->Err_0@,
        ),
        selected@ == select_into::select_into_rewritten(body@, 0),
        raised is Ok ==> raise::raises_rewritten(body@, 0) == Ok::<_, ErrorView>(raised->Ok_0@),
        raised is Err ==> raise::raises_rewritten(body@, 0) == Err::<Seq<char>, _>(
            raised->Err_0@,
        ),
        handled <==> preprocessor::opens_exception_handler(body@),
{
}

/// Preprocessing gives the rewritten block and what the body declares.
pub proof fn law_preprocessing_gives_block_and_context(
    body: &str,
    result: Result<(String, PlPgSqlContext), Error>,
    parts: (Option<String>, String),
)
    requires
        call_ensures(PlPgSqlPreprocessor::preprocess, (body,), result),
        call_ensures(PlPgSqlPreprocessor::split_declare_and_body, (body,), parts),
    ensures
        result is Ok ==> preprocessor::preprocessed(body@) == Ok::<_, ErrorView>(
            result->Ok_0.0@,
        ) && result->Ok_0.1@ == declaration::declared_context(body@),
        result is Err ==> preprocessor::preprocessed(body@) == Err::<Seq<char>, _>(
            result->Err_0@,
        ),
        parts.1@ == declaration::sections(body@).1,
        context::optional_text(parts.0) == declaration::sections(body@).0,
{
}

/// A declaration and an assignment are read as the laws of each say.
pub proof fn law_lines_are_read(
    line: &str,
    over: &PlPgSqlContext,
    declared: Option<VariableDeclaration>,
    bound: Option<VariableBinding>,
)
    requires
        call_ensures(PlPgSqlPreprocessor::parse_single_declaration, (line,), declared),
        call_ensures(PlPgSqlPreprocessor::parse_assignment_line, (line, over), bound),
    ensures
        declared is Some <==> declaration::declaration_of(line@) is Some,
        declared is Some ==> declaration::declaration_of(line@) == Some(declared->0@),
        bound is Some <==> assignment::assignment_of(line@) is Some,
        bound is Some ==> assignment::assignment_of(line@) == Some(bound->0@),
{
}

/// The declarations of a section are added to what a context knows, the last of
/// each name counting.
pub proof fn law_section_is_added_to_the_context(section: &str, context: &mut PlPgSqlContext)
    requires
        call_ensures(PlPgSqlPreprocessor::parse_declarations, (section, context), ()),
    ensures
        final(context)@ == declaration::declared(
            old(context)@,
            scanner::live_pieces(section@, ';', 0),
        ),
{
}

/// Lists are split at top-level commas, and keywords are looked for at the top
/// level.
pub proof fn law_top_level_is_read(
    input: &str,
    parts: Vec<String>,
    keyword: &str,
    start: usize,
    found: Option<usize>,
)
    requires
        call_ensures(PlPgSqlPreprocessor::split_top_level_csv, (input,), parts),
        call_ensures(
            PlPgSqlPreprocessor::find_top_level_keyword,
            (input, keyword, start),
            found,
        ),
    ensures
        parts@.len() == top_level::list_items(input@, 0).len(),
        forall|i: int|
            0 <= i < parts@.len() ==> (#[trigger] parts@[i])@ == top_level::list_items(
                input@,
                0,
            )[i],
        text::as_int(found) == offset_of(
            input@,
            top_level::top_level_keyword(
                input@,
                keyword@,
                offsets::char_at_or_after(input@, start as int),
            ),
        ),
{
    let items = top_level::list_items(input@, 0);
    let views = parts@.map_values(|part: String| part@);
    assert forall|i: int| 0 <= i < parts@.len() implies (#[trigger] parts@[i])@ == items[i] by {
        assert(views[i] == parts@[i]@);
    }
    let low = offsets::char_at_or_after(input@, start as int);
    let q = top_level::top_level_keywords(input@, keyword@);
    text::lemma_first_from(q, low, input@.len() as int);
    if let Some(i) = top_level::top_level_keyword(input@, keyword@, low) {
        offsets::lemma_offset_increases(input@, 0, i);
    }
}

// ---------------------------------------------------------------------------
// Bodies
// ---------------------------------------------------------------------------

/// A body is parsed or refused as the laws of parsing say, and what is parsed
/// stands between `BEGIN` and `END`.
pub proof fn law_body_is_parsed(
    name: &str,
    raw_body: &str,
    result: Result<(BeginEndStatements, PlPgSqlContext), Error>,
)
    requires
        call_ensures(body::parse_body, (name, raw_body), result),
    ensures
        result is Ok ==> body::parsed(name@, raw_body@) == Ok::<_, ErrorView>(
            (body::block_statements(result->Ok_0.0), result->Ok_0.1@),
        ),
        result is Ok ==> body::block_delimiters(result->Ok_0.0) == ("BEGIN"@, "END"@),
        result is Err ==> body::parsed(name@, raw_body@) == Err::<
            (Seq<Statement>, ContextView),
            _,
        >(result->Err_0@),
{
}

/// The block is found between the first BEGIN and the last END.
pub proof fn law_block_is_found_in_words(
    words: &[BlockWord],
    bounds: Result<(usize, usize), MissingDelimiter>,
)
    requires
        call_ensures(body::find_block, (words,), bounds),
    ensures
        bounds is Ok ==> body::block_bounds(words@) == Ok::<_, MissingDelimiter>(
            (bounds->Ok_0.0 as int, bounds->Ok_0.1 as int),
        ),
        bounds is Err ==> body::block_bounds(words@) == Err::<(int, int), _>(bounds->Err_0),
{
}

/// Only `NEW` and `OLD`, spelled exactly so, are the row of a trigger.
pub proof fn law_row_is_new_or_old(returned: &Option<String>, answer: bool)
    requires
        call_ensures(body::returns_row, (returned,), answer),
    ensures
        answer <==> (*returned is Some && ((*returned)->0@ == "NEW"@ || (*returned)->0@ == "OLD"@)),
{
}

/// The message of an error is the one that its view has.
pub proof fn law_message_is_that_of_the_view(error: &Error, message: String)
    requires
        call_ensures(Error::message, (error,), message),
    ensures
        message@ == error::message_of(error@),
{
}

}
