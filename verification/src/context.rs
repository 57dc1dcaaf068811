//! Tracks PL/pgSQL variable declarations, bindings, and translation scope.

use vstd::prelude::*;

use crate::names;
use crate::names::{Filed, NameMap};
use crate::text;

verus! {

// ---------------------------------------------------------------------------
// What a context holds
// ---------------------------------------------------------------------------

/// Represents a variable declaration from a PL/pgSQL DECLARE block.
#[derive(Debug)]
pub struct VariableDeclaration {
    /// The variable name (e.g., "`v_new_id`")
    pub name: String,
    /// The declared type as a string (e.g., "UUID", "SMALLINT")
    pub data_type: String,
    /// Default value expression, if any
    pub default_value: Option<String>,
}

/// Represents a variable binding (assignment) within a block.
#[derive(Debug)]
pub struct VariableBinding {
    /// The variable name
    pub name: String,
    /// The expression string that computes the value
    pub expression: String,
}

/// Tracks the first INSERT that used a UUID variable, so later ones can reach
/// it with `last_insert_rowid()`.
#[derive(Debug)]
pub struct UuidFirstUse {
    /// The table name where the UUID was first inserted
    pub table_name: String,
    /// The column name containing the UUID
    pub column_name: String,
}

/// A [`VariableDeclaration`] with its texts as character sequences.
#[verifier::ext_equal]
pub struct DeclarationView {
    pub name: Seq<char>,
    pub data_type: Seq<char>,
    pub default_value: Option<Seq<char>>,
}

/// A [`VariableBinding`] with its texts as character sequences.
#[verifier::ext_equal]
pub struct BindingView {
    pub name: Seq<char>,
    pub expression: Seq<char>,
}

/// A [`UuidFirstUse`] with its texts as character sequences.
#[verifier::ext_equal]
pub struct FirstUseView {
    pub table_name: Seq<char>,
    pub column_name: Seq<char>,
}

/// The characters of a text that may be absent.
pub open spec fn optional_text(text: Option<String>) -> Option<Seq<char>> {
    match text {
        Some(present) => Some(present@),
        None => None,
    }
}

/// The characters of each of several texts.
pub open spec fn texts(list: Seq<String>) -> Seq<Seq<char>> {
    Seq::new(list.len(), |i: int| list[i]@)
}

impl View for VariableDeclaration {
    type V = DeclarationView;

    open spec fn view(&self) -> DeclarationView {
        DeclarationView {
            name: self.name@,
            data_type: self.data_type@,
            default_value: optional_text(self.default_value),
        }
    }
}

impl View for VariableBinding {
    type V = BindingView;

    open spec fn view(&self) -> BindingView {
        BindingView { name: self.name@, expression: self.expression@ }
    }
}

impl View for UuidFirstUse {
    type V = FirstUseView;

    open spec fn view(&self) -> FirstUseView {
        FirstUseView { table_name: self.table_name@, column_name: self.column_name@ }
    }
}

/// A copy of a text that may be absent.
fn copy_optional(text: &Option<String>) -> (copy: Option<String>)
    ensures
        optional_text(copy) == optional_text(*text),
{
    match text {
        Some(present) => Some(present.clone()),
        None => None,
    }
}

impl Clone for VariableDeclaration {
    fn clone(&self) -> (copy: Self)
        ensures
            copy@ == self@,
    {
        VariableDeclaration {
            name: self.name.clone(),
            data_type: self.data_type.clone(),
            default_value: copy_optional(&self.default_value),
        }
    }
}

impl Clone for VariableBinding {
    fn clone(&self) -> (copy: Self)
        ensures
            copy@ == self@,
    {
        VariableBinding { name: self.name.clone(), expression: self.expression.clone() }
    }
}

impl Clone for UuidFirstUse {
    fn clone(&self) -> (copy: Self)
        ensures
            copy@ == self@,
    {
        UuidFirstUse {
            table_name: self.table_name.clone(),
            column_name: self.column_name.clone(),
        }
    }
}

/// A declaration is kept under the name it declares.
impl Filed for VariableDeclaration {
    open spec fn filed_under(&self, name: Seq<char>) -> bool {
        self.name@ == name
    }

    fn duplicate(&self) -> (copy: Self) {
        self.clone()
    }
}

/// A binding is kept under the name it binds.
impl Filed for VariableBinding {
    open spec fn filed_under(&self, name: Seq<char>) -> bool {
        self.name@ == name
    }

    fn duplicate(&self) -> (copy: Self) {
        self.clone()
    }
}

/// A first use is kept under the name of any variable.
impl Filed for UuidFirstUse {
    open spec fn filed_under(&self, name: Seq<char>) -> bool {
        true
    }

    fn duplicate(&self) -> (copy: Self) {
        self.clone()
    }
}

// ---------------------------------------------------------------------------
// The model of a context
// ---------------------------------------------------------------------------

/// What a [`PlPgSqlContext`] knows.
#[verifier::ext_equal]
pub struct ContextView {
    /// The declared variables by name.
    pub declarations: Map<Seq<char>, DeclarationView>,
    /// The bindings that outlive an IF block, by name.
    pub persistent_bindings: Map<Seq<char>, BindingView>,
    /// The bindings of the current IF block, by name.
    pub scoped_bindings: Map<Seq<char>, BindingView>,
    /// The conditions of the open IF blocks, the outermost first.
    pub conditions: Seq<Seq<char>>,
    /// The first INSERT of each UUID variable.
    pub uuid_first_use: Map<Seq<char>, FirstUseView>,
    /// The events the trigger fires on.
    pub trigger_events: Seq<Seq<char>>,
    /// The table the trigger fires on.
    pub trigger_table: Option<Seq<char>>,
}

impl ContextView {
    /// The context that knows nothing.
    pub open spec fn empty() -> ContextView {
        ContextView {
            declarations: Map::empty(),
            persistent_bindings: Map::empty(),
            scoped_bindings: Map::empty(),
            conditions: Seq::empty(),
            uuid_first_use: Map::empty(),
            trigger_events: Seq::empty(),
            trigger_table: None,
        }
    }

    /// With a variable declared.
    pub open spec fn declare(self, declaration: DeclarationView) -> ContextView {
        ContextView {
            declarations: self.declarations.insert(declaration.name, declaration),
            ..self
        }
    }

    /// With a binding that outlives IF blocks.
    pub open spec fn bind_persistently(self, binding: BindingView) -> ContextView {
        ContextView {
            persistent_bindings: self.persistent_bindings.insert(binding.name, binding),
            ..self
        }
    }

    /// With a binding of the current IF block.
    pub open spec fn bind(self, binding: BindingView) -> ContextView {
        ContextView {
            scoped_bindings: self.scoped_bindings.insert(binding.name, binding),
            ..self
        }
    }

    /// The binding of `name`: that of the current IF block, or else the
    /// persistent one.
    pub open spec fn binding(self, name: Seq<char>) -> Option<BindingView> {
        if self.scoped_bindings.contains_key(name) {
            Some(self.scoped_bindings[name])
        } else if self.persistent_bindings.contains_key(name) {
            Some(self.persistent_bindings[name])
        } else {
            None
        }
    }

    /// Without the bindings of the current IF block.
    pub open spec fn leave_scope(self) -> ContextView {
        ContextView { scoped_bindings: Map::empty(), ..self }
    }

    /// Inside one more condition.
    pub open spec fn enter(self, condition: Seq<char>) -> ContextView {
        ContextView { conditions: self.conditions.push(condition), ..self }
    }

    /// Outside the innermost condition, if there is one.
    pub open spec fn leave(self) -> ContextView {
        if self.conditions.len() > 0 {
            ContextView { conditions: self.conditions.drop_last(), ..self }
        } else {
            self
        }
    }

    /// The conjunction of all conditions, each in parentheses.
    pub open spec fn condition(self) -> Option<Seq<char>> {
        if self.conditions.len() == 0 {
            None
        } else {
            Some(text::joined(parenthesized(self.conditions), " AND "@))
        }
    }

    /// With the first use of a UUID variable recorded.
    pub open spec fn record_first_use(
        self,
        variable: Seq<char>,
        first_use: FirstUseView,
    ) -> ContextView {
        ContextView { uuid_first_use: self.uuid_first_use.insert(variable, first_use), ..self }
    }

    /// Without the first uses of UUID variables.
    pub open spec fn forget_first_uses(self) -> ContextView {
        ContextView { uuid_first_use: Map::empty(), ..self }
    }

    /// `name` has a default and no persistent binding.
    pub open spec fn takes_default(self, name: Seq<char>) -> bool {
        &&& !self.persistent_bindings.contains_key(name)
        &&& self.declarations.contains_key(name)
        &&& self.declarations[name].default_value is Some
    }

    /// With each declared variable that has a default, and no persistent
    /// binding, bound to the default.
    pub open spec fn seed_defaults(self) -> ContextView {
        ContextView {
            persistent_bindings: Map::new(
                |name: Seq<char>|
                    self.persistent_bindings.contains_key(name) || self.takes_default(name),
                |name: Seq<char>|
                    if self.takes_default(name) {
                        BindingView {
                            name,
                            expression: self.declarations[name].default_value->0,
                        }
                    } else {
                        self.persistent_bindings[name]
                    },
            ),
            ..self
        }
    }
}

/// Each of `conditions` in parentheses.
pub open spec fn parenthesized(conditions: Seq<Seq<char>>) -> Seq<Seq<char>> {
    Seq::new(conditions.len(), |i: int| "("@ + conditions[i] + ")"@)
}

/// `expression` calls a function that generates a UUID.
pub open spec fn generates_uuid(expression: Seq<char>) -> bool {
    let lower = text::lowercased(expression);
    ||| text::contains_seq(lower, "uuidv7()"@)
    ||| text::contains_seq(lower, "uuidv4()"@)
    ||| text::contains_seq(lower, "uuid_generate_v4()"@)
    ||| text::contains_seq(lower, "gen_random_uuid()"@)
}

// ---------------------------------------------------------------------------
// The context
// ---------------------------------------------------------------------------

/// Translation context. Scoped bindings clear per IF block, persistent ones do
/// not.
#[derive(Debug)]
pub struct PlPgSqlContext {
    declarations: NameMap<VariableDeclaration>,
    persistent_bindings: NameMap<VariableBinding>,
    scoped_bindings: NameMap<VariableBinding>,
    condition_stack: Vec<String>,
    uuid_first_use: NameMap<UuidFirstUse>,
    /// The event names (INSERT, UPDATE, DELETE) the emitted trigger fires on.
    /// Empty when the context is not inside a trigger body.
    pub trigger_events: Vec<String>,
    /// The table the trigger fires on, or `None` when not inside a trigger
    /// body.
    pub trigger_table: Option<String>,
}

impl View for PlPgSqlContext {
    type V = ContextView;

    closed spec fn view(&self) -> ContextView {
        ContextView {
            declarations: self.declarations@,
            persistent_bindings: self.persistent_bindings@,
            scoped_bindings: self.scoped_bindings@,
            conditions: texts(self.condition_stack@),
            uuid_first_use: self.uuid_first_use@,
            trigger_events: texts(self.trigger_events@),
            trigger_table: optional_text(self.trigger_table),
        }
    }
}

/// A copy of a list of texts.
fn copy_texts(list: &Vec<String>) -> (copy: Vec<String>)
    ensures
        texts(copy@) == texts(list@),
{
    let mut copy: Vec<String> = Vec::new();
    let mut i: usize = 0;
    while i < list.len()
        invariant
            i <= list@.len(),
            copy@.len() == i,
            forall|k: int| 0 <= k < i ==> (#[trigger] copy@[k])@ == list@[k]@,
        decreases list@.len() - i,
    {
        copy.push(list[i].clone());
        i += 1;
    }
    assert(texts(copy@) =~= texts(list@));
    copy
}

impl Clone for PlPgSqlContext {
    fn clone(&self) -> (copy: Self)
        ensures
            copy@ == self@,
    {
        PlPgSqlContext {
            declarations: self.declarations.clone(),
            persistent_bindings: self.persistent_bindings.clone(),
            scoped_bindings: self.scoped_bindings.clone(),
            condition_stack: copy_texts(&self.condition_stack),
            uuid_first_use: self.uuid_first_use.clone(),
            trigger_events: copy_texts(&self.trigger_events),
            trigger_table: copy_optional(&self.trigger_table),
        }
    }
}

impl Default for PlPgSqlContext {
    fn default() -> (context: Self)
        ensures
            context@ == ContextView::empty(),
    {
        PlPgSqlContext::new()
    }
}

impl PlPgSqlContext {
    /// Creates a new empty context.
    #[must_use]
    pub fn new() -> (context: Self)
        ensures
            context@ == ContextView::empty(),
    {
        let context = PlPgSqlContext {
            declarations: NameMap::new(),
            persistent_bindings: NameMap::new(),
            scoped_bindings: NameMap::new(),
            condition_stack: Vec::new(),
            uuid_first_use: NameMap::new(),
            trigger_events: Vec::new(),
            trigger_table: None,
        };
        assert(context@ =~= ContextView::empty());
        context
    }

    /// Adds a variable declaration to the context.
    pub fn add_declaration(&mut self, decl: VariableDeclaration)
        ensures
            final(self)@ == old(self)@.declare(decl@),
    {
        self.declarations.insert(decl.name.clone(), decl);
    }

    /// Gets a variable declaration by name.
    #[must_use]
    pub fn get_declaration(&self, name: &str) -> (found: Option<&VariableDeclaration>)
        ensures
            match found {
                Some(decl) => self@.declarations.contains_key(name@) && decl@
                    == self@.declarations[name@] && decl.name@ == name@,
                None => !self@.declarations.contains_key(name@),
            },
    {
        self.declarations.get(name)
    }

    /// Checks if a name is a declared variable.
    #[must_use]
    pub fn is_declared_variable(&self, name: &str) -> (answer: bool)
        ensures
            answer == self@.declarations.contains_key(name@),
    {
        self.declarations.contains_key(name)
    }

    /// Adds a persistent variable binding (e.g., from SELECT INTO).
    /// These persist across IF block boundaries.
    pub fn add_persistent_binding(&mut self, binding: VariableBinding)
        ensures
            final(self)@ == old(self)@.bind_persistently(binding@),
    {
        self.persistent_bindings.insert(binding.name.clone(), binding);
    }

    /// Adds a scoped variable binding (assignment in IF block).
    /// These are cleared when entering a new IF scope.
    pub fn add_binding(&mut self, binding: VariableBinding)
        ensures
            final(self)@ == old(self)@.bind(binding@),
    {
        self.scoped_bindings.insert(binding.name.clone(), binding);
    }

    /// Gets a variable binding by name (checks scoped first, then persistent).
    #[must_use]
    pub fn get_binding(&self, name: &str) -> (found: Option<&VariableBinding>)
        ensures
            match found {
                Some(binding) => self@.binding(name@) == Some(binding@) && binding.name@ == name@,
                None => self@.binding(name@) is None,
            },
    {
        match self.scoped_bindings.get(name) {
            Some(binding) => Some(binding),
            None => self.persistent_bindings.get(name),
        }
    }

    /// Returns all current bindings (both scoped and persistent).
    ///
    /// The scoped ones come first, and each group is in the order of the names.
    pub fn bindings(&self) -> (all: Vec<&VariableBinding>)
        ensures
            exists|scoped: Seq<(Seq<char>, BindingView)>, persistent: Seq<(Seq<char>, BindingView)>|

                {
                    &&& #[trigger] names::lists(scoped, self@.scoped_bindings)
                    &&& #[trigger] names::lists(persistent, self@.persistent_bindings)
                    &&& all@.len() == scoped.len() + persistent.len()
                    &&& forall|i: int|
                        0 <= i < scoped.len() ==> (#[trigger] all@[i])@ == scoped[i].1
                    &&& forall|i: int|
                        0 <= i < persistent.len() ==> (#[trigger] all@[scoped.len() + i])@
                            == persistent[i].1
                },
    {
        let mut all: Vec<&VariableBinding> = Vec::new();
        let scoped_count = self.scoped_bindings.len();
        let persistent_count = self.persistent_bindings.len();
        let ghost scoped = self.scoped_bindings.listing();
        let ghost persistent = self.persistent_bindings.listing();
        let mut i: usize = 0;
        while i < scoped_count
            invariant
                scoped == self.scoped_bindings.listing(),
                i <= scoped_count == scoped.len(),
                all@.len() == i,
                forall|k: int| 0 <= k < i ==> (#[trigger] all@[k])@ == scoped[k].1,
            decreases scoped_count - i,
        {
            all.push(self.scoped_bindings.entry(i).1);
            i += 1;
        }
        let mut j: usize = 0;
        while j < persistent_count
            invariant
                persistent == self.persistent_bindings.listing(),
                j <= persistent_count == persistent.len(),
                all@.len() == scoped.len() + j,
                forall|k: int| 0 <= k < scoped.len() ==> (#[trigger] all@[k])@ == scoped[k].1,
                forall|k: int|
                    0 <= k < j ==> (#[trigger] all@[scoped.len() + k])@ == persistent[k].1,
            decreases persistent_count - j,
        {
            all.push(self.persistent_bindings.entry(j).1);
            j += 1;
        }
        assert(names::lists(scoped, self@.scoped_bindings));
        assert(names::lists(persistent, self@.persistent_bindings));
        all
    }

    /// Clears scoped bindings (used when entering a new IF scope).
    /// Persistent bindings are kept.
    pub fn clear_scoped_bindings(&mut self)
        ensures
            final(self)@ == old(self)@.leave_scope(),
    {
        self.scoped_bindings.clear();
    }

    /// Pushes a condition onto the condition stack (entering an IF block).
    pub fn push_condition(&mut self, condition: String)
        ensures
            final(self)@ == old(self)@.enter(condition@),
    {
        self.condition_stack.push(condition);
        assert(self@ =~= old(self)@.enter(condition@));
    }

    /// Pops a condition from the stack (exiting an IF block).
    pub fn pop_condition(&mut self) -> (popped: Option<String>)
        ensures
            final(self)@ == old(self)@.leave(),
            optional_text(popped) == (if old(self)@.conditions.len() > 0 {
                Some(old(self)@.conditions.last())
            } else {
                None
            }),
    {
        let popped = self.condition_stack.pop();
        assert(self@ =~= old(self)@.leave());
        popped
    }

    /// Gets the current combined condition (AND of all stacked conditions).
    #[must_use]
    pub fn current_condition(&self) -> (condition: Option<String>)
        ensures
            optional_text(condition) == self@.condition(),
    {
        if self.condition_stack.len() == 0 {
            return None;
        }
        let ghost parts = parenthesized(self@.conditions);
        let mut out: Vec<char> = Vec::new();
        let mut i: usize = 0;
        assert(parts.take(0) == Seq::<Seq<char>>::empty());
        while i < self.condition_stack.len()
            invariant
                parts == parenthesized(self@.conditions),
                i <= self.condition_stack@.len(),
                out@ == text::joined(parts.take(i as int), " AND "@),
            decreases self.condition_stack@.len() - i,
        {
            let ghost before = out@;
            if i > 0 {
                text::push_text(&mut out, " AND ");
            }
            text::push_text(&mut out, "(");
            text::push_text(&mut out, &self.condition_stack[i]);
            text::push_text(&mut out, ")");
            proof {
                let now = parts.take(i + 1);
                assert(now.drop_last() == parts.take(i as int));
                assert(now.last() == parts[i as int]);
                assert(parts[i as int] == "("@ + self.condition_stack@[i as int]@ + ")"@);
                if i > 0 {
                    assert(out@ =~= before + " AND "@ + parts[i as int]);
                } else {
                    assert(out@ =~= parts[0]);
                }
            }
            i += 1;
        }
        assert(parts.take(i as int) == parts);
        Some(text::string_of(&out))
    }

    /// Checks if a binding is a UUID generation expression (`uuidv7()`,
    /// `gen_random_uuid()`, etc.)
    #[must_use]
    pub fn is_uuid_generation(&self, name: &str) -> (answer: bool)
        ensures
            answer == (self@.binding(name@) matches Some(binding) && generates_uuid(
                binding.expression,
            )),
    {
        match self.get_binding(name) {
            Some(binding) => {
                let lower = text::lowercase(&text::chars_of(&binding.expression));
                text::position_of_seq(&lower, &text::chars_of("uuidv7()")).is_some()
                    || text::position_of_seq(&lower, &text::chars_of("uuidv4()")).is_some()
                    || text::position_of_seq(
                    &lower,
                    &text::chars_of("uuid_generate_v4()"),
                ).is_some() || text::position_of_seq(
                    &lower,
                    &text::chars_of("gen_random_uuid()"),
                ).is_some()
            },
            None => false,
        }
    }

    /// Records that a UUID variable was first used in an INSERT to a specific
    /// table/column.
    pub fn record_uuid_first_use(&mut self, var_name: &str, table_name: &str, column_name: &str)
        ensures
            final(self)@ == old(self)@.record_first_use(
                var_name@,
                (FirstUseView { table_name: table_name@, column_name: column_name@ }),
            ),
    {
        let first_use = UuidFirstUse {
            table_name: table_name.to_owned(),
            column_name: column_name.to_owned(),
        };
        self.uuid_first_use.insert(var_name.to_owned(), first_use);
    }

    /// Gets the first use info for a UUID variable (if it was already used).
    #[must_use]
    pub fn get_uuid_first_use(&self, var_name: &str) -> (found: Option<&UuidFirstUse>)
        ensures
            match found {
                Some(first_use) => self@.uuid_first_use.contains_key(var_name@) && first_use@
                    == self@.uuid_first_use[var_name@],
                None => !self@.uuid_first_use.contains_key(var_name@),
            },
    {
        self.uuid_first_use.get(var_name)
    }

    /// Clears UUID first-use tracking (e.g., when entering a new IF block where
    /// a new UUID is generated).
    pub fn clear_uuid_first_use(&mut self)
        ensures
            final(self)@ == old(self)@.forget_first_uses(),
    {
        self.uuid_first_use.clear();
    }

    /// Seeds persistent bindings from declaration defaults.
    ///
    /// Declarations are function-scoped and should remain visible across IF
    /// block boundaries, so defaults are initialized as persistent bindings.
    pub fn seed_default_bindings(&mut self)
        ensures
            final(self)@ == old(self)@.seed_defaults(),
    {
        let count = self.declarations.len();
        let ghost start = self@;
        let ghost listing = self.declarations.listing();
        let mut i: usize = 0;
        while i < count
            invariant
                start == old(self)@,
                listing == self.declarations.listing(),
                names::lists(listing, start.declarations),
                i <= count == listing.len(),
                self@ == (ContextView {
                    persistent_bindings: self@.persistent_bindings,
                    ..start
                }),
                forall|name: Seq<char>| #[trigger]
                    start.persistent_bindings.contains_key(name)
                        ==> self@.persistent_bindings.contains_key(name),
                forall|name: Seq<char>| #[trigger]
                    self@.persistent_bindings.contains_key(name) ==> (
                    start.persistent_bindings.contains_key(name) || start.takes_default(name))
                        && self@.persistent_bindings[name]
                        == start.seed_defaults().persistent_bindings[name],
                forall|k: int|
                    0 <= k < i && (#[trigger] listing[k]).1.default_value is Some
                        ==> self@.persistent_bindings.contains_key(listing[k].0),
            decreases count - i,
        {
            let ghost name = listing[i as int].0;
            let found: Option<VariableBinding> = {
                let (key, decl) = self.declarations.entry(i);
                match &decl.default_value {
                    Some(default_value) => if self.persistent_bindings.contains_key(key) {
                        None
                    } else {
                        Some(
                            VariableBinding {
                                name: decl.name.clone(),
                                expression: default_value.clone(),
                            },
                        )
                    },
                    None => None,
                }
            };
            assert(start.declarations.contains_key(listing[i as int].0));
            if let Some(binding) = found {
                self.persistent_bindings.insert(binding.name.clone(), binding);
            }
            i += 1;
        }
        proof {
            let seeded = start.seed_defaults().persistent_bindings;
            assert forall|name: Seq<char>| seeded.dom().contains(name) implies
                #[trigger] self@.persistent_bindings.dom().contains(name) by {
                if start.takes_default(name) {
                    let k = choose|k: int|
                        0 <= k < listing.len() && (#[trigger] listing[k]).0 == name;
                    assert(start.declarations.contains_key(listing[k].0));
                    assert(listing[k].1.default_value is Some);
                } else {
                    assert(start.persistent_bindings.contains_key(name));
                }
            }
            assert(self@.persistent_bindings.dom() =~= seeded.dom());
            assert(self@.persistent_bindings =~= seeded);
        }
    }

    /// Returns the event string for `TG_OP` constant-folding when there is
    /// exactly one trigger event, otherwise `None`.
    ///
    /// A multi-event trigger cannot fold `TG_OP` to a single value.
    #[must_use]
    pub fn single_trigger_event(&self) -> (event: Option<&str>)
        ensures
            event is Some <==> self@.trigger_events.len() == 1,
            event matches Some(name) ==> name@ == self@.trigger_events[0],
    {
        if self.trigger_events.len() == 1 {
            Some(self.trigger_events[0].as_str())
        } else {
            None
        }
    }

    /// True when the context has more than one trigger event and `TG_OP`
    /// cannot be resolved to a single value.
    #[must_use]
    pub fn has_multiple_trigger_events(&self) -> (answer: bool)
        ensures
            answer == (self@.trigger_events.len() > 1),
    {
        self.trigger_events.len() > 1
    }
}

}
