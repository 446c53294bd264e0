//! A Lua state, and what was done with it in which order.
//!
//! Nothing outside this module gets hold of the interpreter itself, so that the
//! log of a state leaves nothing out: a contract that speaks of it says which
//! steps are taken, in which order, and that no others are.

use vstd::prelude::*;
use vstd::utf8::*;

use crate::api::{
    escape_function, link_function, may_make_function, may_register, offered, register_selection,
    rule_function, settings_function, strip_function, ApiFunction, SelectionMethod,
};
use crate::interpreter::{
    argument_bytes, as_string, as_table, belongs, call_handler, entries, entries_of, execute,
    function_field, globals, hooked, lemma_done, limit_instructions, list, list_field, list_of,
    lua_bytes, lua_kind, lua_string, lua_table, may_execute, may_find, may_find_entry,
    may_find_next, may_have_globals, may_have_length, may_hold_function, may_hold_list,
    may_hold_table, may_hold_text, may_limit_instructions, may_limit_memory, may_make_string,
    may_make_table, may_push, may_remove, may_return, may_set_budget, may_start, may_store,
    may_store_pair, new_state, new_string, new_table, next_entry, next_pair, next_table, pairs,
    pairs_of, passable, push_table, raw_len, raw_remove, same_state, set_budget, set_field,
    set_memory_limit, set_pair, storable, string_bytes, string_text, table_field, text_fault,
    text_field, Handle, Item, Kind, Library, Stored,
};
use crate::limits::Budget;
use crate::selection::{Flavours, Selection};

verus! {

/// Something that was done with a state, and what came of it.
pub enum Step {
    /// Limit the memory to so many bytes.
    LimitMemory(usize, Result<usize, mlua::Error>),
    /// Get the table of globals.
    Globals(mlua::Table),
    MakeTable(Result<mlua::Table, mlua::Error>),
    /// Make a string of bytes.
    MakeString(Seq<u8>, Result<mlua::LuaString, mlua::Error>),
    /// Make a function that a config can call.
    MakeFunction(ApiFunction, Result<mlua::Function, mlua::Error>),
    /// Tell which methods a selection offers.
    Register(Seq<(Seq<char>, SelectionMethod)>, Result<(), mlua::Error>),
    /// Store something in a table under a name.
    Store(mlua::Table, Seq<char>, Stored, Result<(), mlua::Error>),
    /// Store a value in a table under another.
    StorePair(mlua::Table, (mlua::Value, mlua::Value), Result<(), mlua::Error>),
    /// Append a table to a list of tables.
    Append(mlua::Table, mlua::Table, Result<(), mlua::Error>),
    /// Look up a name in a table, for a table.
    FindTable(mlua::Table, Seq<char>, Result<mlua::Table, mlua::Error>),
    FindText(mlua::Table, Seq<char>, Result<Option<String>, mlua::Error>),
    FindList(mlua::Table, Seq<char>, Result<Option<Vec<String>>, mlua::Error>),
    FindFunction(mlua::Table, Seq<char>, Result<Option<mlua::Function>, mlua::Error>),
    /// Begin to walk a table.
    Walk(mlua::Table),
    /// Go on to the next pair of a table.
    Pair(mlua::Table, Option<Result<(mlua::Value, mlua::Value), mlua::Error>>),
    /// Begin to walk a table for names and strings.
    WalkEntries(mlua::Table),
    Entry(mlua::Table, Option<Result<(String, mlua::LuaString), mlua::Error>>),
    /// Begin to walk a list of tables.
    WalkList(mlua::Table),
    Next(mlua::Table, Option<Result<mlua::Table, mlua::Error>>),
    /// Get the length of a table.
    Length(mlua::Table, usize),
    /// Remove what a table has at an index.
    Remove(mlua::Table, usize, Result<(), mlua::Error>),
    /// Give a budget that so much was used of.
    SetBudget(nat, Result<(), mlua::Error>),
    /// Run a source text under a name.
    Execute(Seq<char>, Seq<char>, Result<(), mlua::Error>),
    /// Call a handler with a selection and further arguments.
    Call(
        mlua::Function,
        Flavours,
        Seq<Option<Seq<u8>>>,
        Result<mlua::Value, mlua::Error>,
    ),
}

/// Whether this can come of a step.
pub open spec fn possible(lua: mlua::Lua, step: Step) -> bool {
    match step {
        Step::LimitMemory(bytes, limited) => may_limit_memory(lua, bytes, limited),
        Step::Globals(globals) => may_have_globals(lua, globals),
        Step::MakeTable(made) => may_make_table(lua, made),
        Step::MakeString(bytes, made) => may_make_string(lua, bytes, made),
        Step::MakeFunction(function, made) => may_make_function(lua, function, made),
        Step::Register(methods, done) => may_register(lua, methods, done),
        Step::Store(table, key, item, done) => may_store(table, key, item, done),
        Step::StorePair(table, pair, done) => may_store_pair(table, pair, done),
        Step::Append(table, item, done) => may_push(table, item, done),
        Step::FindTable(table, key, found) => may_hold_table(table, key, found),
        Step::FindText(table, key, found) => may_hold_text(table, key, found),
        Step::FindList(table, key, found) => may_hold_list(table, key, found),
        Step::FindFunction(table, key, found) => may_hold_function(table, key, found),
        Step::Walk(_) => true,
        Step::Pair(table, found) => may_find(table, found),
        Step::WalkEntries(_) => true,
        Step::Entry(table, found) => may_find_entry(table, found),
        Step::WalkList(_) => true,
        Step::Next(table, found) => may_find_next(table, found),
        Step::Length(table, length) => may_have_length(table, length),
        Step::Remove(table, index, done) => may_remove(table, index, done),
        Step::SetBudget(used, done) => may_set_budget(lua, used, done),
        Step::Execute(source, name, done) => may_execute(lua, source, name, done),
        Step::Call(handler, incoming, args, called) => may_return(
            lua,
            handler,
            incoming,
            args,
            called,
        ),
    }
}

/// A Lua state that spends from its budget as it runs, with a log of what was done
/// with it.
pub struct State {
    lua: mlua::Lua,
    log: Ghost<Seq<Step>>,
}

/// Between these, one step was taken and nothing else.
pub open spec fn took(before: State, after: State, step: Step) -> bool {
    &&& after.lua() == before.lua()
    &&& after.log() == before.log().push(step)
    &&& possible(before.lua(), step)
}

/// Between these, these steps were taken and nothing else.
pub open spec fn took_all(before: State, after: State, steps: Seq<Step>) -> bool {
    &&& after.lua() == before.lua()
    &&& after.log() == before.log() + steps
    &&& forall|i: int| 0 <= i < steps.len() ==> possible(before.lua(), #[trigger] steps[i])
}

/// One more step.
pub proof fn lemma_took(before: State, mid: State, after: State, steps: Seq<Step>, step: Step)
    requires
        took_all(before, mid, steps),
        took(mid, after, step),
    ensures
        took_all(before, after, steps.push(step)),
{
    assert(before.log() + steps.push(step) =~= (before.log() + steps).push(step));
}

/// States from one to another.
pub open spec fn passes(states: Seq<State>, before: State, after: State) -> bool {
    states.len() > 0 && states[0] == before && states.last() == after
}

/// Whether things were done in turn between these states, each from one to the
/// next, given what doing one can be.
pub open spec fn in_order<S>(
    states: Seq<State>,
    things: Seq<S>,
    may: spec_fn(State, State, S, Result<(), mlua::Error>) -> bool,
    done: Result<(), mlua::Error>,
) -> bool {
    match done {
        Ok(_) => states.len() == things.len() + 1 && forall|i: int|
            0 <= i < things.len() ==> may(states[i], states[i + 1], #[trigger] things[i], Ok(())),
        Err(_) => 2 <= states.len() <= things.len() + 1 && may(
            states[states.len() - 2],
            states.last(),
            things[states.len() - 2],
            done,
        ) && forall|i: int|
            0 <= i < states.len() - 2 ==> may(
                states[i],
                states[i + 1],
                #[trigger] things[i],
                Ok(()),
            ),
    }
}

/// What can come of doing things in order up to the first that fails, given what
/// doing one can be: all of them succeed, or one fails after those before it have
/// succeeded.
pub open spec fn up_to_a_fault<S>(
    before: State,
    after: State,
    things: Seq<S>,
    may: spec_fn(State, State, S, Result<(), mlua::Error>) -> bool,
    done: Result<(), mlua::Error>,
) -> bool {
    exists|states: Seq<State>| #[trigger]
        passes(states, before, after) && in_order(states, things, may, done)
}

/// What can come of starting a state with some libraries that spends from its
/// budget every so many instructions.
pub open spec fn may_begin(
    libraries: Seq<Library>,
    every: u32,
    r: Result<State, mlua::Error>,
) -> bool {
    exists|started: Result<mlua::Lua, mlua::Error>| #[trigger]
        may_start(libraries, started) && match started {
            Err(error) => r == Err::<State, mlua::Error>(error),
            Ok(lua) => exists|done: Result<(), mlua::Error>| #[trigger]
                may_limit_instructions(lua, every, done) && match done {
                    Err(error) => r == Err::<State, mlua::Error>(error),
                    Ok(_) => r matches Ok(state) && state.lua() == lua && state.log()
                        == Seq::<Step>::empty(),
                },
        }
}

/// What can come of running a source text under a name on a budget that so much was
/// used of: it is run once the state has the budget.
pub open spec fn executed(
    before: State,
    after: State,
    source: Seq<char>,
    name: Seq<char>,
    used: nat,
    r: Result<(), mlua::Error>,
) -> bool {
    exists|mid: State, given: Result<(), mlua::Error>| #[trigger]
        took(before, mid, Step::SetBudget(used, given)) && match given {
            Err(_) => r == given && after == mid,
            Ok(_) => took(mid, after, Step::Execute(source, name, r)),
        }
}

/// What can come of calling a handler on a budget that so much was used of: it is
/// called once the state has the budget.
pub open spec fn handled(
    before: State,
    after: State,
    handler: mlua::Function,
    incoming: Flavours,
    args: Seq<Option<Seq<u8>>>,
    used: nat,
    r: Result<mlua::Value, mlua::Error>,
) -> bool {
    exists|mid: State, given: Result<(), mlua::Error>| #[trigger]
        took(before, mid, Step::SetBudget(used, given)) && match given {
            Err(error) => r == Err::<mlua::Value, mlua::Error>(error) && after == mid,
            Ok(_) => took(mid, after, Step::Call(handler, incoming, args, r)),
        }
}

impl State {
    #[verifier::type_invariant]
    spec fn limited(self) -> bool {
        hooked(self.lua)
    }

    /// Which state it is.
    pub closed spec fn lua(&self) -> mlua::Lua {
        self.lua
    }

    /// What was done with it, in order.
    pub closed spec fn log(&self) -> Seq<Step> {
        self.log@
    }

    /// Start a state with some libraries that spends from its budget every so many
    /// instructions.
    pub(crate) fn start(libraries: &[Library], every: u32) -> (r: Result<State, mlua::Error>)
        requires
            every > 0,
        ensures
            may_begin(libraries@, every, r),
    {
        let lua = new_state(libraries)?;
        limit_instructions(&lua, every)?;
        Ok(State { lua, log: Ghost(Seq::empty()) })
    }

    /// The state that a function was called from.
    pub(crate) fn within(lua: &mlua::Lua) -> (r: State)
        requires
            hooked(*lua),
        ensures
            r.lua() == *lua,
            r.log() == Seq::<Step>::empty(),
    {
        State { lua: same_state(lua), log: Ghost(Seq::empty()) }
    }

    fn note(&mut self, Ghost(step): Ghost<Step>)
        ensures
            final(self).lua() == old(self).lua(),
            final(self).log() == old(self).log().push(step),
    {
        proof {
            use_type_invariant(&*self);
        }
        self.log = Ghost(self.log@.push(step));
    }

    pub(crate) fn limit_memory(&mut self, bytes: usize) -> (r: Result<usize, mlua::Error>)
        ensures
            took(*old(self), *final(self), Step::LimitMemory(bytes, r)),
    {
        let r = set_memory_limit(&self.lua, bytes);
        self.note(Ghost(Step::LimitMemory(bytes, r)));
        r
    }

    pub(crate) fn globals(&mut self) -> (r: mlua::Table)
        ensures
            took(*old(self), *final(self), Step::Globals(r)),
            belongs(final(self).lua(), Handle::Table(r)),
    {
        let r = globals(&self.lua);
        self.note(Ghost(Step::Globals(r)));
        r
    }

    pub(crate) fn new_table(&mut self) -> (r: Result<mlua::Table, mlua::Error>)
        ensures
            took(*old(self), *final(self), Step::MakeTable(r)),
            r matches Ok(table) ==> belongs(final(self).lua(), Handle::Table(table)),
    {
        let r = new_table(&self.lua);
        self.note(Ghost(Step::MakeTable(r)));
        r
    }

    pub(crate) fn new_string(&mut self, text: &str) -> (r: Result<mlua::LuaString, mlua::Error>)
        ensures
            took(*old(self), *final(self), Step::MakeString(encode_utf8(text@), r)),
            r matches Ok(s) ==> {
                &&& lua_bytes(s) == encode_utf8(text@)
                &&& belongs(final(self).lua(), Handle::Text(s))
            },
    {
        let r = new_string(&self.lua, text);
        self.note(Ghost(Step::MakeString(encode_utf8(text@), r)));
        r
    }

    pub(crate) fn rule_function(&mut self, collected: &mlua::Table) -> (r: Result<
        mlua::Function,
        mlua::Error,
    >)
        requires
            belongs(old(self).lua(), Handle::Table(*collected)),
        ensures
            took(
                *old(self),
                *final(self),
                Step::MakeFunction(ApiFunction::Rule(*collected), r),
            ),
            r matches Ok(function) ==> belongs(final(self).lua(), Handle::Function(function)),
    {
        proof {
            use_type_invariant(&*self);
        }
        let r = rule_function(&self.lua, collected);
        self.note(Ghost(Step::MakeFunction(ApiFunction::Rule(*collected), r)));
        r
    }

    pub(crate) fn settings_function(&mut self, settings: &mlua::Table) -> (r: Result<
        mlua::Function,
        mlua::Error,
    >)
        requires
            belongs(old(self).lua(), Handle::Table(*settings)),
        ensures
            took(
                *old(self),
                *final(self),
                Step::MakeFunction(ApiFunction::Settings(*settings), r),
            ),
            r matches Ok(function) ==> belongs(final(self).lua(), Handle::Function(function)),
    {
        proof {
            use_type_invariant(&*self);
        }
        let r = settings_function(&self.lua, settings);
        self.note(Ghost(Step::MakeFunction(ApiFunction::Settings(*settings), r)));
        r
    }

    pub(crate) fn escape_function(&mut self) -> (r: Result<mlua::Function, mlua::Error>)
        ensures
            took(*old(self), *final(self), Step::MakeFunction(ApiFunction::Escape, r)),
            r matches Ok(function) ==> belongs(final(self).lua(), Handle::Function(function)),
    {
        let r = escape_function(&self.lua);
        self.note(Ghost(Step::MakeFunction(ApiFunction::Escape, r)));
        r
    }

    pub(crate) fn link_function(&mut self) -> (r: Result<mlua::Function, mlua::Error>)
        ensures
            took(*old(self), *final(self), Step::MakeFunction(ApiFunction::Link, r)),
            r matches Ok(function) ==> belongs(final(self).lua(), Handle::Function(function)),
    {
        proof {
            use_type_invariant(&*self);
        }
        let r = link_function(&self.lua);
        self.note(Ghost(Step::MakeFunction(ApiFunction::Link, r)));
        r
    }

    pub(crate) fn strip_function(&mut self) -> (r: Result<mlua::Function, mlua::Error>)
        ensures
            took(*old(self), *final(self), Step::MakeFunction(ApiFunction::Strip, r)),
            r matches Ok(function) ==> belongs(final(self).lua(), Handle::Function(function)),
    {
        let r = strip_function(&self.lua);
        self.note(Ghost(Step::MakeFunction(ApiFunction::Strip, r)));
        r
    }

    pub(crate) fn register_selection(&mut self, methods: &[(&'static str, SelectionMethod)]) -> (r:
        Result<(), mlua::Error>)
        ensures
            took(*old(self), *final(self), Step::Register(offered(methods@), r)),
    {
        let r = register_selection(&self.lua, methods);
        self.note(Ghost(Step::Register(offered(methods@), r)));
        r
    }

    pub(crate) fn set_field(&mut self, table: &mlua::Table, key: &str, item: Item) -> (r: Result<
        (),
        mlua::Error,
    >)
        requires
            belongs(old(self).lua(), Handle::Table(*table)),
            storable(old(self).lua(), item@),
        ensures
            took(*old(self), *final(self), Step::Store(*table, key@, item@, r)),
    {
        proof {
            use_type_invariant(&*self);
        }
        let ghost stored = item@;
        let r = set_field(&self.lua, table, key, item);
        self.note(Ghost(Step::Store(*table, key@, stored, r)));
        r
    }

    pub(crate) fn set_pair(&mut self, table: &mlua::Table, pair: (mlua::Value, mlua::Value)) -> (r:
        Result<(), mlua::Error>)
        requires
            belongs(old(self).lua(), Handle::Table(*table)),
            belongs(old(self).lua(), Handle::Value(pair.0)),
            belongs(old(self).lua(), Handle::Value(pair.1)),
        ensures
            took(*old(self), *final(self), Step::StorePair(*table, pair, r)),
    {
        proof {
            use_type_invariant(&*self);
        }
        let ghost stored = pair;
        let r = set_pair(&self.lua, table, pair);
        self.note(Ghost(Step::StorePair(*table, stored, r)));
        r
    }

    pub(crate) fn push_table(&mut self, table: &mlua::Table, item: mlua::Table) -> (r: Result<
        (),
        mlua::Error,
    >)
        requires
            belongs(old(self).lua(), Handle::Table(*table)),
            belongs(old(self).lua(), Handle::Table(item)),
        ensures
            took(*old(self), *final(self), Step::Append(*table, item, r)),
    {
        proof {
            use_type_invariant(&*self);
        }
        let ghost appended = item;
        let r = push_table(&self.lua, table, item);
        self.note(Ghost(Step::Append(*table, appended, r)));
        r
    }

    pub(crate) fn table_field(&mut self, table: &mlua::Table, key: &str) -> (r: Result<
        mlua::Table,
        mlua::Error,
    >)
        requires
            belongs(old(self).lua(), Handle::Table(*table)),
        ensures
            took(*old(self), *final(self), Step::FindTable(*table, key@, r)),
            r matches Ok(found) ==> belongs(final(self).lua(), Handle::Table(found)),
    {
        proof {
            use_type_invariant(&*self);
        }
        let r = table_field(&self.lua, table, key);
        self.note(Ghost(Step::FindTable(*table, key@, r)));
        r
    }

    pub(crate) fn text_field(&mut self, table: &mlua::Table, key: &str) -> (r: Result<
        Option<String>,
        mlua::Error,
    >)
        requires
            belongs(old(self).lua(), Handle::Table(*table)),
        ensures
            took(*old(self), *final(self), Step::FindText(*table, key@, r)),
    {
        proof {
            use_type_invariant(&*self);
        }
        let r = text_field(&self.lua, table, key);
        self.note(Ghost(Step::FindText(*table, key@, r)));
        r
    }

    pub(crate) fn list_field(&mut self, table: &mlua::Table, key: &str) -> (r: Result<
        Option<Vec<String>>,
        mlua::Error,
    >)
        requires
            belongs(old(self).lua(), Handle::Table(*table)),
        ensures
            took(*old(self), *final(self), Step::FindList(*table, key@, r)),
    {
        proof {
            use_type_invariant(&*self);
        }
        let r = list_field(&self.lua, table, key);
        self.note(Ghost(Step::FindList(*table, key@, r)));
        r
    }

    pub(crate) fn function_field(&mut self, table: &mlua::Table, key: &str) -> (r: Result<
        Option<mlua::Function>,
        mlua::Error,
    >)
        requires
            belongs(old(self).lua(), Handle::Table(*table)),
        ensures
            took(*old(self), *final(self), Step::FindFunction(*table, key@, r)),
            r matches Ok(Some(found)) ==> belongs(final(self).lua(), Handle::Function(found)),
    {
        proof {
            use_type_invariant(&*self);
        }
        let r = function_field(&self.lua, table, key);
        self.note(Ghost(Step::FindFunction(*table, key@, r)));
        r
    }

    pub(crate) fn pairs<'a>(&mut self, table: &'a mlua::Table) -> (r: mlua::table::TablePairs<
        'a,
        mlua::Value,
        mlua::Value,
    >)
        requires
            belongs(old(self).lua(), Handle::Table(*table)),
        ensures
            took(*old(self), *final(self), Step::Walk(*table)),
            pairs_of(r) == *table,
    {
        let r = pairs(&self.lua, table);
        self.note(Ghost(Step::Walk(*table)));
        r
    }

    pub(crate) fn next_pair(
        &mut self,
        walk: &mut mlua::table::TablePairs<mlua::Value, mlua::Value>,
    ) -> (r: Option<Result<(mlua::Value, mlua::Value), mlua::Error>>)
        requires
            belongs(old(self).lua(), Handle::Table(pairs_of(*old(walk)))),
        ensures
            pairs_of(*final(walk)) == pairs_of(*old(walk)),
            took(*old(self), *final(self), Step::Pair(pairs_of(*old(walk)), r)),
            r matches Some(Ok(pair)) ==> {
                &&& belongs(final(self).lua(), Handle::Value(pair.0))
                &&& belongs(final(self).lua(), Handle::Value(pair.1))
            },
    {
        let ghost table = pairs_of(*walk);
        let r = next_pair(&self.lua, walk);
        self.note(Ghost(Step::Pair(table, r)));
        r
    }

    pub(crate) fn entries<'a>(&mut self, table: &'a mlua::Table) -> (r: mlua::table::TablePairs<
        'a,
        String,
        mlua::LuaString,
    >)
        requires
            belongs(old(self).lua(), Handle::Table(*table)),
        ensures
            took(*old(self), *final(self), Step::WalkEntries(*table)),
            entries_of(r) == *table,
    {
        let r = entries(&self.lua, table);
        self.note(Ghost(Step::WalkEntries(*table)));
        r
    }

    pub(crate) fn next_entry(
        &mut self,
        walk: &mut mlua::table::TablePairs<String, mlua::LuaString>,
    ) -> (r: Option<Result<(String, mlua::LuaString), mlua::Error>>)
        requires
            belongs(old(self).lua(), Handle::Table(entries_of(*old(walk)))),
        ensures
            entries_of(*final(walk)) == entries_of(*old(walk)),
            took(*old(self), *final(self), Step::Entry(entries_of(*old(walk)), r)),
            r matches Some(Ok(entry)) ==> belongs(final(self).lua(), Handle::Text(entry.1)),
    {
        let ghost table = entries_of(*walk);
        let r = next_entry(&self.lua, walk);
        self.note(Ghost(Step::Entry(table, r)));
        r
    }

    pub(crate) fn list<'a>(&mut self, table: &'a mlua::Table) -> (r: mlua::table::TableSequence<
        'a,
        mlua::Table,
    >)
        requires
            belongs(old(self).lua(), Handle::Table(*table)),
        ensures
            took(*old(self), *final(self), Step::WalkList(*table)),
            list_of(r) == *table,
    {
        let r = list(&self.lua, table);
        self.note(Ghost(Step::WalkList(*table)));
        r
    }

    pub(crate) fn next_table(
        &mut self,
        walk: &mut mlua::table::TableSequence<mlua::Table>,
    ) -> (r: Option<Result<mlua::Table, mlua::Error>>)
        requires
            belongs(old(self).lua(), Handle::Table(list_of(*old(walk)))),
        ensures
            list_of(*final(walk)) == list_of(*old(walk)),
            took(*old(self), *final(self), Step::Next(list_of(*old(walk)), r)),
            r matches Some(Ok(found)) ==> belongs(final(self).lua(), Handle::Table(found)),
    {
        let ghost table = list_of(*walk);
        let r = next_table(&self.lua, walk);
        self.note(Ghost(Step::Next(table, r)));
        r
    }

    pub(crate) fn raw_len(&mut self, table: &mlua::Table) -> (r: usize)
        requires
            belongs(old(self).lua(), Handle::Table(*table)),
        ensures
            took(*old(self), *final(self), Step::Length(*table, r)),
    {
        let r = raw_len(&self.lua, table);
        self.note(Ghost(Step::Length(*table, r)));
        r
    }

    pub(crate) fn raw_remove(&mut self, table: &mlua::Table, index: usize) -> (r: Result<
        (),
        mlua::Error,
    >)
        requires
            belongs(old(self).lua(), Handle::Table(*table)),
        ensures
            took(*old(self), *final(self), Step::Remove(*table, index, r)),
    {
        let r = raw_remove(&self.lua, table, index);
        self.note(Ghost(Step::Remove(*table, index, r)));
        r
    }

    fn set_budget(&mut self, budget: Budget) -> (r: Result<(), mlua::Error>)
        ensures
            took(*old(self), *final(self), Step::SetBudget(budget.used(), r)),
    {
        let r = set_budget(&self.lua, budget);
        self.note(Ghost(Step::SetBudget(budget.used(), r)));
        r
    }

    /// Run a source text under a name on a budget.
    pub(crate) fn execute(&mut self, source: &str, name: &str, budget: Budget) -> (r: Result<
        (),
        mlua::Error,
    >)
        ensures
            executed(*old(self), *final(self), source@, name@, budget.used(), r),
    {
        self.set_budget(budget)?;
        proof {
            use_type_invariant(&*self);
        }
        let r = execute(&self.lua, source, name);
        self.note(Ghost(Step::Execute(source@, name@, r)));
        r
    }

    /// Call a handler with a selection and further arguments on a budget.
    pub(crate) fn call_handler(
        &mut self,
        handler: &mlua::Function,
        incoming: &Selection,
        args: Vec<Option<mlua::LuaString>>,
        budget: Budget,
    ) -> (r: Result<mlua::Value, mlua::Error>)
        requires
            belongs(old(self).lua(), Handle::Function(*handler)),
            passable(old(self).lua(), args@),
        ensures
            handled(
                *old(self),
                *final(self),
                *handler,
                incoming@,
                argument_bytes(args@),
                budget.used(),
                r,
            ),
            final(self).lua() == old(self).lua(),
            r matches Ok(value) ==> belongs(final(self).lua(), Handle::Value(value)),
    {
        let ghost bytes = argument_bytes(args@);
        self.set_budget(budget)?;
        proof {
            use_type_invariant(&*self);
        }
        let r = call_handler(&self.lua, handler, incoming, args);
        self.note(Ghost(Step::Call(*handler, incoming@, bytes, r)));
        r
    }

    /// The string that a value is, if it is one.
    pub(crate) fn as_string(&self, value: mlua::Value) -> (r: Option<mlua::LuaString>)
        requires
            belongs(self.lua(), Handle::Value(value)),
        ensures
            r == if lua_kind(value) == Kind::Text {
                Some(lua_string(value))
            } else {
                None
            },
            r matches Some(s) ==> belongs(self.lua(), Handle::Text(s)),
    {
        as_string(&self.lua, value)
    }

    /// The table that a value is, if it is one.
    pub(crate) fn as_table(&self, value: mlua::Value) -> (r: Option<mlua::Table>)
        requires
            belongs(self.lua(), Handle::Value(value)),
        ensures
            r == if lua_kind(value) == Kind::Table {
                Some(lua_table(value))
            } else {
                None
            },
            r matches Some(table) ==> belongs(self.lua(), Handle::Table(table)),
    {
        as_table(&self.lua, value)
    }

    /// The bytes of a string.
    pub(crate) fn bytes(&self, s: &mlua::LuaString) -> (r: Vec<u8>)
        requires
            belongs(self.lua(), Handle::Text(*s)),
        ensures
            r@ == lua_bytes(*s),
    {
        string_bytes(&self.lua, s)
    }

    /// The text that a string is, or why it is none.
    pub(crate) fn text(&self, s: &mlua::LuaString) -> (r: Result<String, mlua::Error>)
        requires
            belongs(self.lua(), Handle::Text(*s)),
        ensures
            match r {
                Ok(text) => valid_utf8(lua_bytes(*s)) && text@ == decode_utf8(lua_bytes(*s)),
                Err(error) => !valid_utf8(lua_bytes(*s)) && error == text_fault(lua_bytes(*s)),
            },
    {
        string_text(&self.lua, s)
    }
}

// -------------------------------------------------------------------- laws

/// A source text that was run to its end was run under its name, just after the
/// state had got the budget, and nothing else was done; one that could not get the
/// budget was not run at all.
pub proof fn law_a_run_begins_with_its_budget(
    before: State,
    after: State,
    source: Seq<char>,
    name: Seq<char>,
    used: nat,
    r: Result<(), mlua::Error>,
)
    requires
        executed(before, after, source, name, used, r),
    ensures
        after.lua() == before.lua(),
        after.log() == before.log() + seq![
            Step::SetBudget(used, Ok(())),
            Step::Execute(source, name, r),
        ] || (r is Err && after.log() == before.log().push(Step::SetBudget(used, r))),
{
    let (mid, given) = choose|mid: State, given: Result<(), mlua::Error>| #[trigger]
        took(before, mid, Step::SetBudget(used, given)) && match given {
            Err(_) => r == given && after == mid,
            Ok(_) => took(mid, after, Step::Execute(source, name, r)),
        };
    if given is Ok {
        lemma_done(given);
        assert(after.log() =~= before.log() + seq![
            Step::SetBudget(used, Ok(())),
            Step::Execute(source, name, r),
        ]);
    }
}

/// A handler that was called was called with the selection and its arguments, just
/// after the state had got the budget, and nothing else was done; one for which there
/// was no budget was not called at all.
pub proof fn law_a_call_begins_with_its_budget(
    before: State,
    after: State,
    handler: mlua::Function,
    incoming: Flavours,
    args: Seq<Option<Seq<u8>>>,
    used: nat,
    r: Result<mlua::Value, mlua::Error>,
)
    requires
        handled(before, after, handler, incoming, args, used, r),
    ensures
        after.lua() == before.lua(),
        after.log() == before.log() + seq![
            Step::SetBudget(used, Ok(())),
            Step::Call(handler, incoming, args, r),
        ] || (r matches Err(error) && after.log() == before.log().push(
            Step::SetBudget(used, Err(error)),
        )),
{
    let (mid, given) = choose|mid: State, given: Result<(), mlua::Error>| #[trigger]
        took(before, mid, Step::SetBudget(used, given)) && match given {
            Err(error) => r == Err::<mlua::Value, mlua::Error>(error) && after == mid,
            Ok(_) => took(mid, after, Step::Call(handler, incoming, args, r)),
        };
    if given is Ok {
        lemma_done(given);
        assert(after.log() =~= before.log() + seq![
            Step::SetBudget(used, Ok(())),
            Step::Call(handler, incoming, args, r),
        ]);
    }
}

/// Things that are done in order are all done, each from where the one before it
/// ended, or those before the first that fails and that one, whose fault is the
/// outcome.
pub proof fn law_things_are_done_up_to_a_fault<S>(
    before: State,
    after: State,
    things: Seq<S>,
    may: spec_fn(State, State, S, Result<(), mlua::Error>) -> bool,
    done: Result<(), mlua::Error>,
) -> (states: Seq<State>)
    requires
        up_to_a_fault(before, after, things, may, done),
    ensures
        states.len() > 0,
        states[0] == before,
        states.last() == after,
        states.len() <= things.len() + 1,
        done is Ok ==> states.len() == things.len() + 1,
        done is Err ==> states.len() >= 2,
        forall|i: int|
            0 <= i < states.len() - 1 ==> may(
                states[i],
                states[i + 1],
                #[trigger] things[i],
                if i == states.len() - 2 {
                    done
                } else {
                    Ok(())
                },
            ),
{
    let states = choose|states: Seq<State>| #[trigger]
        passes(states, before, after) && in_order(states, things, may, done);
    if done is Ok {
        lemma_done(done);
    }
    states
}

/// Things that are each done by one step are all done by these steps, in order.
pub proof fn lemma_one_step_each<S>(
    before: State,
    after: State,
    things: Seq<S>,
    may: spec_fn(State, State, S, Result<(), mlua::Error>) -> bool,
    step: spec_fn(S) -> Step,
)
    requires
        up_to_a_fault(before, after, things, may, Ok::<(), mlua::Error>(())),
        forall|from: State, to: State, thing: S| #[trigger]
            may(from, to, thing, Ok::<(), mlua::Error>(())) ==> took(from, to, step(thing)),
    ensures
        after.lua() == before.lua(),
        after.log() == before.log() + things.map_values(step),
{
    let states = choose|states: Seq<State>| #[trigger]
        passes(states, before, after) && in_order(states, things, may, Ok::<(), mlua::Error>(()));
    lemma_one_step_each_so_far(states, things, may, step, things.len() as int);
    assert(things.take(things.len() as int) =~= things);
}

proof fn lemma_one_step_each_so_far<S>(
    states: Seq<State>,
    things: Seq<S>,
    may: spec_fn(State, State, S, Result<(), mlua::Error>) -> bool,
    step: spec_fn(S) -> Step,
    n: int,
)
    requires
        in_order(states, things, may, Ok::<(), mlua::Error>(())),
        forall|from: State, to: State, thing: S| #[trigger]
            may(from, to, thing, Ok::<(), mlua::Error>(())) ==> took(from, to, step(thing)),
        0 <= n <= things.len(),
    ensures
        states[n].lua() == states[0].lua(),
        states[n].log() == states[0].log() + things.take(n).map_values(step),
    decreases n,
{
    if n == 0 {
        assert(states[0].log() + things.take(0).map_values(step) =~= states[0].log());
    } else {
        lemma_one_step_each_so_far(states, things, may, step, n - 1);
        assert(may(states[n - 1], states[n], things[n - 1], Ok::<(), mlua::Error>(())));
        assert(things.take(n).map_values(step) =~= things.take(n - 1).map_values(step).push(
            step(things[n - 1]),
        ));
        assert(states[n].log() =~= states[0].log() + things.take(n).map_values(step));
    }
}

/// Several steps leave the state the same and stand at the end of its log, in order.
pub proof fn law_steps_are_logged_in_order(before: State, after: State, steps: Seq<Step>)
    requires
        took_all(before, after, steps),
    ensures
        after.lua() == before.lua(),
        after.log().len() == before.log().len() + steps.len(),
        after.log().take(before.log().len() as int) == before.log(),
        after.log().skip(before.log().len() as int) == steps,
{
    assert(after.log().take(before.log().len() as int) =~= before.log());
    assert(after.log().skip(before.log().len() as int) =~= steps);
}

} // verus!
