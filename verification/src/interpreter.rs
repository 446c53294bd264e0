//! The Lua interpreter that runs a config, from the `mlua` crate.
//!
//! What a Lua state holds changes behind shared references and is up to the
//! config, so nothing is claimed here of what comes out of one, only what was
//! asked for: `may_return` and the like name what can come of a call with these
//! arguments, without saying that the same call always comes out the same, nor
//! what the state holds afterwards. What was asked for in which order is what
//! [`crate::state`] keeps.

use vstd::prelude::*;
use vstd::utf8::*;

use crate::limits::{charge, Budget, MAX_TICKS, OVER_BUDGET};
use crate::selection::{Flavours, Selection};
use crate::text::texts;

verus! {

/// A Lua state of `mlua`.
#[verifier::external_type_specification]
#[verifier::external_body]
pub struct ExLua(mlua::Lua);

/// A Lua table.
#[verifier::external_type_specification]
#[verifier::external_body]
pub struct ExTable(mlua::Table);

/// A Lua function.
#[verifier::external_type_specification]
#[verifier::external_body]
pub struct ExFunction(mlua::Function);

/// A Lua string: immutable, and any bytes at all.
#[verifier::external_type_specification]
#[verifier::external_body]
pub struct ExLuaString(mlua::LuaString);

/// A Lua value of any type.
#[verifier::external_type_specification]
#[verifier::external_body]
pub struct ExValue(mlua::Value);

/// An error of the interpreter.
#[verifier::external_type_specification]
#[verifier::external_body]
pub struct ExLuaError(mlua::Error);

/// A walk through the pairs of a table.
#[verifier::external_type_specification]
#[verifier::external_body]
#[verifier::reject_recursive_types(K)]
#[verifier::reject_recursive_types(V)]
pub struct ExTablePairs<'a, K, V>(mlua::table::TablePairs<'a, K, V>);

/// A walk through a list.
#[verifier::external_type_specification]
#[verifier::external_body]
#[verifier::reject_recursive_types(V)]
pub struct ExTableSequence<'a, V>(mlua::table::TableSequence<'a, V>);

/// The table that a walk goes through.
pub uninterp spec fn pairs_of(
    walk: mlua::table::TablePairs<mlua::Value, mlua::Value>,
) -> mlua::Table;

/// The table that a walk for names and strings goes through.
pub uninterp spec fn entries_of(
    walk: mlua::table::TablePairs<String, mlua::LuaString>,
) -> mlua::Table;

/// The list of tables that a walk goes through.
pub uninterp spec fn list_of(walk: mlua::table::TableSequence<mlua::Table>) -> mlua::Table;

/// The bytes of a Lua string.
pub uninterp spec fn lua_bytes(s: mlua::LuaString) -> Seq<u8>;

/// The text of an error of the interpreter.
pub uninterp spec fn lua_message(error: mlua::Error) -> Seq<char>;

/// What a state hands out to refer to something of its own.
pub enum Handle {
    Table(mlua::Table),
    Function(mlua::Function),
    Text(mlua::LuaString),
    Value(mlua::Value),
}

/// Whether a handle is one of this state, so that it can be used with it for as
/// long as the state is there. A value that refers to nothing, such as nil, is
/// one of every state.
pub uninterp spec fn belongs(lua: mlua::Lua, handle: Handle) -> bool;

/// Whether the budget of a state is spent from as it runs, but for its finalizers.
pub uninterp spec fn hooked(lua: mlua::Lua) -> bool;

/// Whether this can be the budget that a state holds, none if it holds none that
/// can be read.
pub uninterp spec fn may_have_budget(lua: mlua::Lua, held: Option<Budget>) -> bool;

/// Whether this can come of giving a state another budget, one that so much was
/// used of.
pub uninterp spec fn may_set_budget(
    lua: mlua::Lua,
    used: nat,
    done: Result<(), mlua::Error>,
) -> bool;

/// The error that a message is raised as.
pub uninterp spec fn raised(message: Seq<char>) -> mlua::Error;

/// Whether this can come of running a source text under a name.
pub uninterp spec fn may_execute(
    lua: mlua::Lua,
    source: Seq<char>,
    name: Seq<char>,
    done: Result<(), mlua::Error>,
) -> bool;

/// Whether this can come of calling a handler with a selection and further
/// arguments. The same call may come out differently another time.
pub uninterp spec fn may_return(
    lua: mlua::Lua,
    handler: mlua::Function,
    incoming: Flavours,
    args: Seq<Option<Seq<u8>>>,
    called: Result<mlua::Value, mlua::Error>,
) -> bool;

/// Whether this can come of making a string.
pub uninterp spec fn may_make_string(
    lua: mlua::Lua,
    bytes: Seq<u8>,
    made: Result<mlua::LuaString, mlua::Error>,
) -> bool;

/// Why bytes are no text.
pub uninterp spec fn text_fault(bytes: Seq<u8>) -> mlua::Error;

/// Whether this can come of starting a state with some libraries.
pub uninterp spec fn may_start(
    libraries: Seq<Library>,
    started: Result<mlua::Lua, mlua::Error>,
) -> bool;

/// Whether this can come of having the budget of a state spent from every so
/// many instructions.
pub uninterp spec fn may_limit_instructions(
    lua: mlua::Lua,
    every: u32,
    done: Result<(), mlua::Error>,
) -> bool;

/// Whether this can come of limiting the memory of a state.
pub uninterp spec fn may_limit_memory(
    lua: mlua::Lua,
    bytes: usize,
    done: Result<usize, mlua::Error>,
) -> bool;

/// Whether this can be the table of globals of a state.
pub uninterp spec fn may_have_globals(lua: mlua::Lua, globals: mlua::Table) -> bool;

/// Whether this can come of making a table.
pub uninterp spec fn may_make_table(
    lua: mlua::Lua,
    made: Result<mlua::Table, mlua::Error>,
) -> bool;

/// Whether this can come of storing something in a table under a name.
pub uninterp spec fn may_store(
    table: mlua::Table,
    key: Seq<char>,
    item: Stored,
    done: Result<(), mlua::Error>,
) -> bool;

/// Whether this can come of storing a value in a table under another.
pub uninterp spec fn may_store_pair(
    table: mlua::Table,
    pair: (mlua::Value, mlua::Value),
    done: Result<(), mlua::Error>,
) -> bool;

/// Whether this can be found next in walking a table, nothing at its end.
pub uninterp spec fn may_find(
    table: mlua::Table,
    found: Option<Result<(mlua::Value, mlua::Value), mlua::Error>>,
) -> bool;

/// Whether this can be found next in walking a table for names and strings,
/// nothing at its end.
pub uninterp spec fn may_find_entry(
    table: mlua::Table,
    found: Option<Result<(String, mlua::LuaString), mlua::Error>>,
) -> bool;

/// Whether this can be found next in walking a list of tables, nothing at its end.
pub uninterp spec fn may_find_next(
    table: mlua::Table,
    found: Option<Result<mlua::Table, mlua::Error>>,
) -> bool;

/// Whether this can come of appending a table to a list of tables.
pub uninterp spec fn may_push(
    table: mlua::Table,
    item: mlua::Table,
    done: Result<(), mlua::Error>,
) -> bool;

/// Whether this can be the length of a table.
pub uninterp spec fn may_have_length(table: mlua::Table, length: usize) -> bool;

/// Whether this can come of removing what a table has at an index.
pub uninterp spec fn may_remove(
    table: mlua::Table,
    index: usize,
    done: Result<(), mlua::Error>,
) -> bool;

/// Whether this can be found when a table is looked up in a table.
pub uninterp spec fn may_hold_table(
    table: mlua::Table,
    key: Seq<char>,
    found: Result<mlua::Table, mlua::Error>,
) -> bool;

/// Whether this can be found when a text is looked up in a table. What a table
/// holds may change.
pub uninterp spec fn may_hold_text(
    table: mlua::Table,
    key: Seq<char>,
    found: Result<Option<String>, mlua::Error>,
) -> bool;

/// Whether this can be found when a list of texts is looked up in a table.
pub uninterp spec fn may_hold_list(
    table: mlua::Table,
    key: Seq<char>,
    found: Result<Option<Vec<String>>, mlua::Error>,
) -> bool;

/// Whether this can be found when a function is looked up in a table.
pub uninterp spec fn may_hold_function(
    table: mlua::Table,
    key: Seq<char>,
    found: Result<Option<mlua::Function>, mlua::Error>,
) -> bool;

/// The bytes of the arguments of a call; nil has none.
pub open spec fn argument_bytes(args: Seq<Option<mlua::LuaString>>) -> Seq<Option<Seq<u8>>> {
    args.map_values(
        |arg: Option<mlua::LuaString>|
            match arg {
                Some(s) => Some(lua_bytes(s)),
                None => None,
            },
    )
}

/// What a Lua value is.
pub uninterp spec fn lua_kind(value: mlua::Value) -> Kind;

/// The string that a Lua value is, where it is one.
pub uninterp spec fn lua_string(value: mlua::Value) -> mlua::LuaString;

/// The table that a Lua value is, where it is one.
pub uninterp spec fn lua_table(value: mlua::Value) -> mlua::Table;

/// What a Lua value can be.
#[derive(Clone, Copy, PartialEq, Eq, Structural, Debug)]
pub enum Kind {
    Nil,
    Boolean,
    LightUserData,
    Integer,
    Number,
    Text,
    Table,
    Function,
    Thread,
    UserData,
    Error,
    Other,
}

/// How Lua calls what a value is.
pub open spec fn kind_name(kind: Kind) -> Seq<char> {
    match kind {
        Kind::Nil => "nil"@,
        Kind::Boolean => "boolean"@,
        Kind::LightUserData => "lightuserdata"@,
        Kind::Integer => "integer"@,
        Kind::Number => "number"@,
        Kind::Text => "string"@,
        Kind::Table => "table"@,
        Kind::Function => "function"@,
        Kind::Thread => "thread"@,
        Kind::UserData => "userdata"@,
        Kind::Error => "error"@,
        Kind::Other => "other"@,
    }
}

impl Kind {
    pub fn name(self) -> (r: &'static str)
        ensures
            r@ == kind_name(self),
    {
        match self {
            Kind::Nil => "nil",
            Kind::Boolean => "boolean",
            Kind::LightUserData => "lightuserdata",
            Kind::Integer => "integer",
            Kind::Number => "number",
            Kind::Text => "string",
            Kind::Table => "table",
            Kind::Function => "function",
            Kind::Thread => "thread",
            Kind::UserData => "userdata",
            Kind::Error => "error",
            Kind::Other => "other",
        }
    }
}

/// The standard libraries that a rule may use.
#[derive(Clone, Copy, PartialEq, Eq, Structural, Debug)]
pub enum Library {
    Strings,
    Tables,
    Maths,
    Utf8,
    Packages,
}

/// A value to store in a table.
pub enum Item {
    Nil,
    Text(String),
    List(Vec<String>),
    Table(mlua::Table),
    Function(mlua::Function),
}

/// What is stored in a table.
pub enum Stored {
    Nil,
    Text(Seq<char>),
    List(Seq<Seq<char>>),
    Table(mlua::Table),
    Function(mlua::Function),
}

impl View for Item {
    type V = Stored;

    open spec fn view(&self) -> Stored {
        match self {
            Item::Nil => Stored::Nil,
            Item::Text(text) => Stored::Text(text@),
            Item::List(list) => Stored::List(texts(list@)),
            Item::Table(table) => Stored::Table(*table),
            Item::Function(function) => Stored::Function(*function),
        }
    }
}

/// Whether what is stored is no handle of another state.
pub open spec fn storable(lua: mlua::Lua, item: Stored) -> bool {
    match item {
        Stored::Table(table) => belongs(lua, Handle::Table(table)),
        Stored::Function(function) => belongs(lua, Handle::Function(function)),
        _ => true,
    }
}

/// Whether the arguments of a call are no handles of another state.
pub open spec fn passable(lua: mlua::Lua, args: Seq<Option<mlua::LuaString>>) -> bool {
    forall|i: int|
        0 <= i < args.len() ==> match #[trigger] args[i] {
            Some(s) => belongs(lua, Handle::Text(s)),
            None => true,
        }
}

/// What can come of a run of the hook: a state without a budget, or with none
/// left, is stopped, and otherwise the budget has been spent from.
pub open spec fn may_tick(lua: mlua::Lua, r: Result<(), mlua::Error>) -> bool {
    exists|held: Option<Budget>| #[trigger]
        may_have_budget(lua, held) && match held {
            Some(budget) if budget.used() < MAX_TICKS => may_set_budget(
                lua,
                budget.used() + 1,
                r,
            ),
            _ => r == Err::<(), mlua::Error>(raised(OVER_BUDGET@)),
        }
}

/// There is one way to succeed with nothing to return.
pub proof fn lemma_done(done: Result<(), mlua::Error>)
    requires
        done is Ok,
    ensures
        done == Ok::<(), mlua::Error>(()),
{
    let nothing = done->Ok_0;
    assert(nothing == ());
}

/// `mlua::Lua::new_with`: a state with the base library and the given ones. The
/// result is something that can come of starting one with these.
#[verifier::external_body]
pub(crate) fn new_state(libraries: &[Library]) -> (r: Result<mlua::Lua, mlua::Error>)
    ensures
        may_start(libraries@, r),
{
    let flags = libraries.iter().map(|library| match library {
        Library::Strings => mlua::StdLib::STRING,
        Library::Tables => mlua::StdLib::TABLE,
        Library::Maths => mlua::StdLib::MATH,
        Library::Utf8 => mlua::StdLib::UTF8,
        Library::Packages => mlua::StdLib::PACKAGE,
    });
    mlua::Lua::new_with(
        flags.fold(mlua::StdLib::NONE, |all, flag| all | flag),
        mlua::LuaOptions::default(),
    )
}

/// `mlua::Lua::set_global_hook`: call `tick` every so many instructions. The
/// result is something that can come of that, and when it succeeds the budget of
/// the state is spent from as it runs. Lua runs finalizers without hooks, and a
/// count of none would never come round.
#[verifier::external_body]
pub(crate) fn limit_instructions(lua: &mlua::Lua, every: u32) -> (r: Result<(), mlua::Error>)
    requires
        every > 0,
    ensures
        may_limit_instructions(*lua, every, r),
        r is Ok ==> hooked(*lua),
{
    lua.set_global_hook(
        mlua::HookTriggers::new().every_nth_instruction(every),
        |lua, _| tick(lua).map(|_| mlua::VmState::Continue),
    )
}

/// One run of the hook of a state.
pub(crate) fn tick(lua: &mlua::Lua) -> (r: Result<(), mlua::Error>)
    ensures
        may_tick(*lua, r),
{
    let held = held_budget(lua);
    match charge(held) {
        Ok(left) => set_budget(lua, left),
        Err(message) => Err(raise(message)),
    }
}

/// `mlua::Lua::try_app_data_ref`: a budget that this state can hold.
#[verifier::external_body]
fn held_budget(lua: &mlua::Lua) -> (r: Option<Budget>)
    ensures
        may_have_budget(*lua, r),
{
    lua.try_app_data_ref::<Budget>().ok().flatten().map(|held| *held)
}

/// `mlua::Lua::try_set_app_data`: the result is something that can come of giving
/// this state this budget in place of an earlier one.
#[verifier::external_body]
pub(crate) fn set_budget(lua: &mlua::Lua, budget: Budget) -> (r: Result<(), mlua::Error>)
    ensures
        may_set_budget(*lua, budget.used(), r),
{
    let refused = |_| mlua::Error::runtime("the instruction budget is in use");
    lua.try_set_app_data(budget).map(|_| ()).map_err(refused)
}

/// `mlua::Error::runtime`: the error that this message is raised as.
#[verifier::external_body]
fn raise(message: String) -> (r: mlua::Error)
    ensures
        r == raised(message@),
{
    mlua::Error::runtime(message)
}

/// `mlua::Lua::set_memory_limit`: the result is something that can come of this
/// limit on this state.
#[verifier::external_body]
pub(crate) fn set_memory_limit(lua: &mlua::Lua, bytes: usize) -> (r: Result<usize, mlua::Error>)
    ensures
        may_limit_memory(*lua, bytes, r),
{
    lua.set_memory_limit(bytes)
}

/// `mlua::Lua::globals`: a table of globals that this state can have. It is one
/// of this state, as is whatever the functions below get from it.
#[verifier::external_body]
pub(crate) fn globals(lua: &mlua::Lua) -> (r: mlua::Table)
    ensures
        may_have_globals(*lua, r),
        belongs(*lua, Handle::Table(r)),
{
    lua.globals()
}

/// `mlua::Lua::create_table`: the result is something that can come of making a
/// table in this state.
#[verifier::external_body]
pub(crate) fn new_table(lua: &mlua::Lua) -> (r: Result<mlua::Table, mlua::Error>)
    ensures
        may_make_table(*lua, r),
        r matches Ok(table) ==> belongs(*lua, Handle::Table(table)),
{
    lua.create_table()
}

/// `mlua::Lua::create_string`: the result is something that can come of making a
/// string of these bytes in this state, and a string holds the bytes it was made
/// from.
#[verifier::external_body]
pub(crate) fn new_string(lua: &mlua::Lua, text: &str) -> (r: Result<mlua::LuaString, mlua::Error>)
    ensures
        may_make_string(*lua, encode_utf8(text@), r),
        r matches Ok(s) ==> lua_bytes(s) == encode_utf8(text@) && belongs(*lua, Handle::Text(s)),
{
    lua.create_string(text)
}

/// `mlua::Table::set`: the result is something that can come of storing this item
/// under this name. Here as below a handle has to be one of the state that is
/// given beside it: `mlua` panics on one of another state or of one that is gone.
/// What has metamethods may run the config's code, so that the state has to be one
/// that spends from its budget.
#[verifier::external_body]
pub(crate) fn set_field(lua: &mlua::Lua, table: &mlua::Table, key: &str, item: Item) -> (r: Result<
    (),
    mlua::Error,
>)
    requires
        hooked(*lua),
        belongs(*lua, Handle::Table(*table)),
        storable(*lua, item@),
    ensures
        may_store(*table, key@, item@, r),
{
    match item {
        Item::Nil => table.set(key, mlua::Value::Nil),
        Item::Text(text) => table.set(key, text),
        Item::List(list) => table.set(key, list),
        Item::Table(inner) => table.set(key, inner),
        Item::Function(function) => table.set(key, function),
    }
}

/// `mlua::Table::set` with a key of any type: the result is something that can
/// come of storing this value under this key.
#[verifier::external_body]
pub(crate) fn set_pair(
    lua: &mlua::Lua,
    table: &mlua::Table,
    pair: (mlua::Value, mlua::Value),
) -> (r: Result<(), mlua::Error>)
    requires
        hooked(*lua),
        belongs(*lua, Handle::Table(*table)),
        belongs(*lua, Handle::Value(pair.0)),
        belongs(*lua, Handle::Value(pair.1)),
    ensures
        may_store_pair(*table, pair, r),
{
    table.set(pair.0, pair.1)
}

/// `mlua::Table::get`, for a table: what can be found in this table under this
/// name.
#[verifier::external_body]
pub(crate) fn table_field(lua: &mlua::Lua, table: &mlua::Table, key: &str) -> (r: Result<
    mlua::Table,
    mlua::Error,
>)
    requires
        hooked(*lua),
        belongs(*lua, Handle::Table(*table)),
    ensures
        may_hold_table(*table, key@, r),
        r matches Ok(found) ==> belongs(*lua, Handle::Table(found)),
{
    table.get(key)
}

/// `mlua::Table::get`, for a text: what can be found in this table under this
/// name, nothing when the field is nil.
#[verifier::external_body]
pub(crate) fn text_field(lua: &mlua::Lua, table: &mlua::Table, key: &str) -> (r: Result<
    Option<String>,
    mlua::Error,
>)
    requires
        hooked(*lua),
        belongs(*lua, Handle::Table(*table)),
    ensures
        may_hold_text(*table, key@, r),
{
    table.get(key)
}

/// `mlua::Table::get`, for a list of texts: what can be found in this table under
/// this name, nothing when the field is nil.
#[verifier::external_body]
pub(crate) fn list_field(lua: &mlua::Lua, table: &mlua::Table, key: &str) -> (r: Result<
    Option<Vec<String>>,
    mlua::Error,
>)
    requires
        hooked(*lua),
        belongs(*lua, Handle::Table(*table)),
    ensures
        may_hold_list(*table, key@, r),
{
    table.get(key)
}

/// `mlua::Table::get`, for a function: what can be found in this table under this
/// name, nothing when the field is nil.
#[verifier::external_body]
pub(crate) fn function_field(lua: &mlua::Lua, table: &mlua::Table, key: &str) -> (r: Result<
    Option<mlua::Function>,
    mlua::Error,
>)
    requires
        hooked(*lua),
        belongs(*lua, Handle::Table(*table)),
    ensures
        may_hold_function(*table, key@, r),
        r matches Ok(Some(found)) ==> belongs(*lua, Handle::Function(found)),
{
    table.get(key)
}

/// `mlua::Table::pairs`: a walk through this table.
#[verifier::external_body]
pub(crate) fn pairs<'a>(lua: &mlua::Lua, table: &'a mlua::Table) -> (r: mlua::table::TablePairs<
    'a,
    mlua::Value,
    mlua::Value,
>)
    requires
        belongs(*lua, Handle::Table(*table)),
    ensures
        pairs_of(r) == *table,
{
    table.pairs()
}

/// `Iterator::next` of `mlua::table::TablePairs`: what can be found next in walking
/// this table, nothing at its end. The walk stays in the table.
#[verifier::external_body]
pub(crate) fn next_pair(
    lua: &mlua::Lua,
    walk: &mut mlua::table::TablePairs<mlua::Value, mlua::Value>,
) -> (r: Option<Result<(mlua::Value, mlua::Value), mlua::Error>>)
    requires
        belongs(*lua, Handle::Table(pairs_of(*old(walk)))),
    ensures
        pairs_of(*final(walk)) == pairs_of(*old(walk)),
        may_find(pairs_of(*old(walk)), r),
        r matches Some(Ok(pair)) ==> belongs(*lua, Handle::Value(pair.0)) && belongs(
            *lua,
            Handle::Value(pair.1),
        ),
{
    walk.next()
}

/// `mlua::Table::pairs`, for names and strings: a walk through this table.
#[verifier::external_body]
pub(crate) fn entries<'a>(lua: &mlua::Lua, table: &'a mlua::Table) -> (r: mlua::table::TablePairs<
    'a,
    String,
    mlua::LuaString,
>)
    requires
        belongs(*lua, Handle::Table(*table)),
    ensures
        entries_of(r) == *table,
{
    table.pairs()
}

/// `Iterator::next` of `mlua::table::TablePairs`, for names and strings: what can be
/// found next in walking this table for them, nothing at its end. The walk stays in
/// the table.
#[verifier::external_body]
pub(crate) fn next_entry(
    lua: &mlua::Lua,
    walk: &mut mlua::table::TablePairs<String, mlua::LuaString>,
) -> (r: Option<Result<(String, mlua::LuaString), mlua::Error>>)
    requires
        belongs(*lua, Handle::Table(entries_of(*old(walk)))),
    ensures
        entries_of(*final(walk)) == entries_of(*old(walk)),
        may_find_entry(entries_of(*old(walk)), r),
        r matches Some(Ok(entry)) ==> belongs(*lua, Handle::Text(entry.1)),
{
    walk.next()
}

/// `mlua::Table::sequence_values`, for tables: a walk through this list.
#[verifier::external_body]
pub(crate) fn list<'a>(lua: &mlua::Lua, table: &'a mlua::Table) -> (r: mlua::table::TableSequence<
    'a,
    mlua::Table,
>)
    requires
        belongs(*lua, Handle::Table(*table)),
    ensures
        list_of(r) == *table,
{
    table.sequence_values()
}

/// `Iterator::next` of `mlua::table::TableSequence`, for tables: what can be found
/// next in walking this list, nothing at its end. The walk stays in the list.
#[verifier::external_body]
pub(crate) fn next_table(
    lua: &mlua::Lua,
    walk: &mut mlua::table::TableSequence<mlua::Table>,
) -> (r: Option<Result<mlua::Table, mlua::Error>>)
    requires
        belongs(*lua, Handle::Table(list_of(*old(walk)))),
    ensures
        list_of(*final(walk)) == list_of(*old(walk)),
        may_find_next(list_of(*old(walk)), r),
        r matches Some(Ok(found)) ==> belongs(*lua, Handle::Table(found)),
{
    walk.next()
}

/// `mlua::Table::push`: the result is something that can come of appending this
/// table to this list.
#[verifier::external_body]
pub(crate) fn push_table(lua: &mlua::Lua, table: &mlua::Table, item: mlua::Table) -> (r: Result<
    (),
    mlua::Error,
>)
    requires
        hooked(*lua),
        belongs(*lua, Handle::Table(*table)),
        belongs(*lua, Handle::Table(item)),
    ensures
        may_push(*table, item, r),
{
    table.push(item)
}

/// `mlua::Table::raw_len`: a length that this table can have.
#[verifier::external_body]
pub(crate) fn raw_len(lua: &mlua::Lua, table: &mlua::Table) -> (r: usize)
    requires
        belongs(*lua, Handle::Table(*table)),
    ensures
        may_have_length(*table, r),
{
    table.raw_len()
}

/// `mlua::Table::raw_remove`: the result is something that can come of removing
/// what this table has at this index.
#[verifier::external_body]
pub(crate) fn raw_remove(lua: &mlua::Lua, table: &mlua::Table, index: usize) -> (r: Result<
    (),
    mlua::Error,
>)
    requires
        belongs(*lua, Handle::Table(*table)),
    ensures
        may_remove(*table, index, r),
{
    table.raw_remove(index)
}

/// `mlua::Chunk::exec` on a source text under a name: the result is something that
/// can come of running this text under this name. The state has to be one that
/// spends from its budget, so that an endless loop is stopped. Nothing is said of
/// code that catches the error which stops it and goes on: it is stopped again and
/// again, but need not end. A finalizer runs without the hook, so that one which
/// does not end is never stopped.
#[verifier::external_body]
pub(crate) fn execute(lua: &mlua::Lua, source: &str, name: &str) -> (r: Result<(), mlua::Error>)
    requires
        hooked(*lua),
    ensures
        may_execute(*lua, source@, name@, r),
{
    lua.load(source).set_name(name).exec()
}

/// `mlua::Function::call` on a selection, which Lua can read for as long as the
/// call takes, and further arguments: the result is something that can come of
/// calling this handler with these, and a value is one of this state. As for
/// `execute`, the state has to be one that spends from its budget, and nothing is
/// said of code that catches the error which stops it, nor of finalizers.
#[verifier::external_body]
pub(crate) fn call_handler(
    lua: &mlua::Lua,
    handler: &mlua::Function,
    incoming: &Selection,
    args: Vec<Option<mlua::LuaString>>,
) -> (r: Result<mlua::Value, mlua::Error>)
    requires
        hooked(*lua),
        belongs(*lua, Handle::Function(*handler)),
        passable(*lua, args@),
    ensures
        may_return(*lua, *handler, incoming@, argument_bytes(args@), r),
        r matches Ok(value) ==> belongs(*lua, Handle::Value(value)),
{
    lua.scope(|scope| {
        let incoming = scope.create_any_userdata_ref(incoming)?;
        handler.call((incoming, mlua::Variadic::from_iter(args)))
    })
}

/// The variant of a `mlua::Value`.
#[verifier::external_body]
pub(crate) fn kind_of(value: &mlua::Value) -> (r: Kind)
    ensures
        r == lua_kind(*value),
{
    match value {
        mlua::Value::Nil => Kind::Nil,
        mlua::Value::Boolean(_) => Kind::Boolean,
        mlua::Value::LightUserData(_) => Kind::LightUserData,
        mlua::Value::Integer(_) => Kind::Integer,
        mlua::Value::Number(_) => Kind::Number,
        mlua::Value::String(_) => Kind::Text,
        mlua::Value::Table(_) => Kind::Table,
        mlua::Value::Function(_) => Kind::Function,
        mlua::Value::Thread(_) => Kind::Thread,
        mlua::Value::UserData(_) => Kind::UserData,
        mlua::Value::Error(_) => Kind::Error,
        mlua::Value::Other(_) => Kind::Other,
    }
}

/// `mlua::Value::as_string`: the string that a value is, if it is one.
#[verifier::external_body]
pub(crate) fn as_string(lua: &mlua::Lua, value: mlua::Value) -> (r: Option<mlua::LuaString>)
    requires
        belongs(*lua, Handle::Value(value)),
    ensures
        r == if lua_kind(value) == Kind::Text {
            Some(lua_string(value))
        } else {
            None
        },
        r matches Some(s) ==> belongs(*lua, Handle::Text(s)),
{
    value.as_string().cloned()
}

/// `mlua::Value::as_table`: the table that a value is, if it is one.
#[verifier::external_body]
pub(crate) fn as_table(lua: &mlua::Lua, value: mlua::Value) -> (r: Option<mlua::Table>)
    requires
        belongs(*lua, Handle::Value(value)),
    ensures
        r == if lua_kind(value) == Kind::Table {
            Some(lua_table(value))
        } else {
            None
        },
        r matches Some(table) ==> belongs(*lua, Handle::Table(table)),
{
    value.as_table().cloned()
}

/// `mlua::LuaString::as_bytes`: the bytes of this string.
#[verifier::external_body]
pub(crate) fn string_bytes(lua: &mlua::Lua, s: &mlua::LuaString) -> (r: Vec<u8>)
    requires
        belongs(*lua, Handle::Text(*s)),
    ensures
        r@ == lua_bytes(*s),
{
    s.as_bytes().to_vec()
}

/// `mlua::LuaString::to_str`: the text that the bytes of this string are in UTF-8,
/// or why they are none, which is a matter of the bytes alone.
#[verifier::external_body]
pub(crate) fn string_text(lua: &mlua::Lua, s: &mlua::LuaString) -> (r: Result<String, mlua::Error>)
    requires
        belongs(*lua, Handle::Text(*s)),
    ensures
        match r {
            Ok(text) => valid_utf8(lua_bytes(*s)) && text@ == decode_utf8(lua_bytes(*s)),
            Err(error) => !valid_utf8(lua_bytes(*s)) && error == text_fault(lua_bytes(*s)),
        },
{
    s.to_str().map(|text| text.to_string())
}

/// The `Clone` of `mlua::Lua`: another reference to the same state.
#[verifier::external_body]
pub(crate) fn same_state(lua: &mlua::Lua) -> (r: mlua::Lua)
    ensures
        r == *lua,
{
    lua.clone()
}

/// The `Display` of `mlua::Error`: its text is a matter of the error alone.
#[verifier::external_body]
pub(crate) fn error_text(error: &mlua::Error) -> (r: String)
    ensures
        r@ == lua_message(*error),
{
    error.to_string()
}

/// The kinds of values are called as Lua calls them, each by a name of its own.
pub proof fn law_kinds_have_names_of_their_own(a: Kind, b: Kind)
    ensures
        kind_name(a) == kind_name(b) ==> a == b,
        kind_name(Kind::Nil) == "nil"@,
        kind_name(Kind::Boolean) == "boolean"@,
        kind_name(Kind::Integer) == "integer"@,
        kind_name(Kind::Number) == "number"@,
        kind_name(Kind::Text) == "string"@,
        kind_name(Kind::Table) == "table"@,
        kind_name(Kind::Function) == "function"@,
        kind_name(Kind::UserData) == "userdata"@,
{
    reveal_strlit("nil");
    reveal_strlit("boolean");
    reveal_strlit("lightuserdata");
    reveal_strlit("integer");
    reveal_strlit("number");
    reveal_strlit("string");
    reveal_strlit("table");
    reveal_strlit("function");
    reveal_strlit("thread");
    reveal_strlit("userdata");
    reveal_strlit("error");
    reveal_strlit("other");
    let x = kind_name(a);
    let y = kind_name(b);
    if x == y {
        assert(x.len() == y.len() && x[0] == y[0]);
    }
}

/// A run of the hook stops a state whose budget is used up, after a hundred runs, and
/// one that has none; any other has one run less left after it.
pub proof fn law_the_hook_stops_what_is_over_budget(lua: mlua::Lua, r: Result<(), mlua::Error>)
    requires
        may_tick(lua, r),
    ensures
        exists|held: Option<Budget>| #[trigger]
            may_have_budget(lua, held) && match held {
                Some(budget) => if budget.used() < 100 {
                    may_set_budget(lua, budget.used() + 1, r)
                } else {
                    r == Err::<(), mlua::Error>(raised(OVER_BUDGET@))
                },
                None => r == Err::<(), mlua::Error>(raised(OVER_BUDGET@)),
            },
{
    let held = choose|held: Option<Budget>| #[trigger]
        may_have_budget(lua, held) && match held {
            Some(budget) if budget.used() < MAX_TICKS => may_set_budget(
                lua,
                budget.used() + 1,
                r,
            ),
            _ => r == Err::<(), mlua::Error>(raised(OVER_BUDGET@)),
        };
    assert(may_have_budget(lua, held));
}

/// The arguments of a call are the bytes of each string, in order, and nil for none.
pub proof fn law_arguments_are_the_bytes_of_strings(args: Seq<Option<mlua::LuaString>>)
    ensures
        argument_bytes(args).len() == args.len(),
        forall|i: int|
            0 <= i < args.len() ==> match args[i] {
                Some(s) => #[trigger] argument_bytes(args)[i] == Some(lua_bytes(s)),
                None => argument_bytes(args)[i] is None,
            },
{
}

} // verus!
