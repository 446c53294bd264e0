//! What a config sees of clipmunge: the `clipmunge` table, the incoming
//! selection, and a Lua state that is limited in libraries, time and memory.

use mlua::UserDataMethods;
use vstd::prelude::*;
use vstd::utf8::*;

use crate::interpreter::{belongs, hooked, lemma_done, pairs_of, Handle, Item, Library, Stored};
use crate::limits::MEMORY_LIMIT;
use crate::markup::{
    escaped, html_escape, law_the_flavours_of_a_link, link, link_flavours,
};
use crate::paths::{byte_strings, config_dirs, directories};
use crate::selection::{
    law_text_is_that_of_the_first_name, lookup, mimes_of, text_of, Selection,
};
use crate::state::{in_order, lemma_one_step_each, passes, took, up_to_a_fault, State, Step};
use crate::text::{
    join, join_texts, lemma_encoding_is_injective, lossy, lossy_text, names, push_text, texts,
};
use crate::urlclean::{cleaned, default_junk, strip_params, DEFAULT_JUNK};

verus! {

broadcast use vstd::string::group_string_axioms;

/// The libraries that a config gets besides the base library (print, pairs,
/// pcall, setmetatable, ...), which every state has. Clearing globals would
/// leave a library accessible through package.loaded, so the others are never
/// loaded. There are no coroutines: they would escape the instruction hook.
pub const RULE_LIBRARIES: [Library; 5] = [
    Library::Strings,
    Library::Tables,
    Library::Maths,
    Library::Utf8,
    Library::Packages,
];

/// Direct code-loading functions and explicit GC control, which are removed.
pub const REMOVED_GLOBALS: [&'static str; 4] = ["dofile", "loadfile", "load", "collectgarbage"];

/// The searchers of `require` that stay: preload and the Lua file searcher, not
/// the C searcher and the all-in-one loader.
pub const KEPT_SEARCHERS: usize = 2;

/// A function that a config can call.
pub enum ApiFunction {
    /// Put a rule into a table, as `collect_rule` does.
    Rule(mlua::Table),
    /// Put settings into a table, as `merge_settings` does.
    Settings(mlua::Table),
    /// Escape a text for HTML with `html_escape`.
    Escape,
    /// Make a table of the flavours of a link, as `link_table` does.
    Link,
    /// Clean a URL with `strip`.
    Strip,
}

/// What a handler can ask of the incoming selection.
#[derive(Clone, Copy, PartialEq, Eq, Structural, Debug)]
pub enum SelectionMethod {
    /// The text, without the trimming used for matching: `plain_text`.
    Text,
    /// The payload of a flavour, any bytes at all: `payload_of`.
    Get,
    /// Whether there is a flavour, without copying it into Lua: `Selection::has`.
    Has,
    /// The names of the flavours: `mime_list`.
    Mimes,
}

/// The methods of the incoming selection, by name. None of them changes it.
pub const SELECTION_METHODS: [(&'static str, SelectionMethod); 4] = [
    ("text", SelectionMethod::Text),
    ("get", SelectionMethod::Get),
    ("has", SelectionMethod::Has),
    ("mimes", SelectionMethod::Mimes),
];

/// Methods of a selection with their names as texts.
pub open spec fn offered(methods: Seq<(&'static str, SelectionMethod)>) -> Seq<
    (Seq<char>, SelectionMethod),
> {
    methods.map_values(|method: (&'static str, SelectionMethod)| (method.0@, method.1))
}

/// Whether this can come of making a function for a config.
pub uninterp spec fn may_make_function(
    lua: mlua::Lua,
    function: ApiFunction,
    made: Result<mlua::Function, mlua::Error>,
) -> bool;

/// Whether this can come of telling a state which methods a selection offers.
pub uninterp spec fn may_register(
    lua: mlua::Lua,
    methods: Seq<(Seq<char>, SelectionMethod)>,
    done: Result<(), mlua::Error>,
) -> bool;

/// `mlua::Lua::create_function`: declare a rule. As with the functions below, the
/// result is something that can come of making this function in this state, and
/// the function is one of this state. What it is given when it is called, Lua has
/// from the same state, which is one that spends from its budget. Nothing is said
/// of what calling it does, which is left to the config.
#[verifier::external_body]
pub(crate) fn rule_function(lua: &mlua::Lua, collected: &mlua::Table) -> (r: Result<
    mlua::Function,
    mlua::Error,
>)
    requires
        hooked(*lua),
        belongs(*lua, Handle::Table(*collected)),
    ensures
        may_make_function(*lua, ApiFunction::Rule(*collected), r),
        r matches Ok(function) ==> belongs(*lua, Handle::Function(function)),
{
    let sink = collected.clone();
    lua.create_function(move |lua, rule: mlua::Table| {
        collect_rule(&mut State::within(lua), &sink, rule)
    })
}

/// `mlua::Lua::create_function`: change settings.
#[verifier::external_body]
pub(crate) fn settings_function(lua: &mlua::Lua, settings: &mlua::Table) -> (r: Result<
    mlua::Function,
    mlua::Error,
>)
    requires
        hooked(*lua),
        belongs(*lua, Handle::Table(*settings)),
    ensures
        may_make_function(*lua, ApiFunction::Settings(*settings), r),
        r matches Ok(function) ==> belongs(*lua, Handle::Function(function)),
{
    let store = settings.clone();
    lua.create_function(move |lua, given: mlua::Table| {
        merge_settings(&mut State::within(lua), &store, &given)
    })
}

/// `mlua::Lua::create_function`: escape a text for HTML.
#[verifier::external_body]
pub(crate) fn escape_function(lua: &mlua::Lua) -> (r: Result<mlua::Function, mlua::Error>)
    ensures
        may_make_function(*lua, ApiFunction::Escape, r),
        r matches Ok(function) ==> belongs(*lua, Handle::Function(function)),
{
    lua.create_function(|_, text: String| Ok(html_escape(&text)))
}

/// `mlua::Lua::create_function`: make the flavours of a link.
#[verifier::external_body]
pub(crate) fn link_function(lua: &mlua::Lua) -> (r: Result<mlua::Function, mlua::Error>)
    requires
        hooked(*lua),
    ensures
        may_make_function(*lua, ApiFunction::Link, r),
        r matches Ok(function) ==> belongs(*lua, Handle::Function(function)),
{
    lua.create_function(|lua, (url, text): (String, Option<String>)| {
        link_table(&mut State::within(lua), url, text)
    })
}

/// `mlua::Lua::create_function`: clean a URL.
#[verifier::external_body]
pub(crate) fn strip_function(lua: &mlua::Lua) -> (r: Result<mlua::Function, mlua::Error>)
    ensures
        may_make_function(*lua, ApiFunction::Strip, r),
        r matches Ok(function) ==> belongs(*lua, Handle::Function(function)),
{
    lua.create_function(|_, (url, list): (String, Option<Vec<String>>)| Ok(strip(url, list)))
}

/// `mlua::Lua::register_userdata_type`: what a handler can ask of the incoming
/// selection, each method under its name. The result is something that can come of
/// registering these methods in this state.
#[verifier::external_body]
pub(crate) fn register_selection(
    lua: &mlua::Lua,
    methods: &[(&'static str, SelectionMethod)],
) -> (r: Result<(), mlua::Error>)
    ensures
        may_register(*lua, offered(methods@), r),
{
    lua.register_userdata_type::<Selection>(|all| {
        methods.iter().for_each(|(name, method)| match method {
            SelectionMethod::Text => all.add_method(*name, |_, s, ()| Ok(plain_text(s))),
            SelectionMethod::Get => all.add_method(*name, |_, s, mime: String| {
                Ok(payload_of(s, &mime).map(mlua::BString::from))
            }),
            SelectionMethod::Has => all.add_method(*name, |_, s, m: String| Ok(s.has(&m))),
            SelectionMethod::Mimes => all.add_method(*name, |_, s, ()| Ok(mime_list(s))),
        });
    })
}

/// The text of a selection, as it is.
pub fn plain_text(selection: &Selection) -> (r: Option<String>)
    ensures
        match r {
            Some(text) => text_of(selection@) == Some(text@),
            None => text_of(selection@) is None,
        },
{
    match selection.text() {
        Some(text) => Some(text.to_string()),
        None => None,
    }
}

/// The payload of a flavour of a selection, as it is.
pub fn payload_of(selection: &Selection, mime: &str) -> (r: Option<Vec<u8>>)
    ensures
        match r {
            Some(data) => lookup(selection@, mime@) == Some(data@),
            None => lookup(selection@, mime@) is None,
        },
{
    match selection.get(mime) {
        Some(data) => Some(vstd::slice::slice_to_vec(data)),
        None => None,
    }
}

/// The names of the flavours of a selection, in its order.
pub fn mime_list(selection: &Selection) -> (r: Vec<String>)
    ensures
        texts(r@) == mimes_of(selection@),
{
    let mimes = selection.mimes();
    let mut out: Vec<String> = Vec::new();
    for mime in it: mimes
        invariant
            it.seq() == mimes@,
            mimes@.map_values(|m: &str| m@) == mimes_of(selection@),
            out@.len() == it.index(),
            forall|i: int| 0 <= i < out@.len() ==> (#[trigger] out@[i])@ == mimes@[i]@,
    {
        assert(mimes@[out@.len() as int] == mime);
        out.push(mime.to_string());
    }
    assert(texts(out@) =~= mimes@.map_values(|m: &str| m@));
    out
}

/// Put a declared rule behind those declared before it.
pub(crate) fn collect_rule(state: &mut State, collected: &mlua::Table, rule: mlua::Table) -> (r:
    Result<(), mlua::Error>)
    requires
        belongs(old(state).lua(), Handle::Table(*collected)),
        belongs(old(state).lua(), Handle::Table(rule)),
    ensures
        took(*old(state), *final(state), Step::Append(*collected, rule, r)),
{
    state.push_table(collected, rule)
}

/// What can come of going on to the next setting of a table and copying it into
/// another: nothing more at the end.
pub open spec fn may_copy(
    before: State,
    after: State,
    store: mlua::Table,
    given: mlua::Table,
    copied: Option<Result<(), mlua::Error>>,
) -> bool {
    exists|mid: State, found: Option<Result<(mlua::Value, mlua::Value), mlua::Error>>| #[trigger]
        took(before, mid, Step::Pair(given, found)) && match found {
            None => copied is None && after == mid,
            Some(Err(error)) => copied == Some(Err::<(), mlua::Error>(error)) && after == mid,
            Some(Ok(pair)) => exists|done: Result<(), mlua::Error>| #[trigger]
                took(mid, after, Step::StorePair(store, pair, done)) && copied == Some(done),
        }
}

/// Whether settings were copied between these states one by one, up to the end or
/// the first fault.
pub open spec fn copied_in_order(
    states: Seq<State>,
    store: mlua::Table,
    given: mlua::Table,
    r: Result<(), mlua::Error>,
) -> bool {
    let last = states.len() - 1;
    let more = Some(Ok::<(), mlua::Error>(()));
    ||| {
        &&& last >= 1
        &&& forall|i: int|
            0 <= i < last - 1 ==> may_copy(
                #[trigger] states[i],
                states[i + 1],
                store,
                given,
                more,
            )
        &&& may_copy(
            states[last - 1],
            states[last],
            store,
            given,
            match r {
                Ok(_) => None,
                Err(_) => Some(r),
            },
        )
    }
    ||| {
        &&& last == usize::MAX && r is Ok
        &&& forall|i: int|
            0 <= i < last ==> may_copy(#[trigger] states[i], states[i + 1], store, given, more)
    }
}

/// What can come of merging settings: the given table is walked, and each setting
/// is copied as it is found.
pub open spec fn may_merge(
    before: State,
    after: State,
    store: mlua::Table,
    given: mlua::Table,
    r: Result<(), mlua::Error>,
) -> bool {
    exists|start: State| #[trigger]
        took(before, start, Step::Walk(given)) && exists|states: Seq<State>| #[trigger]
            passes(states, start, after) && copied_in_order(states, store, given, r)
}

/// Settings given later replace earlier ones of the same name.
pub(crate) fn merge_settings(state: &mut State, store: &mlua::Table, given: &mlua::Table) -> (r:
    Result<(), mlua::Error>)
    requires
        belongs(old(state).lua(), Handle::Table(*store)),
        belongs(old(state).lua(), Handle::Table(*given)),
    ensures
        may_merge(*old(state), *final(state), *store, *given, r),
{
    let ghost lua = state.lua();
    let ghost before = *state;
    let mut walk = state.pairs(given);
    let ghost start = *state;
    let ghost mut states = seq![*state];
    let mut count: usize = 0;
    while count < usize::MAX
        invariant
            before == *old(state),
            took(before, start, Step::Walk(*given)),
            belongs(lua, Handle::Table(*store)),
            belongs(lua, Handle::Table(*given)),
            state.lua() == lua,
            pairs_of(walk) == *given,
            states.len() == count + 1,
            passes(states, start, *state),
            forall|i: int|
                0 <= i < count ==> may_copy(
                    #[trigger] states[i],
                    states[i + 1],
                    *store,
                    *given,
                    Some(Ok::<(), mlua::Error>(())),
                ),
        decreases usize::MAX - count,
    {
        let ghost from = *state;
        assert(states[count as int] == from);
        match state.next_pair(&mut walk) {
            Some(Ok(pair)) => {
                let done = state.set_pair(store, pair);
                assert(may_copy(from, *state, *store, *given, Some(done)));
                proof {
                    states = states.push(*state);
                }
                if done.is_err() {
                    assert(passes(states, start, *state));
                    return done;
                }
                proof {
                    lemma_done(done);
                }
            },
            Some(Err(error)) => {
                let r = Err(error);
                assert(may_copy(from, *state, *store, *given, Some(r)));
                proof {
                    states = states.push(*state);
                }
                assert(passes(states, start, *state));
                return r;
            },
            None => {
                assert(may_copy(from, *state, *store, *given, None));
                proof {
                    states = states.push(*state);
                }
                assert(passes(states, start, *state));
                return Ok(());
            },
        }
        count += 1;
    }
    Ok(())
}

/// What can come of storing texts in a table under their names, in turn.
pub open spec fn may_store_texts(
    before: State,
    after: State,
    table: mlua::Table,
    entries: Seq<(Seq<char>, Seq<char>)>,
    r: Result<(), mlua::Error>,
) -> bool {
    up_to_a_fault(
        before,
        after,
        entries,
        |from: State, to: State, entry: (Seq<char>, Seq<char>), done|
            took(from, to, Step::Store(table, entry.0, Stored::Text(entry.1), done)),
        r,
    )
}

/// What can come of making a table of a link: a new table that the flavours of
/// the link were stored in, or the first fault.
pub open spec fn may_link(
    before: State,
    after: State,
    url: Seq<char>,
    text: Option<Seq<char>>,
    r: Result<mlua::Table, mlua::Error>,
) -> bool {
    exists|mid: State, made: Result<mlua::Table, mlua::Error>| #[trigger]
        took(before, mid, Step::MakeTable(made)) && match made {
            Err(_) => r == made && after == mid,
            Ok(table) => exists|done: Result<(), mlua::Error>| #[trigger]
                may_store_texts(mid, after, table, link_flavours(url, text), done) && match done {
                    Err(error) => r == Err::<mlua::Table, mlua::Error>(error),
                    Ok(_) => r == made,
                },
        }
}

/// Store the flavours of a link in a table.
fn store_link(state: &mut State, table: &mlua::Table, url: &str, text: Option<&str>) -> (r: Result<
    (),
    mlua::Error,
>)
    requires
        belongs(old(state).lua(), Handle::Table(*table)),
    ensures
        may_store_texts(
            *old(state),
            *final(state),
            *table,
            link_flavours(
                url@,
                match text {
                    Some(t) => Some(t@),
                    None => None,
                },
            ),
            r,
        ),
        final(state).lua() == old(state).lua(),
{
    let flavours = link(url, text);
    let ghost lua = state.lua();
    let ghost before = *state;
    let ghost mut states = seq![*state];
    let ghost entries = flavours@.map_values(|f: (&'static str, String)| (f.0@, f.1@));
    for flavour in it: flavours
        invariant
            it.seq() == flavours@,
            before == *old(state),
            state.lua() == lua,
            lua == before.lua(),
            belongs(lua, Handle::Table(*table)),
            entries == flavours@.map_values(|f: (&'static str, String)| (f.0@, f.1@)),
            entries == link_flavours(
                url@,
                match text {
                    Some(t) => Some(t@),
                    None => None,
                },
            ),
            states.len() == it.index() + 1,
            passes(states, before, *state),
            forall|i: int|
                0 <= i < it.index() ==> took(
                    states[i],
                    states[i + 1],
                    Step::Store(
                        *table,
                        (#[trigger] entries[i]).0,
                        Stored::Text(entries[i].1),
                        Ok(()),
                    ),
                ),
    {
        assert(entries[it.index()] == (flavour.0@, flavour.1@));
        let ghost from = *state;
        assert(states[it.index()] == from);
        let done = state.set_field(table, flavour.0, Item::Text(flavour.1));
        proof {
            states = states.push(*state);
        }
        if done.is_err() {
            assert(passes(states, before, *state));
            return done;
        }
        proof {
            lemma_done(done);
        }
    }
    Ok(())
}

/// The flavours of a link as a table.
pub(crate) fn link_table(state: &mut State, url: String, text: Option<String>) -> (r: Result<
    mlua::Table,
    mlua::Error,
>)
    ensures
        may_link(
            *old(state),
            *final(state),
            url@,
            match text {
                Some(text) => Some(text@),
                None => None,
            },
            r,
        ),
        r matches Ok(table) ==> belongs(final(state).lua(), Handle::Table(table)),
{
    let table = state.new_table()?;
    match &text {
        Some(text) => store_link(state, &table, url.as_str(), Some(text.as_str()))?,
        None => store_link(state, &table, url.as_str(), None)?,
    }
    Ok(table)
}

/// The patterns to clean a URL with: the given ones, or the default list.
pub open spec fn patterns_or_default(list: Option<Vec<String>>) -> Seq<Seq<char>> {
    match list {
        Some(list) => texts(list@),
        None => names(DEFAULT_JUNK@),
    }
}

/// Clean a URL with a list of patterns or the default list: the cleaned URL
/// and the dropped keys, or nothing when there is nothing to clean.
pub fn strip(url: String, list: Option<Vec<String>>) -> (r: (Option<String>, Option<Vec<String>>))
    ensures
        match r {
            (Some(clean), Some(dropped)) => cleaned(url@, patterns_or_default(list)) == Some(
                (clean@, texts(dropped@)),
            ),
            (None, None) => cleaned(url@, patterns_or_default(list)) is None,
            _ => false,
        },
{
    let patterns = match list {
        Some(list) => list,
        None => default_junk(),
    };
    match strip_params(url.as_str(), patterns.as_slice()) {
        Some((clean, dropped)) => (Some(clean), Some(dropped)),
        None => (None, None),
    }
}

// ------------------------------------------------------------ search path

/// Where modules beside a directory's config are found.
pub open spec fn search_entry(dir: Seq<u8>) -> Seq<char> {
    lossy_text(dir) + "/?.lua;"@ + lossy_text(dir) + "/?/init.lua"@
}

/// The module search path for a config under a given path that resolves to
/// another: beside both of them.
pub open spec fn search_path(given: Seq<u8>, resolved: Seq<u8>) -> Seq<char> {
    join(config_dirs(given, resolved).map_values(|d: Seq<u8>| search_entry(d)), ';')
}

/// Search beside both the given and resolved config paths.
/// Dotfiles repositories keep modules beside the target; config managers
/// may publish separate module symlinks beside the given path.
pub fn require_path(given: &[u8], resolved: &[u8]) -> (r: String)
    ensures
        r@ == search_path(given@, resolved@),
{
    let dirs = directories(given, resolved);
    let ghost all = config_dirs(given@, resolved@);
    let mut entries: Vec<String> = Vec::new();
    let mut i: usize = 0;
    while i < dirs.len()
        invariant
            i <= dirs.len(),
            byte_strings(dirs@) == all,
            entries@.len() == i,
            forall|j: int| 0 <= j < i ==> (#[trigger] entries@[j])@ == search_entry(all[j]),
        decreases dirs.len() - i,
    {
        let dir = lossy(dirs[i].as_slice());
        let mut entry = String::new();
        push_text(&mut entry, dir.as_str());
        push_text(&mut entry, "/?.lua;");
        push_text(&mut entry, dir.as_str());
        push_text(&mut entry, "/?/init.lua");
        assert(all[i as int] == dirs@[i as int]@);
        assert(entry@ =~= search_entry(all[i as int]));
        entries.push(entry);
        i += 1;
    }
    assert(texts(entries@) =~= all.map_values(|d: Seq<u8>| search_entry(d)));
    join_texts(entries.as_slice(), ';')
}

// ------------------------------------------------------------------ set up

/// What can come of limiting the memory of a state: why it cannot be limited, if it
/// cannot.
pub open spec fn may_limit(before: State, after: State, r: Option<mlua::Error>) -> bool {
    exists|limited: Result<usize, mlua::Error>| #[trigger]
        took(before, after, Step::LimitMemory(MEMORY_LIMIT, limited)) && r == match limited {
            Ok(_) => None,
            Err(error) => Some(error),
        }
}

/// Limit the memory of a state, whose instructions are limited from the start. One
/// whose memory cannot be limited is still usable: why it cannot is handed back.
pub(crate) fn install_limits(state: &mut State) -> (r: Option<mlua::Error>)
    ensures
        may_limit(*old(state), *final(state), r),
{
    match state.limit_memory(MEMORY_LIMIT) {
        Ok(_) => None,
        Err(error) => Some(error),
    }
}

/// Where a change of the sandbox is made.
#[derive(Clone, Copy, PartialEq, Eq, Structural, Debug)]
pub enum Place {
    Globals,
    /// The `package` table among the globals.
    Package,
}

/// A value that the sandbox sets: a text, or nil.
pub struct Change {
    pub place: Place,
    pub key: &'static str,
    pub value: Option<String>,
}

impl View for Change {
    type V = (Place, Seq<char>, Option<Seq<char>>);

    open spec fn view(&self) -> (Place, Seq<char>, Option<Seq<char>>) {
        (
            self.place,
            self.key@,
            match self.value {
                Some(text) => Some(text@),
                None => None,
            },
        )
    }
}

/// What the sandbox changes: the removed globals are nil, C modules have no
/// path and no loader, and Lua modules are found beside the config.
pub open spec fn sandboxed(given: Seq<u8>, resolved: Seq<u8>) -> Seq<
    (Place, Seq<char>, Option<Seq<char>>),
> {
    names(REMOVED_GLOBALS@).map_values(
        |name: Seq<char>| (Place::Globals, name, None::<Seq<char>>),
    ) + seq![
        (Place::Package, "cpath"@, Some(""@)),
        (Place::Package, "loadlib"@, None),
        (Place::Package, "path"@, Some(search_path(given, resolved))),
    ]
}

/// The changes that make the sandbox.
pub fn sandbox_changes(given: &[u8], resolved: &[u8]) -> (r: Vec<Change>)
    ensures
        r@.map_values(|c: Change| c@) == sandboxed(given@, resolved@),
{
    let mut out: Vec<Change> = Vec::new();
    let removed = REMOVED_GLOBALS.as_slice();
    let mut i: usize = 0;
    while i < removed.len()
        invariant
            i <= removed.len(),
            removed@ == REMOVED_GLOBALS@,
            out@.len() == i,
            forall|j: int|
                0 <= j < i ==> (#[trigger] out@[j])@ == (
                    Place::Globals,
                    removed@[j]@,
                    None::<Seq<char>>,
                ),
        decreases removed.len() - i,
    {
        out.push(Change { place: Place::Globals, key: removed[i], value: None });
        i += 1;
    }
    out.push(Change { place: Place::Package, key: "cpath", value: Some("".to_string()) });
    out.push(Change { place: Place::Package, key: "loadlib", value: None });
    let path = require_path(given, resolved);
    out.push(Change { place: Place::Package, key: "path", value: Some(path) });
    assert(out@.map_values(|c: Change| c@) =~= sandboxed(given@, resolved@));
    out
}

/// The searchers to remove, from the last one on, of so many.
pub open spec fn surplus(count: usize) -> Seq<usize> {
    if count <= KEPT_SEARCHERS {
        Seq::empty()
    } else {
        Seq::new((count - KEPT_SEARCHERS) as nat, |i: int| (count - i) as usize)
    }
}

/// The searchers to remove, from the last one on, of so many.
pub fn surplus_searchers(count: usize) -> (r: Vec<usize>)
    ensures
        r@ == surplus(count),
{
    let mut out: Vec<usize> = Vec::new();
    let mut last = count;
    while last > KEPT_SEARCHERS
        invariant
            last <= count,
            count > KEPT_SEARCHERS ==> last >= KEPT_SEARCHERS,
            count <= KEPT_SEARCHERS ==> last == count,
            out@.len() == count - last,
            forall|i: int| 0 <= i < out@.len() ==> #[trigger] out@[i] == count - i,
        decreases last,
    {
        out.push(last);
        last -= 1;
    }
    assert(out@ =~= surplus(count));
    out
}

/// What can come of one change of the sandbox.
pub open spec fn may_change(
    before: State,
    after: State,
    globals: mlua::Table,
    package: mlua::Table,
    change: (Place, Seq<char>, Option<Seq<char>>),
    done: Result<(), mlua::Error>,
) -> bool {
    took(
        before,
        after,
        Step::Store(
            match change.0 {
                Place::Globals => globals,
                Place::Package => package,
            },
            change.1,
            match change.2 {
                Some(text) => Stored::Text(text),
                None => Stored::Nil,
            },
            done,
        ),
    )
}

/// What can come of making the changes of the sandbox in turn.
pub open spec fn may_change_all(
    before: State,
    after: State,
    globals: mlua::Table,
    package: mlua::Table,
    changes: Seq<(Place, Seq<char>, Option<Seq<char>>)>,
    r: Result<(), mlua::Error>,
) -> bool {
    up_to_a_fault(
        before,
        after,
        changes,
        |from: State, to: State, change: (Place, Seq<char>, Option<Seq<char>>), done|
            may_change(from, to, globals, package, change, done),
        r,
    )
}

/// What can come of removing the surplus searchers, as many as there are.
pub open spec fn may_trim(
    before: State,
    after: State,
    searchers: mlua::Table,
    r: Result<(), mlua::Error>,
) -> bool {
    exists|mid: State, count: usize| #[trigger]
        took(before, mid, Step::Length(searchers, count)) && up_to_a_fault(
            mid,
            after,
            surplus(count),
            |from: State, to: State, index: usize, done|
                took(from, to, Step::Remove(searchers, index, done)),
            r,
        )
}

/// What can come of the sandbox: its changes are made among the globals of the
/// state and in their `package` table, and then the searchers there are
/// trimmed, up to the first fault.
pub open spec fn may_sandbox(
    before: State,
    after: State,
    given: Seq<u8>,
    resolved: Seq<u8>,
    r: Result<(), mlua::Error>,
) -> bool {
    exists|s1: State, globals: mlua::Table| #[trigger]
        took(before, s1, Step::Globals(globals)) && exists|
            s2: State,
            package: Result<mlua::Table, mlua::Error>,
        | #[trigger]
            took(s1, s2, Step::FindTable(globals, "package"@, package)) && match package {
                Err(error) => r == Err::<(), mlua::Error>(error) && after == s2,
                Ok(package) => exists|s3: State, changed: Result<(), mlua::Error>| #[trigger]
                    may_change_all(s2, s3, globals, package, sandboxed(given, resolved), changed)
                        && match changed {
                        Err(_) => r == changed && after == s3,
                        Ok(_) => exists|s4: State, found: Result<mlua::Table, mlua::Error>|
                            #[trigger] took(s3, s4, Step::FindTable(package, "searchers"@, found))
                                && match found {
                                Err(error) => r == Err::<(), mlua::Error>(error) && after == s4,
                                Ok(searchers) => may_trim(s4, after, searchers, r),
                            },
                    },
            }
}

/// Make the changes of the sandbox.
fn change_all(
    state: &mut State,
    globals: &mlua::Table,
    package: &mlua::Table,
    given: &[u8],
    resolved: &[u8],
) -> (r: Result<(), mlua::Error>)
    requires
        belongs(old(state).lua(), Handle::Table(*globals)),
        belongs(old(state).lua(), Handle::Table(*package)),
    ensures
        may_change_all(
            *old(state),
            *final(state),
            *globals,
            *package,
            sandboxed(given@, resolved@),
            r,
        ),
        final(state).lua() == old(state).lua(),
{
    let changes = sandbox_changes(given, resolved);
    let ghost all = sandboxed(given@, resolved@);
    let ghost lua = state.lua();
    let ghost before = *state;
    let ghost mut states = seq![*state];
    for change in it: changes
        invariant
            it.seq() == changes@,
            before == *old(state),
            state.lua() == lua,
            lua == before.lua(),
            belongs(lua, Handle::Table(*globals)),
            belongs(lua, Handle::Table(*package)),
            all == sandboxed(given@, resolved@),
            all == changes@.map_values(|c: Change| c@),
            states.len() == it.index() + 1,
            passes(states, before, *state),
            forall|i: int|
                0 <= i < it.index() ==> may_change(
                    states[i],
                    states[i + 1],
                    *globals,
                    *package,
                    #[trigger] all[i],
                    Ok(()),
                ),
    {
        assert(all[it.index()] == change@);
        assert(states[it.index()] == *state);
        let value = match change.value {
            Some(text) => Item::Text(text),
            None => Item::Nil,
        };
        let ghost from = *state;
        let done = match change.place {
            Place::Globals => state.set_field(globals, change.key, value),
            Place::Package => state.set_field(package, change.key, value),
        };
        assert(may_change(from, *state, *globals, *package, all[it.index()], done));
        proof {
            states = states.push(*state);
        }
        if done.is_err() {
            assert(passes(states, before, *state));
            return done;
        }
        proof {
            lemma_done(done);
        }
    }
    Ok(())
}

/// Remove the surplus searchers.
fn trim_searchers(state: &mut State, searchers: &mlua::Table) -> (r: Result<(), mlua::Error>)
    requires
        belongs(old(state).lua(), Handle::Table(*searchers)),
    ensures
        may_trim(*old(state), *final(state), *searchers, r),
        final(state).lua() == old(state).lua(),
{
    let ghost lua = state.lua();
    let ghost before = *state;
    let count = state.raw_len(searchers);
    let indices = surplus_searchers(count);
    let ghost start = *state;
    let ghost mut states = seq![*state];
    for index in it: indices
        invariant
            it.seq() == indices@,
            before == *old(state),
            state.lua() == lua,
            lua == before.lua(),
            belongs(lua, Handle::Table(*searchers)),
            indices@ == surplus(count),
            took(before, start, Step::Length(*searchers, count)),
            states.len() == it.index() + 1,
            passes(states, start, *state),
            forall|i: int|
                0 <= i < it.index() ==> took(
                    states[i],
                    states[i + 1],
                    Step::Remove(*searchers, #[trigger] indices@[i], Ok(())),
                ),
    {
        assert(indices@[it.index()] == index);
        assert(states[it.index()] == *state);
        let done = state.raw_remove(searchers, index);
        proof {
            states = states.push(*state);
        }
        if done.is_err() {
            assert(passes(states, start, *state));
            return done;
        }
        proof {
            lemma_done(done);
        }
    }
    Ok(())
}

/// Disable load/loadfile/dofile, explicit GC and C loaders; set module search paths.
pub(crate) fn sandbox(state: &mut State, given: &[u8], resolved: &[u8]) -> (r: Result<
    (),
    mlua::Error,
>)
    ensures
        may_sandbox(*old(state), *final(state), given@, resolved@, r),
        final(state).lua() == old(state).lua(),
{
    let globals = state.globals();
    let package = state.table_field(&globals, "package")?;
    change_all(state, &globals, &package, given, resolved)?;
    let searchers = state.table_field(&package, "searchers")?;
    trim_searchers(state, &searchers)
}

/// Nothing that loads code directly is left, and no C module can be found or
/// loaded.
pub proof fn law_no_code_is_loaded_directly(given: Seq<u8>, resolved: Seq<u8>)
    ensures
        forall|i: int|
            0 <= i < REMOVED_GLOBALS@.len() ==> sandboxed(given, resolved).contains(
                (Place::Globals, (#[trigger] REMOVED_GLOBALS@[i])@, None),
            ),
        sandboxed(given, resolved).contains((Place::Package, "cpath"@, Some(""@))),
        sandboxed(given, resolved).contains((Place::Package, "loadlib"@, None)),
{
    let all = sandboxed(given, resolved);
    assert forall|i: int| 0 <= i < REMOVED_GLOBALS@.len() implies all.contains(
        (Place::Globals, (#[trigger] REMOVED_GLOBALS@[i])@, None),
    ) by {
        assert(all[i] == (Place::Globals, names(REMOVED_GLOBALS@)[i], None::<Seq<char>>));
    }
    let n = REMOVED_GLOBALS@.len() as int;
    assert(all[n] == (Place::Package, "cpath"@, Some(""@)));
    assert(all[n + 1] == (Place::Package, "loadlib"@, None::<Seq<char>>));
}

/// What can come of making a function for a config and storing it in a table.
pub open spec fn may_add(
    before: State,
    after: State,
    table: mlua::Table,
    wanted: (Seq<char>, ApiFunction),
    done: Result<(), mlua::Error>,
) -> bool {
    exists|mid: State, made: Result<mlua::Function, mlua::Error>| #[trigger]
        took(before, mid, Step::MakeFunction(wanted.1, made)) && match made {
            Err(error) => done == Err::<(), mlua::Error>(error) && after == mid,
            Ok(function) => took(
                mid,
                after,
                Step::Store(table, wanted.0, Stored::Function(function), done),
            ),
        }
}

/// What can come of adding functions to a table in turn.
pub open spec fn may_add_all(
    before: State,
    after: State,
    table: mlua::Table,
    wanted: Seq<(Seq<char>, ApiFunction)>,
    r: Result<(), mlua::Error>,
) -> bool {
    up_to_a_fault(
        before,
        after,
        wanted,
        |from: State, to: State, function: (Seq<char>, ApiFunction), done|
            may_add(from, to, table, function, done),
        r,
    )
}

/// The functions of the `clipmunge` table, by name.
pub open spec fn api_functions(collected: mlua::Table, settings: mlua::Table) -> Seq<
    (Seq<char>, ApiFunction),
> {
    seq![
        ("rule"@, ApiFunction::Rule(collected)),
        ("settings"@, ApiFunction::Settings(settings)),
        ("html_escape"@, ApiFunction::Escape),
        ("link"@, ApiFunction::Link),
    ]
}

/// What can come of making the `url` table of the API: a new table with the
/// function that cleans URLs and the default list.
pub open spec fn may_make_url(
    before: State,
    after: State,
    r: Result<mlua::Table, mlua::Error>,
) -> bool {
    exists|s1: State, made: Result<mlua::Table, mlua::Error>| #[trigger]
        took(before, s1, Step::MakeTable(made)) && match made {
            Err(_) => r == made && after == s1,
            Ok(url) => exists|s2: State, added: Result<(), mlua::Error>| #[trigger]
                may_add(s1, s2, url, ("strip_params"@, ApiFunction::Strip), added) && match added {
                    Err(error) => r == Err::<mlua::Table, mlua::Error>(error) && after == s2,
                    Ok(_) => exists|listed: Result<(), mlua::Error>| #[trigger]
                        took(
                            s2,
                            after,
                            Step::Store(
                                url,
                                "default_junk"@,
                                Stored::List(names(DEFAULT_JUNK@)),
                                listed,
                            ),
                        ) && match listed {
                            Err(error) => r == Err::<mlua::Table, mlua::Error>(error),
                            Ok(_) => r == made,
                        },
                },
        }
}

/// What can come of making the `clipmunge` table: a new table with the
/// functions of the API and its `url` table.
pub open spec fn may_make_api(
    before: State,
    after: State,
    collected: mlua::Table,
    settings: mlua::Table,
    r: Result<mlua::Table, mlua::Error>,
) -> bool {
    exists|s1: State, made: Result<mlua::Table, mlua::Error>| #[trigger]
        took(before, s1, Step::MakeTable(made)) && match made {
            Err(_) => r == made && after == s1,
            Ok(api) => exists|s2: State, added: Result<(), mlua::Error>| #[trigger]
                may_add_all(s1, s2, api, api_functions(collected, settings), added)
                    && match added {
                    Err(error) => r == Err::<mlua::Table, mlua::Error>(error) && after == s2,
                    Ok(_) => exists|s3: State, url: Result<mlua::Table, mlua::Error>| #[trigger]
                        may_make_url(s2, s3, url) && match url {
                            Err(_) => r == url && after == s3,
                            Ok(url) => exists|done: Result<(), mlua::Error>| #[trigger]
                                took(s3, after, Step::Store(api, "url"@, Stored::Table(url), done))
                                    && match done {
                                    Err(error) => r == Err::<mlua::Table, mlua::Error>(error),
                                    Ok(_) => r == made,
                                },
                        },
                },
        }
}

/// What can come of installing the API: the sandbox is set up, selections are
/// told to the state, and the `clipmunge` table is made and stored among the
/// globals, up to the first fault. Nothing else is done.
pub open spec fn may_install(
    before: State,
    after: State,
    collected: mlua::Table,
    settings: mlua::Table,
    given: Seq<u8>,
    resolved: Seq<u8>,
    r: Result<(), mlua::Error>,
) -> bool {
    exists|s1: State, sandboxed: Result<(), mlua::Error>| #[trigger]
        may_sandbox(before, s1, given, resolved, sandboxed) && match sandboxed {
            Err(_) => r == sandboxed && after == s1,
            Ok(_) => exists|s2: State, registered: Result<(), mlua::Error>| #[trigger]
                took(s1, s2, Step::Register(offered(SELECTION_METHODS@), registered))
                    && match registered {
                    Err(_) => r == registered && after == s2,
                    Ok(_) => exists|s3: State, api: Result<mlua::Table, mlua::Error>| #[trigger]
                        may_make_api(s2, s3, collected, settings, api) && match api {
                            Err(error) => r == Err::<(), mlua::Error>(error) && after == s3,
                            Ok(api) => exists|s4: State, globals: mlua::Table| #[trigger]
                                took(s3, s4, Step::Globals(globals)) && took(
                                    s4,
                                    after,
                                    Step::Store(globals, "clipmunge"@, Stored::Table(api), r),
                                ),
                        },
                },
        }
}

/// Store a function in a table, if it could be made.
fn add_function(
    state: &mut State,
    table: &mlua::Table,
    key: &str,
    made: Result<mlua::Function, mlua::Error>,
) -> (r: Result<(), mlua::Error>)
    requires
        belongs(old(state).lua(), Handle::Table(*table)),
        made matches Ok(function) ==> belongs(old(state).lua(), Handle::Function(function)),
    ensures
        match made {
            Err(error) => r == Err::<(), mlua::Error>(error) && *final(state) == *old(state),
            Ok(function) => took(
                *old(state),
                *final(state),
                Step::Store(*table, key@, Stored::Function(function), r),
            ),
        },
{
    match made {
        Ok(function) => state.set_field(table, key, Item::Function(function)),
        Err(error) => Err(error),
    }
}

/// Add the functions of the `clipmunge` table.
fn add_functions(
    state: &mut State,
    api: &mlua::Table,
    collected: &mlua::Table,
    settings: &mlua::Table,
) -> (r: Result<(), mlua::Error>)
    requires
        belongs(old(state).lua(), Handle::Table(*api)),
        belongs(old(state).lua(), Handle::Table(*collected)),
        belongs(old(state).lua(), Handle::Table(*settings)),
    ensures
        may_add_all(*old(state), *final(state), *api, api_functions(*collected, *settings), r),
        final(state).lua() == old(state).lua(),
{
    let ghost all = api_functions(*collected, *settings);
    let ghost s0 = *state;
    let made = state.rule_function(collected);
    let done = add_function(state, api, "rule", made);
    let ghost s1 = *state;
    assert(may_add(s0, s1, *api, all[0], done));
    if done.is_err() {
        assert(passes(seq![s0, s1], s0, s1));
        return done;
    }
    proof {
        lemma_done(done);
    }
    let made = state.settings_function(settings);
    let done = add_function(state, api, "settings", made);
    let ghost s2 = *state;
    assert(may_add(s1, s2, *api, all[1], done));
    if done.is_err() {
        assert(passes(seq![s0, s1, s2], s0, s2));
        return done;
    }
    proof {
        lemma_done(done);
    }
    let made = state.escape_function();
    let done = add_function(state, api, "html_escape", made);
    let ghost s3 = *state;
    assert(may_add(s2, s3, *api, all[2], done));
    if done.is_err() {
        assert(passes(seq![s0, s1, s2, s3], s0, s3));
        return done;
    }
    proof {
        lemma_done(done);
    }
    let made = state.link_function();
    let done = add_function(state, api, "link", made);
    let ghost s4 = *state;
    assert(may_add(s3, s4, *api, all[3], done));
    assert(passes(seq![s0, s1, s2, s3, s4], s0, s4));
    proof {
        if done is Ok {
            lemma_done(done);
        }
    }
    done
}

/// The `url` table of the API.
fn url_table(state: &mut State) -> (r: Result<mlua::Table, mlua::Error>)
    ensures
        may_make_url(*old(state), *final(state), r),
        final(state).lua() == old(state).lua(),
        r matches Ok(url) ==> belongs(final(state).lua(), Handle::Table(url)),
{
    let url = state.new_table()?;
    let ghost from = *state;
    let made = state.strip_function();
    let added = add_function(state, &url, "strip_params", made);
    assert(may_add(from, *state, url, ("strip_params"@, ApiFunction::Strip), added));
    added?;
    state.set_field(&url, "default_junk", Item::List(default_junk()))?;
    Ok(url)
}

/// The `clipmunge` table.
fn api_table(state: &mut State, collected: &mlua::Table, settings: &mlua::Table) -> (r: Result<
    mlua::Table,
    mlua::Error,
>)
    requires
        belongs(old(state).lua(), Handle::Table(*collected)),
        belongs(old(state).lua(), Handle::Table(*settings)),
    ensures
        may_make_api(*old(state), *final(state), *collected, *settings, r),
        final(state).lua() == old(state).lua(),
        r matches Ok(api) ==> belongs(final(state).lua(), Handle::Table(api)),
{
    let api = state.new_table()?;
    add_functions(state, &api, collected, settings)?;
    let url = url_table(state)?;
    state.set_field(&api, "url", Item::Table(url))?;
    Ok(api)
}

/// Give a state everything that a config may use. Declared rules go into one
/// table and settings into another.
pub(crate) fn install_api(
    state: &mut State,
    collected: &mlua::Table,
    settings: &mlua::Table,
    given: &[u8],
    resolved: &[u8],
) -> (r: Result<(), mlua::Error>)
    requires
        belongs(old(state).lua(), Handle::Table(*collected)),
        belongs(old(state).lua(), Handle::Table(*settings)),
    ensures
        may_install(
            *old(state),
            *final(state),
            *collected,
            *settings,
            given@,
            resolved@,
            r,
        ),
        final(state).lua() == old(state).lua(),
{
    sandbox(state, given, resolved)?;
    state.register_selection(SELECTION_METHODS.as_slice())?;
    let api = api_table(state, collected, settings)?;
    let globals = state.globals();
    state.set_field(&globals, "clipmunge", Item::Table(api))
}

// -------------------------------------------------------------------- laws

/// Of the searchers all but the first two are removed, each once and from the last
/// one on, so that none moves before its turn.
pub proof fn law_two_searchers_stay(count: usize)
    ensures
        forall|k: usize| surplus(count).contains(k) <==> 2 < k <= count,
        forall|i: int, j: int|
            0 <= i < j < surplus(count).len() ==> #[trigger] surplus(count)[i]
                > #[trigger] surplus(count)[j],
        count >= 2 ==> count - surplus(count).len() == 2,
{
    let all = surplus(count);
    assert forall|k: usize| all.contains(k) <==> 2 < k <= count by {
        if 2 < k <= count {
            assert(all[count - k] == k);
        }
    }
}

/// Modules are found beside the config, as files and as directories: under the given
/// path first and then under the resolved one, where these differ.
pub proof fn law_modules_are_found_beside_the_config(given: Seq<u8>, resolved: Seq<u8>)
    ensures
        ({
            let here = lossy_text(config_dirs(given, resolved)[0]);
            let there = lossy_text(config_dirs(given, resolved)[1]);
            &&& config_dirs(given, resolved).len() == 1 ==> search_path(given, resolved) == here
                + "/?.lua;"@ + here + "/?/init.lua"@
            &&& config_dirs(given, resolved).len() == 2 ==> search_path(given, resolved) == here
                + "/?.lua;"@ + here + "/?/init.lua;"@ + there + "/?.lua;"@ + there
                + "/?/init.lua"@
        }),
{
    let dirs = config_dirs(given, resolved);
    let entries = dirs.map_values(|d: Seq<u8>| search_entry(d));
    reveal_strlit("/?/init.lua");
    reveal_strlit("/?/init.lua;");
    assert("/?/init.lua;"@ =~= "/?/init.lua"@ + seq![';']);
    assert(entries[0] == search_entry(dirs[0]));
    if dirs.len() == 2 {
        assert(entries[1] == search_entry(dirs[1]));
        assert(entries.drop_first().len() == 1);
        assert(entries.drop_first()[0] == entries[1]);
        assert(join(entries.drop_first(), ';') == entries[1]);
        let here = lossy_text(dirs[0]);
        let there = lossy_text(dirs[1]);
        assert(search_path(given, resolved) =~= here + "/?.lua;"@ + here + "/?/init.lua;"@ + there
            + "/?.lua;"@ + there + "/?/init.lua"@);
    }
}

/// The sandbox takes away the four globals that load code or control the collector,
/// the path and the loader of C modules, and sets the path of Lua modules; it changes
/// nothing else.
pub proof fn law_what_the_sandbox_changes(given: Seq<u8>, resolved: Seq<u8>)
    ensures
        sandboxed(given, resolved) == seq![
            (Place::Globals, "dofile"@, None::<Seq<char>>),
            (Place::Globals, "loadfile"@, None),
            (Place::Globals, "load"@, None),
            (Place::Globals, "collectgarbage"@, None),
            (Place::Package, "cpath"@, Some(""@)),
            (Place::Package, "loadlib"@, None),
            (Place::Package, "path"@, Some(search_path(given, resolved))),
        ],
{
    let removed = names(REMOVED_GLOBALS@);
    assert(removed =~= seq!["dofile"@, "loadfile"@, "load"@, "collectgarbage"@]);
    assert(sandboxed(given, resolved) =~= seq![
        (Place::Globals, "dofile"@, None::<Seq<char>>),
        (Place::Globals, "loadfile"@, None),
        (Place::Globals, "load"@, None),
        (Place::Globals, "collectgarbage"@, None),
        (Place::Package, "cpath"@, Some(""@)),
        (Place::Package, "loadlib"@, None),
        (Place::Package, "path"@, Some(search_path(given, resolved))),
    ]);
}

/// A sandbox that was set up consists of its changes, made in order among the globals
/// and in their `package` table, and of the removal of the surplus searchers, and of
/// nothing else. Handed back are the globals, the `package` table, its searchers and
/// how many these were.
pub proof fn law_how_the_sandbox_is_set_up(
    before: State,
    after: State,
    given: Seq<u8>,
    resolved: Seq<u8>,
) -> (r: (mlua::Table, mlua::Table, mlua::Table, usize))
    requires
        may_sandbox(before, after, given, resolved, Ok::<(), mlua::Error>(())),
    ensures
        ({
            let (globals, package, searchers, count) = r;
            let ok = Ok::<(), mlua::Error>(());
            after.log() == before.log() + seq![
                Step::Globals(globals),
                Step::FindTable(globals, "package"@, Ok(package)),
                Step::Store(globals, "dofile"@, Stored::Nil, ok),
                Step::Store(globals, "loadfile"@, Stored::Nil, ok),
                Step::Store(globals, "load"@, Stored::Nil, ok),
                Step::Store(globals, "collectgarbage"@, Stored::Nil, ok),
                Step::Store(package, "cpath"@, Stored::Text(""@), ok),
                Step::Store(package, "loadlib"@, Stored::Nil, ok),
                Step::Store(package, "path"@, Stored::Text(search_path(given, resolved)), ok),
                Step::FindTable(package, "searchers"@, Ok(searchers)),
                Step::Length(searchers, count),
            ] + Seq::new(
                (if count > 2 {
                    count - 2
                } else {
                    0
                }) as nat,
                |i: int| Step::Remove(searchers, (count - i) as usize, ok),
            )
        }),
{
    let ok = Ok::<(), mlua::Error>(());
    let (s1, globals) = choose|s1: State, globals: mlua::Table| #[trigger]
        took(before, s1, Step::Globals(globals)) && exists|
            s2: State,
            package: Result<mlua::Table, mlua::Error>,
        | #[trigger]
            took(s1, s2, Step::FindTable(globals, "package"@, package)) && match package {
                Err(_) => false,
                Ok(package) => exists|s3: State, changed: Result<(), mlua::Error>| #[trigger]
                    may_change_all(s2, s3, globals, package, sandboxed(given, resolved), changed)
                        && match changed {
                        Err(_) => ok == changed && after == s3,
                        Ok(_) => exists|s4: State, found: Result<mlua::Table, mlua::Error>|
                            #[trigger] took(s3, s4, Step::FindTable(package, "searchers"@, found))
                                && match found {
                                Err(_) => false,
                                Ok(searchers) => may_trim(s4, after, searchers, ok),
                            },
                    },
            };
    let (s2, packaged) = choose|s2: State, package: Result<mlua::Table, mlua::Error>| #[trigger]
        took(s1, s2, Step::FindTable(globals, "package"@, package)) && match package {
            Err(_) => false,
            Ok(package) => exists|s3: State, changed: Result<(), mlua::Error>| #[trigger]
                may_change_all(s2, s3, globals, package, sandboxed(given, resolved), changed)
                    && match changed {
                    Err(_) => ok == changed && after == s3,
                    Ok(_) => exists|s4: State, found: Result<mlua::Table, mlua::Error>| #[trigger]
                        took(s3, s4, Step::FindTable(package, "searchers"@, found)) && match found {
                            Err(_) => false,
                            Ok(searchers) => may_trim(s4, after, searchers, ok),
                        },
                },
        };
    let package = packaged->Ok_0;
    let all = sandboxed(given, resolved);
    let (s3, changed) = choose|s3: State, changed: Result<(), mlua::Error>| #[trigger]
        may_change_all(s2, s3, globals, package, all, changed) && match changed {
            Err(_) => ok == changed && after == s3,
            Ok(_) => exists|s4: State, found: Result<mlua::Table, mlua::Error>| #[trigger]
                took(s3, s4, Step::FindTable(package, "searchers"@, found)) && match found {
                    Err(_) => false,
                    Ok(searchers) => may_trim(s4, after, searchers, ok),
                },
        };
    lemma_done(changed);
    let (s4, found) = choose|s4: State, found: Result<mlua::Table, mlua::Error>| #[trigger]
        took(s3, s4, Step::FindTable(package, "searchers"@, found)) && match found {
            Err(_) => false,
            Ok(searchers) => may_trim(s4, after, searchers, ok),
        };
    let searchers = found->Ok_0;
    let (s5, count) = choose|s5: State, count: usize| #[trigger]
        took(s4, s5, Step::Length(searchers, count)) && up_to_a_fault(
            s5,
            after,
            surplus(count),
            |from: State, to: State, index: usize, done|
                took(from, to, Step::Remove(searchers, index, done)),
            ok,
        );
    let change = |change: (Place, Seq<char>, Option<Seq<char>>)|
        Step::Store(
            match change.0 {
                Place::Globals => globals,
                Place::Package => package,
            },
            change.1,
            match change.2 {
                Some(text) => Stored::Text(text),
                None => Stored::Nil,
            },
            ok,
        );
    lemma_one_step_each(
        s2,
        s3,
        all,
        |from: State, to: State, change: (Place, Seq<char>, Option<Seq<char>>), done|
            may_change(from, to, globals, package, change, done),
        change,
    );
    let remove = |index: usize| Step::Remove(searchers, index, ok);
    lemma_one_step_each(
        s5,
        after,
        surplus(count),
        |from: State, to: State, index: usize, done|
            took(from, to, Step::Remove(searchers, index, done)),
        remove,
    );
    law_what_the_sandbox_changes(given, resolved);
    let front = seq![
        Step::Globals(globals),
        Step::FindTable(globals, "package"@, Ok(package)),
        Step::Store(globals, "dofile"@, Stored::Nil, ok),
        Step::Store(globals, "loadfile"@, Stored::Nil, ok),
        Step::Store(globals, "load"@, Stored::Nil, ok),
        Step::Store(globals, "collectgarbage"@, Stored::Nil, ok),
        Step::Store(package, "cpath"@, Stored::Text(""@), ok),
        Step::Store(package, "loadlib"@, Stored::Nil, ok),
        Step::Store(package, "path"@, Stored::Text(search_path(given, resolved)), ok),
        Step::FindTable(package, "searchers"@, Ok(searchers)),
        Step::Length(searchers, count),
    ];
    assert(all.map_values(change) =~= front.subrange(2, 9));
    assert(s5.log() =~= before.log() + front);
    let removed = Seq::new(
        (if count > 2 {
            count - 2
        } else {
            0
        }) as nat,
        |i: int| Step::Remove(searchers, (count - i) as usize, ok),
    );
    assert(surplus(count).map_values(remove) =~= removed);
    assert(after.log() =~= before.log() + front + removed);
    (globals, package, searchers, count)
}

/// A table of a link is a new table with the text, the anchor and the URL in it, and
/// nothing else.
pub proof fn law_a_link_is_a_table_of_its_flavours(
    before: State,
    after: State,
    url: Seq<char>,
    text: Option<Seq<char>>,
    table: mlua::Table,
)
    requires
        may_link(before, after, url, text, Ok::<mlua::Table, mlua::Error>(table)),
    ensures
        ({
            let ok = Ok::<(), mlua::Error>(());
            let shown = match text {
                Some(text) => text,
                None => url,
            };
            after.log() == before.log() + seq![
                Step::MakeTable(Ok(table)),
                Step::Store(table, "text"@, Stored::Text(shown), ok),
                Step::Store(
                    table,
                    "text/html"@,
                    Stored::Text(
                        "<a href=\""@ + escaped(url) + "\">"@ + escaped(shown) + "</a>"@,
                    ),
                    ok,
                ),
                Step::Store(table, "chromium/x-source-url"@, Stored::Text(url), ok),
            ]
        }),
{
    let ok = Ok::<(), mlua::Error>(());
    let r = Ok::<mlua::Table, mlua::Error>(table);
    let shown = match text {
        Some(text) => text,
        None => url,
    };
    let (mid, made) = choose|mid: State, made: Result<mlua::Table, mlua::Error>| #[trigger]
        took(before, mid, Step::MakeTable(made)) && match made {
            Err(_) => r == made && after == mid,
            Ok(table) => exists|done: Result<(), mlua::Error>| #[trigger]
                may_store_texts(mid, after, table, link_flavours(url, text), done) && match done {
                    Err(error) => r == Err::<mlua::Table, mlua::Error>(error),
                    Ok(_) => r == made,
                },
        };
    let done = choose|done: Result<(), mlua::Error>| #[trigger]
        may_store_texts(mid, after, made->Ok_0, link_flavours(url, text), done) && match done {
            Err(error) => r == Err::<mlua::Table, mlua::Error>(error),
            Ok(_) => r == made,
        };
    lemma_done(done);
    let step = |entry: (Seq<char>, Seq<char>)|
        Step::Store(table, entry.0, Stored::Text(entry.1), ok);
    lemma_one_step_each(
        mid,
        after,
        link_flavours(url, text),
        |from: State, to: State, entry: (Seq<char>, Seq<char>), done|
            took(from, to, Step::Store(table, entry.0, Stored::Text(entry.1), done)),
        step,
    );
    law_the_flavours_of_a_link(url, shown);
    assert(after.log() =~= before.log() + seq![
        Step::MakeTable(Ok(table)),
        Step::Store(table, "text"@, Stored::Text(shown), ok),
        Step::Store(
            table,
            "text/html"@,
            Stored::Text("<a href=\""@ + escaped(url) + "\">"@ + escaped(shown) + "</a>"@),
            ok,
        ),
        Step::Store(table, "chromium/x-source-url"@, Stored::Text(url), ok),
    ]);
}

/// Settings that were merged were copied one by one as they were found, to the end of
/// the given table. Handed back are the settings, in order.
pub proof fn law_all_settings_are_copied(
    before: State,
    after: State,
    store: mlua::Table,
    given: mlua::Table,
) -> (pairs: Seq<(mlua::Value, mlua::Value)>)
    requires
        may_merge(before, after, store, given, Ok::<(), mlua::Error>(())),
        after.log().len() < before.log().len() + usize::MAX,
    ensures
        after.log().len() == before.log().len() + 2 + 2 * pairs.len(),
        after.log().take(before.log().len() as int) == before.log(),
        after.log()[before.log().len() as int] == Step::Walk(given),
        forall|i: int|
            0 <= i < pairs.len() ==> {
                let at = before.log().len() + 1 + 2 * i;
                &&& after.log()[at] == Step::Pair(given, Some(Ok(#[trigger] pairs[i])))
                &&& after.log()[at + 1] == Step::StorePair(store, pairs[i], Ok(()))
            },
        after.log().last() == Step::Pair(given, None),
{
    let ok = Ok::<(), mlua::Error>(());
    let start = choose|start: State| #[trigger]
        took(before, start, Step::Walk(given)) && exists|states: Seq<State>| #[trigger]
            passes(states, start, after) && copied_in_order(states, store, given, ok);
    let states = choose|states: Seq<State>| #[trigger]
        passes(states, start, after) && copied_in_order(states, store, given, ok);
    let last = states.len() - 1;
    let copying = if last >= 1 && may_copy(states[last - 1], states[last], store, given, None) {
        last - 1
    } else {
        last
    };
    assert forall|i: int| 0 <= i < copying implies may_copy(
        #[trigger] states[i],
        states[i + 1],
        store,
        given,
        Some(ok),
    ) by {}
    let pairs = lemma_copied(states, store, given, copying);
    assert(states[0].log() == before.log().push(Step::Walk(given)));
    if copying == last {
        assert(last == usize::MAX);
        assert(false);
    }
    let (mid, found) = choose|
        mid: State,
        found: Option<Result<(mlua::Value, mlua::Value), mlua::Error>>,
    | #[trigger]
        took(states[last - 1], mid, Step::Pair(given, found)) && match found {
            None => after == mid,
            Some(Err(_)) => false,
            Some(Ok(_)) => false,
        };
    let n = before.log().len() as int;
    let done = states[last - 1].log();
    assert(after.log() == done.push(Step::Pair(given, None)));
    assert(after.log().take(n) =~= before.log()) by {
        assert(after.log().take(n) =~= done.take(n + 1).take(n));
    }
    assert(after.log()[n] == done.take(n + 1)[n]);
    assert forall|i: int| 0 <= i < pairs.len() implies {
        let at = before.log().len() + 1 + 2 * i;
        &&& after.log()[at] == Step::Pair(given, Some(Ok(#[trigger] pairs[i])))
        &&& after.log()[at + 1] == Step::StorePair(store, pairs[i], Ok(()))
    } by {
        let at = before.log().len() + 1 + 2 * i;
        assert(done[at] == Step::Pair(given, Some(Ok(pairs[i]))));
        assert(after.log()[at] == done[at] && after.log()[at + 1] == done[at + 1]);
    }
    pairs
}

proof fn lemma_copied(states: Seq<State>, store: mlua::Table, given: mlua::Table, n: int) -> (pairs:
    Seq<(mlua::Value, mlua::Value)>)
    requires
        0 <= n < states.len(),
        forall|i: int|
            0 <= i < n ==> may_copy(
                #[trigger] states[i],
                states[i + 1],
                store,
                given,
                Some(Ok::<(), mlua::Error>(())),
            ),
    ensures
        pairs.len() == n,
        states[n].log().len() == states[0].log().len() + 2 * n,
        states[n].log().take(states[0].log().len() as int) == states[0].log(),
        forall|i: int|
            0 <= i < n ==> {
                let at = states[0].log().len() + 2 * i;
                &&& states[n].log()[at] == Step::Pair(given, Some(Ok(#[trigger] pairs[i])))
                &&& states[n].log()[at + 1] == Step::StorePair(store, pairs[i], Ok(()))
            },
    decreases n,
{
    let ok = Ok::<(), mlua::Error>(());
    let first = states[0].log();
    if n == 0 {
        assert(first.take(first.len() as int) =~= first);
        Seq::empty()
    } else {
        let less = lemma_copied(states, store, given, n - 1);
        let was = states[n - 1];
        let now = states[n];
        assert(may_copy(was, now, store, given, Some(ok)));
        let (mid, found) = choose|
            mid: State,
            found: Option<Result<(mlua::Value, mlua::Value), mlua::Error>>,
        | #[trigger]
            took(was, mid, Step::Pair(given, found)) && match found {
                None => false,
                Some(Err(_)) => false,
                Some(Ok(pair)) => exists|done: Result<(), mlua::Error>| #[trigger]
                    took(mid, now, Step::StorePair(store, pair, done)) && Some(ok) == Some(done),
            };
        let pair = (found->0)->Ok_0;
        let done = choose|done: Result<(), mlua::Error>| #[trigger]
            took(mid, now, Step::StorePair(store, pair, done)) && Some(ok) == Some(done);
        let pairs = less.push(pair);
        assert(now.log() == was.log().push(Step::Pair(given, Some(Ok(pair)))).push(
            Step::StorePair(store, pair, ok),
        ));
        assert(now.log().take(first.len() as int) =~= was.log().take(first.len() as int));
        assert forall|i: int| 0 <= i < n implies {
            let at = first.len() + 2 * i;
            &&& now.log()[at] == Step::Pair(given, Some(Ok(#[trigger] pairs[i])))
            &&& now.log()[at + 1] == Step::StorePair(store, pairs[i], Ok(()))
        } by {
            let at = first.len() + 2 * i;
            if i < n - 1 {
                assert(less[i] == pairs[i]);
                assert(now.log()[at] == was.log()[at]);
                assert(now.log()[at + 1] == was.log()[at + 1]);
            }
        }
        pairs
    }
}

/// A URL is cleaned by the patterns that are given, also when none are, and by the
/// default ones only where no list is.
pub proof fn law_given_patterns_replace_the_default(list: Vec<String>)
    ensures
        patterns_or_default(Some(list)) == texts(list@),
        patterns_or_default(None) == names(DEFAULT_JUNK@),
{
}

/// What a handler can ask of the selection, by name; none of it changes anything.
/// A config gets five libraries besides the base library.
pub proof fn law_what_a_config_gets()
    ensures
        offered(SELECTION_METHODS@) == seq![
            ("text"@, SelectionMethod::Text),
            ("get"@, SelectionMethod::Get),
            ("has"@, SelectionMethod::Has),
            ("mimes"@, SelectionMethod::Mimes),
        ],
        RULE_LIBRARIES@ == seq![
            Library::Strings,
            Library::Tables,
            Library::Maths,
            Library::Utf8,
            Library::Packages,
        ],
{
    assert(offered(SELECTION_METHODS@) =~= seq![
        ("text"@, SelectionMethod::Text),
        ("get"@, SelectionMethod::Get),
        ("has"@, SelectionMethod::Has),
        ("mimes"@, SelectionMethod::Mimes),
    ]);
}

/// The memory of a state is limited to 64 MiB, and it is told when that failed.
pub proof fn law_memory_is_limited(before: State, after: State, r: Option<mlua::Error>)
    requires
        may_limit(before, after, r),
    ensures
        after.log().len() == before.log().len() + 1,
        after.log().take(before.log().len() as int) == before.log(),
        match after.log().last() {
            Step::LimitMemory(bytes, limited) => {
                &&& bytes == 64 * 1024 * 1024
                &&& r is None <==> limited is Ok
                &&& limited matches Err(error) ==> r == Some(error)
            },
            _ => false,
        },
{
    assert(after.log().take(before.log().len() as int) =~= before.log());
}

proof fn lemma_added(
    before: State,
    after: State,
    table: mlua::Table,
    wanted: (Seq<char>, ApiFunction),
) -> (function: mlua::Function)
    requires
        may_add(before, after, table, wanted, Ok::<(), mlua::Error>(())),
    ensures
        after.log() == before.log() + seq![
            Step::MakeFunction(wanted.1, Ok(function)),
            Step::Store(table, wanted.0, Stored::Function(function), Ok::<(), mlua::Error>(())),
        ],
{
    let ok = Ok::<(), mlua::Error>(());
    let (mid, made) = choose|mid: State, made: Result<mlua::Function, mlua::Error>| #[trigger]
        took(before, mid, Step::MakeFunction(wanted.1, made)) && match made {
            Err(_) => false,
            Ok(function) => took(
                mid,
                after,
                Step::Store(table, wanted.0, Stored::Function(function), ok),
            ),
        };
    let function = made->Ok_0;
    assert(after.log() =~= before.log() + seq![
        Step::MakeFunction(wanted.1, Ok(function)),
        Step::Store(table, wanted.0, Stored::Function(function), ok),
    ]);
    function
}

/// The `url` table of the API is a new table with the function that cleans URLs and
/// the default patterns. Handed back is that function.
pub proof fn law_the_url_table(before: State, after: State, url: mlua::Table) -> (strip:
    mlua::Function)
    requires
        may_make_url(before, after, Ok::<mlua::Table, mlua::Error>(url)),
    ensures
        after.log() == before.log() + seq![
            Step::MakeTable(Ok(url)),
            Step::MakeFunction(ApiFunction::Strip, Ok(strip)),
            Step::Store(url, "strip_params"@, Stored::Function(strip), Ok::<(), mlua::Error>(())),
            Step::Store(
                url,
                "default_junk"@,
                Stored::List(names(DEFAULT_JUNK@)),
                Ok::<(), mlua::Error>(()),
            ),
        ],
{
    let r = Ok::<mlua::Table, mlua::Error>(url);
    let (s1, made) = choose|s1: State, made: Result<mlua::Table, mlua::Error>| #[trigger]
        took(before, s1, Step::MakeTable(made)) && match made {
            Err(_) => r == made && after == s1,
            Ok(url) => exists|s2: State, added: Result<(), mlua::Error>| #[trigger]
                may_add(s1, s2, url, ("strip_params"@, ApiFunction::Strip), added) && match added {
                    Err(error) => r == Err::<mlua::Table, mlua::Error>(error) && after == s2,
                    Ok(_) => exists|listed: Result<(), mlua::Error>| #[trigger]
                        took(
                            s2,
                            after,
                            Step::Store(
                                url,
                                "default_junk"@,
                                Stored::List(names(DEFAULT_JUNK@)),
                                listed,
                            ),
                        ) && match listed {
                            Err(error) => r == Err::<mlua::Table, mlua::Error>(error),
                            Ok(_) => r == made,
                        },
                },
        };
    let table = made->Ok_0;
    let (s2, added) = choose|s2: State, added: Result<(), mlua::Error>| #[trigger]
        may_add(s1, s2, table, ("strip_params"@, ApiFunction::Strip), added) && match added {
            Err(error) => r == Err::<mlua::Table, mlua::Error>(error) && after == s2,
            Ok(_) => exists|listed: Result<(), mlua::Error>| #[trigger]
                took(
                    s2,
                    after,
                    Step::Store(
                        table,
                        "default_junk"@,
                        Stored::List(names(DEFAULT_JUNK@)),
                        listed,
                    ),
                ) && match listed {
                    Err(error) => r == Err::<mlua::Table, mlua::Error>(error),
                    Ok(_) => r == made,
                },
        };
    lemma_done(added);
    let listed = choose|listed: Result<(), mlua::Error>| #[trigger]
        took(
            s2,
            after,
            Step::Store(table, "default_junk"@, Stored::List(names(DEFAULT_JUNK@)), listed),
        ) && match listed {
            Err(error) => r == Err::<mlua::Table, mlua::Error>(error),
            Ok(_) => r == made,
        };
    lemma_done(listed);
    let strip = lemma_added(s1, s2, url, ("strip_params"@, ApiFunction::Strip));
    assert(after.log() =~= before.log() + seq![
        Step::MakeTable(Ok(url)),
        Step::MakeFunction(ApiFunction::Strip, Ok(strip)),
        Step::Store(url, "strip_params"@, Stored::Function(strip), Ok::<(), mlua::Error>(())),
        Step::Store(
            url,
            "default_junk"@,
            Stored::List(names(DEFAULT_JUNK@)),
            Ok::<(), mlua::Error>(()),
        ),
    ]);
    strip
}

/// The `clipmunge` table is a new table with four functions, made and stored in turn,
/// and the `url` table. Handed back are the functions, the states before and after
/// the `url` table was made, and that table.
pub proof fn law_the_clipmunge_table(
    before: State,
    after: State,
    collected: mlua::Table,
    settings: mlua::Table,
    api: mlua::Table,
) -> (r: (Seq<mlua::Function>, State, State, mlua::Table))
    requires
        may_make_api(before, after, collected, settings, Ok::<mlua::Table, mlua::Error>(api)),
    ensures
        ({
            let (made, mid, done, url) = r;
            let ok = Ok::<(), mlua::Error>(());
            &&& mid.log() == before.log() + seq![
                Step::MakeTable(Ok(api)),
                Step::MakeFunction(ApiFunction::Rule(collected), Ok(made[0])),
                Step::Store(api, "rule"@, Stored::Function(made[0]), ok),
                Step::MakeFunction(ApiFunction::Settings(settings), Ok(made[1])),
                Step::Store(api, "settings"@, Stored::Function(made[1]), ok),
                Step::MakeFunction(ApiFunction::Escape, Ok(made[2])),
                Step::Store(api, "html_escape"@, Stored::Function(made[2]), ok),
                Step::MakeFunction(ApiFunction::Link, Ok(made[3])),
                Step::Store(api, "link"@, Stored::Function(made[3]), ok),
            ]
            &&& may_make_url(mid, done, Ok::<mlua::Table, mlua::Error>(url))
            &&& after.log() == done.log().push(Step::Store(api, "url"@, Stored::Table(url), ok))
        }),
{
    let ok = Ok::<(), mlua::Error>(());
    let r = Ok::<mlua::Table, mlua::Error>(api);
    let all = api_functions(collected, settings);
    let (s1, made) = choose|s1: State, made: Result<mlua::Table, mlua::Error>| #[trigger]
        took(before, s1, Step::MakeTable(made)) && match made {
            Err(_) => r == made && after == s1,
            Ok(api) => exists|s2: State, added: Result<(), mlua::Error>| #[trigger]
                may_add_all(s1, s2, api, all, added) && match added {
                    Err(error) => r == Err::<mlua::Table, mlua::Error>(error) && after == s2,
                    Ok(_) => exists|s3: State, url: Result<mlua::Table, mlua::Error>| #[trigger]
                        may_make_url(s2, s3, url) && match url {
                            Err(_) => r == url && after == s3,
                            Ok(url) => exists|done: Result<(), mlua::Error>| #[trigger]
                                took(s3, after, Step::Store(api, "url"@, Stored::Table(url), done))
                                    && match done {
                                    Err(error) => r == Err::<mlua::Table, mlua::Error>(error),
                                    Ok(_) => r == made,
                                },
                        },
                },
        };
    let table = made->Ok_0;
    let (s2, added) = choose|s2: State, added: Result<(), mlua::Error>| #[trigger]
        may_add_all(s1, s2, table, all, added) && match added {
            Err(error) => r == Err::<mlua::Table, mlua::Error>(error) && after == s2,
            Ok(_) => exists|s3: State, url: Result<mlua::Table, mlua::Error>| #[trigger]
                may_make_url(s2, s3, url) && match url {
                    Err(_) => r == url && after == s3,
                    Ok(url) => exists|done: Result<(), mlua::Error>| #[trigger]
                        took(s3, after, Step::Store(table, "url"@, Stored::Table(url), done))
                            && match done {
                            Err(error) => r == Err::<mlua::Table, mlua::Error>(error),
                            Ok(_) => r == made,
                        },
                },
        };
    lemma_done(added);
    let (s3, made_url) = choose|s3: State, url: Result<mlua::Table, mlua::Error>| #[trigger]
        may_make_url(s2, s3, url) && match url {
            Err(_) => r == url && after == s3,
            Ok(url) => exists|done: Result<(), mlua::Error>| #[trigger]
                took(s3, after, Step::Store(table, "url"@, Stored::Table(url), done))
                    && match done {
                    Err(error) => r == Err::<mlua::Table, mlua::Error>(error),
                    Ok(_) => r == made,
                },
        };
    let url = made_url->Ok_0;
    let done = choose|done: Result<(), mlua::Error>| #[trigger]
        took(s3, after, Step::Store(table, "url"@, Stored::Table(url), done)) && match done {
            Err(error) => r == Err::<mlua::Table, mlua::Error>(error),
            Ok(_) => r == made,
        };
    lemma_done(done);
    let may = |from: State, to: State, function: (Seq<char>, ApiFunction), done|
        may_add(from, to, api, function, done);
    let states = choose|states: Seq<State>| #[trigger]
        passes(states, s1, s2) && in_order(states, all, may, ok);
    assert(may(states[0], states[1], all[0], ok));
    assert(may(states[1], states[2], all[1], ok));
    assert(may(states[2], states[3], all[2], ok));
    assert(may(states[3], states[4], all[3], ok));
    let f0 = lemma_added(states[0], states[1], api, all[0]);
    let f1 = lemma_added(states[1], states[2], api, all[1]);
    let f2 = lemma_added(states[2], states[3], api, all[2]);
    let f3 = lemma_added(states[3], states[4], api, all[3]);
    assert(s2.log() =~= before.log() + seq![
        Step::MakeTable(Ok(api)),
        Step::MakeFunction(ApiFunction::Rule(collected), Ok(f0)),
        Step::Store(api, "rule"@, Stored::Function(f0), ok),
        Step::MakeFunction(ApiFunction::Settings(settings), Ok(f1)),
        Step::Store(api, "settings"@, Stored::Function(f1), ok),
        Step::MakeFunction(ApiFunction::Escape, Ok(f2)),
        Step::Store(api, "html_escape"@, Stored::Function(f2), ok),
        Step::MakeFunction(ApiFunction::Link, Ok(f3)),
        Step::Store(api, "link"@, Stored::Function(f3), ok),
    ]);
    (seq![f0, f1, f2, f3], s2, s3, url)
}

/// An API that was installed is in place behind the sandbox: the sandbox is set up
/// first, the methods of a selection are told to the state, the `clipmunge` table is
/// made, and it is stored among the globals. Handed back are the states after the
/// sandbox and around the making of the table, and the table with the globals.
pub proof fn law_the_api_is_behind_the_sandbox(
    before: State,
    after: State,
    collected: mlua::Table,
    settings: mlua::Table,
    given: Seq<u8>,
    resolved: Seq<u8>,
) -> (r: (State, State, State, mlua::Table, mlua::Table))
    requires
        may_install(
            before,
            after,
            collected,
            settings,
            given,
            resolved,
            Ok::<(), mlua::Error>(()),
        ),
    ensures
        ({
            let (shut, told, made, api, globals) = r;
            let ok = Ok::<(), mlua::Error>(());
            &&& may_sandbox(before, shut, given, resolved, ok)
            &&& told.log() == shut.log().push(
                Step::Register(
                    seq![
                        ("text"@, SelectionMethod::Text),
                        ("get"@, SelectionMethod::Get),
                        ("has"@, SelectionMethod::Has),
                        ("mimes"@, SelectionMethod::Mimes),
                    ],
                    ok,
                ),
            )
            &&& may_make_api(
                told,
                made,
                collected,
                settings,
                Ok::<mlua::Table, mlua::Error>(api),
            )
            &&& after.log() == made.log() + seq![
                Step::Globals(globals),
                Step::Store(globals, "clipmunge"@, Stored::Table(api), ok),
            ]
        }),
{
    law_what_a_config_gets();
    let ok = Ok::<(), mlua::Error>(());
    let (s1, sandboxed) = choose|s1: State, sandboxed: Result<(), mlua::Error>| #[trigger]
        may_sandbox(before, s1, given, resolved, sandboxed) && match sandboxed {
            Err(_) => ok == sandboxed && after == s1,
            Ok(_) => exists|s2: State, registered: Result<(), mlua::Error>| #[trigger]
                took(s1, s2, Step::Register(offered(SELECTION_METHODS@), registered))
                    && match registered {
                    Err(_) => ok == registered && after == s2,
                    Ok(_) => exists|s3: State, api: Result<mlua::Table, mlua::Error>| #[trigger]
                        may_make_api(s2, s3, collected, settings, api) && match api {
                            Err(_) => false,
                            Ok(api) => exists|s4: State, globals: mlua::Table| #[trigger]
                                took(s3, s4, Step::Globals(globals)) && took(
                                    s4,
                                    after,
                                    Step::Store(globals, "clipmunge"@, Stored::Table(api), ok),
                                ),
                        },
                },
        };
    lemma_done(sandboxed);
    let (s2, registered) = choose|s2: State, registered: Result<(), mlua::Error>| #[trigger]
        took(s1, s2, Step::Register(offered(SELECTION_METHODS@), registered)) && match registered {
            Err(_) => ok == registered && after == s2,
            Ok(_) => exists|s3: State, api: Result<mlua::Table, mlua::Error>| #[trigger]
                may_make_api(s2, s3, collected, settings, api) && match api {
                    Err(_) => false,
                    Ok(api) => exists|s4: State, globals: mlua::Table| #[trigger]
                        took(s3, s4, Step::Globals(globals)) && took(
                            s4,
                            after,
                            Step::Store(globals, "clipmunge"@, Stored::Table(api), ok),
                        ),
                },
        };
    lemma_done(registered);
    let (s3, made) = choose|s3: State, api: Result<mlua::Table, mlua::Error>| #[trigger]
        may_make_api(s2, s3, collected, settings, api) && match api {
            Err(_) => false,
            Ok(api) => exists|s4: State, globals: mlua::Table| #[trigger]
                took(s3, s4, Step::Globals(globals)) && took(
                    s4,
                    after,
                    Step::Store(globals, "clipmunge"@, Stored::Table(api), ok),
                ),
        };
    let api = made->Ok_0;
    let (s4, globals) = choose|s4: State, globals: mlua::Table| #[trigger]
        took(s3, s4, Step::Globals(globals)) && took(
            s4,
            after,
            Step::Store(globals, "clipmunge"@, Stored::Table(api), ok),
        );
    assert(after.log() =~= s3.log() + seq![
        Step::Globals(globals),
        Step::Store(globals, "clipmunge"@, Stored::Table(api), ok),
    ]);
    (s1, s2, s3, api, globals)
}

/// A handler sees the selection as it is: the text untrimmed, each payload byte for
/// byte, and the names in the order in which they are advertised.
pub proof fn law_a_handler_sees_the_selection_as_it_is(
    selection: &Selection,
    asked: &str,
    text: Option<String>,
    data: Option<Vec<u8>>,
    mimes: Vec<String>,
    words: Seq<char>,
)
    requires
        call_ensures(plain_text, (selection,), text),
        call_ensures(payload_of, (selection, asked), data),
        call_ensures(mime_list, (selection,), mimes),
    ensures
        lookup(selection@, "text/plain;charset=utf-8"@) == Some(encode_utf8(words)) ==> text is Some
            && text->0@ == words,
        lookup(selection@, asked@) is Some <==> data is Some,
        lookup(selection@, asked@) matches Some(bytes) ==> data->0@ == bytes,
        mimes@.len() == selection@.len(),
        forall|i: int| 0 <= i < mimes@.len() ==> (#[trigger] mimes@[i])@ == selection@[i].0,
{
    if lookup(selection@, "text/plain;charset=utf-8"@) == Some(encode_utf8(words)) {
        let family = seq![
            "text/plain;charset=utf-8"@,
            "text/plain"@,
            "UTF8_STRING"@,
            "STRING"@,
            "TEXT"@,
        ];
        law_text_is_that_of_the_first_name(selection@, family, 0);
        encode_utf8_valid_utf8(words);
        lemma_encoding_is_injective(text->0@, words);
    }
    let shown = texts(mimes@);
    assert(shown.len() == mimes@.len());
    assert forall|i: int| 0 <= i < mimes@.len() implies (#[trigger] mimes@[i])@
        == selection@[i].0 by {
        assert(shown[i] == mimes@[i]@);
        assert(mimes_of(selection@)[i] == selection@[i].0);
    }
}

} // verus!
