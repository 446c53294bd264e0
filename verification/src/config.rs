//! Load Lua configuration and execute clipboard rules.
//! The config is trusted: it can choose a notification command. Lua library
//! access and resource use are restricted; see [`crate::api`].

use vstd::prelude::*;
use vstd::utf8::*;

use crate::api::{install_api, install_limits, may_install, may_limit, RULE_LIBRARIES};
use crate::clipboard::{begun, ours, Begin, Board, Replacement, Rewrite, Rewriter};
use crate::interpreter::{
    argument_bytes, belongs, error_text, lemma_done, list_of, lua_bytes, lua_kind, lua_message,
    lua_string, pairs_of, passable, Handle, Kind,
};
use crate::limits::{Budget, HOOK_EVERY};
use crate::notes::Note;
use crate::paths::{absolute, bytes_of, join_path, joined};
use crate::pattern::groups;
use crate::reply::{read_reply, Reply};
use crate::rules::{
    argument_made, arguments_made, asked_rule, build_rule, called_in_turn, ends, in_turn, judge,
    law_only_asked_handlers_run, lemma_asked_rule, lemma_next_match, match_of, may_build,
    may_reply, next_call, next_match, noted, outcome, passed, replied, told, turn_by_turn, Rule,
    RuleError, Verdict,
};
use crate::selection::{law_the_known_types, Selection, SECRET_MIMES};
use crate::state::{
    executed, lemma_took, may_begin, passes, took, took_all, State, Step,
};
use crate::text::{
    ascii_lower, decimal, first_chars, from_utf8, law_lower_case_forgets_case_alone,
    law_placeholders_are_replaced, lossy, lossy_text, lower, name_index, names, owned_names,
    push_decimal, push_text, same_chars, substitute, substituted, texts,
};

verus! {

broadcast use vstd::string::group_string_axioms;

/// The notification command, unless the config sets another one.
pub const NOTIFY_COMMAND: [&'static str; 5] = [
    "notify-send",
    "-a",
    "clipmunge",
    "clipmunge",
    "{}",
];

/// Supported settings. Unknown keys produce a warning.
pub const SETTING_KEYS: [&'static str; 2] = ["notify_command", "secret_mimes"];

/// Limit notification text, which may contain clipboard data.
pub const MAX_NOTIFICATION: usize = 200;

// ---------------------------------------------------------------- settings

/// Globals a config may set with `clipmunge.settings {}`.
pub struct Settings {
    /// Notification argv. Substitute `{}` within each argument without a shell.
    pub notify_command: Vec<String>,
    /// Skip offers advertising any of these MIME types before reading.
    /// Config replaces the default list; an empty list disables this check.
    pub secret_mimes: Vec<String>,
}

impl Default for Settings {
    fn default() -> (r: Self)
        ensures
            texts(r.notify_command@) == names(NOTIFY_COMMAND@),
            texts(r.secret_mimes@) == names(SECRET_MIMES@),
    {
        Settings {
            notify_command: owned_names(NOTIFY_COMMAND.as_slice()),
            secret_mimes: owned_names(SECRET_MIMES.as_slice()),
        }
    }
}

/// Why settings cannot be used.
pub enum SettingsError {
    Field(mlua::Error),
    EmptyNotifyCommand,
}

impl SettingsError {
    pub open spec fn text(&self) -> Seq<char> {
        match self {
            SettingsError::Field(error) => lua_message(*error),
            SettingsError::EmptyNotifyCommand => "notify_command must not be empty"@,
        }
    }

    pub fn message(&self) -> (r: String)
        ensures
            r@ == self.text(),
    {
        match self {
            SettingsError::Field(error) => error_text(error),
            SettingsError::EmptyNotifyCommand => "notify_command must not be empty".to_string(),
        }
    }
}

/// What there is to say about one key: nothing if it is a known one.
pub open spec fn noted_key(key: Option<String>) -> Option<Note> {
    match key {
        None => Some(Note::OddSetting),
        Some(key) => if names(SETTING_KEYS@).contains(key@) {
            None
        } else {
            Some(Note::UnknownSetting { key })
        },
    }
}

/// Check one key, which is text if it has one. Keys that nobody asked for are only
/// noted.
pub fn key_note(key: Option<String>) -> (r: Option<Note>)
    ensures
        r == noted_key(key),
{
    match key {
        Some(key) => {
            if name_index(key.as_str(), SETTING_KEYS.as_slice()) >= SETTING_KEYS.len() {
                Some(Note::UnknownSetting { key })
            } else {
                None
            }
        },
        None => Some(Note::OddSetting),
    }
}

/// What the notification command comes to: the given one, which must not be empty,
/// or the default.
pub open spec fn commanded(
    found: Result<Option<Vec<String>>, mlua::Error>,
    r: Result<Vec<String>, SettingsError>,
) -> bool {
    match found {
        Err(error) => r == Err::<Vec<String>, SettingsError>(SettingsError::Field(error)),
        Ok(Some(argv)) => r == if argv@.len() == 0 {
            Err::<Vec<String>, SettingsError>(SettingsError::EmptyNotifyCommand)
        } else {
            Ok(argv)
        },
        Ok(None) => r matches Ok(argv) && texts(argv@) == names(NOTIFY_COMMAND@),
    }
}

/// The notification command, from what was found for it.
pub fn command_or_default(found: Result<Option<Vec<String>>, mlua::Error>) -> (r: Result<
    Vec<String>,
    SettingsError,
>)
    ensures
        commanded(found, r),
{
    match found {
        Ok(Some(command)) => {
            if command.len() == 0 {
                return Err(SettingsError::EmptyNotifyCommand);
            }
            Ok(command)
        },
        Ok(None) => Ok(Settings::default().notify_command),
        Err(error) => Err(SettingsError::Field(error)),
    }
}

/// What the hints come to: the given ones, or the default. An empty list disables
/// the secret MIME check.
pub open spec fn advised(
    found: Result<Option<Vec<String>>, mlua::Error>,
    r: Result<Vec<String>, SettingsError>,
) -> bool {
    match found {
        Err(error) => r == Err::<Vec<String>, SettingsError>(SettingsError::Field(error)),
        Ok(Some(mimes)) => r == Ok::<Vec<String>, SettingsError>(mimes),
        Ok(None) => r matches Ok(mimes) && texts(mimes@) == names(SECRET_MIMES@),
    }
}

/// The hints, from what was found for them.
pub fn hints_or_default(found: Result<Option<Vec<String>>, mlua::Error>) -> (r: Result<
    Vec<String>,
    SettingsError,
>)
    ensures
        advised(found, r),
{
    match found {
        // An empty list disables the secret MIME check.
        Ok(Some(mimes)) => Ok(mimes),
        Ok(None) => Ok(Settings::default().secret_mimes),
        Err(error) => Err(SettingsError::Field(error)),
    }
}

/// A setting's key as text, if it is one.
pub open spec fn key_text(key: mlua::Value) -> Option<Seq<char>> {
    if lua_kind(key) == Kind::Text && valid_utf8(lua_bytes(lua_string(key))) {
        Some(decode_utf8(lua_bytes(lua_string(key))))
    } else {
        None
    }
}

/// The key of a setting.
fn setting_key(state: &State, key: mlua::Value) -> (r: Option<String>)
    requires
        belongs(state.lua(), Handle::Value(key)),
    ensures
        match r {
            Some(text) => key_text(key) == Some(text@),
            None => key_text(key) is None,
        },
{
    match state.as_string(key) {
        Some(s) => match state.text(&s) {
            Ok(text) => Some(text),
            Err(_) => None,
        },
        None => None,
    }
}

/// The steps of walking a table up to its end or the first fault, with these pairs
/// found.
pub open spec fn pair_steps(
    table: mlua::Table,
    found: Seq<(mlua::Value, mlua::Value)>,
    fault: Option<mlua::Error>,
) -> Seq<Step> {
    let pairs = found.map_values(
        |pair: (mlua::Value, mlua::Value)| Step::Pair(table, Some(Ok(pair))),
    );
    match fault {
        Some(error) => pairs.push(Step::Pair(table, Some(Err(error)))),
        None => if found.len() < usize::MAX {
            pairs.push(Step::Pair(table, None))
        } else {
            pairs
        },
    }
}

/// Whether this is what there is to say about the keys of settings, in their order.
pub open spec fn noted_keys(found: Seq<(mlua::Value, mlua::Value)>, notes: Seq<Note>) -> bool
    decreases found.len(),
{
    if found.len() == 0 {
        notes.len() == 0
    } else {
        exists|key: Option<String>|
            #![trigger noted_key(key)]
            key_text(found.last().0) == (match key {
                Some(text) => Some(text@),
                None => None,
            }) && match noted_key(key) {
                None => noted_keys(found.drop_last(), notes),
                Some(note) => notes.len() > 0 && notes.last() == note && noted_keys(
                    found.drop_last(),
                    notes.drop_last(),
                ),
            }
    }
}

/// What can come of checking the keys of settings: the table is walked up to its end
/// or the first fault.
pub open spec fn may_check_keys(
    before: State,
    after: State,
    table: mlua::Table,
    notes: Seq<Note>,
    fault: Option<mlua::Error>,
) -> bool {
    exists|start: State, found: Seq<(mlua::Value, mlua::Value)>|
        took(before, start, Step::Walk(table)) && #[trigger] took_all(
            start,
            after,
            pair_steps(table, found, fault),
        ) && noted_keys(found, notes)
}

/// Check the keys of settings.
fn check_keys(state: &mut State, table: &mlua::Table) -> (r: (Vec<Note>, Option<mlua::Error>))
    requires
        belongs(old(state).lua(), Handle::Table(*table)),
    ensures
        may_check_keys(*old(state), *final(state), *table, r.0@, r.1),
        final(state).lua() == old(state).lua(),
{
    let ghost lua = state.lua();
    let ghost before = *state;
    let mut walk = state.pairs(table);
    let ghost start = *state;
    let ghost mut found: Seq<(mlua::Value, mlua::Value)> = Seq::empty();
    let ghost mut steps: Seq<Step> = Seq::empty();
    assert(start.log() + steps =~= start.log());
    let mut notes: Vec<Note> = Vec::new();
    let mut count: usize = 0;
    while count < usize::MAX
        invariant
            before == *old(state),
            lua == before.lua(),
            state.lua() == lua,
            belongs(lua, Handle::Table(*table)),
            took(before, start, Step::Walk(*table)),
            pairs_of(walk) == *table,
            count == found.len(),
            steps == found.map_values(
                |pair: (mlua::Value, mlua::Value)| Step::Pair(*table, Some(Ok(pair))),
            ),
            took_all(start, *state, steps),
            noted_keys(found, notes@),
        decreases usize::MAX - count,
    {
        let ghost from = *state;
        let next = state.next_pair(&mut walk);
        proof {
            lemma_took(start, from, *state, steps, Step::Pair(*table, next));
        }
        match next {
            Some(Ok(pair)) => {
                let ghost earlier = found;
                proof {
                    found = found.push(pair);
                    assert(steps.push(Step::Pair(*table, Some(Ok(pair)))) =~= found.map_values(
                        |pair: (mlua::Value, mlua::Value)| Step::Pair(*table, Some(Ok(pair))),
                    ));
                    steps = steps.push(Step::Pair(*table, Some(Ok(pair))));
                    assert(found.drop_last() =~= earlier);
                    assert(found.last() == pair);
                }
                let ghost said = notes@;
                let key = setting_key(state, pair.0);
                let ghost named = key;
                if let Some(note) = key_note(key) {
                    notes.push(note);
                    assert(notes@.drop_last() =~= said);
                }
                assert(noted_key(named) is None ==> notes@ == said);
            },
            Some(Err(error)) => {
                assert(took_all(start, *state, pair_steps(*table, found, Some(error))));
                return (notes, Some(error));
            },
            None => {
                assert(took_all(start, *state, pair_steps(*table, found, None)));
                return (notes, None);
            },
        }
        count += 1;
    }
    assert(took_all(start, *state, pair_steps(*table, found, None)));
    (notes, None)
}

/// What can come of reading the settings in a table: the keys are checked, and then
/// the notification command and the hints are looked up, up to the first fault.
pub open spec fn may_read_settings(
    before: State,
    after: State,
    table: mlua::Table,
    r: Result<Settings, SettingsError>,
    notes: Seq<Note>,
) -> bool {
    exists|s1: State, fault: Option<mlua::Error>| #[trigger]
        may_check_keys(before, s1, table, notes, fault) && match fault {
            Some(error) => r == Err::<Settings, SettingsError>(SettingsError::Field(error))
                && after == s1,
            None => may_read_values(s1, after, table, r),
        }
}

/// What can come of reading the values of the known settings.
pub open spec fn may_read_values(
    before: State,
    after: State,
    table: mlua::Table,
    r: Result<Settings, SettingsError>,
) -> bool {
    exists|
        s1: State,
        found: Result<Option<Vec<String>>, mlua::Error>,
        command: Result<Vec<String>, SettingsError>,
    |
        #![trigger took(before, s1, Step::FindList(table, "notify_command"@, found)), commanded(
            found,
            command,
        )]
        took(before, s1, Step::FindList(table, "notify_command"@, found)) && commanded(
            found,
            command,
        ) && match command {
            Err(fault) => r == Err::<Settings, SettingsError>(fault) && after == s1,
            Ok(argv) => exists|
                found: Result<Option<Vec<String>>, mlua::Error>,
                hints: Result<Vec<String>, SettingsError>,
            |
                #![trigger took(s1, after, Step::FindList(table, "secret_mimes"@, found)), advised(
                    found,
                    hints,
                )]
                took(s1, after, Step::FindList(table, "secret_mimes"@, found)) && advised(
                    found,
                    hints,
                ) && r == match hints {
                    Err(fault) => Err(fault),
                    Ok(list) => Ok(Settings { notify_command: argv, secret_mimes: list }),
                },
        }
}

/// Read the settings in a table.
fn read_settings(state: &mut State, table: &mlua::Table) -> (r: (
    Result<Settings, SettingsError>,
    Vec<Note>,
))
    requires
        belongs(old(state).lua(), Handle::Table(*table)),
    ensures
        may_read_settings(*old(state), *final(state), *table, r.0, r.1@),
        r.0 matches Ok(settings) ==> settings.notify_command@.len() > 0,
        final(state).lua() == old(state).lua(),
{
    let (notes, fault) = check_keys(state, table);
    if let Some(error) = fault {
        return (Err(SettingsError::Field(error)), notes);
    }
    (read_values(state, table), notes)
}

/// Read the values of the known settings.
fn read_values(state: &mut State, table: &mlua::Table) -> (r: Result<Settings, SettingsError>)
    requires
        belongs(old(state).lua(), Handle::Table(*table)),
    ensures
        may_read_values(*old(state), *final(state), *table, r),
        r matches Ok(settings) ==> settings.notify_command@.len() > 0,
        final(state).lua() == old(state).lua(),
{
    let found = state.list_field(table, "notify_command");
    let command = command_or_default(found);
    let notify_command = match command {
        Ok(argv) => argv,
        Err(fault) => {
            return Err(fault);
        },
    };
    assert(names(NOTIFY_COMMAND@).len() == 5);
    assert(texts(notify_command@).len() == notify_command@.len());
    let found = state.list_field(table, "secret_mimes");
    let hints = hints_or_default(found);
    match hints {
        Ok(secret_mimes) => Ok(Settings { notify_command, secret_mimes }),
        Err(fault) => Err(fault),
    }
}

// ----------------------------------------------------------------- loading

/// Why a config did not load.
pub enum LoadError {
    Lua(mlua::Error),
    Evaluating { path: String, error: mlua::Error },
    /// The rule declared at this place, counting from 1, is none.
    Rule { number: usize, fault: RuleError },
    Settings(SettingsError),
}

impl LoadError {
    pub open spec fn text(&self) -> Seq<char> {
        match self {
            LoadError::Lua(error) => lua_message(*error),
            LoadError::Evaluating { path, error } => "evaluating "@ + path@ + ": "@ + lua_message(
                *error,
            ),
            LoadError::Rule { number, fault } => "rule #"@ + decimal(*number as nat) + ": "@
                + fault.text(),
            LoadError::Settings(fault) => fault.text(),
        }
    }

    pub fn message(&self) -> (r: String)
        ensures
            r@ == self.text(),
    {
        match self {
            LoadError::Lua(error) => error_text(error),
            LoadError::Evaluating { path, error } => {
                let mut out = "evaluating ".to_string();
                push_text(&mut out, path.as_str());
                push_text(&mut out, ": ");
                let reason = error_text(error);
                push_text(&mut out, reason.as_str());
                out
            },
            LoadError::Rule { number, fault } => {
                let mut out = "rule #".to_string();
                push_decimal(&mut out, *number);
                push_text(&mut out, ": ");
                let reason = fault.message();
                push_text(&mut out, reason.as_str());
                out
            },
            LoadError::Settings(fault) => fault.message(),
        }
    }
}

/// A config that did not load, and what there was to tell before.
pub struct LoadFailure {
    pub error: LoadError,
    pub notes: Vec<Note>,
}

impl LoadFailure {
    pub fn message(&self) -> (r: String)
        ensures
            r@ == self.error.text(),
    {
        self.error.message()
    }
}

/// What can come of finding the next declared rule and building it.
pub open spec fn may_declare(
    before: State,
    after: State,
    collected: mlua::Table,
    r: Result<Rule, RuleError>,
) -> bool {
    exists|mid: State, table: mlua::Table| #[trigger]
        took(before, mid, Step::Next(collected, Some(Ok(table)))) && may_build(
            mid,
            after,
            table,
            r,
        )
}

/// Whether these rules were found and built in order, each from one of these states
/// to the next.
pub open spec fn declared_in_order(
    states: Seq<State>,
    collected: mlua::Table,
    rules: Seq<Rule>,
) -> bool {
    &&& states.len() == rules.len() + 1
    &&& forall|i: int|
        0 <= i < rules.len() ==> may_declare(
            states[i],
            states[i + 1],
            collected,
            Ok::<Rule, RuleError>(#[trigger] rules[i]),
        )
}

/// What building the declared rules comes to after some of them: nothing more is
/// declared, or there is a fault.
pub open spec fn may_end(
    before: State,
    after: State,
    collected: mlua::Table,
    rules: Seq<Rule>,
    r: Result<Vec<Rule>, LoadError>,
) -> bool {
    match r {
        Ok(list) => list@ == rules && if rules.len() < usize::MAX {
            took(before, after, Step::Next(collected, None))
        } else {
            after == before
        },
        Err(LoadError::Lua(error)) => took(
            before,
            after,
            Step::Next(collected, Some(Err(error))),
        ),
        Err(LoadError::Rule { number, fault }) => number == rules.len() + 1 && may_declare(
            before,
            after,
            collected,
            Err::<Rule, RuleError>(fault),
        ),
        Err(_) => false,
    }
}

/// What can come of building the declared rules: their list is walked, and each is
/// built as it is found, up to the end or the first fault.
pub open spec fn may_collect(
    before: State,
    after: State,
    collected: mlua::Table,
    r: Result<Vec<Rule>, LoadError>,
) -> bool {
    exists|start: State, states: Seq<State>, rules: Seq<Rule>|
        took(before, start, Step::WalkList(collected)) && #[trigger] declared_in_order(
            states,
            collected,
            rules,
        ) && #[trigger] passes(states, start, states.last()) && may_end(
            states.last(),
            after,
            collected,
            rules,
            r,
        )
}

/// Whether the handlers of rules are no handles of another state.
pub open spec fn callable(lua: mlua::Lua, rules: Seq<Rule>) -> bool {
    forall|i: int|
        0 <= i < rules.len() ==> belongs(lua, Handle::Function((#[trigger] rules[i]).handler))
}

/// Build the declared rules in order, up to the first fault. A rule that is
/// declared while another one is read is found too.
fn collect_rules(state: &mut State, collected: &mlua::Table) -> (r: Result<Vec<Rule>, LoadError>)
    requires
        belongs(old(state).lua(), Handle::Table(*collected)),
    ensures
        may_collect(*old(state), *final(state), *collected, r),
        r matches Ok(rules) ==> callable(final(state).lua(), rules@),
        final(state).lua() == old(state).lua(),
{
    let ghost lua = state.lua();
    let ghost before = *state;
    let mut walk = state.list(collected);
    let ghost start = *state;
    let ghost mut states = seq![*state];
    let mut rules: Vec<Rule> = Vec::new();
    while rules.len() < usize::MAX
        invariant
            before == *old(state),
            lua == before.lua(),
            state.lua() == lua,
            belongs(lua, Handle::Table(*collected)),
            took(before, start, Step::WalkList(*collected)),
            list_of(walk) == *collected,
            passes(states, start, *state),
            declared_in_order(states, *collected, rules@),
            callable(lua, rules@),
        decreases usize::MAX - rules.len(),
    {
        let ghost from = *state;
        assert(passes(states, start, states.last()));
        assert(declared_in_order(states, *collected, rules@));
        let table = match state.next_table(&mut walk) {
            Some(Ok(table)) => table,
            Some(Err(error)) => {
                return Err(LoadError::Lua(error));
            },
            None => {
                return Ok(rules);
            },
        };
        let built = build_rule(state, &table);
        assert(may_declare(from, *state, *collected, built));
        match built {
            Ok(rule) => {
                let ghost earlier = rules@;
                rules.push(rule);
                proof {
                    let now = states.push(*state);
                    assert forall|i: int| 0 <= i < rules@.len() implies may_declare(
                        now[i],
                        now[i + 1],
                        *collected,
                        Ok::<Rule, RuleError>(#[trigger] rules@[i]),
                    ) by {
                        if i < earlier.len() {
                            assert(rules@[i] == earlier[i]);
                        }
                    }
                    states = now;
                }
            },
            Err(fault) => {
                return Err(LoadError::Rule { number: rules.len() + 1, fault });
            },
        }
    }
    assert(passes(states, start, states.last()));
    Ok(rules)
}

/// Where the config is by default: under an absolute XDG_CONFIG_HOME, falling
/// back to $HOME/.config.
pub open spec fn default_config(xdg: Option<Seq<u8>>, home: Option<Seq<u8>>) -> Option<Seq<u8>> {
    let base = match xdg {
        Some(dir) if absolute(dir) => Some(dir),
        _ => match home {
            Some(dir) => Some(joined(dir, bytes_of(".config"))),
            None => None,
        },
    };
    match base {
        Some(dir) => Some(joined(joined(dir, bytes_of("clipmunge")), bytes_of("config.lua"))),
        None => None,
    }
}

/// Whether one of these MIME types is on a list of hints, in any letter case.
pub open spec fn marked(mimes: Seq<Seq<char>>, hints: Seq<Seq<char>>) -> bool {
    exists|i: int, j: int|
        0 <= i < mimes.len() && 0 <= j < hints.len() && lower(#[trigger] mimes[i]) == lower(
            #[trigger] hints[j],
        )
}

/// The notification command for a text: its placeholders replaced by the first
/// `MAX_NOTIFICATION` characters, except in the program's name.
pub open spec fn notification(command: Seq<Seq<char>>, text: Seq<char>) -> Seq<Seq<char>> {
    let shown = if text.len() <= MAX_NOTIFICATION {
        text
    } else {
        text.take(MAX_NOTIFICATION as int)
    };
    Seq::new(
        command.len(),
        |i: int|
            if i == 0 {
                command[0]
            } else {
                substituted(command[i], shown)
            },
    )
}

// ------------------------------------------------------------------ engine

/// The rules and settings of one loaded config.
pub struct Engine {
    /// Where the handlers run. It is there whenever there are rules.
    state: Option<State>,
    rules: Vec<Rule>,
    /// Unresolved config path, so reloads follow replaced symlinks.
    path: Vec<u8>,
    settings: Settings,
    notify_enabled: bool,
    notes: Vec<Note>,
}

impl Engine {
    /// There is a program to notify with, and the handlers are those of the state.
    #[verifier::type_invariant]
    spec fn usable(self) -> bool {
        &&& self.settings.notify_command@.len() > 0
        &&& match self.state {
            Some(state) => callable(state.lua(), self.rules@),
            None => self.rules@.len() == 0,
        }
    }

    /// The state that the handlers run in.
    pub closed spec fn state(&self) -> State {
        self.state->0
    }

    pub closed spec fn rules(&self) -> Seq<Rule> {
        self.rules@
    }

    pub closed spec fn given_path(&self) -> Seq<u8> {
        self.path@
    }

    pub closed spec fn settings(&self) -> Settings {
        self.settings
    }

    pub closed spec fn notifies(&self) -> bool {
        self.notify_enabled
    }

    pub closed spec fn notes(&self) -> Seq<Note> {
        self.notes@
    }

    /// Use absolute XDG_CONFIG_HOME, falling back to $HOME/.config.
    /// Empty or relative XDG_CONFIG_HOME values are ignored.
    pub fn default_path(xdg: Option<&[u8]>, home: Option<&[u8]>) -> (r: Option<Vec<u8>>)
        ensures
            match r {
                Some(path) => default_config(byte_view(xdg), byte_view(home)) == Some(path@),
                None => default_config(byte_view(xdg), byte_view(home)) is None,
            },
    {
        let base = match xdg {
            Some(dir) if dir.len() > 0 && dir[0] == crate::paths::SEPARATOR => {
                vstd::slice::slice_to_vec(dir)
            },
            _ => match home {
                Some(dir) => join_path(dir, ".config".as_bytes()),
                None => {
                    return None;
                },
            },
        };
        let dir = join_path(base.as_slice(), "clipmunge".as_bytes());
        Some(join_path(dir.as_slice(), "config.lua".as_bytes()))
    }

    /// Build from the source of a config. Both of its paths, the one given and
    /// the one that it resolves to, determine the Lua module search directories.
    pub fn build(source: &str, given: &[u8], resolved: &[u8]) -> (r: Result<Self, LoadFailure>)
        ensures
            may_load(source@, given@, resolved@, r),
            r matches Ok(engine) ==> {
                &&& engine.given_path() == given@
                &&& engine.notifies()
                &&& engine.settings().notify_command@.len() > 0
            },
    {
        let mut notes: Vec<Note> = Vec::new();
        let mut state = match State::start(RULE_LIBRARIES.as_slice(), HOOK_EVERY) {
            Ok(state) => state,
            Err(error) => {
                return Err(LoadFailure { error: LoadError::Lua(error), notes });
            },
        };
        let ghost s0 = state;
        let unlimited = install_limits(&mut state);
        if let Some(error) = unlimited {
            notes.push(Note::NoMemoryLimit { error });
        }
        assert(notes@ =~= limit_notes(unlimited));
        let ghost s1 = state;
        let ready = make_ready(&mut state, given, resolved);
        let ghost s2 = state;
        let (collected, settings) = match ready {
            Ok(tables) => tables,
            Err(error) => {
                let r = Err(LoadFailure { error: LoadError::Lua(error), notes });
                assert(may_load_in(s0, source@, given@, resolved@, r));
                return r;
            },
        };
        let r = Engine::run(state, source, collected, settings, notes, given, resolved);
        assert(may_load_in(s0, source@, given@, resolved@, r));
        r
    }

    /// Run a config in a state that is ready, and read what it declared.
    fn run(
        state: State,
        source: &str,
        collected: mlua::Table,
        settings: mlua::Table,
        notes: Vec<Note>,
        given: &[u8],
        resolved: &[u8],
    ) -> (r: Result<Self, LoadFailure>)
        requires
            belongs(state.lua(), Handle::Table(collected)),
            belongs(state.lua(), Handle::Table(settings)),
        ensures
            may_run(state, source@, collected, settings, notes@, given@, resolved@, r),
            r matches Ok(engine) ==> {
                &&& engine.given_path() == given@
                &&& engine.notifies()
                &&& engine.settings().notify_command@.len() > 0
            },
    {
        let ghost told = notes@;
        let mut notes = notes;
        let mut state = state;
        let name = lossy(resolved);
        let done = state.execute(source, name.as_str(), Budget::new());
        if let Err(error) = done {
            return Err(
                LoadFailure { error: LoadError::Evaluating { path: name, error }, notes },
            );
        }
        let ghost ran = state;
        let built = collect_rules(&mut state, &collected);
        let rules = match built {
            Ok(rules) => rules,
            Err(error) => {
                let r = Err(LoadFailure { error, notes });
                assert(may_read(ran, collected, settings, told, given@, resolved@, r));
                return r;
            },
        };
        let ghost list = rules;
        let ghost collected_at = state;
        let ghost mut count: Seq<Note> = Seq::empty();
        if rules.len() == 0 {
            let note = Note::NoRules { path: name };
            proof {
                count = seq![note];
            }
            notes.push(note);
        }
        assert(notes@ =~= told + count);
        assert(count_notes(rules@, lossy_text(resolved@), count));
        let (read, ignored) = read_settings(&mut state, &settings);
        let ghost said = ignored@;
        let mut ignored = ignored;
        notes.append(&mut ignored);
        assert(notes@ =~= told + count + said);
        let r = match read {
            Ok(settings) => Ok(
                Engine {
                    state: Some(state),
                    rules,
                    path: vstd::slice::slice_to_vec(given),
                    settings,
                    notify_enabled: true,
                    notes,
                },
            ),
            Err(fault) => Err(LoadFailure { error: LoadError::Settings(fault), notes }),
        };
        assert(may_finish(collected_at, list, settings, told, given@, resolved@, r));
        assert(may_read(ran, collected, settings, told, given@, resolved@, r));
        r
    }

    /// A replacement engine, loaded from the same path, with this one's runtime
    /// notification settings.
    pub fn reload(&self, fresh: Self) -> (r: Self)
        ensures
            r.notifies() == self.notifies(),
            r.rules() == fresh.rules(),
            r.settings() == fresh.settings(),
            r.given_path() == fresh.given_path(),
            r.notes() == fresh.notes(),
            r.state() == fresh.state(),
    {
        let mut fresh = fresh;
        proof {
            use_type_invariant(&fresh);
        }
        fresh.notify_enabled = self.notify_enabled;
        fresh
    }

    pub fn set_notify(&mut self, yes: bool)
        ensures
            final(self).notifies() == yes,
            final(self).rules() == old(self).rules(),
            final(self).settings() == old(self).settings(),
            final(self).given_path() == old(self).given_path(),
            final(self).notes() == old(self).notes(),
            final(self).state() == old(self).state(),
    {
        proof {
            use_type_invariant(&*self);
        }
        self.notify_enabled = yes;
    }

    pub fn rule_names(&self) -> (r: Vec<&str>)
        ensures
            r@.map_values(|n: &str| n@) == self.rules().map_values(|rule: Rule| rule.name@),
    {
        let mut out: Vec<&str> = Vec::new();
        let mut i: usize = 0;
        while i < self.rules.len()
            invariant
                i <= self.rules.len(),
                out@.len() == i,
                forall|j: int| 0 <= j < i ==> (#[trigger] out@[j])@ == self.rules@[j].name@,
            decreases self.rules.len() - i,
        {
            out.push(self.rules[i].name.as_str());
            i += 1;
        }
        assert(out@.map_values(|n: &str| n@) =~= self.rules().map_values(
            |rule: Rule| rule.name@,
        ));
        out
    }

    /// The config path as it was given.
    pub fn path(&self) -> (r: &[u8])
        ensures
            r@ == self.given_path(),
    {
        self.path.as_slice()
    }

    /// Hand over what has been noted so far.
    pub fn take_notes(&mut self) -> (r: Vec<Note>)
        ensures
            r@ == old(self).notes(),
            final(self).notes().len() == 0,
            final(self).rules() == old(self).rules(),
            final(self).settings() == old(self).settings(),
            final(self).given_path() == old(self).given_path(),
            final(self).notifies() == old(self).notifies(),
            final(self).state() == old(self).state(),
    {
        proof {
            use_type_invariant(&*self);
        }
        let mut notes: Vec<Note> = Vec::new();
        core::mem::swap(&mut self.notes, &mut notes);
        notes
    }

}

/// An argument as Lua gets it: a string of the same bytes, or nil.
pub open spec fn same_argument(text: Option<String>, arg: Option<mlua::LuaString>) -> bool {
    match text {
        Some(text) => arg matches Some(s) && lua_bytes(s) == encode_utf8(text@),
        None => arg is None,
    }
}

/// The bytes of texts that are there.
pub open spec fn text_bytes(given: Seq<Option<String>>) -> Seq<Option<Seq<u8>>> {
    given.map_values(
        |text: Option<String>|
            match text {
                Some(text) => Some(encode_utf8(text@)),
                None => None,
            },
    )
}

/// The arguments of a handler as Lua gets them.
fn lua_arguments(state: &mut State, given: Vec<Option<String>>) -> (r: Result<
    Vec<Option<mlua::LuaString>>,
    mlua::Error,
>)
    ensures
        arguments_made(
            *old(state),
            *final(state),
            text_bytes(given@),
            match r {
                Ok(_) => Ok(()),
                Err(error) => Err(error),
            },
        ),
        final(state).lua() == old(state).lua(),
        r matches Ok(args) ==> args@.len() == given@.len() && forall|i: int|
            0 <= i < args@.len() ==> same_argument(given@[i], #[trigger] args@[i]),
        r matches Ok(args) ==> passable(final(state).lua(), args@),
{
    let ghost lua = state.lua();
    let ghost before = *state;
    let ghost wanted = text_bytes(given@);
    let ghost mut states = seq![*state];
    let mut args: Vec<Option<mlua::LuaString>> = Vec::new();
    for arg in it: given
        invariant
            it.seq() == given@,
            before == *old(state),
            lua == before.lua(),
            state.lua() == lua,
            wanted == text_bytes(given@),
            args@.len() == it.index(),
            passable(lua, args@),
            states.len() == it.index() + 1,
            passes(states, before, *state),
            forall|i: int|
                0 <= i < args@.len() ==> argument_made(
                    states[i],
                    states[i + 1],
                    #[trigger] wanted[i],
                    Ok(()),
                ),
            forall|i: int|
                0 <= i < args@.len() ==> same_argument(given@[i], #[trigger] args@[i]),
    {
        let ghost n = args@.len() as int;
        assert(given@[n] == arg);
        let ghost from = *state;
        assert(states[n] == from);
        match arg {
            Some(text) => {
                assert(wanted[n] == Some(encode_utf8(text@)));
                match state.new_string(text.as_str()) {
                    Ok(s) => {
                        args.push(Some(s));
                    },
                    Err(error) => {
                        assert(argument_made(
                            from,
                            *state,
                            wanted[n],
                            Err::<(), mlua::Error>(error),
                        ));
                        proof {
                            states = states.push(*state);
                        }
                        assert(passes(states, before, *state));
                        return Err(error);
                    },
                }
            },
            None => {
                assert(wanted[n] is None);
                args.push(None);
            },
        }
        assert(argument_made(from, *state, wanted[n], Ok(())));
        proof {
            states = states.push(*state);
        }
    }
    Ok(args)
}

/// Ask a rule that matches, with the groups of the match.
fn ask(state: &mut State, rule: &Rule, given: Vec<Option<String>>, incoming: &Selection) -> (r:
    Reply)
    requires
        belongs(old(state).lua(), Handle::Function(rule.handler)),
        match_of(*rule, incoming@) matches Some(found) && groups(given@) == found.skip(1),
    ensures
        may_reply(*old(state), *final(state), *rule, incoming@, r),
        final(state).lua() == old(state).lua(),
{
    let ghost wanted = passed(*rule, incoming@);
    assert(text_bytes(given@) =~= wanted) by {
        assert forall|i: int| 0 <= i < wanted.len() implies #[trigger] text_bytes(given@)[i]
            == wanted[i] by {
            assert(groups(given@)[i] == (match_of(*rule, incoming@)->0).skip(1)[i]);
        }
        assert(groups(given@).len() == wanted.len());
    }
    let ghost before = *state;
    let made = lua_arguments(state, given);
    let ghost s1 = *state;
    let args = match made {
        Ok(args) => {
            assert(arguments_made(before, s1, wanted, Ok(())));
            args
        },
        Err(error) => {
            assert(arguments_made(before, s1, wanted, Err::<(), mlua::Error>(error)));
            return Reply::NoArguments(error);
        },
    };
    assert(argument_bytes(args@) =~= wanted) by {
        assert forall|i: int| 0 <= i < wanted.len() implies argument_bytes(args@)[i]
            == wanted[i] by {
            assert(same_argument(given@[i], args@[i]));
            assert(text_bytes(given@)[i] == wanted[i]);
        }
    }
    // Each handler gets its own budget; a slow rule must not exhaust the next one's.
    let called = state.call_handler(&rule.handler, incoming, args, Budget::new());
    read_reply(state, called)
}

/// Ask the matching rules in declaration order for a replacement.
fn ask_rules(state: &mut State, rules: &[Rule], incoming: &Selection, notes: &mut Vec<Note>) -> (r:
    Option<Rewrite>)
    requires
        callable(old(state).lua(), rules@),
    ensures
        exists|replies: Seq<Reply>| #[trigger]
            in_turn(rules@, incoming@, 0, replies) && replied(
                *old(state),
                *final(state),
                rules@,
                incoming@,
                replies,
            ) && rewrite_view(r) == outcome(replies) && final(notes)@ == old(notes)@ + told(
                rules@,
                incoming@,
                replies,
            ),
        final(state).lua() == old(state).lua(),
{
    let ghost lua = state.lua();
    let ghost before = *state;
    let ghost noted_before = notes@;
    let ghost mut replies: Seq<Reply> = Seq::empty();
    let ghost mut states = seq![*state];
    let mut result: Option<Rewrite> = None;
    let mut from: usize = 0;
    assert forall|rest: Seq<Reply>| #[trigger]
        in_turn(rules@, incoming@, 0, rest) implies in_turn(
        rules@,
        incoming@,
        0,
        replies + rest,
    ) by {
        assert(replies + rest =~= rest);
    }
    loop
        invariant_except_break
            result is None,
            from <= rules@.len(),
            forall|rest: Seq<Reply>| #[trigger]
                in_turn(rules@, incoming@, from as int, rest) ==> in_turn(
                    rules@,
                    incoming@,
                    0,
                    replies + rest,
                ),
            replies.len() > 0 ==> !ends(replies.last()),
            notes@ == noted_before + told(rules@, incoming@, replies),
            passes(states, before, *state),
            turn_by_turn(states, rules@, incoming@, replies),
            asked_rule(rules@, incoming@, 0, replies.len()) == next_match(
                rules@,
                incoming@,
                from as int,
            ),
        invariant
            before == *old(state),
            noted_before == old(notes)@,
            lua == before.lua(),
            state.lua() == lua,
            callable(lua, rules@),
        ensures
            exists|all: Seq<Reply>| #[trigger]
                in_turn(rules@, incoming@, 0, all) && replied(
                    before,
                    *state,
                    rules@,
                    incoming@,
                    all,
                ) && rewrite_view(result) == outcome(all) && notes@ == noted_before + told(
                    rules@,
                    incoming@,
                    all,
                ),
        decreases rules@.len() - from,
    {
        let call = match next_call(rules, incoming, from) {
            Some(call) => call,
            None => {
                proof {
                    let none = Seq::<Reply>::empty();
                    assert(in_turn(rules@, incoming@, from as int, none));
                    assert(replies + none =~= replies);
                    assert(replied(before, *state, rules@, incoming@, replies));
                }
                break;
            },
        };
        let index = call.rule;
        proof {
            lemma_next_match(rules@, incoming@, from as int);
        }
        let ghost asked_at = *state;
        let rule = &rules[index];
        let reply = ask(state, rule, call.args, incoming);
        let ghost one = seq![reply];
        proof {
            lemma_asked_rule(rules@, incoming@, 0, replies.len());
            let now = states.push(*state);
            assert(states[replies.len() as int] == asked_at);
            assert forall|k: nat| k < (replies + one).len() implies may_reply(
                now[k as int],
                now[k as int + 1],
                rules@[#[trigger] asked_rule(rules@, incoming@, 0, k)],
                incoming@,
                (replies + one)[k as int],
            ) by {
                if k < replies.len() {
                    assert((replies + one)[k as int] == replies[k as int]);
                }
            }
            assert(passes(now, before, *state));
            assert(turn_by_turn(now, rules@, incoming@, replies + one));
            states = now;
            assert((replies + one).drop_last() =~= replies);
            assert((replies + one).last() == reply);
            assert(asked_rule(rules@, incoming@, 0, replies.len()) == index);
            if ends(reply) {
                assert(in_turn(rules@, incoming@, from as int, one));
            } else {
                assert forall|rest: Seq<Reply>| #[trigger]
                    in_turn(rules@, incoming@, index + 1, rest) implies in_turn(
                    rules@,
                    incoming@,
                    0,
                    (replies + one) + rest,
                ) by {
                    let longer = one + rest;
                    assert(longer.drop_first() =~= rest);
                    assert(longer[0] == reply);
                    assert(in_turn(rules@, incoming@, from as int, longer));
                    assert(replies + longer =~= (replies + one) + rest);
                }
            }
            assert(told(rules@, incoming@, replies + one) == match noted(
                rules@[index as int].name,
                reply,
            ) {
                Some(note) => told(rules@, incoming@, replies).push(note),
                None => told(rules@, incoming@, replies),
            });
            replies = replies + one;
            assert(replied(before, *state, rules@, incoming@, replies));
        }
        match judge(&rule.name, reply) {
            Verdict::Pass(note) => {
                if let Some(note) = note {
                    notes.push(note);
                }
            },
            Verdict::Stop(note) => {
                notes.push(note);
                break;
            },
            Verdict::Done(rewrite, note) => {
                notes.push(note);
                result = Some(rewrite);
                break;
            },
        }
        assert(index < rules.len());
        from = index + 1;
    }
    result
}

/// A list of bytes, where there is one.
pub open spec fn byte_view(bytes: Option<&[u8]>) -> Option<Seq<u8>> {
    match bytes {
        Some(bytes) => Some(bytes@),
        None => None,
    }
}

/// What can come of making a state ready: it gets tables for the declared rules and
/// settings, and has the API installed, up to the first fault.
pub open spec fn may_make_ready(
    before: State,
    after: State,
    given: Seq<u8>,
    resolved: Seq<u8>,
    r: Result<(mlua::Table, mlua::Table), mlua::Error>,
) -> bool {
    exists|s1: State, first: Result<mlua::Table, mlua::Error>| #[trigger]
        took(before, s1, Step::MakeTable(first)) && match first {
            Err(error) => r == Err::<(mlua::Table, mlua::Table), mlua::Error>(error) && after
                == s1,
            Ok(collected) => exists|s2: State, second: Result<mlua::Table, mlua::Error>| #[trigger]
                took(s1, s2, Step::MakeTable(second)) && match second {
                    Err(error) => r == Err::<(mlua::Table, mlua::Table), mlua::Error>(error)
                        && after == s2,
                    Ok(settings) => exists|installed: Result<(), mlua::Error>| #[trigger]
                        may_install(s2, after, collected, settings, given, resolved, installed)
                            && r == match installed {
                            Err(error) => Err(error),
                            Ok(_) => Ok((collected, settings)),
                        },
                },
        }
}

/// Make a state ready to run a config. Handed back are the table that declared
/// rules go into, and the one for settings.
fn make_ready(state: &mut State, given: &[u8], resolved: &[u8]) -> (r: Result<
    (mlua::Table, mlua::Table),
    mlua::Error,
>)
    ensures
        may_make_ready(*old(state), *final(state), given@, resolved@, r),
        final(state).lua() == old(state).lua(),
        r matches Ok(tables) ==> {
            &&& belongs(final(state).lua(), Handle::Table(tables.0))
            &&& belongs(final(state).lua(), Handle::Table(tables.1))
        },
{
    let collected = state.new_table()?;
    let settings = state.new_table()?;
    install_api(state, &collected, &settings, given, resolved)?;
    Ok((collected, settings))
}

/// What loading tells of the memory limit.
pub open spec fn limit_notes(unlimited: Option<mlua::Error>) -> Seq<Note> {
    match unlimited {
        Some(error) => seq![Note::NoMemoryLimit { error }],
        None => Seq::empty(),
    }
}

/// Whether this is what loading tells of the number of rules: that there are
/// none, or nothing.
pub open spec fn count_notes(rules: Seq<Rule>, name: Seq<char>, notes: Seq<Note>) -> bool {
    if rules.len() == 0 {
        notes.len() == 1 && (notes[0] matches Note::NoRules { path } && path@ == name)
    } else {
        notes.len() == 0
    }
}

/// A load that failed for this reason, having told this.
pub open spec fn failed(
    r: Result<Engine, LoadFailure>,
    error: LoadError,
    notes: Seq<Note>,
) -> bool {
    r matches Err(failure) && failure.error == error && failure.notes@ == notes
}

/// What can come of loading once the rules are built: the settings are read, and
/// either one of them cannot be used or there is an engine.
pub open spec fn may_finish(
    before: State,
    rules: Vec<Rule>,
    settings: mlua::Table,
    notes: Seq<Note>,
    given: Seq<u8>,
    resolved: Seq<u8>,
    r: Result<Engine, LoadFailure>,
) -> bool {
    exists|
        after: State,
        read: Result<Settings, SettingsError>,
        ignored: Seq<Note>,
        count: Seq<Note>,
    |
        #![trigger may_read_settings(before, after, settings, read, ignored), count_notes(
            rules@,
            lossy_text(resolved),
            count,
        )]
        may_read_settings(before, after, settings, read, ignored) && count_notes(
            rules@,
            lossy_text(resolved),
            count,
        ) && match read {
            Err(fault) => failed(r, LoadError::Settings(fault), notes + count + ignored),
            Ok(made) => match r {
                Ok(engine) => {
                    &&& engine.state() == after
                    &&& engine.rules() == rules@
                    &&& engine.settings() == made
                    &&& engine.given_path() == given
                    &&& engine.notifies()
                    &&& engine.notes() == notes + count + ignored
                },
                Err(_) => false,
            },
        }
}

/// What can come of loading once the config has run: the declared rules are built
/// and the settings read, up to the first fault.
pub open spec fn may_read(
    before: State,
    collected: mlua::Table,
    settings: mlua::Table,
    notes: Seq<Note>,
    given: Seq<u8>,
    resolved: Seq<u8>,
    r: Result<Engine, LoadFailure>,
) -> bool {
    exists|s1: State, built: Result<Vec<Rule>, LoadError>| #[trigger]
        may_collect(before, s1, collected, built) && match built {
            Err(error) => failed(r, error, notes),
            Ok(rules) => may_finish(s1, rules, settings, notes, given, resolved, r),
        }
}

/// What can come of loading in a state that is ready: the source of the config is
/// run under its resolved path on a whole budget, and then what it declared is read.
pub open spec fn may_run(
    before: State,
    source: Seq<char>,
    collected: mlua::Table,
    settings: mlua::Table,
    notes: Seq<Note>,
    given: Seq<u8>,
    resolved: Seq<u8>,
    r: Result<Engine, LoadFailure>,
) -> bool {
    exists|s1: State, done: Result<(), mlua::Error>| #[trigger]
        executed(before, s1, source, lossy_text(resolved), 0, done) && match done {
            Err(fault) => match r {
                Err(failure) => {
                    &&& failure.error matches LoadError::Evaluating { path, error }
                    &&& path@ == lossy_text(resolved)
                    &&& error == fault
                    &&& failure.notes@ == notes
                },
                Ok(_) => false,
            },
            Ok(_) => may_read(s1, collected, settings, notes, given, resolved, r),
        }
}

/// What can come of loading in a state that was started: its memory is limited, it
/// is made ready with the sandbox and the API, and only then the config is run.
pub open spec fn may_load_in(
    before: State,
    source: Seq<char>,
    given: Seq<u8>,
    resolved: Seq<u8>,
    r: Result<Engine, LoadFailure>,
) -> bool {
    exists|
        s1: State,
        unlimited: Option<mlua::Error>,
        s2: State,
        ready: Result<(mlua::Table, mlua::Table), mlua::Error>,
    |
        #![trigger may_limit(before, s1, unlimited), may_make_ready(s1, s2, given, resolved, ready)]
        may_limit(before, s1, unlimited) && may_make_ready(s1, s2, given, resolved, ready)
            && match ready {
            Err(error) => failed(r, LoadError::Lua(error), limit_notes(unlimited)),
            Ok((collected, settings)) => may_run(
                s2,
                source,
                collected,
                settings,
                limit_notes(unlimited),
                given,
                resolved,
                r,
            ),
        }
}

/// What can come of loading a config: a state with the libraries of a config that
/// spends from its budget is started, and the config is loaded in it.
pub open spec fn may_load(
    source: Seq<char>,
    given: Seq<u8>,
    resolved: Seq<u8>,
    r: Result<Engine, LoadFailure>,
) -> bool {
    exists|started: Result<State, mlua::Error>| #[trigger]
        may_begin(RULE_LIBRARIES@, HOOK_EVERY, started) && match started {
            Err(error) => failed(r, LoadError::Lua(error), Seq::empty()),
            Ok(state) => may_load_in(state, source, given, resolved, r),
        }
}

/// What a rewrite is, where there is one.
pub open spec fn rewrite_view(r: Option<Rewrite>) -> Option<Replacement> {
    match r {
        Some(rewrite) => Some(rewrite@),
        None => None,
    }
}

impl Rewriter for Engine {
    /// Ask the matching rules in declaration order for a replacement.
    fn rewrite(&mut self, incoming: &Selection) -> (r: Option<Rewrite>)
        ensures
            exists|replies: Seq<Reply>| #[trigger]
                in_turn(old(self).rules(), incoming@, 0, replies) && replied(
                    old(self).state(),
                    final(self).state(),
                    old(self).rules(),
                    incoming@,
                    replies,
                ) && called_in_turn(
                    old(self).state(),
                    final(self).state(),
                    old(self).rules(),
                    incoming@,
                    replies,
                ) && rewrite_view(r) == outcome(replies) && final(self).notes() == old(
                    self,
                ).notes() + told(old(self).rules(), incoming@, replies),
            final(self).rules() == old(self).rules(),
            final(self).settings() == old(self).settings(),
            final(self).given_path() == old(self).given_path(),
            final(self).notifies() == old(self).notifies(),
    {
        proof {
            use_type_invariant(&*self);
        }
        let ghost before = self.state();
        let ghost said = self.notes@;
        let mut rules: Vec<Rule> = Vec::new();
        core::mem::swap(&mut self.rules, &mut rules);
        let mut held: Option<State> = None;
        core::mem::swap(&mut self.state, &mut held);
        let mut notes: Vec<Note> = Vec::new();
        core::mem::swap(&mut self.notes, &mut notes);
        let mut result: Option<Rewrite> = None;
        let ghost mut all: Seq<Reply> = Seq::empty();
        match held {
            Some(state) => {
                let mut state = state;
                result = ask_rules(&mut state, rules.as_slice(), incoming, &mut notes);
                proof {
                    all = choose|all: Seq<Reply>| #[trigger]
                        in_turn(rules@, incoming@, 0, all) && replied(
                            before,
                            state,
                            rules@,
                            incoming@,
                            all,
                        ) && rewrite_view(result) == outcome(all) && notes@ == said + told(
                            rules@,
                            incoming@,
                            all,
                        );
                }
                self.state = Some(state);
            },
            None => {
                proof {
                    assert(in_turn(rules@, incoming@, 0, all));
                    assert(passes(seq![before], before, before));
                    assert(turn_by_turn(seq![before], rules@, incoming@, all));
                    assert(said + told(rules@, incoming@, all) =~= said);
                }
            },
        }
        proof {
            law_only_asked_handlers_run(before, self.state(), rules@, incoming@, all);
            assert(in_turn(old(self).rules(), incoming@, 0, all));
        }
        self.rules = rules;
        self.notes = notes;
        result
    }

    /// The command that notifies of a rewrite, unless notifications are off.
    fn notify(&self, text: &str) -> (r: Option<Vec<String>>)
        ensures
            match r {
                Some(argv) => self.notifies() && texts(argv@) == notification(
                    texts(self.settings().notify_command@),
                    text@,
                ),
                None => !self.notifies(),
            },
    {
        proof {
            use_type_invariant(self);
        }
        if !self.notify_enabled {
            return None;
        }
        let shown = first_chars(text, MAX_NOTIFICATION);
        let command = &self.settings.notify_command;
        let ghost all = notification(texts(command@), text@);
        let mut argv: Vec<String> = Vec::new();
        argv.push(command[0].clone());
        let mut i: usize = 1;
        while i < command.len()
            invariant
                1 <= i <= command.len(),
                command == &self.settings.notify_command,
                all == notification(texts(command@), text@),
                all.len() == command@.len(),
                shown@ == if text@.len() <= MAX_NOTIFICATION {
                    text@
                } else {
                    text@.take(MAX_NOTIFICATION as int)
                },
                argv@.len() == i,
                forall|j: int| 0 <= j < i ==> (#[trigger] argv@[j])@ == all[j],
            decreases command.len() - i,
        {
            argv.push(substitute(command[i].as_str(), shown.as_str()));
            assert(texts(command@)[i as int] == command@[i as int]@);
            i += 1;
        }
        assert(texts(argv@) =~= all);
        Some(argv)
    }

    /// Whether a MIME type that an offer announces is one of the secret ones.
    fn is_secret(&self, mimes: &[String]) -> (r: bool)
        ensures
            r == marked(texts(mimes@), texts(self.settings().secret_mimes@)),
    {
        let hints = self.settings.secret_mimes.as_slice();
        let mut i: usize = 0;
        while i < mimes.len()
            invariant
                i <= mimes.len(),
                hints@ == self.settings.secret_mimes@,
                forall|a: int, b: int|
                    0 <= a < i && 0 <= b < hints@.len() ==> lower(#[trigger] texts(mimes@)[a])
                        != lower(#[trigger] texts(hints@)[b]),
            decreases mimes.len() - i,
        {
            let mime = ascii_lower(mimes[i].as_str());
            let mut j: usize = 0;
            while j < hints.len()
                invariant
                    i < mimes.len(),
                    j <= hints.len(),
                    mime@ == lower(texts(mimes@)[i as int]),
                    hints@ == self.settings.secret_mimes@,
                    forall|b: int|
                        0 <= b < j ==> mime@ != lower(#[trigger] texts(hints@)[b]),
                decreases hints.len() - j,
            {
                let hint = ascii_lower(hints[j].as_str());
                assert(texts(hints@)[j as int] == hints@[j as int]@);
                if same_chars(mime.as_slice(), hint.as_slice()) {
                    assert(lower(texts(mimes@)[i as int]) == lower(texts(hints@)[j as int]));
                    return true;
                }
                j += 1;
            }
            i += 1;
        }
        false
    }
}

// -------------------------------------------------------------------- laws

/// Settings that the config does not make have their defaults, whatever keys nobody
/// asked for it has besides. An empty notification command is refused.
pub proof fn law_settings_have_defaults(
    before: State,
    after: State,
    table: mlua::Table,
    r: Result<Settings, SettingsError>,
)
    requires
        may_read_values(before, after, table, r),
    ensures
        exists|s1: State, command: Result<Option<Vec<String>>, mlua::Error>| #[trigger]
            took(before, s1, Step::FindList(table, "notify_command"@, command)) && match command {
                Ok(Some(argv)) => argv@.len() == 0 ==> r == Err::<Settings, SettingsError>(
                    SettingsError::EmptyNotifyCommand,
                ),
                Ok(None) => r matches Ok(settings) ==> texts(settings.notify_command@) == names(
                    NOTIFY_COMMAND@,
                ),
                Err(error) => r == Err::<Settings, SettingsError>(SettingsError::Field(error)),
            },
        r matches Ok(settings) ==> exists|s1: State, hints: Option<Vec<String>>| #[trigger]
            took(s1, after, Step::FindList(table, "secret_mimes"@, Ok(hints))) && texts(
                settings.secret_mimes@,
            ) == match hints {
                Some(list) => texts(list@),
                None => names(SECRET_MIMES@),
            },
{
    let (s1, found, command) = choose|
        s1: State,
        found: Result<Option<Vec<String>>, mlua::Error>,
        command: Result<Vec<String>, SettingsError>,
    |
        #![trigger took(before, s1, Step::FindList(table, "notify_command"@, found)), commanded(
            found,
            command,
        )]
        took(before, s1, Step::FindList(table, "notify_command"@, found)) && commanded(
            found,
            command,
        ) && match command {
            Err(fault) => r == Err::<Settings, SettingsError>(fault) && after == s1,
            Ok(argv) => exists|
                found: Result<Option<Vec<String>>, mlua::Error>,
                hints: Result<Vec<String>, SettingsError>,
            |
                #![trigger took(s1, after, Step::FindList(table, "secret_mimes"@, found)), advised(
                    found,
                    hints,
                )]
                took(s1, after, Step::FindList(table, "secret_mimes"@, found)) && advised(
                    found,
                    hints,
                ) && r == match hints {
                    Err(fault) => Err(fault),
                    Ok(list) => Ok(Settings { notify_command: argv, secret_mimes: list }),
                },
        };
    if let Ok(settings) = r {
        let (hinted, hints) = choose|
            found: Result<Option<Vec<String>>, mlua::Error>,
            hints: Result<Vec<String>, SettingsError>,
        |
            #![trigger took(s1, after, Step::FindList(table, "secret_mimes"@, found)), advised(
                found,
                hints,
            )]
            took(s1, after, Step::FindList(table, "secret_mimes"@, found)) && advised(found, hints)
                && r == match hints {
                Err(fault) => Err(fault),
                Ok(list) => Ok(
                    Settings { notify_command: command->Ok_0, secret_mimes: list },
                ),
            };
        assert(took(s1, after, Step::FindList(table, "secret_mimes"@, Ok(hinted->Ok_0))));
    }
}

/// The rules of an engine are what its config declared: they were looked up and
/// built in order, up to the end of the list, after the config had run to its end,
/// and it was run once the sandbox and the API were in place, in a state in which
/// nothing had been run before.
pub proof fn law_an_engine_has_the_declared_rules(
    source: Seq<char>,
    given: Seq<u8>,
    resolved: Seq<u8>,
    engine: Engine,
)
    requires
        may_load(source, given, resolved, Ok::<Engine, LoadFailure>(engine)),
    ensures
        exists|
            fresh: State,
            ready: State,
            ran: State,
            read: State,
            collected: mlua::Table,
            settings: mlua::Table,
            rules: Vec<Rule>,
        |
            #![trigger may_install(
                fresh,
                ready,
                collected,
                settings,
                given,
                resolved,
                Ok::<(), mlua::Error>(()),
            ), may_collect(ran, read, collected, Ok::<Vec<Rule>, LoadError>(rules))]
            {
                &&& fresh.log().len() == 3
                &&& may_install(
                    fresh,
                    ready,
                    collected,
                    settings,
                    given,
                    resolved,
                    Ok::<(), mlua::Error>(()),
                )
                &&& executed(
                    ready,
                    ran,
                    source,
                    lossy_text(resolved),
                    0,
                    Ok::<(), mlua::Error>(()),
                )
                &&& may_collect(ran, read, collected, Ok::<Vec<Rule>, LoadError>(rules))
                &&& engine.rules() == rules@
            },
{
    let r = Ok::<Engine, LoadFailure>(engine);
    let started = choose|started: Result<State, mlua::Error>| #[trigger]
        may_begin(RULE_LIBRARIES@, HOOK_EVERY, started) && match started {
            Err(_) => false,
            Ok(state) => may_load_in(state, source, given, resolved, r),
        };
    let s0 = started->Ok_0;
    let (s1, unlimited, ready, tables) = choose|
        s1: State,
        unlimited: Option<mlua::Error>,
        s2: State,
        ready: Result<(mlua::Table, mlua::Table), mlua::Error>,
    |
        #![trigger may_limit(s0, s1, unlimited), may_make_ready(s1, s2, given, resolved, ready)]
        may_limit(s0, s1, unlimited) && may_make_ready(s1, s2, given, resolved, ready)
            && match ready {
            Err(_) => false,
            Ok((collected, settings)) => may_run(
                s2,
                source,
                collected,
                settings,
                limit_notes(unlimited),
                given,
                resolved,
                r,
            ),
        };
    let (collected, settings) = tables->Ok_0;
    let (ran, done) = choose|ran: State, done: Result<(), mlua::Error>| #[trigger]
        executed(ready, ran, source, lossy_text(resolved), 0, done) && match done {
            Err(_) => false,
            Ok(_) => may_read(
                ran,
                collected,
                settings,
                limit_notes(unlimited),
                given,
                resolved,
                r,
            ),
        };
    lemma_done(done);
    let (read, built) = choose|read: State, built: Result<Vec<Rule>, LoadError>| #[trigger]
        may_collect(ran, read, collected, built) && match built {
            Err(_) => false,
            Ok(rules) => may_finish(
                read,
                rules,
                settings,
                limit_notes(unlimited),
                given,
                resolved,
                r,
            ),
        };
    let (t1, first) = choose|t1: State, first: Result<mlua::Table, mlua::Error>| #[trigger]
        took(s1, t1, Step::MakeTable(first)) && match first {
            Err(_) => false,
            Ok(one) => exists|t2: State, second: Result<mlua::Table, mlua::Error>| #[trigger]
                took(t1, t2, Step::MakeTable(second)) && match second {
                    Err(_) => false,
                    Ok(two) => exists|installed: Result<(), mlua::Error>| #[trigger]
                        may_install(t2, ready, one, two, given, resolved, installed) && tables
                            == match installed {
                            Err(error) => Err(error),
                            Ok(_) => Ok((one, two)),
                        },
                },
        };
    let (fresh, second) = choose|t2: State, second: Result<mlua::Table, mlua::Error>| #[trigger]
        took(t1, t2, Step::MakeTable(second)) && match second {
            Err(_) => false,
            Ok(two) => exists|installed: Result<(), mlua::Error>| #[trigger]
                may_install(t2, ready, collected, two, given, resolved, installed) && tables
                    == match installed {
                    Err(error) => Err(error),
                    Ok(_) => Ok((collected, two)),
                },
        };
    let installed = choose|installed: Result<(), mlua::Error>| #[trigger]
        may_install(fresh, ready, collected, settings, given, resolved, installed) && installed
            is Ok;
    lemma_done(installed);
}

/// The secret hint counts in any letter case.
pub proof fn law_hints_count_in_any_case(
    mimes: Seq<Seq<char>>,
    hints: Seq<Seq<char>>,
    i: int,
    mime: Seq<char>,
)
    requires
        0 <= i < mimes.len(),
        lower(mime) == lower(mimes[i]),
    ensures
        marked(mimes.update(i, mime), hints) == marked(mimes, hints),
{
    let other = mimes.update(i, mime);
    assert forall|a: int| 0 <= a < mimes.len() implies lower(#[trigger] mimes[a]) == lower(
        other[a],
    ) by {}
    if marked(mimes, hints) {
        let (a, b) = choose|a: int, b: int|
            0 <= a < mimes.len() && 0 <= b < hints.len() && lower(#[trigger] mimes[a]) == lower(
                #[trigger] hints[b],
            );
        assert(lower(other[a]) == lower(hints[b]));
    }
    if marked(other, hints) {
        let (a, b) = choose|a: int, b: int|
            0 <= a < other.len() && 0 <= b < hints.len() && lower(#[trigger] other[a]) == lower(
                #[trigger] hints[b],
            );
        assert(lower(mimes[a]) == lower(hints[b]));
    }
}

/// An offer is secret exactly when any announced type, at whatever place, is any
/// configured hint but for ASCII case.
pub proof fn law_any_hint_at_any_place_counts(mimes: Seq<Seq<char>>, hints: Seq<Seq<char>>)
    ensures
        marked(mimes, hints) <==> exists|i: int, j: int|
            0 <= i < mimes.len() && 0 <= j < hints.len() && (#[trigger] mimes[i]).len() == (
            #[trigger] hints[j]).len() && forall|k: int|
                0 <= k < mimes[i].len() ==> {
                    let x = #[trigger] mimes[i][k];
                    let y = hints[j][k];
                    ||| x == y
                    ||| 'A' <= x <= 'Z' && y as u32 == x as u32 + 32
                    ||| 'A' <= y <= 'Z' && x as u32 == y as u32 + 32
                },
{
    if marked(mimes, hints) {
        let (i, j) = choose|i: int, j: int|
            0 <= i < mimes.len() && 0 <= j < hints.len() && lower(#[trigger] mimes[i]) == lower(
                #[trigger] hints[j],
            );
        law_lower_case_forgets_case_alone(mimes[i], hints[j]);
    }
    if exists|i: int, j: int|
        0 <= i < mimes.len() && 0 <= j < hints.len() && (#[trigger] mimes[i]).len() == (
        #[trigger] hints[j]).len() && forall|k: int|
            0 <= k < mimes[i].len() ==> {
                let x = #[trigger] mimes[i][k];
                let y = hints[j][k];
                ||| x == y
                ||| 'A' <= x <= 'Z' && y as u32 == x as u32 + 32
                ||| 'A' <= y <= 'Z' && x as u32 == y as u32 + 32
            } {
        let (i, j) = choose|i: int, j: int|
            0 <= i < mimes.len() && 0 <= j < hints.len() && (#[trigger] mimes[i]).len() == (
            #[trigger] hints[j]).len() && forall|k: int|
                0 <= k < mimes[i].len() ==> {
                    let x = #[trigger] mimes[i][k];
                    let y = hints[j][k];
                    ||| x == y
                    ||| 'A' <= x <= 'Z' && y as u32 == x as u32 + 32
                    ||| 'A' <= y <= 'Z' && x as u32 == y as u32 + 32
                };
        law_lower_case_forgets_case_alone(mimes[i], hints[j]);
    }
}

/// A secret announcement stays secret when more types are announced before or after,
/// and when more hints are configured; nothing else makes one secret.
pub proof fn law_more_types_hide_no_hint(
    a: Seq<Seq<char>>,
    b: Seq<Seq<char>>,
    hints: Seq<Seq<char>>,
    more: Seq<Seq<char>>,
)
    ensures
        marked(a + b, hints) <==> marked(a, hints) || marked(b, hints),
        marked(a, hints + more) <==> marked(a, hints) || marked(a, more),
{
    let all = a + b;
    let every = hints + more;
    if marked(a, hints) {
        let (i, j) = choose|i: int, j: int|
            0 <= i < a.len() && 0 <= j < hints.len() && lower(#[trigger] a[i]) == lower(
                #[trigger] hints[j],
            );
        assert(lower(all[i]) == lower(hints[j]));
        assert(lower(a[i]) == lower(every[j]));
    }
    if marked(b, hints) {
        let (i, j) = choose|i: int, j: int|
            0 <= i < b.len() && 0 <= j < hints.len() && lower(#[trigger] b[i]) == lower(
                #[trigger] hints[j],
            );
        assert(lower(all[i + a.len()]) == lower(hints[j]));
    }
    if marked(a, more) {
        let (i, j) = choose|i: int, j: int|
            0 <= i < a.len() && 0 <= j < more.len() && lower(#[trigger] a[i]) == lower(
                #[trigger] more[j],
            );
        assert(lower(a[i]) == lower(every[j + hints.len()]));
    }
    if marked(all, hints) {
        let (i, j) = choose|i: int, j: int|
            0 <= i < all.len() && 0 <= j < hints.len() && lower(#[trigger] all[i]) == lower(
                #[trigger] hints[j],
            );
        if i < a.len() {
            assert(lower(a[i]) == lower(hints[j]));
        } else {
            assert(lower(b[i - a.len()]) == lower(hints[j]));
        }
    }
    if marked(a, every) {
        let (i, j) = choose|i: int, j: int|
            0 <= i < a.len() && 0 <= j < every.len() && lower(#[trigger] a[i]) == lower(
                #[trigger] every[j],
            );
        if j < hints.len() {
            assert(lower(a[i]) == lower(hints[j]));
        } else {
            assert(lower(a[i]) == lower(more[j - hints.len()]));
        }
    }
}

/// The order in which types are announced makes no difference to whether an offer is
/// secret, nor how often one of them is announced.
pub proof fn law_the_order_of_types_hides_no_hint(
    a: Seq<Seq<char>>,
    b: Seq<Seq<char>>,
    hints: Seq<Seq<char>>,
)
    requires
        forall|m: Seq<char>| a.contains(m) <==> b.contains(m),
    ensures
        marked(a, hints) == marked(b, hints),
{
    lemma_hint_among(a, b, hints);
    lemma_hint_among(b, a, hints);
}

proof fn lemma_hint_among(a: Seq<Seq<char>>, b: Seq<Seq<char>>, hints: Seq<Seq<char>>)
    requires
        forall|m: Seq<char>| a.contains(m) <==> b.contains(m),
    ensures
        marked(a, hints) ==> marked(b, hints),
{
    if marked(a, hints) {
        let (i, j) = choose|i: int, j: int|
            0 <= i < a.len() && 0 <= j < hints.len() && lower(#[trigger] a[i]) == lower(
                #[trigger] hints[j],
            );
        assert(a.contains(a[i]));
        assert(b.contains(a[i]));
        let k = choose|k: int| 0 <= k < b.len() && b[k] == a[i];
        assert(lower(b[k]) == lower(hints[j]));
    }
}

/// An empty list of hints honours nothing.
pub proof fn law_no_hints_no_secrets(mimes: Seq<Seq<char>>)
    ensures
        !marked(mimes, Seq::empty()),
{
}

/// Whether the current offer has one of the engine's hints among its MIME types.
pub open spec fn hinted(engine: &Engine, b: Board) -> bool {
    b.current matches Some((_, mimes)) && marked(mimes, texts(engine.settings().secret_mimes@))
}

/// An offer is skipped as a secret if and only if it has a configured hint among
/// its MIME types, and one with a hint is not read.
pub proof fn law_secret_offers_are_not_read(engine: &Engine, b: Board, begin: Begin)
    requires
        begun(b, engine, begin),
    ensures
        begin is Secret <==> b.got_selection && !ours(b) && hinted(engine, b),
        hinted(engine, b) ==> !(begin is Read),
{
}

/// A notification runs the configured program with as many arguments as
/// configured, whatever the text is.
pub proof fn law_a_notification_keeps_the_command(command: Seq<Seq<char>>, text: Seq<char>)
    requires
        command.len() > 0,
    ensures
        notification(command, text).len() == command.len(),
        notification(command, text)[0] == command[0],
{
}

/// Each argument of a notification but the program is the configured one with its
/// placeholders replaced by the text, of which no more than two hundred characters
/// are shown, and a configured argument without a placeholder is left alone.
pub proof fn law_a_notification_shows_the_beginning(
    command: Seq<Seq<char>>,
    text: Seq<char>,
    i: int,
)
    requires
        0 < i < command.len(),
    ensures
        text.len() <= 200 ==> notification(command, text)[i] == substituted(command[i], text),
        text.len() > 200 ==> notification(command, text) == notification(command, text.take(200)),
        command[i] == seq!['{', '}'] && text.len() <= 200 ==> notification(command, text)[i]
            == text,
        (forall|j: int|
            0 <= j < command[i].len() - 1 ==> !(#[trigger] command[i][j] == '{' && command[i][j + 1]
                == '}')) ==> notification(command, text)[i] == command[i],
{
    let none = Seq::<char>::empty();
    let shown = if text.len() <= 200 {
        text
    } else {
        text.take(200)
    };
    law_placeholders_are_replaced(none, none, shown);
    assert(none + seq!['{', '}'] + none =~= seq!['{', '}']);
    assert(substituted(none, shown) =~= none);
    assert(none + shown + none =~= shown);
    if forall|j: int|
        0 <= j < command[i].len() - 1 ==> !(#[trigger] command[i][j] == '{' && command[i][j + 1]
            == '}') {
        law_placeholders_are_replaced(command[i], none, shown);
    }
    if text.len() > 200 {
        assert(notification(command, text) =~= notification(command, text.take(200)));
    }
}

/// The default settings: a desktop notification with the text, and the hint that
/// password managers give.
pub proof fn law_the_default_settings()
    ensures
        names(NOTIFY_COMMAND@) == seq![
            "notify-send"@,
            "-a"@,
            "clipmunge"@,
            "clipmunge"@,
            "{}"@,
        ],
        names(SECRET_MIMES@) == seq!["x-kde-passwordManagerHint"@],
{
    law_the_known_types();
}

/// Every key but `notify_command` and `secret_mimes` is told of, one that is text by
/// its own name.
pub proof fn law_unknown_settings_are_told_of(key: String)
    ensures
        noted_key(None) == Some(Note::OddSetting),
        key@ == "notify_command"@ || key@ == "secret_mimes"@ ==> noted_key(Some(key)) is None,
        key@ != "notify_command"@ && key@ != "secret_mimes"@ ==> noted_key(Some(key)) == Some(
            Note::UnknownSetting { key },
        ),
{
    let known = names(SETTING_KEYS@);
    assert(known[0] == "notify_command"@);
    assert(known[1] == "secret_mimes"@);
}

/// The keys of settings are told of one by one, in the order in which they are found.
pub proof fn law_keys_are_told_of_in_order(
    found: Seq<(mlua::Value, mlua::Value)>,
    pair: (mlua::Value, mlua::Value),
    key: Seq<char>,
    notes: Seq<Note>,
)
    ensures
        noted_keys(Seq::empty(), notes) <==> notes.len() == 0,
        key_text(pair.0) is None ==> (noted_keys(found.push(pair), notes) <==> notes.len() > 0
            && notes.last() == Note::OddSetting && noted_keys(found, notes.drop_last())),
        key_text(pair.0) == Some("notify_command"@) || key_text(pair.0) == Some("secret_mimes"@)
            ==> (noted_keys(found.push(pair), notes) ==> noted_keys(found, notes)),
        key_text(pair.0) == Some(key) && key != "notify_command"@ && key != "secret_mimes"@ ==> (
        noted_keys(found.push(pair), notes) ==> notes.len() > 0 && (
        notes.last() matches Note::UnknownSetting { key: told } && told@ == key) && noted_keys(
            found,
            notes.drop_last(),
        )),
{
    let more = found.push(pair);
    assert(more.drop_last() =~= found);
    assert(more.last() == pair);
    if noted_keys(more, notes) {
        let key = choose|key: Option<String>|
            #![trigger noted_key(key)]
            key_text(more.last().0) == (match key {
                Some(text) => Some(text@),
                None => None,
            }) && match noted_key(key) {
                None => noted_keys(more.drop_last(), notes),
                Some(note) => notes.len() > 0 && notes.last() == note && noted_keys(
                    more.drop_last(),
                    notes.drop_last(),
                ),
            };
        if let Some(text) = key {
            law_unknown_settings_are_told_of(text);
        }
    }
    if key_text(pair.0) is None {
        assert(noted_key(None) == Some(Note::OddSetting));
    }
}

/// The keys of settings are checked to the end of the table, or up to a fault, which
/// is reported; for a table that was walked to its end there is none.
pub proof fn law_all_keys_are_checked(
    before: State,
    after: State,
    table: mlua::Table,
    notes: Seq<Note>,
    fault: Option<mlua::Error>,
)
    requires
        may_check_keys(before, after, table, notes, fault),
        after.log().len() < before.log().len() + usize::MAX,
    ensures
        after.log().len() >= before.log().len() + 2,
        after.log()[before.log().len() as int] == Step::Walk(table),
        after.log().last() == Step::Pair(
            table,
            match fault {
                Some(error) => Some(Err(error)),
                None => None,
            },
        ),
        exists|found: Seq<(mlua::Value, mlua::Value)>| #[trigger]
            noted_keys(found, notes) && found.len() == after.log().len() - before.log().len() - 2
                && forall|i: int|
                0 <= i < found.len() ==> after.log()[before.log().len() + 1 + i] == Step::Pair(
                    table,
                    Some(Ok(#[trigger] found[i])),
                ),
{
    let (start, found) = choose|start: State, found: Seq<(mlua::Value, mlua::Value)>|
        took(before, start, Step::Walk(table)) && #[trigger] took_all(
            start,
            after,
            pair_steps(table, found, fault),
        ) && noted_keys(found, notes);
    let steps = pair_steps(table, found, fault);
    assert(after.log() == before.log().push(Step::Walk(table)) + steps);
    assert(found.len() < usize::MAX);
    assert forall|i: int| 0 <= i < found.len() implies after.log()[before.log().len() + 1 + i]
        == Step::Pair(table, Some(Ok(#[trigger] found[i]))) by {
        assert(steps[i] == Step::Pair(table, Some(Ok(found[i]))));
    }
}

/// Settings that were read come from two lookups, first of the notification command
/// and then of the hints, and nothing else; each is what was found, or its default
/// where nothing was.
pub proof fn law_settings_are_what_was_found(
    before: State,
    after: State,
    table: mlua::Table,
    settings: Settings,
) -> (found: (Option<Vec<String>>, Option<Vec<String>>))
    requires
        may_read_values(before, after, table, Ok::<Settings, SettingsError>(settings)),
    ensures
        after.log() == before.log() + seq![
            Step::FindList(table, "notify_command"@, Ok(found.0)),
            Step::FindList(table, "secret_mimes"@, Ok(found.1)),
        ],
        settings.notify_command@.len() > 0,
        texts(settings.notify_command@) == match found.0 {
            Some(list) => texts(list@),
            None => seq!["notify-send"@, "-a"@, "clipmunge"@, "clipmunge"@, "{}"@],
        },
        texts(settings.secret_mimes@) == match found.1 {
            Some(list) => texts(list@),
            None => seq!["x-kde-passwordManagerHint"@],
        },
{
    law_the_default_settings();
    let r = Ok::<Settings, SettingsError>(settings);
    let (s1, found, command) = choose|
        s1: State,
        found: Result<Option<Vec<String>>, mlua::Error>,
        command: Result<Vec<String>, SettingsError>,
    |
        #![trigger took(before, s1, Step::FindList(table, "notify_command"@, found)), commanded(
            found,
            command,
        )]
        took(before, s1, Step::FindList(table, "notify_command"@, found)) && commanded(
            found,
            command,
        ) && match command {
            Err(fault) => r == Err::<Settings, SettingsError>(fault) && after == s1,
            Ok(argv) => exists|
                found: Result<Option<Vec<String>>, mlua::Error>,
                hints: Result<Vec<String>, SettingsError>,
            |
                #![trigger took(s1, after, Step::FindList(table, "secret_mimes"@, found)), advised(
                    found,
                    hints,
                )]
                took(s1, after, Step::FindList(table, "secret_mimes"@, found)) && advised(
                    found,
                    hints,
                ) && r == match hints {
                    Err(fault) => Err(fault),
                    Ok(list) => Ok(Settings { notify_command: argv, secret_mimes: list }),
                },
        };
    let (hinted, hints) = choose|
        found: Result<Option<Vec<String>>, mlua::Error>,
        hints: Result<Vec<String>, SettingsError>,
    |
        #![trigger took(s1, after, Step::FindList(table, "secret_mimes"@, found)), advised(
            found,
            hints,
        )]
        took(s1, after, Step::FindList(table, "secret_mimes"@, found)) && advised(found, hints)
            && r == match hints {
            Err(fault) => Err(fault),
            Ok(list) => Ok(Settings { notify_command: command->Ok_0, secret_mimes: list }),
        };
    assert(texts(settings.notify_command@).len() == settings.notify_command@.len());
    assert(after.log() =~= before.log() + seq![
        Step::FindList(table, "notify_command"@, Ok(found->Ok_0)),
        Step::FindList(table, "secret_mimes"@, Ok(hinted->Ok_0)),
    ]);
    (found->Ok_0, hinted->Ok_0)
}

/// The config is `clipmunge/config.lua` below an XDG_CONFIG_HOME that is absolute, and
/// otherwise below `.config` in the home directory; without either there is none.
pub proof fn law_where_the_config_is(xdg: Option<Seq<u8>>, home: Option<Seq<u8>>)
    ensures
        xdg matches Some(dir) ==> dir.len() > 0 && dir[0] == 0x2f && dir.last() != 0x2f
            ==> default_config(xdg, home) == Some(dir + encode_utf8("/clipmunge/config.lua"@)),
        (xdg matches Some(dir) ==> dir.len() == 0 || dir[0] != 0x2f) ==> {
            &&& home matches Some(dir) ==> dir.len() > 0 && dir.last() != 0x2f ==> default_config(
                xdg,
                home,
            ) == Some(dir + encode_utf8("/.config/clipmunge/config.lua"@))
            &&& home is None ==> default_config(xdg, home) is None
        },
{
    reveal_strlit("/clipmunge/config.lua");
    reveal_strlit("/.config/clipmunge/config.lua");
    reveal_strlit(".config");
    reveal_strlit("clipmunge");
    reveal_strlit("config.lua");
    is_ascii_chars_encode_utf8("/clipmunge/config.lua"@);
    is_ascii_chars_encode_utf8("/.config/clipmunge/config.lua"@);
    is_ascii_chars_encode_utf8(".config"@);
    is_ascii_chars_encode_utf8("clipmunge"@);
    is_ascii_chars_encode_utf8("config.lua"@);
    let sep = seq![0x2fu8];
    let dot = bytes_of(".config");
    let ours = bytes_of("clipmunge");
    let file = bytes_of("config.lua");
    let below = encode_utf8("/clipmunge/config.lua"@);
    let under = encode_utf8("/.config/clipmunge/config.lua"@);
    assert(".config"@[0] == '.' && ".config"@[6] == 'g');
    assert("clipmunge"@[0] == 'c' && "clipmunge"@[8] == 'e');
    assert("config.lua"@[0] == 'c');
    assert(dot[0] == 0x2e && dot[6] == 0x67);
    assert(ours[0] == 0x63 && ours[8] == 0x65);
    assert(file[0] == 0x63);
    assert(below =~= sep + ours + sep + file) by {
        assert forall|i: int| 0 <= i < below.len() implies below[i] == (sep + ours + sep
            + file)[i] by {
            assert("/clipmunge/config.lua"@[i] as u8 == below[i]);
            if 1 <= i < 10 {
                assert("clipmunge"@[i - 1] as u8 == ours[i - 1]);
            } else if i > 10 {
                assert("config.lua"@[i - 11] as u8 == file[i - 11]);
            }
        }
    }
    assert(under =~= sep + dot + sep + ours + sep + file) by {
        assert forall|i: int| 0 <= i < under.len() implies under[i] == (sep + dot + sep + ours + sep
            + file)[i] by {
            assert("/.config/clipmunge/config.lua"@[i] as u8 == under[i]);
            if 1 <= i < 8 {
                assert(".config"@[i - 1] as u8 == dot[i - 1]);
            } else if 9 <= i < 18 {
                assert("clipmunge"@[i - 9] as u8 == ours[i - 9]);
            } else if i > 18 {
                assert("config.lua"@[i - 19] as u8 == file[i - 19]);
            }
        }
    }
    if let Some(dir) = xdg {
        if dir.len() > 0 && dir[0] == 0x2f && dir.last() != 0x2f {
            let a = joined(dir, ours);
            assert(a == dir + sep + ours);
            assert(a.last() == 0x65);
            assert(joined(a, file) =~= dir + below);
        }
    }
    if let Some(dir) = home {
        if dir.len() > 0 && dir.last() != 0x2f {
            let a = joined(dir, dot);
            assert(a == dir + sep + dot);
            assert(a.last() == 0x67);
            let b = joined(a, ours);
            assert(b == a + sep + ours);
            assert(b.last() == 0x65);
            assert(joined(b, file) =~= dir + under);
        }
    }
}

/// Declared rules are read from the beginning of their list to its end, each rule
/// from one table of it, in order. Handed back are the states between them, and the
/// tables with the states in which they had been found.
pub proof fn law_declared_rules_are_read_to_the_end(
    before: State,
    after: State,
    collected: mlua::Table,
    rules: Vec<Rule>,
) -> (r: (Seq<State>, Seq<(State, mlua::Table)>))
    requires
        may_collect(before, after, collected, Ok::<Vec<Rule>, LoadError>(rules)),
        rules@.len() < usize::MAX,
    ensures
        r.0.len() == rules@.len() + 1,
        r.1.len() == rules@.len(),
        r.0[0].log() == before.log().push(Step::WalkList(collected)),
        after.log() == r.0.last().log().push(Step::Next(collected, None)),
        forall|i: int|
            0 <= i < rules@.len() ==> {
                let (found, table) = #[trigger] r.1[i];
                &&& found.log() == r.0[i].log().push(Step::Next(collected, Some(Ok(table))))
                &&& may_build(found, r.0[i + 1], table, Ok::<Rule, RuleError>(rules@[i]))
            },
{
    let (start, states, list) = choose|start: State, states: Seq<State>, list: Seq<Rule>|
        took(before, start, Step::WalkList(collected)) && #[trigger] declared_in_order(
            states,
            collected,
            list,
        ) && #[trigger] passes(states, start, states.last()) && may_end(
            states.last(),
            after,
            collected,
            list,
            Ok::<Vec<Rule>, LoadError>(rules),
        );
    let tables = Seq::new(
        rules@.len(),
        |i: int|
            choose|p: (State, mlua::Table)| #[trigger]
                took(states[i], p.0, Step::Next(collected, Some(Ok(p.1)))) && may_build(
                    p.0,
                    states[i + 1],
                    p.1,
                    Ok::<Rule, RuleError>(list[i]),
                ),
    );
    assert forall|i: int| 0 <= i < rules@.len() implies {
        let (found, table) = #[trigger] tables[i];
        &&& found.log() == states[i].log().push(Step::Next(collected, Some(Ok(table))))
        &&& may_build(found, states[i + 1], table, Ok::<Rule, RuleError>(rules@[i]))
    } by {
        assert(may_declare(states[i], states[i + 1], collected, Ok::<Rule, RuleError>(list[i])));
        let (mid, table) = choose|mid: State, table: mlua::Table| #[trigger]
            took(states[i], mid, Step::Next(collected, Some(Ok(table)))) && may_build(
                mid,
                states[i + 1],
                table,
                Ok::<Rule, RuleError>(list[i]),
            );
        let p = (mid, table);
        assert(took(states[i], p.0, Step::Next(collected, Some(Ok(p.1)))));
    }
    (states, tables)
}

/// A declaration that is no rule is refused by its place in the list, counted from
/// one: that many tables were found, and all before it were rules.
pub proof fn law_a_refused_rule_is_counted(
    before: State,
    after: State,
    collected: mlua::Table,
    number: usize,
    fault: RuleError,
) -> (found: (Seq<Rule>, State, mlua::Table))
    requires
        may_collect(
            before,
            after,
            collected,
            Err::<Vec<Rule>, LoadError>(LoadError::Rule { number, fault }),
        ),
    ensures
        found.0.len() + 1 == number,
        found.1.log().last() == Step::Next(collected, Some(Ok(found.2))),
        may_build(found.1, after, found.2, Err::<Rule, RuleError>(fault)),
{
    let r = Err::<Vec<Rule>, LoadError>(LoadError::Rule { number, fault });
    let (start, states, list) = choose|start: State, states: Seq<State>, list: Seq<Rule>|
        took(before, start, Step::WalkList(collected)) && #[trigger] declared_in_order(
            states,
            collected,
            list,
        ) && #[trigger] passes(states, start, states.last()) && may_end(
            states.last(),
            after,
            collected,
            list,
            r,
        );
    let last = states.last();
    let (mid, table) = choose|mid: State, table: mlua::Table| #[trigger]
        took(last, mid, Step::Next(collected, Some(Ok(table)))) && may_build(
            mid,
            after,
            table,
            Err::<Rule, RuleError>(fault),
        );
    (list, mid, table)
}

/// A state that is ready got two tables of its own, for the rules and for the
/// settings, and then the API with them.
pub proof fn law_a_ready_state_has_its_tables(
    before: State,
    after: State,
    given: Seq<u8>,
    resolved: Seq<u8>,
    tables: (mlua::Table, mlua::Table),
) -> (mid: State)
    requires
        may_make_ready(
            before,
            after,
            given,
            resolved,
            Ok::<(mlua::Table, mlua::Table), mlua::Error>(tables),
        ),
    ensures
        mid.log() == before.log() + seq![
            Step::MakeTable(Ok(tables.0)),
            Step::MakeTable(Ok(tables.1)),
        ],
        may_install(
            mid,
            after,
            tables.0,
            tables.1,
            given,
            resolved,
            Ok::<(), mlua::Error>(()),
        ),
{
    let r = Ok::<(mlua::Table, mlua::Table), mlua::Error>(tables);
    let (s1, first) = choose|s1: State, first: Result<mlua::Table, mlua::Error>| #[trigger]
        took(before, s1, Step::MakeTable(first)) && match first {
            Err(_) => false,
            Ok(one) => exists|s2: State, second: Result<mlua::Table, mlua::Error>| #[trigger]
                took(s1, s2, Step::MakeTable(second)) && match second {
                    Err(_) => false,
                    Ok(two) => exists|installed: Result<(), mlua::Error>| #[trigger]
                        may_install(s2, after, one, two, given, resolved, installed) && r
                            == match installed {
                            Err(error) => Err(error),
                            Ok(_) => Ok((one, two)),
                        },
                },
        };
    let one = first->Ok_0;
    let (s2, second) = choose|s2: State, second: Result<mlua::Table, mlua::Error>| #[trigger]
        took(s1, s2, Step::MakeTable(second)) && match second {
            Err(_) => false,
            Ok(two) => exists|installed: Result<(), mlua::Error>| #[trigger]
                may_install(s2, after, one, two, given, resolved, installed) && r
                    == match installed {
                    Err(error) => Err(error),
                    Ok(_) => Ok((one, two)),
                },
        };
    let two = second->Ok_0;
    let installed = choose|installed: Result<(), mlua::Error>| #[trigger]
        may_install(s2, after, one, two, given, resolved, installed) && r == match installed {
            Err(error) => Err(error),
            Ok(_) => Ok((one, two)),
        };
    lemma_done(installed);
    assert(s2.log() =~= before.log() + seq![
        Step::MakeTable(Ok(tables.0)),
        Step::MakeTable(Ok(tables.1)),
    ]);
    s2
}

/// What a load tells of the number of rules is one note when there are none, which
/// names the config, and nothing otherwise; what it tells of the memory limit is one
/// note when it could not be set.
pub proof fn law_what_a_load_tells(
    rules: Seq<Rule>,
    name: Seq<char>,
    notes: Seq<Note>,
    error: mlua::Error,
)
    requires
        count_notes(rules, name, notes),
    ensures
        rules.len() > 0 <==> notes.len() == 0,
        rules.len() == 0 ==> notes.len() == 1 && (notes[0] matches Note::NoRules { path } && path@
            == name),
        limit_notes(None) == Seq::<Note>::empty(),
        limit_notes(Some(error)) == seq![Note::NoMemoryLimit { error }],
{
}

/// A config that did not load is told of by what is wrong with it: a rule by its
/// place, a script by its path.
pub proof fn law_why_a_config_did_not_load(
    number: usize,
    fault: RuleError,
    path: String,
    error: mlua::Error,
    wrong: SettingsError,
)
    ensures
        (LoadError::Rule { number, fault }).text() == "rule #"@ + decimal(number as nat) + ": "@
            + fault.text(),
        (LoadError::Evaluating { path, error }).text() == "evaluating "@ + path@ + ": "@
            + lua_message(error),
        LoadError::Lua(error).text() == lua_message(error),
        LoadError::Settings(wrong).text() == wrong.text(),
        SettingsError::Field(error).text() == lua_message(error),
        SettingsError::EmptyNotifyCommand.text() == "notify_command must not be empty"@,
{
}

/// An engine that was loaded keeps the path that was given, notifies, and tells of
/// everything there was to tell, in the order in which it came up: of the memory
/// limit, of the number of rules and of the settings. Handed back are these three.
pub proof fn law_an_engine_tells_what_came_up(
    source: Seq<char>,
    given: Seq<u8>,
    resolved: Seq<u8>,
    engine: Engine,
) -> (r: (Option<mlua::Error>, Seq<Note>, Seq<Note>))
    requires
        may_load(source, given, resolved, Ok::<Engine, LoadFailure>(engine)),
    ensures
        engine.given_path() == given,
        engine.notifies(),
        engine.notes() == (match r.0 {
            Some(error) => seq![Note::NoMemoryLimit { error }],
            None => Seq::empty(),
        }) + r.1 + r.2,
        engine.rules().len() > 0 ==> r.1.len() == 0,
        engine.rules().len() == 0 ==> r.1.len() == 1 && (r.1[0] matches Note::NoRules { path }
            && path@ == lossy_text(resolved)),
{
    let r = Ok::<Engine, LoadFailure>(engine);
    let started = choose|started: Result<State, mlua::Error>| #[trigger]
        may_begin(RULE_LIBRARIES@, HOOK_EVERY, started) && match started {
            Err(_) => false,
            Ok(state) => may_load_in(state, source, given, resolved, r),
        };
    let s0 = started->Ok_0;
    let (s1, unlimited, ready, tables) = choose|
        s1: State,
        unlimited: Option<mlua::Error>,
        s2: State,
        ready: Result<(mlua::Table, mlua::Table), mlua::Error>,
    |
        #![trigger may_limit(s0, s1, unlimited), may_make_ready(s1, s2, given, resolved, ready)]
        may_limit(s0, s1, unlimited) && may_make_ready(s1, s2, given, resolved, ready)
            && match ready {
            Err(_) => false,
            Ok((collected, settings)) => may_run(
                s2,
                source,
                collected,
                settings,
                limit_notes(unlimited),
                given,
                resolved,
                r,
            ),
        };
    let (collected, settings) = tables->Ok_0;
    let notes = limit_notes(unlimited);
    let (ran, done) = choose|ran: State, done: Result<(), mlua::Error>| #[trigger]
        executed(ready, ran, source, lossy_text(resolved), 0, done) && match done {
            Err(_) => false,
            Ok(_) => may_read(ran, collected, settings, notes, given, resolved, r),
        };
    let (read, built) = choose|read: State, built: Result<Vec<Rule>, LoadError>| #[trigger]
        may_collect(ran, read, collected, built) && match built {
            Err(_) => false,
            Ok(rules) => may_finish(read, rules, settings, notes, given, resolved, r),
        };
    let rules = built->Ok_0;
    let (after, made, ignored, count) = choose|
        after: State,
        made: Result<Settings, SettingsError>,
        ignored: Seq<Note>,
        count: Seq<Note>,
    |
        #![trigger may_read_settings(read, after, settings, made, ignored), count_notes(
            rules@,
            lossy_text(resolved),
            count,
        )]
        may_read_settings(read, after, settings, made, ignored) && count_notes(
            rules@,
            lossy_text(resolved),
            count,
        ) && match made {
            Err(_) => false,
            Ok(made) => {
                &&& engine.state() == after
                &&& engine.rules() == rules@
                &&& engine.settings() == made
                &&& engine.given_path() == given
                &&& engine.notifies()
                &&& engine.notes() == notes + count + ignored
            },
        };
    (unlimited, count, ignored)
}

/// Notes are handed over once: all that came up until then, and right after it none.
pub proof fn law_notes_are_handed_over_once(
    first: &mut Engine,
    second: &mut Engine,
    a: Vec<Note>,
    b: Vec<Note>,
)
    requires
        call_ensures(Engine::take_notes, (first,), a),
        call_ensures(Engine::take_notes, (second,), b),
        mut_ref_current(second) == mut_ref_future(first),
    ensures
        a@ == mut_ref_current(first).notes(),
        b@.len() == 0,
        mut_ref_future(second).rules() == mut_ref_current(first).rules(),
        mut_ref_future(second).settings() == mut_ref_current(first).settings(),
        mut_ref_future(second).notifies() == mut_ref_current(first).notifies(),
{
}

/// Notifications stay off over a reload once they were switched off, and on once they
/// were switched on.
pub proof fn law_a_reload_keeps_notifications_off(
    engine: &mut Engine,
    yes: bool,
    fresh: Engine,
    r: Engine,
)
    requires
        call_ensures(Engine::set_notify, (engine, yes), ()),
        call_ensures(Engine::reload, (&mut_ref_future(engine), fresh), r),
    ensures
        r.notifies() == yes,
        r.rules() == fresh.rules(),
        r.settings() == fresh.settings(),
{
}

/// Settings are read once their keys are checked: a fault among the keys is what comes
/// of it, and otherwise what comes of the values. Handed back is the state between.
pub proof fn law_keys_are_checked_before_values_are_read(
    before: State,
    after: State,
    table: mlua::Table,
    r: Result<Settings, SettingsError>,
    notes: Seq<Note>,
) -> (mid: (State, Option<mlua::Error>))
    requires
        may_read_settings(before, after, table, r, notes),
    ensures
        may_check_keys(before, mid.0, table, notes, mid.1),
        mid.1 matches Some(error) ==> r == Err::<Settings, SettingsError>(
            SettingsError::Field(error),
        ) && after == mid.0,
        mid.1 is None ==> may_read_values(mid.0, after, table, r),
        r is Ok ==> mid.1 is None,
{
    let (s1, fault) = choose|s1: State, fault: Option<mlua::Error>| #[trigger]
        may_check_keys(before, s1, table, notes, fault) && match fault {
            Some(error) => r == Err::<Settings, SettingsError>(SettingsError::Field(error))
                && after == s1,
            None => may_read_values(s1, after, table, r),
        };
    (s1, fault)
}

/// A load that fails keeps what there was to tell before, first and in order, and one
/// that fails while the config runs says under which path it ran and why it ended.
pub proof fn law_a_failed_load_keeps_its_notes(
    before: State,
    source: Seq<char>,
    tables: (mlua::Table, mlua::Table),
    notes: Seq<Note>,
    given: Seq<u8>,
    resolved: Seq<u8>,
    failure: LoadFailure,
)
    requires
        may_run(
            before,
            source,
            tables.0,
            tables.1,
            notes,
            given,
            resolved,
            Err::<Engine, LoadFailure>(failure),
        ),
    ensures
        failure.notes@.len() >= notes.len(),
        failure.notes@.take(notes.len() as int) == notes,
        failure.error matches LoadError::Evaluating { path, error } ==> path@ == lossy_text(
            resolved,
        ) && failure.notes@ == notes,
{
    let r = Err::<Engine, LoadFailure>(failure);
    assert(notes.take(notes.len() as int) =~= notes);
    let (s1, done) = choose|s1: State, done: Result<(), mlua::Error>| #[trigger]
        executed(before, s1, source, lossy_text(resolved), 0, done) && match done {
            Err(fault) => {
                &&& failure.error matches LoadError::Evaluating { path, error }
                &&& path@ == lossy_text(resolved)
                &&& error == fault
                &&& failure.notes@ == notes
            },
            Ok(_) => may_read(s1, tables.0, tables.1, notes, given, resolved, r),
        };
    if done is Ok {
        let (s2, built) = choose|s2: State, built: Result<Vec<Rule>, LoadError>| #[trigger]
            may_collect(s1, s2, tables.0, built) && match built {
                Err(error) => failed(r, error, notes),
                Ok(rules) => may_finish(s2, rules, tables.1, notes, given, resolved, r),
            };
        if let Ok(rules) = built {
            let (after, read, ignored, count) = choose|
                after: State,
                read: Result<Settings, SettingsError>,
                ignored: Seq<Note>,
                count: Seq<Note>,
            |
                #![trigger may_read_settings(s2, after, tables.1, read, ignored), count_notes(
                    rules@,
                    lossy_text(resolved),
                    count,
                )]
                may_read_settings(s2, after, tables.1, read, ignored) && count_notes(
                    rules@,
                    lossy_text(resolved),
                    count,
                ) && match read {
                    Err(fault) => failed(r, LoadError::Settings(fault), notes + count + ignored),
                    Ok(_) => false,
                };
            assert(failure.notes@ == notes + count + ignored);
            assert(failure.notes@.take(notes.len() as int) =~= notes);
        } else {
            let (start, states, list) = choose|start: State, states: Seq<State>, list: Seq<Rule>|
                took(s1, start, Step::WalkList(tables.0)) && #[trigger] declared_in_order(
                    states,
                    tables.0,
                    list,
                ) && #[trigger] passes(states, start, states.last()) && may_end(
                    states.last(),
                    s2,
                    tables.0,
                    list,
                    built,
                );
        }
    }
}

/// An offer is secret for an engine when any type in it is any of its hints but for
/// letter case, wherever the type stands and whatever else is announced.
pub proof fn law_an_engine_knows_a_hint_anywhere(
    engine: &Engine,
    mimes: &[String],
    r: bool,
    i: int,
    j: int,
)
    requires
        call_ensures(Engine::is_secret, (engine, mimes), r),
        0 <= i < mimes@.len(),
        0 <= j < engine.settings().secret_mimes@.len(),
        mimes@[i]@.len() == engine.settings().secret_mimes@[j]@.len(),
        forall|k: int|
            0 <= k < mimes@[i]@.len() ==> {
                let x = #[trigger] mimes@[i]@[k];
                let y = engine.settings().secret_mimes@[j]@[k];
                ||| x == y
                ||| 'A' <= x <= 'Z' && y as u32 == x as u32 + 32
                ||| 'A' <= y <= 'Z' && x as u32 == y as u32 + 32
            },
    ensures
        r,
{
    let hints = engine.settings().secret_mimes@;
    law_lower_case_forgets_case_alone(mimes@[i]@, hints[j]@);
    assert(texts(mimes@)[i] == mimes@[i]@);
    assert(texts(hints)[j] == hints[j]@);
}

/// Nothing is run to notify while notifications are off; while they are on, it is the
/// configured program, with as many arguments as configured.
pub proof fn law_notifications_can_be_switched_off(
    engine: &Engine,
    text: &str,
    r: Option<Vec<String>>,
)
    requires
        call_ensures(Engine::notify, (engine, text), r),
        engine.settings().notify_command@.len() > 0,
    ensures
        r is Some <==> engine.notifies(),
        r matches Some(argv) ==> argv@.len() == engine.settings().notify_command@.len()
            && argv@[0]@ == engine.settings().notify_command@[0]@,
{
    if let Some(argv) = r {
        let command = texts(engine.settings().notify_command@);
        law_a_notification_keeps_the_command(command, text@);
        assert(texts(argv@).len() == argv@.len());
        assert(texts(argv@)[0] == argv@[0]@);
        assert(command[0] == engine.settings().notify_command@[0]@);
    }
}

/// The key of a setting is text exactly when it is a string of UTF-8 bytes, and then it
/// is the text of these bytes.
pub proof fn law_a_key_is_text_where_it_is_utf8(key: mlua::Value)
    ensures
        key_text(key) is Some <==> lua_kind(key) == Kind::Text && valid_utf8(
            lua_bytes(lua_string(key)),
        ),
        key_text(key) matches Some(text) ==> encode_utf8(text) == lua_bytes(lua_string(key)),
{
    if valid_utf8(lua_bytes(lua_string(key))) {
        decode_utf8_encode_utf8(lua_bytes(lua_string(key)));
    }
}

/// The arguments of a handler reach Lua as they are: each as the bytes of its text, and
/// nil for none.
pub proof fn law_arguments_reach_lua_as_they_are(given: Seq<Option<String>>)
    ensures
        text_bytes(given).len() == given.len(),
        forall|i: int|
            0 <= i < given.len() ==> match given[i] {
                Some(text) => #[trigger] text_bytes(given)[i] == Some(encode_utf8(text@)),
                None => text_bytes(given)[i] is None,
            },
{
}

} // verus!
