//! Starting up, and what is said about it.

use vstd::prelude::*;

use crate::config::Engine;
use crate::text::{decimal, lossy, lossy_text, push_decimal, push_text};

verus! {

broadcast use vstd::string::group_string_axioms;

/// The help text after the options, with the default config path.
pub open spec fn help_text(default: Option<Seq<u8>>) -> Seq<char> {
    "Default config: "@ + match default {
        Some(path) => lossy_text(path),
        None => "<no HOME>"@,
    }
        + "\n\n--debug logs clipboard text previews, which may include passwords.\n\nRUST_LOG overrides the log level either way."@
}

/// Build help at runtime to include the default config path.
pub fn after_help(default: Option<&[u8]>) -> (r: String)
    ensures
        r@ == help_text(crate::config::byte_view(default)),
{
    let mut out = "Default config: ".to_string();
    match default {
        Some(path) => {
            let shown = lossy(path);
            push_text(&mut out, shown.as_str());
        },
        None => {
            push_text(&mut out, "<no HOME>");
        },
    }
    push_text(
        &mut out,
        "\n\n--debug logs clipboard text previews, which may include passwords.\n\nRUST_LOG overrides the log level either way.",
    );
    out
}

/// There is no config to load.
pub enum NoConfig {
    /// No path was given, and there is no default one.
    NoDefault,
    /// There is nothing at this path.
    Missing(Vec<u8>),
}

impl NoConfig {
    pub open spec fn text(&self) -> Seq<char> {
        match self {
            NoConfig::NoDefault => "neither XDG_CONFIG_HOME nor HOME is set"@,
            NoConfig::Missing(path) => "no config at "@ + lossy_text(path@)
                + "\nclipmunge does nothing until you give it rules; see config.lua.example"@,
        }
    }

    pub fn message(&self) -> (r: String)
        ensures
            r@ == self.text(),
    {
        match self {
            NoConfig::NoDefault => "neither XDG_CONFIG_HOME nor HOME is set".to_string(),
            NoConfig::Missing(path) => {
                let mut out = "no config at ".to_string();
                let shown = lossy(path.as_slice());
                push_text(&mut out, shown.as_str());
                push_text(
                    &mut out,
                    "\nclipmunge does nothing until you give it rules; see config.lua.example",
                );
                out
            },
        }
    }
}

/// The config to load: the given one, or else the default one.
pub fn config_path(given: Option<Vec<u8>>, default: Option<Vec<u8>>) -> (r: Result<
    Vec<u8>,
    NoConfig,
>)
    ensures
        match given {
            Some(path) => r == Ok::<Vec<u8>, NoConfig>(path),
            None => match default {
                Some(path) => r == Ok::<Vec<u8>, NoConfig>(path),
                None => r == Err::<Vec<u8>, NoConfig>(NoConfig::NoDefault),
            },
        },
{
    match given {
        Some(path) => Ok(path),
        None => match default {
            Some(path) => Ok(path),
            None => Err(NoConfig::NoDefault),
        },
    }
}

/// Names, with a comma and a space between them.
pub open spec fn comma_list(list: Seq<Seq<char>>) -> Seq<char>
    decreases list.len(),
{
    if list.len() == 0 {
        Seq::empty()
    } else if list.len() == 1 {
        list[0]
    } else {
        comma_list(list.drop_last()) + ", "@ + list.last()
    }
}

/// A report of rules: how many there are and what they are called.
pub open spec fn rules_report(what: Seq<char>, list: Seq<Seq<char>>, from: Seq<char>) -> Seq<
    char,
> {
    what + " "@ + decimal(list.len()) + " rule(s)"@ + from + ": "@ + comma_list(list)
}

/// Report what a config declares: after loading it from a path, or after
/// reloading it.
pub fn report_rules(engine: &Engine, resolved: Option<&[u8]>) -> (r: String)
    ensures
        ({
            let list = engine.rules().map_values(|rule: crate::rules::Rule| rule.name@);
            r@ == match resolved {
                Some(path) => rules_report("loaded"@, list, " from "@ + lossy_text(path@)),
                None => rules_report("reloaded"@, list, Seq::empty()),
            }
        }),
{
    let names = engine.rule_names();
    let ghost list = names@.map_values(|n: &str| n@);
    let mut out = String::new();
    match resolved {
        Some(_) => {
            push_text(&mut out, "loaded");
        },
        None => {
            push_text(&mut out, "reloaded");
        },
    }
    push_text(&mut out, " ");
    push_decimal(&mut out, names.len());
    push_text(&mut out, " rule(s)");
    if let Some(path) = resolved {
        push_text(&mut out, " from ");
        let shown = lossy(path);
        push_text(&mut out, shown.as_str());
    }
    push_text(&mut out, ": ");
    let ghost head = out@;
    let mut i: usize = 0;
    assert(list.take(0) =~= Seq::empty());
    while i < names.len()
        invariant
            i <= names.len(),
            list == names@.map_values(|n: &str| n@),
            out@ == head + comma_list(list.take(i as int)),
        decreases names.len() - i,
    {
        if i > 0 {
            push_text(&mut out, ", ");
        }
        push_text(&mut out, names[i]);
        proof {
            let part = list.take(i + 1);
            assert(part.drop_last() =~= list.take(i as int));
            assert(part.last() == names@[i as int]@);
            assert(out@ =~= head + comma_list(part));
        }
        i += 1;
    }
    assert(list.take(list.len() as int) =~= list);
    assert(out@ =~= match resolved {
        Some(path) => rules_report("loaded"@, list, " from "@ + lossy_text(path@)),
        None => rules_report("reloaded"@, list, Seq::empty()),
    });
    out
}

/// The log level, unless RUST_LOG overrides it.
pub fn log_level(debug: bool) -> (r: &'static str)
    ensures
        r@ == if debug {
            "debug"@
        } else {
            "info"@
        },
{
    if debug {
        "debug"
    } else {
        "info"
    }
}

/// The engine to go on with after a reload: the freshly loaded one, with the
/// runtime settings kept, or the previous one if the config did not load.
pub fn after_reload<E>(engine: Engine, loaded: Result<Engine, E>) -> (r: (Engine, Option<E>))
    ensures
        r.0.notifies() == engine.notifies(),
        match loaded {
            Ok(fresh) => {
                &&& r.1 is None
                &&& r.0.rules() == fresh.rules()
                &&& r.0.settings() == fresh.settings()
                &&& r.0.given_path() == fresh.given_path()
            },
            Err(error) => r.1 == Some(error) && r.0 == engine,
        },
{
    match loaded {
        Ok(fresh) => (engine.reload(fresh), None),
        Err(error) => (engine, Some(error)),
    }
}

// -------------------------------------------------------------------- laws

/// A list of names has a comma and a space between each two of them, and nothing
/// else.
pub proof fn law_names_are_listed_with_commas(a: Seq<Seq<char>>, b: Seq<Seq<char>>)
    requires
        a.len() > 0,
        b.len() > 0,
    ensures
        comma_list(Seq::empty()) == Seq::<char>::empty(),
        comma_list(seq![a[0]]) == a[0],
        comma_list(a + b) == comma_list(a) + ", "@ + comma_list(b),
    decreases b.len(),
{
    let all = a + b;
    assert(all.last() == b.last());
    assert(all.drop_last() =~= a + b.drop_last());
    if b.len() == 1 {
        assert(all.drop_last() =~= a);
        assert(comma_list(all) =~= comma_list(a) + ", "@ + comma_list(b));
    } else {
        law_names_are_listed_with_commas(a, b.drop_last());
        assert(comma_list(all) =~= comma_list(a) + ", "@ + comma_list(b));
    }
}

/// A report says what was done, how many rules there are, where they are from if that
/// is told, and what they are called.
pub proof fn law_what_a_report_says(list: Seq<Seq<char>>, path: Seq<char>)
    ensures
        rules_report("loaded"@, list, " from "@ + path) == "loaded "@ + decimal(list.len())
            + " rule(s) from "@ + path + ": "@ + comma_list(list),
        rules_report("reloaded"@, list, Seq::empty()) == "reloaded "@ + decimal(list.len())
            + " rule(s): "@ + comma_list(list),
{
    reveal_strlit("loaded");
    reveal_strlit("loaded ");
    reveal_strlit("reloaded");
    reveal_strlit("reloaded ");
    reveal_strlit(" ");
    reveal_strlit(": ");
    reveal_strlit(" from ");
    reveal_strlit(" rule(s)");
    reveal_strlit(" rule(s) from ");
    reveal_strlit(" rule(s): ");
    assert("loaded "@ =~= "loaded"@ + " "@);
    assert("reloaded "@ =~= "reloaded"@ + " "@);
    assert(" rule(s) from "@ =~= " rule(s)"@ + " from "@);
    assert(" rule(s): "@ =~= " rule(s)"@ + ": "@);
    assert(rules_report("loaded"@, list, " from "@ + path) =~= "loaded "@ + decimal(list.len())
        + " rule(s) from "@ + path + ": "@ + comma_list(list));
    assert(rules_report("reloaded"@, list, Seq::empty()) =~= "reloaded "@ + decimal(list.len())
        + " rule(s): "@ + comma_list(list));
}

/// The help names the default config, or says that there is no home directory to have
/// one in, and the rest of it is the same either way.
pub proof fn law_the_help_names_the_default_config(path: Seq<u8>)
    ensures
        ({
            let lead = "Default config: "@;
            let rest = help_text(None).skip(("Default config: "@ + "<no HOME>"@).len() as int);
            &&& help_text(None) == lead + "<no HOME>"@ + rest
            &&& help_text(Some(path)) == lead + lossy_text(path) + rest
        }),
        NoConfig::NoDefault.text() == "neither XDG_CONFIG_HOME nor HOME is set"@,
{
    let lead = "Default config: "@;
    let rest = help_text(None).skip((lead + "<no HOME>"@).len() as int);
    assert(help_text(None) =~= lead + "<no HOME>"@ + rest);
    assert(help_text(Some(path)) =~= lead + lossy_text(path) + rest);
}

/// A missing config is named, with where to find an example.
pub proof fn law_a_missing_config_is_named(path: Vec<u8>)
    ensures
        NoConfig::Missing(path).text() == "no config at "@ + lossy_text(path@)
            + "\nclipmunge does nothing until you give it rules; see config.lua.example"@,
{
}

/// A path that was given is the config, whatever the default is; the default is the
/// config only where none was given.
pub proof fn law_a_given_config_wins(
    given: Option<Vec<u8>>,
    default: Option<Vec<u8>>,
    r: Result<Vec<u8>, NoConfig>,
)
    requires
        call_ensures(config_path, (given, default), r),
    ensures
        given matches Some(path) ==> r == Ok::<Vec<u8>, NoConfig>(path),
        given is None && default is Some ==> r == Ok::<Vec<u8>, NoConfig>(default->0),
        given is None && default is None ==> r is Err && r->Err_0 is NoDefault,
{
}

/// A config that does not load leaves the previous one in force, and one that does
/// takes over with the notifications on or off as they were.
pub proof fn law_a_failed_reload_changes_nothing<E>(
    engine: Engine,
    loaded: Result<Engine, E>,
    r: (Engine, Option<E>),
)
    requires
        call_ensures(after_reload::<E>, (engine, loaded), r),
    ensures
        loaded is Err ==> r.0 == engine && r.1 is Some && loaded == Err::<Engine, E>(r.1->0),
        loaded matches Ok(fresh) ==> {
            &&& r.1 is None
            &&& r.0.rules() == fresh.rules()
            &&& r.0.settings() == fresh.settings()
            &&& r.0.given_path() == fresh.given_path()
            &&& r.0.notifies() == engine.notifies()
        },
{
}

} // verus!
