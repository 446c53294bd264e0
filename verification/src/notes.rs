//! Things worth telling the author of a config.

use vstd::prelude::*;

use crate::interpreter::{error_text, lua_message};
use crate::reply::ReplyError;
use crate::text::push_text;

verus! {

broadcast use vstd::string::group_string_axioms;

/// Something that went wrong without stopping anything else, or which rule was
/// used.
pub enum Note {
    /// A rule gave the replacement.
    Matched { rule: String },
    /// A handler returned something other than a replacement.
    Unusable { rule: String, fault: ReplyError },
    /// A handler failed.
    Failed { rule: String, error: mlua::Error },
    /// The arguments of a handler could not be made.
    NoArguments { rule: String, error: mlua::Error },
    UnknownSetting { key: String },
    /// A setting whose key is no text.
    OddSetting,
    /// The config declares no rules.
    NoRules { path: String },
    NoMemoryLimit { error: mlua::Error },
}

impl Note {
    pub open spec fn text(&self) -> Seq<char> {
        match self {
            Note::Matched { rule } => "rule '"@ + rule@ + "' matched"@,
            Note::Unusable { rule, fault } => "rule '"@ + rule@
                + "' returned something unusable: "@ + fault.text(),
            Note::Failed { rule, error } => "rule '"@ + rule@ + "' failed: "@ + lua_message(*error),
            Note::NoArguments { rule, error } => "rule '"@ + rule@ + "': "@ + lua_message(*error),
            Note::UnknownSetting { key } => "clipmunge.settings: unknown key '"@ + key@
                + "' ignored (known: notify_command, secret_mimes)"@,
            Note::OddSetting => "clipmunge.settings: non-string key ignored"@,
            Note::NoRules { path } => path@ + " defines no rules"@,
            Note::NoMemoryLimit { error } => "no memory limit on the rule interpreter: "@
                + lua_message(*error),
        }
    }

    /// Whether something went wrong.
    pub fn is_warning(&self) -> (r: bool)
        ensures
            r == !(self is Matched),
    {
        match self {
            Note::Matched { .. } => false,
            _ => true,
        }
    }

    pub fn message(&self) -> (r: String)
        ensures
            r@ == self.text(),
    {
        let mut out = String::new();
        match self {
            Note::Matched { rule } => {
                push_text(&mut out, "rule '");
                push_text(&mut out, rule.as_str());
                push_text(&mut out, "' matched");
            },
            Note::Unusable { rule, fault } => {
                push_text(&mut out, "rule '");
                push_text(&mut out, rule.as_str());
                push_text(&mut out, "' returned something unusable: ");
                let reason = fault.message();
                push_text(&mut out, reason.as_str());
            },
            Note::Failed { rule, error } => {
                push_text(&mut out, "rule '");
                push_text(&mut out, rule.as_str());
                push_text(&mut out, "' failed: ");
                let reason = error_text(error);
                push_text(&mut out, reason.as_str());
            },
            Note::NoArguments { rule, error } => {
                push_text(&mut out, "rule '");
                push_text(&mut out, rule.as_str());
                push_text(&mut out, "': ");
                let reason = error_text(error);
                push_text(&mut out, reason.as_str());
            },
            Note::UnknownSetting { key } => {
                push_text(&mut out, "clipmunge.settings: unknown key '");
                push_text(&mut out, key.as_str());
                push_text(&mut out, "' ignored (known: notify_command, secret_mimes)");
            },
            Note::OddSetting => {
                push_text(&mut out, "clipmunge.settings: non-string key ignored");
            },
            Note::NoRules { path } => {
                push_text(&mut out, path.as_str());
                push_text(&mut out, " defines no rules");
            },
            Note::NoMemoryLimit { error } => {
                push_text(&mut out, "no memory limit on the rule interpreter: ");
                let reason = error_text(error);
                push_text(&mut out, reason.as_str());
            },
        }
        assert(out@ =~= self.text());
        out
    }
}

/// A note about a rule names it first, and says what came of it.
pub proof fn law_a_note_names_its_rule(rule: String, fault: ReplyError, error: mlua::Error)
    ensures
        (Note::Matched { rule }).text() == "rule '"@ + rule@ + "' matched"@,
        (Note::Unusable { rule, fault }).text() == "rule '"@ + rule@
            + "' returned something unusable: "@ + fault.text(),
        (Note::Failed { rule, error }).text() == "rule '"@ + rule@ + "' failed: "@ + lua_message(
            error,
        ),
        (Note::NoArguments { rule, error }).text() == "rule '"@ + rule@ + "': "@ + lua_message(
            error,
        ),
{
}

/// A note about a config says what it is about: the unknown key, the path of a config
/// without rules, or why there is no memory limit.
pub proof fn law_a_note_says_what_it_is_about(key: String, error: mlua::Error)
    ensures
        (Note::UnknownSetting { key }).text() == "clipmunge.settings: unknown key '"@ + key@
            + "' ignored (known: notify_command, secret_mimes)"@,
        Note::OddSetting.text() == "clipmunge.settings: non-string key ignored"@,
        (Note::NoRules { path: key }).text() == key@ + " defines no rules"@,
        (Note::NoMemoryLimit { error }).text() == "no memory limit on the rule interpreter: "@
            + lua_message(error),
{
}

/// Everything that is told is a warning, except which rule was used.
pub proof fn law_only_a_match_is_no_warning(note: &Note, r: bool)
    requires
        call_ensures(Note::is_warning, (note,), r),
    ensures
        !r <==> note is Matched,
{
}

} // verus!
