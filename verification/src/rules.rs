//! Rules: what a config declares, and which of them a selection goes to.

use vstd::prelude::*;
use vstd::utf8::*;

use crate::clipboard::{Replacement, Rewrite};
use crate::interpreter::{
    belongs, error_text, lemma_done, lua_kind, lua_message, lua_table, Handle, Kind,
};
use crate::pattern::{
    captured, captures, compile, compiled, groups, may_compile, pattern_error, pattern_message,
};
use crate::notes::Note;
use crate::reply::{
    asked, entry_steps, law_an_answer_is_read_by_its_kind, may_read_entries, reads_as,
    same_entries, to_rewrite, Answer, Reply, ReplyError,
};
use crate::selection::{
    law_plain_is_without_rich_types, lookup, plain_only, text_of, Flavours, Selection,
};
use crate::state::{
    handled, in_order, passes, took, took_all, up_to_a_fault, State, Step,
};
use crate::text::{
    law_trimming_is_blind_to_white_space_around, law_trimming_takes_all_white_space_around,
    push_text, same_text, trim, trimmed_text, white_space,
};

verus! {

broadcast use vstd::string::group_string_axioms;

/// Which selections a rule is for.
#[derive(Clone, Copy, PartialEq, Eq, Structural, Debug)]
pub enum When {
    Always,
    /// Only match selections with no successfully read rich payloads.
    PlainOnly,
}

pub struct Rule {
    pub name: String,
    pub pattern: regex::Regex,
    pub when: When,
    pub handler: mlua::Function,
}

/// Why a declaration is no rule.
pub enum RuleError {
    Field(mlua::Error),
    NoName,
    NoMatch { name: String },
    BadPattern { name: String, error: regex::Error },
    UnknownWhen { name: String, value: String },
    NoHandler { name: String },
}

impl RuleError {
    /// What to tell the author of the config.
    pub open spec fn text(&self) -> Seq<char> {
        match self {
            RuleError::Field(error) => lua_message(*error),
            RuleError::NoName => "rule has no `name`"@,
            RuleError::NoMatch { name } => "rule '"@ + name@ + "' has no `match`"@,
            RuleError::BadPattern { name, error } => "rule '"@ + name@ + "': bad pattern: "@
                + pattern_message(*error),
            RuleError::UnknownWhen { name, value } => "rule '"@ + name@
                + "': unknown `when` value '"@ + value@ + "'"@,
            RuleError::NoHandler { name } => "rule '"@ + name@ + "' has no `handler`"@,
        }
    }

    pub fn message(&self) -> (r: String)
        ensures
            r@ == self.text(),
    {
        let mut out = "rule '".to_string();
        match self {
            RuleError::Field(error) => {
                return error_text(error);
            },
            RuleError::NoName => {
                return "rule has no `name`".to_string();
            },
            RuleError::NoMatch { name } => {
                push_text(&mut out, name.as_str());
                push_text(&mut out, "' has no `match`");
            },
            RuleError::BadPattern { name, error } => {
                push_text(&mut out, name.as_str());
                push_text(&mut out, "': bad pattern: ");
                let reason = pattern_error(error);
                push_text(&mut out, reason.as_str());
            },
            RuleError::UnknownWhen { name, value } => {
                push_text(&mut out, name.as_str());
                push_text(&mut out, "': unknown `when` value '");
                push_text(&mut out, value.as_str());
                push_text(&mut out, "'");
            },
            RuleError::NoHandler { name } => {
                push_text(&mut out, name.as_str());
                push_text(&mut out, "' has no `handler`");
            },
        }
        out
    }
}

/// The selections that a `when` field names, if it names any.
pub open spec fn when_of(value: Option<String>) -> Option<When> {
    match value {
        None => Some(When::Always),
        Some(text) => if text@ == "always"@ {
            Some(When::Always)
        } else if text@ == "plain-only"@ {
            Some(When::PlainOnly)
        } else {
            None
        },
    }
}

/// What the `name` field comes to.
pub open spec fn named(found: Result<Option<String>, mlua::Error>) -> Result<String, RuleError> {
    match found {
        Err(error) => Err(RuleError::Field(error)),
        Ok(None) => Err(RuleError::NoName),
        Ok(Some(name)) => Ok(name),
    }
}

/// The name of a rule, from what was found for it.
pub fn rule_name(found: Result<Option<String>, mlua::Error>) -> (r: Result<String, RuleError>)
    ensures
        r == named(found),
{
    match found {
        Ok(Some(name)) => Ok(name),
        Ok(None) => Err(RuleError::NoName),
        Err(error) => Err(RuleError::Field(error)),
    }
}

/// What the `match` field of a named rule comes to.
pub open spec fn sourced(name: String, found: Result<Option<String>, mlua::Error>) -> Result<
    String,
    RuleError,
> {
    match found {
        Err(error) => Err(RuleError::Field(error)),
        Ok(None) => Err(RuleError::NoMatch { name }),
        Ok(Some(source)) => Ok(source),
    }
}

/// The source of a rule's pattern, from what was found for it.
pub fn rule_source(name: &String, found: Result<Option<String>, mlua::Error>) -> (r: Result<
    String,
    RuleError,
>)
    ensures
        r == sourced(*name, found),
{
    match found {
        Ok(Some(source)) => Ok(source),
        Ok(None) => Err(RuleError::NoMatch { name: name.clone() }),
        Err(error) => Err(RuleError::Field(error)),
    }
}

/// What compiling the pattern of a named rule comes to.
pub open spec fn patterned(name: String, made: Result<regex::Regex, regex::Error>) -> Result<
    regex::Regex,
    RuleError,
> {
    match made {
        Err(error) => Err(RuleError::BadPattern { name, error }),
        Ok(pattern) => Ok(pattern),
    }
}

/// The pattern of a rule, from what came of compiling it.
pub fn rule_pattern(name: &String, made: Result<regex::Regex, regex::Error>) -> (r: Result<
    regex::Regex,
    RuleError,
>)
    ensures
        r == patterned(*name, made),
{
    match made {
        Ok(pattern) => Ok(pattern),
        Err(error) => Err(RuleError::BadPattern { name: name.clone(), error }),
    }
}

/// What the `when` field of a named rule comes to.
pub open spec fn timed(name: String, found: Result<Option<String>, mlua::Error>) -> Result<
    When,
    RuleError,
> {
    match found {
        Err(error) => Err(RuleError::Field(error)),
        Ok(value) => match when_of(value) {
            None => Err(RuleError::UnknownWhen { name, value: value->0 }),
            Some(when) => Ok(when),
        },
    }
}

/// The selections that a rule is for, from what was found for them.
pub fn rule_when(name: &String, found: Result<Option<String>, mlua::Error>) -> (r: Result<
    When,
    RuleError,
>)
    ensures
        r == timed(*name, found),
{
    let value = match found {
        Ok(Some(value)) => value,
        Ok(None) => {
            return Ok(When::Always);
        },
        Err(error) => {
            return Err(RuleError::Field(error));
        },
    };
    if same_text(value.as_str(), "always") {
        Ok(When::Always)
    } else if same_text(value.as_str(), "plain-only") {
        Ok(When::PlainOnly)
    } else {
        Err(RuleError::UnknownWhen { name: name.clone(), value })
    }
}

/// What the `handler` field of a rule with all else in order comes to.
pub open spec fn finished(
    name: String,
    pattern: regex::Regex,
    when: When,
    found: Result<Option<mlua::Function>, mlua::Error>,
) -> Result<Rule, RuleError> {
    match found {
        Err(error) => Err(RuleError::Field(error)),
        Ok(None) => Err(RuleError::NoHandler { name }),
        Ok(Some(handler)) => Ok(Rule { name, pattern, when, handler }),
    }
}

/// The rule, from what was found for its handler.
pub fn finish_rule(
    name: String,
    pattern: regex::Regex,
    when: When,
    found: Result<Option<mlua::Function>, mlua::Error>,
) -> (r: Result<Rule, RuleError>)
    ensures
        r == finished(name, pattern, when, found),
{
    match found {
        Ok(Some(handler)) => Ok(Rule { name, pattern, when, handler }),
        Ok(None) => Err(RuleError::NoHandler { name }),
        Err(error) => Err(RuleError::Field(error)),
    }
}

/// What compiling a source text can come to: its pattern, or a refusal that can
/// come of it.
pub open spec fn may_compile_to(
    source: Seq<char>,
    pattern: Result<regex::Regex, regex::Error>,
) -> bool {
    &&& may_compile(source, pattern)
    &&& pattern matches Ok(p) ==> p == compiled(source)
}

/// What can come of building the rule that a table declares: its fields are read in
/// the order of name, pattern, selections and handler, up to the first fault, and
/// the pattern is compiled before the selections are read.
pub open spec fn may_build(
    before: State,
    after: State,
    table: mlua::Table,
    r: Result<Rule, RuleError>,
) -> bool {
    exists|s1: State, found: Result<Option<String>, mlua::Error>| #[trigger]
        took(before, s1, Step::FindText(table, "name"@, found)) && match named(found) {
            Err(fault) => r == Err::<Rule, RuleError>(fault) && after == s1,
            Ok(name) => may_build_named(s1, after, table, name, r),
        }
}

/// What can come of building a rule once its name is known.
pub open spec fn may_build_named(
    before: State,
    after: State,
    table: mlua::Table,
    name: String,
    r: Result<Rule, RuleError>,
) -> bool {
    exists|s1: State, found: Result<Option<String>, mlua::Error>| #[trigger]
        took(before, s1, Step::FindText(table, "match"@, found)) && match sourced(name, found) {
            Err(fault) => r == Err::<Rule, RuleError>(fault) && after == s1,
            Ok(source) => exists|made: Result<regex::Regex, regex::Error>| #[trigger]
                may_compile_to(source@, made) && match patterned(name, made) {
                    Err(fault) => r == Err::<Rule, RuleError>(fault) && after == s1,
                    Ok(pattern) => may_finish_rule(s1, after, table, name, pattern, r),
                },
        }
}

/// What can come of building a rule once its pattern was compiled.
pub open spec fn may_finish_rule(
    before: State,
    after: State,
    table: mlua::Table,
    name: String,
    pattern: regex::Regex,
    r: Result<Rule, RuleError>,
) -> bool {
    exists|s1: State, found: Result<Option<String>, mlua::Error>| #[trigger]
        took(before, s1, Step::FindText(table, "when"@, found)) && match timed(name, found) {
            Err(fault) => r == Err::<Rule, RuleError>(fault) && after == s1,
            Ok(when) => exists|handler: Result<Option<mlua::Function>, mlua::Error>| #[trigger]
                took(s1, after, Step::FindFunction(table, "handler"@, handler)) && r == finished(
                    name,
                    pattern,
                    when,
                    handler,
                ),
        }
}

/// Build the rule that a table declares.
pub(crate) fn build_rule(state: &mut State, table: &mlua::Table) -> (r: Result<Rule, RuleError>)
    requires
        belongs(old(state).lua(), Handle::Table(*table)),
    ensures
        may_build(*old(state), *final(state), *table, r),
        final(state).lua() == old(state).lua(),
        r matches Ok(rule) ==> belongs(final(state).lua(), Handle::Function(rule.handler)),
{
    let found = state.text_field(table, "name");
    let name = rule_name(found)?;
    let ghost s1 = *state;
    let found = state.text_field(table, "match");
    let source = rule_source(&name, found)?;
    let made = compile(source.as_str());
    assert(may_compile_to(source@, made));
    let pattern = rule_pattern(&name, made)?;
    let ghost s2 = *state;
    let found = state.text_field(table, "when");
    let when = rule_when(&name, found)?;
    let found = state.function_field(table, "handler");
    let r = finish_rule(name, pattern, when, found);
    assert(may_finish_rule(s2, *state, *table, name, pattern, r));
    assert(may_build_named(s1, *state, *table, name, r));
    r
}

// ---------------------------------------------------------------- matching

/// What patterns are matched against: the plain text without the white space
/// around it, unless nothing is left of it.
pub open spec fn subject(s: Flavours) -> Option<Seq<char>> {
    match text_of(s) {
        Some(text) => if trimmed_text(text).len() > 0 {
            Some(trimmed_text(text))
        } else {
            None
        },
        None => None,
    }
}

/// The groups of a rule's match on a selection, if the rule is for it and
/// matches it.
pub open spec fn match_of(rule: Rule, s: Flavours) -> Option<Seq<Option<Seq<char>>>> {
    match subject(s) {
        Some(text) => if rule.when == When::PlainOnly && !plain_only(s) {
            None
        } else {
            captured(rule.pattern, text)
        },
        None => None,
    }
}

/// The first rule from an index on that matches a selection, or the number of
/// rules.
pub open spec fn next_match(rules: Seq<Rule>, s: Flavours, from: int) -> int
    decreases rules.len() - from,
{
    if from >= rules.len() {
        rules.len() as int
    } else if match_of(rules[from], s) is Some {
        from
    } else {
        next_match(rules, s, from + 1)
    }
}

/// A call to make: a rule, by its index, and the arguments of its handler
/// after the incoming selection.
pub struct Call {
    pub rule: usize,
    pub args: Vec<Option<String>>,
}

/// The arguments of a handler: the groups of the match from group 1 on. An
/// unmatched optional group becomes nil; group 0 is not passed.
pub fn arguments(found: Vec<Option<String>>) -> (r: Vec<Option<String>>)
    ensures
        found@.len() == 0 ==> r@.len() == 0,
        found@.len() > 0 ==> r@ == found@.skip(1),
{
    let mut args = found;
    if args.len() > 0 {
        args.remove(0);
        assert(args@ =~= found@.skip(1));
    }
    args
}

/// The next call to make for a selection, from a rule on.
pub fn next_call(rules: &[Rule], incoming: &Selection, from: usize) -> (r: Option<Call>)
    ensures
        match r {
            Some(call) => {
                &&& call.rule == next_match(rules@, incoming@, from as int)
                &&& call.rule < rules@.len()
                &&& match_of(rules@[call.rule as int], incoming@) matches Some(found)
                    && groups(call.args@) == found.skip(1)
            },
            None => next_match(rules@, incoming@, from as int) >= rules@.len(),
        },
{
    let text = match incoming.text() {
        Some(text) => trim(text),
        None => {
            proof {
                lemma_no_subject(rules@, incoming@, from as int);
            }
            return None;
        },
    };
    proof {
        reveal_strlit("");
    }
    if same_text(text.as_str(), "") {
        proof {
            lemma_no_subject(rules@, incoming@, from as int);
        }
        return None;
    }
    assert(text@.len() > 0) by {
        if text@.len() == 0 {
            assert(text@ =~= ""@);
        }
    }
    let plain = incoming.is_plain_only();
    let mut i = from;
    while i < rules.len()
        invariant
            from <= i,
            i <= rules.len() || i == from,
            subject(incoming@) == Some(text@),
            plain == plain_only(incoming@),
            next_match(rules@, incoming@, from as int) == next_match(
                rules@,
                incoming@,
                i as int,
            ),
        decreases rules.len() - i,
    {
        if rules[i].when != When::PlainOnly || plain {
            if let Some(found) = captures(&rules[i].pattern, text.as_str()) {
                let args = arguments(found);
                assert(groups(args@) =~= groups(found@).skip(1));
                return Some(Call { rule: i, args });
            }
        }
        i += 1;
    }
    None
}

proof fn lemma_no_subject(rules: Seq<Rule>, s: Flavours, from: int)
    requires
        subject(s) is None,
    ensures
        next_match(rules, s, from) >= rules.len(),
    decreases rules.len() - from,
{
    if from < rules.len() {
        lemma_no_subject(rules, s, from + 1);
    }
}

// ---------------------------------------------------------------- replies

/// What to do after a call.
pub enum Verdict {
    /// Try the next rule, with something to report or nothing.
    Pass(Option<Note>),
    /// Leave the clipboard alone.
    Stop(Note),
    Done(Rewrite, Note),
}

/// What is worth telling of a reply, if anything.
pub open spec fn noted(rule: String, reply: Reply) -> Option<Note> {
    match reply {
        Reply::Nil => None,
        Reply::Failed(error) => Some(Note::Failed { rule, error }),
        Reply::NoArguments(error) => Some(Note::NoArguments { rule, error }),
        Reply::Value(answer) => match asked(answer) {
            Ok(_) => Some(Note::Matched { rule }),
            Err(fault) => Some(Note::Unusable { rule, fault }),
        },
    }
}

/// What to do after a call of a rule's handler.
pub fn judge(rule: &String, reply: Reply) -> (r: Verdict)
    ensures
        match r {
            Verdict::Pass(note) => !ends(reply) && noted(*rule, reply) == note,
            Verdict::Stop(note) => reply is NoArguments && noted(*rule, reply) == Some(note),
            Verdict::Done(rewrite, note) => replacement(reply) == Some(rewrite@) && noted(
                *rule,
                reply,
            ) == Some(note),
        },
{
    let rule = rule.clone();
    match reply {
        Reply::Nil => Verdict::Pass(None),
        // One broken rule must not take the clipboard down with it.
        Reply::Failed(error) => Verdict::Pass(Some(Note::Failed { rule, error })),
        Reply::NoArguments(error) => Verdict::Stop(Note::NoArguments { rule, error }),
        Reply::Value(answer) => match to_rewrite(answer) {
            Ok(rewrite) => Verdict::Done(rewrite, Note::Matched { rule }),
            Err(fault) => Verdict::Pass(Some(Note::Unusable { rule, fault })),
        },
    }
}

/// The replacement that a reply is, if it is one.
pub open spec fn replacement(reply: Reply) -> Option<Replacement> {
    match reply {
        Reply::Value(answer) => match asked(answer) {
            Ok(replacement) => Some(replacement),
            Err(_) => None,
        },
        _ => None,
    }
}

/// The arguments that a rule's handler gets after the selection, as bytes: the
/// groups of the match from group 1 on, nil for one that took no part in it.
pub open spec fn passed(rule: Rule, s: Flavours) -> Seq<Option<Seq<u8>>> {
    match match_of(rule, s) {
        Some(found) => found.skip(1).map_values(
            |group: Option<Seq<char>>|
                match group {
                    Some(text) => Some(encode_utf8(text)),
                    None => None,
                },
        ),
        None => Seq::empty(),
    }
}

/// What can come of making one argument: a string of its bytes, or nothing to make
/// for nil.
pub open spec fn argument_made(
    before: State,
    after: State,
    arg: Option<Seq<u8>>,
    done: Result<(), mlua::Error>,
) -> bool {
    match arg {
        None => done is Ok && after == before,
        Some(bytes) => exists|made: Result<mlua::LuaString, mlua::Error>| #[trigger]
            took(before, after, Step::MakeString(bytes, made)) && match made {
                Ok(_) => done is Ok,
                Err(error) => done == Err::<(), mlua::Error>(error),
            },
    }
}

/// What can come of making arguments in turn.
pub open spec fn arguments_made(
    before: State,
    after: State,
    args: Seq<Option<Seq<u8>>>,
    r: Result<(), mlua::Error>,
) -> bool {
    up_to_a_fault(
        before,
        after,
        args,
        |from: State, to: State, arg: Option<Seq<u8>>, done| argument_made(from, to, arg, done),
        r,
    )
}

/// Whether this can be the reply of a rule: the arguments are made of the groups of
/// the match, and if they can be, its handler is called with the selection and them
/// on a whole budget, and what it returned is read.
pub open spec fn may_reply(
    before: State,
    after: State,
    rule: Rule,
    s: Flavours,
    reply: Reply,
) -> bool {
    exists|s1: State, made: Result<(), mlua::Error>| #[trigger]
        arguments_made(before, s1, passed(rule, s), made) && match made {
            Err(error) => reply == Reply::NoArguments(error) && after == s1,
            Ok(_) => exists|s2: State, called: Result<mlua::Value, mlua::Error>| #[trigger]
                handled(s1, s2, rule.handler, s, passed(rule, s), 0, called) && reads_as(
                    s2,
                    after,
                    called,
                    reply,
                ),
        }
}

/// No rule is asked after this reply.
pub open spec fn ends(reply: Reply) -> bool {
    reply is NoArguments || replacement(reply) is Some
}

/// Whether these are the replies, in turn, of the rules from an index on that
/// match a selection: one each, up to the first that ends the matter.
pub open spec fn in_turn(rules: Seq<Rule>, s: Flavours, from: int, replies: Seq<Reply>) -> bool
    decreases replies.len(),
{
    let i = next_match(rules, s, from);
    if i >= rules.len() {
        replies.len() == 0
    } else {
        &&& replies.len() > 0
        &&& if ends(replies[0]) {
            replies.len() == 1
        } else {
            in_turn(rules, s, i + 1, replies.drop_first())
        }
    }
}

/// What replies in turn come to: the replacement that the last one is, if any.
pub open spec fn outcome(replies: Seq<Reply>) -> Option<Replacement> {
    if replies.len() == 0 {
        None
    } else {
        replacement(replies.last())
    }
}

/// How many rules from an index on match a selection.
pub open spec fn matching(rules: Seq<Rule>, s: Flavours, from: int) -> nat
    decreases rules.len() - from,
{
    if from >= rules.len() {
        0
    } else {
        matching(rules, s, from + 1) + if match_of(rules[from], s) is Some {
            1nat
        } else {
            0
        }
    }
}

/// The rule that is asked after `k` others, counting from an index on.
pub open spec fn asked_rule(rules: Seq<Rule>, s: Flavours, from: int, k: nat) -> int
    decreases k,
{
    if k == 0 {
        next_match(rules, s, from)
    } else {
        asked_rule(rules, s, next_match(rules, s, from) + 1, (k - 1) as nat)
    }
}

pub proof fn lemma_asked_rule(rules: Seq<Rule>, s: Flavours, from: int, k: nat)
    ensures
        asked_rule(rules, s, from, k + 1) == next_match(
            rules,
            s,
            asked_rule(rules, s, from, k) + 1,
        ),
    decreases k,
{
    let next = next_match(rules, s, from) + 1;
    if k > 0 {
        lemma_asked_rule(rules, s, next, (k - 1) as nat);
        assert(asked_rule(rules, s, from, k + 1) == asked_rule(rules, s, next, k));
        assert(asked_rule(rules, s, from, k) == asked_rule(rules, s, next, (k - 1) as nat));
    } else {
        assert(asked_rule(rules, s, from, 1) == asked_rule(rules, s, next, 0));
    }
}

pub proof fn lemma_next_match(rules: Seq<Rule>, s: Flavours, from: int)
    requires
        0 <= from,
    ensures
        ({
            let i = next_match(rules, s, from);
            &&& from < rules.len() ==> from <= i <= rules.len()
            &&& from >= rules.len() ==> i == rules.len()
            &&& i < rules.len() ==> match_of(rules[i], s) is Some && matching(rules, s, from) == 1
                + matching(rules, s, i + 1)
            &&& i >= rules.len() ==> matching(rules, s, from) == 0
            &&& forall|j: int| from <= j < i ==> match_of(#[trigger] rules[j], s) is None
        }),
    decreases rules.len() - from,
{
    if from < rules.len() {
        lemma_next_match(rules, s, from + 1);
    }
}

/// Whether these are the replies of the rules that are asked in turn, each from one
/// of these states to the next.
pub open spec fn turn_by_turn(
    states: Seq<State>,
    rules: Seq<Rule>,
    s: Flavours,
    replies: Seq<Reply>,
) -> bool {
    &&& states.len() == replies.len() + 1
    &&& forall|k: nat|
        k < replies.len() ==> may_reply(
            states[k as int],
            states[k as int + 1],
            rules[#[trigger] asked_rule(rules, s, 0, k)],
            s,
            replies[k as int],
        )
}

/// Whether these can be the replies of the rules that are asked in turn, and asking
/// for them is all that was done between the two states.
pub open spec fn replied(
    before: State,
    after: State,
    rules: Seq<Rule>,
    s: Flavours,
    replies: Seq<Reply>,
) -> bool {
    exists|states: Seq<State>| #[trigger]
        passes(states, before, after) && turn_by_turn(states, rules, s, replies)
}

/// What is worth telling of the replies of the rules that are asked in turn.
pub open spec fn told(rules: Seq<Rule>, s: Flavours, replies: Seq<Reply>) -> Seq<Note>
    decreases replies.len(),
{
    if replies.len() == 0 {
        Seq::empty()
    } else {
        let turn = (replies.len() - 1) as nat;
        let so_far = told(rules, s, replies.drop_last());
        match noted(rules[asked_rule(rules, s, 0, turn)].name, replies.last()) {
            Some(note) => so_far.push(note),
            None => so_far,
        }
    }
}

/// Rules are asked in declaration order, the first replacement wins, and rules
/// do not chain: no reply follows a replacement. A reply that is none,
/// be it nil, unusable or a failure, only passes the matter on, and with no
/// replacement at all every matching rule has been asked, unless the arguments
/// of one could not be made.
pub proof fn law_the_first_replacement_wins(rules: Seq<Rule>, s: Flavours, replies: Seq<Reply>)
    requires
        in_turn(rules, s, 0, replies),
    ensures
        forall|k: int| 0 <= k < replies.len() - 1 ==> !ends(#[trigger] replies[k]),
        replies.len() <= matching(rules, s, 0),
        outcome(replies) is None && (replies.len() > 0 ==> !(replies.last() is NoArguments))
            ==> replies.len() == matching(rules, s, 0),
        forall|k: nat|
            k < replies.len() ==> {
                let i = #[trigger] asked_rule(rules, s, 0, k);
                0 <= i < rules.len() && match_of(rules[i], s) is Some
            },
        forall|k: nat|
            0 < k < replies.len() ==> asked_rule(rules, s, 0, (k - 1) as nat)
                < #[trigger] asked_rule(rules, s, 0, k),
{
    lemma_in_turn(rules, s, 0, replies);
}

proof fn lemma_in_turn(rules: Seq<Rule>, s: Flavours, from: int, replies: Seq<Reply>)
    requires
        0 <= from,
        in_turn(rules, s, from, replies),
    ensures
        forall|k: int| 0 <= k < replies.len() - 1 ==> !ends(#[trigger] replies[k]),
        replies.len() <= matching(rules, s, from),
        outcome(replies) is None && (replies.len() > 0 ==> !(replies.last() is NoArguments))
            ==> replies.len() == matching(rules, s, from),
        forall|k: nat|
            k < replies.len() ==> {
                let i = #[trigger] asked_rule(rules, s, from, k);
                from <= i < rules.len() && match_of(rules[i], s) is Some
            },
        forall|k: nat|
            0 < k < replies.len() ==> asked_rule(rules, s, from, (k - 1) as nat)
                < #[trigger] asked_rule(rules, s, from, k),
    decreases replies.len(),
{
    lemma_next_match(rules, s, from);
    let i = next_match(rules, s, from);
    if replies.len() > 0 {
        if ends(replies[0]) {
            assert(replies.last() == replies[0]);
        } else {
            let rest = replies.drop_first();
            lemma_in_turn(rules, s, i + 1, rest);
            if rest.len() > 0 {
                assert(rest.last() == replies.last());
            }
            assert forall|k: int| 0 <= k < replies.len() - 1 implies !ends(
                #[trigger] replies[k],
            ) by {
                if k > 0 {
                    assert(rest[k - 1] == replies[k]);
                }
            }
            assert forall|k: nat| k < replies.len() implies {
                let a = #[trigger] asked_rule(rules, s, from, k);
                from <= a < rules.len() && match_of(rules[a], s) is Some
            } by {
                if k > 0 {
                    let a = asked_rule(rules, s, i + 1, (k - 1) as nat);
                    assert(asked_rule(rules, s, from, k) == a);
                }
            }
            assert forall|k: nat| 0 < k < replies.len() implies asked_rule(
                rules,
                s,
                from,
                (k - 1) as nat,
            ) < #[trigger] asked_rule(rules, s, from, k) by {
                let a = asked_rule(rules, s, i + 1, (k - 1) as nat);
                assert(asked_rule(rules, s, from, k) == a);
                if k > 1 {
                    let b = asked_rule(rules, s, i + 1, (k - 2) as nat);
                    assert(asked_rule(rules, s, from, (k - 1) as nat) == b);
                }
            }
        }
    }
}

/// The handlers that were called, in order.
pub open spec fn calls(log: Seq<Step>) -> Seq<mlua::Function>
    decreases log.len(),
{
    if log.len() == 0 {
        Seq::empty()
    } else {
        match log.last() {
            Step::Call(handler, _, _, _) => calls(log.drop_last()).push(handler),
            _ => calls(log.drop_last()),
        }
    }
}

/// The handlers of the rules that are asked in turn, but for those that were not
/// called.
pub open spec fn asked_handlers(rules: Seq<Rule>, s: Flavours, called: Seq<bool>) -> Seq<
    mlua::Function,
>
    decreases called.len(),
{
    if called.len() == 0 {
        Seq::empty()
    } else {
        let turn = (called.len() - 1) as nat;
        let so_far = asked_handlers(rules, s, called.drop_last());
        if called.last() {
            so_far.push(rules[asked_rule(rules, s, 0, turn)].handler)
        } else {
            so_far
        }
    }
}

/// Whether the handlers called between two states are those of the rules that
/// replied, each once and in turn. One that gave no reply of its own, since it
/// failed or its arguments could not be made, may not have been called.
pub open spec fn called_in_turn(
    before: State,
    after: State,
    rules: Seq<Rule>,
    s: Flavours,
    replies: Seq<Reply>,
) -> bool {
    exists|called: Seq<bool>|
        called.len() == replies.len() && calls(after.log()) == calls(before.log())
            + #[trigger] asked_handlers(rules, s, called) && forall|k: int|
            0 <= k < replies.len() && !(#[trigger] called[k]) ==> replies[k] is Failed
                || replies[k] is NoArguments
}

/// No other handler runs, and none runs once there is a replacement: the handlers
/// that are called are those of the rules that reply, each once and in declaration
/// order.
pub proof fn law_only_asked_handlers_run(
    before: State,
    after: State,
    rules: Seq<Rule>,
    s: Flavours,
    replies: Seq<Reply>,
)
    requires
        replied(before, after, rules, s, replies),
    ensures
        called_in_turn(before, after, rules, s, replies),
{
    let states = choose|states: Seq<State>| #[trigger]
        passes(states, before, after) && turn_by_turn(states, rules, s, replies);
    lemma_called(states, rules, s, replies, replies.len());
    assert(replies.take(replies.len() as int) =~= replies);
}

proof fn lemma_called(
    states: Seq<State>,
    rules: Seq<Rule>,
    s: Flavours,
    replies: Seq<Reply>,
    n: nat,
)
    requires
        turn_by_turn(states, rules, s, replies),
        n <= replies.len(),
    ensures
        called_in_turn(states[0], states[n as int], rules, s, replies.take(n as int)),
    decreases n,
{
    if n == 0 {
        let none = Seq::<bool>::empty();
        assert(calls(states[0].log()) + asked_handlers(rules, s, none) =~= calls(states[0].log()));
    } else {
        let k = (n - 1) as nat;
        lemma_called(states, rules, s, replies, k);
        let part = replies.take(k as int);
        let called = choose|called: Seq<bool>|
            called.len() == part.len() && calls(states[k as int].log()) == calls(states[0].log())
                + #[trigger] asked_handlers(rules, s, called) && forall|j: int|
                0 <= j < part.len() && !(#[trigger] called[j]) ==> part[j] is Failed
                    || part[j] is NoArguments;
        let rule = rules[asked_rule(rules, s, 0, k)];
        lemma_reply_calls(states[k as int], states[k as int + 1], rule, s, replies[k as int]);
        let earlier = calls(states[k as int].log());
        let ran = calls(states[k as int + 1].log()) == earlier.push(rule.handler);
        let now = called.push(ran);
        assert(now.drop_last() =~= called);
        assert(asked_handlers(rules, s, now) == if ran {
            asked_handlers(rules, s, called).push(rule.handler)
        } else {
            asked_handlers(rules, s, called)
        });
        assert(calls(states[n as int].log()) =~= calls(states[0].log()) + asked_handlers(
            rules,
            s,
            now,
        ));
        let all = replies.take(n as int);
        assert forall|j: int| 0 <= j < all.len() && !(#[trigger] now[j]) implies all[j] is Failed
            || all[j] is NoArguments by {
            if j < k {
                assert(called[j] == now[j]);
                assert(part[j] == all[j]);
            }
        }
    }
}

/// Asking a rule calls its handler once, or not at all and then it has no reply of
/// its own.
proof fn lemma_reply_calls(before: State, after: State, rule: Rule, s: Flavours, reply: Reply)
    requires
        may_reply(before, after, rule, s, reply),
    ensures
        calls(after.log()) == calls(before.log()).push(rule.handler) || (calls(after.log())
            == calls(before.log()) && (reply is Failed || reply is NoArguments)),
{
    let args = passed(rule, s);
    let (s1, made) = choose|s1: State, made: Result<(), mlua::Error>| #[trigger]
        arguments_made(before, s1, args, made) && match made {
            Err(error) => reply == Reply::NoArguments(error) && after == s1,
            Ok(_) => exists|s2: State, called: Result<mlua::Value, mlua::Error>| #[trigger]
                handled(s1, s2, rule.handler, s, args, 0, called) && reads_as(
                    s2,
                    after,
                    called,
                    reply,
                ),
        };
    lemma_arguments_call_nothing(before, s1, args, made);
    if made is Ok {
        let (s2, called) = choose|s2: State, called: Result<mlua::Value, mlua::Error>| #[trigger]
            handled(s1, s2, rule.handler, s, args, 0, called) && reads_as(s2, after, called, reply);
        let (mid, given) = choose|mid: State, given: Result<(), mlua::Error>| #[trigger]
            took(s1, mid, Step::SetBudget(0, given)) && match given {
                Err(error) => called == Err::<mlua::Value, mlua::Error>(error) && s2 == mid,
                Ok(_) => took(mid, s2, Step::Call(rule.handler, s, args, called)),
            };
        lemma_step_calls(s1, mid, Step::SetBudget(0, given));
        if given is Ok {
            lemma_step_calls(mid, s2, Step::Call(rule.handler, s, args, called));
        }
        lemma_reading_calls_nothing(s2, after, called, reply);
    }
}

proof fn lemma_step_calls(before: State, after: State, step: Step)
    requires
        took(before, after, step),
    ensures
        calls(after.log()) == match step {
            Step::Call(handler, _, _, _) => calls(before.log()).push(handler),
            _ => calls(before.log()),
        },
{
    assert(after.log().drop_last() =~= before.log());
}

proof fn lemma_arguments_call_nothing(
    before: State,
    after: State,
    args: Seq<Option<Seq<u8>>>,
    r: Result<(), mlua::Error>,
)
    requires
        arguments_made(before, after, args, r),
    ensures
        calls(after.log()) == calls(before.log()),
{
    let may = |from: State, to: State, arg: Option<Seq<u8>>, done|
        argument_made(from, to, arg, done);
    let states = choose|states: Seq<State>| #[trigger]
        passes(states, before, after) && in_order(states, args, may, r);
    lemma_arguments_so_far(states, args, r, states.len() - 1);
}

proof fn lemma_arguments_so_far(
    states: Seq<State>,
    args: Seq<Option<Seq<u8>>>,
    r: Result<(), mlua::Error>,
    n: int,
)
    requires
        in_order(
            states,
            args,
            |from: State, to: State, arg: Option<Seq<u8>>, done|
                argument_made(from, to, arg, done),
            r,
        ),
        0 <= n < states.len(),
    ensures
        calls(states[n].log()) == calls(states[0].log()),
    decreases n,
{
    if n > 0 {
        lemma_arguments_so_far(states, args, r, n - 1);
        let arg = args[n - 1];
        let done = if r is Err && n == states.len() - 1 {
            r
        } else {
            Ok(())
        };
        assert(argument_made(states[n - 1], states[n], arg, done));
        if let Some(bytes) = arg {
            let made = choose|made: Result<mlua::LuaString, mlua::Error>| #[trigger]
                took(states[n - 1], states[n], Step::MakeString(bytes, made));
            lemma_step_calls(states[n - 1], states[n], Step::MakeString(bytes, made));
        }
    }
}

proof fn lemma_reading_calls_nothing(
    before: State,
    after: State,
    called: Result<mlua::Value, mlua::Error>,
    reply: Reply,
)
    requires
        reads_as(before, after, called, reply),
    ensures
        calls(after.log()) == calls(before.log()),
        called is Err ==> reply is Failed,
{
    if after != before {
        let table = lua_table(called->Ok_0);
        let entries = match reply {
            Reply::Value(Answer::Table(entries)) => entries@,
            _ => Seq::empty(),
        };
        let (start, found, fault) = choose|
            start: State,
            found: Seq<(String, mlua::LuaString)>,
            fault: Option<mlua::Error>,
        |
            took(before, start, Step::WalkEntries(table)) && #[trigger] took_all(
                start,
                after,
                entry_steps(table, found, fault),
            ) && same_entries(found, fault, entries);
        lemma_step_calls(before, start, Step::WalkEntries(table));
        lemma_no_calls(start.log(), entry_steps(table, found, fault));
    }
}

proof fn lemma_no_calls(log: Seq<Step>, steps: Seq<Step>)
    requires
        forall|i: int| 0 <= i < steps.len() ==> !(#[trigger] steps[i] is Call),
    ensures
        calls(log + steps) == calls(log),
    decreases steps.len(),
{
    if steps.len() == 0 {
        assert(log + steps =~= log);
    } else {
        lemma_no_calls(log, steps.drop_last());
        assert((log + steps).drop_last() =~= log + steps.drop_last());
        assert((log + steps).last() == steps[steps.len() - 1]);
    }
}

/// A rule has what it was declared with: a name, a pattern that compiles, a known
/// `when` if any, and a handler, which were looked up in this order and nothing
/// else was done.
pub proof fn law_a_rule_is_what_was_declared(
    before: State,
    after: State,
    table: mlua::Table,
    rule: Rule,
)
    requires
        may_build(before, after, table, Ok::<Rule, RuleError>(rule)),
    ensures
        exists|source: String, when: Option<String>|
            rule.pattern == compiled(source@) && when_of(when) == Some(rule.when)
                && #[trigger] took_all(before, after, declaration(table, rule, source, when)),
{
    let (s1, name) = choose|s1: State, found: Result<Option<String>, mlua::Error>| #[trigger]
        took(before, s1, Step::FindText(table, "name"@, found)) && match named(found) {
            Err(_) => false,
            Ok(name) => may_build_named(s1, after, table, name, Ok::<Rule, RuleError>(rule)),
        };
    let (s2, source) = choose|s2: State, found: Result<Option<String>, mlua::Error>| #[trigger]
        took(s1, s2, Step::FindText(table, "match"@, found)) && match sourced(rule.name, found) {
            Err(_) => false,
            Ok(source) => exists|made: Result<regex::Regex, regex::Error>| #[trigger]
                may_compile_to(source@, made) && match patterned(rule.name, made) {
                    Err(_) => false,
                    Ok(pattern) => may_finish_rule(
                        s2,
                        after,
                        table,
                        rule.name,
                        pattern,
                        Ok::<Rule, RuleError>(rule),
                    ),
                },
        };
    let (s3, when) = choose|s3: State, found: Result<Option<String>, mlua::Error>| #[trigger]
        took(s2, s3, Step::FindText(table, "when"@, found)) && match timed(rule.name, found) {
            Err(_) => false,
            Ok(when) => exists|handler: Result<Option<mlua::Function>, mlua::Error>| #[trigger]
                took(s3, after, Step::FindFunction(table, "handler"@, handler)) && Ok::<
                    Rule,
                    RuleError,
                >(rule) == finished(rule.name, rule.pattern, when, handler),
        };
    let steps = declaration(table, rule, (source->Ok_0)->0, when->Ok_0);
    assert(after.log() =~= before.log() + steps);
    assert(took_all(before, after, steps));
}

/// The steps that a rule was built by.
pub open spec fn declaration(
    table: mlua::Table,
    rule: Rule,
    source: String,
    when: Option<String>,
) -> Seq<Step> {
    seq![
        Step::FindText(table, "name"@, Ok(Some(rule.name))),
        Step::FindText(table, "match"@, Ok(Some(source))),
        Step::FindText(table, "when"@, Ok(when)),
        Step::FindFunction(table, "handler"@, Ok(Some(rule.handler))),
    ]
}

/// A selection without text, or with nothing but white space in it, goes to no
/// rule.
pub proof fn law_blank_selections_are_left_alone(
    rules: Seq<Rule>,
    s: Flavours,
    replies: Seq<Reply>,
)
    requires
        text_of(s) matches Some(text) ==> trimmed_text(text).len() == 0,
        in_turn(rules, s, 0, replies),
    ensures
        replies.len() == 0,
        outcome(replies) is None,
{
    lemma_no_subject(rules, s, 0);
}

/// There are no built-in rules: without declared ones, or with none of them
/// matching, the clipboard is left alone.
pub proof fn law_unmatched_selections_are_left_alone(
    rules: Seq<Rule>,
    s: Flavours,
    replies: Seq<Reply>,
)
    requires
        forall|i: int| 0 <= i < rules.len() ==> match_of(#[trigger] rules[i], s) is None,
        in_turn(rules, s, 0, replies),
    ensures
        replies.len() == 0,
        outcome(replies) is None,
{
    lemma_next_match(rules, s, 0);
}

/// A rule for plain selections is not asked about one with a rich flavour.
pub proof fn law_plain_only_rules_skip_rich_selections(rule: Rule, s: Flavours)
    requires
        rule.when == When::PlainOnly,
        !plain_only(s),
    ensures
        match_of(rule, s) is None,
{
}

/// A rule is for all selections unless its `when` says `plain-only`; `always` says
/// the same as nothing, and any other word is refused and told.
pub proof fn law_what_when_says(name: String, value: String)
    ensures
        timed(name, Ok(None)) == Ok::<When, RuleError>(When::Always),
        value@ == "always"@ ==> timed(name, Ok(Some(value))) == Ok::<When, RuleError>(When::Always),
        value@ == "plain-only"@ ==> timed(name, Ok(Some(value))) == Ok::<When, RuleError>(
            When::PlainOnly,
        ),
        value@ != "always"@ && value@ != "plain-only"@ ==> timed(name, Ok(Some(value))) == Err::<
            When,
            RuleError,
        >(RuleError::UnknownWhen { name, value }),
{
    reveal_strlit("always");
    reveal_strlit("plain-only");
    assert("always"@.len() != "plain-only"@.len());
}

/// A declaration is refused for the first thing that is wrong with it, and the last
/// lookup shows what it is: a field that is not there or that could not be read, or
/// an unknown `when`. A rule with a name is told of by it.
pub proof fn law_a_refused_declaration_says_why(
    before: State,
    after: State,
    table: mlua::Table,
    fault: RuleError,
)
    requires
        may_build(before, after, table, Err::<Rule, RuleError>(fault)),
    ensures
        ({
            let n = before.log().len() as int;
            let last = after.log().last();
            &&& after.log().len() > n
            &&& fault is NoName ==> after.log() == before.log().push(
                Step::FindText(table, "name"@, Ok(None)),
            )
            &&& fault matches RuleError::NoMatch { name } ==> after.log() == before.log() + seq![
                Step::FindText(table, "name"@, Ok(Some(name))),
                Step::FindText(table, "match"@, Ok(None)),
            ]
            &&& fault matches RuleError::BadPattern { name, error } ==> after.log().len() == n + 2
                && after.log()[n] == Step::FindText(table, "name"@, Ok(Some(name))) && (
            last matches Step::FindText(_, key, Ok(Some(source))) && key == "match"@ && may_compile(
                source@,
                Err(error),
            ))
            &&& fault matches RuleError::UnknownWhen { name, value } ==> after.log().len() == n + 3
                && after.log()[n] == Step::FindText(table, "name"@, Ok(Some(name))) && last
                == Step::FindText(table, "when"@, Ok(Some(value))) && value@ != "always"@ && value@
                != "plain-only"@
            &&& fault matches RuleError::NoHandler { name } ==> after.log().len() == n + 4
                && after.log()[n] == Step::FindText(table, "name"@, Ok(Some(name))) && last
                == Step::FindFunction(table, "handler"@, Ok(None))
            &&& fault matches RuleError::Field(error) ==> {
                ||| last == Step::FindText(table, "name"@, Err(error))
                ||| last == Step::FindText(table, "match"@, Err(error))
                ||| last == Step::FindText(table, "when"@, Err(error))
                ||| last == Step::FindFunction(table, "handler"@, Err(error))
            }
        }),
{
    let r = Err::<Rule, RuleError>(fault);
    let n = before.log().len() as int;
    let (s1, found) = choose|s1: State, found: Result<Option<String>, mlua::Error>| #[trigger]
        took(before, s1, Step::FindText(table, "name"@, found)) && match named(found) {
            Err(fault) => r == Err::<Rule, RuleError>(fault) && after == s1,
            Ok(name) => may_build_named(s1, after, table, name, r),
        };
    assert(s1.log()[n] == Step::FindText(table, "name"@, found));
    if let Ok(name) = named(found) {
        let (s2, matched) = choose|s2: State, found: Result<Option<String>, mlua::Error>| #[trigger]
            took(s1, s2, Step::FindText(table, "match"@, found)) && match sourced(name, found) {
                Err(fault) => r == Err::<Rule, RuleError>(fault) && after == s2,
                Ok(source) => exists|made: Result<regex::Regex, regex::Error>| #[trigger]
                    may_compile_to(source@, made) && match patterned(name, made) {
                        Err(fault) => r == Err::<Rule, RuleError>(fault) && after == s2,
                        Ok(pattern) => may_finish_rule(s2, after, table, name, pattern, r),
                    },
            };
        assert(s2.log()[n] == s1.log()[n]);
        assert(s2.log() =~= before.log() + seq![
            Step::FindText(table, "name"@, found),
            Step::FindText(table, "match"@, matched),
        ]);
        if let Ok(source) = sourced(name, matched) {
            let made = choose|made: Result<regex::Regex, regex::Error>| #[trigger]
                may_compile_to(source@, made) && match patterned(name, made) {
                    Err(fault) => r == Err::<Rule, RuleError>(fault) && after == s2,
                    Ok(pattern) => may_finish_rule(s2, after, table, name, pattern, r),
                };
            if let Ok(pattern) = patterned(name, made) {
                let (s3, given) = choose|
                    s3: State,
                    found: Result<Option<String>, mlua::Error>,
                | #[trigger]
                    took(s2, s3, Step::FindText(table, "when"@, found)) && match timed(
                        name,
                        found,
                    ) {
                        Err(fault) => r == Err::<Rule, RuleError>(fault) && after == s3,
                        Ok(when) => exists|
                            handler: Result<Option<mlua::Function>, mlua::Error>,
                        | #[trigger]
                            took(s3, after, Step::FindFunction(table, "handler"@, handler)) && r
                                == finished(name, pattern, when, handler),
                    };
                assert(s3.log()[n] == s2.log()[n]);
                if timed(name, given) is Ok {
                    let when = timed(name, given)->Ok_0;
                    let handler = choose|
                        handler: Result<Option<mlua::Function>, mlua::Error>,
                    | #[trigger]
                        took(s3, after, Step::FindFunction(table, "handler"@, handler)) && r
                            == finished(name, pattern, when, handler);
                    assert(after.log()[n] == s3.log()[n]);
                    assert(after.log().last() == Step::FindFunction(table, "handler"@, handler));
                } else {
                    assert(after.log().last() == Step::FindText(table, "when"@, given));
                }
            } else {
                assert(after.log().last() == Step::FindText(table, "match"@, matched));
            }
        } else {
            assert(after.log().last() == Step::FindText(table, "match"@, matched));
        }
    } else {
        assert(after.log().last() == Step::FindText(table, "name"@, found));
    }
}

/// Patterns see the plain text without the white space around it, and only when there
/// is something else in it.
pub proof fn law_patterns_see_the_text_without_white_space_around(
    s: Flavours,
    front: Seq<char>,
    middle: Seq<char>,
    back: Seq<char>,
)
    requires
        forall|i: int| 0 <= i < front.len() ==> white_space(#[trigger] front[i]),
        forall|i: int| 0 <= i < back.len() ==> white_space(#[trigger] back[i]),
    ensures
        text_of(s) is None ==> subject(s) is None,
        text_of(s) == Some(front) ==> subject(s) is None,
        text_of(s) == Some(front + middle + back) && middle.len() > 0 && !white_space(middle[0])
            && !white_space(middle.last()) ==> subject(s) == Some(middle),
{
    law_trimming_takes_all_white_space_around(front);
    if middle.len() > 0 && !white_space(middle[0]) && !white_space(middle.last()) {
        law_trimming_is_blind_to_white_space_around(front, middle, back);
    }
}

/// A rule matches a selection when its pattern finds something in what patterns see,
/// except that one for plain selections does not match where a rich type is found;
/// nothing matches where patterns see nothing.
pub proof fn law_when_a_rule_matches(rule: Rule, s: Flavours)
    ensures
        subject(s) is None ==> match_of(rule, s) is None,
        subject(s) matches Some(text) ==> match_of(rule, s) == if rule.when == When::PlainOnly && (
        lookup(s, "text/html"@) is Some || lookup(s, "chromium/x-source-url"@) is Some || lookup(
            s,
            "text/uri-list"@,
        ) is Some || lookup(s, "text/rtf"@) is Some) {
            None
        } else {
            captured(rule.pattern, text)
        },
{
    law_plain_is_without_rich_types(s);
}

/// The rule asked next is the first from there on that matches: those passed over do
/// not, and the asking ends only where none is left.
pub proof fn law_no_matching_rule_is_passed_over(rules: Seq<Rule>, s: Flavours, from: int)
    requires
        0 <= from <= rules.len(),
    ensures
        from <= next_match(rules, s, from) <= rules.len(),
        forall|i: int|
            from <= i < next_match(rules, s, from) ==> match_of(#[trigger] rules[i], s) is None,
        next_match(rules, s, from) < rules.len() ==> match_of(
            rules[next_match(rules, s, from)],
            s,
        ) is Some,
{
    lemma_next_match(rules, s, from);
}

/// A handler gets the groups of the match but for the whole match, in order, each as
/// the bytes of its text, and nil for one that took no part.
pub proof fn law_a_handler_gets_the_groups(
    rule: Rule,
    s: Flavours,
    found: Seq<Option<Seq<char>>>,
)
    requires
        match_of(rule, s) == Some(found),
        found.len() > 0,
    ensures
        passed(rule, s).len() == found.len() - 1,
        forall|i: int|
            0 < i < found.len() ==> match #[trigger] found[i] {
                Some(text) => passed(rule, s)[i - 1] == Some(encode_utf8(text)),
                None => passed(rule, s)[i - 1] is None,
            },
{
    assert forall|i: int| 0 < i < found.len() implies match #[trigger] found[i] {
        Some(text) => passed(rule, s)[i - 1] == Some(encode_utf8(text)),
        None => passed(rule, s)[i - 1] is None,
    } by {
        assert(found.skip(1)[i - 1] == found[i]);
    }
}

/// What is told of a reply: nothing of nil, and otherwise the rule with what came of
/// it. Only a value can be a replacement, and it is the one that its answer asks for.
pub proof fn law_what_a_reply_comes_to(rule: String, error: mlua::Error, answer: Answer)
    ensures
        noted(rule, Reply::Nil) is None,
        replacement(Reply::Nil) is None,
        noted(rule, Reply::Failed(error)) == Some(Note::Failed { rule, error }),
        replacement(Reply::Failed(error)) is None,
        noted(rule, Reply::NoArguments(error)) == Some(Note::NoArguments { rule, error }),
        replacement(Reply::NoArguments(error)) is None,
        asked(answer) matches Ok(wanted) ==> noted(rule, Reply::Value(answer)) == Some(
            Note::Matched { rule },
        ) && replacement(Reply::Value(answer)) == Some(wanted),
        asked(answer) matches Err(fault) ==> noted(rule, Reply::Value(answer)) == Some(
            Note::Unusable { rule, fault },
        ) && replacement(Reply::Value(answer)) is None,
{
}

/// Asking ends with a replacement, or where the arguments of a handler could not be
/// made, and with no other reply.
pub proof fn law_what_ends_the_asking(reply: Reply)
    ensures
        ends(reply) <==> reply is NoArguments || (reply matches Reply::Value(answer) && asked(
            answer,
        ) is Ok),
{
}

/// What the asking comes to is the replacement among the replies, of which there is
/// one at most, and nothing without one.
pub proof fn law_the_outcome_is_the_replacement(
    rules: Seq<Rule>,
    s: Flavours,
    replies: Seq<Reply>,
    k: int,
)
    requires
        in_turn(rules, s, 0, replies),
        0 <= k < replies.len(),
    ensures
        replies[k] matches Reply::Value(answer) ==> asked(answer) matches Ok(wanted) ==> outcome(
            replies,
        ) == Some(wanted) && k == replies.len() - 1,
        (forall|j: int|
            0 <= j < replies.len() ==> (#[trigger] replies[j] matches Reply::Value(answer)
                ==> asked(answer) is Err)) ==> outcome(replies) is None,
{
    law_the_first_replacement_wins(rules, s, replies);
    if ends(replies[k]) {
        assert(k == replies.len() - 1);
    }
    let last = replies[replies.len() - 1];
    assert(replies.last() == last);
}

/// The replies are told of one by one, in the order in which they came, each under
/// the name of the rule that gave it.
pub proof fn law_replies_are_told_of_in_turn(
    rules: Seq<Rule>,
    s: Flavours,
    replies: Seq<Reply>,
    reply: Reply,
)
    ensures
        told(rules, s, Seq::empty()) == Seq::<Note>::empty(),
        ({
            let rule = rules[asked_rule(rules, s, 0, replies.len())].name;
            let so_far = told(rules, s, replies);
            told(rules, s, replies.push(reply)) == match reply {
                Reply::Nil => so_far,
                Reply::Failed(error) => so_far.push(Note::Failed { rule, error }),
                Reply::NoArguments(error) => so_far.push(Note::NoArguments { rule, error }),
                Reply::Value(answer) => match asked(answer) {
                    Ok(_) => so_far.push(Note::Matched { rule }),
                    Err(fault) => so_far.push(Note::Unusable { rule, fault }),
                },
            }
        }),
{
    let all = replies.push(reply);
    assert(all.drop_last() =~= replies);
    assert(all.last() == reply);
}

/// The arguments of a handler are made as strings, in order, and nothing else is
/// done for them.
pub proof fn law_arguments_are_made_in_order(
    before: State,
    after: State,
    args: Seq<Option<Seq<u8>>>,
)
    requires
        arguments_made(before, after, args, Ok::<(), mlua::Error>(())),
    ensures
        ({
            let some = args.filter(|arg: Option<Seq<u8>>| arg is Some);
            &&& after.lua() == before.lua()
            &&& after.log().len() == before.log().len() + some.len()
            &&& after.log().take(before.log().len() as int) == before.log()
            &&& forall|i: int|
                before.log().len() <= i < after.log().len() ==> match #[trigger] after.log()[i] {
                    Step::MakeString(bytes, Ok(_)) => Some(bytes) == some[i - before.log().len()],
                    _ => false,
                }
        }),
{
    let may = |from: State, to: State, arg: Option<Seq<u8>>, done|
        argument_made(from, to, arg, done);
    let states = choose|states: Seq<State>| #[trigger]
        passes(states, before, after) && in_order(
            states,
            args,
            may,
            Ok::<(), mlua::Error>(()),
        );
    lemma_arguments_in_order(states, args, args.len() as int);
    assert(args.take(args.len() as int) =~= args);
}

proof fn lemma_arguments_in_order(states: Seq<State>, args: Seq<Option<Seq<u8>>>, n: int)
    requires
        in_order(
            states,
            args,
            |from: State, to: State, arg: Option<Seq<u8>>, done|
                argument_made(from, to, arg, done),
            Ok::<(), mlua::Error>(()),
        ),
        0 <= n <= args.len(),
    ensures
        ({
            let some = args.take(n).filter(|arg: Option<Seq<u8>>| arg is Some);
            let before = states[0];
            let after = states[n];
            &&& after.lua() == before.lua()
            &&& after.log().len() == before.log().len() + some.len()
            &&& after.log().take(before.log().len() as int) == before.log()
            &&& forall|i: int|
                before.log().len() <= i < after.log().len() ==> match #[trigger] after.log()[i] {
                    Step::MakeString(bytes, Ok(_)) => Some(bytes) == some[i - before.log().len()],
                    _ => false,
                }
        }),
    decreases n,
{
    reveal(Seq::filter);
    let is_some = |arg: Option<Seq<u8>>| arg is Some;
    let part = args.take(n);
    let before = states[0];
    if n == 0 {
        assert(before.log().take(before.log().len() as int) =~= before.log());
    } else {
        lemma_arguments_in_order(states, args, n - 1);
        let less = args.take(n - 1);
        assert(part.drop_last() =~= less);
        assert(part.last() == args[n - 1]);
        let arg = args[n - 1];
        assert(argument_made(states[n - 1], states[n], arg, Ok(())));
        if let Some(bytes) = arg {
            let made = choose|made: Result<mlua::LuaString, mlua::Error>| #[trigger]
                took(states[n - 1], states[n], Step::MakeString(bytes, made)) && match made {
                    Ok(_) => true,
                    Err(_) => false,
                };
            let was = less.filter(is_some);
            let now = part.filter(is_some);
            assert(now == was.push(arg));
            let earlier = states[n - 1].log();
            let log = states[n].log();
            assert(log == earlier.push(Step::MakeString(bytes, made)));
            assert(log.take(before.log().len() as int) =~= earlier.take(before.log().len() as int));
            let from = before.log().len();
            assert forall|i: int| from <= i < log.len() implies match #[trigger] log[i] {
                Step::MakeString(bytes, Ok(_)) => Some(bytes) == now[i - from],
                _ => false,
            } by {
                if i < earlier.len() {
                    assert(log[i] == earlier[i]);
                    assert(now[i - from] == was[i - from]);
                }
            }
        }
    }
}

/// A rule that gave a value or nil was asked by one call: its handler was called with
/// the selection and the groups of the match, just after it had got a whole budget.
/// Handed back is where in the log that call stands.
pub proof fn law_a_reply_comes_from_one_call(
    before: State,
    after: State,
    rule: Rule,
    s: Flavours,
    reply: Reply,
) -> (at: int)
    requires
        may_reply(before, after, rule, s, reply),
        reply is Nil || reply is Value,
    ensures
        before.log().len() < at < after.log().len(),
        after.log().take(before.log().len() as int) == before.log(),
        after.log()[at - 1] == Step::SetBudget(0, Ok(())),
        after.log()[at] matches Step::Call(handler, incoming, args, Ok(value)) && {
            &&& handler == rule.handler
            &&& incoming == s
            &&& args == passed(rule, s)
            &&& reply is Nil <==> lua_kind(value) == Kind::Nil
        },
{
    let args = passed(rule, s);
    let (s1, made) = choose|s1: State, made: Result<(), mlua::Error>| #[trigger]
        arguments_made(before, s1, args, made) && match made {
            Err(error) => reply == Reply::NoArguments(error) && after == s1,
            Ok(_) => exists|s2: State, called: Result<mlua::Value, mlua::Error>| #[trigger]
                handled(s1, s2, rule.handler, s, args, 0, called) && reads_as(
                    s2,
                    after,
                    called,
                    reply,
                ),
        };
    lemma_done(made);
    law_arguments_are_made_in_order(before, s1, args);
    let (s2, called) = choose|s2: State, called: Result<mlua::Value, mlua::Error>| #[trigger]
        handled(s1, s2, rule.handler, s, args, 0, called) && reads_as(s2, after, called, reply);
    let (mid, given) = choose|mid: State, given: Result<(), mlua::Error>| #[trigger]
        took(s1, mid, Step::SetBudget(0, given)) && match given {
            Err(error) => called == Err::<mlua::Value, mlua::Error>(error) && s2 == mid,
            Ok(_) => took(mid, s2, Step::Call(rule.handler, s, args, called)),
        };
    lemma_done(given);
    let value = called->Ok_0;
    law_an_answer_is_read_by_its_kind(s2, after, value, reply);
    let n = before.log().len() as int;
    let at = s1.log().len() as int + 1;
    assert(s2.log()[at] == Step::Call(rule.handler, s, args, called));
    assert(s2.log()[at - 1] == Step::SetBudget(0, given));
    assert(s2.log().take(n) =~= s1.log().take(n));
    if after != s2 {
        let table = lua_table(value);
        let entries = match reply {
            Reply::Value(Answer::Table(entries)) => entries@,
            _ => Seq::empty(),
        };
        let (start, found, fault) = choose|
            start: State,
            found: Seq<(String, mlua::LuaString)>,
            fault: Option<mlua::Error>,
        |
            took(s2, start, Step::WalkEntries(table)) && #[trigger] took_all(
                start,
                after,
                entry_steps(table, found, fault),
            ) && same_entries(found, fault, entries);
        assert(after.log().take(n) =~= s2.log().take(n));
    }
    at
}

/// A refusal names the rule, once it has a name, and says what is wrong with it.
pub proof fn law_a_refusal_names_the_rule(
    name: String,
    value: String,
    error: regex::Error,
    fault: mlua::Error,
)
    ensures
        RuleError::NoName.text() == "rule has no `name`"@,
        (RuleError::NoMatch { name }).text() == "rule '"@ + name@ + "' has no `match`"@,
        (RuleError::BadPattern { name, error }).text() == "rule '"@ + name@ + "': bad pattern: "@
            + pattern_message(error),
        (RuleError::UnknownWhen { name, value }).text() == "rule '"@ + name@
            + "': unknown `when` value '"@ + value@ + "'"@,
        (RuleError::NoHandler { name }).text() == "rule '"@ + name@ + "' has no `handler`"@,
        RuleError::Field(fault).text() == lua_message(fault),
{
}

/// The arguments are the groups behind the first, in order.
pub proof fn law_the_whole_match_is_no_argument(
    found: Vec<Option<String>>,
    r: Vec<Option<String>>,
)
    requires
        call_ensures(arguments, (found,), r),
        found@.len() > 0,
    ensures
        r@.len() == found@.len() - 1,
        forall|i: int| 0 <= i < r@.len() ==> #[trigger] r@[i] == found@[i + 1],
{
}

/// No matching rule is left out while the asking goes on: between a rule that is asked
/// and the next one none matches, nor before the first.
pub proof fn law_no_matching_rule_is_left_out(
    rules: Seq<Rule>,
    s: Flavours,
    replies: Seq<Reply>,
    k: nat,
    j: int,
)
    requires
        in_turn(rules, s, 0, replies),
        k < replies.len(),
        0 <= j < asked_rule(rules, s, 0, k),
        k > 0 ==> asked_rule(rules, s, 0, (k - 1) as nat) < j,
    ensures
        match_of(rules[j], s) is None,
{
    law_the_first_replacement_wins(rules, s, replies);
    if k == 0 {
        lemma_next_match(rules, s, 0);
    } else {
        let last = asked_rule(rules, s, 0, (k - 1) as nat);
        lemma_asked_rule(rules, s, 0, (k - 1) as nat);
        lemma_next_match(rules, s, last + 1);
        assert(asked_rule(rules, s, 0, k) == next_match(rules, s, last + 1));
    }
}

/// A reply is acted on as it deserves: a replacement is done, missing arguments stop
/// the matter, and everything else passes it on to the next rule.
pub proof fn law_what_is_done_about_a_reply(rule: &String, reply: Reply, r: Verdict)
    requires
        call_ensures(judge, (rule, reply), r),
    ensures
        r is Stop <==> reply is NoArguments,
        r is Done <==> (reply matches Reply::Value(answer) && asked(answer) is Ok),
        r is Pass <==> reply is Nil || reply is Failed || (reply matches Reply::Value(answer)
            && asked(answer) is Err),
        r matches Verdict::Done(rewrite, _) ==> (reply matches Reply::Value(answer) ==> asked(
            answer,
        ) == Ok::<Replacement, ReplyError>(rewrite@)),
        r matches Verdict::Pass(note) ==> (note is None <==> reply is Nil),
{
}

} // verus!
