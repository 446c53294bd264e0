use clipmunge::clipboard::Rewrite;
use clipmunge::interpreter::Kind;
use clipmunge::notes::Note;
use clipmunge::reply::{to_rewrite, Answer, Entry, Payload, Reply, ReplyError};
use clipmunge::rules::{
    arguments, finish_rule, judge, next_call, rule_name, rule_pattern, rule_source, rule_when,
    Rule, RuleError, Verdict, When,
};
use clipmunge::selection::{Selection, HTML_MIME, TEXT_MIMES};

fn payload(data: &[u8]) -> Payload {
    Payload {
        data: data.to_vec(),
        text: String::from_utf8(data.to_vec()).map_err(|_| mlua::Error::runtime("no text")),
    }
}

fn pair(name: &str, data: &[u8]) -> Entry {
    Ok((name.to_string(), payload(data)))
}

fn asked(answer: Answer) -> Result<Rewrite, String> {
    to_rewrite(answer).map_err(|e| e.message())
}

fn error() -> mlua::Error {
    mlua::Error::runtime("odd")
}

fn handler() -> mlua::Function {
    mlua::Lua::new().create_function(|_, ()| Ok(())).unwrap()
}

fn rule(name: &str, pattern: &str, when: When) -> Rule {
    let pattern = regex::Regex::new(pattern).unwrap();
    let Ok(rule) = finish_rule(name.to_string(), pattern, when, Ok(Some(handler()))) else {
        panic!("nothing is missing");
    };
    rule
}

#[test]
fn a_text_becomes_the_plain_text_family() {
    let rewrite = asked(Answer::Text(payload("h\u{e9}".as_bytes()))).unwrap();
    assert_eq!(rewrite.selection.mimes(), TEXT_MIMES.to_vec());
    assert_eq!(rewrite.selection.text(), Some("h\u{e9}"));
    assert_eq!(rewrite.notify, None);
    let empty = asked(Answer::Text(payload(b""))).unwrap();
    assert_eq!(empty.selection.text(), Some(""));
}

#[test]
fn the_order_of_a_table_does_not_matter() {
    let entries = || {
        vec![
            pair("notify", b"n"),
            pair("text", b"t"),
            pair("z/z", &[0xff]),
            pair(HTML_MIME, b"<b>"),
        ]
    };
    let first = asked(Answer::Table(entries())).unwrap();
    for shift in 0..4 {
        let mut turned = entries();
        turned.rotate_left(shift);
        let other = asked(Answer::Table(turned)).unwrap();
        assert_eq!(other.selection.iter(), first.selection.iter());
        assert_eq!(other.notify, first.notify);
    }
    assert_eq!(first.notify.as_deref(), Some("n"));
    assert_eq!(first.selection.mimes()[5..], [HTML_MIME, "z/z"]);
    assert_eq!(first.selection.get("z/z"), Some(&[0xffu8][..]));
}

#[test]
fn a_later_entry_takes_precedence_where_two_give_one_type() {
    let rewrite = asked(Answer::Table(vec![
        pair("text/plain", b"own"),
        pair("text", b"all"),
    ]))
    .unwrap();
    assert_eq!(rewrite.selection.get("text/plain"), Some(&b"all"[..]));
    let rewrite = asked(Answer::Table(vec![
        pair("text", b"all"),
        pair("text/plain", b"own"),
    ]))
    .unwrap();
    assert_eq!(rewrite.selection.get("text/plain"), Some(&b"own"[..]));
}

#[test]
fn every_fault_of_an_answer_is_told() {
    let fault = |answer| to_rewrite(answer).err().expect("not a replacement");
    for untext in [
        Answer::Text(payload(&[0xff])),
        Answer::Table(vec![pair("text", &[0xff])]),
        Answer::Table(vec![pair("notify", &[0xff]), pair("text", b"t")]),
    ] {
        let told = fault(untext);
        assert!(matches!(&told, ReplyError::Value(_)));
        assert!(told.message().contains("no text"));
    }
    assert!(matches!(
        fault(Answer::Table(vec![pair("notify", b"n")])),
        ReplyError::OnlyNotify
    ));
    assert!(matches!(
        fault(Answer::Table(Vec::new())),
        ReplyError::OnlyNotify
    ));
    assert!(matches!(
        fault(Answer::Other(Kind::Function)),
        ReplyError::WrongType(Kind::Function)
    ));
    let entry = fault(Answer::Table(vec![pair("text", b"t"), Err(error())]));
    assert!(matches!(&entry, ReplyError::Value(_)));
    assert!(entry.message().contains("odd"));
}

#[test]
fn types_are_named_as_in_lua() {
    for (kind, name) in [
        (Kind::Nil, "nil"),
        (Kind::Boolean, "boolean"),
        (Kind::LightUserData, "lightuserdata"),
        (Kind::Integer, "integer"),
        (Kind::Number, "number"),
        (Kind::Text, "string"),
        (Kind::Table, "table"),
        (Kind::Function, "function"),
        (Kind::Thread, "thread"),
        (Kind::UserData, "userdata"),
        (Kind::Error, "error"),
        (Kind::Other, "other"),
    ] {
        assert_eq!(
            ReplyError::WrongType(kind).message(),
            format!("expected a string or a table, got {name}")
        );
    }
}

#[test]
fn a_reply_passes_stops_or_settles_the_matter() {
    let judge = |reply| judge(&"r".to_string(), reply);
    assert!(matches!(judge(Reply::Nil), Verdict::Pass(None)));
    let Verdict::Done(rewrite, note) = judge(Reply::Value(Answer::Text(payload(b"t")))) else {
        panic!("that is a replacement");
    };
    assert_eq!(rewrite.selection.text(), Some("t"));
    assert_eq!(note.message(), "rule 'r' matched");
    assert!(!note.is_warning());
    let Verdict::Pass(Some(note)) = judge(Reply::Value(Answer::Other(Kind::Number))) else {
        panic!("that is unusable");
    };
    assert!(matches!(&note, Note::Unusable { rule, .. } if rule == "r"));
    assert!(note.is_warning());
    let Verdict::Pass(Some(note)) = judge(Reply::Failed(error())) else {
        panic!("that failed");
    };
    assert!(note.message().starts_with("rule 'r' failed: "));
    let Verdict::Stop(note) = judge(Reply::NoArguments(error())) else {
        panic!("nothing was called");
    };
    assert!(note.message().starts_with("rule 'r': "));
}

#[test]
fn notes_say_what_happened() {
    let limit = Note::NoMemoryLimit { error: error() };
    assert!(limit
        .message()
        .starts_with("no memory limit on the rule interpreter: "));
}

#[test]
fn arguments_leave_out_the_whole_match() {
    let group = |s: &str| Some(s.to_string());
    assert_eq!(
        arguments(vec![group("ab"), group("a"), None]),
        vec![group("a"), None]
    );
    assert_eq!(arguments(vec![group("ab")]), Vec::<Option<String>>::new());
    assert_eq!(arguments(Vec::new()), Vec::<Option<String>>::new());
}

#[test]
fn each_field_of_a_declaration_is_checked() {
    let text = |s: &str| Ok(Some(s.to_string()));
    let name = "r".to_string();
    assert_eq!(rule_name(text("r")).ok().as_deref(), Some("r"));
    assert!(matches!(rule_name(Ok(None)), Err(RuleError::NoName)));
    assert!(matches!(rule_name(Err(error())), Err(RuleError::Field(_))));
    assert_eq!(RuleError::NoName.message(), "rule has no `name`");

    assert_eq!(rule_source(&name, text("x")).ok().as_deref(), Some("x"));
    assert_eq!(
        rule_source(&name, Ok(None)).err().map(|e| e.message()).as_deref(),
        Some("rule 'r' has no `match`")
    );
    assert!(matches!(rule_source(&name, Err(error())), Err(RuleError::Field(_))));

    assert!(rule_pattern(&name, regex::Regex::new("x")).is_ok());
    let refused = rule_pattern(&name, regex::Regex::new("("));
    assert!(matches!(refused, Err(RuleError::BadPattern { name, .. }) if name == "r"));

    for (when, want) in [
        (Ok(None), When::Always),
        (text("always"), When::Always),
        (text("plain-only"), When::PlainOnly),
    ] {
        assert_eq!(rule_when(&name, when).ok(), Some(want));
    }
    assert_eq!(
        rule_when(&name, text("never")).err().map(|e| e.message()).as_deref(),
        Some("rule 'r': unknown `when` value 'never'")
    );
    assert!(matches!(rule_when(&name, Err(error())), Err(RuleError::Field(_))));

    let finish = |found| {
        let pattern = regex::Regex::new("x").unwrap();
        finish_rule("r".to_string(), pattern, When::PlainOnly, found)
    };
    let Ok(rule) = finish(Ok(Some(handler()))) else {
        panic!("nothing is missing");
    };
    assert_eq!((rule.name.as_str(), rule.when), ("r", When::PlainOnly));
    assert_eq!(
        finish(Ok(None)).err().map(|e| e.message()).as_deref(),
        Some("rule 'r' has no `handler`")
    );
    assert!(matches!(finish(Err(error())), Err(RuleError::Field(_))));
}

#[test]
fn the_next_call_is_for_the_next_rule_that_matches() {
    let rules: Vec<Rule> = vec![
        rule("digits", r"^\d+$", When::Always),
        rule("plain", "^(x)(y)?", When::PlainOnly),
        rule("any", ".", When::Always),
    ];
    let mut sel = Selection::new();
    assert!(next_call(&rules, &sel, 0).is_none());
    sel.set_text(" \n");
    assert!(next_call(&rules, &sel, 0).is_none());
    sel.set_text(" xz ");
    let call = next_call(&rules, &sel, 0).unwrap();
    assert_eq!(call.rule, 1);
    assert_eq!(call.args, vec![Some("x".to_string()), None]);
    assert_eq!(next_call(&rules, &sel, 2).map(|c| c.rule), Some(2));
    assert!(next_call(&rules, &sel, 3).is_none());
    assert!(next_call(&rules, &sel, usize::MAX).is_none());
    sel.set(HTML_MIME.to_string(), Vec::new());
    assert_eq!(next_call(&rules, &sel, 0).map(|c| c.rule), Some(2));
}
