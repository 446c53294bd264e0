use clipmunge::api::{
    mime_list, payload_of, plain_text, require_path, sandbox_changes, strip, surplus_searchers,
    Place, SELECTION_METHODS,
};
use clipmunge::clipboard::Rewriter;
use clipmunge::config::{
    command_or_default, hints_or_default, key_note, Engine, LoadError, Settings, SettingsError,
    NOTIFY_COMMAND,
};
use clipmunge::limits::{charge, Budget, HOOK_EVERY, MAX_TICKS, MEMORY_LIMIT, OVER_BUDGET};
use clipmunge::markup::{html_escape, link};
use clipmunge::selection::Selection;

fn build(source: &str) -> Result<Engine, String> {
    let path = b"/nonexistent/clipmunge/config.lua";
    Engine::build(source, path, path).map_err(|e| e.message())
}

/// Load a config and rewrite one text with it.
fn rewrite(source: &str, text: &str) -> Option<String> {
    let mut engine = build(source).expect("config should load");
    let mut sel = Selection::new();
    sel.set_text(text);
    let out = engine.rewrite(&sel)?;
    out.selection.text().map(str::to_owned)
}

/// A config with one rule that matches anything and runs this body.
fn rule(body: &str) -> String {
    format!(
        "clipmunge.rule {{ name = \"r\", match = [[(?s)^(.*)$]], handler = function(sel, all) {body} end }}"
    )
}

/// What the engine notes when this config rewrites a text.
fn notes(source: &str, text: &str) -> Vec<String> {
    let mut engine = build(source).expect("config should load");
    let mut sel = Selection::new();
    sel.set_text(text);
    engine.rewrite(&sel);
    let all: Vec<String> = engine.take_notes().iter().map(|n| n.message()).collect();
    assert!(engine.take_notes().is_empty());
    all
}

#[test]
fn the_default_path_follows_the_environment() {
    let path = |xdg: Option<&str>, home: Option<&str>| {
        Engine::default_path(xdg.map(str::as_bytes), home.map(str::as_bytes))
            .map(|p| String::from_utf8(p).unwrap())
    };
    assert_eq!(
        path(Some("/xdg"), Some("/home/u")).as_deref(),
        Some("/xdg/clipmunge/config.lua")
    );
    for ignored in [None, Some(""), Some("relative")] {
        assert_eq!(
            path(ignored, Some("/home/u")).as_deref(),
            Some("/home/u/.config/clipmunge/config.lua")
        );
        assert_eq!(path(ignored, None), None);
    }
    assert_eq!(
        path(Some("/xdg"), None).as_deref(),
        Some("/xdg/clipmunge/config.lua")
    );
}

#[test]
fn modules_are_searched_beside_both_paths() {
    assert_eq!(
        require_path(b"/a/config.lua", b"/b/config.lua"),
        "/a/?.lua;/a/?/init.lua;/b/?.lua;/b/?/init.lua"
    );
    assert_eq!(
        require_path(b"config.lua", b"./config.lua"),
        "./?.lua;./?/init.lua"
    );
    assert_eq!(
        rewrite(&rule("return package.path"), "x").as_deref(),
        Some("/nonexistent/clipmunge/?.lua;/nonexistent/clipmunge/?/init.lua")
    );
}

#[test]
fn the_interpreter_is_restricted() {
    let body = r#"
        local gone = {}
        for _, name in ipairs { "dofile", "loadfile", "load", "collectgarbage",
                                "io", "os", "debug", "coroutine" } do
          gone[#gone + 1] = name .. "=" .. tostring(_G[name])
        end
        gone[#gone + 1] = #package.searchers
        gone[#gone + 1] = "[" .. package.cpath .. "]"
        gone[#gone + 1] = tostring(package.loadlib)
        gone[#gone + 1] = tostring(string and table and math and utf8 and true)
        return table.concat(gone, " ")
    "#;
    assert_eq!(
        rewrite(&rule(body), "x").as_deref(),
        Some(
            "dofile=nil loadfile=nil load=nil collectgarbage=nil \
             io=nil os=nil debug=nil coroutine=nil 2 [] nil true"
        )
    );
}

#[test]
fn patterns_see_the_text_without_white_space_around_it() {
    let mut engine = build(&rule("return '[' .. all .. ']'")).expect("config should load");
    for code in 0..0x3100u32 {
        let Some(c) = char::from_u32(code) else {
            continue;
        };
        let text = format!("{c}x{c}");
        let mut sel = Selection::new();
        sel.set_text(&text);
        let out = engine.rewrite(&sel).expect("there is always an x");
        assert_eq!(
            out.selection.text(),
            Some(format!("[{}]", text.trim()).as_str()),
            "{code:x}"
        );
    }
}

#[test]
fn a_handler_sees_the_text_untrimmed_and_any_bytes() {
    let mut engine = build(&rule(
        "return '[' .. sel:text() .. ']' .. #sel:get('text/rtf') .. sel:mimes()[1]",
    ))
    .expect("config should load");
    let mut sel = Selection::new();
    sel.set_text(" x ");
    sel.set("text/rtf".to_string(), vec![0xff, 0, 0x80]);
    let out = engine.rewrite(&sel).expect("should match");
    assert_eq!(
        out.selection.text(),
        Some("[ x ]3text/plain;charset=utf-8")
    );
}

#[test]
fn rules_do_not_chain() {
    let source = r#"
        clipmunge.rule { name = "a", match = [[^x$]], handler = function() return "y" end }
        clipmunge.rule { name = "b", match = [[^y$]], handler = function() return "z" end }
    "#;
    assert_eq!(rewrite(source, "x").as_deref(), Some("y"));
    assert_eq!(rewrite(source, "y").as_deref(), Some("z"));
}

#[test]
fn what_a_handler_did_wrong_is_noted() {
    assert_eq!(
        notes(&rule("return 42"), "x"),
        vec!["rule 'r' returned something unusable: expected a string or a table, got integer"]
    );
    assert_eq!(
        notes(&rule("return true"), "x"),
        vec!["rule 'r' returned something unusable: expected a string or a table, got boolean"]
    );
    assert_eq!(
        notes(&rule("return { notify = 'n' }"), "x"),
        vec![
            "rule 'r' returned something unusable: \
             nothing but `notify`: a rule has to change the clipboard too"
        ]
    );
    assert_eq!(
        notes(&rule("return '\\xff'"), "x"),
        vec![
            "rule 'r' returned something unusable: error converting Lua string to &str \
             (invalid utf-8 sequence of 1 bytes from index 0)"
        ]
    );
    let failed = notes(&rule("error('boom')"), "x");
    assert_eq!(failed.len(), 1);
    assert!(failed[0].starts_with("rule 'r' failed: "), "{}", failed[0]);
    assert!(failed[0].contains("boom"), "{}", failed[0]);
    let entry = notes(&rule("return { text = {} }"), "x");
    assert_eq!(entry.len(), 1);
    assert!(
        entry[0].starts_with("rule 'r' returned something unusable: "),
        "{}",
        entry[0]
    );
    assert!(notes(&rule("return nil"), "x").is_empty());
    assert_eq!(notes(&rule("return 'fine'"), "x"), vec!["rule 'r' matched"]);
}

#[test]
fn what_a_config_did_wrong_is_noted() {
    let said = |source: &str| -> Vec<String> {
        let mut engine = build(source).expect("config should load");
        engine.take_notes().iter().map(|n| n.message()).collect()
    };
    assert_eq!(
        said(""),
        vec!["/nonexistent/clipmunge/config.lua defines no rules"]
    );
    let one = rule("return nil");
    assert!(said(&one).is_empty());
    assert_eq!(
        said(&format!("clipmunge.settings {{ tpyo = 1 }} {one}")),
        vec![
            "clipmunge.settings: unknown key 'tpyo' ignored \
             (known: notify_command, secret_mimes)"
        ]
    );
    assert_eq!(
        said(&format!("clipmunge.settings {{ 'positional' }} {one}")),
        vec!["clipmunge.settings: non-string key ignored"]
    );
}

#[test]
fn faults_are_reported_with_their_place() {
    assert_eq!(
        build("clipmunge.rule { name = 'a', match = 'b' }").err().as_deref(),
        Some("rule #1: rule 'a' has no `handler`")
    );
    assert_eq!(
        build("clipmunge.rule { name = 'a', handler = print }").err().as_deref(),
        Some("rule #1: rule 'a' has no `match`")
    );
    assert_eq!(
        build("clipmunge.rule { match = 'b', handler = print }").err().as_deref(),
        Some("rule #1: rule has no `name`")
    );
    let second = format!(
        "{} clipmunge.rule {{ name = 'a', match = 'b', when = 'never', handler = print }}",
        rule("")
    );
    assert_eq!(
        build(&second).err().as_deref(),
        Some("rule #2: rule 'a': unknown `when` value 'never'")
    );
    let bad = build("clipmunge.rule { name = 'a', match = '(', handler = print }");
    let bad = bad.err().expect("the pattern is bad");
    assert!(
        bad.starts_with("rule #1: rule 'a': bad pattern: regex parse error"),
        "{bad}"
    );
    let field = build("clipmunge.rule { name = {}, match = 'b', handler = print }");
    assert!(field.err().expect("no text").starts_with("rule #1: "));
    assert_eq!(
        build("clipmunge.settings { notify_command = {} }").err().as_deref(),
        Some("notify_command must not be empty")
    );
    assert!(build("clipmunge.settings { secret_mimes = 'x' }").is_err());
    let syntax = build("this is not Lua").err().expect("no Lua");
    assert!(
        syntax.starts_with("evaluating /nonexistent/clipmunge/config.lua: "),
        "{syntax}"
    );
}

#[test]
fn later_settings_replace_earlier_ones_of_the_same_name() {
    let engine = build(
        "clipmunge.settings { secret_mimes = { 'a/a' }, notify_command = { 'first' } }
         clipmunge.settings { secret_mimes = { 'b/b' } }",
    )
    .expect("config should load");
    assert!(!engine.is_secret(&["a/a".to_string()]));
    assert!(engine.is_secret(&["b/b".to_string()]));
    assert_eq!(engine.notify("x"), Some(vec!["first".to_string()]));
}

#[test]
fn the_default_settings() {
    let settings = Settings::default();
    assert_eq!(settings.notify_command, NOTIFY_COMMAND);
    assert_eq!(settings.secret_mimes, vec!["x-kde-passwordManagerHint"]);
}

#[test]
fn a_notification_is_substituted_without_a_shell() {
    let mut engine = build("clipmunge.settings { notify_command = { '{}', 'a {} b {}', '{', '{}}' } }")
        .expect("config should load");
    assert_eq!(
        engine.notify("$(x) 'y'").expect("notifications are on"),
        vec!["{}", "a $(x) 'y' b $(x) 'y'", "{", "$(x) 'y'}"]
    );
    let long = "\u{e9}".repeat(201);
    assert_eq!(
        engine.notify(&long).expect("notifications are on")[3],
        format!("{}}}", "\u{e9}".repeat(200))
    );
    engine.set_notify(false);
    assert_eq!(engine.notify("x"), None);
    engine.set_notify(true);
    assert!(engine.notify("x").is_some());

    let default = build("").expect("config should load");
    assert_eq!(
        default.notify("text").expect("notifications are on"),
        vec!["notify-send", "-a", "clipmunge", "clipmunge", "text"]
    );
}

#[test]
fn the_budget_is_overdrawn_after_its_last_tick() {
    let mut budget = Budget::new();
    for _ in 0..MAX_TICKS {
        assert_eq!(budget.spend(), Ok(()));
    }
    assert_eq!(budget.spend(), Err(OVER_BUDGET.to_string()));
    assert_eq!(budget.spend(), Err(OVER_BUDGET.to_string()));
    assert_eq!(u64::from(HOOK_EVERY) * MAX_TICKS, 10_000_000);
    let spun = notes(&rule("while true do end"), "x");
    assert!(spun[0].contains(OVER_BUDGET), "{}", spun[0]);
}

#[test]
fn a_greedy_handler_is_skipped() {
    let source = format!(
        "{} clipmunge.rule {{ name = 's', match = [[x]], handler = function() return 'ok' end }}",
        rule(&format!("return string.rep('x', {MEMORY_LIMIT})"))
    );
    assert_eq!(rewrite(&source, "x").as_deref(), Some("ok"));
}

#[test]
fn html_is_escaped() {
    assert_eq!(
        html_escape("<a href=\"x\">'&'\u{e9}</a>"),
        "&lt;a href=&quot;x&quot;&gt;&#39;&amp;&#39;\u{e9}&lt;/a&gt;"
    );
    assert_eq!(html_escape("plain"), "plain");
    assert_eq!(
        rewrite(&rule("return clipmunge.html_escape(all)"), "<&>").as_deref(),
        Some("&lt;&amp;&gt;")
    );
}

#[test]
fn a_link_reads_as_its_text_or_its_url() {
    assert_eq!(
        link("u&v", Some("<t>")),
        vec![
            ("text", "<t>".to_string()),
            ("text/html", "<a href=\"u&amp;v\">&lt;t&gt;</a>".to_string()),
            ("chromium/x-source-url", "u&v".to_string()),
        ]
    );
    assert_eq!(link("u", None)[0], ("text", "u".to_string()));
    let mut engine = build(&rule("return clipmunge.link(all)")).expect("config should load");
    let mut sel = Selection::new();
    sel.set_text("https://e.com/");
    let out = engine.rewrite(&sel).expect("should match").selection;
    assert_eq!(out.text(), Some("https://e.com/"));
    assert_eq!(
        out.get("text/html"),
        Some(&b"<a href=\"https://e.com/\">https://e.com/</a>"[..])
    );
    assert_eq!(
        out.get("chromium/x-source-url"),
        Some(&b"https://e.com/"[..])
    );
}

#[test]
fn urls_are_cleaned_from_lua() {
    let url = "https://e.com/?utm_source=x&id=1";
    assert_eq!(
        strip(url.to_string(), None),
        (
            Some("https://e.com/?id=1".to_string()),
            Some(vec!["utm_source".to_string()])
        )
    );
    assert_eq!(
        strip(url.to_string(), Some(vec!["id".to_string()])),
        (
            Some("https://e.com/?utm_source=x".to_string()),
            Some(vec!["id".to_string()])
        )
    );
    assert_eq!(strip("https://e.com/".to_string(), None), (None, None));

    let body = "local clean, dropped = clipmunge.url.strip_params(all)
                return tostring(clean) .. ' ' .. tostring(dropped and dropped[1])";
    assert_eq!(
        rewrite(&rule(body), url).as_deref(),
        Some("https://e.com/?id=1 utm_source")
    );
    assert_eq!(rewrite(&rule(body), "https://e.com/").as_deref(), Some("nil nil"));
    let body = "return clipmunge.url.strip_params(all, { 'id' })";
    assert_eq!(
        rewrite(&rule(body), url).as_deref(),
        Some("https://e.com/?utm_source=x")
    );
    let body = "return #clipmunge.url.default_junk .. clipmunge.url.default_junk[1]";
    assert_eq!(rewrite(&rule(body), url).as_deref(), Some("21utm_*"));
}

#[test]
fn the_sandbox_is_a_list_of_changes() {
    let changes = sandbox_changes(b"/a/config.lua", b"/a/config.lua");
    let listed: Vec<(Place, &str, Option<&str>)> = changes
        .iter()
        .map(|c| (c.place, c.key, c.value.as_deref()))
        .collect();
    assert_eq!(
        listed,
        vec![
            (Place::Globals, "dofile", None),
            (Place::Globals, "loadfile", None),
            (Place::Globals, "load", None),
            (Place::Globals, "collectgarbage", None),
            (Place::Package, "cpath", Some("")),
            (Place::Package, "loadlib", None),
            (Place::Package, "path", Some("/a/?.lua;/a/?/init.lua")),
        ]
    );
    assert_eq!(surplus_searchers(4), vec![4, 3]);
    assert_eq!(surplus_searchers(2), Vec::<usize>::new());
    assert_eq!(surplus_searchers(0), Vec::<usize>::new());
}

#[test]
fn each_setting_is_checked() {
    let odd = || mlua::Error::runtime("odd");
    let list = |s: &str| Ok(Some(vec![s.to_string()]));
    assert!(key_note(Some("secret_mimes".to_string())).is_none());
    let unknown = key_note(Some("tpyo".to_string())).expect("nobody asked for it");
    assert!(unknown.message().contains("unknown key 'tpyo'"));
    let odd_key = key_note(None).expect("that is no text");
    assert_eq!(odd_key.message(), "clipmunge.settings: non-string key ignored");

    let command = command_or_default(list("notify"));
    assert_eq!(command.ok(), Some(vec!["notify".to_string()]));
    let command = command_or_default(Ok(None));
    assert_eq!(command.ok().as_deref(), Some(&NOTIFY_COMMAND.map(String::from)[..]));
    assert!(matches!(
        command_or_default(Ok(Some(Vec::new()))),
        Err(SettingsError::EmptyNotifyCommand)
    ));
    assert!(matches!(command_or_default(Err(odd())), Err(SettingsError::Field(_))));

    assert_eq!(hints_or_default(list("x/y")).ok(), Some(vec!["x/y".to_string()]));
    assert_eq!(hints_or_default(Ok(Some(Vec::new()))).ok(), Some(Vec::new()));
    assert_eq!(
        hints_or_default(Ok(None)).ok(),
        Some(Settings::default().secret_mimes)
    );
    assert!(matches!(hints_or_default(Err(odd())), Err(SettingsError::Field(_))));
}

/// What was told, and the error, of a config that does not load.
fn refused(source: &str) -> (Vec<String>, LoadError) {
    let path = b"/nonexistent/clipmunge/config.lua";
    let Err(failure) = Engine::build(source, path, path) else {
        panic!("that should not load");
    };
    let notes = failure.notes.iter().map(|n| n.message()).collect();
    (notes, failure.error)
}

#[test]
fn faults_of_the_settings_count_in_order() {
    let (_, error) = refused("clipmunge.settings { secret_mimes = 1, notify_command = {} }");
    assert!(matches!(
        error,
        LoadError::Settings(SettingsError::EmptyNotifyCommand)
    ));
    let (_, error) = refused("clipmunge.settings { secret_mimes = 1 }");
    assert!(matches!(error, LoadError::Settings(SettingsError::Field(_))));
}

#[test]
fn a_failed_load_tells_what_came_before() {
    let (notes, error) = refused("clipmunge.settings { tpyo = 1, notify_command = {} }");
    assert!(matches!(error, LoadError::Settings(_)));
    assert_eq!(notes.len(), 2);
    assert!(notes[0].ends_with("defines no rules"));
    assert!(notes[1].contains("unknown key 'tpyo'"));
    let (notes, error) = refused("clipmunge.settings { tpyo = 1 } error('no')");
    assert!(matches!(error, LoadError::Evaluating { .. }));
    assert!(notes.is_empty());
}

#[test]
fn fields_after_a_fault_are_not_read() {
    let source = r#"
        clipmunge.rule(setmetatable({}, { __index = function(_, key)
            if key == "match" then while true do pcall(function() while true do end end) end end
        end }))
    "#;
    let (_, error) = refused(source);
    assert_eq!(error.message(), "rule #1: rule has no `name`");
    let source = r#"
        clipmunge.rule(setmetatable({ name = "r", match = "(" }, { __index = function(_, key)
            while true do pcall(function() while true do end end) end
        end }))
    "#;
    let (_, error) = refused(source);
    assert!(error.message().starts_with("rule #1: rule 'r': bad pattern"));
}

#[test]
fn nothing_runs_after_a_replacement() {
    let source = r#"
        ran = ""
        for _, name in ipairs { "a", "b", "c", "d" } do
            clipmunge.rule { name = name, match = [[x]], handler = function()
                ran = ran .. name
                if name == "a" then return nil end
                if name == "b" then error("no") end
                return ran
            end }
        end
    "#;
    let mut engine = build(source).expect("config should load");
    let mut sel = Selection::new();
    sel.set_text("x");
    let first = engine.rewrite(&sel).expect("one replaces it");
    assert_eq!(first.selection.text(), Some("abc"));
    let second = engine.rewrite(&sel).expect("one replaces it");
    assert_eq!(second.selection.text(), Some("abcabc"));
}

#[test]
fn a_large_table_is_walked_to_its_end() {
    let many = "local t = {} for i = 1, 300000 do t[i] = true end";
    let source = format!("{many} clipmunge.settings(t) {}", rule("return nil"));
    let mut engine = build(&source).expect("config should load");
    assert_eq!(engine.take_notes().len(), 300_000);
    let reply = "local t = { text = 'x' } for i = 1, 20000 do t['x/' .. i] = 'y' end return t";
    let mut sel = Selection::new();
    sel.set_text("x");
    let mut engine = build(&rule(reply)).expect("config should load");
    let out = engine.rewrite(&sel).expect("that is a replacement");
    assert_eq!(out.selection.mimes().len(), 20_005);
}

#[test]
fn a_rule_declared_while_another_is_read_is_found() {
    let source = r#"
        local first = { name = "first", match = [[a]], handler = function() return "1" end }
        clipmunge.rule(setmetatable({}, { __index = function(_, key)
            if key == "name" then
                clipmunge.rule { name = "late", match = [[b]], handler = function() return "2" end }
            end
            return first[key]
        end }))
    "#;
    let engine = build(source).expect("config should load");
    assert_eq!(engine.rule_names(), vec!["first", "late"]);
    assert_eq!(rewrite(source, "b").as_deref(), Some("2"));
}

#[test]
fn rules_are_numbered_as_declared() {
    let fine = rule("return nil");
    let source = format!("{fine} {fine} clipmunge.rule {{ name = 'x' }}");
    let Err(fault) = build(&source) else {
        panic!("the last one is no rule");
    };
    assert!(fault.starts_with("rule #3: "), "{fault}");
}

#[test]
fn the_hook_spends_from_a_budget() {
    assert_eq!(charge(None), Err(OVER_BUDGET.to_string()));
    let mut budget = Budget::new();
    for _ in 0..MAX_TICKS {
        budget = charge(Some(budget)).expect("something is left");
    }
    assert_eq!(charge(Some(budget)), Err(OVER_BUDGET.to_string()));
}

#[test]
fn each_handler_has_the_whole_budget() {
    let busy = "local n = 0 for i = 1, 3000000 do n = n + 1 end";
    let source: String = (0..4).map(|_| rule(&format!("{busy} return nil"))).collect();
    let source = format!("{source} {}", rule("return 'done'"));
    assert_eq!(notes(&source, "x"), vec!["rule 'r' matched"]);
}

#[test]
fn a_selection_answers_what_it_holds() {
    let mut sel = Selection::new();
    sel.set_text(" padded ");
    sel.set("x/raw".to_string(), vec![0xff, 0]);
    assert_eq!(plain_text(&sel).as_deref(), Some(" padded "));
    assert_eq!(payload_of(&sel, "x/raw"), Some(vec![0xff, 0]));
    assert_eq!(payload_of(&sel, "x/none"), None);
    assert_eq!(mime_list(&sel), sel.mimes());
    assert_eq!(plain_text(&Selection::new()), None);
    let offered: Vec<&str> = SELECTION_METHODS.iter().map(|m| m.0).collect();
    assert_eq!(offered, vec!["text", "get", "has", "mimes"]);
}
