use clipmunge::clipboard::{Rewrite, Rewriter};
use clipmunge::config::{Engine, LoadFailure};
use clipmunge::selection::{Selection, HTML_MIME, MARKER_MIME, TEXT_MIMES, URL_MIME};


/// Build a rule engine from a Lua source string.
fn engine(source: &str) -> Result<Engine, String> {
    // Use a nonexistent directory so tests cannot load local Lua modules.
    let path = b"/nonexistent/clipmunge/config.lua";
    Engine::build(source, path, path).map_err(|e| e.message())
}

/// Extract the error without requiring Engine to implement Debug.
fn load_err(source: &str) -> LoadFailure {
    let path = b"/nonexistent/clipmunge/config.lua";
    Engine::build(source, path, path)
        .err()
        .expect("this config was supposed to fail to load")
}

fn plain(text: &str) -> Selection {
    let mut sel = Selection::new();
    sel.set_text(text);
    sel
}

fn text_of(r: &Rewrite) -> String {
    String::from_utf8_lossy(r.selection.get("text/plain").unwrap_or_default()).into_owned()
}

const ECHO: &str = r#"
    clipmunge.rule {
      name = "echo",
      match = [[^(.+)$]],
      handler = function(_, all) return "seen:" .. all end,
    }
"#;

#[test]
fn reload_preserves_disabled_notifications() {
    let mut engine = engine(ECHO).expect("config should load");
    engine.set_notify(false);

    let fresh = Engine::build(ECHO, engine.path(), engine.path())
        .map_err(|e| e.message())
        .expect("config should reload");
    assert!(fresh.notify("loaded").is_some());
    let reloaded = engine.reload(fresh);
    assert!(reloaded.notify("loaded").is_none(), "reload re-enabled notifications");
    assert_eq!(reloaded.rule_names(), engine.rule_names());
}

#[test]
fn a_matching_rule_replaces_the_text() {
    let mut e = engine(ECHO).expect("config should load");
    let out = e.rewrite(&plain("hello")).expect("echo should match");
    assert_eq!(text_of(&out), "seen:hello");
}

#[test]
fn no_rule_matching_leaves_the_clipboard_alone() {
    let mut e = engine(
        r#"clipmunge.rule { name = "digits", match = [[^\d+$]],
                            handler = function(_) return "x" end }"#,
    )
    .expect("config should load");
    assert!(e.rewrite(&plain("not a number")).is_none());
}

#[test]
fn the_first_matching_rule_wins_in_declaration_order() {
    let mut e = engine(
        r#"
        clipmunge.rule { name = "first",  match = [[^x$]],
                         handler = function(_) return "one" end }
        clipmunge.rule { name = "second", match = [[^x$]],
                         handler = function(_) return "two" end }
        "#,
    )
    .expect("config should load");
    let out = e.rewrite(&plain("x")).expect("something should match");
    assert_eq!(text_of(&out), "one");
}

#[test]
fn a_handler_returning_nil_declines_and_the_next_rule_is_tried() {
    let mut e = engine(
        r#"
        clipmunge.rule { name = "abstains", match = [[^x$]],
                         handler = function(_) return nil end }
        clipmunge.rule { name = "answers",  match = [[^x$]],
                         handler = function(_) return "second" end }
        "#,
    )
    .expect("config should load");
    let out = e
        .rewrite(&plain("x"))
        .expect("the second rule should answer");
    assert_eq!(text_of(&out), "second");
}

#[test]
fn a_handler_that_throws_is_skipped_not_fatal() {
    let mut e = engine(
        r#"
        clipmunge.rule { name = "explodes", match = [[^x$]],
                         handler = function(_) error("boom") end }
        clipmunge.rule { name = "survives", match = [[^x$]],
                         handler = function(_) return "still here" end }
        "#,
    )
    .expect("config should load");
    let out = e
        .rewrite(&plain("x"))
        .expect("the second rule should answer");
    assert_eq!(text_of(&out), "still here");
}

#[test]
fn a_handler_returning_something_unusable_is_skipped() {
    let mut e = engine(
        r#"
        clipmunge.rule { name = "returns-a-number", match = [[^x$]],
                         handler = function(_) return 42 end }
        clipmunge.rule { name = "returns-a-string", match = [[^x$]],
                         handler = function(_) return "ok" end }
        "#,
    )
    .expect("config should load");
    let out = e
        .rewrite(&plain("x"))
        .expect("the second rule should answer");
    assert_eq!(text_of(&out), "ok");
}

#[test]
fn a_table_of_only_notify_is_rejected() {
    // Notifications describe a published rewrite; without a payload there is none.
    let mut e = engine(
        r#"clipmunge.rule { name = "chatty", match = [[^x$]],
                            handler = function(_) return { notify = "hi" } end }"#,
    )
    .expect("config should load");
    assert!(e.rewrite(&plain("x")).is_none());
}

#[test]
fn capture_groups_arrive_as_arguments_and_a_missing_group_is_nil() {
    let mut e = engine(
        r#"clipmunge.rule {
             name = "groups",
             match = [[^(a)(b)?(c)$]],
             handler = function(_, one, two, three)
               return one .. "/" .. tostring(two) .. "/" .. three
             end,
           }"#,
    )
    .expect("config should load");
    let out = e.rewrite(&plain("ac")).expect("should match");
    assert_eq!(text_of(&out), "a/nil/c");
}

#[test]
fn plain_only_skips_a_rule_when_a_rich_flavour_is_present() {
    let src = r#"clipmunge.rule { name = "linkify", match = [[^x$]], when = "plain-only",
                                  handler = function(_) return "linked" end }"#;
    let mut e = engine(src).expect("config should load");
    assert!(e.rewrite(&plain("x")).is_some(), "bare text should match");

    let mut rich = plain("x");
    rich.set(HTML_MIME.to_string(), b"<b>x</b>".to_vec());
    assert!(
        e.rewrite(&rich).is_none(),
        "a selection that already carries text/html is not ours to guess at"
    );
}

#[test]
fn an_unknown_when_value_fails_the_load() {
    let err = load_err(
        r#"clipmunge.rule { name = "typo", match = [[^x$]], when = "plainonly",
                            handler = function(_) return "x" end }"#,
    );
    assert!(err.message().contains("plainonly"), "{}", err.message());
}

#[test]
fn a_bad_pattern_fails_at_load_rather_than_on_some_later_copy() {
    let err = load_err(
        r#"clipmunge.rule { name = "unbalanced", match = [[^(x$]],
                            handler = function(_) return "x" end }"#,
    );
    assert!(err.message().contains("unbalanced"), "{}", err.message());
}

#[test]
fn link_escapes_both_the_href_and_the_text() {
    let mut e = engine(
        r#"clipmunge.rule {
             name = "link",
             match = [[^(.+)$]],
             handler = function(_, s) return clipmunge.link("https://e.com/?a=1&b=2", s) end,
           }"#,
    )
    .expect("config should load");
    let out = e.rewrite(&plain("<script>&\"")).expect("should match");
    let html =
        String::from_utf8_lossy(out.selection.get(HTML_MIME).expect("link sets text/html"))
            .into_owned();
    assert_eq!(
        html,
        "<a href=\"https://e.com/?a=1&amp;b=2\">&lt;script&gt;&amp;&quot;</a>"
    );
    // The plain flavour is the text as given, unescaped - it is not markup.
    assert_eq!(text_of(&out), "<script>&\"");
}

/// Regression: clearing os/io globals left the libraries in package.loaded.
#[test]
fn require_cannot_resurrect_io_or_os() {
    for lib in ["io", "os", "debug"] {
        let src = format!(
            r#"local ok, m = pcall(require, "{lib}")
               if ok and type(m) == "table" then error("{lib} is reachable") end
               clipmunge.rule {{ name = "n", match = [[^x$]],
                                 handler = function(_) return "x" end }}"#
        );
        engine(&src).unwrap_or_else(|e| panic!("{lib} escaped the sandbox: {e}"));
    }
}

/// Regression: Lua table order changed the advertised MIME order between runs.
#[test]
fn the_advertised_order_is_canonical_not_lua_table_order() {
    let mut e = engine(
        r#"clipmunge.rule {
             name = "link",
             match = [[^(.+)$]],
             handler = function(_, s) return clipmunge.link("https://e.com/", s) end,
           }"#,
    )
    .expect("config should load");
    let out = e.rewrite(&plain("x")).expect("should match");
    let mimes: Vec<&str> = out.selection.mimes();

    let mut want: Vec<&str> = TEXT_MIMES.to_vec();
    want.push(HTML_MIME);
    want.push(URL_MIME);
    assert_eq!(mimes, want);
    assert!(
        !mimes.contains(&MARKER_MIME),
        "the marker is added on publish"
    );
}

/// A runaway handler must yield to the next rule within the instruction budget.
#[test]
fn a_runaway_handler_is_skipped_rather_than_hanging() {
    let mut e = engine(
        r#"
        clipmunge.rule { name = "spins",  match = [[^x$]],
                         handler = function(_) while true do end end }
        clipmunge.rule { name = "normal", match = [[^x$]],
                         handler = function(_) return "after the spin" end }
        "#,
    )
    .expect("config should load");
    let started = std::time::Instant::now();
    let out = e
        .rewrite(&plain("x"))
        .expect("the second rule should answer");
    assert_eq!(text_of(&out), "after the spin");
    assert!(
        started.elapsed() < std::time::Duration::from_secs(10),
        "took {:?}, which means the budget did not fire",
        started.elapsed()
    );
}

#[test]
fn a_runaway_at_load_time_fails_the_load() {
    load_err("while true do end");
}

#[test]
fn each_rule_gets_the_whole_budget_rather_than_sharing_one() {
    // Each handler uses most of its budget, so sharing a counter would fail.
    let mut e = engine(
        r#"
        local function burn()
          local acc = 0
          for i = 1, 300000 do acc = acc + i end
          return acc
        end
        clipmunge.rule { name = "burn1", match = [[^x$]],
                         handler = function(_) burn() return nil end }
        clipmunge.rule { name = "burn2", match = [[^x$]],
                         handler = function(_) return "burnt " .. burn() end }
        "#,
    )
    .expect("config should load");
    let out = e
        .rewrite(&plain("x"))
        .expect("the second rule should answer");
    assert!(text_of(&out).starts_with("burnt "), "{}", text_of(&out));
}

#[test]
fn an_empty_or_whitespace_selection_is_left_alone() {
    let mut e = engine(ECHO).expect("config should load");
    assert!(e.rewrite(&plain("")).is_none());
    assert!(e.rewrite(&plain("   \n ")).is_none());
    assert!(e.rewrite(&Selection::new()).is_none());
}

#[test]
fn a_notify_field_rides_along_with_the_rewrite() {
    let mut e = engine(
        r#"clipmunge.rule {
             name = "tells",
             match = [[^x$]],
             handler = function(_) return { text = "y", notify = "did a thing" } end,
           }"#,
    )
    .expect("config should load");
    let out = e.rewrite(&plain("x")).expect("should match");
    assert_eq!(out.notify.as_deref(), Some("did a thing"));
    assert_eq!(text_of(&out), "y");
}

fn mimes(list: &[&str]) -> Vec<String> {
    list.iter().map(|s| (*s).to_string()).collect()
}

#[test]
fn a_handler_can_read_the_flavours_that_arrived() {
    let mut e = engine(
        r#"clipmunge.rule {
             name = "inspect",
             match = [[^(x)$]],
             handler = function(incoming, cap)
               return table.concat({
                 "cap=" .. cap,
                 "text=" .. tostring(incoming:text()),
                 "html=" .. tostring(incoming:get("text/html")),
                 "missing=" .. tostring(incoming:get("text/rtf")),
                 "has-html=" .. tostring(incoming:has("text/html")),
                 "n=" .. #incoming:mimes(),
               }, " ")
             end,
           }"#,
    )
    .expect("config should load");

    let mut sel = plain("x");
    sel.set(HTML_MIME.to_string(), b"<b>x</b>".to_vec());
    let out = e.rewrite(&sel).expect("should match");
    assert_eq!(
        text_of(&out),
        "cap=x text=x html=<b>x</b> missing=nil has-html=true n=6"
    );
}

/// A handler must not retain access to borrowed selection data after returning.
#[test]
fn the_incoming_selection_does_not_outlive_the_call() {
    let mut e = engine(
        r#"
        local stashed = nil
        clipmunge.rule {
          name = "stash",
          match = [[^first$]],
          handler = function(incoming) stashed = incoming; return "stashed" end,
        }
        clipmunge.rule {
          name = "reuse",
          match = [[^second$]],
          handler = function()
            local ok, err = pcall(function() return stashed:text() end)
            if ok then error("the stale userdata was readable") end
            return "expired"
          end,
        }
        "#,
    )
    .expect("config should load");

    assert_eq!(
        text_of(&e.rewrite(&plain("first")).expect("first")),
        "stashed"
    );
    assert_eq!(
        text_of(&e.rewrite(&plain("second")).expect("second")),
        "expired"
    );
}

#[test]
fn a_handler_cannot_write_to_the_incoming_selection() {
    let mut e = engine(
        r#"clipmunge.rule {
             name = "tamper",
             match = [[^x$]],
             handler = function(incoming)
               local ok = pcall(function() incoming.text = 42 end)
               return "writable=" .. tostring(ok)
             end,
           }"#,
    )
    .expect("config should load");
    let out = e.rewrite(&plain("x")).expect("should match");
    assert_eq!(text_of(&out), "writable=false");
}

#[test]
fn the_default_secret_hint_is_honoured() {
    let e = engine(ECHO).expect("config should load");
    // The list Firefox actually advertises from about:logins.
    assert!(e.is_secret(&mimes(&[
        "text/plain;charset=utf-8",
        "UTF8_STRING",
        "text/plain",
        "x-kde-passwordManagerHint",
    ])));
    // ...and the one it advertises for an ordinary copy, hint absent.
    assert!(!e.is_secret(&mimes(&[
        "text/plain;charset=utf-8",
        "UTF8_STRING",
        "COMPOUND_TEXT",
        "TEXT",
        "text/plain",
        "STRING",
        "SAVE_TARGETS",
    ])));
}

#[test]
fn the_secret_hint_matches_regardless_of_case() {
    let e = engine(ECHO).expect("config should load");
    assert!(e.is_secret(&mimes(&["text/plain", "X-KDE-PasswordManagerHint"])));
    assert!(e.is_secret(&mimes(&["text/plain", "X-KDE-PASSWORDMANAGERHINT"])));
}

#[test]
fn secret_mimes_replaces_the_default_rather_than_extending_it() {
    let e = engine(
        r#"clipmunge.settings { secret_mimes = { "x-vault-secret" } }
           clipmunge.rule { name = "n", match = [[^x$]],
                            handler = function(_) return "x" end }"#,
    )
    .expect("config should load");
    assert!(e.is_secret(&mimes(&["text/plain", "x-vault-secret"])));
    assert!(
        !e.is_secret(&mimes(&["text/plain", "x-kde-passwordManagerHint"])),
        "a replaced list means the built-in hint is no longer in it"
    );
}

#[test]
fn an_empty_secret_mimes_honours_nothing_and_is_allowed() {
    let e = engine(
        r#"clipmunge.settings { secret_mimes = {} }
           clipmunge.rule { name = "n", match = [[^x$]],
                            handler = function(_) return "x" end }"#,
    )
    .expect("an empty secret_mimes is a decision, not an error");
    assert!(!e.is_secret(&mimes(&["text/plain", "x-kde-passwordManagerHint"])));
}

#[test]
fn an_unknown_settings_key_is_a_warning_and_not_a_failure() {
    let e = engine(
        r#"clipmunge.settings { notifi_command = { "true" } }
           clipmunge.rule { name = "n", match = [[^x$]],
                            handler = function(_) return "x" end }"#,
    )
    .expect("an unknown key warns rather than failing");
    assert_eq!(e.rule_names(), vec!["n"]);
}

#[test]
fn an_empty_notify_command_fails_the_load() {
    load_err(r#"clipmunge.settings { notify_command = {} }"#);
}

#[test]
fn a_rule_without_a_handler_or_a_match_fails_the_load() {
    load_err(r#"clipmunge.rule { name = "no-match", handler = function(_) return "x" end }"#);
    load_err(r#"clipmunge.rule { name = "no-handler", match = [[^x$]] }"#);
}

#[test]
fn a_rule_without_a_name_fails_the_load() {
    let err =
        load_err(r#"clipmunge.rule { match = [[^x$]], handler = function(_) return "x" end }"#);
    let msg = err.message();
    assert!(msg.contains("`name`"), "{msg}");
    // Identify the unnamed rule by declaration order.
    assert!(msg.contains("rule #1"), "{msg}");
}
