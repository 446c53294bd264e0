use clipmunge::config::Engine;
use clipmunge::notify_ready::{notify_addr, NotifyAddr, READY};
use clipmunge::startup::{after_help, after_reload, config_path, log_level, report_rules, NoConfig};

fn two_rules() -> Engine {
    let source = r#"
        clipmunge.rule { name = "one", match = "a", handler = function() end }
        clipmunge.rule { name = "two", match = "b", handler = function() end }
    "#;
    let built = Engine::build(source, b"given.lua", b"/real/config.lua");
    built.map_err(|e| e.message()).expect("config should load")
}

#[test]
fn help_names_the_default_config() {
    assert_eq!(
        after_help(Some(b"/home/u/.config/clipmunge/config.lua")),
        "Default config: /home/u/.config/clipmunge/config.lua\n\n\
         --debug logs clipboard text previews, which may include passwords.\n\n\
         RUST_LOG overrides the log level either way."
    );
    assert_eq!(
        after_help(None),
        "Default config: <no HOME>\n\n\
         --debug logs clipboard text previews, which may include passwords.\n\n\
         RUST_LOG overrides the log level either way."
    );
    assert!(after_help(Some(b"/a\xff")).starts_with("Default config: /a\u{fffd}\n"));
}

#[test]
fn a_given_config_comes_before_the_default() {
    let path = |r: Result<Vec<u8>, NoConfig>| r.map_err(|e| e.message());
    let given = || Some(b"mine".to_vec());
    let default = || Some(b"default".to_vec());
    assert_eq!(path(config_path(given(), default())), Ok(b"mine".to_vec()));
    assert_eq!(path(config_path(given(), None)), Ok(b"mine".to_vec()));
    assert_eq!(path(config_path(None, default())), Ok(b"default".to_vec()));
    assert_eq!(
        path(config_path(None, None)),
        Err("neither XDG_CONFIG_HOME nor HOME is set".to_string())
    );
    assert_eq!(
        NoConfig::Missing(b"/x".to_vec()).message(),
        "no config at /x\n\
         clipmunge does nothing until you give it rules; see config.lua.example"
    );
}

#[test]
fn loaded_rules_are_reported_by_name() {
    let engine = two_rules();
    assert_eq!(
        report_rules(&engine, Some(b"/real/config.lua")),
        "loaded 2 rule(s) from /real/config.lua: one, two"
    );
    assert_eq!(report_rules(&engine, None), "reloaded 2 rule(s): one, two");
    let none = Engine::build("", b"c", b"c").map_err(|e| e.message()).unwrap();
    assert_eq!(report_rules(&none, None), "reloaded 0 rule(s): ");
}

#[test]
fn debugging_raises_the_log_level() {
    assert_eq!(log_level(true), "debug");
    assert_eq!(log_level(false), "info");
}

#[test]
fn a_failed_reload_keeps_the_old_rules() {
    let mut engine = two_rules();
    engine.set_notify(false);
    let (engine, failed) = after_reload(engine, Err("broken"));
    assert_eq!(failed, Some("broken"));
    assert_eq!(engine.rule_names(), vec!["one", "two"]);
    assert_eq!(engine.path(), b"given.lua");

    let source = r#"clipmunge.rule { name = "new", match = "a", handler = function() end }"#;
    let fresh = Engine::build(source, b"given.lua", b"given.lua").map_err(|e| e.message());
    let (engine, failed) = after_reload(engine, fresh);
    assert_eq!(failed, None);
    assert_eq!(engine.rule_names(), vec!["new"]);
    assert!(clipmunge::clipboard::Rewriter::notify(&engine, "x").is_none());
}

#[test]
fn an_at_sign_means_an_abstract_socket() {
    assert!(matches!(
        notify_addr(b"@clipmunge"), Ok(NotifyAddr::Abstract(name)) if name == b"clipmunge"
    ));
    assert!(matches!(
        notify_addr(b"@\xff"), Ok(NotifyAddr::Abstract(name)) if name == b"\xff"
    ));
    assert!(matches!(
        notify_addr(b"/run/x@y"), Ok(NotifyAddr::Pathname(path)) if path == "/run/x@y"
    ));
    assert!(matches!(
        notify_addr(b""), Ok(NotifyAddr::Pathname(path)) if path.is_empty()
    ));
    assert_eq!(READY, "READY=1");
}

#[test]
fn a_non_utf8_pathname_is_rejected() {
    let Err(err) = notify_addr(&[0xff, 0xfe]) else {
        panic!("not a pathname");
    };
    assert_eq!(err.message(), "NOTIFY_SOCKET is not UTF-8");
}
