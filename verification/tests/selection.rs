use clipmunge::selection::{
    dump, Selection, HTML_MIME, MARKER_MIME, MAX_PREVIEW, RICH_MIMES, TEXT_MIMES, URL_MIME,
};

fn owned(list: &[&str]) -> Vec<String> {
    list.iter().map(|s| s.to_string()).collect()
}

#[test]
fn a_stored_payload_is_found_and_others_stay() {
    let mut sel = Selection::new();
    sel.set("a/a".to_string(), vec![1]).set("b/b".to_string(), vec![2]);
    sel.set("a/a".to_string(), vec![3, 4]);
    assert_eq!(sel.get("a/a"), Some(&[3u8, 4][..]));
    assert_eq!(sel.get("b/b"), Some(&[2u8][..]));
    assert_eq!(sel.get("c/c"), None);
    assert_eq!(sel.mimes(), vec!["a/a", "b/b"]);
    assert!(sel.has("b/b") && !sel.has("c/c"));
    assert!(!sel.is_empty() && Selection::default().is_empty());
}

#[test]
fn text_is_set_under_every_text_name_and_read_back() {
    let mut sel = Selection::new();
    sel.set_text("h\u{e9}llo");
    assert_eq!(sel.mimes(), TEXT_MIMES.to_vec());
    assert_eq!(sel.text(), Some("h\u{e9}llo"));
    for mime in TEXT_MIMES {
        assert_eq!(sel.get(mime), Some("h\u{e9}llo".as_bytes()));
    }
    assert!(sel.is_plain_only());
}

#[test]
fn text_that_is_not_utf8_is_not_passed_over() {
    let mut sel = Selection::new();
    sel.set("text/plain".to_string(), vec![0xff]);
    sel.set("STRING".to_string(), b"fine".to_vec());
    assert_eq!(sel.text(), None);
    sel.set("text/plain;charset=utf-8".to_string(), b"first".to_vec());
    assert_eq!(sel.text(), Some("first"));
}

#[test]
fn every_rich_type_makes_a_selection_rich() {
    for mime in RICH_MIMES {
        let mut sel = Selection::new();
        sel.set_text("x");
        sel.set(mime.to_string(), Vec::new());
        assert!(!sel.is_plain_only(), "{mime}");
    }
    let mut sel = Selection::new();
    sel.set("image/png".to_string(), Vec::new());
    assert!(sel.is_plain_only());
}

#[test]
fn the_canonical_order_does_not_depend_on_the_order_of_filling() {
    let types = [
        "z/last",
        HTML_MIME,
        "TEXT",
        "a/first",
        "text/rtf",
        URL_MIME,
        "text/plain",
        "text/uri-list",
    ];
    let want = vec![
        "text/plain",
        "TEXT",
        HTML_MIME,
        URL_MIME,
        "text/uri-list",
        "text/rtf",
        "a/first",
        "z/last",
    ];
    for shift in 0..types.len() {
        let mut sel = Selection::new();
        for i in 0..types.len() {
            let mime = types[(i + shift) % types.len()];
            sel.set(mime.to_string(), mime.as_bytes().to_vec());
        }
        sel.canonical_order();
        assert_eq!(sel.mimes(), want);
        for (mime, data) in sel.iter() {
            assert_eq!(mime.as_bytes(), data);
        }
    }
}

#[test]
fn a_clone_is_independent() {
    let mut sel = Selection::new();
    sel.set_text("x");
    let copy = sel.clone();
    sel.set_text("y");
    assert_eq!(copy.text(), Some("x"));
}

#[test]
fn a_summary_shows_sizes_and_not_contents() {
    assert_eq!(Selection::new().describe(), "Selection");
    let mut sel = Selection::new();
    sel.set("text/plain".to_string(), b"secret".to_vec());
    sel.set(MARKER_MIME.to_string(), Vec::new());
    assert_eq!(
        sel.describe(),
        "Selection { text/plain: 6 bytes, application/x-clipmunge: 0 bytes }"
    );
}

#[test]
fn a_dump_previews_text_and_sizes_the_rest() {
    let mut sel = Selection::new();
    sel.set("text/plain".to_string(), b"one\ntwo".to_vec());
    sel.set("image/png".to_string(), vec![0xff, 0xd8]);
    assert_eq!(
        dump(&sel),
        "\n      text/plain: one\\ntwo\n      image/png: <2 bytes, not utf-8>"
    );
    assert_eq!(dump(&Selection::new()), "");
}

#[test]
fn a_long_preview_is_cut_between_characters() {
    let mut exact = Selection::new();
    exact.set("text/plain".to_string(), vec![b'a'; MAX_PREVIEW]);
    assert_eq!(dump(&exact), format!("\n      text/plain: {}", "a".repeat(512)));

    let mut long = Selection::new();
    long.set("text/plain".to_string(), vec![b'a'; MAX_PREVIEW + 1]);
    assert_eq!(
        dump(&long),
        format!("\n      text/plain: {}\u{2026} (513 bytes total)", "a".repeat(512))
    );

    let mut wide = Selection::new();
    let text = format!("a{}", "\u{e9}".repeat(300));
    wide.set("text/plain".to_string(), text.into_bytes());
    assert_eq!(
        dump(&wide),
        format!(
            "\n      text/plain: a{}\u{2026} (601 bytes total)",
            "\u{e9}".repeat(255)
        )
    );
}

#[test]
fn lists_of_types_are_as_documented() {
    assert_eq!(
        owned(&RICH_MIMES),
        owned(&["text/html", "chromium/x-source-url", "text/uri-list", "text/rtf"])
    );
}
