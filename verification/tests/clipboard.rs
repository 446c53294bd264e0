use clipmunge::clipboard::{
    Begin, Candidate, Clipboard, ConnectError, DeviceGone, Draft, Global, PublishError, Rewrite,
    Rewriter, Taken,
};
use clipmunge::selection::{Selection, HTML_MIME, MARKER_MIME};

/// A rewriter that answers as it is told to.
struct Told {
    answer: Option<&'static str>,
    secret: &'static str,
}

impl Rewriter for Told {
    fn rewrite(&mut self, incoming: &Selection) -> Option<Rewrite> {
        let text = format!("{}{}", self.answer?, incoming.text()?);
        let mut selection = Selection::new();
        selection.set_text(&text);
        Some(Rewrite {
            selection,
            notify: Some("done".to_string()),
        })
    }

    fn is_secret(&self, mimes: &[String]) -> bool {
        mimes.iter().any(|m| m == self.secret)
    }
}

/// A rewriter with nothing of its own but the answer.
struct Plain;

impl Rewriter for Plain {
    fn rewrite(&mut self, _: &Selection) -> Option<Rewrite> {
        None
    }
}

fn connected() -> Clipboard {
    let mut c = Clipboard::new();
    c.on_global("ext_data_control_manager_v1");
    c.on_global("wl_seat");
    c.connect().unwrap();
    c
}

fn offer(c: &mut Clipboard, id: u32, mimes: &[&str]) {
    c.on_data_offer(id);
    for mime in mimes {
        c.on_offer_mime(id, mime.to_string());
    }
}

fn selected(c: &mut Clipboard) -> Candidate {
    match c.take_selection() {
        Ok(Taken::Offer(candidate)) => candidate,
        _ => panic!("an offer was expected"),
    }
}

fn plain(text: &str) -> Selection {
    let mut sel = Selection::new();
    sel.set_text(text);
    sel
}

fn draft(c: &mut Clipboard, text: &str) -> Draft {
    selected(c).rewritten(Rewrite {
        selection: plain(text),
        notify: Some("told".to_string()),
    })
}

#[test]
fn the_first_seat_and_every_manager_are_bound() {
    let mut c = Clipboard::new();
    assert_eq!(c.connect(), Err(ConnectError::NoManager));
    assert_eq!(c.on_global("wl_output"), None);
    assert_eq!(
        c.on_global("ext_data_control_manager_v1"),
        Some(Global::Manager)
    );
    assert_eq!(c.connect(), Err(ConnectError::NoSeat));
    assert_eq!(c.on_global("wl_seat"), Some(Global::Seat));
    assert_eq!(c.on_global("wl_seat"), None);
    assert_eq!(c.connect(), Ok(()));
}

#[test]
fn what_is_missing_is_named() {
    assert_eq!(
        ConnectError::NoManager.message(),
        "compositor does not implement ext-data-control-v1; \
         sway 1.11+, or river/hyprland with the staging protocol"
    );
    assert_eq!(ConnectError::NoSeat.message(), "compositor announced no wl_seat");
    assert_eq!(DeviceGone.message(), "compositor took the data device away");
    assert_eq!(
        PublishError::Empty.message(),
        "refusing to publish an empty selection"
    );
    assert_eq!(PublishError::NoDevice.message(), "no data device");
}

#[test]
fn a_selection_is_taken_once_with_its_types() {
    let mut c = connected();
    assert!(matches!(c.take_selection(), Ok(Taken::Nothing)));
    offer(&mut c, 7, &["text/plain", HTML_MIME]);
    assert!(!c.has_work());
    assert!(c.on_selection(Some(7)).is_empty());
    assert!(c.has_work());
    let candidate = selected(&mut c);
    assert_eq!(candidate.offer(), 7);
    assert_eq!(candidate.mimes(), ["text/plain", HTML_MIME]);
    assert!(!c.has_work());
    assert!(matches!(c.take_selection(), Ok(Taken::Nothing)));
}

#[test]
fn a_flavour_may_be_announced_after_the_selection() {
    let mut c = connected();
    offer(&mut c, 7, &["text/plain"]);
    c.on_selection(Some(7));
    c.on_offer_mime(7, "TEXT".to_string());
    c.on_offer_mime(8, "image/png".to_string());
    assert_eq!(selected(&mut c).mimes(), ["text/plain", "TEXT"]);
}

#[test]
fn an_empty_clipboard_leaves_nothing_to_do() {
    let mut c = connected();
    c.on_selection(None);
    assert!(c.has_work());
    assert!(matches!(c.take_selection(), Ok(Taken::Nothing)));
    assert!(!c.has_work());
}

#[test]
fn each_offer_is_destroyed_once() {
    let mut c = connected();
    offer(&mut c, 1, &[]);
    offer(&mut c, 2, &[]);
    offer(&mut c, 3, &[]);
    let mut destroyed = c.on_selection(Some(2));
    destroyed.sort();
    assert_eq!(destroyed, vec![1, 3]);
    offer(&mut c, 4, &[]);
    assert_eq!(c.on_primary_selection(Some(4)), Some(4));
    assert_eq!(c.on_primary_selection(None), None);
    offer(&mut c, 5, &[]);
    assert_eq!(c.on_selection(Some(5)), vec![2]);
    assert_eq!(c.on_selection(None), vec![5]);
    assert!(c.on_selection(None).is_empty());
    assert_eq!(c.generation(), 4);
}

#[test]
fn our_own_selection_is_not_read() {
    let mut c = connected();
    offer(&mut c, 1, &["text/plain"]);
    c.on_selection(Some(1));
    let drafted = draft(&mut c, "new");
    let publication = c.confirm(drafted).expect("nothing has changed");
    let mimes: Vec<String> = c
        .publish(publication.selection())
        .expect("there is a device")
        .into_iter()
        .map(str::to_owned)
        .collect();
    assert_eq!(mimes.last().map(String::as_str), Some(MARKER_MIME));
    c.on_published(publication, 50);

    c.on_data_offer(2);
    for mime in &mimes {
        c.on_offer_mime(2, mime.clone());
    }
    c.on_selection(Some(2));
    assert!(matches!(c.take_selection(), Ok(Taken::Own)));
}

#[test]
fn a_published_rewrite_is_served_until_it_is_cancelled() {
    let mut c = connected();
    offer(&mut c, 1, &["text/plain"]);
    c.on_selection(Some(1));
    let drafted = draft(&mut c, "new");
    assert_eq!(drafted.selection().text(), Some("new"));
    let publication = c.confirm(drafted).unwrap();
    assert_eq!(c.on_send("text/plain"), b"");
    assert_eq!(c.on_published(publication, 50).as_deref(), Some("told"));
    assert_eq!(c.on_send("text/plain"), b"new");
    assert_eq!(c.on_send(MARKER_MIME), b"");
    assert_eq!(c.on_send("image/png"), b"");
    c.on_cancelled(49);
    assert_eq!(c.on_send("TEXT"), b"new");
    c.on_cancelled(50);
    assert_eq!(c.on_send("TEXT"), b"");
}

#[test]
fn a_stale_rewrite_is_dropped() {
    let mut c = connected();
    offer(&mut c, 1, &["text/plain"]);
    c.on_selection(Some(1));
    let stale = draft(&mut c, "old");
    offer(&mut c, 2, &["text/plain"]);
    c.on_selection(Some(2));
    assert!(c.confirm(stale).is_none());
    assert!(c.has_work(), "the newer selection is next");
    let fresh = draft(&mut c, "new");
    assert!(c.confirm(fresh).is_some());
}

#[test]
fn nothing_is_published_without_a_device_or_contents() {
    let c = Clipboard::new();
    assert_eq!(c.publish(&Selection::new()), Err(PublishError::Empty));
    assert_eq!(c.publish(&plain("x")), Err(PublishError::NoDevice));
    assert_eq!(connected().publish(&Selection::new()), Err(PublishError::Empty));
    assert_eq!(connected().publish(&plain("x")).map(|m| m.len()), Ok(5));
}

#[test]
fn a_lost_device_ends_the_matter() {
    let mut c = connected();
    offer(&mut c, 1, &["text/plain"]);
    c.on_selection(Some(1));
    c.on_finished();
    assert!(matches!(c.take_selection(), Err(DeviceGone)));
    assert!(matches!(c.begin(&Plain), Err(DeviceGone)));
}

#[test]
fn secret_offers_are_told_before_reading() {
    let mut told = Told {
        answer: Some("re:"),
        secret: "x-secret",
    };
    let mut c = connected();
    offer(&mut c, 1, &["text/plain", "x-secret"]);
    c.on_selection(Some(1));
    assert!(matches!(c.begin(&told), Ok(Begin::Secret)));
    assert!(matches!(c.begin(&told), Ok(Begin::Nothing)));

    offer(&mut c, 2, &["text/plain"]);
    c.on_selection(Some(2));
    let Ok(Begin::Read(candidate)) = c.begin(&told) else {
        panic!("an offer was expected");
    };
    let drafted = candidate.rewrite(&mut told, &plain("x")).expect("an answer");
    assert_eq!(drafted.selection().text(), Some("re:x"));

    offer(&mut c, 3, &["text/plain", MARKER_MIME, "x-secret"]);
    c.on_selection(Some(3));
    assert!(matches!(c.begin(&told), Ok(Begin::Own)));

    offer(&mut c, 4, &["text/plain"]);
    c.on_selection(Some(4));
    told.answer = None;
    let Ok(Begin::Read(candidate)) = c.begin(&told) else {
        panic!("an offer was expected");
    };
    assert!(candidate.rewrite(&mut told, &plain("x")).is_none());
}

#[test]
fn a_rewriter_need_not_notify_nor_know_secrets() {
    assert!(Plain.notify("x").is_none());
    assert!(!Plain.is_secret(&["x-kde-passwordManagerHint".to_string()]));
}

#[test]
fn contents_are_logged_on_request_only() {
    let mut c = Clipboard::new();
    assert!(!c.logs_contents());
    c.log_contents(true);
    assert!(c.logs_contents());
    c.log_contents(false);
    assert!(!c.logs_contents());
}
