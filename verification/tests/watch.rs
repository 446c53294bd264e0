use clipmunge::watch::{candidates, read_only, DirWatch, WatchEvent, Watcher, SETTLE};


#[test]
fn a_bare_filename_watches_the_working_directory() {
    // `--config config.lua` has a parent of "", not None, and inotify
    // does not watch "".
    assert_eq!(
        candidates(b"config.lua", b"config.lua"),
        vec![b".".to_vec()]
    );
}

#[test]
fn the_same_directory_twice_is_watched_once() {
    assert_eq!(
        candidates(
            b"/home/u/.config/clipmunge/config.lua",
            b"/home/u/.config/clipmunge/config.lua",
        ),
        vec![b"/home/u/.config/clipmunge".to_vec()]
    );
}

#[test]
fn given_and_resolved_directories_are_both_watched() {
    // Cover changes beside both the symlink and its target.
    assert_eq!(
        candidates(
            b"/home/u/.config/clipmunge/config.lua",
            b"/home/u/dotfiles/clipmunge/config.lua",
        ),
        vec![
            b"/home/u/.config/clipmunge".to_vec(),
            b"/home/u/dotfiles/clipmunge".to_vec(),
        ]
    );
}

#[test]
fn a_change_is_reported_once_it_has_settled() {
    let mut w = Watcher::new(&[DirWatch::Failed, DirWatch::Watched]).unwrap();
    assert_eq!(w.timeout(5), None);
    assert!(!w.take_settled(u64::MAX));
    let change = |at| WatchEvent { ignored: false, at };
    assert_eq!(w.absorb(&[change(1000), change(2000)]), 0);
    assert_eq!(w.timeout(2000), Some(SETTLE));
    assert_eq!(w.timeout(2000 + SETTLE - 1), Some(1));
    assert!(!w.take_settled(2000 + SETTLE - 1));
    // A further change postpones it.
    w.absorb(&[change(3000)]);
    assert!(!w.take_settled(2000 + SETTLE));
    assert_eq!(w.timeout(3000 + SETTLE), Some(0));
    assert!(w.take_settled(3000 + SETTLE));
    assert!(!w.take_settled(3000 + SETTLE));
    assert_eq!(w.timeout(3000 + SETTLE), None);
}

#[test]
fn a_lost_watch_is_no_change() {
    let mut w = Watcher::new(&[DirWatch::Watched]).unwrap();
    let lost = WatchEvent { ignored: true, at: 7 };
    assert_eq!(w.absorb(&[lost, lost]), 2);
    assert_eq!(w.timeout(7), None);
}

#[test]
fn something_has_to_be_watched() {
    let Err(e) = Watcher::new(&[DirWatch::ReadOnly, DirWatch::Failed]) else {
        panic!("nothing is watched");
    };
    assert_eq!(e.message(), "no watchable directory among 2 candidate(s)");
    assert!(Watcher::new(&[]).is_err());
}

#[test]
fn only_a_known_read_only_filesystem_is_skipped() {
    assert!(read_only(Some(true)));
    assert!(!read_only(Some(false)));
    assert!(!read_only(None));
}
