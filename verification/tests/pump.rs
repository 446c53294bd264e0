use clipmunge::pump::{begin_drain, begin_turn, others_ready, socket_ready, Outcome, Step};

#[test]
fn work_in_hand_comes_before_anything_else() {
    assert_eq!(begin_turn(true), Step::Done);
    assert_eq!(begin_turn(false), Step::Dispatch);
    assert_eq!(begin_drain(), Step::Dispatch);
}

#[test]
fn queued_events_keep_the_socket_from_being_polled() {
    assert_eq!(Step::Dispatch.next(Outcome::Dispatched(3)), Step::Done);
    assert_eq!(Step::Dispatch.next(Outcome::Dispatched(0)), Step::PrepareRead);
    assert_eq!(
        Step::PrepareRead.next(Outcome::Prepared(false)),
        Step::DispatchQueued
    );
    assert_eq!(Step::DispatchQueued.next(Outcome::Finished), Step::Done);
}

#[test]
fn the_socket_is_read_when_it_is_ready() {
    assert_eq!(Step::PrepareRead.next(Outcome::Prepared(true)), Step::Poll);
    assert_eq!(Step::Poll.next(Outcome::Polled(true)), Step::Read);
    assert_eq!(Step::Poll.next(Outcome::Polled(false)), Step::Release);
    assert_eq!(Step::Read.next(Outcome::Finished), Step::Done);
    assert_eq!(Step::Release.next(Outcome::Finished), Step::Done);
}

#[test]
fn readiness_is_told_apart() {
    assert!(socket_ready(&[true, false]));
    assert!(!socket_ready(&[false, true]));
    assert!(!socket_ready(&[]));
    assert_eq!(others_ready(Some(&[true, false, true]), 2), vec![false, true]);
    assert_eq!(others_ready(Some(&[true]), 0), Vec::<bool>::new());
    assert_eq!(others_ready(Some(&[]), 0), Vec::<bool>::new());
    assert_eq!(others_ready(None, 2), vec![false, false]);
}
