//! Taking turns between the compositor's events and everything else.

use vstd::prelude::*;

verus! {

/// What to do next about the compositor's events.
#[derive(Clone, Copy, PartialEq, Eq, Structural, Debug)]
pub enum Step {
    /// Dispatch events that are already queued.
    Dispatch,
    /// Get ready to read from the socket, which is refused while events are
    /// queued.
    PrepareRead,
    /// Wait for the socket.
    Poll,
    /// Read from the socket and dispatch what came.
    Read,
    /// Dispatch the events that turned up meanwhile.
    DispatchQueued,
    /// Give up the intent to read.
    Release,
    Done,
}

/// How a step came out.
#[derive(Clone, Copy, PartialEq, Eq, Structural, Debug)]
pub enum Outcome {
    /// So many events were dispatched.
    Dispatched(usize),
    /// Whether reading may go ahead.
    Prepared(bool),
    /// Whether the socket can be read.
    Polled(bool),
    Finished,
}

/// The step after a step and how it came out.
pub open spec fn following(step: Step, outcome: Outcome) -> Step {
    match (step, outcome) {
        (Step::Dispatch, Outcome::Dispatched(n)) => if n == 0 {
            Step::PrepareRead
        } else {
            Step::Done
        },
        (Step::PrepareRead, Outcome::Prepared(yes)) => if yes {
            Step::Poll
        } else {
            Step::DispatchQueued
        },
        (Step::Poll, Outcome::Polled(ready)) => if ready {
            Step::Read
        } else {
            Step::Release
        },
        _ => Step::Done,
    }
}

/// Begin a turn. Handle a selection that is already in hand before sleeping
/// again; there may be no further socket event to wake us.
pub fn begin_turn(work_in_hand: bool) -> (r: Step)
    ensures
        r == if work_in_hand {
            Step::Done
        } else {
            Step::Dispatch
        },
{
    if work_in_hand {
        Step::Done
    } else {
        Step::Dispatch
    }
}

/// Begin to drain the events that have come, without waiting for more.
pub fn begin_drain() -> (r: Step)
    ensures
        r == Step::Dispatch,
{
    Step::Dispatch
}

impl Step {
    pub fn next(self, outcome: Outcome) -> (r: Step)
        ensures
            r == following(self, outcome),
    {
        match (self, outcome) {
            (Step::Dispatch, Outcome::Dispatched(n)) => {
                if n == 0 {
                    Step::PrepareRead
                } else {
                    Step::Done
                }
            },
            (Step::PrepareRead, Outcome::Prepared(yes)) => {
                if yes {
                    Step::Poll
                } else {
                    Step::DispatchQueued
                }
            },
            (Step::Poll, Outcome::Polled(ready)) => {
                if ready {
                    Step::Read
                } else {
                    Step::Release
                }
            },
            _ => Step::Done,
        }
    }
}

/// Where a number of steps with these outcomes leads.
pub open spec fn after(step: Step, outcomes: Seq<Outcome>) -> Step
    decreases outcomes.len(),
{
    if outcomes.len() == 0 {
        step
    } else {
        following(after(step, outcomes.drop_last()), outcomes.last())
    }
}

/// The socket is waited for only after a dispatch has found no event and
/// reading was prepared: never with events queued.
pub proof fn law_no_sleep_with_events_queued(outcomes: Seq<Outcome>)
    requires
        after(Step::Dispatch, outcomes) == Step::Poll,
    ensures
        outcomes == seq![Outcome::Dispatched(0), Outcome::Prepared(true)],
{
    let n = outcomes.len();
    let one = outcomes.drop_last();
    assert(n > 0);
    assert(after(Step::Dispatch, one) == Step::PrepareRead);
    assert(one.len() > 0);
    let none = one.drop_last();
    assert(after(Step::Dispatch, none) == Step::Dispatch);
    lemma_dispatch_comes_first(none);
    assert(outcomes =~= seq![Outcome::Dispatched(0), Outcome::Prepared(true)]);
}

proof fn lemma_dispatch_comes_first(outcomes: Seq<Outcome>)
    requires
        after(Step::Dispatch, outcomes) == Step::Dispatch,
    ensures
        outcomes.len() == 0,
{
}

/// Every turn ends, after four steps at most.
pub proof fn law_a_turn_ends(step: Step, outcomes: Seq<Outcome>)
    requires
        outcomes.len() >= 4,
    ensures
        after(step, outcomes) == Step::Done,
{
    lemma_steps_left(step, outcomes);
}

/// Events that were found end a turn, a refused read dispatches what turned up, and a
/// prepared read is either read from or released, as the poll says: none is left
/// prepared.
pub proof fn law_a_prepared_read_is_read_or_released(n: usize, ready: bool)
    ensures
        n > 0 ==> after(Step::Dispatch, seq![Outcome::Dispatched(n)]) == Step::Done,
        after(Step::Dispatch, seq![Outcome::Dispatched(0), Outcome::Prepared(false)])
            == Step::DispatchQueued,
        after(
            Step::Dispatch,
            seq![Outcome::Dispatched(0), Outcome::Prepared(true), Outcome::Polled(ready)],
        ) == if ready {
            Step::Read
        } else {
            Step::Release
        },
{
    let none = Seq::<Outcome>::empty();
    let some = seq![Outcome::Dispatched(n)];
    assert(some.drop_last() =~= none);
    assert(after(Step::Dispatch, none) == Step::Dispatch);
    let one = seq![Outcome::Dispatched(0)];
    assert(one.drop_last() =~= none);
    let refused = one.push(Outcome::Prepared(false));
    assert(refused.drop_last() =~= one);
    assert(refused =~= seq![Outcome::Dispatched(0), Outcome::Prepared(false)]);
    let two = one.push(Outcome::Prepared(true));
    assert(two.drop_last() =~= one);
    let three = two.push(Outcome::Polled(ready));
    assert(three.drop_last() =~= two);
    assert(three =~= seq![
        Outcome::Dispatched(0),
        Outcome::Prepared(true),
        Outcome::Polled(ready),
    ]);
    assert(after(Step::Dispatch, one) == Step::PrepareRead);
    assert(after(Step::Dispatch, two) == Step::Poll);
}

/// How many steps there are at most from a step to the end.
pub open spec fn steps_left(step: Step) -> nat {
    match step {
        Step::Dispatch => 4,
        Step::PrepareRead => 3,
        Step::Poll => 2,
        Step::Read => 1,
        Step::DispatchQueued => 1,
        Step::Release => 1,
        Step::Done => 0,
    }
}

proof fn lemma_steps_left(step: Step, outcomes: Seq<Outcome>)
    ensures
        steps_left(after(step, outcomes)) == 0 || steps_left(after(step, outcomes))
            + outcomes.len() <= 4,
    decreases outcomes.len(),
{
    if outcomes.len() > 0 {
        lemma_steps_left(step, outcomes.drop_last());
    }
}

// --------------------------------------------------------------- readiness

/// What a poll says of the socket, which is polled first.
pub fn socket_ready(polled: &[bool]) -> (r: bool)
    ensures
        r == (polled@.len() > 0 && polled@[0]),
{
    polled.len() > 0 && polled[0]
}

/// What a poll says of everything else that was polled. Without a poll nothing
/// is ready.
pub fn others_ready(polled: Option<&[bool]>, others: usize) -> (r: Vec<bool>)
    ensures
        r@ == match polled {
            Some(polled) => if polled@.len() == 0 {
                Seq::empty()
            } else {
                polled@.skip(1)
            },
            None => Seq::new(others as nat, |i: int| false),
        },
{
    let mut out: Vec<bool> = Vec::new();
    match polled {
        Some(polled) => {
            let mut i: usize = 1;
            while i < polled.len()
                invariant
                    1 <= i,
                    i <= polled.len() || i == 1,
                    polled@.len() > 0 ==> out@ == polled@.subrange(1, i as int),
                    polled@.len() == 0 ==> out@.len() == 0,
                decreases polled.len() - i,
            {
                out.push(polled[i]);
                assert(polled@.subrange(1, i + 1) =~= polled@.subrange(1, i as int).push(
                    polled@[i as int],
                ));
                i += 1;
            }
            assert(polled@.len() > 0 ==> polled@.subrange(1, i as int) =~= polled@.skip(1));
        },
        None => {
            let mut i: usize = 0;
            while i < others
                invariant
                    i <= others,
                    out@ == Seq::new(i as nat, |j: int| false),
                decreases others - i,
            {
                out.push(false);
                assert(out@ =~= Seq::new((i + 1) as nat, |j: int| false));
                i += 1;
            }
        },
    }
    out
}

/// What a poll says is told apart by place: the socket is first, and the others follow
/// in order; without a poll none of them is ready.
pub proof fn law_readiness_goes_by_place(
    polled: &[bool],
    others: usize,
    socket: bool,
    rest: Vec<bool>,
    none: Vec<bool>,
)
    requires
        polled@.len() == others + 1,
        call_ensures(socket_ready, (polled,), socket),
        call_ensures(others_ready, (Some(polled), others), rest),
        call_ensures(others_ready, (None, others), none),
    ensures
        socket == polled@[0],
        rest@.len() == others,
        none@.len() == others,
        forall|i: int| 0 <= i < others ==> #[trigger] rest@[i] == polled@[i + 1],
        forall|i: int| 0 <= i < others ==> !(#[trigger] none@[i]),
{
}

/// Work in hand is done before anything is waited for.
pub proof fn law_work_in_hand_comes_first(work_in_hand: bool, r: Step)
    requires
        call_ensures(begin_turn, (work_in_hand,), r),
    ensures
        work_in_hand <==> r == Step::Done,
        !work_in_hand <==> r == Step::Dispatch,
{
}

} // verus!
