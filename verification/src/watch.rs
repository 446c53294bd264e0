//! Which config directories to watch, and when a change has settled.

use vstd::prelude::*;

use crate::paths::{byte_strings, config_dirs, directories};
use crate::text::{decimal, push_decimal, push_text};

verus! {

broadcast use vstd::string::group_string_axioms;

/// Debounce multiple events from a single save, in nanoseconds.
pub const SETTLE: u64 = 150_000_000;

/// What came of asking for a watch on one directory.
#[derive(Clone, Copy, PartialEq, Eq, Structural, Debug)]
pub enum DirWatch {
    /// Not asked for: the filesystem is read-only, so nothing there changes.
    ReadOnly,
    Watched,
    Failed,
}

/// One event from the watches.
#[derive(Clone, Copy, PartialEq, Eq, Structural, Debug)]
pub struct WatchEvent {
    /// The watch itself went away, with its directory.
    pub ignored: bool,
    /// When the event was read.
    pub at: u64,
}

/// None of the candidate directories can be watched.
#[derive(Clone, Copy, PartialEq, Eq, Structural, Debug)]
pub struct NoWatchableDirectory {
    pub candidates: usize,
}

/// Watch both the given and resolved config directories: editors can replace
/// the target file, while config managers can replace the symlink.
/// These candidates are used at startup; reloads do not update the watches.
pub fn candidates(given: &[u8], resolved: &[u8]) -> (r: Vec<Vec<u8>>)
    ensures
        byte_strings(r@) == config_dirs(given@, resolved@),
{
    directories(given, resolved)
}

/// Whether to skip a directory, given whether its filesystem is read-only.
/// Not being able to ask is not a reason to skip it.
pub fn read_only(answer: Option<bool>) -> (r: bool)
    ensures
        r == (answer == Some(true)),
{
    match answer {
        Some(flag) => flag,
        None => false,
    }
}

/// How long ago something happened; a clock that went back counts as no time.
pub open spec fn elapsed(since: u64, now: u64) -> nat {
    if now >= since {
        (now - since) as nat
    } else {
        0
    }
}

/// Whether a change is old enough to act on.
pub open spec fn settled(dirty_since: Option<u64>, now: u64) -> bool {
    dirty_since matches Some(t) && elapsed(t, now) >= SETTLE
}

/// How long a change still has to rest.
pub open spec fn time_left(dirty_since: Option<u64>, now: u64) -> Option<nat> {
    match dirty_since {
        Some(t) => Some(
            if elapsed(t, now) >= SETTLE {
                0
            } else {
                (SETTLE - elapsed(t, now)) as nat
            },
        ),
        None => None,
    }
}

/// The time of the last change among the events, or what was known before.
pub open spec fn last_change(was: Option<u64>, events: Seq<WatchEvent>) -> Option<u64>
    decreases events.len(),
{
    if events.len() == 0 {
        was
    } else if events.last().ignored {
        last_change(was, events.drop_last())
    } else {
        Some(events.last().at)
    }
}

/// How many watches went away.
pub open spec fn lost_watches(events: Seq<WatchEvent>) -> nat {
    events.filter(|e: WatchEvent| e.ignored).len()
}

impl NoWatchableDirectory {
    pub fn message(&self) -> (r: String)
        ensures
            r@ == "no watchable directory among "@ + decimal(self.candidates as nat)
                + " candidate(s)"@,
    {
        let mut out = "no watchable directory among ".to_string();
        push_decimal(&mut out, self.candidates);
        push_text(&mut out, " candidate(s)");
        out
    }
}

/// Directory watches survive atomic file replacements and detect changes to
/// neighbouring Lua modules. A change is acted on once no other has followed
/// it for `SETTLE`.
pub struct Watcher {
    dirty_since: Option<u64>,
}

impl Watcher {
    /// The last observed change; cleared when a settled change is consumed.
    pub closed spec fn dirty_since(&self) -> Option<u64> {
        self.dirty_since
    }

    /// Start from what came of each candidate directory. Fail if none is watched.
    pub fn new(dirs: &[DirWatch]) -> (r: Result<Self, NoWatchableDirectory>)
        ensures
            match r {
                Ok(w) => dirs@.contains(DirWatch::Watched) && w.dirty_since() is None,
                Err(e) => !dirs@.contains(DirWatch::Watched) && e.candidates == dirs@.len(),
            },
    {
        let mut i: usize = 0;
        while i < dirs.len()
            invariant
                i <= dirs.len(),
                forall|j: int| 0 <= j < i ==> dirs@[j] != DirWatch::Watched,
            decreases dirs.len() - i,
        {
            if dirs[i] == DirWatch::Watched {
                return Ok(Watcher { dirty_since: None });
            }
            i += 1;
        }
        Err(NoWatchableDirectory { candidates: dirs.len() })
    }

    /// Take in the events that were read, and count the watches that went away.
    pub fn absorb(&mut self, events: &[WatchEvent]) -> (lost: usize)
        ensures
            final(self).dirty_since() == last_change(old(self).dirty_since(), events@),
            lost == lost_watches(events@),
    {
        let ghost gone = |e: WatchEvent| e.ignored;
        let ghost was = self.dirty_since;
        let mut lost: usize = 0;
        let mut i: usize = 0;
        assert(events@.take(0).filter(gone).len() == 0) by {
            reveal(Seq::filter);
        }
        while i < events.len()
            invariant
                i <= events.len(),
                lost <= i,
                gone == (|e: WatchEvent| e.ignored),
                self.dirty_since == last_change(was, events@.take(i as int)),
                lost == events@.take(i as int).filter(gone).len(),
            decreases events.len() - i,
        {
            assert(events@.take(i + 1).drop_last() =~= events@.take(i as int));
            assert(events@.take(i + 1).last() == events@[i as int]);
            proof {
                reveal(Seq::filter);
            }
            if events[i].ignored {
                // A deleted or replaced directory loses its watch.
                lost += 1;
            } else {
                self.dirty_since = Some(events[i].at);
            }
            i += 1;
        }
        assert(events@.take(events@.len() as int) =~= events@);
        lost
    }

    /// How long to block before the pending change is old enough to act on.
    /// None means nothing is pending, so block indefinitely.
    pub fn timeout(&self, now: u64) -> (r: Option<u64>)
        ensures
            match r {
                Some(left) => time_left(self.dirty_since(), now) == Some(left as nat),
                None => time_left(self.dirty_since(), now) is None,
            },
    {
        match self.dirty_since {
            Some(t) => Some(SETTLE.saturating_sub(now.saturating_sub(t))),
            None => None,
        }
    }

    /// True once, when a change has settled.
    pub fn take_settled(&mut self, now: u64) -> (r: bool)
        ensures
            r == settled(old(self).dirty_since(), now),
            final(self).dirty_since() == (if r {
                None
            } else {
                old(self).dirty_since()
            }),
    {
        match self.dirty_since {
            Some(t) => if now.saturating_sub(t) >= SETTLE {
                self.dirty_since = None;
                true
            } else {
                false
            },
            None => false,
        }
    }
}

/// On a clock that does not go back, blocking for as long as `timeout` says,
/// with no event in between, leaves the change settled; and a change is settled
/// when nothing is left to wait for.
pub proof fn law_waiting_out_the_timeout_settles(dirty_since: Option<u64>, now: u64, later: u64)
    requires
        dirty_since matches Some(t) && t <= now,
        time_left(dirty_since, now) matches Some(left) && later >= now + left,
    ensures
        settled(dirty_since, later),
        time_left(dirty_since, now) == Some(0nat) <==> settled(dirty_since, now),
{
}

/// A settled change is reported once: nothing is settled, and there is nothing
/// to wait for, after it was consumed, until another change comes.
pub proof fn law_a_settled_change_is_reported_once(events: Seq<WatchEvent>, now: u64)
    requires
        forall|i: int| 0 <= i < events.len() ==> (#[trigger] events[i]).ignored,
    ensures
        !settled(last_change(None, events), now),
        time_left(last_change(None, events), now) is None,
    decreases events.len(),
{
    if events.len() > 0 {
        assert(events[events.len() - 1].ignored);
        law_a_settled_change_is_reported_once(events.drop_last(), now);
    }
}

/// Each further change starts the rest anew: nothing settles before `SETTLE`
/// has passed since the last of them.
pub proof fn law_a_further_change_postpones(
    dirty_since: Option<u64>,
    events: Seq<WatchEvent>,
    now: u64,
)
    requires
        events.len() > 0,
        !events.last().ignored,
        now < events.last().at + SETTLE,
    ensures
        !settled(last_change(dirty_since, events), now),
{
}

/// A change is settled exactly when 150 ms have passed since it, and until then what
/// is left to wait is the rest of these.
pub proof fn law_a_change_rests_for_150_ms(t: u64, now: u64)
    ensures
        !settled(None, now),
        time_left(None, now) is None,
        settled(Some(t), now) <==> now >= t + 150_000_000,
        now >= t ==> time_left(Some(t), now) == Some(
            (if now < t + 150_000_000 {
                t + 150_000_000 - now
            } else {
                0
            }) as nat,
        ),
        now < t ==> time_left(Some(t), now) == Some(150_000_000nat),
{
}

/// Of several events the last that is a change counts, whatever went away after it;
/// without one it stays as it was.
pub proof fn law_the_last_change_counts(was: Option<u64>, events: Seq<WatchEvent>, i: int)
    requires
        -1 <= i < events.len(),
        forall|j: int| i < j < events.len() ==> (#[trigger] events[j]).ignored,
        i >= 0 ==> !events[i].ignored,
    ensures
        i >= 0 ==> last_change(was, events) == Some(events[i].at),
        i == -1 ==> last_change(was, events) == was,
    decreases events.len(),
{
    if events.len() > 0 && i < events.len() - 1 {
        assert(events[events.len() - 1].ignored);
        let less = events.drop_last();
        assert forall|j: int| i < j < less.len() implies (#[trigger] less[j]).ignored by {
            assert(less[j] == events[j]);
        }
        law_the_last_change_counts(was, less, i);
    }
}

/// Each watch that went away is counted, and nothing else is.
pub proof fn law_lost_watches_are_counted(events: Seq<WatchEvent>, event: WatchEvent)
    ensures
        lost_watches(Seq::empty()) == 0,
        lost_watches(events.push(event)) == lost_watches(events) + if event.ignored {
            1nat
        } else {
            0
        },
{
    reveal(Seq::filter);
    let all = events.push(event);
    assert(all.drop_last() =~= events);
    assert(all.last() == event);
}

/// There is something to watch exactly when a watch was set on any directory, whatever
/// came of the others; a new watcher knows of no change.
pub proof fn law_one_watched_directory_is_enough(
    dirs: &[DirWatch],
    r: Result<Watcher, NoWatchableDirectory>,
)
    requires
        call_ensures(Watcher::new, (dirs,), r),
    ensures
        r is Ok <==> exists|i: int| 0 <= i < dirs@.len() && #[trigger] dirs@[i] is Watched,
        r matches Ok(watcher) ==> watcher.dirty_since() is None,
        r matches Err(none) ==> none.candidates == dirs@.len(),
{
    if exists|i: int| 0 <= i < dirs@.len() && #[trigger] dirs@[i] is Watched {
        let i = choose|i: int| 0 <= i < dirs@.len() && #[trigger] dirs@[i] is Watched;
        assert(dirs@[i] == DirWatch::Watched);
        assert(dirs@.contains(DirWatch::Watched));
    }
    if dirs@.contains(DirWatch::Watched) {
        let i = choose|i: int| 0 <= i < dirs@.len() && dirs@[i] == DirWatch::Watched;
        assert(dirs@[i] is Watched);
    }
}

/// A settled change is handed out once: right after it was, none is settled at any
/// time, and one that is not settled yet is kept.
pub proof fn law_a_settled_change_is_handed_out_once(
    first: &mut Watcher,
    second: &mut Watcher,
    now: u64,
    later: u64,
    a: bool,
    b: bool,
)
    requires
        call_ensures(Watcher::take_settled, (first, now), a),
        call_ensures(Watcher::take_settled, (second, later), b),
        mut_ref_current(second) == mut_ref_future(first),
    ensures
        a ==> !b,
        a <==> (mut_ref_current(first).dirty_since() matches Some(t) && now >= t + 150_000_000),
        !a ==> mut_ref_future(first).dirty_since() == mut_ref_current(first).dirty_since(),
{
    if let Some(t) = mut_ref_current(first).dirty_since() {
        law_a_change_rests_for_150_ms(t, now);
    }
}

/// A directory is left out only when it is known that nothing can change there.
pub proof fn law_only_what_is_known_to_be_read_only_is_left_out(answer: Option<bool>, r: bool)
    requires
        call_ensures(read_only, (answer,), r),
    ensures
        r <==> answer is Some && answer->0,
{
}

} // verus!
