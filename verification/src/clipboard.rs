//! Following the clipboard over ext-data-control-v1: what to read, what to
//! publish and what to answer. Each advertised MIME type can serve its own
//! payload.

use std::collections::HashMap;

use vstd::prelude::*;
use vstd::std_specs::hash::*;

use crate::selection::{
    law_found_is_what_is_advertised, law_stored_is_found, law_storing_keeps_the_order, lookup,
    mimes_of, stored, unique, Flavours, Selection, MARKER_MIME,
};
use crate::text::{copied, has_text, same_text, texts};

verus! {

broadcast use {vstd::string::group_string_axioms, group_hash_axioms};

/// Replacement selection and optional notification.
pub struct Rewrite {
    pub selection: Selection,
    pub notify: Option<String>,
}

/// What a replacement puts on the clipboard, and what it notifies of.
pub type Replacement = (Flavours, Option<Seq<char>>);

impl View for Rewrite {
    type V = Replacement;

    open spec fn view(&self) -> Replacement {
        (
            self.selection@,
            match self.notify {
                Some(text) => Some(text@),
                None => None,
            },
        )
    }
}

/// Return `None` to leave the clipboard unchanged.
pub trait Rewriter {
    fn rewrite(&mut self, incoming: &Selection) -> (r: Option<Rewrite>);

    /// The command that notifies of a rewrite, run only after publishing;
    /// stale rewrites may be discarded.
    fn notify(&self, text: &str) -> (r: Option<Vec<String>>)
        default_ensures
            r is None,
    {
        None
    }

    /// Check the announced MIME list before reading or logging any payload.
    fn is_secret(&self, mimes: &[String]) -> (r: bool)
        default_ensures
            !r,
    {
        false
    }
}

// ------------------------------------------------------------------- state

/// What is known of the compositor, its offers and our own selection.
#[verifier::ext_equal]
pub struct Board {
    pub manager: bool,
    pub seat: bool,
    pub device: bool,
    /// Unclaimed offers, by object ID, with their announced MIME types.
    pub pending: Map<u32, Seq<Seq<char>>>,
    /// The offer the compositor last told us is the selection.
    pub current: Option<(u32, Seq<Seq<char>>)>,
    /// Our own selection, and the payloads it serves.
    pub source: Option<u32>,
    pub payload: Flavours,
    /// The number of selection events so far.
    pub generation: nat,
    /// A selection event has come that nothing was made of yet.
    pub got_selection: bool,
    /// The data device is gone.
    pub finished: bool,
    /// Include clipboard contents in diagnostics. Enabled only by --debug.
    pub log_contents: bool,
}

/// The offers that are alive: pending ones and the current one.
pub open spec fn known(b: Board) -> Set<u32> {
    match b.current {
        Some((id, _)) => b.pending.dom().insert(id),
        None => b.pending.dom(),
    }
}

/// The current offer is not a pending one as well.
pub open spec fn claimed_once(b: Board) -> bool {
    b.current matches Some((id, _)) ==> !b.pending.contains_key(id)
}

/// The announced MIME types of each pending offer.
pub open spec fn announced(pending: Map<u32, Vec<String>>) -> Map<u32, Seq<Seq<char>>> {
    pending.map_values(|mimes: Vec<String>| texts(mimes@))
}

/// What a selection event makes of a state.
pub open spec fn selected(b: Board, id: Option<u32>) -> Board {
    Board {
        pending: Map::empty(),
        current: match id {
            Some(id) => Some(
                (
                    id,
                    if b.pending.contains_key(id) {
                        b.pending[id]
                    } else {
                        Seq::empty()
                    },
                ),
            ),
            None => None,
        },
        generation: b.generation + 1,
        got_selection: true,
        ..b
    }
}

/// What a selection event lists for destruction: the previous selection, and
/// then every pending offer but the new selection, each once.
pub open spec fn dropped(b: Board, id: Option<u32>, destroyed: Seq<u32>) -> bool {
    let first = match b.current {
        Some((old, _)) => seq![old],
        None => Seq::empty(),
    };
    let rest = destroyed.skip(first.len() as int);
    &&& destroyed == first + rest
    &&& rest.no_duplicates()
    &&& rest.to_set() == match id {
        Some(id) => b.pending.dom().remove(id),
        None => b.pending.dom(),
    }
}

/// A global of the compositor that we bind.
#[derive(Clone, Copy, PartialEq, Eq, Structural, Debug)]
pub enum Global {
    Manager,
    Seat,
}

/// Why there is no clipboard to follow.
#[derive(Clone, Copy, PartialEq, Eq, Structural, Debug)]
pub enum ConnectError {
    NoManager,
    NoSeat,
}

impl ConnectError {
    pub open spec fn text(&self) -> Seq<char> {
        match self {
            ConnectError::NoManager =>
                "compositor does not implement ext-data-control-v1; sway 1.11+, or river/hyprland with the staging protocol"@,
            ConnectError::NoSeat => "compositor announced no wl_seat"@,
        }
    }

    pub fn message(&self) -> (r: String)
        ensures
            r@ == self.text(),
    {
        match self {
            ConnectError::NoManager => {
                "compositor does not implement ext-data-control-v1; sway 1.11+, or river/hyprland with the staging protocol".to_string()
            },
            ConnectError::NoSeat => "compositor announced no wl_seat".to_string(),
        }
    }
}

/// The compositor took the data device away.
#[derive(Clone, Copy, PartialEq, Eq, Structural, Debug)]
pub struct DeviceGone;

impl DeviceGone {
    pub fn message(&self) -> (r: String)
        ensures
            r@ == "compositor took the data device away"@,
    {
        "compositor took the data device away".to_string()
    }
}

/// The clipboard as the compositor's events tell it.
pub struct Clipboard {
    manager: bool,
    seat: bool,
    device: bool,
    pending: HashMap<u32, Vec<String>>,
    current: Option<(u32, Vec<String>)>,
    /// Keep the source and its payloads alive for paste requests.
    source: Option<u32>,
    payload: Selection,
    /// Incremented on each selection event to detect stale rewrites.
    generation: u64,
    got_selection: bool,
    finished: bool,
    log_contents: bool,
}

impl View for Clipboard {
    type V = Board;

    closed spec fn view(&self) -> Board {
        Board {
            manager: self.manager,
            seat: self.seat,
            device: self.device,
            pending: announced(self.pending@),
            current: match self.current {
                Some((id, mimes)) => Some((id, texts(mimes@))),
                None => None,
            },
            source: self.source,
            payload: self.payload@,
            generation: self.generation as nat,
            got_selection: self.got_selection,
            finished: self.finished,
            log_contents: self.log_contents,
        }
    }
}

impl Clipboard {
    pub fn new() -> (r: Self)
        ensures
            r@ == (Board {
                manager: false,
                seat: false,
                device: false,
                pending: Map::empty(),
                current: None,
                source: None,
                payload: Flavours::empty(),
                generation: 0,
                got_selection: false,
                finished: false,
                log_contents: false,
            }),
    {
        let r = Clipboard {
            manager: false,
            seat: false,
            device: false,
            pending: HashMap::new(),
            current: None,
            source: None,
            payload: Selection::new(),
            generation: 0,
            got_selection: false,
            finished: false,
            log_contents: false,
        };
        assert(announced(r.pending@) =~= Map::empty());
        r
    }

    /// A global was announced: whether to bind it. The first seat is ours.
    pub fn on_global(&mut self, interface: &str) -> (r: Option<Global>)
        ensures
            if interface@ == "ext_data_control_manager_v1"@ {
                r == Some(Global::Manager) && final(self)@ == (Board {
                    manager: true,
                    ..old(self)@
                })
            } else if interface@ == "wl_seat"@ && !old(self)@.seat {
                r == Some(Global::Seat) && final(self)@ == (Board { seat: true, ..old(self)@ })
            } else {
                r is None && final(self)@ == old(self)@
            },
    {
        if same_text(interface, "ext_data_control_manager_v1") {
            self.manager = true;
            Some(Global::Manager)
        } else if same_text(interface, "wl_seat") && !self.seat {
            self.seat = true;
            Some(Global::Seat)
        } else {
            None
        }
    }

    /// All globals were announced: whether there is a data device to ask for.
    pub fn connect(&mut self) -> (r: Result<(), ConnectError>)
        ensures
            match r {
                Ok(_) => old(self)@.manager && old(self)@.seat && final(self)@ == (Board {
                    device: true,
                    ..old(self)@
                }),
                Err(ConnectError::NoManager) => !old(self)@.manager && final(self)@ == old(self)@,
                Err(ConnectError::NoSeat) => old(self)@.manager && !old(self)@.seat && final(self)@
                    == old(self)@,
            },
    {
        if !self.manager {
            return Err(ConnectError::NoManager);
        }
        if !self.seat {
            return Err(ConnectError::NoSeat);
        }
        self.device = true;
        Ok(())
    }

    pub fn log_contents(&mut self, yes: bool)
        ensures
            final(self)@ == (Board { log_contents: yes, ..old(self)@ }),
    {
        self.log_contents = yes;
    }

    /// Whether diagnostics may include clipboard contents.
    pub fn logs_contents(&self) -> (r: bool)
        ensures
            r == self@.log_contents,
    {
        self.log_contents
    }

    /// An offer was introduced. It is announced before `selection`, and the
    /// flavours arrive on the offer itself afterwards.
    pub fn on_data_offer(&mut self, id: u32)
        ensures
            final(self)@ == (Board {
                pending: old(self)@.pending.insert(id, Seq::empty()),
                ..old(self)@
            }),
    {
        let ghost was = self.pending@;
        let none: Vec<String> = Vec::new();
        assert(texts(none@) =~= Seq::empty());
        self.pending.insert(id, none);
        assert(announced(self.pending@) =~= announced(was).insert(id, Seq::empty()));
    }

    /// An offer announced a flavour.
    pub fn on_offer_mime(&mut self, id: u32, mime: String)
        ensures
            final(self)@ == if old(self)@.pending.contains_key(id) {
                Board {
                    pending: old(self)@.pending.insert(id, old(self)@.pending[id].push(mime@)),
                    ..old(self)@
                }
            } else {
                match old(self)@.current {
                    Some((current, mimes)) if current == id => Board {
                        current: Some((id, mimes.push(mime@))),
                        ..old(self)@
                    },
                    _ => old(self)@,
                }
            },
    {
        let ghost was = self.pending@;
        match self.pending.remove(&id) {
            Some(mimes) => {
                let mut mimes = mimes;
                let ghost before = texts(mimes@);
                mimes.push(mime);
                assert(texts(mimes@) =~= before.push(mime@));
                self.pending.insert(id, mimes);
                assert(announced(self.pending@) =~= announced(was).insert(id, before.push(mime@)));
            },
            None => {
                assert(self.pending@ =~= was);
                let current = self.current.take();
                match current {
                    Some((current, mimes)) => {
                        let mut mimes = mimes;
                        let ghost before = texts(mimes@);
                        if current == id {
                            mimes.push(mime);
                            assert(texts(mimes@) =~= before.push(mime@));
                        }
                        self.current = Some((current, mimes));
                    },
                    None => {},
                }
            },
        }
    }

    /// The selection changed. The result lists the offers to destroy: the
    /// protocol requires it of the previous selection, and dropping a proxy
    /// does not do it. Anything left pending was announced and never claimed.
    pub fn on_selection(&mut self, id: Option<u32>) -> (destroyed: Vec<u32>)
        requires
            old(self)@.generation < u64::MAX,
        ensures
            final(self)@ == selected(old(self)@, id),
            dropped(old(self)@, id, destroyed@),
    {
        let ghost old_pending = self.pending@;
        self.generation = self.generation + 1;
        self.got_selection = true;
        let mut destroyed: Vec<u32> = Vec::new();
        if let Some((old, _)) = self.current.take() {
            destroyed.push(old);
        }
        let ghost first = destroyed@;
        assert(old(self)@.current matches Some((old, _)) ==> first =~= seq![old]);
        let mut unclaimed: HashMap<u32, Vec<String>> = HashMap::new();
        core::mem::swap(&mut self.pending, &mut unclaimed);
        assert(announced(self.pending@) =~= Map::empty());
        if let Some(id) = id {
            // Remove the same object from pending without destroying it twice.
            let mimes = match unclaimed.remove(&id) {
                Some(mimes) => mimes,
                None => Vec::new(),
            };
            assert(!old_pending.contains_key(id) ==> texts(mimes@) =~= Seq::empty());
            self.current = Some((id, mimes));
        }
        let ghost left = unclaimed@.dom();
        proof {
            match id {
                Some(id) => assert(left =~= old_pending.dom().remove(id)),
                None => assert(left =~= old_pending.dom()),
            }
        }
        let ghost mut rest: Seq<u32> = Seq::empty();
        assert(unclaimed@.dom().len() == 0 ==> rest.to_set() =~= left);
        for offer in it: unclaimed.keys()
            invariant
                it.seq().unref().to_set() == left,
                it.seq().no_duplicates(),
                rest == it.seq().unref().take(it.index()),
                rest.no_duplicates(),
                it.index() == it.seq().len() ==> rest.to_set() == left,
                destroyed@ == first + rest,
        {
            assert(it.seq().unref().take(it.index() + 1) =~= rest.push(*offer));
            assert forall|i: int| 0 <= i < rest.len() implies rest[i] != *offer by {
                assert(rest[i] == *it.seq()[i]);
                assert(it.seq()[i] != it.seq()[it.index()]);
            }
            assert(it.index() + 1 == it.seq().len() ==> rest.push(*offer) =~= it.seq().unref());
            proof {
                rest = rest.push(*offer);
            }
            destroyed.push(*offer);
        }
        assert(destroyed@.skip(first.len() as int) =~= rest);
        assert(old(self)@.pending.dom() =~= old_pending.dom());
        destroyed
    }

    /// How many selection events there have been.
    pub fn generation(&self) -> (r: u64)
        ensures
            r == self@.generation,
    {
        self.generation
    }

    /// PRIMARY is ignored, but its offer still needs to be destroyed.
    pub fn on_primary_selection(&mut self, id: Option<u32>) -> (destroyed: Option<u32>)
        ensures
            destroyed == id,
            final(self)@ == match id {
                Some(id) => Board { pending: old(self)@.pending.remove(id), ..old(self)@ },
                None => old(self)@,
            },
    {
        let ghost was = self.pending@;
        if let Some(id) = id {
            self.pending.remove(&id);
            assert(announced(self.pending@) =~= announced(was).remove(id));
        }
        id
    }

    /// The data device is gone.
    pub fn on_finished(&mut self)
        ensures
            final(self)@ == (Board { finished: true, ..old(self)@ }),
    {
        self.finished = true;
    }

    /// The bytes to send for a paste of our selection.
    pub fn on_send(&self, mime: &str) -> (r: Vec<u8>)
        ensures
            r@ == served(self@, mime@),
    {
        match self.payload.get(mime) {
            Some(data) => vstd::slice::slice_to_vec(data),
            None => Vec::new(),
        }
    }

    /// A source was cancelled, ours or an earlier one of ours.
    pub fn on_cancelled(&mut self, source: u32)
        ensures
            final(self)@ == cancelled(old(self)@, source),
    {
        if let Some(ours) = self.source {
            if ours == source {
                self.source = None;
                self.payload = Selection::new();
            }
        }
    }

    /// Whether a selection event is still to be handled. There may be no
    /// further socket event to wake us for it.
    pub fn has_work(&self) -> (r: bool)
        ensures
            r == self@.got_selection,
    {
        self.got_selection
    }

    // ------------------------------------------------------------ handling

    /// Take the selection event at hand. Our own offer is told by its marker,
    /// before reading: it needs a send event on the queue, which cannot
    /// dispatch while blocked on the read pipe.
    pub fn take_selection(&mut self) -> (r: Result<Taken, DeviceGone>)
        ensures
            r is Err <==> old(self)@.finished,
            r is Err ==> final(self)@ == old(self)@,
            r matches Ok(taken) ==> {
                &&& final(self)@ == (Board { got_selection: false, ..old(self)@ })
                &&& match taken {
                    Taken::Nothing => !old(self)@.got_selection || old(self)@.current is None,
                    Taken::Own => old(self)@.got_selection && ours(old(self)@),
                    Taken::Offer(candidate) => readable(old(self)@, candidate),
                }
            },
    {
        if self.finished {
            return Err(DeviceGone);
        }
        if !self.got_selection {
            return Ok(Taken::Nothing);
        }
        self.got_selection = false;
        match &self.current {
            None => Ok(Taken::Nothing),
            Some((offer, mimes)) => {
                if has_text(mimes.as_slice(), MARKER_MIME) {
                    return Ok(Taken::Own);
                }
                Ok(
                    Taken::Offer(
                        Candidate {
                            offer: *offer,
                            mimes: copied(mimes.as_slice()),
                            generation: self.generation,
                        },
                    ),
                )
            },
        }
    }

    /// Take the selection event at hand and find out whether to read it.
    /// Secret offers are skipped before reading so their content cannot enter
    /// diagnostics.
    pub fn begin<R: Rewriter>(&mut self, rewriter: &R) -> (r: Result<Begin, DeviceGone>)
        ensures
            r is Err <==> old(self)@.finished,
            r is Err ==> final(self)@ == old(self)@,
            r matches Ok(begin) ==> {
                &&& final(self)@ == (Board { got_selection: false, ..old(self)@ })
                &&& begun(old(self)@, rewriter, begin)
            },
    {
        match self.take_selection() {
            Err(gone) => Err(gone),
            Ok(Taken::Nothing) => Ok(Begin::Nothing),
            Ok(Taken::Own) => Ok(Begin::Own),
            Ok(Taken::Offer(candidate)) => {
                let secret = rewriter.is_secret(candidate.mimes());
                Ok(candidate.screen(secret))
            },
        }
    }

    /// Whether a rewrite is still wanted, and if so, what to publish. Call it
    /// once all events that have come are dispatched; otherwise the counter has
    /// not changed since the read began and cannot detect a stale rewrite.
    pub fn confirm(&self, draft: Draft) -> (r: Option<Publication>)
        ensures
            match r {
                Some(publication) => {
                    &&& draft.made_at() == self@.generation
                    &&& publication@ == published(draft@)
                },
                None => draft.made_at() != self@.generation,
            },
    {
        if self.generation != draft.generation {
            return None;
        }
        let mut rewrite = draft.rewrite;
        rewrite.selection.set(MARKER_MIME.to_string(), Vec::new());
        Some(Publication { rewrite })
    }

    /// The MIME types to offer for a selection, if it can be published.
    pub fn publish<'a>(&self, selection: &'a Selection) -> (r: Result<Vec<&'a str>, PublishError>)
        ensures
            match r {
                Ok(mimes) => {
                    &&& selection@.len() > 0
                    &&& self@.manager && self@.device
                    &&& mimes@.map_values(|m: &str| m@) == mimes_of(selection@)
                },
                Err(PublishError::Empty) => selection@.len() == 0,
                Err(PublishError::NoDevice) => selection@.len() > 0 && !(self@.manager
                    && self@.device),
            },
    {
        if selection.is_empty() {
            return Err(PublishError::Empty);
        }
        if !self.manager || !self.device {
            return Err(PublishError::NoDevice);
        }
        Ok(selection.mimes())
    }

    /// A publication has become the selection, under this source. The result is
    /// what to notify of.
    pub fn on_published(&mut self, publication: Publication, source: u32) -> (notify: Option<
        String,
    >)
        ensures
            final(self)@ == (Board {
                source: Some(source),
                payload: publication@.0,
                ..old(self)@
            }),
            match notify {
                Some(text) => publication@.1 == Some(text@),
                None => publication@.1 is None,
            },
    {
        // Retain the source identity for cancellation and payloads for paste requests.
        let rewrite = publication.rewrite;
        self.payload = rewrite.selection;
        self.source = Some(source);
        rewrite.notify
    }
}

/// An offer to read, and the selection event that brought it.
pub struct Candidate {
    offer: u32,
    mimes: Vec<String>,
    generation: u64,
}

impl View for Candidate {
    type V = (u32, Seq<Seq<char>>);

    closed spec fn view(&self) -> (u32, Seq<Seq<char>>) {
        (self.offer, texts(self.mimes@))
    }
}

/// What a selection event comes to.
pub enum Taken {
    /// No event, or an empty clipboard.
    Nothing,
    /// Our own selection.
    Own,
    Offer(Candidate),
}

/// What to do about a selection event.
pub enum Begin {
    Nothing,
    Own,
    /// Marked secret by its owner.
    Secret,
    Read(Candidate),
}

impl Candidate {
    /// The number of selection events up to the one that brought the offer.
    pub closed spec fn found_at(&self) -> nat {
        self.generation as nat
    }

    pub fn offer(&self) -> (r: u32)
        ensures
            r == self@.0,
    {
        self.offer
    }

    /// The MIME types that the offer announced.
    pub fn mimes(&self) -> (r: &[String])
        ensures
            texts(r@) == self@.1,
    {
        self.mimes.as_slice()
    }

    /// Whether to read an offer, given whether it is marked secret.
    pub fn screen(self, secret: bool) -> (r: Begin)
        ensures
            r == if secret {
                Begin::Secret
            } else {
                Begin::Read(self)
            },
    {
        if secret {
            Begin::Secret
        } else {
            Begin::Read(self)
        }
    }

    /// Have what the offer held rewritten. The draft is what the rewriter answers,
    /// and the rewriter is left as its answer leaves it.
    pub fn rewrite<R: Rewriter>(self, rewriter: &mut R, incoming: &Selection) -> (r: Option<Draft>)
        ensures
            exists|asked: &mut R, answer: Option<Rewrite>|
                {
                    &&& #[trigger] call_ensures(R::rewrite, (asked, incoming), answer)
                    &&& mut_ref_current(asked) == *old(rewriter)
                    &&& mut_ref_future(asked) == *final(rewriter)
                    &&& match answer {
                        Some(rewrite) => r matches Some(draft) && draft@ == rewrite@
                            && draft.made_at() == self.found_at(),
                        None => r is None,
                    }
                },
    {
        match rewriter.rewrite(incoming) {
            Some(rewrite) => Some(self.rewritten(rewrite)),
            None => None,
        }
    }

    /// A rewrite of what the offer held.
    pub fn rewritten(self, rewrite: Rewrite) -> (r: Draft)
        ensures
            r@ == rewrite@,
            r.made_at() == self.found_at(),
    {
        Draft { rewrite, generation: self.generation }
    }
}

/// A rewrite, and the selection event it answers.
pub struct Draft {
    rewrite: Rewrite,
    generation: u64,
}

impl View for Draft {
    type V = Replacement;

    closed spec fn view(&self) -> Replacement {
        self.rewrite@
    }
}

impl Draft {
    pub fn selection(&self) -> (r: &Selection)
        ensures
            r@ == self@.0,
    {
        &self.rewrite.selection
    }

    pub closed spec fn made_at(&self) -> nat {
        self.generation as nat
    }
}

/// A rewrite that is ready to become the selection.
pub struct Publication {
    rewrite: Rewrite,
}

impl View for Publication {
    type V = Replacement;

    closed spec fn view(&self) -> Replacement {
        self.rewrite@
    }
}

impl Publication {
    pub fn selection(&self) -> (r: &Selection)
        ensures
            r@ == self@.0,
    {
        &self.rewrite.selection
    }
}

/// Why a selection cannot be published.
#[derive(Clone, Copy, PartialEq, Eq, Structural, Debug)]
pub enum PublishError {
    Empty,
    NoDevice,
}

impl PublishError {
    pub open spec fn text(&self) -> Seq<char> {
        match self {
            PublishError::Empty => "refusing to publish an empty selection"@,
            PublishError::NoDevice => "no data device"@,
        }
    }

    pub fn message(&self) -> (r: String)
        ensures
            r@ == self.text(),
    {
        match self {
            PublishError::Empty => "refusing to publish an empty selection".to_string(),
            PublishError::NoDevice => "no data device".to_string(),
        }
    }
}

/// Whether a rewriter says that an offer with these MIME types is secret.
pub open spec fn judged<R: Rewriter>(rewriter: &R, mimes: Seq<Seq<char>>, secret: bool) -> bool {
    exists|list: &[String]|
        texts(list@) == mimes && #[trigger] call_ensures(R::is_secret, (rewriter, list), secret)
}

/// The current offer carries our marker.
pub open spec fn ours(b: Board) -> bool {
    b.current matches Some((_, mimes)) && mimes.contains(MARKER_MIME@)
}

/// A selection event is at hand whose offer is this candidate, and not ours.
pub open spec fn readable(b: Board, candidate: Candidate) -> bool {
    &&& b.got_selection
    &&& !ours(b)
    &&& b.current == Some(candidate@)
    &&& candidate.found_at() == b.generation
}

/// What taking the selection event at hand comes to: no event or nothing selected,
/// our own selection, a secret that is skipped, or an offer to read.
pub open spec fn begun<R: Rewriter>(b: Board, rewriter: &R, begin: Begin) -> bool {
    match begin {
        Begin::Nothing => !b.got_selection || b.current is None,
        Begin::Own => b.got_selection && ours(b),
        Begin::Secret => {
            &&& b.got_selection && !ours(b)
            &&& b.current matches Some((_, mimes))
            &&& judged(rewriter, mimes, true)
        },
        Begin::Read(candidate) => {
            &&& readable(b, candidate)
            &&& judged(rewriter, candidate@.1, false)
        },
    }
}

/// What a paste of our selection gets under a MIME type.
pub open spec fn served(b: Board, mime: Seq<char>) -> Seq<u8> {
    match lookup(b.payload, mime) {
        Some(data) => data,
        None => Seq::empty(),
    }
}

/// What the end of a source makes of a state: nothing is served any more if it
/// was the current one.
pub open spec fn cancelled(b: Board, source: u32) -> Board {
    if b.source == Some(source) {
        Board { source: None, payload: Flavours::empty(), ..b }
    } else {
        b
    }
}

/// What is published for a replacement: the replacement, with our marker.
pub open spec fn published(replacement: Replacement) -> Replacement {
    (stored(replacement.0, MARKER_MIME@, Seq::empty()), replacement.1)
}

// -------------------------------------------------------------------- laws

/// What we publish we never read: once it is announced as the selection with
/// the MIME types it has, it is told to be ours.
pub proof fn law_our_own_output_is_not_read(b: Board, replacement: Replacement, id: u32)
    requires
        b.current == Some((id, mimes_of(published(replacement).0))),
    ensures
        ours(b),
        forall|candidate: Candidate| !readable(b, candidate),
{
    let f = published(replacement).0;
    law_stored_is_found(replacement.0, MARKER_MIME@, Seq::empty(), MARKER_MIME@);
    crate::text::lemma_find(mimes_of(f), MARKER_MIME@);
    assert(mimes_of(f)[crate::text::find(mimes_of(f), MARKER_MIME@)] == MARKER_MIME@);
}

/// Publishing adds the marker and changes nothing else: every payload is served
/// as the rewrite has it, also when the selection changes, until that source is
/// cancelled.
pub proof fn law_a_published_rewrite_is_served(
    b: Board,
    replacement: Replacement,
    source: u32,
    other: u32,
    id: Option<u32>,
    mime: Seq<char>,
)
    requires
        b.source == Some(source),
        b.payload == published(replacement).0,
        other != source,
    ensures
        mime != MARKER_MIME@ ==> served(b, mime) == match lookup(replacement.0, mime) {
            Some(data) => data,
            None => Seq::empty(),
        },
        served(b, MARKER_MIME@) == Seq::<u8>::empty(),
        served(cancelled(b, other), mime) == served(b, mime),
        served(selected(b, id), mime) == served(b, mime),
        served(cancelled(b, source), mime) == Seq::<u8>::empty(),
{
    law_stored_is_found(replacement.0, MARKER_MIME@, Seq::empty(), mime);
    law_stored_is_found(replacement.0, MARKER_MIME@, Seq::empty(), MARKER_MIME@);
    crate::text::lemma_find(mimes_of(Flavours::empty()), mime);
}

/// A rewrite of an offer that is no longer the selection is dropped, however
/// many selection events have come since, and the newest of them is at hand to
/// be handled before anything else is waited for.
pub proof fn law_a_newer_selection_drops_the_rewrite(
    b: Board,
    candidate: Candidate,
    ids: Seq<Option<u32>>,
)
    requires
        readable(b, candidate),
        ids.len() > 0,
    ensures
        candidate.found_at() != after(b, ids).generation,
        after(b, ids).got_selection,
{
    lemma_after(b, ids);
}

/// A state after selection events.
pub open spec fn after(b: Board, ids: Seq<Option<u32>>) -> Board
    decreases ids.len(),
{
    if ids.len() == 0 {
        b
    } else {
        selected(after(b, ids.drop_last()), ids.last())
    }
}

proof fn lemma_after(b: Board, ids: Seq<Option<u32>>)
    ensures
        after(b, ids).generation == b.generation + ids.len(),
        ids.len() > 0 ==> after(b, ids).got_selection,
    decreases ids.len(),
{
    if ids.len() > 0 {
        lemma_after(b, ids.drop_last());
    }
}

/// No offer is leaked and none is destroyed twice: after a selection event
/// every offer that was alive is either the current one or listed for
/// destruction, and no listed one is alive or listed again. A new selection is
/// a new object, so it is not the previous one.
pub proof fn law_each_offer_is_destroyed_once(b: Board, id: Option<u32>, destroyed: Seq<u32>)
    requires
        claimed_once(b),
        b.current matches Some((old, _)) ==> id != Some(old),
        dropped(b, id, destroyed),
    ensures
        destroyed.no_duplicates(),
        claimed_once(selected(b, id)),
        forall|x: u32| #[trigger]
            destroyed.contains(x) <==> known(b).contains(x) && !known(selected(b, id)).contains(x),
{
    let first = match b.current {
        Some((old, _)) => seq![old],
        None => Seq::empty(),
    };
    let rest = destroyed.skip(first.len() as int);
    let unclaimed = match id {
        Some(id) => b.pending.dom().remove(id),
        None => b.pending.dom(),
    };
    assert forall|x: u32| rest.contains(x) <==> unclaimed.contains(x) by {
        assert(rest.to_set().contains(x) <==> rest.contains(x));
    }
    assert forall|x: u32| #[trigger] destroyed.contains(x) <==> first.contains(x) || rest.contains(
        x,
    ) by {
        if first.contains(x) {
            let i = choose|i: int| 0 <= i < first.len() && first[i] == x;
            assert(destroyed[i] == x);
        }
        if rest.contains(x) {
            let i = choose|i: int| 0 <= i < rest.len() && rest[i] == x;
            assert(destroyed[i + first.len()] == x);
        }
        if destroyed.contains(x) {
            let i = choose|i: int| 0 <= i < destroyed.len() && destroyed[i] == x;
            if i < first.len() {
                assert(first[i] == x);
            } else {
                assert(rest[i - first.len()] == x);
            }
        }
    }
    assert forall|i: int, j: int| 0 <= i < j < destroyed.len() implies destroyed[i]
        != destroyed[j] by {
        if i < first.len() {
            assert(first[i] == destroyed[i]);
            assert(rest[j - first.len()] == destroyed[j]);
            assert(rest.contains(destroyed[j]));
        } else {
            assert(rest[i - first.len()] != rest[j - first.len()]);
        }
    }
    assert forall|x: u32| #[trigger] destroyed.contains(x) <==> known(b).contains(x) && !known(
        selected(b, id),
    ).contains(x) by {
        assert(first.contains(x) <==> (b.current matches Some((old, _)) && old == x)) by {
            if let Some((old, _)) = b.current {
                assert(first[0] == old);
            }
        }
    }
}

/// A selection event makes its offer the current one, with the types that were
/// announced for it, if any; no offer is pending after it, it is counted, and it is
/// at hand. What we publish and all else stays as it is.
pub proof fn law_what_a_selection_event_changes(b: Board, id: u32)
    ensures
        b.pending.contains_key(id) ==> selected(b, Some(id)).current == Some((id, b.pending[id])),
        !b.pending.contains_key(id) ==> selected(b, Some(id)).current == Some(
            (id, Seq::<Seq<char>>::empty()),
        ),
        selected(b, None).current is None,
        forall|event: Option<u32>|
            {
                let now = #[trigger] selected(b, event);
                &&& forall|x: u32| !now.pending.contains_key(x)
                &&& now.generation == b.generation + 1
                &&& now.got_selection
                &&& now.source == b.source
                &&& now.payload == b.payload
                &&& now.manager == b.manager
                &&& now.seat == b.seat
                &&& now.device == b.device
                &&& now.finished == b.finished
                &&& now.log_contents == b.log_contents
            },
{
}

/// What taking a selection event comes to is decided by the event: nothing without
/// one or with an empty clipboard, our own selection exactly with our marker among
/// its types, and otherwise that very offer is read, unless the rewriter calls it
/// secret.
pub proof fn law_what_a_selection_event_comes_to<R: Rewriter>(
    b: Board,
    rewriter: &R,
    begin: Begin,
    id: u32,
    mimes: Seq<Seq<char>>,
)
    requires
        begun(b, rewriter, begin),
    ensures
        begin is Nothing <==> !b.got_selection || b.current is None,
        b.got_selection && b.current == Some((id, mimes)) ==> {
            &&& begin is Own <==> mimes.contains("application/x-clipmunge"@)
            &&& !mimes.contains("application/x-clipmunge"@) ==> begin is Secret || (
            begin matches Begin::Read(candidate) && candidate@ == (id, mimes)
                && candidate.found_at() == b.generation)
            &&& begin is Secret ==> judged(rewriter, mimes, true)
            &&& begin is Read ==> judged(rewriter, mimes, false)
        },
{
}

/// A paste of our selection gets the payload that is advertised under the type, and
/// nothing under a type that is not.
pub proof fn law_a_paste_gets_what_is_advertised(b: Board, mime: Seq<char>, data: Seq<u8>)
    requires
        unique(b.payload),
    ensures
        b.payload.contains((mime, data)) ==> served(b, mime) == data,
        (forall|i: int| 0 <= i < b.payload.len() ==> (#[trigger] b.payload[i]).0 != mime)
            ==> served(b, mime) == Seq::<u8>::empty(),
{
    law_found_is_what_is_advertised(b.payload, mime);
    if b.payload.contains((mime, data)) {
        assert(lookup(b.payload, mime) == Some(data));
    }
}

/// The end of our source leaves nothing to serve and changes nothing else; the end of
/// any other source changes nothing at all.
pub proof fn law_what_the_end_of_a_source_changes(b: Board, source: u32)
    ensures
        b.source != Some(source) ==> cancelled(b, source) == b,
        b.source == Some(source) ==> {
            let now = cancelled(b, source);
            &&& now.source is None
            &&& now.payload == Flavours::empty()
            &&& now.current == b.current
            &&& now.pending == b.pending
            &&& now.generation == b.generation
            &&& now.got_selection == b.got_selection
            &&& now.manager == b.manager
            &&& now.seat == b.seat
            &&& now.device == b.device
            &&& now.finished == b.finished
            &&& now.log_contents == b.log_contents
        },
{
}

/// What is published is the replacement with our marker behind it, which holds
/// nothing, and with the same notification.
pub proof fn law_publishing_adds_the_marker(replacement: Replacement)
    requires
        !mimes_of(replacement.0).contains("application/x-clipmunge"@),
    ensures
        published(replacement).0 == replacement.0.push(
            ("application/x-clipmunge"@, Seq::<u8>::empty()),
        ),
        published(replacement).1 == replacement.1,
{
    law_storing_keeps_the_order(replacement.0, MARKER_MIME@, Seq::empty());
    crate::text::lemma_find(mimes_of(replacement.0), MARKER_MIME@);
}

/// What there is to say when there is no clipboard to follow.
pub proof fn law_why_there_is_no_clipboard()
    ensures
        ConnectError::NoSeat.text() == "compositor announced no wl_seat"@,
        PublishError::Empty.text() == "refusing to publish an empty selection"@,
        PublishError::NoDevice.text() == "no data device"@,
{
}

/// An announced type goes behind those announced before it for the same offer, and
/// touches no other offer; a type for an offer that is not alive is ignored.
pub proof fn law_types_are_announced_in_order(c: &mut Clipboard, id: u32, mime: String, x: u32)
    requires
        call_ensures(Clipboard::on_offer_mime, (c, id, mime), ()),
    ensures
        ({
            let before = mut_ref_current(c)@;
            let after = mut_ref_future(c)@;
            &&& before.pending.contains_key(id) ==> after.pending.contains_key(id)
                && after.pending[id] == before.pending[id].push(mime@) && after.current
                == before.current
            &&& !before.pending.contains_key(id) ==> after.pending == before.pending && (
            before.current matches Some((current, mimes)) ==> after.current == Some(
                (
                    current,
                    if current == id {
                        mimes.push(mime@)
                    } else {
                        mimes
                    },
                ),
            ))
            &&& before.current is None ==> after.current is None
            &&& x != id ==> (after.pending.contains_key(x) <==> before.pending.contains_key(x)) && (
            before.pending.contains_key(x) ==> after.pending[x] == before.pending[x])
            &&& after.generation == before.generation
            &&& after.got_selection == before.got_selection
            &&& after.source == before.source
            &&& after.payload == before.payload
        }),
{
}

/// A new offer is pending and has no types yet; other offers stay as they are.
pub proof fn law_a_new_offer_has_no_types(c: &mut Clipboard, id: u32, x: u32)
    requires
        call_ensures(Clipboard::on_data_offer, (c, id), ()),
    ensures
        ({
            let before = mut_ref_current(c)@;
            let after = mut_ref_future(c)@;
            &&& after.pending.contains_key(id) && after.pending[id].len() == 0
            &&& x != id ==> (after.pending.contains_key(x) <==> before.pending.contains_key(x)) && (
            before.pending.contains_key(x) ==> after.pending[x] == before.pending[x])
            &&& after.current == before.current
            &&& after.generation == before.generation
            &&& after.got_selection == before.got_selection
            &&& after.source == before.source
            &&& after.payload == before.payload
        }),
{
}

/// The primary selection is let go of and nothing else: its offer is destroyed and no
/// longer pending, and the selection that we follow stays what it is.
pub proof fn law_the_primary_selection_is_let_go(
    c: &mut Clipboard,
    id: Option<u32>,
    destroyed: Option<u32>,
    x: u32,
)
    requires
        call_ensures(Clipboard::on_primary_selection, (c, id), destroyed),
    ensures
        ({
            let before = mut_ref_current(c)@;
            let after = mut_ref_future(c)@;
            &&& destroyed == id
            &&& after.pending.contains_key(x) <==> before.pending.contains_key(x) && id != Some(x)
            &&& after.pending.contains_key(x) ==> after.pending[x] == before.pending[x]
            &&& after.current == before.current
            &&& after.generation == before.generation
            &&& after.got_selection == before.got_selection
            &&& after.source == before.source
            &&& after.payload == before.payload
        }),
{
}

/// A selection event is taken once: after it was, none is at hand, and everything else
/// is as it was; when the device is gone, that is all there is to say.
pub proof fn law_a_selection_event_is_taken_once(c: &mut Clipboard, r: Result<Taken, DeviceGone>)
    requires
        call_ensures(Clipboard::take_selection, (c,), r),
    ensures
        ({
            let before = mut_ref_current(c)@;
            let after = mut_ref_future(c)@;
            &&& r is Err <==> before.finished
            &&& r is Ok ==> !after.got_selection
            &&& r is Err ==> after.got_selection == before.got_selection
            &&& after.current == before.current
            &&& after.pending == before.pending
            &&& after.generation == before.generation
            &&& after.source == before.source
            &&& after.payload == before.payload
            &&& r matches Ok(Taken::Offer(candidate)) ==> before.current == Some(candidate@)
                && candidate.found_at() == before.generation && !candidate@.1.contains(
                "application/x-clipmunge"@,
            )
        }),
{
}

/// A draft is published exactly when no selection event has come since the one that
/// it answers, with our marker and otherwise as it is.
pub proof fn law_only_a_fresh_draft_is_published(
    c: &Clipboard,
    draft: Draft,
    r: Option<Publication>,
    mime: Seq<char>,
)
    requires
        call_ensures(Clipboard::confirm, (c, draft), r),
    ensures
        r is Some <==> draft.made_at() == c@.generation,
        r matches Some(publication) ==> {
            &&& publication@.1 == draft@.1
            &&& mime != "application/x-clipmunge"@ ==> lookup(publication@.0, mime) == lookup(
                draft@.0,
                mime,
            )
            &&& lookup(publication@.0, "application/x-clipmunge"@) == Some(Seq::<u8>::empty())
        },
{
    law_stored_is_found(draft@.0, MARKER_MIME@, Seq::empty(), mime);
    law_stored_is_found(draft@.0, MARKER_MIME@, Seq::empty(), MARKER_MIME@);
}

/// What was published is what is served from then on under its source, and what it
/// notifies of is handed on.
pub proof fn law_a_publication_takes_over(
    c: &mut Clipboard,
    publication: Publication,
    source: u32,
    notify: Option<String>,
    mime: Seq<char>,
)
    requires
        call_ensures(Clipboard::on_published, (c, publication, source), notify),
    ensures
        ({
            let before = mut_ref_current(c)@;
            let after = mut_ref_future(c)@;
            &&& after.source == Some(source)
            &&& lookup(publication@.0, mime) matches Some(data) ==> served(after, mime) == data
            &&& lookup(publication@.0, mime) is None ==> served(after, mime) == Seq::<u8>::empty()
            &&& notify is Some <==> publication@.1 is Some
            &&& notify matches Some(text) ==> publication@.1 == Some(text@)
            &&& after.current == before.current
            &&& after.pending == before.pending
            &&& after.generation == before.generation
            &&& after.got_selection == before.got_selection
        }),
{
}

/// A selection is offered under all its types, in order; an empty one is refused, and
/// so is any without a data device to offer it through.
pub proof fn law_what_is_offered(c: &Clipboard, selection: &Selection, r: Result<
    Vec<&str>,
    PublishError,
>)
    requires
        call_ensures(Clipboard::publish, (c, selection), r),
    ensures
        r is Ok <==> selection@.len() > 0 && c@.manager && c@.device,
        selection@.len() == 0 ==> r is Err && r->Err_0 == PublishError::Empty,
        selection@.len() > 0 && !(c@.manager && c@.device) ==> r is Err && r->Err_0
            == PublishError::NoDevice,
        r matches Ok(mimes) ==> mimes@.len() == selection@.len() && forall|i: int|
            0 <= i < mimes@.len() ==> (#[trigger] mimes@[i])@ == selection@[i].0,
{
    if let Ok(mimes) = r {
        let view = |m: &str| m@;
        let shown = mimes@.map_values(view);
        assert(shown == mimes_of(selection@));
        assert(shown.len() == mimes@.len());
        assert forall|i: int| 0 <= i < mimes@.len() implies (#[trigger] mimes@[i])@
            == selection@[i].0 by {
            assert(shown[i] == view(mimes@[i]));
            assert(mimes_of(selection@)[i] == selection@[i].0);
        }
    }
}

/// The data control manager and the first seat are bound, by their names, and nothing
/// else is; both are needed to follow the clipboard, and the manager is missed first.
pub proof fn law_what_is_bound(
    c: &mut Clipboard,
    interface: &str,
    r: Option<Global>,
    connecting: &mut Clipboard,
    connected: Result<(), ConnectError>,
)
    requires
        call_ensures(Clipboard::on_global, (c, interface), r),
        call_ensures(Clipboard::connect, (connecting,), connected),
        mut_ref_current(connecting) == mut_ref_future(c),
    ensures
        ({
            let before = mut_ref_current(c)@;
            let after = mut_ref_future(c)@;
            &&& r == Some(Global::Manager) <==> interface@ == "ext_data_control_manager_v1"@
            &&& r == Some(Global::Seat) <==> interface@ == "wl_seat"@ && !before.seat
            &&& after.manager <==> before.manager || r == Some(Global::Manager)
            &&& after.seat <==> before.seat || r == Some(Global::Seat)
            &&& connected is Ok <==> after.manager && after.seat
            &&& !after.manager ==> connected is Err && connected->Err_0 == ConnectError::NoManager
            &&& after.manager && !after.seat ==> connected is Err && connected->Err_0
                == ConnectError::NoSeat
            &&& mut_ref_future(connecting)@.device <==> after.device || connected is Ok
        }),
{
    reveal_strlit("ext_data_control_manager_v1");
    reveal_strlit("wl_seat");
    assert("ext_data_control_manager_v1"@.len() != "wl_seat"@.len());
}

/// A rewrite answers the offer that it was made for: it is dropped once there was a
/// selection event after the one that brought the offer, and published as it is
/// otherwise.
pub proof fn law_a_rewrite_answers_its_offer(
    candidate: Candidate,
    rewrite: Rewrite,
    draft: Draft,
    c: &Clipboard,
    r: Option<Publication>,
)
    requires
        call_ensures(Candidate::rewritten, (candidate, rewrite), draft),
        call_ensures(Clipboard::confirm, (c, draft), r),
    ensures
        r is Some <==> candidate.found_at() == c@.generation,
        r matches Some(publication) ==> publication@ == published(rewrite@),
{
}

/// An offer is read exactly when it is not secret, and it is the same offer then.
pub proof fn law_secrets_are_screened_out(candidate: Candidate, secret: bool, r: Begin)
    requires
        call_ensures(Candidate::screen, (candidate, secret), r),
    ensures
        secret <==> r is Secret,
        !secret ==> r == Begin::Read(candidate),
{
}

} // verus!
