//! Reading offers and sending payloads within limits of size and time.
//! Times are nanoseconds on one monotonic clock.

use vstd::prelude::*;

use crate::selection::{
    law_stored_is_found, law_storing_keeps_the_order, law_the_known_types, lookup, mimes_of, stored,
    Flavours, Selection, RICH_MIMES, TEXT_MIMES,
};
use crate::text::{copied, decimal, name_index, names, push_decimal, push_text, texts};

verus! {

broadcast use vstd::string::group_string_axioms;

/// Maximum bytes read per flavour.
pub const READ_LIMIT: usize = 256 * 1024;

/// Per-flavour and total read deadlines. The event loop cannot dispatch during
/// a read, so additional flavours must not extend the total budget.
pub const READ_TIMEOUT: u64 = 500_000_000;

pub const READ_BUDGET: u64 = 1_000_000_000;

/// Stop waiting for pipe capacity after this interval.
pub const WRITE_TIMEOUT: u64 = 2_000_000_000;

/// How long it is until a deadline.
pub open spec fn remaining(deadline: u64, now: u64) -> nat {
    if now < deadline {
        (deadline - now) as nat
    } else {
        0
    }
}

// ----------------------------------------------------------------- reading

/// MIME types exposed to handlers.
pub open spec fn exposed(mime: Seq<char>) -> bool {
    names(TEXT_MIMES@).contains(mime) || names(RICH_MIMES@).contains(mime)
}

/// MIME types exposed to handlers. Skip other types to avoid unnecessary reads.
/// Adding a rich type changes the data available through `incoming:get`.
pub fn worth_reading(mime: &str) -> (r: bool)
    ensures
        r == exposed(mime@),
{
    name_index(mime, TEXT_MIMES.as_slice()) < TEXT_MIMES.len() || name_index(
        mime,
        RICH_MIMES.as_slice(),
    ) < RICH_MIMES.len()
}

/// The first announced type from an index on that is exposed to handlers, or
/// their number.
pub open spec fn next_exposed(mimes: Seq<Seq<char>>, from: int) -> int
    decreases mimes.len() - from,
{
    if from >= mimes.len() {
        mimes.len() as int
    } else if exposed(mimes[from]) {
        from
    } else {
        next_exposed(mimes, from + 1)
    }
}

/// What came of reading one flavour.
pub enum Flavour {
    Data(Vec<u8>),
    /// Over the size limit.
    TooBig,
    Failed,
}

/// What a selection holds after one more flavour was read.
pub open spec fn with_flavour(s: Flavours, mime: Seq<char>, flavour: Flavour) -> Flavours {
    match flavour {
        Flavour::Data(data) => stored(s, mime, data@),
        _ => s,
    }
}

/// What to do next about an offer.
#[derive(Clone, Copy, PartialEq, Eq, Structural, Debug)]
pub enum ReadStep {
    /// Read the flavour at hand.
    Read,
    /// Everything worth reading was read.
    Done,
    /// The time is up; the flavour at hand and the rest are skipped.
    OutOfTime,
}

/// Every type of a selection is an announced one that is exposed to handlers.
pub open spec fn from_offer(s: Flavours, mimes: Seq<Seq<char>>) -> bool {
    forall|m: Seq<char>| #[trigger] mimes_of(s).contains(m) ==> exposed(m) && mimes.contains(m)
}

/// The reading of one offer, flavour by flavour in announced order.
pub struct OfferRead {
    mimes: Vec<String>,
    place: usize,
    /// The flavour at this place is being read.
    reading: bool,
    budget: u64,
    selection: Selection,
}

impl OfferRead {
    #[verifier::type_invariant]
    spec fn reads_what_is_exposed(self) -> bool {
        &&& self.reading ==> self.place < self.mimes@.len() && exposed(
            texts(self.mimes@)[self.place as int],
        )
        &&& from_offer(self.selection@, texts(self.mimes@))
    }

    /// The announced types.
    pub closed spec fn mimes(&self) -> Seq<Seq<char>> {
        texts(self.mimes@)
    }

    /// The place of the flavour at hand.
    pub closed spec fn at(&self) -> int {
        self.place as int
    }

    /// The flavour at hand is being read.
    pub closed spec fn reading(&self) -> bool {
        self.reading
    }

    /// When the time for all of them is up.
    pub closed spec fn until(&self) -> u64 {
        self.budget
    }

    /// What was read so far.
    pub closed spec fn so_far(&self) -> Flavours {
        self.selection@
    }

    pub fn new(mimes: &[String], now: u64) -> (r: Self)
        requires
            now <= u64::MAX - READ_BUDGET,
        ensures
            r.mimes() == texts(mimes@),
            r.at() == 0,
            !r.reading(),
            r.until() == now + READ_BUDGET,
            r.so_far() == Flavours::empty(),
    {
        assert(mimes_of(Flavours::empty()).len() == 0);
        OfferRead {
            mimes: copied(mimes),
            place: 0,
            reading: false,
            budget: now + READ_BUDGET,
            selection: Selection::new(),
        }
    }

    /// When the time for all flavours is up.
    pub fn deadline(&self) -> (r: u64)
        ensures
            r == self.until(),
    {
        self.budget
    }

    /// The place of the flavour at hand among the announced ones. Those passed over
    /// to get there were not worth reading.
    pub fn place(&self) -> (r: usize)
        ensures
            r == self.at(),
    {
        self.place
    }

    /// The type of the flavour at hand.
    pub fn mime(&self) -> (r: Option<&str>)
        ensures
            match r {
                Some(mime) => self.at() < self.mimes().len() && mime@ == self.mimes()[self.at()],
                None => self.at() >= self.mimes().len(),
            },
    {
        if self.place < self.mimes.len() {
            Some(self.mimes[self.place].as_str())
        } else {
            None
        }
    }

    /// Go on to the next flavour worth reading. Nothing is started once the
    /// time is up.
    pub fn step(&mut self, now: u64) -> (r: ReadStep)
        ensures
            final(self).mimes() == old(self).mimes(),
            final(self).until() == old(self).until(),
            final(self).so_far() == old(self).so_far(),
            final(self).at() == next_exposed(old(self).mimes(), old(self).at()),
            final(self).reading() == (r == ReadStep::Read),
            r == if final(self).at() >= final(self).mimes().len() {
                ReadStep::Done
            } else if now >= final(self).until() {
                ReadStep::OutOfTime
            } else {
                ReadStep::Read
            },
    {
        proof {
            use_type_invariant(&*self);
        }
        self.reading = false;
        let ghost all = texts(self.mimes@);
        let total = self.mimes.len();
        let mut i = self.place;
        while i < total && !worth_reading(self.mimes[i].as_str())
            invariant
                total == self.mimes@.len(),
                all == texts(self.mimes@),
                next_exposed(all, self.place as int) == next_exposed(all, i as int),
            decreases total - i,
        {
            i += 1;
        }
        if i > total {
            i = total;
        }
        self.place = i;
        if i >= total {
            ReadStep::Done
        } else if now >= self.budget {
            ReadStep::OutOfTime
        } else {
            self.reading = true;
            ReadStep::Read
        }
    }

    /// The flavour being read has been dealt with.
    pub fn got(&mut self, flavour: Flavour)
        ensures
            final(self).mimes() == old(self).mimes(),
            final(self).until() == old(self).until(),
            !final(self).reading(),
            if old(self).reading() {
                &&& final(self).so_far() == with_flavour(
                    old(self).so_far(),
                    old(self).mimes()[old(self).at()],
                    flavour,
                )
                &&& final(self).at() == old(self).at() + 1
                &&& flavour matches Flavour::Data(data) ==> lookup(
                    final(self).so_far(),
                    old(self).mimes()[old(self).at()],
                ) == Some(data@)
                &&& forall|other: Seq<char>|
                    other != old(self).mimes()[old(self).at()] ==> #[trigger] lookup(
                        final(self).so_far(),
                        other,
                    ) == lookup(old(self).so_far(), other)
            } else {
                &&& final(self).so_far() == old(self).so_far()
                &&& final(self).at() == old(self).at()
            },
    {
        proof {
            use_type_invariant(&*self);
        }
        if !self.reading {
            return ;
        }
        self.reading = false;
        let place = self.place;
        assert(place < self.mimes.len());
        proof {
            let mime = texts(self.mimes@)[place as int];
            law_a_flavour_read_is_found(self.selection@, mime, flavour, mime);
            assert forall|other: Seq<char>| other != mime implies #[trigger] lookup(
                with_flavour(self.selection@, mime, flavour),
                other,
            ) == lookup(self.selection@, other) by {
                law_a_flavour_read_is_found(self.selection@, mime, flavour, other);
            }
        }
        if let Flavour::Data(data) = flavour {
            let mime = self.mimes[place].clone();
            assert(mime@ == texts(self.mimes@)[place as int]);
            let mut selection = Selection::new();
            assert(mimes_of(Flavours::empty()).len() == 0);
            core::mem::swap(&mut self.selection, &mut selection);
            proof {
                lemma_from_offer(selection@, texts(self.mimes@), mime@, data@);
            }
            selection.set(mime, data);
            self.selection = selection;
        }
        self.place = place + 1;
    }

    /// What was read: announced types that are exposed to handlers, no others.
    pub fn finish(self) -> (r: Selection)
        ensures
            r@ == self.so_far(),
            from_offer(r@, self.mimes()),
    {
        proof {
            use_type_invariant(&self);
        }
        self.selection
    }
}

proof fn lemma_from_offer(s: Flavours, mimes: Seq<Seq<char>>, mime: Seq<char>, data: Seq<u8>)
    requires
        from_offer(s, mimes),
        exposed(mime),
        mimes.contains(mime),
    ensures
        from_offer(stored(s, mime, data), mimes),
{
    law_storing_keeps_the_order(s, mime, data);
    assert forall|m: Seq<char>| #[trigger] mimes_of(stored(s, mime, data)).contains(m) implies
        exposed(m) && mimes.contains(m) by {
        if !mimes_of(s).contains(m) {
            let now = mimes_of(stored(s, mime, data));
            let i = choose|i: int| 0 <= i < now.len() && now[i] == m;
            if i < mimes_of(s).len() {
                assert(mimes_of(s)[i] == m);
            }
        }
    }
}

/// Until when a flavour is read: for its own timeout or that of the offer,
/// whichever comes first.
pub open spec fn flavour_deadline(now: nat, budget: nat) -> nat {
    if now + READ_TIMEOUT <= budget {
        now + READ_TIMEOUT as nat
    } else {
        budget
    }
}

/// What to do next about a flavour.
pub enum ChunkStep {
    More,
    /// The source closed its end: this is all.
    Complete(Vec<u8>),
    TooBig,
}

/// The reading of one flavour.
pub struct FlavourRead {
    data: Vec<u8>,
    deadline: u64,
}

impl View for FlavourRead {
    type V = Seq<u8>;

    closed spec fn view(&self) -> Seq<u8> {
        self.data@
    }
}

impl FlavourRead {
    #[verifier::type_invariant]
    spec fn within_limit(self) -> bool {
        self.data@.len() <= READ_LIMIT
    }

    pub closed spec fn until(&self) -> u64 {
        self.deadline
    }

    /// Start reading, until the timeout of a flavour or that of the offer,
    /// whichever comes first.
    pub fn new(now: u64, budget: u64) -> (r: Self)
        requires
            now <= u64::MAX - READ_TIMEOUT,
        ensures
            r@ == Seq::<u8>::empty(),
            r.until() == flavour_deadline(now as nat, budget as nat),
    {
        let own = now + READ_TIMEOUT;
        FlavourRead {
            data: Vec::new(),
            deadline: if own <= budget {
                own
            } else {
                budget
            },
        }
    }

    /// How long to wait for the source, or nothing when the time is up.
    pub fn time_left(&self, now: u64) -> (r: Option<u64>)
        ensures
            match r {
                Some(left) => left > 0 && left == remaining(self.until(), now),
                None => remaining(self.until(), now) == 0,
            },
    {
        if now < self.deadline {
            Some(self.deadline - now)
        } else {
            None
        }
    }

    /// Bytes came from the source; none at all mean that it is done.
    pub fn chunk(self, bytes: &[u8]) -> (r: (Self, ChunkStep))
        ensures
            r.0.until() == self.until(),
            if bytes@.len() == 0 {
                r.1 matches ChunkStep::Complete(data) && data@ == self@ && data@.len() <= READ_LIMIT
            } else if self@.len() + bytes@.len() > READ_LIMIT {
                r.1 is TooBig
            } else {
                r.1 is More && r.0@ == self@ + bytes@
            },
    {
        proof {
            use_type_invariant(&self);
        }
        let deadline = self.deadline;
        let mut data = self.data;
        if bytes.len() == 0 {
            let none: Vec<u8> = Vec::new();
            return (FlavourRead { data: none, deadline }, ChunkStep::Complete(data));
        }
        if bytes.len() > READ_LIMIT - data.len() {
            return (FlavourRead { data, deadline }, ChunkStep::TooBig);
        }
        data.extend_from_slice(bytes);
        assert(data@ =~= self@ + bytes@);
        (FlavourRead { data, deadline }, ChunkStep::More)
    }
}

// ----------------------------------------------------------------- sending

/// What came of one write.
#[derive(Clone, Copy, PartialEq, Eq, Structural, Debug)]
pub enum Written {
    /// So many bytes were taken.
    Bytes(usize),
    Interrupted,
    /// The pipe is full.
    WouldBlock,
}

/// What to do next about a payload.
#[derive(Clone, Copy, PartialEq, Eq, Structural, Debug)]
pub enum SendStep {
    /// Write what is left.
    Write,
    /// Wait for capacity, for at most this long.
    Wait(u64),
    Done,
}

/// Why sending ended early.
#[derive(Clone, Copy, PartialEq, Eq, Structural, Debug)]
pub enum SendError {
    Stopped,
    GaveUp { sent: usize, of: usize },
}

impl SendError {
    pub open spec fn text(&self) -> Seq<char> {
        match self {
            SendError::Stopped => "the reader stopped accepting bytes"@,
            SendError::GaveUp { sent, of } => "gave up after "@ + decimal(*sent as nat) + " of "@
                + decimal(*of as nat) + " bytes"@,
        }
    }

    pub fn message(&self) -> (r: String)
        ensures
            r@ == self.text(),
    {
        match self {
            SendError::Stopped => "the reader stopped accepting bytes".to_string(),
            SendError::GaveUp { sent, of } => {
                let mut out = "gave up after ".to_string();
                push_decimal(&mut out, *sent);
                push_text(&mut out, " of ");
                push_decimal(&mut out, *of);
                push_text(&mut out, " bytes");
                out
            },
        }
    }
}

/// The sending of one payload, without blocking on the pipe.
/// The deadline limits capacity waits, not total time if writes keep succeeding.
pub struct Sending {
    data: Vec<u8>,
    sent: usize,
    deadline: u64,
}

impl Sending {
    #[verifier::type_invariant]
    spec fn in_bounds(self) -> bool {
        self.sent <= self.data@.len()
    }

    pub closed spec fn data(&self) -> Seq<u8> {
        self.data@
    }

    /// How many bytes the reader has taken, from the first on.
    pub closed spec fn taken(&self) -> nat {
        self.sent as nat
    }

    pub closed spec fn until(&self) -> u64 {
        self.deadline
    }

    /// Send a payload, with a configurable deadline.
    pub fn until_deadline(data: Vec<u8>, deadline: u64) -> (r: Self)
        ensures
            r.data() == data@,
            r.taken() == 0,
            r.until() == deadline,
    {
        Sending { data, sent: 0, deadline }
    }

    /// Send a payload, waiting for capacity for `WRITE_TIMEOUT` at most.
    pub fn new(data: Vec<u8>, now: u64) -> (r: Self)
        requires
            now <= u64::MAX - WRITE_TIMEOUT,
        ensures
            r.data() == data@,
            r.taken() == 0,
            r.until() == now + WRITE_TIMEOUT,
    {
        Sending::until_deadline(data, now + WRITE_TIMEOUT)
    }

    /// The bytes still to be written.
    pub fn rest(&self) -> (r: &[u8])
        ensures
            r@ == self.data().skip(self.taken() as int),
            self.taken() <= self.data().len() <= usize::MAX,
    {
        proof {
            use_type_invariant(self);
        }
        vstd::slice::slice_subrange(self.data.as_slice(), self.sent, self.data.len())
    }

    /// What to do first.
    pub fn start(&self) -> (r: SendStep)
        ensures
            r == if self.taken() < self.data().len() {
                SendStep::Write
            } else {
                SendStep::Done
            },
    {
        if self.sent < self.data.len() {
            SendStep::Write
        } else {
            SendStep::Done
        }
    }

    /// What to do after a write.
    pub fn wrote(&mut self, written: Written, now: u64) -> (r: Result<SendStep, SendError>)
        requires
            written matches Written::Bytes(n) ==> old(self).taken() + n <= old(self).data().len(),
        ensures
            final(self).data() == old(self).data(),
            final(self).until() == old(self).until(),
            final(self).taken() <= final(self).data().len() <= usize::MAX,
            match written {
                Written::Bytes(n) => {
                    &&& final(self).taken() == old(self).taken() + n
                    &&& r == if n == 0 {
                        Err::<SendStep, SendError>(SendError::Stopped)
                    } else if final(self).taken() < final(self).data().len() {
                        Ok(SendStep::Write)
                    } else {
                        Ok(SendStep::Done)
                    }
                },
                Written::Interrupted => {
                    &&& final(self).taken() == old(self).taken()
                    &&& r == Ok::<SendStep, SendError>(SendStep::Write)
                },
                Written::WouldBlock => {
                    &&& final(self).taken() == old(self).taken()
                    &&& if remaining(old(self).until(), now) == 0 {
                        gave_up(*old(self), r)
                    } else {
                        r matches Ok(SendStep::Wait(left)) && left == remaining(
                            old(self).until(),
                            now,
                        )
                    }
                },
            },
    {
        proof {
            use_type_invariant(&*self);
        }
        let total = self.data.len();
        assert(total == self.data@.len());
        match written {
            Written::Bytes(n) => {
                if n == 0 {
                    return Err(SendError::Stopped);
                }
                assert(self.sent + n <= total);
                self.sent = self.sent + n;
                Ok(self.start())
            },
            Written::Interrupted => Ok(SendStep::Write),
            Written::WouldBlock => {
                if now < self.deadline {
                    Ok(SendStep::Wait(self.deadline - now))
                } else {
                    Err(SendError::GaveUp { sent: self.sent, of: self.data.len() })
                }
            },
        }
    }

    /// What to do after a wait, given whether there is capacity now.
    pub fn waited(&self, ready: bool) -> (r: Result<SendStep, SendError>)
        ensures
            if ready {
                r == Ok::<SendStep, SendError>(SendStep::Write)
            } else {
                gave_up(*self, r)
            },
    {
        if ready {
            Ok(SendStep::Write)
        } else {
            Err(SendError::GaveUp { sent: self.sent, of: self.data.len() })
        }
    }
}

/// The report of a reader that does not read.
pub open spec fn gave_up(sending: Sending, r: Result<SendStep, SendError>) -> bool {
    r matches Err(SendError::GaveUp { sent, of }) && sent == sending.taken() && of
        == sending.data().len()
}

// -------------------------------------------------------------------- laws

/// After a flavour was read with data, its type is found with that data and every
/// other type with what it had; a read that failed or was too big changes nothing.
pub proof fn law_a_flavour_read_is_found(
    s: Flavours,
    mime: Seq<char>,
    flavour: Flavour,
    other: Seq<char>,
)
    ensures
        flavour matches Flavour::Data(data) ==> lookup(with_flavour(s, mime, flavour), mime)
            == Some(data@),
        other != mime ==> lookup(with_flavour(s, mime, flavour), other) == lookup(s, other),
        !(flavour is Data) ==> with_flavour(s, mime, flavour) == s,
{
    if let Flavour::Data(data) = flavour {
        law_stored_is_found(s, mime, data@, other);
    }
}

/// Once an offer is read to its end, so that each announced type was either passed
/// over or read, every exposed type is found with the data of its last read that
/// gave any, and is absent when none did. The states are those between one announced
/// type and the next.
pub proof fn law_an_offer_is_read_whole(
    mimes: Seq<Seq<char>>,
    reads: Seq<Flavour>,
    states: Seq<Flavours>,
    last: int,
)
    requires
        reads.len() == mimes.len(),
        states.len() == mimes.len() + 1,
        states[0] == Flavours::empty(),
        forall|i: int|
            0 <= i < mimes.len() ==> #[trigger] states[i + 1] == if exposed(mimes[i]) {
                with_flavour(states[i], mimes[i], reads[i])
            } else {
                states[i]
            },
        0 <= last < mimes.len(),
        exposed(mimes[last]),
        forall|i: int|
            last < i < mimes.len() && mimes[i] == mimes[last] ==> !((#[trigger] reads[i]) is Data),
    ensures
        reads[last] matches Flavour::Data(data) ==> lookup(states.last(), mimes[last]) == Some(
            data@,
        ),
        (forall|i: int|
            0 <= i < mimes.len() && mimes[i] == mimes[last] ==> !((#[trigger] reads[i]) is Data))
            ==> lookup(states.last(), mimes[last]) is None,
{
    let mime = mimes[last];
    assert(states[last + 1] == with_flavour(states[last], mime, reads[last]));
    law_a_flavour_read_is_found(states[last], mime, reads[last], mime);
    lemma_kept_to_the_end(mimes, reads, states, last + 1, mime);
    if forall|i: int|
        0 <= i < mimes.len() && mimes[i] == mime ==> !((#[trigger] reads[i]) is Data) {
        lemma_kept_to_the_end(mimes, reads, states, 0, mime);
        assert(mimes_of(Flavours::empty()).len() == 0);
    }
}

proof fn lemma_kept_to_the_end(
    mimes: Seq<Seq<char>>,
    reads: Seq<Flavour>,
    states: Seq<Flavours>,
    from: int,
    mime: Seq<char>,
)
    requires
        reads.len() == mimes.len(),
        states.len() == mimes.len() + 1,
        forall|i: int|
            0 <= i < mimes.len() ==> #[trigger] states[i + 1] == if exposed(mimes[i]) {
                with_flavour(states[i], mimes[i], reads[i])
            } else {
                states[i]
            },
        0 <= from <= mimes.len(),
        forall|i: int|
            from <= i < mimes.len() && mimes[i] == mime ==> !((#[trigger] reads[i]) is Data),
    ensures
        lookup(states.last(), mime) == lookup(states[from], mime),
    decreases mimes.len() - from,
{
    if from < mimes.len() {
        lemma_kept_to_the_end(mimes, reads, states, from + 1, mime);
        assert(states[from + 1] == if exposed(mimes[from]) {
            with_flavour(states[from], mimes[from], reads[from])
        } else {
            states[from]
        });
        law_a_flavour_read_is_found(states[from], mimes[from], reads[from], mime);
        assert(mimes[from] == mime ==> !(reads[from] is Data));
    }
}

/// The types exposed to handlers are the plain-text family, HTML, the URL of a link,
/// a list of URIs and RTF.
pub proof fn law_what_is_exposed(mime: Seq<char>)
    ensures
        exposed(mime) <==> {
            ||| mime == "text/plain;charset=utf-8"@
            ||| mime == "text/plain"@
            ||| mime == "UTF8_STRING"@
            ||| mime == "STRING"@
            ||| mime == "TEXT"@
            ||| mime == "text/html"@
            ||| mime == "chromium/x-source-url"@
            ||| mime == "text/uri-list"@
            ||| mime == "text/rtf"@
        },
{
    law_the_known_types();
    let text = names(TEXT_MIMES@);
    let rich = names(RICH_MIMES@);
    assert(text[0] == "text/plain;charset=utf-8"@);
    assert(text[1] == "text/plain"@);
    assert(text[2] == "UTF8_STRING"@);
    assert(text[3] == "STRING"@);
    assert(text[4] == "TEXT"@);
    assert(rich[0] == "text/html"@);
    assert(rich[1] == "chromium/x-source-url"@);
    assert(rich[2] == "text/uri-list"@);
    assert(rich[3] == "text/rtf"@);
}

/// The type read next is the first from there on that is exposed: those passed over
/// are not, and the reading ends only where none is left.
pub proof fn law_no_exposed_type_is_passed_over(mimes: Seq<Seq<char>>, from: int)
    requires
        0 <= from <= mimes.len(),
    ensures
        from <= next_exposed(mimes, from) <= mimes.len(),
        forall|i: int| from <= i < next_exposed(mimes, from) ==> !exposed(#[trigger] mimes[i]),
        next_exposed(mimes, from) < mimes.len() ==> exposed(mimes[next_exposed(mimes, from)]),
    decreases mimes.len() - from,
{
    if from < mimes.len() && !exposed(mimes[from]) {
        law_no_exposed_type_is_passed_over(mimes, from + 1);
    }
}

/// What is left until a deadline and the time now make the deadline, until it has
/// passed; then nothing is left.
pub proof fn law_what_is_left_ends_at_the_deadline(deadline: u64, now: u64)
    ensures
        now <= deadline ==> now + remaining(deadline, now) == deadline,
        now >= deadline ==> remaining(deadline, now) == 0,
{
}

/// However many flavours an offer has, no read of one of them is waited for
/// beyond the second that the offer has in all, counted from when the reading of
/// the offer began, nor beyond the half second of a flavour, and none is given up
/// before the one or the other.
pub proof fn law_flavours_do_not_extend_the_budget(began: nat, now: nat)
    requires
        began <= now,
    ensures
        flavour_deadline(now, began + READ_BUDGET as nat) <= began + 1_000_000_000,
        flavour_deadline(now, began + READ_BUDGET as nat) <= now + 500_000_000,
        flavour_deadline(now, began + READ_BUDGET as nat) == began + 1_000_000_000
            || flavour_deadline(now, began + READ_BUDGET as nat) == now + 500_000_000,
{
}

/// What the reader has taken is the beginning of the payload, write after
/// write, so that once as many bytes as the payload has are taken it is the
/// payload.
pub proof fn law_what_is_taken_is_a_prefix(data: Seq<u8>, taken: nat, n: nat)
    requires
        taken + n <= data.len(),
    ensures
        data.take(taken as int) + data.skip(taken as int).take(n as int) == data.take(
            (taken + n) as int,
        ),
        taken == data.len() ==> data.take(taken as int) == data,
{
    assert(data.take(taken as int) + data.skip(taken as int).take(n as int) =~= data.take(
        (taken + n) as int,
    ));
    if taken == data.len() {
        assert(data.take(taken as int) =~= data);
    }
}

/// A payload that the reader did not take whole is told of by how much of it it took.
pub proof fn law_what_is_said_of_a_lazy_reader(sent: usize, of: usize)
    ensures
        SendError::Stopped.text() == "the reader stopped accepting bytes"@,
        (SendError::GaveUp { sent, of }).text() == "gave up after "@ + decimal(sent as nat)
            + " of "@ + decimal(of as nat) + " bytes"@,
{
}

/// A flavour that was read to its end is all its chunks, in order, and one that was
/// not too big has no more than 256 KiB of them.
pub proof fn law_a_flavour_is_all_its_chunks(
    reads: Seq<FlavourRead>,
    chunks: Seq<&[u8]>,
    last: &[u8],
    data: Vec<u8>,
    rest: FlavourRead,
)
    requires
        reads.len() == chunks.len() + 1,
        reads[0]@.len() == 0,
        forall|i: int|
            0 <= i < chunks.len() ==> (#[trigger] chunks[i])@.len() > 0 && call_ensures(
                FlavourRead::chunk,
                (reads[i], chunks[i]),
                (reads[i + 1], ChunkStep::More),
            ),
        call_ensures(
            FlavourRead::chunk,
            (reads.last(), last),
            (rest, ChunkStep::Complete(data)),
        ),
    ensures
        last@.len() == 0,
        data@ == chunks.map_values(|c: &[u8]| c@).flatten(),
        data@.len() <= 256 * 1024,
{
    lemma_chunks(reads, chunks, chunks.len() as int);
    assert(chunks.take(chunks.len() as int) =~= chunks);
}

proof fn lemma_chunks(reads: Seq<FlavourRead>, chunks: Seq<&[u8]>, n: int)
    requires
        reads.len() == chunks.len() + 1,
        reads[0]@.len() == 0,
        forall|i: int|
            0 <= i < chunks.len() ==> (#[trigger] chunks[i])@.len() > 0 && call_ensures(
                FlavourRead::chunk,
                (reads[i], chunks[i]),
                (reads[i + 1], ChunkStep::More),
            ),
        0 <= n <= chunks.len(),
    ensures
        reads[n]@ == chunks.take(n).map_values(|c: &[u8]| c@).flatten(),
    decreases n,
{
    let view = |c: &[u8]| c@;
    let part = chunks.take(n).map_values(view);
    if n == 0 {
        assert(part =~= Seq::empty());
        assert(reads[0]@ =~= part.flatten());
    } else {
        lemma_chunks(reads, chunks, n - 1);
        let less = chunks.take(n - 1).map_values(view);
        assert(part =~= less.push(chunks[n - 1]@));
        assert(call_ensures(
            FlavourRead::chunk,
            (reads[n - 1], chunks[n - 1]),
            (reads[n], ChunkStep::More),
        ));
        less.lemma_flatten_push(chunks[n - 1]@);
    }
}

/// A write counts by how much of the payload was taken: the sending goes on until all
/// of it is, an interrupted write is tried again, and a full pipe is waited for until
/// the deadline, after which the sending is given up.
pub proof fn law_what_a_write_comes_to(
    sending: &mut Sending,
    written: Written,
    now: u64,
    r: Result<SendStep, SendError>,
)
    requires
        call_ensures(Sending::wrote, (sending, written, now), r),
    ensures
        ({
            let before = mut_ref_current(sending);
            let after = mut_ref_future(sending);
            let size = before.data().len();
            &&& after.data() == before.data()
            &&& after.until() == before.until()
            &&& written matches Written::Bytes(n) ==> {
                &&& after.taken() == before.taken() + n
                &&& n == 0 ==> r == Err::<SendStep, SendError>(SendError::Stopped)
                &&& n > 0 ==> (r == Ok::<SendStep, SendError>(SendStep::Done) <==> after.taken()
                    == size)
                &&& n > 0 ==> (r == Ok::<SendStep, SendError>(SendStep::Write) <==> after.taken()
                    < size)
            }
            &&& !(written is Bytes) ==> after.taken() == before.taken()
            &&& written is Interrupted ==> r == Ok::<SendStep, SendError>(SendStep::Write)
            &&& written is WouldBlock && now < before.until() ==> (
            r matches Ok(SendStep::Wait(left)) && now + left == before.until())
            &&& written is WouldBlock && now >= before.until() ==> (
            r matches Err(SendError::GaveUp { sent, of }) && sent == before.taken() && of == size)
        }),
{
}

/// A sending goes on when the pipe has capacity again, and is given up when it was
/// waited for in vain.
pub proof fn law_what_a_wait_comes_to(
    sending: &Sending,
    ready: bool,
    r: Result<SendStep, SendError>,
)
    requires
        call_ensures(Sending::waited, (sending, ready), r),
    ensures
        ready ==> r == Ok::<SendStep, SendError>(SendStep::Write),
        !ready ==> (r matches Err(SendError::GaveUp { sent, of }) && sent == sending.taken() && of
            == sending.data().len()),
{
}

/// An offer that was read holds nothing but announced types that are exposed, and a
/// flavour that was read is in it with its data, beside all that was read before.
pub proof fn law_a_flavour_that_was_read_stays(
    offer: &mut OfferRead,
    data: Vec<u8>,
    r: Selection,
    other: Seq<char>,
)
    requires
        mut_ref_current(offer).reading(),
        call_ensures(OfferRead::got, (offer, Flavour::Data(data)), ()),
        call_ensures(OfferRead::finish, (mut_ref_future(offer),), r),
    ensures
        ({
            let before = mut_ref_current(offer);
            let mime = before.mimes()[before.at()];
            &&& lookup(r@, mime) == Some(data@)
            &&& other != mime ==> lookup(r@, other) == lookup(before.so_far(), other)
            &&& lookup(r@, other) is Some ==> exposed(other) && before.mimes().contains(other)
        }),
{
    let all = mimes_of(r@);
    crate::text::lemma_find(all, other);
}

/// A step goes to the first exposed type that was not dealt with, and starts to read it
/// while there is time; it ends the reading exactly where no exposed type is left, and
/// what was read so far stays.
pub proof fn law_what_a_step_comes_to(offer: &mut OfferRead, now: u64, r: ReadStep)
    requires
        call_ensures(OfferRead::step, (offer, now), r),
        0 <= mut_ref_current(offer).at() <= mut_ref_current(offer).mimes().len(),
    ensures
        ({
            let before = mut_ref_current(offer);
            let after = mut_ref_future(offer);
            let mimes = before.mimes();
            &&& after.mimes() == mimes
            &&& after.so_far() == before.so_far()
            &&& after.until() == before.until()
            &&& before.at() <= after.at() <= mimes.len()
            &&& forall|i: int| before.at() <= i < after.at() ==> !exposed(#[trigger] mimes[i])
            &&& r == ReadStep::Done <==> after.at() == mimes.len()
            &&& r != ReadStep::Done ==> exposed(mimes[after.at()])
            &&& r == ReadStep::Read ==> now < before.until() && after.reading()
            &&& r == ReadStep::OutOfTime ==> now >= before.until() && !after.reading()
        }),
{
    law_no_exposed_type_is_passed_over(
        mut_ref_current(offer).mimes(),
        mut_ref_current(offer).at(),
    );
}

/// Reading begins with nothing and at the first type, and has a second for all of it;
/// sending begins with nothing taken, and waits for two seconds at most.
pub proof fn law_where_transfers_begin(
    mimes: &[String],
    data: Vec<u8>,
    now: u64,
    offer: OfferRead,
    sending: Sending,
    rest: &[u8],
)
    requires
        call_ensures(OfferRead::new, (mimes, now), offer),
        call_ensures(Sending::new, (data, now), sending),
        call_ensures(Sending::rest, (&sending,), rest),
    ensures
        offer.mimes() == texts(mimes@),
        offer.at() == 0,
        offer.so_far() == Flavours::empty(),
        !offer.reading(),
        offer.until() == now + 1_000_000_000,
        sending.data() == data@,
        sending.taken() == 0,
        sending.until() == now + 2_000_000_000,
        rest@ == data@,
{
    assert(data@.skip(0) =~= data@);
}

/// A flavour is waited for until its deadline, and no longer.
pub proof fn law_a_flavour_is_waited_for_until_its_deadline(
    read: &FlavourRead,
    now: u64,
    r: Option<u64>,
)
    requires
        call_ensures(FlavourRead::time_left, (read, now), r),
    ensures
        r is Some <==> now < read.until(),
        r matches Some(left) ==> now + left == read.until(),
{
}

/// A flavour is too big exactly when it would come to more than 256 KiB with a further
/// chunk; an empty chunk ends it, and any other is taken in.
pub proof fn law_only_too_much_is_too_big(
    read: FlavourRead,
    bytes: &[u8],
    r: (FlavourRead, ChunkStep),
)
    requires
        call_ensures(FlavourRead::chunk, (read, bytes), r),
    ensures
        r.1 is Complete <==> bytes@.len() == 0,
        r.1 is TooBig <==> bytes@.len() > 0 && read@.len() + bytes@.len() > 256 * 1024,
        r.1 is More <==> bytes@.len() > 0 && read@.len() + bytes@.len() <= 256 * 1024,
        r.1 is More ==> r.0@ == read@ + bytes@,
        r.0.until() == read.until(),
{
}

} // verus!
