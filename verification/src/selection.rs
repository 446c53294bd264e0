//! Clipboard payloads stored as bytes by MIME type.

use vstd::prelude::*;
use vstd::relations::{sorted_by, total_ordering};
use vstd::seq_lib::*;
use vstd::utf8::*;

use crate::text::{
    bytes_less, decimal, find, fitting, fitting_chars, from_utf8, law_a_proper_prefix_comes_first,
    law_as_much_as_fits, law_the_first_difference_decides, lemma_encoding_is_injective, lemma_find,
    lemma_find_is, lemma_lex_irreflexive, lemma_lex_total, lemma_lex_transitive, lex_less,
    name_index, names, push_decimal, push_text, same_text,
};

verus! {

broadcast use vstd::string::group_string_axioms;

/// Private MIME marking our output. Checked before reading to avoid self-rewrites.
pub const MARKER_MIME: &'static str = "application/x-clipmunge";

pub const TEXT_MIMES: [&'static str; 5] = [
    "text/plain;charset=utf-8",
    "text/plain",
    "UTF8_STRING",
    "STRING",
    "TEXT",
];

pub const HTML_MIME: &'static str = "text/html";

pub const URL_MIME: &'static str = "chromium/x-source-url";

/// Offers advertising these MIME types are skipped before reading.
/// Source applications may omit the hint even for secrets.
pub const SECRET_MIMES: [&'static str; 1] = ["x-kde-passwordManagerHint"];

/// Rich types used by `is_plain_only` and read from the clipboard.
pub const RICH_MIMES: [&'static str; 4] = [HTML_MIME, URL_MIME, "text/uri-list", "text/rtf"];

/// The longest payload preview, in bytes, that `dump` shows.
pub const MAX_PREVIEW: usize = 512;

/// What a selection holds: MIME types with their payloads, in advertised order.
pub type Flavours = Seq<(Seq<char>, Seq<u8>)>;

/// The advertised MIME types, in order.
pub open spec fn mimes_of(s: Flavours) -> Seq<Seq<char>> {
    s.map_values(|f: (Seq<char>, Seq<u8>)| f.0)
}

/// No MIME type is advertised twice.
pub open spec fn unique(s: Flavours) -> bool {
    mimes_of(s).no_duplicates()
}

/// The payload under a MIME type.
pub open spec fn lookup(s: Flavours, mime: Seq<char>) -> Option<Seq<u8>> {
    if find(mimes_of(s), mime) < s.len() {
        Some(s[find(mimes_of(s), mime)].1)
    } else {
        None
    }
}

/// A payload stored under a MIME type: in its place when the type is there
/// already, at the end otherwise.
pub open spec fn stored(s: Flavours, mime: Seq<char>, data: Seq<u8>) -> Flavours {
    if find(mimes_of(s), mime) < s.len() {
        s.update(find(mimes_of(s), mime), (mime, data))
    } else {
        s.push((mime, data))
    }
}

/// The same payload stored under each of the given names in turn.
pub open spec fn stored_under(s: Flavours, list: Seq<Seq<char>>, data: Seq<u8>) -> Flavours
    decreases list.len(),
{
    if list.len() == 0 {
        s
    } else {
        stored(stored_under(s, list.drop_last(), data), list.last(), data)
    }
}

/// The plain-text family set to one text.
pub open spec fn with_text(s: Flavours, text: Seq<char>) -> Flavours {
    stored_under(s, names(TEXT_MIMES@), encode_utf8(text))
}

/// The payload of the first of the given names that is present.
pub open spec fn first_present(s: Flavours, list: Seq<Seq<char>>) -> Option<Seq<u8>>
    decreases list.len(),
{
    if list.len() == 0 {
        None
    } else if lookup(s, list[0]) is Some {
        lookup(s, list[0])
    } else {
        first_present(s, list.drop_first())
    }
}

/// The plain text: the first payload of the plain-text family that is present,
/// if it is UTF-8.
pub open spec fn text_of(s: Flavours) -> Option<Seq<char>> {
    match first_present(s, names(TEXT_MIMES@)) {
        Some(bytes) => if valid_utf8(bytes) {
            Some(decode_utf8(bytes))
        } else {
            None
        },
        None => None,
    }
}

/// No rich MIME type is present.
pub open spec fn plain_only(s: Flavours) -> bool {
    forall|i: int| 0 <= i < s.len() ==> !names(RICH_MIMES@).contains(#[trigger] s[i].0)
}

/// Where a MIME type belongs: text first, then the rich types, then the rest.
pub open spec fn rank(mime: Seq<char>) -> int {
    if find(names(TEXT_MIMES@), mime) < TEXT_MIMES@.len() {
        find(names(TEXT_MIMES@), mime)
    } else {
        TEXT_MIMES@.len() + find(names(RICH_MIMES@), mime)
    }
}

/// Whether a MIME type is advertised before another: by rank, then by name.
pub open spec fn before(a: Seq<char>, b: Seq<char>) -> bool {
    rank(a) < rank(b) || (rank(a) == rank(b) && lex_less(encode_utf8(a), encode_utf8(b)))
}

/// The advertised order is the canonical one.
pub open spec fn in_order(s: Flavours) -> bool {
    forall|i: int, j: int| 0 <= i < j < s.len() ==> before((#[trigger] s[i]).0, (#[trigger] s[j]).0)
}

/// A total order on flavours that agrees with the canonical order of their
/// MIME types.
pub open spec fn ordered(a: (Seq<char>, Seq<u8>), b: (Seq<char>, Seq<u8>)) -> bool {
    before(a.0, b.0) || (a.0 == b.0 && (a.1 == b.1 || lex_less(a.1, b.1)))
}

/// The same flavours in canonical order.
pub open spec fn canonical(s: Flavours) -> Flavours {
    s.sort_by(|a: (Seq<char>, Seq<u8>), b: (Seq<char>, Seq<u8>)| ordered(a, b))
}

/// The flavours of a list of owned pairs.
pub open spec fn flavours_of(list: Seq<(String, Vec<u8>)>) -> Flavours {
    list.map_values(|f: (String, Vec<u8>)| (f.0@, f.1@))
}

/// An ordered list of clipboard flavours. Some clients use the first supported type.
pub struct Selection {
    flavours: Vec<(String, Vec<u8>)>,
}

impl View for Selection {
    type V = Flavours;

    closed spec fn view(&self) -> Flavours {
        flavours_of(self.flavours@)
    }
}

impl Default for Selection {
    fn default() -> (r: Self)
        ensures
            r@ == Flavours::empty(),
    {
        Selection::new()
    }
}

impl Clone for Selection {
    fn clone(&self) -> (r: Self)
        ensures
            r@ == self@,
    {
        proof {
            use_type_invariant(self);
        }
        let mut out: Vec<(String, Vec<u8>)> = Vec::new();
        let mut i: usize = 0;
        while i < self.flavours.len()
            invariant
                i <= self.flavours.len(),
                flavours_of(out@) == self@.take(i as int),
            decreases self.flavours.len() - i,
        {
            let ghost old_out = flavours_of(out@);
            let mime = self.flavours[i].0.clone();
            let data = self.flavours[i].1.clone();
            assert(data@ =~= self.flavours@[i as int].1@);
            out.push((mime, data));
            assert(flavours_of(out@) =~= old_out.push(self@[i as int]));
            assert(self@.take(i + 1) =~= old_out.push(self@[i as int]));
            i += 1;
        }
        assert(self@.take(self@.len() as int) =~= self@);
        Selection { flavours: out }
    }
}

impl Selection {
    #[verifier::type_invariant]
    spec fn advertises_each_type_once(self) -> bool {
        unique(flavours_of(self.flavours@))
    }

    pub fn new() -> (r: Self)
        ensures
            r@ == Flavours::empty(),
    {
        let flavours: Vec<(String, Vec<u8>)> = Vec::new();
        assert(flavours_of(flavours@) =~= Flavours::empty());
        assert(mimes_of(flavours_of(flavours@)).len() == 0);
        Selection { flavours }
    }

    /// The index of a MIME type, or the number of flavours.
    fn index(&self, mime: &str) -> (r: usize)
        ensures
            r == find(mimes_of(self@), mime@),
            r <= self.flavours@.len(),
    {
        let ghost all = mimes_of(self@);
        let mut i: usize = 0;
        while i < self.flavours.len()
            invariant
                i <= self.flavours.len(),
                all == mimes_of(self@),
                forall|j: int| 0 <= j < i ==> all[j] != mime@,
            decreases self.flavours.len() - i,
        {
            if same_text(self.flavours[i].0.as_str(), mime) {
                proof {
                    assert(all[i as int] == mime@);
                    crate::text::lemma_find_is(all, mime@, i as int);
                }
                return i;
            }
            assert(all[i as int] != mime@);
            i += 1;
        }
        proof {
            crate::text::lemma_find_is(all, mime@, i as int);
        }
        i
    }

    /// Store a payload, replacing one under the same MIME type.
    pub fn set(&mut self, mime: String, data: Vec<u8>) -> (r: &mut Self)
        ensures
            r@ == stored(old(self)@, mime@, data@),
            *final(self) == *final(r),
    {
        proof {
            use_type_invariant(&*self);
        }
        let i = self.index(mime.as_str());
        let ghost was = self@;
        let mut flavours: Vec<(String, Vec<u8>)> = Vec::new();
        assert(mimes_of(flavours_of(flavours@)).len() == 0);
        core::mem::swap(&mut self.flavours, &mut flavours);
        let ghost now = stored(was, mime@, data@);
        if i < flavours.len() {
            flavours.set(i, (mime, data));
            assert(flavours_of(flavours@) =~= now);
        } else {
            flavours.push((mime, data));
            assert(flavours_of(flavours@) =~= now);
        }
        proof {
            lemma_stored_unique(was, mime@, data@);
        }
        self.flavours = flavours;
        self
    }

    /// Same bytes under several names, for the text/plain family.
    pub fn set_text(&mut self, text: &str) -> (r: &mut Self)
        ensures
            r@ == with_text(old(self)@, text@),
            *final(self) == *final(r),
    {
        let ghost was = self@;
        let ghost all = names(TEXT_MIMES@);
        let list = TEXT_MIMES.as_slice();
        let mut i: usize = 0;
        while i < list.len()
            invariant
                i <= list.len(),
                all == names(list@),
                self@ == stored_under(was, all.take(i as int), encode_utf8(text@)),
            decreases list.len() - i,
        {
            self.set(list[i].to_string(), text.as_bytes_vec());
            assert(all.take(i + 1).drop_last() =~= all.take(i as int));
            assert(all.take(i + 1).last() == list@[i as int]@);
            i += 1;
        }
        assert(all.take(all.len() as int) =~= all);
        self
    }

    pub fn get(&self, mime: &str) -> (r: Option<&[u8]>)
        ensures
            match r {
                Some(data) => lookup(self@, mime@) == Some(data@),
                None => lookup(self@, mime@) is None,
            },
    {
        let i = self.index(mime);
        if i < self.flavours.len() {
            Some(self.flavours[i].1.as_slice())
        } else {
            None
        }
    }

    /// Whether a flavour arrived at all, without copying its bytes out.
    pub fn has(&self, mime: &str) -> (r: bool)
        ensures
            r == mimes_of(self@).contains(mime@),
    {
        proof {
            lemma_find(mimes_of(self@), mime@);
        }
        self.index(mime) < self.flavours.len()
    }

    /// The advertised MIME types, in order.
    pub fn mimes(&self) -> (r: Vec<&str>)
        ensures
            r@.map_values(|m: &str| m@) == mimes_of(self@),
    {
        let mut out: Vec<&str> = Vec::new();
        let mut i: usize = 0;
        while i < self.flavours.len()
            invariant
                i <= self.flavours.len(),
                out@.len() == i,
                forall|j: int| 0 <= j < i ==> (#[trigger] out@[j])@ == self@[j].0,
            decreases self.flavours.len() - i,
        {
            out.push(self.flavours[i].0.as_str());
            i += 1;
        }
        assert(out@.map_values(|m: &str| m@) =~= mimes_of(self@));
        out
    }

    /// The flavours, in advertised order.
    pub fn iter(&self) -> (r: Vec<(&str, &[u8])>)
        ensures
            r@.map_values(|f: (&str, &[u8])| (f.0@, f.1@)) == self@,
    {
        let mut out: Vec<(&str, &[u8])> = Vec::new();
        let mut i: usize = 0;
        while i < self.flavours.len()
            invariant
                i <= self.flavours.len(),
                out@.len() == i,
                forall|j: int|
                    0 <= j < i ==> ((#[trigger] out@[j]).0@, out@[j].1@) == self@[j],
            decreases self.flavours.len() - i,
        {
            out.push((self.flavours[i].0.as_str(), self.flavours[i].1.as_slice()));
            i += 1;
        }
        assert(out@.map_values(|f: (&str, &[u8])| (f.0@, f.1@)) =~= self@);
        out
    }

    pub fn is_empty(&self) -> (r: bool)
        ensures
            r == (self@.len() == 0),
    {
        self.flavours.is_empty()
    }

    /// Decode the first present TEXT_MIMES entry as UTF-8.
    /// An invalid payload returns None without trying lower-priority entries.
    pub fn text(&self) -> (r: Option<&str>)
        ensures
            match r {
                Some(t) => text_of(self@) == Some(t@),
                None => text_of(self@) is None,
            },
    {
        let ghost all = names(TEXT_MIMES@);
        let list = TEXT_MIMES.as_slice();
        let mut i: usize = 0;
        assert(all.skip(0) =~= all);
        while i < list.len()
            invariant
                i <= list.len(),
                all == names(TEXT_MIMES@),
                all == names(list@),
                first_present(self@, all) == first_present(self@, all.skip(i as int)),
            decreases list.len() - i,
        {
            assert(all.skip(i as int)[0] == list@[i as int]@);
            if let Some(data) = self.get(list[i]) {
                return from_utf8(data);
            }
            assert(all.skip(i as int).drop_first() =~= all.skip(i + 1));
            i += 1;
        }
        None
    }

    /// True when no rich MIME type is present.
    pub fn is_plain_only(&self) -> (r: bool)
        ensures
            r == plain_only(self@),
    {
        let mut i: usize = 0;
        while i < self.flavours.len()
            invariant
                i <= self.flavours.len(),
                forall|j: int|
                    0 <= j < i ==> !names(RICH_MIMES@).contains(#[trigger] self@[j].0),
            decreases self.flavours.len() - i,
        {
            if name_index(self.flavours[i].0.as_str(), RICH_MIMES.as_slice()) < RICH_MIMES.len() {
                assert(names(RICH_MIMES@).contains(self@[i as int].0));
                return false;
            }
            i += 1;
        }
        true
    }

    /// Advertise text first, then RICH_MIMES order, then other types by name.
    /// Lua table iteration order varies between runs; some clients paste the
    /// first supported type.
    pub fn canonical_order(&mut self) -> (r: &mut Self)
        ensures
            r@ == canonical(old(self)@),
            in_order(r@),
            r@.to_multiset() == old(self)@.to_multiset(),
            *final(self) == *final(r),
    {
        proof {
            use_type_invariant(&*self);
        }
        let ghost was = self@;
        let mut rest: Vec<(String, Vec<u8>)> = Vec::new();
        assert(mimes_of(flavours_of(rest@)).len() == 0);
        core::mem::swap(&mut self.flavours, &mut rest);
        let mut sorted: Vec<(String, Vec<u8>)> = Vec::new();
        assert(flavours_of(sorted@) =~= Flavours::empty());
        assert(was.take(was.len() as int) =~= was);
        assert(was.skip(was.len() as int) =~= Flavours::empty());
        while rest.len() > 0
            invariant
                flavours_of(rest@) == was.take(rest@.len() as int),
                rest@.len() <= was.len(),
                unique(was),
                in_order(flavours_of(sorted@)),
                flavours_of(sorted@).to_multiset() == was.skip(rest@.len() as int).to_multiset(),
            decreases rest.len(),
        {
            let ghost k = rest@.len() - 1;
            let ghost done = flavours_of(sorted@);
            proof {
                lemma_member_of_tail(was, k + 1, done);
            }
            if let Some(flavour) = rest.pop() {
                let ghost x = was[k];
                assert((flavour.0@, flavour.1@) == x) by {
                    assert(was.take(k + 1)[k] == x);
                }
                let mut at: usize = 0;
                while at < sorted.len() && precedes(sorted[at].0.as_str(), flavour.0.as_str())
                    invariant
                        at <= sorted.len(),
                        forall|j: int| 0 <= j < at ==> before((#[trigger] done[j]).0, flavour.0@),
                        done == flavours_of(sorted@),
                    decreases sorted.len() - at,
                {
                    at += 1;
                }
                proof {
                    lemma_insert_in_order(done, at as int, x);
                    assert(was.skip(k) =~= seq![x] + was.skip(k + 1));
                    assert(was.skip(k) =~= was.skip(k + 1).insert(0, x));
                    to_multiset_insert(was.skip(k + 1), 0, x);
                    to_multiset_insert(done, at as int, x);
                }
                sorted.insert(at, flavour);
                assert(flavours_of(sorted@) =~= done.insert(at as int, x));
                assert(flavours_of(rest@) =~= was.take(k));
            }
        }
        assert(was.skip(0) =~= was);
        proof {
            lemma_in_order_is_unique(flavours_of(sorted@));
            law_canonical_order_keeps_the_contents(was);
            law_order_depends_on_contents_alone(flavours_of(sorted@), canonical(was));
        }
        self.flavours = sorted;
        self
    }

    /// A summary for diagnostics: MIME types and sizes, never contents.
    pub fn describe(&self) -> (r: String)
        ensures
            r@ == described(self@),
    {
        if self.flavours.len() == 0 {
            return "Selection".to_string();
        }
        let mut out = "Selection { ".to_string();
        let mut i: usize = 0;
        while i < self.flavours.len()
            invariant
                i <= self.flavours.len(),
                out@ == "Selection { "@ + listing(self@.take(i as int)),
            decreases self.flavours.len() - i,
        {
            let ghost shown = out@;
            if i > 0 {
                push_text(&mut out, ", ");
            }
            push_text(&mut out, self.flavours[i].0.as_str());
            push_text(&mut out, ": ");
            push_decimal(&mut out, self.flavours[i].1.len());
            push_text(&mut out, " bytes");
            proof {
                let part = self@.take(i + 1);
                assert(part.drop_last() =~= self@.take(i as int));
                assert(part.last() == self@[i as int]);
                assert(out@ =~= "Selection { "@ + listing(part));
            }
            i += 1;
        }
        assert(self@.take(self@.len() as int) =~= self@);
        push_text(&mut out, " }");
        out
    }
}

/// Whether a MIME type is advertised before another.
fn precedes(a: &str, b: &str) -> (r: bool)
    ensures
        r == before(a@, b@),
{
    let x = position(a);
    let y = position(b);
    x < y || (x == y && bytes_less(a.as_bytes(), b.as_bytes()))
}

/// Where a MIME type belongs.
fn position(mime: &str) -> (r: usize)
    ensures
        r == rank(mime@),
{
    let i = name_index(mime, TEXT_MIMES.as_slice());
    if i < TEXT_MIMES.len() {
        i
    } else {
        TEXT_MIMES.len() + name_index(mime, RICH_MIMES.as_slice())
    }
}

/// One flavour of a summary.
pub open spec fn listed(f: (Seq<char>, Seq<u8>)) -> Seq<char> {
    f.0 + ": "@ + decimal(f.1.len()) + " bytes"@
}

pub open spec fn listing(s: Flavours) -> Seq<char>
    decreases s.len(),
{
    if s.len() == 0 {
        Seq::empty()
    } else if s.len() == 1 {
        listed(s[0])
    } else {
        listing(s.drop_last()) + ", "@ + listed(s.last())
    }
}

/// The summary of a selection.
pub open spec fn described(s: Flavours) -> Seq<char> {
    if s.len() == 0 {
        "Selection"@
    } else {
        "Selection { "@ + listing(s) + " }"@
    }
}

proof fn lemma_stored_unique(s: Flavours, mime: Seq<char>, data: Seq<u8>)
    requires
        unique(s),
    ensures
        unique(stored(s, mime, data)),
{
    let all = mimes_of(s);
    lemma_find(all, mime);
    let k = find(all, mime);
    let now = mimes_of(stored(s, mime, data));
    if k < s.len() {
        assert(now =~= all);
    } else {
        assert(now =~= all.push(mime));
        assert forall|i: int, j: int| 0 <= i < j < now.len() implies now[i] != now[j] by {
            if j == all.len() {
                assert(all[i] != mime);
            }
        }
    }
}

proof fn lemma_before_transitive(a: Seq<char>, b: Seq<char>, c: Seq<char>)
    requires
        before(a, b),
        before(b, c),
    ensures
        before(a, c),
{
    if rank(a) == rank(b) && rank(b) == rank(c) {
        lemma_lex_transitive(encode_utf8(a), encode_utf8(b), encode_utf8(c));
    }
}

proof fn lemma_before_total(a: Seq<char>, b: Seq<char>)
    ensures
        a == b || before(a, b) || before(b, a),
        !before(a, a),
{
    lemma_lex_total(encode_utf8(a), encode_utf8(b));
    lemma_lex_irreflexive(encode_utf8(a));
    if encode_utf8(a) == encode_utf8(b) {
        lemma_encoding_is_injective(a, b);
    }
}

proof fn lemma_in_order_is_unique(s: Flavours)
    requires
        in_order(s),
    ensures
        unique(s),
{
    let all = mimes_of(s);
    assert forall|i: int, j: int| 0 <= i < j < all.len() implies all[i] != all[j] by {
        assert(before(s[i].0, s[j].0));
        lemma_before_total(s[i].0, s[i].0);
    }
}

/// Members of a sequence with the contents of a tail of a selection carry
/// other MIME types than the flavour just before that tail.
proof fn lemma_member_of_tail(was: Flavours, from: int, done: Flavours)
    requires
        unique(was),
        0 < from <= was.len(),
        done.to_multiset() == was.skip(from).to_multiset(),
    ensures
        forall|j: int| 0 <= j < done.len() ==> (#[trigger] done[j]).0 != was[from - 1].0,
{
    assert forall|j: int| 0 <= j < done.len() implies (#[trigger] done[j]).0 != was[from - 1].0 by {
        to_multiset_contains(done, done[j]);
        to_multiset_contains(was.skip(from), done[j]);
        assert(done.contains(done[j]));
        let i = choose|i: int| 0 <= i < was.skip(from).len() && was.skip(from)[i] == done[j];
        assert(mimes_of(was)[i + from] == done[j].0);
        assert(mimes_of(was)[from - 1] == was[from - 1].0);
    }
}

proof fn lemma_insert_in_order(s: Flavours, at: int, x: (Seq<char>, Seq<u8>))
    requires
        in_order(s),
        0 <= at <= s.len(),
        forall|j: int| 0 <= j < s.len() ==> (#[trigger] s[j]).0 != x.0,
        forall|j: int| 0 <= j < at ==> before((#[trigger] s[j]).0, x.0),
        at < s.len() ==> !before(s[at].0, x.0),
    ensures
        in_order(s.insert(at, x)),
{
    let t = s.insert(at, x);
    if at < s.len() {
        lemma_before_total(s[at].0, x.0);
    }
    assert forall|i: int, j: int| 0 <= i < j < t.len() implies before(
        (#[trigger] t[i]).0,
        (#[trigger] t[j]).0,
    ) by {
        if i < at && j < at {
            assert(before(s[i].0, s[j].0));
        } else if i < at && j == at {
            assert(before(s[i].0, x.0));
        } else if i < at {
            assert(before(s[i].0, s[j - 1].0));
        } else if i == at {
            assert(before(x.0, s[at].0));
            if j - 1 > at {
                assert(before(s[at].0, s[j - 1].0));
                lemma_before_transitive(x.0, s[at].0, s[j - 1].0);
            }
        } else {
            assert(before(s[i - 1].0, s[j - 1].0));
        }
    }
}


// ---------------------------------------------------------------- previews

/// A payload preview shows line breaks as `\n`.
pub open spec fn shown_char(c: char) -> Seq<char> {
    if c == '\n' {
        "\\n"@
    } else {
        seq![c]
    }
}

pub open spec fn one_line(s: Seq<char>) -> Seq<char> {
    s.flat_map(|c: char| shown_char(c))
}

/// The preview of a payload: its text, cut to what fits into `MAX_PREVIEW`
/// bytes and then followed by the full size, or only its size when it is not
/// UTF-8.
pub open spec fn preview(data: Seq<u8>) -> Seq<char> {
    if !valid_utf8(data) {
        "<"@ + decimal(data.len()) + " bytes, not utf-8>"@
    } else {
        let t = decode_utf8(data);
        if data.len() <= MAX_PREVIEW {
            one_line(t)
        } else {
            one_line(t.take(fitting(t, MAX_PREVIEW as nat) as int)) + "\u{2026} ("@ + decimal(
                data.len(),
            ) + " bytes total)"@
        }
    }
}

/// The content dump: one line for each flavour.
pub open spec fn dumped(s: Flavours) -> Seq<char>
    decreases s.len(),
{
    if s.len() == 0 {
        Seq::empty()
    } else {
        dumped(s.drop_last()) + "\n      "@ + s.last().0 + ": "@ + preview(s.last().1)
    }
}

/// Content formatter for `--debug`. `Selection::describe` shows only sizes.
pub fn dump(sel: &Selection) -> (r: String)
    ensures
        r@ == dumped(sel@),
{
    let mut out = String::new();
    let mut i: usize = 0;
    while i < sel.flavours.len()
        invariant
            i <= sel.flavours.len(),
            out@ == dumped(sel@.take(i as int)),
        decreases sel.flavours.len() - i,
    {
        let ghost shown = out@;
        push_text(&mut out, "\n      ");
        push_text(&mut out, sel.flavours[i].0.as_str());
        push_text(&mut out, ": ");
        push_preview(&mut out, sel.flavours[i].1.as_slice());
        proof {
            let part = sel@.take(i + 1);
            assert(part.drop_last() =~= sel@.take(i as int));
            assert(part.last() == sel@[i as int]);
            assert(out@ =~= dumped(part));
        }
        i += 1;
    }
    assert(sel@.take(sel@.len() as int) =~= sel@);
    out
}

fn push_preview(out: &mut String, data: &[u8])
    ensures
        final(out)@ == old(out)@ + preview(data@),
{
    match from_utf8(data) {
        Some(text) => {
            if data.len() <= MAX_PREVIEW {
                let chars = crate::text::chars_of(text);
                push_one_line(out, chars.as_slice());
            } else {
                let chars = fitting_chars(text, MAX_PREVIEW);
                push_one_line(out, chars.as_slice());
                push_text(out, "\u{2026} (");
                push_decimal(out, data.len());
                push_text(out, " bytes total)");
            }
        },
        None => {
            push_text(out, "<");
            push_decimal(out, data.len());
            push_text(out, " bytes, not utf-8>");
        },
    }
    assert(out@ =~= old(out)@ + preview(data@));
}

fn push_one_line(out: &mut String, chars: &[char])
    ensures
        final(out)@ == old(out)@ + one_line(chars@),
{
    let ghost shown = |c: char| shown_char(c);
    let ghost was = out@;
    let mut i: usize = 0;
    assert(chars@.take(0) =~= Seq::empty());
    assert(chars@.take(0).flat_map(shown) =~= Seq::empty());
    while i < chars.len()
        invariant
            i <= chars.len(),
            shown == (|c: char| shown_char(c)),
            out@ == was + chars@.take(i as int).flat_map(shown),
        decreases chars.len() - i,
    {
        let ghost now = out@;
        if chars[i] == '\n' {
            push_text(out, "\\n");
        } else {
            out.push(chars[i]);
        }
        proof {
            chars@.lemma_flat_map_take_append(shown, i as int);
            assert(out@ =~= now + shown_char(chars@[i as int]));
            assert(out@ =~= was + chars@.take(i + 1).flat_map(shown));
        }
        i += 1;
    }
    assert(chars@.take(chars@.len() as int) =~= chars@);
}

// ---------------------------------------------------------------- laws

/// What was stored under a MIME type is what is found there, and storing it
/// disturbs no other MIME type.
pub proof fn law_stored_is_found(s: Flavours, mime: Seq<char>, data: Seq<u8>, other: Seq<char>)
    ensures
        lookup(stored(s, mime, data), mime) == Some(data),
        other != mime ==> lookup(stored(s, mime, data), other) == lookup(s, other),
{
    let t = stored(s, mime, data);
    let before = mimes_of(s);
    let after = mimes_of(t);
    lemma_find(before, mime);
    lemma_find(before, other);
    let k = find(before, mime);
    if k < s.len() {
        assert(after =~= before);
    } else {
        assert(after =~= before.push(mime));
        crate::text::lemma_find_is(after, mime, s.len() as int);
        if other != mime {
            let i = find(before, other);
            if i < s.len() {
                crate::text::lemma_find_is(after, other, i);
            } else {
                crate::text::lemma_find_is(after, other, after.len() as int);
            }
        }
    }
}

/// Storing a payload leaves the advertised MIME types and their order as they
/// are, but for a new type, which comes last; each type stays advertised once.
pub proof fn law_storing_keeps_the_order(s: Flavours, mime: Seq<char>, data: Seq<u8>)
    ensures
        mimes_of(s).contains(mime) ==> mimes_of(stored(s, mime, data)) == mimes_of(s),
        !mimes_of(s).contains(mime) ==> mimes_of(stored(s, mime, data)) == mimes_of(s).push(mime),
        unique(s) ==> unique(stored(s, mime, data)),
{
    lemma_find(mimes_of(s), mime);
    if unique(s) {
        lemma_stored_unique(s, mime, data);
    }
    let now = mimes_of(stored(s, mime, data));
    if mimes_of(s).contains(mime) {
        assert(now =~= mimes_of(s));
    } else {
        assert(now =~= mimes_of(s).push(mime));
    }
}

proof fn lemma_stored_under(s: Flavours, list: Seq<Seq<char>>, data: Seq<u8>, mime: Seq<char>)
    ensures
        list.contains(mime) ==> lookup(stored_under(s, list, data), mime) == Some(data),
        !list.contains(mime) ==> lookup(stored_under(s, list, data), mime) == lookup(s, mime),
    decreases list.len(),
{
    if list.len() > 0 {
        let rest = list.drop_last();
        lemma_stored_under(s, rest, data, mime);
        law_stored_is_found(stored_under(s, rest, data), list.last(), data, mime);
        if list.contains(mime) && mime != list.last() {
            let i = choose|i: int| 0 <= i < list.len() && list[i] == mime;
            assert(rest[i] == mime);
        }
        if rest.contains(mime) {
            let i = choose|i: int| 0 <= i < rest.len() && rest[i] == mime;
            assert(list[i] == mime);
        }
        assert(list[list.len() - 1] == list.last());
    }
}

/// The text that was set is the text that is read back, whatever was there
/// before, under every name of the plain-text family, and no other flavour is
/// touched.
pub proof fn law_text_set_is_read_back(s: Flavours, text: Seq<char>, other: Seq<char>)
    ensures
        text_of(with_text(s, text)) == Some(text),
        names(TEXT_MIMES@).contains(other) ==> lookup(with_text(s, text), other) == Some(
            encode_utf8(text),
        ),
        !names(TEXT_MIMES@).contains(other) ==> lookup(with_text(s, text), other) == lookup(
            s,
            other,
        ),
        unique(s) ==> unique(with_text(s, text)),
{
    let all = names(TEXT_MIMES@);
    let data = encode_utf8(text);
    assert(all[0] == TEXT_MIMES@[0]@);
    assert(all.contains(all[0]));
    lemma_stored_under(s, all, data, all[0]);
    lemma_stored_under(s, all, data, other);
    encode_utf8_valid_utf8(text);
    encode_utf8_decode_utf8(text);
    if unique(s) {
        lemma_stored_under_unique(s, all, data);
    }
}

proof fn lemma_stored_under_unique(s: Flavours, list: Seq<Seq<char>>, data: Seq<u8>)
    requires
        unique(s),
    ensures
        unique(stored_under(s, list, data)),
    decreases list.len(),
{
    if list.len() > 0 {
        lemma_stored_under_unique(s, list.drop_last(), data);
        lemma_stored_unique(stored_under(s, list.drop_last(), data), list.last(), data);
    }
}

/// A payload of the plain-text family that is not UTF-8 hides those of lower
/// priority: there is then no text at all.
pub proof fn law_invalid_text_is_not_passed_over(s: Flavours, i: int)
    requires
        0 <= i < TEXT_MIMES@.len(),
        forall|j: int| 0 <= j < i ==> lookup(s, #[trigger] names(TEXT_MIMES@)[j]) is None,
        lookup(s, names(TEXT_MIMES@)[i]) matches Some(data) && !valid_utf8(data),
    ensures
        text_of(s) is None,
{
    lemma_first_present(s, names(TEXT_MIMES@), i);
}

proof fn lemma_first_present(s: Flavours, list: Seq<Seq<char>>, i: int)
    requires
        0 <= i < list.len(),
        forall|j: int| 0 <= j < i ==> lookup(s, #[trigger] list[j]) is None,
        lookup(s, list[i]) is Some,
    ensures
        first_present(s, list) == lookup(s, list[i]),
    decreases i,
{
    if i > 0 {
        assert(lookup(s, list[0]) is None);
        let rest = list.drop_first();
        assert forall|j: int| 0 <= j < i - 1 implies lookup(s, #[trigger] rest[j]) is None by {
            assert(rest[j] == list[j + 1]);
        }
        assert(rest[i - 1] == list[i]);
        lemma_first_present(s, rest, i - 1);
    }
}

proof fn lemma_ordered_is_total()
    ensures
        total_ordering(|a: (Seq<char>, Seq<u8>), b: (Seq<char>, Seq<u8>)| ordered(a, b)),
{
    let leq = |a: (Seq<char>, Seq<u8>), b: (Seq<char>, Seq<u8>)| ordered(a, b);
    assert forall|x, y| #[trigger] leq(x, y) && #[trigger] leq(y, x) implies x == y by {
        lemma_before_total(x.0, y.0);
        lemma_before_total(y.0, x.0);
        if before(x.0, y.0) && before(y.0, x.0) {
            lemma_before_transitive(x.0, y.0, x.0);
        }
        if lex_less(x.1, y.1) && lex_less(y.1, x.1) {
            lemma_lex_transitive(x.1, y.1, x.1);
        }
        lemma_lex_irreflexive(x.1);
    }
    assert forall|x, y, z| #[trigger] leq(x, y) && #[trigger] leq(y, z) implies leq(x, z) by {
        if before(x.0, y.0) && before(y.0, z.0) {
            lemma_before_transitive(x.0, y.0, z.0);
        }
        if lex_less(x.1, y.1) && lex_less(y.1, z.1) {
            lemma_lex_transitive(x.1, y.1, z.1);
        }
    }
    assert forall|x, y| #[trigger] leq(x, y) || #[trigger] leq(y, x) by {
        lemma_before_total(x.0, y.0);
        lemma_lex_total(x.1, y.1);
    }
}

/// Putting a selection in canonical order keeps its flavours, no more and no
/// fewer.
pub proof fn law_canonical_order_keeps_the_contents(s: Flavours)
    requires
        unique(s),
    ensures
        in_order(canonical(s)),
        canonical(s).to_multiset() == s.to_multiset(),
{
    let leq = |a: (Seq<char>, Seq<u8>), b: (Seq<char>, Seq<u8>)| ordered(a, b);
    let t = canonical(s);
    lemma_ordered_is_total();
    s.lemma_sort_by_ensures(leq);
    lemma_same_mimes(s, t);
    assert forall|i: int, j: int| 0 <= i < j < t.len() implies before(
        (#[trigger] t[i]).0,
        (#[trigger] t[j]).0,
    ) by {
        assert(leq(t[i], t[j]));
        assert(mimes_of(t)[i] != mimes_of(t)[j]);
    }
}

/// A rearrangement of a selection has no MIME type twice either.
proof fn lemma_same_mimes(s: Flavours, t: Flavours)
    requires
        unique(s),
        s.to_multiset() == t.to_multiset(),
    ensures
        unique(t),
{
    let all = mimes_of(t);
    assert forall|i: int, j: int| 0 <= i < j < all.len() implies all[i] != all[j] by {
        to_multiset_contains(t, t[i]);
        to_multiset_contains(s, t[i]);
        to_multiset_contains(t, t[j]);
        to_multiset_contains(s, t[j]);
        assert(t.contains(t[i]) && t.contains(t[j]));
        assert(s.contains(t[i]) && s.contains(t[j]));
        let x = choose|x: int| 0 <= x < s.len() && s[x] == t[i];
        let y = choose|y: int| 0 <= y < s.len() && s[y] == t[j];
        if all[i] == all[j] {
            assert(mimes_of(s)[x] == mimes_of(s)[y]);
            assert(x == y);
            lemma_once(s, x);
            lemma_twice(t, i, j);
        }
    }
}

proof fn lemma_once(s: Flavours, x: int)
    requires
        unique(s),
        0 <= x < s.len(),
    ensures
        s.to_multiset().count(s[x]) == 1,
{
    assert(s.no_duplicates()) by {
        assert forall|i: int, j: int| 0 <= i < j < s.len() implies s[i] != s[j] by {
            assert(mimes_of(s)[i] != mimes_of(s)[j]);
        }
    }
    s.lemma_multiset_has_no_duplicates();
    to_multiset_contains(s, s[x]);
    assert(s.contains(s[x]));
    assert(s.to_multiset().contains(s[x]));
}

proof fn lemma_twice(t: Flavours, i: int, j: int)
    requires
        0 <= i < j < t.len(),
        t[i] == t[j],
    ensures
        t.to_multiset().count(t[i]) >= 2,
{
    let rest = t.remove(j);
    to_multiset_remove(t, j);
    assert(rest[i] == t[i]);
    to_multiset_contains(rest, t[i]);
    assert(rest.contains(t[i]));
}

/// The canonical order depends on the contents alone: two selections in
/// canonical order that hold the same flavours are the same, however each of
/// them came about.
pub proof fn law_order_depends_on_contents_alone(a: Flavours, b: Flavours)
    requires
        in_order(a),
        in_order(b),
        a.to_multiset() == b.to_multiset(),
    ensures
        a == b,
{
    let leq = |a: (Seq<char>, Seq<u8>), b: (Seq<char>, Seq<u8>)| ordered(a, b);
    lemma_ordered_is_total();
    assert(sorted_by(a, leq));
    assert(sorted_by(b, leq));
    lemma_sorted_unique(a, b, leq);
}

/// Putting a selection in canonical order changes no payload, no text and not
/// which types are there.
pub proof fn law_ordering_keeps_the_payloads(s: Flavours, t: Flavours, mime: Seq<char>)
    requires
        unique(s),
        in_order(t),
        s.to_multiset() == t.to_multiset(),
    ensures
        lookup(t, mime) == lookup(s, mime),
        text_of(t) == text_of(s),
        plain_only(t) == plain_only(s),
        s.len() == t.len(),
        unique(t),
{
    lemma_in_order_is_unique(t);
    lemma_same_members(s, t);
    lemma_same_lookup(s, t, mime);
    assert forall|m: Seq<char>| lookup(t, m) == lookup(s, m) by {
        lemma_same_lookup(s, t, m);
    }
    lemma_same_first_present(s, t, names(TEXT_MIMES@));
    to_multiset_len(s);
    to_multiset_len(t);
    assert forall|i: int| 0 <= i < s.len() implies t.contains(#[trigger] s[i]) by {
        assert(s.contains(s[i]));
    }
    assert forall|i: int| 0 <= i < t.len() implies s.contains(#[trigger] t[i]) by {
        assert(t.contains(t[i]));
    }
}

/// Selections that serve the same payloads have the same canonical order,
/// whatever order they were filled in.
pub proof fn law_same_payloads_same_order(a: Flavours, b: Flavours)
    requires
        unique(a),
        unique(b),
        forall|m: Seq<char>| #[trigger] lookup(a, m) == lookup(b, m),
    ensures
        canonical(a) == canonical(b),
{
    assert forall|x: (Seq<char>, Seq<u8>)| a.to_multiset().count(x) == b.to_multiset().count(x) by {
        lemma_counted(a, x);
        lemma_counted(b, x);
        assert(lookup(a, x.0) == lookup(b, x.0));
    }
    assert(a.to_multiset() =~= b.to_multiset());
    law_canonical_order_keeps_the_contents(a);
    law_canonical_order_keeps_the_contents(b);
    law_order_depends_on_contents_alone(canonical(a), canonical(b));
}

/// A flavour is there once, when its type is looked up as its payload, or not
/// at all.
proof fn lemma_counted(s: Flavours, x: (Seq<char>, Seq<u8>))
    requires
        unique(s),
    ensures
        s.to_multiset().count(x) == if lookup(s, x.0) == Some(x.1) {
            1nat
        } else {
            0
        },
{
    let k = find(mimes_of(s), x.0);
    lemma_find(mimes_of(s), x.0);
    to_multiset_contains(s, x);
    if lookup(s, x.0) == Some(x.1) {
        assert(mimes_of(s)[k] == s[k].0);
        assert(s[k] == x);
        lemma_once(s, k);
    } else if s.contains(x) {
        let i = choose|i: int| 0 <= i < s.len() && s[i] == x;
        assert(mimes_of(s)[i] == x.0);
        assert(mimes_of(s)[k] == x.0);
        assert(false);
    }
}

proof fn lemma_same_members(s: Flavours, t: Flavours)
    requires
        s.to_multiset() == t.to_multiset(),
    ensures
        forall|x: (Seq<char>, Seq<u8>)| #[trigger] s.contains(x) <==> #[trigger] t.contains(x),
{
    assert forall|x: (Seq<char>, Seq<u8>)| #[trigger] s.contains(x) <==> #[trigger] t.contains(
        x,
    ) by {
        to_multiset_contains(s, x);
        to_multiset_contains(t, x);
    }
}

proof fn lemma_same_lookup(s: Flavours, t: Flavours, mime: Seq<char>)
    requires
        unique(s),
        unique(t),
        forall|x: (Seq<char>, Seq<u8>)| #[trigger] s.contains(x) <==> #[trigger] t.contains(x),
    ensures
        lookup(t, mime) == lookup(s, mime),
{
    lemma_find(mimes_of(s), mime);
    lemma_find(mimes_of(t), mime);
    let i = find(mimes_of(s), mime);
    let j = find(mimes_of(t), mime);
    if i < s.len() {
        assert(s.contains(s[i]));
        assert(t.contains(s[i]));
        let k = choose|k: int| 0 <= k < t.len() && t[k] == s[i];
        assert(mimes_of(t)[k] == mime);
        assert(mimes_of(t)[j] == mime);
        assert(k == j);
    }
    if j < t.len() {
        assert(t.contains(t[j]));
        assert(s.contains(t[j]));
        let k = choose|k: int| 0 <= k < s.len() && s[k] == t[j];
        assert(mimes_of(s)[k] == mime);
    }
}

proof fn lemma_same_first_present(s: Flavours, t: Flavours, list: Seq<Seq<char>>)
    requires
        forall|m: Seq<char>| lookup(t, m) == lookup(s, m),
    ensures
        first_present(t, list) == first_present(s, list),
    decreases list.len(),
{
    if list.len() > 0 {
        lemma_same_first_present(s, t, list.drop_first());
    }
}

/// The summary tells nothing of the contents: selections with the same MIME
/// types and sizes have the same summary.
pub proof fn law_summary_hides_contents(a: Flavours, b: Flavours)
    requires
        a.len() == b.len(),
        forall|i: int|
            0 <= i < a.len() ==> (#[trigger] a[i]).0 == (#[trigger] b[i]).0 && a[i].1.len()
                == b[i].1.len(),
    ensures
        described(a) == described(b),
    decreases a.len(),
{
    lemma_listing_hides_contents(a, b);
}

proof fn lemma_listing_hides_contents(a: Flavours, b: Flavours)
    requires
        a.len() == b.len(),
        forall|i: int|
            0 <= i < a.len() ==> (#[trigger] a[i]).0 == (#[trigger] b[i]).0 && a[i].1.len()
                == b[i].1.len(),
    ensures
        listing(a) == listing(b),
    decreases a.len(),
{
    if a.len() > 0 {
        assert(a[a.len() - 1].0 == b[a.len() - 1].0);
        assert forall|i: int| 0 <= i < a.len() - 1 implies (#[trigger] a.drop_last()[i]).0 == (
        #[trigger] b.drop_last()[i]).0 && a.drop_last()[i].1.len() == b.drop_last()[i].1.len() by {
            assert(a[i].0 == b[i].0);
        }
        lemma_listing_hides_contents(a.drop_last(), b.drop_last());
    }
}

/// A payload is found under a MIME type exactly when the selection advertises the
/// type with that payload.
pub proof fn law_found_is_what_is_advertised(s: Flavours, mime: Seq<char>)
    requires
        unique(s),
    ensures
        forall|data: Seq<u8>| lookup(s, mime) == Some(data) <==> s.contains((mime, data)),
        lookup(s, mime) is None <==> forall|i: int|
            0 <= i < s.len() ==> (#[trigger] s[i]).0 != mime,
{
    let all = mimes_of(s);
    lemma_find(all, mime);
    let k = find(all, mime);
    assert forall|data: Seq<u8>| lookup(s, mime) == Some(data) <==> s.contains((mime, data)) by {
        if lookup(s, mime) == Some(data) {
            assert(all[k] == mime);
            assert(s[k] == (mime, data));
        }
        if s.contains((mime, data)) {
            let i = choose|i: int| 0 <= i < s.len() && s[i] == (mime, data);
            assert(all[i] == mime);
            assert(all[k] == mime);
            assert(i == k);
        }
    }
    if k < s.len() {
        assert(all[k] == s[k].0);
    } else {
        assert forall|i: int| 0 <= i < s.len() implies (#[trigger] s[i]).0 != mime by {
            assert(all[i] == s[i].0);
        }
    }
}

/// The plain-text family and the rich types, by name and in order.
pub proof fn law_the_known_types()
    ensures
        names(TEXT_MIMES@) == seq![
            "text/plain;charset=utf-8"@,
            "text/plain"@,
            "UTF8_STRING"@,
            "STRING"@,
            "TEXT"@,
        ],
        names(RICH_MIMES@) == seq![
            "text/html"@,
            "chromium/x-source-url"@,
            "text/uri-list"@,
            "text/rtf"@,
        ],
        names(SECRET_MIMES@) == seq!["x-kde-passwordManagerHint"@],
        MARKER_MIME@ == "application/x-clipmunge"@,
{
    assert(names(TEXT_MIMES@) =~= seq![
        "text/plain;charset=utf-8"@,
        "text/plain"@,
        "UTF8_STRING"@,
        "STRING"@,
        "TEXT"@,
    ]);
    assert(names(RICH_MIMES@) =~= seq![
        "text/html"@,
        "chromium/x-source-url"@,
        "text/uri-list"@,
        "text/rtf"@,
    ]);
    assert(names(SECRET_MIMES@) =~= seq!["x-kde-passwordManagerHint"@]);
}

proof fn lemma_known_types_differ()
    ensures
        names(TEXT_MIMES@).no_duplicates(),
        names(RICH_MIMES@).no_duplicates(),
        forall|i: int, j: int|
            0 <= i < 5 && 0 <= j < 4 ==> #[trigger] names(TEXT_MIMES@)[i]
                != #[trigger] names(RICH_MIMES@)[j],
{
    law_the_known_types();
    reveal_strlit("text/plain;charset=utf-8");
    reveal_strlit("text/plain");
    reveal_strlit("UTF8_STRING");
    reveal_strlit("STRING");
    reveal_strlit("TEXT");
    reveal_strlit("text/html");
    reveal_strlit("chromium/x-source-url");
    reveal_strlit("text/uri-list");
    reveal_strlit("text/rtf");
    let text = names(TEXT_MIMES@);
    let rich = names(RICH_MIMES@);
    assert(text[0].len() == 24 && text[1].len() == 10 && text[2].len() == 11);
    assert(text[3].len() == 6 && text[4].len() == 4);
    assert(rich[0].len() == 9 && rich[1].len() == 21 && rich[2].len() == 13);
    assert(rich[3].len() == 8);
    assert forall|i: int, j: int| 0 <= i < j < text.len() implies text[i] != text[j] by {
        assert(text[i].len() != text[j].len());
    }
    assert forall|i: int, j: int| 0 <= i < j < rich.len() implies rich[i] != rich[j] by {
        assert(rich[i].len() != rich[j].len());
    }
}

proof fn lemma_ranks(mime: Seq<char>)
    ensures
        forall|i: int| 0 <= i < 5 && #[trigger] names(TEXT_MIMES@)[i] == mime ==> rank(mime) == i,
        forall|i: int|
            0 <= i < 4 && #[trigger] names(RICH_MIMES@)[i] == mime ==> rank(mime) == 5 + i,
        !names(TEXT_MIMES@).contains(mime) && !names(RICH_MIMES@).contains(mime) ==> rank(mime)
            == 9,
{
    law_the_known_types();
    lemma_known_types_differ();
    let text = names(TEXT_MIMES@);
    let rich = names(RICH_MIMES@);
    lemma_find(text, mime);
    lemma_find(rich, mime);
    assert forall|i: int| 0 <= i < 5 && #[trigger] text[i] == mime implies rank(mime) == i by {
        lemma_find_is(text, mime, i);
    }
    assert forall|i: int| 0 <= i < 4 && #[trigger] rich[i] == mime implies rank(mime) == 5 + i by {
        lemma_find_is(rich, mime, i);
    }
}

/// In canonical order the types of the plain-text family come first, in the order of
/// the family, then the rich types in theirs, then all others.
pub proof fn law_known_types_are_advertised_in_their_order(s: Flavours, i: int, j: int)
    requires
        unique(s),
        0 <= i < canonical(s).len(),
        0 <= j < canonical(s).len(),
    ensures
        ({
            let known = seq![
                "text/plain;charset=utf-8"@,
                "text/plain"@,
                "UTF8_STRING"@,
                "STRING"@,
                "TEXT"@,
                "text/html"@,
                "chromium/x-source-url"@,
                "text/uri-list"@,
                "text/rtf"@,
            ];
            let a = canonical(s)[i].0;
            let b = canonical(s)[j].0;
            &&& forall|x: int, y: int|
                0 <= x < y < known.len() && #[trigger] known[x] == a && #[trigger] known[y] == b
                    ==> i < j
            &&& known.contains(a) && !known.contains(b) ==> i < j
        }),
{
    let known = seq![
        "text/plain;charset=utf-8"@,
        "text/plain"@,
        "UTF8_STRING"@,
        "STRING"@,
        "TEXT"@,
        "text/html"@,
        "chromium/x-source-url"@,
        "text/uri-list"@,
        "text/rtf"@,
    ];
    let t = canonical(s);
    let a = t[i].0;
    let b = t[j].0;
    law_canonical_order_keeps_the_contents(s);
    law_the_known_types();
    lemma_ranks(a);
    lemma_ranks(b);
    assert(known =~= names(TEXT_MIMES@) + names(RICH_MIMES@));
    if j < i {
        assert(before(t[j].0, t[i].0));
    }
    assert forall|x: int, y: int|
        0 <= x < y < known.len() && #[trigger] known[x] == a && #[trigger] known[y] == b implies i
        < j by {
        assert(rank(a) == x) by {
            if x < 5 {
                assert(names(TEXT_MIMES@)[x] == a);
            } else {
                assert(names(RICH_MIMES@)[x - 5] == a);
            }
        }
        assert(rank(b) == y) by {
            if y < 5 {
                assert(names(TEXT_MIMES@)[y] == b);
            } else {
                assert(names(RICH_MIMES@)[y - 5] == b);
            }
        }
    }
    if known.contains(a) && !known.contains(b) {
        let x = choose|x: int| 0 <= x < known.len() && known[x] == a;
        if x < 5 {
            assert(names(TEXT_MIMES@)[x] == a);
        } else {
            assert(names(RICH_MIMES@)[x - 5] == a);
        }
        assert forall|k: int| 0 <= k < 5 implies names(TEXT_MIMES@)[k] != b by {
            assert(known[k] != b);
        }
        assert forall|k: int| 0 <= k < 4 implies names(RICH_MIMES@)[k] != b by {
            assert(known[k + 5] != b);
        }
        assert(rank(b) == 9);
        assert(rank(a) < 9);
    }
}

/// Of two types that are neither text nor rich, that one is advertised first whose
/// name has the smaller byte where the two first differ, whatever their lengths, or
/// whose name is a proper beginning of the other's.
pub proof fn law_other_types_are_advertised_by_name(s: Flavours, i: int, j: int, k: int)
    requires
        unique(s),
        0 <= i < canonical(s).len(),
        0 <= j < canonical(s).len(),
        !names(TEXT_MIMES@).contains(canonical(s)[i].0),
        !names(RICH_MIMES@).contains(canonical(s)[i].0),
        !names(TEXT_MIMES@).contains(canonical(s)[j].0),
        !names(RICH_MIMES@).contains(canonical(s)[j].0),
        0 <= k <= encode_utf8(canonical(s)[i].0).len(),
        k < encode_utf8(canonical(s)[j].0).len(),
        forall|x: int|
            0 <= x < k ==> encode_utf8(canonical(s)[i].0)[x] == encode_utf8(canonical(s)[j].0)[x],
        k < encode_utf8(canonical(s)[i].0).len() ==> encode_utf8(canonical(s)[i].0)[k]
            < encode_utf8(canonical(s)[j].0)[k],
    ensures
        i < j,
{
    let t = canonical(s);
    let a = encode_utf8(t[i].0);
    let b = encode_utf8(t[j].0);
    law_canonical_order_keeps_the_contents(s);
    lemma_ranks(t[i].0);
    lemma_ranks(t[j].0);
    if k < a.len() {
        law_the_first_difference_decides(b, a, k);
    } else {
        law_a_proper_prefix_comes_first(a, b);
    }
    if j < i {
        assert(before(t[j].0, t[i].0));
    }
}

/// The text is that of the first type of the plain-text family which is there, when
/// its payload is UTF-8; without any of them there is none.
pub proof fn law_text_is_that_of_the_first_name(s: Flavours, family: Seq<Seq<char>>, i: int)
    requires
        family == seq![
            "text/plain;charset=utf-8"@,
            "text/plain"@,
            "UTF8_STRING"@,
            "STRING"@,
            "TEXT"@,
        ],
        0 <= i <= family.len(),
        forall|j: int| 0 <= j < i ==> lookup(s, #[trigger] family[j]) is None,
        i < family.len() ==> lookup(s, family[i]) is Some,
    ensures
        i == family.len() ==> text_of(s) is None,
        i < family.len() ==> {
            let data = lookup(s, family[i])->0;
            &&& text_of(s) is Some <==> valid_utf8(data)
            &&& text_of(s) matches Some(t) ==> encode_utf8(t) == data
        },
{
    law_the_known_types();
    let all = names(TEXT_MIMES@);
    assert(all =~= family);
    if i < family.len() {
        lemma_first_present(s, all, i);
        let data = lookup(s, all[i])->0;
        if valid_utf8(data) {
            decode_utf8_encode_utf8(data);
        }
    } else {
        lemma_none_present(s, all);
    }
}

proof fn lemma_none_present(s: Flavours, list: Seq<Seq<char>>)
    requires
        forall|j: int| 0 <= j < list.len() ==> lookup(s, #[trigger] list[j]) is None,
    ensures
        first_present(s, list) is None,
    decreases list.len(),
{
    if list.len() > 0 {
        let rest = list.drop_first();
        assert forall|j: int| 0 <= j < rest.len() implies lookup(s, #[trigger] rest[j]) is None by {
            assert(rest[j] == list[j + 1]);
        }
        assert(lookup(s, list[0]) is None);
        lemma_none_present(s, rest);
    }
}

/// A selection is plain exactly when nothing is found under HTML, the URL of a link,
/// a list of URIs and RTF, whatever else it has.
pub proof fn law_plain_is_without_rich_types(s: Flavours)
    ensures
        plain_only(s) <==> {
            &&& lookup(s, "text/html"@) is None
            &&& lookup(s, "chromium/x-source-url"@) is None
            &&& lookup(s, "text/uri-list"@) is None
            &&& lookup(s, "text/rtf"@) is None
        },
{
    law_the_known_types();
    let rich = names(RICH_MIMES@);
    let all = mimes_of(s);
    assert(rich[0] == "text/html"@);
    assert(rich[1] == "chromium/x-source-url"@);
    assert(rich[2] == "text/uri-list"@);
    assert(rich[3] == "text/rtf"@);
    assert forall|k: int| 0 <= k < 4 implies (lookup(s, #[trigger] rich[k]) is None
        <==> !all.contains(rich[k])) by {
        lemma_find(all, rich[k]);
    }
    if plain_only(s) {
        assert forall|k: int| 0 <= k < 4 implies !all.contains(#[trigger] rich[k]) by {
            if all.contains(rich[k]) {
                let i = choose|i: int| 0 <= i < all.len() && all[i] == rich[k];
                assert(rich.contains(s[i].0));
            }
        }
        assert(lookup(s, rich[0]) is None && lookup(s, rich[1]) is None);
        assert(lookup(s, rich[2]) is None && lookup(s, rich[3]) is None);
    } else {
        let i = choose|i: int| 0 <= i < s.len() && rich.contains(#[trigger] s[i].0);
        let k = choose|k: int| 0 <= k < rich.len() && rich[k] == s[i].0;
        assert(all[i] == rich[k]);
        assert(lookup(s, rich[k]) is Some);
    }
}

/// A selection made of one text alone advertises the plain-text family, in order,
/// and nothing else.
pub proof fn law_a_text_is_advertised_under_the_family(text: Seq<char>)
    ensures
        with_text(Flavours::empty(), text) == seq![
            ("text/plain;charset=utf-8"@, encode_utf8(text)),
            ("text/plain"@, encode_utf8(text)),
            ("UTF8_STRING"@, encode_utf8(text)),
            ("STRING"@, encode_utf8(text)),
            ("TEXT"@, encode_utf8(text)),
        ],
{
    law_the_known_types();
    lemma_known_types_differ();
    let all = names(TEXT_MIMES@);
    let data = encode_utf8(text);
    lemma_fresh_names(all, data);
    assert(with_text(Flavours::empty(), text) =~= seq![
        ("text/plain;charset=utf-8"@, data),
        ("text/plain"@, data),
        ("UTF8_STRING"@, data),
        ("STRING"@, data),
        ("TEXT"@, data),
    ]);
}

proof fn lemma_fresh_names(list: Seq<Seq<char>>, data: Seq<u8>)
    requires
        list.no_duplicates(),
    ensures
        stored_under(Flavours::empty(), list, data) == list.map_values(
            |m: Seq<char>| (m, data),
        ),
    decreases list.len(),
{
    let now = stored_under(Flavours::empty(), list, data);
    if list.len() > 0 {
        let rest = list.drop_last();
        lemma_fresh_names(rest, data);
        let was = stored_under(Flavours::empty(), rest, data);
        lemma_find(mimes_of(was), list.last());
        assert forall|i: int| 0 <= i < was.len() implies mimes_of(was)[i] != list.last() by {
            assert(mimes_of(was)[i] == list[i]);
        }
    }
    assert(now =~= list.map_values(|m: Seq<char>| (m, data)));
}

/// A summary names each type with the size of its payload, in order.
pub proof fn law_summary_names_each_flavour(a: Flavours, mime: Seq<char>, data: Seq<u8>)
    ensures
        described(Flavours::empty()) == "Selection"@,
        described(seq![(mime, data)]) == "Selection { "@ + mime + ": "@ + decimal(data.len())
            + " bytes }"@,
        a.len() > 0 ==> exists|so_far: Seq<char>|
            described(a) == #[trigger] (so_far + " }"@) && described(a.push((mime, data))) == so_far
                + ", "@ + mime + ": "@ + decimal(data.len()) + " bytes }"@,
{
    reveal_strlit(" bytes");
    reveal_strlit(" }");
    reveal_strlit(" bytes }");
    assert(" bytes }"@ =~= " bytes"@ + " }"@);
    let one = seq![(mime, data)];
    assert(one[0] == (mime, data));
    assert(described(one) =~= "Selection { "@ + mime + ": "@ + decimal(data.len()) + " bytes }"@);
    if a.len() > 0 {
        let more = a.push((mime, data));
        assert(more.drop_last() =~= a);
        assert(more.last() == (mime, data));
        let so_far = "Selection { "@ + listing(a);
        assert(described(a) =~= so_far + " }"@);
        assert(described(more) =~= so_far + ", "@ + mime + ": "@ + decimal(data.len())
            + " bytes }"@);
    }
}

/// A payload is shown on one line: line breaks appear as a backslash and an `n`, and
/// all other characters as they are, in order.
pub proof fn law_shown_on_one_line(a: Seq<char>, c: char)
    ensures
        one_line(Seq::empty()) == Seq::<char>::empty(),
        c == '\n' ==> one_line(a.push(c)) == one_line(a).push('\\').push('n'),
        c != '\n' ==> one_line(a.push(c)) == one_line(a).push(c),
        !one_line(a).contains('\n'),
    decreases a.len(),
{
    reveal_strlit("\\n");
    let f = |x: char| shown_char(x);
    a.lemma_flat_map_push(f, c);
    assert(Seq::<char>::empty().flat_map(f) =~= Seq::empty());
    assert(shown_char('\n') =~= seq!['\\', 'n']);
    assert(one_line(a.push(c)) =~= one_line(a) + shown_char(c));
    if a.len() > 0 {
        law_shown_on_one_line(a.drop_last(), a.last());
        assert(a =~= a.drop_last().push(a.last()));
        let less = one_line(a.drop_last());
        if one_line(a).contains('\n') {
            let i = choose|i: int| 0 <= i < one_line(a).len() && one_line(a)[i] == '\n';
            if i < less.len() {
                assert(less[i] == '\n');
            }
        }
    }
}

/// The preview of a payload: of one that is not UTF-8 the size alone; of a text of up
/// to half a kibibyte all of it; of a longer one as many of the first characters as
/// fit into that, and the size.
pub proof fn law_previews(data: Seq<u8>)
    ensures
        !valid_utf8(data) ==> preview(data) == "<"@ + decimal(data.len()) + " bytes, not utf-8>"@,
        valid_utf8(data) ==> {
            let t = decode_utf8(data);
            &&& data.len() <= 512 ==> preview(data) == one_line(t)
            &&& data.len() > 512 ==> exists|k: int|
                0 <= k < t.len() && encode_utf8(#[trigger] t.take(k)).len() <= 512 && encode_utf8(
                    t.take(k + 1),
                ).len() > 512 && preview(data) == one_line(t.take(k)) + "\u{2026} ("@ + decimal(
                    data.len(),
                ) + " bytes total)"@
        },
{
    if valid_utf8(data) && data.len() > 512 {
        let t = decode_utf8(data);
        law_as_much_as_fits(t, 512);
        decode_utf8_encode_utf8(data);
        let k = fitting(t, 512) as int;
        if k == t.len() {
            assert(t.take(k) =~= t);
        }
        assert(encode_utf8(t.take(k)).len() <= 512 && encode_utf8(t.take(k + 1)).len() > 512);
    }
}

/// The dump of two selections, one behind the other, is the dump of the one and then
/// that of the other, and each flavour has a line with its type and its preview.
pub proof fn law_dump_goes_flavour_by_flavour(a: Flavours, b: Flavours)
    ensures
        dumped(Flavours::empty()) == Seq::<char>::empty(),
        dumped(a + b) == dumped(a) + dumped(b),
        forall|mime: Seq<char>, data: Seq<u8>| #[trigger]
            dumped(seq![(mime, data)]) == "\n      "@ + mime + ": "@ + preview(data),
    decreases b.len(),
{
    assert forall|mime: Seq<char>, data: Seq<u8>| #[trigger]
        dumped(seq![(mime, data)]) == "\n      "@ + mime + ": "@ + preview(data) by {
        let one = seq![(mime, data)];
        assert(one.drop_last() =~= Flavours::empty());
        assert(one.last() == (mime, data));
        assert(dumped(one.drop_last()) =~= Seq::<char>::empty());
        assert(dumped(one) =~= "\n      "@ + mime + ": "@ + preview(data));
    }
    if b.len() == 0 {
        assert(a + b =~= a);
        assert(dumped(a + b) =~= dumped(a) + dumped(b));
    } else {
        law_dump_goes_flavour_by_flavour(a, b.drop_last());
        assert((a + b).drop_last() =~= a + b.drop_last());
        assert((a + b).last() == b.last());
        assert(dumped(a + b) =~= dumped(a) + dumped(b));
    }
}

/// What is set is what is got, and nothing else changes: a payload set under a type is
/// got under it, and under any other type what was got before.
pub proof fn law_what_is_set_is_got(
    s: &mut Selection,
    mime: String,
    data: Vec<u8>,
    r: &mut Selection,
    asked: &str,
    got: Option<&[u8]>,
    was: Option<&[u8]>,
)
    requires
        call_ensures(Selection::set, (s, mime, data), r),
        call_ensures(Selection::get, (&mut_ref_current(r), asked), got),
        call_ensures(Selection::get, (&mut_ref_current(s), asked), was),
    ensures
        asked@ == mime@ ==> got is Some && got->0@ == data@,
        asked@ != mime@ ==> (got is Some <==> was is Some) && (got is Some ==> got->0@ == was->0@),
{
    law_stored_is_found(mut_ref_current(s)@, mime@, data@, asked@);
}

/// Setting the text leaves the types that are there in their places, and adds those of
/// the plain-text family that are not, in the order of the family.
pub proof fn law_setting_the_text_keeps_the_order(s: Flavours, text: Seq<char>)
    ensures
        mimes_of(with_text(s, text)) == mimes_of(s) + names(TEXT_MIMES@).filter(
            |name: Seq<char>| !mimes_of(s).contains(name),
        ),
{
    lemma_known_types_differ();
    lemma_stored_under_order(s, names(TEXT_MIMES@), encode_utf8(text));
}

proof fn lemma_stored_under_order(s: Flavours, list: Seq<Seq<char>>, data: Seq<u8>)
    requires
        list.no_duplicates(),
    ensures
        mimes_of(stored_under(s, list, data)) == mimes_of(s) + list.filter(
            |name: Seq<char>| !mimes_of(s).contains(name),
        ),
    decreases list.len(),
{
    reveal(Seq::filter);
    let fresh = |name: Seq<char>| !mimes_of(s).contains(name);
    let all = mimes_of(s);
    if list.len() == 0 {
        assert(all + list.filter(fresh) =~= all);
    } else {
        let front = list.drop_last();
        let last = list.last();
        lemma_stored_under_order(s, front, data);
        let was = stored_under(s, front, data);
        let added = front.filter(fresh);
        law_storing_keeps_the_order(was, last, data);
        if !fresh(last) {
            let i = choose|i: int| 0 <= i < all.len() && all[i] == last;
            assert(mimes_of(was)[i] == last);
            assert(mimes_of(was).contains(last));
        } else {
            if mimes_of(was).contains(last) {
                let i = choose|i: int| 0 <= i < mimes_of(was).len() && mimes_of(was)[i] == last;
                if i < all.len() {
                    assert(all[i] == last);
                } else {
                    assert(added[i - all.len()] == last);
                    assert(added.contains(last));
                    front.lemma_filter_contains_rev(fresh, last);
                    let j = choose|j: int| 0 <= j < front.len() && front[j] == last;
                    assert(list[j] == list[list.len() - 1]);
                }
            }
            assert(mimes_of(s) + added.push(last) =~= (mimes_of(s) + added).push(last));
        }
    }
}

} // verus!
