//! What a handler returned, and the replacement that it asks for.

use vstd::prelude::*;
use vstd::utf8::*;

use crate::clipboard::{Replacement, Rewrite};
use crate::interpreter::{
    belongs, entries_of, error_text, kind_name, kind_of, lua_bytes, lua_kind, lua_message,
    lua_string, lua_table, text_fault, Handle, Kind,
};
use crate::selection::{
    canonical, in_order, law_canonical_order_keeps_the_contents, law_same_payloads_same_order,
    law_stored_is_found, law_text_set_is_read_back, lookup, mimes_of, stored, text_of, unique,
    with_text, Flavours, Selection, TEXT_MIMES,
};
use crate::state::{lemma_took, took, took_all, State, Step};
use crate::text::{lemma_find, names, push_text, same_text};

verus! {

broadcast use vstd::string::group_string_axioms;

/// The bytes of a string that a handler returned, and what Lua says of them as
/// text.
pub struct Payload {
    pub data: Vec<u8>,
    pub text: Result<String, mlua::Error>,
}

/// One entry of a table that a handler returned: a name with a payload, or why
/// it is not one.
pub type Entry = Result<(String, Payload), mlua::Error>;

/// A value other than nil that a handler returned.
pub enum Answer {
    Text(Payload),
    Table(Vec<Entry>),
    /// A value that is neither.
    Other(Kind),
}

/// How the call of a handler came out.
pub enum Reply {
    Nil,
    Value(Answer),
    Failed(mlua::Error),
    /// The arguments could not be made, so nothing was called.
    NoArguments(mlua::Error),
}

/// A payload copied out of Lua.
pub open spec fn copied(given: mlua::LuaString, payload: Payload) -> bool {
    let bytes = lua_bytes(given);
    &&& payload.data@ == bytes
    &&& match payload.text {
        Ok(text) => valid_utf8(bytes) && text@ == decode_utf8(bytes),
        Err(error) => !valid_utf8(bytes) && error == text_fault(bytes),
    }
}

/// Copy a payload out of Lua.
fn read_payload(state: &State, given: &mlua::LuaString) -> (r: Payload)
    requires
        belongs(state.lua(), Handle::Text(*given)),
    ensures
        copied(*given, r),
{
    Payload { data: state.bytes(given), text: state.text(given) }
}

/// The steps of walking a table up to its end or the first fault, with these
/// entries found.
pub open spec fn entry_steps(
    table: mlua::Table,
    found: Seq<(String, mlua::LuaString)>,
    fault: Option<mlua::Error>,
) -> Seq<Step> {
    let entries = found.map_values(
        |entry: (String, mlua::LuaString)| Step::Entry(table, Some(Ok(entry))),
    );
    match fault {
        Some(error) => entries.push(Step::Entry(table, Some(Err(error)))),
        None => if found.len() < usize::MAX {
            entries.push(Step::Entry(table, None))
        } else {
            entries
        },
    }
}

/// Entries with their payloads copied out of Lua, and the fault that ended them.
pub open spec fn same_entries(
    found: Seq<(String, mlua::LuaString)>,
    fault: Option<mlua::Error>,
    entries: Seq<Entry>,
) -> bool {
    &&& forall|i: int|
        0 <= i < found.len() ==> (#[trigger] entries[i] matches Ok((name, payload)) && name
            == found[i].0 && copied(found[i].1, payload))
    &&& match fault {
        Some(error) => entries.len() == found.len() + 1 && entries.last() == Err::<
            (String, Payload),
            mlua::Error,
        >(error),
        None => entries.len() == found.len(),
    }
}

/// What can come of reading the entries of a table: it is walked up to its end or
/// the first fault.
pub open spec fn may_read_entries(
    before: State,
    after: State,
    table: mlua::Table,
    entries: Seq<Entry>,
) -> bool {
    exists|start: State, found: Seq<(String, mlua::LuaString)>, fault: Option<mlua::Error>|
        took(before, start, Step::WalkEntries(table)) && #[trigger] took_all(
            start,
            after,
            entry_steps(table, found, fault),
        ) && same_entries(found, fault, entries)
}

/// Read the entries of a table.
fn read_entries(state: &mut State, table: &mlua::Table) -> (r: Vec<Entry>)
    requires
        belongs(old(state).lua(), Handle::Table(*table)),
    ensures
        may_read_entries(*old(state), *final(state), *table, r@),
        final(state).lua() == old(state).lua(),
{
    let ghost lua = state.lua();
    let ghost before = *state;
    let mut walk = state.entries(table);
    let ghost start = *state;
    let ghost mut found: Seq<(String, mlua::LuaString)> = Seq::empty();
    let ghost mut steps: Seq<Step> = Seq::empty();
    assert(start.log() + steps =~= start.log());
    let mut out: Vec<Entry> = Vec::new();
    while out.len() < usize::MAX
        invariant
            before == *old(state),
            lua == before.lua(),
            state.lua() == lua,
            belongs(lua, Handle::Table(*table)),
            took(before, start, Step::WalkEntries(*table)),
            entries_of(walk) == *table,
            out@.len() == found.len(),
            steps == found.map_values(
                |entry: (String, mlua::LuaString)| Step::Entry(*table, Some(Ok(entry))),
            ),
            took_all(start, *state, steps),
            same_entries(found, None, out@),
        decreases usize::MAX - out.len(),
    {
        let ghost from = *state;
        let next = state.next_entry(&mut walk);
        proof {
            lemma_took(start, from, *state, steps, Step::Entry(*table, next));
        }
        match next {
            Some(Ok((name, data))) => {
                let ghost entry = (name, data);
                proof {
                    found = found.push(entry);
                    assert(steps.push(Step::Entry(*table, Some(Ok(entry)))) =~= found.map_values(
                        |entry: (String, mlua::LuaString)| Step::Entry(*table, Some(Ok(entry))),
                    ));
                    steps = steps.push(Step::Entry(*table, Some(Ok(entry))));
                }
                let ghost earlier = out@;
                out.push(Ok((name, read_payload(state, &data))));
                assert forall|i: int| 0 <= i < found.len() implies (#[trigger] out@[i] matches Ok(
                    (name, payload),
                ) && name == found[i].0 && copied(found[i].1, payload)) by {
                    if i < earlier.len() {
                        assert(out@[i] == earlier[i]);
                    }
                }
            },
            Some(Err(error)) => {
                let ghost earlier = out@;
                out.push(Err(error));
                assert(took_all(start, *state, entry_steps(*table, found, Some(error))));
                assert(same_entries(found, Some(error), out@)) by {
                    assert forall|i: int| 0 <= i < found.len() implies #[trigger] out@[i]
                        == earlier[i] by {}
                }
                return out;
            },
            None => {
                assert(took_all(start, *state, entry_steps(*table, found, None)));
                return out;
            },
        }
    }
    assert(took_all(start, *state, entry_steps(*table, found, None)));
    out
}

/// How a call came out, from what it returned. The entries of a table are as
/// Lua can have them at the time.
pub open spec fn reads_as(
    before: State,
    after: State,
    called: Result<mlua::Value, mlua::Error>,
    reply: Reply,
) -> bool {
    match called {
        Err(error) => reply == Reply::Failed(error) && after == before,
        Ok(value) => match lua_kind(value) {
            Kind::Nil => reply is Nil && after == before,
            Kind::Text => {
                &&& reply matches Reply::Value(Answer::Text(payload))
                &&& copied(lua_string(value), payload)
                &&& after == before
            },
            Kind::Table => {
                &&& reply matches Reply::Value(Answer::Table(entries))
                &&& may_read_entries(before, after, lua_table(value), entries@)
            },
            kind => reply == Reply::Value(Answer::Other(kind)) && after == before,
        },
    }
}

/// How a call came out, from what it returned.
pub(crate) fn read_reply(state: &mut State, called: Result<mlua::Value, mlua::Error>) -> (r: Reply)
    requires
        called matches Ok(value) ==> belongs(old(state).lua(), Handle::Value(value)),
    ensures
        reads_as(*old(state), *final(state), called, r),
        final(state).lua() == old(state).lua(),
{
    let value = match called {
        Ok(value) => value,
        Err(error) => {
            return Reply::Failed(error);
        },
    };
    match kind_of(&value) {
        Kind::Nil => Reply::Nil,
        Kind::Text => match state.as_string(value) {
            Some(s) => Reply::Value(Answer::Text(read_payload(state, &s))),
            None => Reply::Nil,
        },
        Kind::Table => match state.as_table(value) {
            Some(table) => Reply::Value(Answer::Table(read_entries(state, &table))),
            None => Reply::Nil,
        },
        kind => Reply::Value(Answer::Other(kind)),
    }
}

/// Why an answer is no replacement.
pub enum ReplyError {
    /// Something in it is not what it has to be.
    Value(mlua::Error),
    OnlyNotify,
    WrongType(Kind),
}

/// What the entries gathered so far and one more come to. `text` sets the
/// plain-text family, `notify` is sent separately after publishing, and any
/// other name is a MIME type.
pub open spec fn with_entry(so_far: Replacement, entry: Entry) -> Result<Replacement, ReplyError> {
    match entry {
        Err(error) => Err(ReplyError::Value(error)),
        Ok((name, payload)) => if name@ == "text"@ {
            match payload.text {
                Ok(text) => Ok((with_text(so_far.0, text@), so_far.1)),
                Err(error) => Err(ReplyError::Value(error)),
            }
        } else if name@ == "notify"@ {
            match payload.text {
                Ok(text) => Ok((so_far.0, Some(text@))),
                Err(error) => Err(ReplyError::Value(error)),
            }
        } else {
            Ok((stored(so_far.0, name@, payload.data@), so_far.1))
        },
    }
}

/// What a list of entries comes to, a later one taking precedence, or the
/// first fault among them.
pub open spec fn gathered(entries: Seq<Entry>) -> Result<Replacement, ReplyError>
    decreases entries.len(),
{
    if entries.len() == 0 {
        Ok((Flavours::empty(), None))
    } else {
        match gathered(entries.drop_last()) {
            Ok(so_far) => with_entry(so_far, entries.last()),
            Err(error) => Err(error),
        }
    }
}

/// The replacement that a table asks for.
pub open spec fn table_asked(entries: Seq<Entry>) -> Result<Replacement, ReplyError> {
    match gathered(entries) {
        Ok((flavours, notify)) => if flavours.len() == 0 {
            Err(ReplyError::OnlyNotify)
        } else {
            Ok((canonical(flavours), notify))
        },
        Err(error) => Err(error),
    }
}

/// The replacement that an answer asks for.
pub open spec fn asked(answer: Answer) -> Result<Replacement, ReplyError> {
    match answer {
        Answer::Text(payload) => match payload.text {
            Ok(text) => Ok((canonical(with_text(Flavours::empty(), text@)), None)),
            Err(error) => Err(ReplyError::Value(error)),
        },
        Answer::Table(entries) => table_asked(entries@),
        Answer::Other(kind) => Err(ReplyError::WrongType(kind)),
    }
}

/// Convert a string or MIME-keyed table into a replacement selection.
/// `text` sets the plain-text family; `notify` is sent separately after publish.
pub fn to_rewrite(answer: Answer) -> (r: Result<Rewrite, ReplyError>)
    ensures
        match r {
            Ok(rewrite) => asked(answer) == Ok::<Replacement, ReplyError>(rewrite@),
            Err(error) => asked(answer) == Err::<Replacement, ReplyError>(error),
        },
{
    let mut rewrite = Rewrite { selection: Selection::new(), notify: None };
    match answer {
        Answer::Text(payload) => match payload.text {
            Ok(text) => {
                rewrite.selection.set_text(text.as_str());
            },
            Err(error) => {
                return Err(ReplyError::Value(error));
            },
        },
        Answer::Table(entries) => {
            gather(&mut rewrite, entries)?;
            if rewrite.selection.is_empty() {
                return Err(ReplyError::OnlyNotify);
            }
        },
        Answer::Other(kind) => {
            return Err(ReplyError::WrongType(kind));
        },
    }
    // Use stable MIME ordering instead of Lua table iteration order.
    rewrite.selection.canonical_order();
    Ok(rewrite)
}

/// Fill an empty rewrite from the entries of a table.
fn gather(rewrite: &mut Rewrite, entries: Vec<Entry>) -> (r: Result<(), ReplyError>)
    requires
        old(rewrite)@ == (Flavours::empty(), None::<Seq<char>>),
    ensures
        match r {
            Ok(_) => gathered(entries@) == Ok::<Replacement, ReplyError>(final(rewrite)@),
            Err(error) => gathered(entries@) == Err::<Replacement, ReplyError>(error),
        },
{
    assert(entries@.take(0) =~= Seq::<Entry>::empty());
    for entry in it: entries
        invariant
            it.seq() == entries@,
            gathered(entries@.take(it.index())) == Ok::<Replacement, ReplyError>(rewrite@),
    {
        proof {
            let part = entries@.take(it.index() + 1);
            assert(part.drop_last() =~= entries@.take(it.index()));
            assert(part.last() == entry);
        }
        match entry {
            Err(error) => {
                proof {
                    lemma_first_fault(entries@, it.index() + 1);
                }
                return Err(ReplyError::Value(error));
            },
            Ok((name, payload)) => {
                if same_text(name.as_str(), "text") {
                    match payload.text {
                        Ok(text) => {
                            rewrite.selection.set_text(text.as_str());
                        },
                        Err(error) => {
                            proof {
                                lemma_first_fault(entries@, it.index() + 1);
                            }
                            return Err(ReplyError::Value(error));
                        },
                    }
                } else if same_text(name.as_str(), "notify") {
                    match payload.text {
                        Ok(text) => {
                            rewrite.notify = Some(text);
                        },
                        Err(error) => {
                            proof {
                                lemma_first_fault(entries@, it.index() + 1);
                            }
                            return Err(ReplyError::Value(error));
                        },
                    }
                } else {
                    rewrite.selection.set(name, payload.data);
                }
            },
        }
    }
    assert(entries@.take(entries@.len() as int) =~= entries@);
    Ok(())
}

impl ReplyError {
    /// What to tell the author of the rule.
    pub open spec fn text(&self) -> Seq<char> {
        match self {
            ReplyError::Value(error) => lua_message(*error),
            ReplyError::OnlyNotify =>
                "nothing but `notify`: a rule has to change the clipboard too"@,
            ReplyError::WrongType(kind) => "expected a string or a table, got "@ + kind_name(*kind),
        }
    }

    pub fn message(&self) -> (r: String)
        ensures
            r@ == self.text(),
    {
        match self {
            ReplyError::Value(error) => error_text(error),
            ReplyError::OnlyNotify => {
                "nothing but `notify`: a rule has to change the clipboard too".to_string()
            },
            ReplyError::WrongType(kind) => {
                let mut out = "expected a string or a table, got ".to_string();
                push_text(&mut out, kind.name());
                out
            },
        }
    }
}

/// What is wrong with the first entries is wrong with all of them.
proof fn lemma_first_fault(entries: Seq<Entry>, n: int)
    requires
        0 <= n <= entries.len(),
        gathered(entries.take(n)) is Err,
    ensures
        gathered(entries) == gathered(entries.take(n)),
    decreases entries.len(),
{
    if n == entries.len() {
        assert(entries.take(n) =~= entries);
    } else {
        assert(entries.drop_last().take(n) =~= entries.take(n));
        lemma_first_fault(entries.drop_last(), n);
    }
}

// -------------------------------------------------------------------- laws

/// The name of an entry that could be read.
pub open spec fn name_of(entry: Entry) -> Seq<char> {
    (entry->Ok_0).0@
}

/// The payload of an entry that could be read.
pub open spec fn data_of(entry: Entry) -> Seq<u8> {
    (entry->Ok_0).1.data@
}

/// The text of an entry that is one.
pub open spec fn words_of(entry: Entry) -> Seq<char> {
    ((entry->Ok_0).1.text->Ok_0)@
}

/// The entries of a table as Lua keeps them: every name once. The plain text
/// is given by `text` or type by type, not both ways.
pub open spec fn plain_table(entries: Seq<Entry>) -> bool {
    &&& forall|i: int| 0 <= i < entries.len() ==> #[trigger] entries[i] is Ok
    &&& forall|i: int, j: int|
        0 <= i < j < entries.len() ==> name_of(#[trigger] entries[i]) != name_of(
            #[trigger] entries[j],
        )
    &&& forall|i: int, j: int|
        0 <= i < entries.len() && 0 <= j < entries.len() && name_of(#[trigger] entries[i])
            == "text"@ ==> !names(TEXT_MIMES@).contains(name_of(#[trigger] entries[j]))
}

/// An entry gives this payload to this MIME type.
pub open spec fn gives(entry: Entry, mime: Seq<char>, data: Seq<u8>) -> bool {
    if name_of(entry) == "text"@ {
        names(TEXT_MIMES@).contains(mime) && data == encode_utf8(words_of(entry))
    } else {
        name_of(entry) != "notify"@ && name_of(entry) == mime && data_of(entry) == data
    }
}

/// An entry that is text by its name is text by its bytes.
pub open spec fn sound(entry: Entry) -> bool {
    name_of(entry) == "text"@ || name_of(entry) == "notify"@ ==> (entry->Ok_0).1.text is Ok
}

proof fn lemma_text_is_no_mime()
    ensures
        !names(TEXT_MIMES@).contains("text"@),
        !names(TEXT_MIMES@).contains("notify"@),
        "text"@ != "notify"@,
{
    reveal_strlit("text");
    reveal_strlit("notify");
    reveal_strlit("text/plain;charset=utf-8");
    reveal_strlit("text/plain");
    reveal_strlit("UTF8_STRING");
    reveal_strlit("STRING");
    reveal_strlit("TEXT");
    let all = names(TEXT_MIMES@);
    assert("text"@.len() == 4);
    assert("notify"@[0] == 'n');
    assert forall|i: int| 0 <= i < all.len() implies all[i] != "text"@ && all[i] != "notify"@ by {
        assert(all[i] == TEXT_MIMES@[i]@);
        assert(i == 0 || i == 1 || i == 2 || i == 3 || i == 4);
        if i == 4 {
            assert(all[i][0] == 'T');
            assert("text"@[0] == 't');
        }
        if i == 3 {
            assert(all[i][0] == 'S');
        }
    }
}

/// What a table comes to, entry by entry.
proof fn lemma_gathered(entries: Seq<Entry>)
    requires
        plain_table(entries),
    ensures
        match gathered(entries) {
            Ok((flavours, notify)) => {
                &&& forall|i: int| 0 <= i < entries.len() ==> sound(#[trigger] entries[i])
                &&& unique(flavours)
                &&& forall|m: Seq<char>, d: Seq<u8>|
                    lookup(flavours, m) == Some(d) <==> exists|i: int|
                        0 <= i < entries.len() && #[trigger] gives(entries[i], m, d)
                &&& forall|i: int|
                    0 <= i < entries.len() && name_of(#[trigger] entries[i]) == "notify"@
                        ==> notify == Some(words_of(entries[i]))
                &&& (forall|i: int|
                    0 <= i < entries.len() ==> name_of(#[trigger] entries[i]) != "notify"@)
                    ==> notify is None
            },
            Err(_) => exists|i: int| 0 <= i < entries.len() && !sound(#[trigger] entries[i]),
        },
    decreases entries.len(),
{
    lemma_text_is_no_mime();
    if entries.len() == 0 {
        assert(mimes_of(Flavours::empty()).len() == 0);
        assert forall|m: Seq<char>, d: Seq<u8>| lookup(Flavours::empty(), m) != Some(d) by {
            lemma_find(mimes_of(Flavours::empty()), m);
        }
    } else {
        let front = entries.drop_last();
        let last = entries.last();
        assert(plain_table(front)) by {
            assert forall|i: int, j: int| 0 <= i < j < front.len() implies name_of(
                #[trigger] front[i],
            ) != name_of(#[trigger] front[j]) by {
                assert(name_of(entries[i]) != name_of(entries[j]));
            }
            assert forall|i: int, j: int|
                0 <= i < front.len() && 0 <= j < front.len() && name_of(#[trigger] front[i])
                    == "text"@ implies !names(TEXT_MIMES@).contains(
                name_of(#[trigger] front[j]),
            ) by {
                assert(name_of(entries[i]) == "text"@);
                assert(!names(TEXT_MIMES@).contains(name_of(entries[j])));
            }
            assert forall|i: int| 0 <= i < front.len() implies #[trigger] front[i] is Ok by {
                assert(entries[i] is Ok);
            }
        }
        lemma_gathered(front);
        assert(entries[entries.len() - 1] == last);
        assert(last is Ok);
        assert forall|i: int| 0 <= i < front.len() implies front[i] == entries[i] by {}
        match gathered(front) {
            Err(error) => {
                let i = choose|i: int| 0 <= i < front.len() && !sound(#[trigger] front[i]);
                assert(!sound(entries[i]));
            },
            Ok((was, notify)) => {
                if !sound(last) {
                    assert(!sound(entries[entries.len() - 1]));
                } else {
                    lemma_gathered_step(entries, was, notify);
                }
            },
        }
    }
}

proof fn lemma_gathered_step(entries: Seq<Entry>, was: Flavours, notify: Option<Seq<char>>)
    requires
        plain_table(entries),
        entries.len() > 0,
        sound(entries.last()),
        gathered(entries.drop_last()) == Ok::<Replacement, ReplyError>((was, notify)),
        forall|i: int| 0 <= i < entries.len() - 1 ==> sound(#[trigger] entries[i]),
        unique(was),
        forall|m: Seq<char>, d: Seq<u8>|
            lookup(was, m) == Some(d) <==> exists|i: int|
                0 <= i < entries.len() - 1 && #[trigger] gives(entries[i], m, d),
    ensures
        gathered(entries) is Ok,
        ({
            let flavours = (gathered(entries)->Ok_0).0;
            &&& unique(flavours)
            &&& forall|m: Seq<char>, d: Seq<u8>|
                lookup(flavours, m) == Some(d) <==> exists|i: int|
                    0 <= i < entries.len() && #[trigger] gives(entries[i], m, d)
        }),
{
    lemma_text_is_no_mime();
    let n = entries.len() - 1;
    let last = entries[n];
    assert(last == entries.last() && last is Ok);
    let now = (gathered(entries)->Ok_0).0;
    let text = words_of(last);
    if name_of(last) == "text"@ {
        law_text_set_is_read_back(was, text, Seq::empty());
    } else if name_of(last) != "notify"@ {
        crate::selection::law_storing_keeps_the_order(was, name_of(last), data_of(last));
    }
    assert forall|m: Seq<char>, d: Seq<u8>|
        lookup(now, m) == Some(d) <==> exists|i: int|
            0 <= i < entries.len() && #[trigger] gives(entries[i], m, d) by {
        if name_of(last) == "text"@ {
            law_text_set_is_read_back(was, text, m);
        } else if name_of(last) != "notify"@ {
            law_stored_is_found(was, name_of(last), data_of(last), m);
        }
        // What the last entry gives, no earlier one gives too.
        assert forall|i: int| 0 <= i < n && gives(last, m, data_of(last)) implies !gives(
            #[trigger] entries[i],
            m,
            d,
        ) by {
            assert(name_of(entries[i]) != name_of(entries[n]));
        }
        if exists|i: int| 0 <= i < entries.len() && #[trigger] gives(entries[i], m, d) {
            let i = choose|i: int| 0 <= i < entries.len() && #[trigger] gives(entries[i], m, d);
            if i < n {
                assert(gives(entries[i], m, d));
                assert(name_of(entries[i]) != name_of(entries[n]));
                if name_of(last) == "text"@ {
                    assert(!names(TEXT_MIMES@).contains(name_of(entries[i])));
                }
                if name_of(entries[i]) == "text"@ {
                    assert(!names(TEXT_MIMES@).contains(name_of(entries[n])));
                }
            }
        }
        if lookup(now, m) == Some(d) {
            if lookup(was, m) == Some(d) {
                let i = choose|i: int|
                    0 <= i < entries.len() - 1 && #[trigger] gives(entries[i], m, d);
                assert(gives(entries[i], m, d));
            } else {
                assert(gives(entries[n], m, d));
            }
        }
    }
}

/// The replacement does not depend on the order in which Lua walks a table, nor
/// whether there is one. With more than one fault, the first in that order is
/// reported.
pub proof fn law_table_order_does_not_matter(a: Seq<Entry>, b: Seq<Entry>)
    requires
        plain_table(a),
        plain_table(b),
        forall|e: Entry| #[trigger] a.contains(e) <==> #[trigger] b.contains(e),
    ensures
        table_asked(a) is Ok <==> table_asked(b) is Ok,
        table_asked(a) is Ok ==> table_asked(a) == table_asked(b),
{
    lemma_gathered(a);
    lemma_gathered(b);
    lemma_same_gathered(a, b);
    lemma_same_gathered(b, a);
    if gathered(a) is Ok {
        let x = gathered(a)->Ok_0;
        let y = gathered(b)->Ok_0;
        assert forall|m: Seq<char>| #[trigger] lookup(x.0, m) == lookup(y.0, m) by {
            if lookup(x.0, m) is Some {
                let d = lookup(x.0, m)->0;
                assert(lookup(x.0, m) == Some(d));
                assert(lookup(y.0, m) == Some(d));
            }
            if lookup(y.0, m) is Some {
                let d = lookup(y.0, m)->0;
                assert(lookup(y.0, m) == Some(d));
                assert(lookup(x.0, m) == Some(d));
            }
        }
        law_same_payloads_same_order(x.0, y.0);
        law_canonical_order_keeps_the_contents(x.0);
        law_canonical_order_keeps_the_contents(y.0);
        vstd::seq_lib::to_multiset_len(x.0);
        vstd::seq_lib::to_multiset_len(y.0);
        vstd::seq_lib::to_multiset_len(canonical(x.0));
        vstd::seq_lib::to_multiset_len(canonical(y.0));
    }
}

proof fn lemma_same_gathered(a: Seq<Entry>, b: Seq<Entry>)
    requires
        plain_table(a),
        plain_table(b),
        forall|e: Entry| #[trigger] a.contains(e) ==> b.contains(e),
    ensures
        gathered(a) is Err ==> gathered(b) is Err,
        gathered(a) is Ok && gathered(b) is Ok ==> {
            let x = gathered(a)->Ok_0;
            let y = gathered(b)->Ok_0;
            &&& forall|m: Seq<char>, d: Seq<u8>|
                lookup(x.0, m) == Some(d) ==> lookup(y.0, m) == Some(d)
            &&& x.1 is Some ==> x.1 == y.1
        },
{
    lemma_gathered(a);
    lemma_gathered(b);
    if gathered(a) is Err {
        let i = choose|i: int| 0 <= i < a.len() && !sound(#[trigger] a[i]);
        assert(a.contains(a[i]));
            assert(b.contains(a[i]));
        let j = choose|j: int| 0 <= j < b.len() && b[j] == a[i];
        assert(!sound(b[j]));
    } else if gathered(b) is Ok {
        let x = gathered(a)->Ok_0;
        let y = gathered(b)->Ok_0;
        assert forall|m: Seq<char>, d: Seq<u8>| lookup(x.0, m) == Some(d) implies lookup(y.0, m)
            == Some(d) by {
            let i = choose|i: int| 0 <= i < a.len() && #[trigger] gives(a[i], m, d);
            assert(a.contains(a[i]));
            assert(b.contains(a[i]));
            let j = choose|j: int| 0 <= j < b.len() && b[j] == a[i];
            assert(gives(b[j], m, d));
        }
        if x.1 is Some {
            let i = choose|i: int| 0 <= i < a.len() && name_of(#[trigger] a[i]) == "notify"@;
            assert(a.contains(a[i]));
            assert(b.contains(a[i]));
            let j = choose|j: int| 0 <= j < b.len() && b[j] == a[i];
            assert(name_of(b[j]) == "notify"@);
        }
    }
}

/// A table is published entry by entry: what an entry gives to a type is what that
/// type holds, and nothing else is there. What `notify` says rides along and is no
/// flavour, so a table with nothing else is refused.
pub proof fn law_a_table_is_published_entry_by_entry(entries: Seq<Entry>)
    requires
        plain_table(entries),
    ensures
        match table_asked(entries) {
            Ok((flavours, notify)) => {
                &&& forall|m: Seq<char>, d: Seq<u8>|
                    lookup(flavours, m) == Some(d) <==> exists|i: int|
                        0 <= i < entries.len() && #[trigger] gives(entries[i], m, d)
                &&& forall|i: int|
                    0 <= i < entries.len() && name_of(#[trigger] entries[i]) == "notify"@
                        ==> notify == Some(words_of(entries[i]))
                &&& (forall|i: int|
                    0 <= i < entries.len() ==> name_of(#[trigger] entries[i]) != "notify"@)
                    ==> notify is None
            },
            Err(_) => {
                ||| exists|i: int| 0 <= i < entries.len() && !sound(#[trigger] entries[i])
                ||| forall|i: int|
                    0 <= i < entries.len() ==> name_of(#[trigger] entries[i]) == "notify"@
            },
        },
        (forall|i: int| 0 <= i < entries.len() ==> name_of(#[trigger] entries[i]) == "notify"@)
            ==> table_asked(entries) is Err,
{
    lemma_gathered(entries);
    lemma_text_is_no_mime();
    if let Ok((was, notify)) = gathered(entries) {
        let now = canonical(was);
        law_canonical_order_keeps_the_contents(was);
        assert forall|m: Seq<char>| #[trigger] lookup(now, m) == lookup(was, m) by {
            crate::selection::law_ordering_keeps_the_payloads(was, now, m);
        }
        if was.len() == 0 {
            assert forall|i: int| 0 <= i < entries.len() implies name_of(#[trigger] entries[i])
                == "notify"@ by {
                lemma_nothing_given(entries, was, i);
            }
        } else {
            let mime = was[0].0;
            lemma_find(mimes_of(was), mime);
            assert(mimes_of(was)[0] == mime);
            assert(mimes_of(was).contains(mime));
            let d = lookup(was, mime)->0;
            assert(lookup(was, mime) == Some(d));
            let i = choose|i: int| 0 <= i < entries.len() && #[trigger] gives(entries[i], mime, d);
            assert(name_of(entries[i]) != "notify"@);
        }
    }
}

/// Where nothing is stored, no entry gives anything.
proof fn lemma_nothing_given(entries: Seq<Entry>, flavours: Flavours, i: int)
    requires
        0 <= i < entries.len(),
        flavours.len() == 0,
        forall|m: Seq<char>, d: Seq<u8>|
            lookup(flavours, m) == Some(d) <==> exists|i: int|
                0 <= i < entries.len() && #[trigger] gives(entries[i], m, d),
    ensures
        name_of(entries[i]) == "notify"@,
{
    let mime = if name_of(entries[i]) == "text"@ {
        TEXT_MIMES@[0]@
    } else {
        name_of(entries[i])
    };
    let data = if name_of(entries[i]) == "text"@ {
        encode_utf8(words_of(entries[i]))
    } else {
        data_of(entries[i])
    };
    assert(names(TEXT_MIMES@)[0] == TEXT_MIMES@[0]@);
    assert(names(TEXT_MIMES@).contains(TEXT_MIMES@[0]@));
    lemma_find(mimes_of(flavours), mime);
    assert(lookup(flavours, mime) is None);
    if name_of(entries[i]) != "notify"@ {
        assert(gives(entries[i], mime, data));
        assert(lookup(flavours, mime) == Some(data));
    }
}

/// Every replacement can be published: it holds something, nothing twice, and
/// advertises it in canonical order.
pub proof fn law_replacements_are_in_order(answer: Answer)
    ensures
        asked(answer) matches Ok(replacement) ==> {
            &&& replacement.0.len() > 0
            &&& unique(replacement.0)
            &&& in_order(replacement.0)
        },
{
    let filled = match answer {
        Answer::Text(payload) => with_text(Flavours::empty(), (payload.text->Ok_0)@),
        Answer::Table(entries) => match gathered(entries@) {
            Ok(content) => content.0,
            Err(_) => Flavours::empty(),
        },
        Answer::Other(_) => Flavours::empty(),
    };
    assert(mimes_of(Flavours::empty()).len() == 0);
    match answer {
        Answer::Text(payload) => {
            let text = (payload.text->Ok_0)@;
            law_text_set_is_read_back(Flavours::empty(), text, TEXT_MIMES@[0]@);
            assert(names(TEXT_MIMES@)[0] == TEXT_MIMES@[0]@);
            assert(names(TEXT_MIMES@).contains(TEXT_MIMES@[0]@));
            lemma_find(mimes_of(filled), TEXT_MIMES@[0]@);
        },
        Answer::Table(entries) => {
            lemma_gathered_unique(entries@);
        },
        Answer::Other(_) => {},
    }
    law_canonical_order_keeps_the_contents(filled);
    crate::selection::law_ordering_keeps_the_payloads(filled, canonical(filled), Seq::empty());
}

proof fn lemma_gathered_unique(entries: Seq<Entry>)
    ensures
        gathered(entries) matches Ok(content) ==> unique(content.0),
    decreases entries.len(),
{
    assert(mimes_of(Flavours::empty()).len() == 0);
    if entries.len() > 0 {
        lemma_gathered_unique(entries.drop_last());
        if let Ok(was) = gathered(entries.drop_last()) {
            if let Ok((name, payload)) = entries.last() {
                law_text_set_is_read_back(was.0, (payload.text->Ok_0)@, Seq::empty());
                crate::selection::law_storing_keeps_the_order(was.0, name@, payload.data@);
            }
        }
    }
}

/// A text that a handler returns is what the clipboard then reads as, under
/// every name of the plain-text family and nothing else.
pub proof fn law_a_text_answer_becomes_the_text(payload: Payload, mime: Seq<char>)
    requires
        payload.text is Ok,
    ensures
        asked(Answer::Text(payload)) matches Ok(replacement) && {
            &&& replacement.1 is None
            &&& text_of(replacement.0) == Some((payload.text->Ok_0)@)
            &&& lookup(replacement.0, mime) == if names(TEXT_MIMES@).contains(mime) {
                Some(encode_utf8((payload.text->Ok_0)@))
            } else {
                None
            }
        },
{
    let text = (payload.text->Ok_0)@;
    let empty = Flavours::empty();
    let filled = with_text(empty, text);
    assert(mimes_of(empty).len() == 0);
    lemma_find(mimes_of(empty), mime);
    law_text_set_is_read_back(empty, text, mime);
    law_canonical_order_keeps_the_contents(filled);
    crate::selection::law_ordering_keeps_the_payloads(filled, canonical(filled), mime);
}

/// The first entry that is not what it has to be decides why a table is refused: one
/// that could not be read, or a `text` or a `notify` that is no text. Those after it
/// do not count.
pub proof fn law_the_first_fault_is_reported(entries: Seq<Entry>, i: int, fault: mlua::Error)
    requires
        0 <= i < entries.len(),
        forall|j: int|
            0 <= j < i ==> {
                &&& #[trigger] entries[j] is Ok
                &&& (entries[j]->Ok_0).0@ == "text"@ || (entries[j]->Ok_0).0@ == "notify"@ ==> (
                entries[j]->Ok_0).1.text is Ok
            },
        match entries[i] {
            Err(error) => error == fault,
            Ok((name, payload)) => {
                &&& name@ == "text"@ || name@ == "notify"@
                &&& payload.text == Err::<String, mlua::Error>(fault)
            },
        },
    ensures
        table_asked(entries) == Err::<Replacement, ReplyError>(ReplyError::Value(fault)),
{
    let part = entries.take(i + 1);
    lemma_no_fault(entries, i);
    assert(part.drop_last() =~= entries.take(i));
    assert(part.last() == entries[i]);
    lemma_first_fault(entries, i + 1);
}

proof fn lemma_no_fault(entries: Seq<Entry>, n: int)
    requires
        0 <= n <= entries.len(),
        forall|j: int|
            0 <= j < n ==> {
                &&& #[trigger] entries[j] is Ok
                &&& (entries[j]->Ok_0).0@ == "text"@ || (entries[j]->Ok_0).0@ == "notify"@ ==> (
                entries[j]->Ok_0).1.text is Ok
            },
    ensures
        gathered(entries.take(n)) is Ok,
    decreases n,
{
    let part = entries.take(n);
    if n > 0 {
        lemma_no_fault(entries, n - 1);
        assert(part.drop_last() =~= entries.take(n - 1));
        assert(part.last() == entries[n - 1]);
    }
}

/// A table of nothing but `notify`, or of nothing at all, is refused as such, and a
/// value that is neither a text nor a table is refused by its kind.
pub proof fn law_what_is_no_replacement(entries: Seq<Entry>, kind: Kind)
    requires
        forall|i: int|
            0 <= i < entries.len() ==> {
                &&& #[trigger] entries[i] is Ok
                &&& (entries[i]->Ok_0).0@ == "notify"@
                &&& (entries[i]->Ok_0).1.text is Ok
            },
    ensures
        table_asked(entries) == Err::<Replacement, ReplyError>(ReplyError::OnlyNotify),
        asked(Answer::Other(kind)) == Err::<Replacement, ReplyError>(ReplyError::WrongType(kind)),
{
    lemma_only_notify(entries);
}

proof fn lemma_only_notify(entries: Seq<Entry>)
    requires
        forall|i: int|
            0 <= i < entries.len() ==> {
                &&& #[trigger] entries[i] is Ok
                &&& (entries[i]->Ok_0).0@ == "notify"@
                &&& (entries[i]->Ok_0).1.text is Ok
            },
    ensures
        gathered(entries) matches Ok(content) && content.0.len() == 0,
    decreases entries.len(),
{
    lemma_text_is_no_mime();
    if entries.len() > 0 {
        let front = entries.drop_last();
        assert forall|i: int| 0 <= i < front.len() implies {
            &&& #[trigger] front[i] is Ok
            &&& (front[i]->Ok_0).0@ == "notify"@
            &&& (front[i]->Ok_0).1.text is Ok
        } by {
            assert(front[i] == entries[i]);
        }
        lemma_only_notify(front);
        assert(entries[entries.len() - 1] == entries.last());
    }
}

/// A further entry of a table takes precedence over those before it, and disturbs
/// nothing else: `text` sets the whole plain-text family, `notify` what is told, and
/// any other name the type of that name.
pub proof fn law_a_later_entry_takes_precedence(
    entries: Seq<Entry>,
    was: Replacement,
    name: String,
    payload: Payload,
    mime: Seq<char>,
)
    requires
        gathered(entries) == Ok::<Replacement, ReplyError>(was),
        name@ == "text"@ || name@ == "notify"@ ==> payload.text is Ok,
    ensures
        gathered(entries.push(Ok((name, payload)))) matches Ok(now) && {
            &&& name@ == "text"@ ==> now.1 == was.1 && lookup(now.0, mime) == if names(
                TEXT_MIMES@,
            ).contains(mime) {
                Some(encode_utf8((payload.text->Ok_0)@))
            } else {
                lookup(was.0, mime)
            }
            &&& name@ == "notify"@ ==> now.0 == was.0 && now.1 == Some((payload.text->Ok_0)@)
            &&& name@ != "text"@ && name@ != "notify"@ ==> now.1 == was.1 && lookup(now.0, mime)
                == if mime == name@ {
                Some(payload.data@)
            } else {
                lookup(was.0, mime)
            }
        },
{
    let all = entries.push(Ok((name, payload)));
    assert(all.drop_last() =~= entries);
    assert(all.last() == Ok::<(String, Payload), mlua::Error>((name, payload)));
    lemma_text_is_no_mime();
    if name@ == "text"@ {
        law_text_set_is_read_back(was.0, (payload.text->Ok_0)@, mime);
    } else if name@ != "notify"@ {
        law_stored_is_found(was.0, name@, payload.data@, mime);
    }
}

/// A text that a handler returns is refused when its bytes are no text.
pub proof fn law_bytes_are_no_text_answer(payload: Payload, fault: mlua::Error)
    requires
        payload.text == Err::<String, mlua::Error>(fault),
    ensures
        asked(Answer::Text(payload)) == Err::<Replacement, ReplyError>(ReplyError::Value(fault)),
{
}

/// The entries of a table are read one by one, each with its name and its bytes, to
/// the end of the table or to the first that could not be read, which is the last
/// entry then. A payload counts as text exactly when its bytes are UTF-8.
pub proof fn law_a_table_is_read_to_its_end(
    before: State,
    after: State,
    table: mlua::Table,
    entries: Seq<Entry>,
)
    requires
        may_read_entries(before, after, table, entries),
        entries.len() < usize::MAX,
    ensures
        ({
            let at = before.log().len() + 1;
            &&& after.log().len() >= at
            &&& after.log().take(before.log().len() as int) == before.log()
            &&& after.log()[at - 1] == Step::WalkEntries(table)
            &&& forall|i: int|
                0 <= i < entries.len() ==> match #[trigger] entries[i] {
                    Err(error) => i == entries.len() - 1 && after.log().len() == at + entries.len()
                        && after.log()[at + i] == Step::Entry(table, Some(Err(error))),
                    Ok((name, payload)) => match after.log()[at + i] {
                        Step::Entry(walked, Some(Ok((found, s)))) => {
                            &&& walked == table
                            &&& found == name
                            &&& payload.data@ == lua_bytes(s)
                            &&& payload.text is Ok <==> valid_utf8(lua_bytes(s))
                            &&& payload.text matches Ok(text) ==> encode_utf8(text@) == lua_bytes(s)
                        },
                        _ => false,
                    },
                }
            &&& (entries.len() == 0 || entries.last() is Ok) ==> after.log().len() == at
                + entries.len() + 1 && after.log().last() == Step::Entry(table, None)
        }),
{
    let (start, found, fault) = choose|
        start: State,
        found: Seq<(String, mlua::LuaString)>,
        fault: Option<mlua::Error>,
    |
        took(before, start, Step::WalkEntries(table)) && #[trigger] took_all(
            start,
            after,
            entry_steps(table, found, fault),
        ) && same_entries(found, fault, entries);
    let steps = entry_steps(table, found, fault);
    let at = before.log().len() + 1;
    assert(after.log() == before.log().push(Step::WalkEntries(table)) + steps);
    assert(after.log().take(before.log().len() as int) =~= before.log());
    assert forall|i: int| 0 <= i < entries.len() implies match #[trigger] entries[i] {
        Err(error) => i == entries.len() - 1 && after.log().len() == at + entries.len()
            && after.log()[at + i] == Step::Entry(table, Some(Err(error))),
        Ok((name, payload)) => match after.log()[at + i] {
            Step::Entry(walked, Some(Ok((found, s)))) => {
                &&& walked == table
                &&& found == name
                &&& payload.data@ == lua_bytes(s)
                &&& payload.text is Ok <==> valid_utf8(lua_bytes(s))
                &&& payload.text matches Ok(text) ==> encode_utf8(text@) == lua_bytes(s)
            },
            _ => false,
        },
    } by {
        assert(after.log()[at + i] == steps[i]);
        if i < found.len() {
            assert(steps[i] == Step::Entry(table, Some(Ok(found[i]))));
            if valid_utf8(lua_bytes(found[i].1)) {
                decode_utf8_encode_utf8(lua_bytes(found[i].1));
            }
        }
    }
    if fault is Some {
        assert(entries.last() is Err);
    }
}

/// What a handler returned is read by its kind: nothing for nil, a text by its bytes,
/// a table by its entries, and of anything else only its kind.
pub proof fn law_an_answer_is_read_by_its_kind(
    before: State,
    after: State,
    value: mlua::Value,
    reply: Reply,
)
    requires
        reads_as(before, after, Ok::<mlua::Value, mlua::Error>(value), reply),
    ensures
        reply is Nil <==> lua_kind(value) == Kind::Nil,
        !(reply is Failed) && !(reply is NoArguments),
        lua_kind(value) == Kind::Text ==> after == before && (
        reply matches Reply::Value(Answer::Text(payload)) && payload.data@ == lua_bytes(
            lua_string(value),
        ) && (payload.text is Ok <==> valid_utf8(lua_bytes(lua_string(value)))) && (
        payload.text matches Ok(text) ==> encode_utf8(text@) == lua_bytes(lua_string(value)))),
        lua_kind(value) == Kind::Table ==> (
        reply matches Reply::Value(Answer::Table(entries)) && may_read_entries(
            before,
            after,
            lua_table(value),
            entries@,
        )),
        lua_kind(value) != Kind::Table ==> after == before,
        lua_kind(value) != Kind::Nil && lua_kind(value) != Kind::Text && lua_kind(value)
            != Kind::Table ==> reply == Reply::Value(Answer::Other(lua_kind(value))),
{
    let bytes = lua_bytes(lua_string(value));
    if valid_utf8(bytes) {
        decode_utf8_encode_utf8(bytes);
    }
}

/// An answer that is no replacement is told of by what it is.
pub proof fn law_why_an_answer_is_unusable(kind: Kind, error: mlua::Error)
    ensures
        ReplyError::WrongType(kind).text() == "expected a string or a table, got "@ + kind_name(
            kind,
        ),
        ReplyError::OnlyNotify.text()
            == "nothing but `notify`: a rule has to change the clipboard too"@,
        ReplyError::Value(error).text() == lua_message(error),
{
}

/// What a table asks for is what its entries come to, in canonical order: every type
/// with its payload, no other, and the same notification.
pub proof fn law_a_table_asks_for_what_it_gives(
    entries: Seq<Entry>,
    was: Replacement,
    mime: Seq<char>,
)
    requires
        gathered(entries) == Ok::<Replacement, ReplyError>(was),
        was.0.len() > 0,
    ensures
        table_asked(entries) matches Ok(wanted) && {
            &&& lookup(wanted.0, mime) == lookup(was.0, mime)
            &&& wanted.0.to_multiset() == was.0.to_multiset()
            &&& wanted.1 == was.1
        },
{
    lemma_gathered_unique(entries);
    law_canonical_order_keeps_the_contents(was.0);
    crate::selection::law_ordering_keeps_the_payloads(was.0, canonical(was.0), mime);
}

} // verus!
