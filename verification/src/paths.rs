//! Unix paths as bytes: their directories, their components and joining them.

use vstd::prelude::*;
use vstd::slice::slice_to_vec;
use vstd::utf8::*;

use crate::text::{
    law_split_takes_lists_apart, lemma_find_is, lemma_split_pieces, same_bytes, split,
};

verus! {

broadcast use vstd::string::group_string_axioms;

/// The path separator.
pub const SEPARATOR: u8 = 0x2f;

/// The byte of a `.` component.
pub const DOT: u8 = 0x2e;

/// The bytes of a text.
pub open spec fn bytes_of(text: &str) -> Seq<u8> {
    encode_utf8(text@)
}

/// The working directory.
pub open spec fn here() -> Seq<u8> {
    seq![DOT]
}

/// Whether a path starts at the root.
pub open spec fn absolute(path: Seq<u8>) -> bool {
    path.len() > 0 && path[0] == SEPARATOR
}

/// A path without what names nothing at its end: separators after a component
/// and `.` components, but for the root itself and a leading `.`.
pub open spec fn trimmed(path: Seq<u8>) -> Seq<u8>
    decreases path.len(),
{
    let n = path.len();
    if n > 1 && (path[n - 1] == SEPARATOR || (path[n - 1] == DOT && path[n - 2] == SEPARATOR)) {
        trimmed(path.drop_last())
    } else {
        path
    }
}

/// Where the last component of a path starts: just after the last separator.
pub open spec fn last_start(path: Seq<u8>) -> int
    decreases path.len(),
{
    if path.len() == 0 || path.last() == SEPARATOR {
        path.len() as int
    } else {
        last_start(path.drop_last())
    }
}

/// The path without its final component. A path of one component has the empty
/// path above it; the root and the empty path have nothing above them.
pub open spec fn parent(path: Seq<u8>) -> Option<Seq<u8>> {
    let t = trimmed(path);
    if t.len() == 0 || t == seq![SEPARATOR] {
        None
    } else {
        Some(trimmed(t.take(last_start(t))))
    }
}

/// The directory that holds a file. `config.lua` alone lies in the working
/// directory, although the path above it is empty.
pub open spec fn dir_of(path: Seq<u8>) -> Seq<u8> {
    match parent(path) {
        Some(dir) => if dir.len() > 0 {
            dir
        } else {
            here()
        },
        None => here(),
    }
}

/// The components of a path, the root aside. Empty ones are no components; a
/// `.` is one only at the beginning.
pub open spec fn components(path: Seq<u8>) -> Seq<Seq<u8>> {
    let pieces = split(path, SEPARATOR);
    let named = pieces.filter(|c: Seq<u8>| c.len() > 0 && c != here());
    if pieces[0] == here() {
        seq![here()] + named
    } else {
        named
    }
}

/// Whether two paths are the same, component by component.
pub open spec fn same_path(a: Seq<u8>, b: Seq<u8>) -> bool {
    absolute(a) == absolute(b) && components(a) == components(b)
}

/// A path below another one; an absolute one replaces it.
pub open spec fn joined(base: Seq<u8>, name: Seq<u8>) -> Seq<u8> {
    if absolute(name) {
        name
    } else if base.len() == 0 || base.last() == SEPARATOR {
        base + name
    } else {
        base + seq![SEPARATOR] + name
    }
}

/// The directories of a config: beside the given path and beside the file that
/// it resolves to, without naming one directory twice.
pub open spec fn config_dirs(given: Seq<u8>, resolved: Seq<u8>) -> Seq<Seq<u8>> {
    if same_path(dir_of(given), dir_of(resolved)) {
        seq![dir_of(given)]
    } else {
        seq![dir_of(given), dir_of(resolved)]
    }
}

/// The byte strings of a list.
pub open spec fn byte_strings(list: Seq<Vec<u8>>) -> Seq<Seq<u8>> {
    list.map_values(|v: Vec<u8>| v@)
}

fn trimmed_len(path: &[u8], len: usize) -> (r: usize)
    requires
        len <= path@.len(),
    ensures
        r <= len,
        path@.take(r as int) == trimmed(path@.take(len as int)),
{
    let mut n: usize = len;
    while n > 1 && (path[n - 1] == SEPARATOR || (path[n - 1] == DOT && path[n - 2] == SEPARATOR))
        invariant
            n <= len <= path@.len(),
            trimmed(path@.take(n as int)) == trimmed(path@.take(len as int)),
        decreases n,
    {
        assert(path@.take(n as int).drop_last() =~= path@.take(n - 1));
        n -= 1;
    }
    n
}

fn last_start_at(path: &[u8], len: usize) -> (r: usize)
    requires
        len <= path@.len(),
    ensures
        r <= len,
        r == last_start(path@.take(len as int)),
{
    let mut n: usize = len;
    while n > 0 && path[n - 1] != SEPARATOR
        invariant
            n <= len <= path@.len(),
            last_start(path@.take(n as int)) == last_start(path@.take(len as int)),
        decreases n,
    {
        assert(path@.take(n as int).drop_last() =~= path@.take(n - 1));
        n -= 1;
    }
    n
}

/// The directory that holds a file.
pub fn directory(path: &[u8]) -> (r: Vec<u8>)
    ensures
        r@ == dir_of(path@),
{
    assert(path@.take(path@.len() as int) =~= path@);
    let n = trimmed_len(path, path.len());
    let ghost t = trimmed(path@);
    assert(path@.take(n as int) == t);
    if n > 0 && !(n == 1 && path[0] == SEPARATOR) {
        assert(t != seq![SEPARATOR]);
        let start = last_start_at(path, n);
        let m = trimmed_len(path, start);
        assert(path@.take(n as int).take(start as int) =~= path@.take(start as int));
        if m > 0 {
            let dir = slice_to_vec(path.split_at(m).0);
            assert(dir@ =~= path@.take(m as int));
            return dir;
        }
    } else {
        if n == 1 {
            assert(t =~= seq![SEPARATOR]);
        }
    }
    let mut dot: Vec<u8> = Vec::new();
    dot.push(DOT);
    assert(dot@ =~= here());
    dot
}

/// The components of a path, the root aside.
fn path_components(path: &[u8]) -> (r: Vec<Vec<u8>>)
    ensures
        byte_strings(r@) == components(path@),
{
    let ghost named = |c: Seq<u8>| c.len() > 0 && c != here();
    let ghost pieces = split(path@, SEPARATOR);
    let ghost lead: Seq<Seq<u8>> = if pieces[0] == here() {
        seq![here()]
    } else {
        Seq::empty()
    };
    let mut out: Vec<Vec<u8>> = Vec::new();
    let mut start: usize = 0;
    let mut more = true;
    proof {
        lemma_split_pieces(path@, SEPARATOR);
        assert(path@.subrange(0, path@.len() as int) =~= path@);
        assert(pieces =~= seq![pieces[0]] + pieces.skip(1));
    }
    // The first piece is the only one that may stay although it is a dot.
    while more
        invariant
            start <= path@.len(),
            named == (|c: Seq<u8>| c.len() > 0 && c != here()),
            pieces == split(path@, SEPARATOR),
            pieces.len() >= 1,
            lead == (if pieces[0] == here() {
                seq![here()]
            } else {
                Seq::<Seq<u8>>::empty()
            }),
            start == 0 && more ==> out@.len() == 0,
            start == 0 ==> split(path@.subrange(0, path@.len() as int), SEPARATOR) == pieces,
            ({
                let rest = if more {
                    split(path@.subrange(start as int, path@.len() as int), SEPARATOR)
                } else {
                    Seq::empty()
                };
                start > 0 || !more ==> lead + pieces.filter(named) == byte_strings(out@)
                    + rest.filter(named)
            }),
        decreases (if more { 1 + path@.len() - start } else { 0 }),
    {
        let ghost was = byte_strings(out@);
        let ghost part = path@.subrange(start as int, path@.len() as int);
        let ghost rest_before = split(part, SEPARATOR);
        let mut end: usize = start;
        while end < path.len() && path[end] != SEPARATOR
            invariant
                start <= end <= path@.len(),
                part == path@.subrange(start as int, path@.len() as int),
                forall|j: int| 0 <= j < end - start ==> part[j] != SEPARATOR,
            decreases path@.len() - end,
        {
            end += 1;
        }
        let ghost piece = path@.subrange(start as int, end as int);
        proof {
            lemma_find_is(part, SEPARATOR, end - start);
            assert(part.take(end - start) =~= piece);
            if end < path@.len() {
                assert(part.skip(end - start + 1) =~= path@.subrange(
                    end + 1,
                    path@.len() as int,
                ));
            } else {
                assert(part =~= piece);
            }
        }
        let is_dot = end - start == 1 && path[start] == DOT;
        proof {
            if is_dot {
                assert(piece =~= here());
            } else {
                assert(piece.len() != 1 || piece[0] != DOT);
            }
        }
        let mut name: Vec<u8> = Vec::new();
        let mut i: usize = start;
        while i < end
            invariant
                start <= i <= end <= path@.len(),
                name@ == path@.subrange(start as int, i as int),
            decreases end - i,
        {
            name.push(path[i]);
            i += 1;
        }
        let keep = start < end && (!is_dot || start == 0);
        if keep {
            out.push(name);
        }
        proof {
            let tail = if end < path@.len() {
                split(path@.subrange(end + 1, path@.len() as int), SEPARATOR)
            } else {
                Seq::empty()
            };
            assert(rest_before =~= seq![piece] + tail);
            Seq::filter_distributes_over_add(seq![piece], tail, named);
            assert(seq![piece].drop_last() =~= Seq::empty());
            reveal_with_fuel(Seq::filter, 2);
            if named(piece) {
                assert(seq![piece].filter(named) =~= seq![piece]);
            } else {
                assert(seq![piece].filter(named) =~= Seq::empty());
            }
            if keep {
                assert(byte_strings(out@) =~= was.push(piece));
            } else {
                assert(byte_strings(out@) =~= was);
            }
            if start == 0 {
                assert(pieces[0] == piece);
                assert(was =~= Seq::empty());
                assert(lead + pieces.filter(named) =~= byte_strings(out@) + tail.filter(named));
            } else {
                assert(lead + pieces.filter(named) =~= byte_strings(out@) + tail.filter(named));
            }
        }
        if end < path.len() {
            start = end + 1;
        } else {
            more = false;
        }
    }
    assert(Seq::<Seq<u8>>::empty().filter(named) =~= Seq::empty()) by {
        reveal(Seq::filter);
    }
    assert(byte_strings(out@) =~= components(path@));
    out
}

/// Whether two paths are the same, component by component.
pub fn paths_equal(a: &[u8], b: &[u8]) -> (r: bool)
    ensures
        r == same_path(a@, b@),
{
    if (a.len() > 0 && a[0] == SEPARATOR) != (b.len() > 0 && b[0] == SEPARATOR) {
        return false;
    }
    let x = path_components(a);
    let y = path_components(b);
    let ghost cx = components(a@);
    let ghost cy = components(b@);
    if x.len() != y.len() {
        assert(cx.len() != cy.len());
        return false;
    }
    let mut i: usize = 0;
    while i < x.len()
        invariant
            i <= x.len(),
            x.len() == y.len(),
            cx == byte_strings(x@),
            cx == components(a@),
            cy == components(b@),
            cy == byte_strings(y@),
            forall|j: int| 0 <= j < i ==> cx[j] == cy[j],
        decreases x.len() - i,
    {
        assert(cx[i as int] == x@[i as int]@);
        assert(cy[i as int] == y@[i as int]@);
        if !same_bytes(x[i].as_slice(), y[i].as_slice()) {
            return false;
        }
        i += 1;
    }
    assert(cx =~= cy);
    true
}

/// A path below another one; an absolute one replaces it.
pub fn join_path(base: &[u8], name: &[u8]) -> (r: Vec<u8>)
    ensures
        r@ == joined(base@, name@),
{
    let mut out: Vec<u8> = Vec::new();
    if !(name.len() > 0 && name[0] == SEPARATOR) {
        out = slice_to_vec(base);
        if base.len() > 0 && base[base.len() - 1] != SEPARATOR {
            out.push(SEPARATOR);
        }
    }
    let ghost front = out@;
    let mut i: usize = 0;
    while i < name.len()
        invariant
            i <= name.len(),
            out@ == front + name@.take(i as int),
        decreases name.len() - i,
    {
        out.push(name[i]);
        i += 1;
    }
    assert(name@.take(name@.len() as int) =~= name@);
    assert(out@ =~= joined(base@, name@));
    out
}

/// The directories of a config.
pub(crate) fn directories(given: &[u8], resolved: &[u8]) -> (r: Vec<Vec<u8>>)
    ensures
        byte_strings(r@) == config_dirs(given@, resolved@),
{
    let mut dirs: Vec<Vec<u8>> = Vec::new();
    let first = directory(given);
    let second = directory(resolved);
    let same = paths_equal(first.as_slice(), second.as_slice());
    dirs.push(first);
    if !same {
        dirs.push(second);
    }
    assert(byte_strings(dirs@) =~= config_dirs(given@, resolved@));
    dirs
}

/// The directory of a file is never the empty path, which names nothing.
pub proof fn law_a_directory_is_never_empty(path: Seq<u8>)
    ensures
        dir_of(path).len() > 0,
{
}

/// A config has one or two directories; the first is that of the given path,
/// no two of them are the same path, and none is empty.
pub proof fn law_config_directories_are_distinct(given: Seq<u8>, resolved: Seq<u8>)
    ensures
        1 <= config_dirs(given, resolved).len() <= 2,
        config_dirs(given, resolved)[0] == dir_of(given),
        config_dirs(given, resolved).len() == 2 ==> !same_path(
            config_dirs(given, resolved)[0],
            config_dirs(given, resolved)[1],
        ) && config_dirs(given, resolved)[1] == dir_of(resolved),
        forall|i: int|
            0 <= i < config_dirs(given, resolved).len() ==> (#[trigger] config_dirs(
                given,
                resolved,
            )[i]).len() > 0,
        given == resolved ==> config_dirs(given, resolved).len() == 1,
        config_dirs(given, resolved).len() == 1 <==> same_path(dir_of(given), dir_of(resolved)),
{
}

proof fn lemma_last_start(front: Seq<u8>, name: Seq<u8>)
    requires
        !name.contains(SEPARATOR),
    ensures
        last_start(name) == 0,
        last_start(front + seq![SEPARATOR] + name) == front.len() + 1,
    decreases name.len(),
{
    let path = front + seq![SEPARATOR] + name;
    if name.len() > 0 {
        let less = name.drop_last();
        assert(name.contains(name.last()));
        assert forall|i: int| 0 <= i < less.len() implies less[i] != SEPARATOR by {
            assert(name.contains(name[i]));
        }
        lemma_last_start(front, less);
        assert(path.drop_last() =~= front + seq![SEPARATOR] + less);
        assert(path.last() == name.last());
    }
}

/// A file in a directory has that directory; one that is named alone lies in the
/// working directory, and one just below the root in the root.
pub proof fn law_the_directory_of_a_file(dir: Seq<u8>, name: Seq<u8>)
    requires
        name.len() > 0,
        name != seq![0x2eu8],
        !name.contains(0x2f),
        dir.len() > 0,
        dir.last() != 0x2f,
        dir.len() > 1 ==> !(dir.last() == 0x2e && dir[dir.len() - 2] == 0x2f),
    ensures
        dir_of(dir + seq![0x2fu8] + name) == dir,
        dir_of(name) == seq![0x2eu8],
        dir_of(seq![0x2fu8] + name) == seq![0x2fu8],
{
    lemma_last_start(dir, name);
    lemma_last_start(Seq::empty(), name);
    assert forall|i: int| 0 <= i < name.len() implies name[i] != SEPARATOR by {
        assert(name.contains(name[i]));
    }
    if name.len() == 1 {
        assert(name =~= seq![name[0]]);
    }
    let path = dir + seq![SEPARATOR] + name;
    assert(path.last() == name.last());
    assert(trimmed(path) == path);
    assert(path != seq![SEPARATOR]);
    let above = path.take(dir.len() as int + 1);
    assert(above =~= dir + seq![SEPARATOR]);
    assert(above.drop_last() =~= dir);
    assert(trimmed(dir) == dir);
    assert(trimmed(above) == trimmed(above.drop_last()));
    assert(trimmed(name) == name);
    assert(name != seq![SEPARATOR]) by {
        assert(name[0] != SEPARATOR);
    }
    assert(name.take(0) =~= Seq::empty());
    let top = seq![SEPARATOR] + name;
    assert(Seq::empty() + seq![SEPARATOR] + name =~= top);
    assert(top.last() == name.last());
    assert(trimmed(top) == top);
    assert(top.take(1) =~= seq![SEPARATOR]);
    assert(top != seq![SEPARATOR]);
}

/// A separator at the end of a path, or a `.` behind one, names nothing: the path has
/// the same directory and the same components without it.
pub proof fn law_what_names_nothing_makes_no_difference(path: Seq<u8>)
    requires
        path.len() > 0,
    ensures
        dir_of(path + seq![0x2fu8]) == dir_of(path),
        dir_of(path + seq![0x2fu8, 0x2eu8]) == dir_of(path),
        components(path + seq![0x2fu8]) == components(path),
        components(path + seq![0x2fu8, 0x2eu8]) == components(path),
        same_path(path + seq![0x2fu8], path),
        same_path(path + seq![0x2fu8, 0x2eu8], path),
{
    let one = path + seq![SEPARATOR];
    let two = path + seq![SEPARATOR, DOT];
    assert(one.drop_last() =~= path);
    assert(two.drop_last() =~= one);
    assert(trimmed(one) == trimmed(path));
    assert(trimmed(two) == trimmed(one));
    lemma_one_more_piece(path, Seq::empty());
    lemma_one_more_piece(path, here());
    assert(path + seq![SEPARATOR] + Seq::empty() =~= one);
    assert(path + seq![SEPARATOR] + here() =~= two);
    assert(one[0] == path[0] && two[0] == path[0]);
}

proof fn lemma_one_more_piece(path: Seq<u8>, piece: Seq<u8>)
    requires
        !piece.contains(SEPARATOR),
    ensures
        components(path + seq![SEPARATOR] + piece) == components(path) + (if piece.len() > 0
            && piece != here() {
            seq![piece]
        } else {
            Seq::empty()
        }),
{
    let named = |c: Seq<u8>| c.len() > 0 && c != here();
    law_split_takes_lists_apart(path, piece, SEPARATOR);
    assert forall|i: int| 0 <= i < piece.len() implies piece[i] != SEPARATOR by {
        assert(piece.contains(piece[i]));
    }
    lemma_find_is(piece, SEPARATOR, piece.len() as int);
    let front = split(path, SEPARATOR);
    let last = seq![piece];
    assert(split(piece, SEPARATOR) =~= last);
    lemma_split_pieces(path, SEPARATOR);
    let all = split(path + seq![SEPARATOR] + piece, SEPARATOR);
    assert(all == front + last);
    assert(all[0] == front[0]);
    Seq::filter_distributes_over_add(front, last, named);
    reveal_with_fuel(Seq::filter, 2);
    assert(last.drop_last() =~= Seq::empty());
    if named(piece) {
        assert(last.filter(named) =~= last);
    } else {
        assert(last.filter(named) =~= Seq::empty());
    }
    assert(components(path + seq![SEPARATOR] + piece) =~= components(path) + (if named(piece) {
        seq![piece]
    } else {
        Seq::empty()
    }));
}

/// The components of a path are the names between its separators, in order; a `.` is
/// one only where the path begins with it.
pub proof fn law_components_are_between_separators(path: Seq<u8>, name: Seq<u8>)
    requires
        name.len() > 0,
        name != seq![0x2eu8],
        !name.contains(0x2f),
    ensures
        components(Seq::empty()) == Seq::<Seq<u8>>::empty(),
        components(name) == seq![name],
        components(seq![0x2eu8]) == seq![seq![0x2eu8]],
        components(path + seq![0x2fu8] + name) == components(path).push(name),
{
    let named = |c: Seq<u8>| c.len() > 0 && c != here();
    lemma_one_more_piece(path, name);
    assert(components(path + seq![SEPARATOR] + name) =~= components(path).push(name));
    reveal_with_fuel(Seq::filter, 2);
    let none = Seq::<u8>::empty();
    lemma_find_is(none, SEPARATOR, 0);
    assert(split(none, SEPARATOR) =~= seq![none]);
    assert(seq![none].drop_last() =~= Seq::empty());
    assert(seq![none][0].len() == 0);
    assert(here().len() == 1);
    assert(components(none) =~= Seq::<Seq<u8>>::empty());
    lemma_find_is(here(), SEPARATOR, 1);
    assert(split(here(), SEPARATOR) =~= seq![here()]);
    assert(seq![here()].drop_last() =~= Seq::empty());
    assert(components(here()) =~= seq![here()]);
    assert forall|i: int| 0 <= i < name.len() implies name[i] != SEPARATOR by {
        assert(name.contains(name[i]));
    }
    lemma_find_is(name, SEPARATOR, name.len() as int);
    assert(split(name, SEPARATOR) =~= seq![name]);
    assert(seq![name].drop_last() =~= Seq::empty());
    assert(components(name) =~= seq![name]);
}

/// Two paths are the same exactly when what is above their last names is the same and
/// the names are; one from the root is never the same as one that is not.
pub proof fn law_same_paths_have_the_same_names(a: Seq<u8>, b: Seq<u8>, x: Seq<u8>, y: Seq<u8>)
    requires
        a.len() > 0,
        b.len() > 0,
        x.len() > 0,
        y.len() > 0,
        x != seq![0x2eu8],
        y != seq![0x2eu8],
        !x.contains(0x2f),
        !y.contains(0x2f),
    ensures
        same_path(a, a),
        same_path(a + seq![0x2fu8] + x, b + seq![0x2fu8] + y) <==> same_path(a, b) && x == y,
        (a[0] == 0x2f) != (b[0] == 0x2f) ==> !same_path(a, b),
{
    law_components_are_between_separators(a, x);
    law_components_are_between_separators(b, y);
    let ca = components(a);
    let cb = components(b);
    let p = a + seq![SEPARATOR] + x;
    let q = b + seq![SEPARATOR] + y;
    assert(p[0] == a[0] && q[0] == b[0]);
    if ca.push(x) == cb.push(y) {
        assert(ca.push(x).last() == x && cb.push(y).last() == y);
        assert(ca.push(x).drop_last() =~= ca);
        assert(cb.push(y).drop_last() =~= cb);
    }
}

/// A relative path goes below another one with one separator between them; an
/// absolute one is taken as it is.
pub proof fn law_joining_paths(base: Seq<u8>, name: Seq<u8>)
    ensures
        name.len() > 0 && name[0] == 0x2f ==> joined(base, name) == name,
        name.len() == 0 || name[0] != 0x2f ==> {
            &&& joined(Seq::empty(), name) == name
            &&& base.len() > 0 && base.last() != 0x2f ==> joined(base, name) == base
                + seq![0x2fu8] + name
            &&& base.len() > 0 && base.last() == 0x2f ==> joined(base, name) == base + name
        },
{
    assert(Seq::<u8>::empty() + name =~= name);
}

/// Further separators, and a `.` between separators, make no difference to the
/// directory of a file.
pub proof fn law_separators_in_a_row_count_once(path: Seq<u8>, name: Seq<u8>)
    requires
        name.len() > 0,
        name != seq![0x2eu8],
        !name.contains(0x2f),
    ensures
        dir_of(path + seq![0x2fu8, 0x2fu8] + name) == dir_of(path + seq![0x2fu8] + name),
        dir_of(path + seq![0x2fu8, 0x2eu8, 0x2fu8] + name) == dir_of(path + seq![0x2fu8] + name),
{
    let one = path + seq![SEPARATOR];
    let two = path + seq![SEPARATOR, SEPARATOR];
    let dotted = path + seq![SEPARATOR, DOT, SEPARATOR];
    lemma_above_the_name(path, name);
    lemma_above_the_name(one, name);
    lemma_above_the_name(path + seq![SEPARATOR, DOT], name);
    assert(path + seq![SEPARATOR] + name =~= one + name);
    assert(one + seq![SEPARATOR] + name =~= two + name);
    assert(path + seq![SEPARATOR, DOT] + seq![SEPARATOR] + name =~= dotted + name);
    assert(one + seq![SEPARATOR] =~= two);
    assert(path + seq![SEPARATOR, DOT] + seq![SEPARATOR] =~= dotted);
    assert(two.drop_last() =~= one);
    assert(dotted.drop_last() =~= path + seq![SEPARATOR, DOT]);
    assert((path + seq![SEPARATOR, DOT]).drop_last() =~= one);
    assert(trimmed(two) == trimmed(one));
    assert(trimmed(dotted) == trimmed(path + seq![SEPARATOR, DOT]));
    assert(trimmed(path + seq![SEPARATOR, DOT]) == trimmed(one));
}

/// The directory of a named file is what is above its name.
proof fn lemma_above_the_name(path: Seq<u8>, name: Seq<u8>)
    requires
        name.len() > 0,
        name != here(),
        !name.contains(SEPARATOR),
    ensures
        dir_of(path + seq![SEPARATOR] + name) == if trimmed(path + seq![SEPARATOR]).len() > 0 {
            trimmed(path + seq![SEPARATOR])
        } else {
            here()
        },
{
    let all = path + seq![SEPARATOR] + name;
    lemma_last_start(path, name);
    assert forall|i: int| 0 <= i < name.len() implies name[i] != SEPARATOR by {
        assert(name.contains(name[i]));
    }
    if name.len() == 1 {
        assert(name =~= seq![name[0]]);
    }
    assert(all.last() == name.last());
    assert(trimmed(all) == all);
    assert(all != seq![SEPARATOR]);
    assert(all.take(path.len() as int + 1) =~= path + seq![SEPARATOR]);
}

} // verus!
