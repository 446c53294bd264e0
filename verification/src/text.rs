//! Text and byte helpers shared by the other modules.

use vstd::prelude::*;
use vstd::utf8::*;

verus! {

broadcast use vstd::string::group_string_axioms;

/// `String::push` appends one character at the end.
pub assume_specification[ String::push ](s: &mut String, c: char)
    ensures
        final(s)@ == old(s)@.push(c),
;

/// The texts that a list of strings holds.
pub open spec fn texts(list: Seq<String>) -> Seq<Seq<char>> {
    list.map_values(|s: String| s@)
}

/// The texts of a list of literals.
pub open spec fn names(list: Seq<&'static str>) -> Seq<Seq<char>> {
    list.map_values(|s: &'static str| s@)
}

/// Own copies of the literals in a list.
pub(crate) fn owned_names(list: &[&'static str]) -> (r: Vec<String>)
    ensures
        texts(r@) == names(list@),
{
    let mut out: Vec<String> = Vec::new();
    let mut i: usize = 0;
    while i < list.len()
        invariant
            i <= list.len(),
            texts(out@) == names(list@).take(i as int),
        decreases list.len() - i,
    {
        let ghost before = texts(out@);
        out.push(list[i].to_string());
        assert(texts(out@) =~= before.push(list@[i as int]@));
        assert(names(list@).take(i + 1) =~= before.push(list@[i as int]@));
        i += 1;
    }
    assert(names(list@).take(list@.len() as int) =~= names(list@));
    out
}

/// `std::str::from_utf8`: the text that the bytes encode, or nothing when they
/// are not valid UTF-8.
#[verifier::external_body]
pub(crate) fn from_utf8(bytes: &[u8]) -> (r: Option<&str>)
    ensures
        r is Some <==> valid_utf8(bytes@),
        r matches Some(s) ==> s@ == decode_utf8(bytes@),
{
    std::str::from_utf8(bytes).ok()
}

/// What `String::from_utf8_lossy` makes of bytes.
pub uninterp spec fn lossy_text(bytes: Seq<u8>) -> Seq<char>;

/// `String::from_utf8_lossy`: the text of the bytes, with a replacement for
/// what is not UTF-8.
#[verifier::external_body]
pub(crate) fn lossy(bytes: &[u8]) -> (r: String)
    ensures
        r@ == lossy_text(bytes@),
        valid_utf8(bytes@) ==> r@ == decode_utf8(bytes@),
{
    String::from_utf8_lossy(bytes).into_owned()
}

// ---------------------------------------------------------------- equality

/// Two texts with the same encoding are the same text.
pub proof fn lemma_encoding_is_injective(a: Seq<char>, b: Seq<char>)
    requires
        encode_utf8(a) == encode_utf8(b),
    ensures
        a == b,
{
    encode_utf8_decode_utf8(a);
    encode_utf8_decode_utf8(b);
}

/// Whether two byte strings are equal.
pub(crate) fn same_bytes(a: &[u8], b: &[u8]) -> (r: bool)
    ensures
        r == (a@ == b@),
{
    if a.len() != b.len() {
        return false;
    }
    let mut i: usize = 0;
    while i < a.len()
        invariant
            a.len() == b.len(),
            i <= a.len(),
            forall|j: int| 0 <= j < i ==> a@[j] == b@[j],
        decreases a.len() - i,
    {
        if a[i] != b[i] {
            return false;
        }
        i += 1;
    }
    assert(a@ =~= b@);
    true
}

/// Whether two texts are equal.
pub(crate) fn same_text(a: &str, b: &str) -> (r: bool)
    ensures
        r == (a@ == b@),
{
    let r = same_bytes(a.as_bytes(), b.as_bytes());
    proof {
        if r {
            lemma_encoding_is_injective(a@, b@);
        }
    }
    r
}

/// The index of a text among the given names, or their number.
pub(crate) fn name_index(name: &str, list: &[&'static str]) -> (r: usize)
    ensures
        r == find(names(list@), name@),
        r <= list@.len(),
        r < list@.len() <==> names(list@).contains(name@),
{
    let ghost known = names(list@);
    let mut i: usize = 0;
    while i < list.len()
        invariant
            i <= list.len(),
            known == names(list@),
            forall|j: int| 0 <= j < i ==> known[j] != name@,
        decreases list.len() - i,
    {
        if same_text(name, list[i]) {
            assert(known[i as int] == name@);
            proof {
                lemma_find_is(known, name@, i as int);
            }
            return i;
        }
        i += 1;
    }
    proof {
        lemma_find_is(known, name@, i as int);
    }
    i
}

/// Own copies of texts.
pub(crate) fn copied(list: &[String]) -> (r: Vec<String>)
    ensures
        texts(r@) == texts(list@),
{
    let mut out: Vec<String> = Vec::new();
    let mut i: usize = 0;
    while i < list.len()
        invariant
            i <= list.len(),
            texts(out@) == texts(list@).take(i as int),
        decreases list.len() - i,
    {
        let ghost was = texts(out@);
        out.push(list[i].clone());
        assert(texts(out@) =~= was.push(list@[i as int]@));
        assert(texts(list@).take(i + 1) =~= was.push(list@[i as int]@));
        i += 1;
    }
    assert(texts(list@).take(list@.len() as int) =~= texts(list@));
    out
}

/// Whether a text is on a list.
pub(crate) fn has_text(list: &[String], text: &str) -> (r: bool)
    ensures
        r == texts(list@).contains(text@),
{
    let mut i: usize = 0;
    while i < list.len()
        invariant
            i <= list.len(),
            forall|j: int| 0 <= j < i ==> #[trigger] texts(list@)[j] != text@,
        decreases list.len() - i,
    {
        if same_text(list[i].as_str(), text) {
            assert(texts(list@)[i as int] == text@);
            return true;
        }
        assert(texts(list@)[i as int] != text@);
        i += 1;
    }
    false
}

// ---------------------------------------------------------------- ordering

/// Byte-wise lexicographic order, a proper prefix coming first.
pub open spec fn lex_less(a: Seq<u8>, b: Seq<u8>) -> bool
    decreases a.len(),
{
    if b.len() == 0 {
        false
    } else if a.len() == 0 {
        true
    } else {
        a[0] < b[0] || (a[0] == b[0] && lex_less(a.drop_first(), b.drop_first()))
    }
}

pub proof fn lemma_lex_irreflexive(a: Seq<u8>)
    ensures
        !lex_less(a, a),
    decreases a.len(),
{
    if a.len() > 0 {
        lemma_lex_irreflexive(a.drop_first());
    }
}

pub proof fn lemma_lex_transitive(a: Seq<u8>, b: Seq<u8>, c: Seq<u8>)
    requires
        lex_less(a, b),
        lex_less(b, c),
    ensures
        lex_less(a, c),
    decreases a.len(),
{
    if a.len() > 0 && a[0] == b[0] && b[0] == c[0] {
        lemma_lex_transitive(a.drop_first(), b.drop_first(), c.drop_first());
    }
}

pub proof fn lemma_lex_total(a: Seq<u8>, b: Seq<u8>)
    ensures
        a == b || lex_less(a, b) || lex_less(b, a),
    decreases a.len(),
{
    if a.len() > 0 && b.len() > 0 && a[0] == b[0] {
        lemma_lex_total(a.drop_first(), b.drop_first());
        if a.drop_first() == b.drop_first() {
            assert(a =~= seq![a[0]] + a.drop_first());
            assert(b =~= seq![b[0]] + b.drop_first());
        }
    } else if a.len() == 0 && b.len() == 0 {
        assert(a =~= b);
    }
}

/// Whether `a` comes before `b` byte-wise.
pub(crate) fn bytes_less(a: &[u8], b: &[u8]) -> (r: bool)
    ensures
        r == lex_less(a@, b@),
{
    let mut i: usize = 0;
    assert(a@.skip(0) =~= a@);
    assert(b@.skip(0) =~= b@);
    while i < a.len() && i < b.len()
        invariant
            i <= a.len(),
            i <= b.len(),
            lex_less(a@, b@) == lex_less(a@.skip(i as int), b@.skip(i as int)),
        decreases a.len() - i,
    {
        if a[i] != b[i] {
            return a[i] < b[i];
        }
        assert(a@.skip(i as int).drop_first() =~= a@.skip(i + 1));
        assert(b@.skip(i as int).drop_first() =~= b@.skip(i + 1));
        i += 1;
    }
    i < b.len()
}

// ---------------------------------------------------------------- characters

/// The characters of a text.
pub(crate) fn chars_of(s: &str) -> (r: Vec<char>)
    ensures
        r@ == s@,
{
    let mut out: Vec<char> = Vec::new();
    for c in it: s.chars()
        invariant
            it.seq() == s@,
            out@ == s@.take(it.index()),
    {
        out.push(c);
    }
    out
}

/// The text of the characters from `from` up to, not including, `to`.
pub(crate) fn text_between(chars: &[char], from: usize, to: usize) -> (r: String)
    requires
        from <= to <= chars@.len(),
    ensures
        r@ == chars@.subrange(from as int, to as int),
{
    let mut out = String::new();
    let mut i: usize = from;
    while i < to
        invariant
            from <= i <= to <= chars@.len(),
            out@ == chars@.subrange(from as int, i as int),
        decreases to - i,
    {
        out.push(chars[i]);
        i += 1;
    }
    out
}

/// Append a text.
pub(crate) fn push_text(out: &mut String, s: &str)
    ensures
        final(out)@ == old(out)@ + s@,
{
    out.append(s)
}

/// The ASCII lower case of a character; others are left alone.
pub open spec fn lower_char(c: char) -> char {
    if 'A' <= c <= 'Z' {
        (c as u8 + 32) as char
    } else {
        c
    }
}

/// A text with its ASCII letters in lower case.
pub open spec fn lower(s: Seq<char>) -> Seq<char> {
    s.map_values(|c: char| lower_char(c))
}

pub(crate) fn ascii_lower(s: &str) -> (r: Vec<char>)
    ensures
        r@ == lower(s@),
{
    let mut out: Vec<char> = Vec::new();
    for c in it: s.chars()
        invariant
            it.seq() == s@,
            out@ == lower(s@).take(it.index()),
    {
        if 'A' <= c && c <= 'Z' {
            out.push((c as u8 + 32) as char);
        } else {
            out.push(c);
        }
    }
    out
}

/// Whether two character sequences are equal.
pub(crate) fn same_chars(a: &[char], b: &[char]) -> (r: bool)
    ensures
        r == (a@ == b@),
{
    proof {
        assert(b@.take(b@.len() as int) =~= b@);
        if a@.len() == b@.len() {
            assert(a@.take(b@.len() as int) =~= a@);
        }
    }
    a.len() == b.len() && has_prefix(a, b, b.len())
}

/// Whether `a` begins with the first `n` characters of `b`.
pub(crate) fn has_prefix(a: &[char], b: &[char], n: usize) -> (r: bool)
    requires
        n <= b@.len(),
    ensures
        r == (n <= a@.len() && a@.take(n as int) == b@.take(n as int)),
{
    if a.len() < n {
        return false;
    }
    let mut i: usize = 0;
    while i < n
        invariant
            i <= n <= a@.len(),
            n <= b@.len(),
            forall|j: int| 0 <= j < i ==> a@[j] == b@[j],
        decreases n - i,
    {
        if a[i] != b[i] {
            assert(a@.take(n as int)[i as int] != b@.take(n as int)[i as int]);
            return false;
        }
        i += 1;
    }
    assert(a@.take(n as int) =~= b@.take(n as int));
    true
}

// ---------------------------------------------------------------- splitting

/// The index of the first `c`, or the length when there is none.
pub open spec fn find<T>(s: Seq<T>, c: T) -> int
    decreases s.len(),
{
    if s.len() == 0 || s[0] == c {
        0
    } else {
        1 + find(s.drop_first(), c)
    }
}

pub proof fn lemma_find<T>(s: Seq<T>, c: T)
    ensures
        0 <= find(s, c) <= s.len(),
        find(s, c) < s.len() ==> s[find(s, c)] == c,
        forall|j: int| 0 <= j < find(s, c) ==> s[j] != c,
        find(s, c) < s.len() <==> s.contains(c),
    decreases s.len(),
{
    if s.len() > 0 && s[0] != c {
        lemma_find(s.drop_first(), c);
        let i = find(s.drop_first(), c);
        assert forall|j: int| 0 <= j < 1 + i implies s[j] != c by {
            if j > 0 {
                assert(s.drop_first()[j - 1] == s[j]);
            }
        }
        if s.contains(c) {
            let k = choose|k: int| 0 <= k < s.len() && s[k] == c;
            assert(s.drop_first()[k - 1] == c);
        }
    }
}

pub proof fn lemma_find_is<T>(s: Seq<T>, c: T, k: int)
    requires
        0 <= k <= s.len(),
        forall|j: int| 0 <= j < k ==> s[j] != c,
        k < s.len() ==> s[k] == c,
    ensures
        find(s, c) == k,
{
    lemma_find(s, c);
    let i = find(s, c);
    if i < k {
        assert(s[i] != c);
    }
}

/// The pieces between the occurrences of `c`; one more than there are of them.
pub open spec fn split<T>(s: Seq<T>, c: T) -> Seq<Seq<T>>
    decreases s.len(),
{
    proof {
        lemma_find(s, c);
    }
    if find(s, c) >= s.len() {
        seq![s]
    } else {
        seq![s.take(find(s, c))] + split(s.skip(find(s, c) + 1), c)
    }
}

/// The pieces with `sep` between each two of them.
pub open spec fn join<T>(pieces: Seq<Seq<T>>, sep: T) -> Seq<T>
    decreases pieces.len(),
{
    if pieces.len() == 0 {
        Seq::empty()
    } else if pieces.len() == 1 {
        pieces[0]
    } else {
        pieces[0] + seq![sep] + join(pieces.drop_first(), sep)
    }
}

pub proof fn lemma_split_pieces<T>(s: Seq<T>, c: T)
    ensures
        split(s, c).len() >= 1,
        forall|i: int| 0 <= i < split(s, c).len() ==> !(#[trigger] split(s, c)[i]).contains(c),
        forall|i: int, x: T|
            0 <= i < split(s, c).len() && (#[trigger] split(s, c)[i]).contains(x)
                ==> #[trigger] s.contains(x),
    decreases s.len(),
{
    lemma_find(s, c);
    let k = find(s, c);
    if k < s.len() {
        let head = s.take(k);
        let rest = s.skip(k + 1);
        lemma_split_pieces(rest, c);
        let all = split(s, c);
        assert(all == seq![head] + split(rest, c));
        assert forall|i: int| 0 <= i < all.len() implies !(#[trigger] all[i]).contains(c) by {
            if i > 0 {
                assert(all[i] == split(rest, c)[i - 1]);
            }
        }
        assert forall|i: int, x: T|
            0 <= i < all.len() && (#[trigger] all[i]).contains(x) implies #[trigger] s.contains(
            x,
        ) by {
            if i > 0 {
                assert(all[i] == split(rest, c)[i - 1]);
                assert(rest.contains(x));
                let j = choose|j: int| 0 <= j < rest.len() && rest[j] == x;
                assert(s[j + k + 1] == x);
            } else {
                let j = choose|j: int| 0 <= j < head.len() && head[j] == x;
                assert(s[j] == x);
            }
        }
    } else {
        assert(split(s, c) == seq![s]);
        assert(!s.contains(c));
    }
}

/// Splitting undoes joining, when no piece contains the separator.
pub proof fn lemma_split_join<T>(pieces: Seq<Seq<T>>, c: T)
    requires
        pieces.len() > 0,
        forall|i: int| 0 <= i < pieces.len() ==> !(#[trigger] pieces[i]).contains(c),
    ensures
        split(join(pieces, c), c) == pieces,
    decreases pieces.len(),
{
    let s = join(pieces, c);
    let first = pieces[0];
    if pieces.len() == 1 {
        lemma_find_is(s, c, s.len() as int);
        assert(split(s, c) =~= pieces);
    } else {
        let rest = pieces.drop_first();
        assert forall|i: int| 0 <= i < rest.len() implies !(#[trigger] rest[i]).contains(c) by {
            assert(rest[i] == pieces[i + 1]);
        }
        lemma_split_join(rest, c);
        assert forall|j: int| 0 <= j < first.len() implies s[j] != c by {
            assert(first[j] == s[j]);
        }
        lemma_find_is(s, c, first.len() as int);
        assert(s.take(first.len() as int) =~= first);
        assert(s.skip(first.len() as int + 1) =~= join(rest, c));
        assert(split(s, c) =~= pieces);
    }
}

/// What a joined text contains comes from a piece or is the separator.
pub proof fn lemma_join_contents<T>(pieces: Seq<Seq<T>>, c: T, x: T)
    requires
        x != c,
        forall|i: int| 0 <= i < pieces.len() ==> !(#[trigger] pieces[i]).contains(x),
    ensures
        !join(pieces, c).contains(x),
    decreases pieces.len(),
{
    if pieces.len() > 1 {
        let rest = pieces.drop_first();
        assert forall|i: int| 0 <= i < rest.len() implies !(#[trigger] rest[i]).contains(x) by {
            assert(rest[i] == pieces[i + 1]);
        }
        lemma_join_contents(rest, c, x);
        let s = join(pieces, c);
        assert forall|j: int| 0 <= j < s.len() implies s[j] != x by {
            let n = pieces[0].len();
            if j < n {
                assert(pieces[0][j] == s[j]);
            } else if j > n {
                assert(join(rest, c)[j - n - 1] == s[j]);
            }
        }
    } else if pieces.len() == 1 {
        assert(!pieces[0].contains(x));
    }
}

/// The first index in `from..to` that holds `c`, or `to`.
pub(crate) fn find_char(chars: &[char], from: usize, to: usize, c: char) -> (r: usize)
    requires
        from <= to <= chars@.len(),
    ensures
        from <= r <= to,
        r - from == find(chars@.subrange(from as int, to as int), c),
{
    let ghost part = chars@.subrange(from as int, to as int);
    let mut i: usize = from;
    while i < to && chars[i] != c
        invariant
            from <= i <= to <= chars@.len(),
            part == chars@.subrange(from as int, to as int),
            forall|j: int| 0 <= j < i - from ==> part[j] != c,
        decreases to - i,
    {
        i += 1;
    }
    proof {
        lemma_find_is(part, c, i - from);
    }
    i
}

/// The pieces with `sep` between each two of them.
pub(crate) fn join_texts(pieces: &[String], sep: char) -> (r: String)
    ensures
        r@ == join(texts(pieces@), sep),
{
    let mut out = String::new();
    let ghost all = texts(pieces@);
    let mut i: usize = 0;
    assert(all.skip(0) =~= all);
    while i < pieces.len()
        invariant
            i <= pieces.len(),
            all == texts(pieces@),
            i == 0 ==> out@.len() == 0,
            0 < i < pieces.len() ==> join(all, sep) == out@ + seq![sep] + join(
                all.skip(i as int),
                sep,
            ),
            i == 0 ==> join(all, sep) == join(all.skip(0), sep),
            0 < i == pieces.len() ==> out@ == join(all, sep),
        decreases pieces.len() - i,
    {
        let ghost before = out@;
        if i > 0 {
            out.push(sep);
        }
        push_text(&mut out, pieces[i].as_str());
        proof {
            let rest = all.skip(i as int);
            assert(rest[0] == all[i as int]);
            assert(rest.drop_first() =~= all.skip(i + 1));
            assert(out@ =~= (if i > 0 { before + seq![sep] } else { before }) + all[i as int]);
            if i + 1 < pieces.len() {
                assert(join(all, sep) =~= out@ + seq![sep] + join(all.skip(i + 1), sep));
            } else {
                assert(join(all, sep) =~= out@);
            }
        }
        i += 1;
    }
    out
}

// ---------------------------------------------------------------- numbers

pub open spec fn digit(d: nat) -> char {
    (48 + d) as char
}

/// A number in decimal, without leading zeros.
pub open spec fn decimal(n: nat) -> Seq<char>
    decreases n,
{
    if n < 10 {
        seq![digit(n)]
    } else {
        decimal(n / 10).push(digit(n % 10))
    }
}

/// Append a number in decimal.
pub(crate) fn push_decimal(out: &mut String, n: usize)
    ensures
        final(out)@ == old(out)@ + decimal(n as nat),
    decreases n,
{
    if n >= 10 {
        push_decimal(out, n / 10);
    }
    let d: u8 = (n % 10) as u8;
    out.push((48u8 + d) as char);
    assert(out@ =~= old(out)@ + decimal(n as nat));
}

// ---------------------------------------------------------------- widths

/// How many of the first characters fit into `max` bytes of UTF-8.
pub open spec fn fitting(s: Seq<char>, max: nat) -> nat
    decreases s.len(),
{
    if s.len() == 0 {
        0
    } else {
        let width = encode_scalar(s[0] as u32).len();
        if width <= max {
            1 + fitting(s.drop_first(), (max - width) as nat)
        } else {
            0
        }
    }
}

fn width(c: char) -> (r: usize)
    ensures
        r == encode_scalar(c as u32).len(),
        1 <= r <= 4,
{
    let v = c as u32;
    if v <= 0x7f {
        1
    } else if v <= 0x7ff {
        2
    } else if v <= 0xffff {
        3
    } else {
        4
    }
}

/// The characters that fit into `max` bytes of UTF-8.
pub(crate) fn fitting_chars(s: &str, max: usize) -> (r: Vec<char>)
    ensures
        fitting(s@, max as nat) <= s@.len(),
        r@ == s@.take(fitting(s@, max as nat) as int),
{
    let mut out: Vec<char> = Vec::new();
    let mut left: usize = max;
    assert(s@.skip(0) =~= s@);
    for c in it: s.chars()
        invariant
            it.seq() == s@,
            out@ == s@.take(it.index()),
            fitting(s@, max as nat) == it.index() + fitting(s@.skip(it.index()), left as nat),
    {
        assert(s@.skip(it.index())[0] == c);
        assert(s@.skip(it.index()).drop_first() =~= s@.skip(it.index() + 1));
        let w = width(c);
        if w > left {
            return out;
        }
        left -= w;
        out.push(c);
    }
    assert(s@.skip(s@.len() as int).len() == 0);
    out
}

// ---------------------------------------------------------------- trimming

/// The characters with the Unicode property White_Space.
pub open spec fn white_space(c: char) -> bool {
    ||| '\u{9}' <= c <= '\u{d}'
    ||| c == '\u{20}'
    ||| c == '\u{85}'
    ||| c == '\u{a0}'
    ||| c == '\u{1680}'
    ||| '\u{2000}' <= c <= '\u{200a}'
    ||| c == '\u{2028}'
    ||| c == '\u{2029}'
    ||| c == '\u{202f}'
    ||| c == '\u{205f}'
    ||| c == '\u{3000}'
}

fn is_white_space(c: char) -> (r: bool)
    ensures
        r == white_space(c),
{
    ('\u{9}' <= c && c <= '\u{d}') || c == '\u{20}' || c == '\u{85}' || c == '\u{a0}' || c
        == '\u{1680}' || ('\u{2000}' <= c && c <= '\u{200a}') || c == '\u{2028}' || c
        == '\u{2029}' || c == '\u{202f}' || c == '\u{205f}' || c == '\u{3000}'
}

/// A text without white space at its beginning.
pub open spec fn trimmed_start(s: Seq<char>) -> Seq<char>
    decreases s.len(),
{
    if s.len() > 0 && white_space(s[0]) {
        trimmed_start(s.drop_first())
    } else {
        s
    }
}

/// A text without white space at its end.
pub open spec fn trimmed_end(s: Seq<char>) -> Seq<char>
    decreases s.len(),
{
    if s.len() > 0 && white_space(s.last()) {
        trimmed_end(s.drop_last())
    } else {
        s
    }
}

/// A text without white space at its beginning and at its end.
pub open spec fn trimmed_text(s: Seq<char>) -> Seq<char> {
    trimmed_end(trimmed_start(s))
}

pub(crate) fn trim(s: &str) -> (r: String)
    ensures
        r@ == trimmed_text(s@),
{
    let chars = chars_of(s);
    let mut from: usize = 0;
    assert(chars@.skip(0) =~= chars@);
    while from < chars.len() && is_white_space(chars[from])
        invariant
            from <= chars@.len(),
            trimmed_start(chars@) == trimmed_start(chars@.skip(from as int)),
        decreases chars@.len() - from,
    {
        assert(chars@.skip(from as int).drop_first() =~= chars@.skip(from + 1));
        from += 1;
    }
    let ghost rest = chars@.skip(from as int);
    assert(trimmed_start(chars@) == rest);
    let mut to: usize = chars.len();
    assert(chars@.subrange(from as int, to as int) =~= rest);
    while to > from && is_white_space(chars[to - 1])
        invariant
            from <= to <= chars@.len(),
            trimmed_end(rest) == trimmed_end(chars@.subrange(from as int, to as int)),
        decreases to,
    {
        assert(chars@.subrange(from as int, to as int).drop_last() =~= chars@.subrange(
            from as int,
            to - 1,
        ));
        to -= 1;
    }
    text_between(chars.as_slice(), from, to)
}

// ---------------------------------------------------------------- placeholders

/// A text with every `{}` replaced, from left to right.
pub open spec fn substituted(s: Seq<char>, with: Seq<char>) -> Seq<char>
    decreases s.len(),
{
    if s.len() < 2 {
        s
    } else if s[0] == '{' && s[1] == '}' {
        with + substituted(s.skip(2), with)
    } else {
        seq![s[0]] + substituted(s.drop_first(), with)
    }
}

pub(crate) fn substitute(s: &str, with: &str) -> (r: String)
    ensures
        r@ == substituted(s@, with@),
{
    let chars = chars_of(s);
    let mut out = String::new();
    let mut i: usize = 0;
    assert(chars@.skip(0) =~= chars@);
    while i < chars.len()
        invariant
            i <= chars@.len(),
            chars@ == s@,
            substituted(s@, with@) =~= out@ + substituted(chars@.skip(i as int), with@),
        decreases chars@.len() - i,
    {
        let ghost rest = chars@.skip(i as int);
        if chars.len() - i >= 2 && chars[i] == '{' && chars[i + 1] == '}' {
            assert(rest.skip(2) =~= chars@.skip(i + 2));
            push_text(&mut out, with);
            i += 2;
        } else {
            assert(rest.drop_first() =~= chars@.skip(i + 1));
            assert(rest.len() == 1 ==> chars@.skip(i + 1).len() == 0);
            out.push(chars[i]);
            i += 1;
        }
    }
    assert(chars@.skip(i as int).len() == 0);
    out
}

/// The first characters of a text, at most `max` of them.
pub(crate) fn first_chars(s: &str, max: usize) -> (r: String)
    ensures
        r@ == (if s@.len() <= max {
            s@
        } else {
            s@.take(max as int)
        }),
{
    let mut out = String::new();
    let mut count: usize = 0;
    for c in it: s.chars()
        invariant
            it.seq() == s@,
            count == it.index(),
            count <= max,
            out@ == s@.take(it.index()),
    {
        if count == max {
            return out;
        }
        out.push(c);
        count += 1;
    }
    assert(s@.take(s@.len() as int) =~= s@);
    out
}

// -------------------------------------------------------------------- laws

/// Of two byte strings that agree up to an index and differ there, the one with the
/// smaller byte at it comes first, whatever their lengths.
pub proof fn law_the_first_difference_decides(a: Seq<u8>, b: Seq<u8>, k: int)
    requires
        0 <= k < a.len(),
        k < b.len(),
        forall|j: int| 0 <= j < k ==> a[j] == b[j],
        a[k] != b[k],
    ensures
        lex_less(a, b) <==> a[k] < b[k],
    decreases k,
{
    if k > 0 {
        assert forall|j: int| 0 <= j < k - 1 implies a.drop_first()[j] == b.drop_first()[j] by {
            assert(a[j + 1] == b[j + 1]);
        }
        assert(a[0] == b[0]);
        law_the_first_difference_decides(a.drop_first(), b.drop_first(), k - 1);
    }
}

/// A byte string comes before everything that it is a proper beginning of, and after
/// nothing that it is a beginning of.
pub proof fn law_a_proper_prefix_comes_first(a: Seq<u8>, b: Seq<u8>)
    requires
        a.len() <= b.len(),
        forall|j: int| 0 <= j < a.len() ==> a[j] == b[j],
    ensures
        lex_less(a, b) <==> a.len() < b.len(),
        !lex_less(b, a),
    decreases a.len(),
{
    if a.len() > 0 {
        assert forall|j: int| 0 <= j < a.drop_first().len() implies a.drop_first()[j]
            == b.drop_first()[j] by {
            assert(a[j + 1] == b[j + 1]);
        }
        assert(a[0] == b[0]);
        law_a_proper_prefix_comes_first(a.drop_first(), b.drop_first());
    }
}

/// Two texts have the same lower case exactly when they have the same length and
/// agree everywhere but for the case of ASCII letters.
pub proof fn law_lower_case_forgets_case_alone(a: Seq<char>, b: Seq<char>)
    ensures
        lower(a) == lower(b) <==> a.len() == b.len() && forall|i: int|
            0 <= i < a.len() ==> {
                let x = #[trigger] a[i];
                let y = b[i];
                ||| x == y
                ||| 'A' <= x <= 'Z' && y as u32 == x as u32 + 32
                ||| 'A' <= y <= 'Z' && x as u32 == y as u32 + 32
            },
{
    let la = lower(a);
    let lb = lower(b);
    if la == lb {
        assert(a.len() == la.len() && b.len() == lb.len());
        assert forall|i: int| 0 <= i < a.len() implies {
            let x = #[trigger] a[i];
            let y = b[i];
            ||| x == y
            ||| 'A' <= x <= 'Z' && y as u32 == x as u32 + 32
            ||| 'A' <= y <= 'Z' && x as u32 == y as u32 + 32
        } by {
            assert(la[i] == lower_char(a[i]));
            assert(lb[i] == lower_char(b[i]));
            lemma_lower_char(a[i]);
            lemma_lower_char(b[i]);
        }
    }
    if a.len() == b.len() && forall|i: int|
        0 <= i < a.len() ==> {
            let x = #[trigger] a[i];
            let y = b[i];
            ||| x == y
            ||| 'A' <= x <= 'Z' && y as u32 == x as u32 + 32
            ||| 'A' <= y <= 'Z' && x as u32 == y as u32 + 32
        } {
        assert forall|i: int| 0 <= i < la.len() implies la[i] == lb[i] by {
            let x = a[i];
            let y = b[i];
            assert(la[i] == lower_char(x));
            assert(lb[i] == lower_char(y));
            lemma_lower_char(x);
            lemma_lower_char(y);
        }
        assert(la =~= lb);
    }
}

proof fn lemma_lower_char(c: char)
    ensures
        'A' <= c <= 'Z' ==> lower_char(c) as u32 == c as u32 + 32,
        !('A' <= c <= 'Z') ==> lower_char(c) == c,
{
}

/// A text in lower case has no capital ASCII letter, is as long as it was, and is
/// its own lower case; what was no capital letter stays.
pub proof fn law_lower_case_has_no_capitals(s: Seq<char>)
    ensures
        lower(s).len() == s.len(),
        lower(lower(s)) == lower(s),
        forall|i: int|
            0 <= i < s.len() ==> {
                &&& !('A' <= #[trigger] lower(s)[i] <= 'Z')
                &&& !('A' <= s[i] <= 'Z') ==> lower(s)[i] == s[i]
                &&& 'A' <= s[i] <= 'Z' ==> lower(s)[i] as u32 == s[i] as u32 + 32
            },
{
    assert forall|i: int| 0 <= i < s.len() implies {
        &&& !('A' <= #[trigger] lower(s)[i] <= 'Z')
        &&& !('A' <= s[i] <= 'Z') ==> lower(s)[i] == s[i]
        &&& 'A' <= s[i] <= 'Z' ==> lower(s)[i] as u32 == s[i] as u32 + 32
    } by {
        lemma_lower_char(s[i]);
    }
    assert(lower(lower(s)) =~= lower(s));
}

/// Splitting takes a text apart where it says and nowhere else: the pieces hold no
/// separator, and with one between each two of them they are the text again.
pub proof fn law_split_is_undone_by_join<T>(s: Seq<T>, c: T)
    ensures
        split(s, c).len() >= 1,
        forall|i: int| 0 <= i < split(s, c).len() ==> !(#[trigger] split(s, c)[i]).contains(c),
        join(split(s, c), c) == s,
    decreases s.len(),
{
    lemma_split_pieces(s, c);
    lemma_find(s, c);
    let k = find(s, c);
    if k < s.len() {
        let rest = s.skip(k + 1);
        law_split_is_undone_by_join(rest, c);
        let all = split(s, c);
        assert(all =~= seq![s.take(k)] + split(rest, c));
        assert(all.drop_first() =~= split(rest, c));
        assert(all[0] == s.take(k));
        assert(join(all, c) =~= s.take(k) + seq![c] + rest);
        assert(s =~= s.take(k) + seq![c] + rest);
    }
}

/// Two texts with a separator between them split into the pieces of the one and then
/// those of the other.
pub proof fn law_split_takes_lists_apart<T>(a: Seq<T>, b: Seq<T>, c: T)
    ensures
        split(a + seq![c] + b, c) == split(a, c) + split(b, c),
    decreases a.len(),
{
    let s = a + seq![c] + b;
    lemma_find(a, c);
    let k = find(a, c);
    assert forall|i: int| 0 <= i < k implies s[i] != c by {
        assert(s[i] == a[i]);
    }
    lemma_find_is(s, c, k);
    assert(s.take(k) =~= a.take(k));
    if k < a.len() {
        let rest = a.skip(k + 1);
        assert(s.skip(k + 1) =~= rest + seq![c] + b);
        law_split_takes_lists_apart(rest, b, c);
        assert(split(s, c) =~= seq![a.take(k)] + (split(rest, c) + split(b, c)));
        assert(split(s, c) =~= split(a, c) + split(b, c));
    } else {
        assert(a.take(k) =~= a);
        assert(s.skip(k + 1) =~= b);
        assert(split(s, c) =~= split(a, c) + split(b, c));
    }
}

/// Joining puts one separator between each two pieces and adds nothing else: one
/// piece is itself, and two lists are joined apart with a separator between.
pub proof fn law_joining_adds_separators_alone<T>(a: Seq<Seq<T>>, b: Seq<Seq<T>>, sep: T)
    requires
        a.len() > 0,
        b.len() > 0,
    ensures
        join(Seq::<Seq<T>>::empty(), sep) == Seq::<T>::empty(),
        join(seq![a[0]], sep) == a[0],
        join(a + b, sep) == join(a, sep) + seq![sep] + join(b, sep),
    decreases a.len(),
{
    let all = a + b;
    assert(all.drop_first() =~= a.drop_first() + b);
    if a.len() == 1 {
        assert(a.drop_first() + b =~= b);
        assert(join(a, sep) == a[0]);
    } else {
        law_joining_adds_separators_alone(a.drop_first(), b, sep);
        assert(join(all, sep) =~= a[0] + seq![sep] + (join(a.drop_first(), sep) + seq![sep] + join(
            b,
            sep,
        )));
        assert(join(a, sep) =~= a[0] + seq![sep] + join(a.drop_first(), sep));
        assert(join(all, sep) =~= join(a, sep) + seq![sep] + join(b, sep));
    }
}

/// A number in decimal is digits, without a leading zero, and a further digit on the
/// right makes ten times the number and that digit of it.
pub proof fn law_decimal_digits(n: nat, d: nat)
    requires
        d < 10,
    ensures
        decimal(n).len() >= 1,
        forall|i: int| 0 <= i < decimal(n).len() ==> '0' <= #[trigger] decimal(n)[i] <= '9',
        n > 0 ==> decimal(n)[0] != '0',
        decimal(d).len() == 1,
        decimal(d)[0] as u32 == 48 + d,
        n > 0 ==> decimal(10 * n + d) == decimal(n) + decimal(d),
    decreases n,
{
    assert((48 + d) as char as u32 == 48 + d);
    if n > 0 {
        assert((10 * n + d) / 10 == n && (10 * n + d) % 10 == d);
        assert(decimal(10 * n + d) =~= decimal(n) + decimal(d));
    }
    if n >= 10 {
        law_decimal_digits(n / 10, n % 10);
        let all = decimal(n);
        let front = decimal(n / 10);
        assert(all == front.push(digit(n % 10)));
        assert forall|i: int| 0 <= i < all.len() implies '0' <= #[trigger] all[i] <= '9' by {
            if i < front.len() {
                assert(all[i] == front[i]);
            }
        }
        assert(all[0] == front[0]);
    } else {
        assert((48 + n) as char as u32 == 48 + n);
    }
}

/// As many of the first characters are taken as fit, and one more would not.
pub proof fn law_as_much_as_fits(s: Seq<char>, max: nat)
    ensures
        fitting(s, max) <= s.len(),
        encode_utf8(s.take(fitting(s, max) as int)).len() <= max,
        fitting(s, max) < s.len() ==> encode_utf8(s.take(fitting(s, max) as int + 1)).len() > max,
    decreases s.len(),
{
    if s.len() > 0 {
        let width = encode_scalar(s[0] as u32).len();
        let one = s.take(1);
        assert(one.drop_first() =~= Seq::empty());
        assert(encode_utf8(one.drop_first()).len() == 0);
        if width <= max {
            let rest = s.drop_first();
            let left = (max - width) as nat;
            law_as_much_as_fits(rest, left);
            let k = fitting(rest, left) as int;
            assert(s.take(k + 1).drop_first() =~= rest.take(k));
            if k < rest.len() {
                assert(s.take(k + 2).drop_first() =~= rest.take(k + 1));
            }
        }
    }
}

/// White space is what Unicode says it is.
pub proof fn law_white_space_is_that_of_unicode(c: char)
    ensures
        white_space(c) <==> {
            let v = c as u32;
            ||| 9 <= v <= 13
            ||| v == 32
            ||| v == 133
            ||| v == 160
            ||| v == 5760
            ||| 8192 <= v <= 8202
            ||| v == 8232
            ||| v == 8233
            ||| v == 8239
            ||| v == 8287
            ||| v == 12288
        },
{
}

proof fn lemma_trimmed_start(s: Seq<char>) -> (k: int)
    ensures
        0 <= k <= s.len(),
        trimmed_start(s) == s.skip(k),
        forall|i: int| 0 <= i < k ==> white_space(#[trigger] s[i]),
        k < s.len() ==> !white_space(s[k]),
    decreases s.len(),
{
    if s.len() > 0 && white_space(s[0]) {
        let rest = s.drop_first();
        let k = lemma_trimmed_start(rest);
        assert(rest.skip(k) =~= s.skip(k + 1));
        assert forall|i: int| 0 <= i < k + 1 implies white_space(#[trigger] s[i]) by {
            if i > 0 {
                assert(rest[i - 1] == s[i]);
            }
        }
        k + 1
    } else {
        assert(s.skip(0) =~= s);
        0
    }
}

proof fn lemma_trimmed_end(s: Seq<char>) -> (k: int)
    ensures
        0 <= k <= s.len(),
        trimmed_end(s) == s.take(k),
        forall|i: int| k <= i < s.len() ==> white_space(#[trigger] s[i]),
        k > 0 ==> !white_space(s[k - 1]),
    decreases s.len(),
{
    if s.len() > 0 && white_space(s.last()) {
        let rest = s.drop_last();
        let k = lemma_trimmed_end(rest);
        assert(rest.take(k) =~= s.take(k));
        assert forall|i: int| k <= i < s.len() implies white_space(#[trigger] s[i]) by {
            if i < rest.len() {
                assert(rest[i] == s[i]);
            }
        }
        if k > 0 {
            assert(rest[k - 1] == s[k - 1]);
        }
        k
    } else {
        assert(s.take(s.len() as int) =~= s);
        s.len() as int
    }
}

/// Trimming takes off all the white space around a text and nothing else: what is
/// left neither begins nor ends with white space, and the text is some white space,
/// then what is left, then some white space. Nothing is left exactly of a text that
/// is white space throughout.
pub proof fn law_trimming_takes_all_white_space_around(s: Seq<char>)
    ensures
        exists|from: int, to: int|
            0 <= from <= to <= s.len() && trimmed_text(s) == #[trigger] s.subrange(from, to) && (
            forall|i: int| 0 <= i < from || to <= i < s.len() ==> white_space(#[trigger] s[i])),
        trimmed_text(s).len() > 0 ==> !white_space(trimmed_text(s)[0]) && !white_space(
            trimmed_text(s).last(),
        ),
        trimmed_text(s).len() == 0 <==> forall|i: int|
            0 <= i < s.len() ==> white_space(#[trigger] s[i]),
{
    let k = lemma_trimmed_start(s);
    let rest = s.skip(k);
    let n = lemma_trimmed_end(rest);
    let t = trimmed_text(s);
    assert(t =~= s.subrange(k, k + n));
    assert forall|i: int| 0 <= i < k || k + n <= i < s.len() implies white_space(
        #[trigger] s[i],
    ) by {
        if i >= k + n {
            assert(rest[i - k] == s[i]);
        }
    }
    if n > 0 {
        assert(t.last() == rest[n - 1]);
        assert(t[0] == s[k]);
        assert(!white_space(s[k]));
    }
}

/// A text without white space at its ends is left as it is by trimming, and white
/// space around it makes no difference.
pub proof fn law_trimming_is_blind_to_white_space_around(
    front: Seq<char>,
    text: Seq<char>,
    back: Seq<char>,
)
    requires
        forall|i: int| 0 <= i < front.len() ==> white_space(#[trigger] front[i]),
        forall|i: int| 0 <= i < back.len() ==> white_space(#[trigger] back[i]),
        text.len() > 0,
        !white_space(text[0]),
        !white_space(text.last()),
    ensures
        trimmed_text(front + text + back) == text,
{
    let s = front + text + back;
    let k = lemma_trimmed_start(s);
    assert(s[front.len() as int] == text[0]);
    if k < front.len() {
        assert(s[k] == front[k]);
    }
    assert(k == front.len());
    let rest = s.skip(k);
    let n = lemma_trimmed_end(rest);
    assert(rest =~= text + back);
    assert(rest[text.len() - 1] == text.last());
    if n > text.len() {
        assert(rest[n - 1] == back[n - 1 - text.len()]);
    }
    assert(n == text.len());
    assert(trimmed_text(s) =~= text);
}

/// A text without a placeholder is left alone, and otherwise the first placeholder
/// is replaced, what is before it stays, and what follows is treated alike. What was
/// put in is not looked at again.
pub proof fn law_placeholders_are_replaced(before: Seq<char>, rest: Seq<char>, with: Seq<char>)
    requires
        forall|i: int|
            0 <= i < before.len() - 1 ==> !(#[trigger] before[i] == '{' && before[i + 1] == '}'),
    ensures
        substituted(before, with) == before,
        substituted(before + seq!['{', '}'] + rest, with) == before + with + substituted(
            rest,
            with,
        ),
    decreases before.len(),
{
    let s = before + seq!['{', '}'] + rest;
    if before.len() == 0 {
        assert(s =~= seq!['{', '}'] + rest);
        assert(s.skip(2) =~= rest);
        assert(substituted(s, with) =~= before + with + substituted(rest, with));
    } else {
        let less = before.drop_first();
        assert forall|i: int| 0 <= i < less.len() - 1 implies !(#[trigger] less[i] == '{' && less[i
            + 1] == '}') by {
            assert(less[i] == before[i + 1]);
        }
        law_placeholders_are_replaced(less, rest, with);
        assert(s.drop_first() =~= less + seq!['{', '}'] + rest);
        assert(s[0] == before[0]);
        if before.len() > 1 {
            assert(s[1] == before[1]);
        } else {
            assert(s[1] == '{');
        }
        assert(substituted(s, with) =~= seq![before[0]] + (less + with + substituted(rest, with)));
        assert(seq![before[0]] + less =~= before);
        assert(substituted(s, with) =~= before + with + substituted(rest, with));
        assert(substituted(before, with) =~= before);
    }
}

/// The texts of strings are what each of them holds, in order.
pub proof fn law_texts_are_what_strings_hold(list: Seq<String>, literals: Seq<&'static str>)
    ensures
        texts(list).len() == list.len(),
        forall|i: int| 0 <= i < list.len() ==> #[trigger] texts(list)[i] == list[i]@,
        names(literals).len() == literals.len(),
        forall|i: int| 0 <= i < literals.len() ==> #[trigger] names(literals)[i] == literals[i]@,
{
}

} // verus!
