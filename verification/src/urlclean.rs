//! Remove query parameters while preserving the URL prefix and fragment.

use vstd::prelude::*;

use crate::text::{
    ascii_lower, chars_of, find, find_char, has_prefix, join, join_texts,
    law_lower_case_forgets_case_alone, law_split_takes_lists_apart, lemma_find, lemma_find_is,
    lemma_join_contents, lemma_split_join, lemma_split_pieces, lower, names, owned_names, push_text,
    same_chars, split, text_between, texts,
};

verus! {

/// Parameters worth dropping by default, matched case-insensitively. A
/// trailing `*` matches a prefix.
pub const DEFAULT_JUNK: [&'static str; 21] = [
    "utm_*",  // UTM tracking parameters
    "fbclid",  // Facebook
    "gclid",  // Google Ads
    "dclid",  // DoubleClick
    "gbraid",  // Google, app campaigns
    "wbraid",  // Google, web-to-app
    "msclkid",  // Microsoft
    "twclid",  // Twitter/X
    "ttclid",  // TikTok
    "igshid",  // Instagram
    "igsh",  // Instagram, short links
    "si",  // Spotify, YouTube
    "mc_cid",  // Mailchimp campaign
    "mc_eid",  // Mailchimp recipient
    "_openstat",  // Russian aggregators
    "yclid",  // Yandex
    "ysclid",  // Yandex
    "spm",  // Alibaba
    "scm",  // Alibaba
    "ref_src",  // Twitter/X embeds
    "ref_url",
];

/// Whether one pattern covers a parameter name. Both are compared without
/// regard to ASCII case; a pattern that ends in `*` covers every name that
/// begins with what comes before the star.
pub open spec fn covers(pattern: Seq<char>, key: Seq<char>) -> bool {
    let p = lower(pattern);
    let k = lower(key);
    if p.len() > 0 && p.last() == '*' {
        p.drop_last().len() <= k.len() && k.take(p.len() - 1) == p.drop_last()
    } else {
        k == p
    }
}

/// Whether any of the patterns covers a parameter name.
pub open spec fn junk(key: Seq<char>, patterns: Seq<Seq<char>>) -> bool {
    exists|i: int| 0 <= i < patterns.len() && #[trigger] covers(patterns[i], key)
}

/// The name of a parameter: what comes before its first `=`, or all of it.
pub open spec fn key_of(pair: Seq<char>) -> Seq<char> {
    pair.take(find(pair, '='))
}

/// The parameters of a query, in order, without empty segments.
pub open spec fn parameters(query: Seq<char>) -> Seq<Seq<char>> {
    split(query, '&').filter(|pair: Seq<char>| pair.len() > 0)
}

/// The parameters that no pattern covers.
pub open spec fn kept_parameters(query: Seq<char>, patterns: Seq<Seq<char>>) -> Seq<Seq<char>> {
    parameters(query).filter(|pair: Seq<char>| !junk(key_of(pair), patterns))
}

/// The names of the parameters that some pattern covers.
pub open spec fn dropped_keys(query: Seq<char>, patterns: Seq<Seq<char>>) -> Seq<Seq<char>> {
    parameters(query).filter(|pair: Seq<char>| junk(key_of(pair), patterns)).map_values(
        |pair: Seq<char>| key_of(pair),
    )
}

/// What comes before the fragment. A `?` beyond the first `#` belongs to a
/// hash route, not to the query.
pub open spec fn without_fragment(url: Seq<char>) -> Seq<char> {
    url.take(find(url, '#'))
}

/// The fragment with its `#`, or nothing.
pub open spec fn fragment(url: Seq<char>) -> Seq<char> {
    url.skip(find(url, '#'))
}

/// What comes before the query.
pub open spec fn head(url: Seq<char>) -> Seq<char> {
    without_fragment(url).take(find(without_fragment(url), '?'))
}

/// The query without its `?`, if the URL has one.
pub open spec fn query(url: Seq<char>) -> Option<Seq<char>> {
    let base = without_fragment(url);
    if find(base, '?') < base.len() {
        Some(base.skip(find(base, '?') + 1))
    } else {
        None
    }
}

/// A URL put together again from its head, parameters and fragment.
pub open spec fn rebuilt(
    head: Seq<char>,
    kept: Seq<Seq<char>>,
    fragment: Seq<char>,
) -> Seq<char> {
    if kept.len() == 0 {
        head + fragment
    } else {
        head + seq!['?'] + join(kept, '&') + fragment
    }
}

/// The cleaned URL and the removed names, or `None` when nothing is removed.
pub open spec fn cleaned(url: Seq<char>, patterns: Seq<Seq<char>>) -> Option<
    (Seq<char>, Seq<Seq<char>>),
> {
    match query(url) {
        None => None,
        Some(q) => {
            let dropped = dropped_keys(q, patterns);
            if dropped.len() == 0 {
                None
            } else {
                Some((rebuilt(head(url), kept_parameters(q, patterns), fragment(url)), dropped))
            }
        },
    }
}

/// Whether any of the patterns covers a parameter name.
pub fn is_junk(key: &str, patterns: &[String]) -> (r: bool)
    ensures
        r == junk(key@, texts(patterns@)),
{
    let k = ascii_lower(key);
    let mut i: usize = 0;
    while i < patterns.len()
        invariant
            i <= patterns.len(),
            k@ == lower(key@),
            forall|j: int| 0 <= j < i ==> !#[trigger] covers(texts(patterns@)[j], key@),
        decreases patterns.len() - i,
    {
        let p = ascii_lower(patterns[i].as_str());
        let n = p.len();
        let hit = if n > 0 && p[n - 1] == '*' {
            has_prefix(k.as_slice(), p.as_slice(), n - 1)
        } else {
            same_chars(k.as_slice(), p.as_slice())
        };
        proof {
            assert(texts(patterns@)[i as int] == patterns@[i as int]@);
            if n > 0 {
                assert(p@.take(n - 1) =~= p@.drop_last());
            }
            assert(hit == covers(texts(patterns@)[i as int], key@));
        }
        if hit {
            return true;
        }
        i += 1;
    }
    false
}

/// Return the cleaned URL and removed keys, or `None` if nothing matched.
/// Keys are matched as encoded bytes; empty query segments are omitted on rewrite.
pub fn strip_params(url: &str, patterns: &[String]) -> (r: Option<(String, Vec<String>)>)
    ensures
        match r {
            Some((out, dropped)) => cleaned(url@, texts(patterns@)) == Some(
                (out@, texts(dropped@)),
            ),
            None => cleaned(url@, texts(patterns@)) is None,
        },
{
    let chars = chars_of(url);
    let all = chars.as_slice();
    let ghost pats = texts(patterns@);
    let ghost nonempty = |pair: Seq<char>| pair.len() > 0;
    let ghost clean = |pair: Seq<char>| !junk(key_of(pair), pats);
    let ghost dirty = |pair: Seq<char>| junk(key_of(pair), pats);
    let ghost name = |pair: Seq<char>| key_of(pair);

    let hash = find_char(all, 0, all.len(), '#');
    assert(all@.subrange(0, all@.len() as int) =~= url@);
    assert(all@.subrange(0, hash as int) =~= without_fragment(url@));
    let mark = find_char(all, 0, hash, '?');
    if mark == hash {
        return None;
    }
    let ghost q = query(url@)->0;
    assert(q =~= all@.subrange(mark + 1, hash as int));

    let mut kept: Vec<String> = Vec::new();
    let mut dropped: Vec<String> = Vec::new();
    let mut start: usize = mark + 1;
    let mut more = true;
    proof {
        assert(texts(kept@) =~= Seq::empty());
        assert(texts(dropped@) =~= Seq::empty());
        assert(texts(kept@) + split(q, '&').filter(nonempty).filter(clean) =~= kept_parameters(
            q,
            pats,
        ));
        assert(texts(dropped@) + split(q, '&').filter(nonempty).filter(dirty).map_values(name)
            =~= dropped_keys(q, pats));
    }
    while more
        invariant
            all@ == chars@,
            mark + 1 <= start <= hash <= all@.len(),
            pats == texts(patterns@),
            nonempty == (|pair: Seq<char>| pair.len() > 0),
            clean == (|pair: Seq<char>| !junk(key_of(pair), pats)),
            dirty == (|pair: Seq<char>| junk(key_of(pair), pats)),
            name == (|pair: Seq<char>| key_of(pair)),
            ({
                let rest = if more {
                    split(all@.subrange(start as int, hash as int), '&').filter(nonempty)
                } else {
                    Seq::empty()
                };
                &&& kept_parameters(q, pats) == texts(kept@) + rest.filter(clean)
                &&& dropped_keys(q, pats) == texts(dropped@) + rest.filter(dirty).map_values(name)
            }),
        decreases (if more { 1 + hash - start } else { 0 }),
    {
        let ghost part = all@.subrange(start as int, hash as int);
        let end = find_char(all, start, hash, '&');
        let ghost pair = all@.subrange(start as int, end as int);
        let ghost kept0 = texts(kept@);
        let ghost dropped0 = texts(dropped@);
        if start < end {
            let eq = find_char(all, start, end, '=');
            let key = text_between(all, start, eq);
            assert(key@ =~= key_of(pair));
            if is_junk(key.as_str(), patterns) {
                dropped.push(key);
                assert(texts(dropped@) =~= dropped0.push(key_of(pair)));
            } else {
                kept.push(text_between(all, start, end));
                assert(texts(kept@) =~= kept0.push(pair));
            }
        }
        proof {
            lemma_find(part, '&');
            let tail = if end < hash {
                split(all@.subrange(end + 1, hash as int), '&')
            } else {
                Seq::empty()
            };
            assert(part.take(end - start) =~= pair);
            if end < hash {
                assert(part.skip(end - start + 1) =~= all@.subrange(end + 1, hash as int));
            } else {
                assert(part =~= pair);
            }
            assert(split(part, '&') =~= seq![pair] + tail);
            lemma_one_then_rest(pair, tail, pats);
        }
        if end < hash {
            start = end + 1;
        } else {
            more = false;
        }
    }
    assert(Seq::<Seq<char>>::empty().filter(clean) =~= Seq::empty()) by {
        reveal(Seq::filter);
    }
    assert(Seq::<Seq<char>>::empty().filter(dirty).map_values(name) =~= Seq::empty()) by {
        reveal(Seq::filter);
    }
    assert(texts(kept@) =~= kept_parameters(q, pats));
    assert(texts(dropped@) =~= dropped_keys(q, pats));
    if dropped.is_empty() {
        return None;
    }
    let mut out = text_between(all, 0, mark);
    assert(out@ =~= head(url@));
    if !kept.is_empty() {
        out.push('?');
        let joined = join_texts(kept.as_slice(), '&');
        push_text(&mut out, joined.as_str());
    }
    let tail = text_between(all, hash, all.len());
    assert(tail@ =~= fragment(url@));
    push_text(&mut out, tail.as_str());
    assert(out@ =~= rebuilt(head(url@), texts(kept@), fragment(url@)));
    Some((out, dropped))
}

/// How one more segment at the front changes what is kept and dropped.
proof fn lemma_one_then_rest(pair: Seq<char>, tail: Seq<Seq<char>>, pats: Seq<Seq<char>>)
    ensures
        ({
            let nonempty = |pair: Seq<char>| pair.len() > 0;
            let clean = |pair: Seq<char>| !junk(key_of(pair), pats);
            let dirty = |pair: Seq<char>| junk(key_of(pair), pats);
            let name = |pair: Seq<char>| key_of(pair);
            let all = (seq![pair] + tail).filter(nonempty);
            let rest = tail.filter(nonempty);
            &&& all.filter(clean) == (if pair.len() > 0 && clean(pair) {
                seq![pair] + rest.filter(clean)
            } else {
                rest.filter(clean)
            })
            &&& all.filter(dirty).map_values(name) == (if pair.len() > 0 && dirty(pair) {
                seq![key_of(pair)] + rest.filter(dirty).map_values(name)
            } else {
                rest.filter(dirty).map_values(name)
            })
        }),
{
    let nonempty = |pair: Seq<char>| pair.len() > 0;
    let clean = |pair: Seq<char>| !junk(key_of(pair), pats);
    let dirty = |pair: Seq<char>| junk(key_of(pair), pats);
    let name = |pair: Seq<char>| key_of(pair);
    let one = seq![pair];
    let rest = tail.filter(nonempty);
    Seq::filter_distributes_over_add(one, tail, nonempty);
    reveal_with_fuel(Seq::filter, 2);
    assert(one.drop_last() =~= Seq::empty());
    if pair.len() > 0 {
        assert(one.filter(nonempty) =~= one);
        Seq::filter_distributes_over_add(one, rest, clean);
        Seq::filter_distributes_over_add(one, rest, dirty);
        if clean(pair) {
            assert(one.filter(clean) =~= one);
            assert(one.filter(dirty) =~= Seq::empty());
            assert(Seq::<Seq<char>>::empty() + rest.filter(dirty) =~= rest.filter(dirty));
        } else {
            assert(one.filter(dirty) =~= one);
            assert(one.filter(clean) =~= Seq::empty());
            assert(Seq::<Seq<char>>::empty() + rest.filter(clean) =~= rest.filter(clean));
            assert((one + rest.filter(dirty)).map_values(name) =~= seq![key_of(pair)]
                + rest.filter(dirty).map_values(name));
        }
    } else {
        assert(one.filter(nonempty) =~= Seq::empty());
        assert(Seq::<Seq<char>>::empty() + rest =~= rest);
    }
}

/// The parameters of a query are not empty, and hold no `&` and nothing that
/// the query does not hold.
proof fn lemma_parameters(q: Seq<char>)
    ensures
        forall|i: int|
            0 <= i < parameters(q).len() ==> {
                &&& (#[trigger] parameters(q)[i]).len() > 0
                &&& !parameters(q)[i].contains('&')
            },
        forall|i: int, x: char|
            0 <= i < parameters(q).len() && (#[trigger] parameters(q)[i]).contains(x)
                ==> #[trigger] q.contains(x),
{
    let nonempty = |pair: Seq<char>| pair.len() > 0;
    let all = split(q, '&');
    let some = parameters(q);
    lemma_split_pieces(q, '&');
    assert forall|i: int| 0 <= i < some.len() implies {
        &&& (#[trigger] some[i]).len() > 0
        &&& !some[i].contains('&')
        &&& all.contains(some[i])
    } by {
        all.lemma_filter_pred(nonempty, i);
        assert(some.contains(some[i]));
        all.lemma_filter_contains_rev(nonempty, some[i]);
    }
}

/// Filtering keeps every property that all elements have.
proof fn lemma_filter_members<A>(s: Seq<A>, pred: spec_fn(A) -> bool)
    ensures
        forall|i: int|
            0 <= i < s.filter(pred).len() ==> pred(#[trigger] s.filter(pred)[i]) && s.contains(
                s.filter(pred)[i],
            ),
{
    assert forall|i: int| 0 <= i < s.filter(pred).len() implies pred(#[trigger] s.filter(pred)[i])
        && s.contains(s.filter(pred)[i]) by {
        s.lemma_filter_pred(pred, i);
        assert(s.filter(pred).contains(s.filter(pred)[i]));
        s.lemma_filter_contains_rev(pred, s.filter(pred)[i]);
    }
}

/// Filtering by what holds of every element changes nothing.
proof fn lemma_filter_all<A>(s: Seq<A>, pred: spec_fn(A) -> bool)
    requires
        forall|i: int| 0 <= i < s.len() ==> pred(#[trigger] s[i]),
    ensures
        s.filter(pred) == s,
    decreases s.len(),
{
    reveal(Seq::filter);
    if s.len() > 0 {
        assert forall|i: int| 0 <= i < s.drop_last().len() implies pred(
            #[trigger] s.drop_last()[i],
        ) by {
            assert(s.drop_last()[i] == s[i]);
        }
        lemma_filter_all(s.drop_last(), pred);
        assert(s =~= s.drop_last().push(s.last()));
    }
}

/// Filtering by what holds of no element leaves nothing.
proof fn lemma_filter_none<A>(s: Seq<A>, pred: spec_fn(A) -> bool)
    requires
        forall|i: int| 0 <= i < s.len() ==> !pred(#[trigger] s[i]),
    ensures
        s.filter(pred).len() == 0,
{
    lemma_filter_members(s, pred);
    if s.filter(pred).len() > 0 {
        let x = s.filter(pred)[0];
        let i = choose|i: int| 0 <= i < s.len() && s[i] == x;
        assert(!pred(s[i]));
    }
}

/// A URL put together from its parts comes apart into the same parts.
proof fn lemma_rebuilt(h: Seq<char>, kept: Seq<Seq<char>>, frag: Seq<char>)
    requires
        !h.contains('#'),
        !h.contains('?'),
        frag.len() == 0 || frag[0] == '#',
        forall|i: int|
            0 <= i < kept.len() ==> {
                &&& (#[trigger] kept[i]).len() > 0
                &&& !kept[i].contains('&')
                &&& !kept[i].contains('#')
            },
    ensures
        head(rebuilt(h, kept, frag)) == h,
        fragment(rebuilt(h, kept, frag)) == frag,
        query(rebuilt(h, kept, frag)) == (if kept.len() == 0 {
            None
        } else {
            Some(join(kept, '&'))
        }),
        kept.len() > 0 ==> parameters(join(kept, '&')) == kept,
{
    let url = rebuilt(h, kept, frag);
    let j = join(kept, '&');
    let base = if kept.len() == 0 {
        h
    } else {
        h + seq!['?'] + j
    };
    assert(url =~= base + frag);
    lemma_join_contents(kept, '&', '#');
    assert forall|i: int| 0 <= i < base.len() implies base[i] != '#' by {
        if i < h.len() {
            assert(h[i] == base[i]);
        } else if i > h.len() {
            assert(j[i - h.len() - 1] == base[i]);
        }
    }
    assert forall|i: int| 0 <= i < base.len() implies url[i] != '#' by {
        assert(url[i] == base[i]);
    }
    lemma_find_is(url, '#', base.len() as int);
    assert(without_fragment(url) =~= base);
    assert(fragment(url) =~= frag);
    assert forall|i: int| 0 <= i < h.len() implies base[i] != '?' by {
        assert(h[i] == base[i]);
    }
    lemma_find_is(base, '?', h.len() as int);
    assert(head(url) =~= h);
    if kept.len() > 0 {
        assert(base.skip(h.len() as int + 1) =~= j);
        lemma_split_join(kept, '&');
        lemma_filter_all(kept, |pair: Seq<char>| pair.len() > 0);
    }
}

/// The head and the fragment of a URL contain no query mark or hash that would
/// be read otherwise when the URL is put together again.
proof fn lemma_parts(url: Seq<char>)
    ensures
        !head(url).contains('#'),
        !head(url).contains('?'),
        fragment(url).len() == 0 || fragment(url)[0] == '#',
        query(url) is Some ==> !query(url)->0.contains('#'),
{
    lemma_find(url, '#');
    let base = without_fragment(url);
    lemma_find(base, '?');
    assert forall|i: int| 0 <= i < base.len() implies base[i] != '#' by {
        assert(base[i] == url[i]);
    }
    let q = query(url);
    if q is Some {
        assert forall|i: int| 0 <= i < q->0.len() implies q->0[i] != '#' by {
            assert(q->0[i] == base[i + find(base, '?') + 1]);
        }
    }
}

/// Cleaning leaves the head and the fragment as they were, and the query is
/// then made of exactly the parameters that no pattern covers, in their order.
pub proof fn law_the_rest_survives(url: Seq<char>, patterns: Seq<Seq<char>>)
    requires
        cleaned(url, patterns) is Some,
    ensures
        ({
            let out = (cleaned(url, patterns)->0).0;
            let kept = kept_parameters(query(url)->0, patterns);
            &&& head(out) == head(url)
            &&& fragment(out) == fragment(url)
            &&& kept.len() == 0 ==> query(out) is None
            &&& kept.len() > 0 ==> query(out) is Some && parameters(query(out)->0) == kept
        }),
{
    let q = query(url)->0;
    let clean = |pair: Seq<char>| !junk(key_of(pair), patterns);
    let kept = kept_parameters(q, patterns);
    lemma_parts(url);
    lemma_parameters(q);
    lemma_filter_members(parameters(q), clean);
    assert forall|i: int| 0 <= i < kept.len() implies {
        &&& (#[trigger] kept[i]).len() > 0
        &&& !kept[i].contains('&')
        &&& !kept[i].contains('#')
    } by {
        assert(parameters(q).contains(kept[i]));
        let k = choose|k: int| 0 <= k < parameters(q).len() && parameters(q)[k] == kept[i];
        assert(parameters(q)[k].len() > 0);
    }
    lemma_rebuilt(head(url), kept, fragment(url));
}

/// Cleaning a cleaned URL changes nothing: an already cleaned URL does not
/// trigger another rewrite.
pub proof fn law_cleaning_twice_changes_nothing(url: Seq<char>, patterns: Seq<Seq<char>>)
    requires
        cleaned(url, patterns) is Some,
    ensures
        cleaned((cleaned(url, patterns)->0).0, patterns) is None,
{
    let q = query(url)->0;
    let clean = |pair: Seq<char>| !junk(key_of(pair), patterns);
    let dirty = |pair: Seq<char>| junk(key_of(pair), patterns);
    let kept = kept_parameters(q, patterns);
    law_the_rest_survives(url, patterns);
    lemma_filter_members(parameters(q), clean);
    assert forall|i: int| 0 <= i < kept.len() implies !dirty(#[trigger] kept[i]) by {
        assert(clean(parameters(q).filter(clean)[i]));
    }
    lemma_filter_none(kept, dirty);
}

/// A URL is left alone exactly when it has no query or no pattern covers any
/// of its parameters.
pub proof fn law_left_alone_when_nothing_is_covered(url: Seq<char>, patterns: Seq<Seq<char>>)
    ensures
        cleaned(url, patterns) is None <==> (query(url) is None || forall|i: int|
            0 <= i < parameters(query(url)->0).len() ==> !junk(
                key_of(#[trigger] parameters(query(url)->0)[i]),
                patterns,
            )),
{
    if query(url) is Some {
        let params = parameters(query(url)->0);
        let dirty = |pair: Seq<char>| junk(key_of(pair), patterns);
        if forall|i: int| 0 <= i < params.len() ==> !junk(key_of(#[trigger] params[i]), patterns) {
            assert forall|i: int| 0 <= i < params.len() implies !dirty(#[trigger] params[i]) by {}
            lemma_filter_none(params, dirty);
        } else {
            let i = choose|i: int|
                0 <= i < params.len() && junk(key_of(#[trigger] params[i]), patterns);
            assert(dirty(params[i]));
            params.lemma_filter_contains(dirty, i);
        }
    }
}

/// Every parameter is either kept or reported as dropped, never both: the
/// two counts add up.
pub proof fn law_each_parameter_is_kept_or_dropped(url: Seq<char>, patterns: Seq<Seq<char>>)
    requires
        query(url) is Some,
    ensures
        kept_parameters(query(url)->0, patterns).len() + dropped_keys(query(url)->0, patterns).len()
            == parameters(query(url)->0).len(),
{
    lemma_two_halves(parameters(query(url)->0), patterns);
}

proof fn lemma_two_halves(params: Seq<Seq<char>>, patterns: Seq<Seq<char>>)
    ensures
        params.filter(|pair: Seq<char>| !junk(key_of(pair), patterns)).len() + params.filter(
            |pair: Seq<char>| junk(key_of(pair), patterns),
        ).len() == params.len(),
    decreases params.len(),
{
    reveal(Seq::filter);
    if params.len() > 0 {
        lemma_two_halves(params.drop_last(), patterns);
    }
}

/// A pattern that does not end in `*` covers a name exactly when the two have the
/// same length and agree character by character but for ASCII case; in particular it
/// covers no name that is longer than it.
pub proof fn law_a_plain_pattern_covers_its_own_name_alone(pattern: Seq<char>, key: Seq<char>)
    requires
        pattern.len() == 0 || pattern.last() != '*',
    ensures
        key.len() != pattern.len() ==> !covers(pattern, key),
        covers(pattern, key) <==> key.len() == pattern.len() && forall|i: int|
            0 <= i < key.len() ==> {
                let x = #[trigger] key[i];
                let y = pattern[i];
                ||| x == y
                ||| 'A' <= x <= 'Z' && y as u32 == x as u32 + 32
                ||| 'A' <= y <= 'Z' && x as u32 == y as u32 + 32
            },
{
    let p = lower(pattern);
    law_lower_case_forgets_case_alone(key, pattern);
    if pattern.len() > 0 {
        assert(p.last() == crate::text::lower_char(pattern.last()));
    }
}

/// A pattern that ends in `*` covers a name exactly when the name begins with what
/// comes before the star, but for ASCII case, however long the name is.
pub proof fn law_a_star_covers_what_begins_alike(pattern: Seq<char>, key: Seq<char>)
    requires
        pattern.len() > 0,
        pattern.last() == '*',
    ensures
        covers(pattern, key) <==> pattern.len() - 1 <= key.len() && forall|i: int|
            0 <= i < pattern.len() - 1 ==> {
                let x = #[trigger] key[i];
                let y = pattern[i];
                ||| x == y
                ||| 'A' <= x <= 'Z' && y as u32 == x as u32 + 32
                ||| 'A' <= y <= 'Z' && x as u32 == y as u32 + 32
            },
{
    let p = lower(pattern);
    let k = lower(key);
    let n = pattern.len() - 1;
    assert(p.last() == crate::text::lower_char('*'));
    if n <= key.len() {
        let a = key.take(n);
        let b = pattern.take(n);
        assert(lower(a) =~= k.take(n));
        assert(lower(b) =~= p.drop_last());
        law_lower_case_forgets_case_alone(a, b);
        assert forall|i: int| 0 <= i < n implies a[i] == key[i] && b[i] == pattern[i] by {}
        if forall|i: int|
            0 <= i < n ==> {
                let x = #[trigger] key[i];
                let y = pattern[i];
                ||| x == y
                ||| 'A' <= x <= 'Z' && y as u32 == x as u32 + 32
                ||| 'A' <= y <= 'Z' && x as u32 == y as u32 + 32
            } {
            assert forall|i: int| 0 <= i < a.len() implies {
                let x = #[trigger] a[i];
                let y = b[i];
                ||| x == y
                ||| 'A' <= x <= 'Z' && y as u32 == x as u32 + 32
                ||| 'A' <= y <= 'Z' && x as u32 == y as u32 + 32
            } by {
                assert(key[i] == a[i]);
            }
        }
        if lower(a) == lower(b) {
            assert forall|i: int| 0 <= i < n implies {
                let x = #[trigger] key[i];
                let y = pattern[i];
                ||| x == y
                ||| 'A' <= x <= 'Z' && y as u32 == x as u32 + 32
                ||| 'A' <= y <= 'Z' && x as u32 == y as u32 + 32
            } by {
                assert(key[i] == a[i]);
            }
        }
    }
}

/// A name is junk when any one of the patterns covers it, wherever it stands among
/// them: each pattern of each list counts, and no patterns cover nothing.
pub proof fn law_any_pattern_will_do(key: Seq<char>, a: Seq<Seq<char>>, b: Seq<Seq<char>>)
    ensures
        !junk(key, Seq::empty()),
        junk(key, a + b) <==> junk(key, a) || junk(key, b),
        junk(key, a + b) <==> junk(key, b + a),
        forall|pattern: Seq<char>|
            junk(key, #[trigger] a.push(pattern)) <==> junk(key, a) || covers(pattern, key),
{
    lemma_either_list(key, a, b);
    lemma_either_list(key, b, a);
    assert forall|pattern: Seq<char>|
        junk(key, #[trigger] a.push(pattern)) <==> junk(key, a) || covers(pattern, key) by {
        let one = seq![pattern];
        lemma_either_list(key, a, one);
        assert(a.push(pattern) =~= a + one);
        assert(one[0] == pattern);
        if covers(pattern, key) {
            assert(covers(one[0], key));
        }
    }
}

proof fn lemma_either_list(key: Seq<char>, a: Seq<Seq<char>>, b: Seq<Seq<char>>)
    ensures
        junk(key, a + b) <==> junk(key, a) || junk(key, b),
{
    let all = a + b;
    if junk(key, a) {
        let i = choose|i: int| 0 <= i < a.len() && #[trigger] covers(a[i], key);
        assert(covers(all[i], key));
    }
    if junk(key, b) {
        let i = choose|i: int| 0 <= i < b.len() && #[trigger] covers(b[i], key);
        assert(covers(all[i + a.len()], key));
    }
    if junk(key, all) {
        let i = choose|i: int| 0 <= i < all.len() && #[trigger] covers(all[i], key);
        if i < a.len() {
            assert(covers(a[i], key));
        } else {
            assert(covers(b[i - a.len()], key));
        }
    }
}

/// The patterns that are there by default.
pub proof fn law_the_default_patterns()
    ensures
        names(DEFAULT_JUNK@) == seq![
            "utm_*"@,
            "fbclid"@,
            "gclid"@,
            "dclid"@,
            "gbraid"@,
            "wbraid"@,
            "msclkid"@,
            "twclid"@,
            "ttclid"@,
            "igshid"@,
            "igsh"@,
            "si"@,
            "mc_cid"@,
            "mc_eid"@,
            "_openstat"@,
            "yclid"@,
            "ysclid"@,
            "spm"@,
            "scm"@,
            "ref_src"@,
            "ref_url"@,
        ],
{
}

/// The name of a parameter ends before its first `=`; a parameter without one is all
/// name.
pub proof fn law_a_name_ends_at_the_first_equals_sign(name: Seq<char>, value: Seq<char>)
    requires
        !name.contains('='),
    ensures
        key_of(name) == name,
        key_of(name + seq!['='] + value) == name,
{
    let pair = name + seq!['='] + value;
    assert forall|i: int| 0 <= i < name.len() implies name[i] != '=' && pair[i] != '=' by {
        assert(name.contains(name[i]));
    }
    lemma_find_is(name, '=', name.len() as int);
    lemma_find_is(pair, '=', name.len() as int);
    assert(key_of(name) =~= name);
    assert(key_of(pair) =~= name);
}

/// The parameters of two queries with an `&` between them are those of the one and
/// then those of the other. A segment without an `&` is one parameter, an empty one
/// none.
pub proof fn law_parameters_are_between_ampersands(a: Seq<char>, b: Seq<char>)
    ensures
        parameters(a + seq!['&'] + b) == parameters(a) + parameters(b),
        parameters(Seq::empty()) == Seq::<Seq<char>>::empty(),
        a.len() > 0 && !a.contains('&') ==> parameters(a) == seq![a],
{
    let nonempty = |pair: Seq<char>| pair.len() > 0;
    law_split_takes_lists_apart(a, b, '&');
    Seq::filter_distributes_over_add(split(a, '&'), split(b, '&'), nonempty);
    let none = Seq::<char>::empty();
    lemma_find_is(none, '&', 0);
    assert(split(none, '&') =~= seq![none]);
    lemma_filter_none(seq![none], nonempty);
    assert(parameters(none) =~= Seq::<Seq<char>>::empty());
    if a.len() > 0 && !a.contains('&') {
        assert forall|i: int| 0 <= i < a.len() implies a[i] != '&' by {
            assert(a.contains(a[i]));
        }
        lemma_find_is(a, '&', a.len() as int);
        assert(split(a, '&') =~= seq![a]);
        lemma_filter_all(seq![a], nonempty);
    }
}

/// What is kept and what is dropped of a query is decided parameter by parameter, in
/// order, each by its own name.
pub proof fn law_parameters_are_judged_one_by_one(
    a: Seq<char>,
    b: Seq<char>,
    patterns: Seq<Seq<char>>,
)
    ensures
        kept_parameters(a + seq!['&'] + b, patterns) == kept_parameters(a, patterns)
            + kept_parameters(b, patterns),
        dropped_keys(a + seq!['&'] + b, patterns) == dropped_keys(a, patterns) + dropped_keys(
            b,
            patterns,
        ),
        a.len() > 0 && !a.contains('&') && junk(key_of(a), patterns) ==> {
            &&& kept_parameters(a, patterns) == Seq::<Seq<char>>::empty()
            &&& dropped_keys(a, patterns) == seq![key_of(a)]
        },
        a.len() > 0 && !a.contains('&') && !junk(key_of(a), patterns) ==> {
            &&& kept_parameters(a, patterns) == seq![a]
            &&& dropped_keys(a, patterns) == Seq::<Seq<char>>::empty()
        },
{
    let clean = |pair: Seq<char>| !junk(key_of(pair), patterns);
    let dirty = |pair: Seq<char>| junk(key_of(pair), patterns);
    let name = |pair: Seq<char>| key_of(pair);
    let pa = parameters(a);
    let pb = parameters(b);
    law_parameters_are_between_ampersands(a, b);
    Seq::filter_distributes_over_add(pa, pb, clean);
    Seq::filter_distributes_over_add(pa, pb, dirty);
    assert((pa.filter(dirty) + pb.filter(dirty)).map_values(name) =~= pa.filter(dirty).map_values(
        name,
    ) + pb.filter(dirty).map_values(name));
    if a.len() > 0 && !a.contains('&') {
        if dirty(a) {
            lemma_filter_none(pa, clean);
            lemma_filter_all(pa, dirty);
            assert(pa.map_values(name) =~= seq![key_of(a)]);
            assert(kept_parameters(a, patterns) =~= Seq::<Seq<char>>::empty());
        } else {
            lemma_filter_all(pa, clean);
            lemma_filter_none(pa, dirty);
            assert(dropped_keys(a, patterns) =~= Seq::<Seq<char>>::empty());
        }
    }
}

/// A URL is a head, then a query behind the first `?`, then a fragment from the first
/// `#` on; a `?` behind that `#` starts no query.
pub proof fn law_the_parts_of_a_url(h: Seq<char>, q: Seq<char>, f: Seq<char>)
    requires
        !h.contains('?'),
        !h.contains('#'),
        !q.contains('#'),
        f.len() == 0 || f[0] == '#',
    ensures
        head(h + seq!['?'] + q + f) == h,
        query(h + seq!['?'] + q + f) == Some(q),
        fragment(h + seq!['?'] + q + f) == f,
        head(h + f) == h,
        query(h + f) is None,
        fragment(h + f) == f,
{
    let base = h + seq!['?'] + q;
    let url = base + f;
    let bare = h + f;
    assert forall|i: int| 0 <= i < h.len() implies h[i] != '?' && h[i] != '#' by {
        assert(h.contains(h[i]));
    }
    assert forall|i: int| 0 <= i < base.len() implies url[i] != '#' by {
        if i > h.len() {
            assert(q.contains(q[i - h.len() - 1]));
        }
    }
    lemma_find_is(url, '#', base.len() as int);
    assert(without_fragment(url) =~= base);
    assert(fragment(url) =~= f);
    lemma_find_is(base, '?', h.len() as int);
    assert(head(url) =~= h);
    assert(base.skip(h.len() as int + 1) =~= q);
    lemma_find_is(bare, '#', h.len() as int);
    assert(without_fragment(bare) =~= h);
    assert(fragment(bare) =~= f);
    lemma_find_is(h, '?', h.len() as int);
    assert(head(bare) =~= h);
}

/// A cleaned URL is the head, the kept parameters with an `&` between each two, and
/// the fragment; without a parameter left there is no `?` either. It comes with the
/// names that were dropped. Without a name to drop the URL is left alone.
pub proof fn law_what_cleaning_makes_of_a_url(
    h: Seq<char>,
    q: Seq<char>,
    f: Seq<char>,
    patterns: Seq<Seq<char>>,
)
    requires
        !h.contains('?'),
        !h.contains('#'),
        !q.contains('#'),
        f.len() == 0 || f[0] == '#',
    ensures
        cleaned(h + f, patterns) is None,
        dropped_keys(q, patterns).len() == 0 ==> cleaned(h + seq!['?'] + q + f, patterns) is None,
        dropped_keys(q, patterns).len() > 0 ==> {
            let kept = kept_parameters(q, patterns);
            let dropped = dropped_keys(q, patterns);
            &&& kept.len() == 0 ==> cleaned(h + seq!['?'] + q + f, patterns) == Some(
                (h + f, dropped),
            )
            &&& kept.len() > 0 ==> cleaned(h + seq!['?'] + q + f, patterns) == Some(
                (h + seq!['?'] + join(kept, '&') + f, dropped),
            )
        },
{
    law_the_parts_of_a_url(h, q, f);
}

/// The default list, as the patterns that `strip_params` takes.
pub fn default_junk() -> (r: Vec<String>)
    ensures
        texts(r@) == names(DEFAULT_JUNK@),
{
    owned_names(DEFAULT_JUNK.as_slice())
}

/// Whether a name is junk is the same whatever the case of its letters, and adding a
/// pattern makes no name clean that was junk.
pub proof fn law_letter_case_and_more_patterns(
    key: &str,
    same: &str,
    patterns: &[String],
    more: &[String],
    a: bool,
    b: bool,
    c: bool,
)
    requires
        same@.len() == key@.len(),
        forall|i: int|
            0 <= i < key@.len() ==> {
                let x = #[trigger] key@[i];
                let y = same@[i];
                ||| x == y
                ||| 'A' <= x <= 'Z' && y as u32 == x as u32 + 32
                ||| 'A' <= y <= 'Z' && x as u32 == y as u32 + 32
            },
        forall|i: int| 0 <= i < patterns@.len() ==> more@.contains(#[trigger] patterns@[i]),
        call_ensures(is_junk, (key, patterns), a),
        call_ensures(is_junk, (same, patterns), b),
        call_ensures(is_junk, (key, more), c),
    ensures
        a == b,
        a ==> c,
{
    law_lower_case_forgets_case_alone(key@, same@);
    let list = texts(patterns@);
    assert forall|i: int| 0 <= i < list.len() implies #[trigger] covers(list[i], key@) == covers(
        list[i],
        same@,
    ) by {}
    if a {
        let i = choose|i: int| 0 <= i < list.len() && #[trigger] covers(list[i], key@);
        assert(covers(list[i], same@));
        assert(more@.contains(patterns@[i]));
        let j = choose|j: int| 0 <= j < more@.len() && more@[j] == patterns@[i];
        assert(texts(more@)[j] == list[i]);
        assert(covers(texts(more@)[j], key@));
    }
    if b {
        let i = choose|i: int| 0 <= i < list.len() && #[trigger] covers(list[i], same@);
        assert(covers(list[i], key@));
    }
}

} // verus!
