//! HTML for replacement selections.

use vstd::prelude::*;

use crate::selection::{HTML_MIME, URL_MIME};
use crate::text::push_text;

verus! {

broadcast use vstd::string::group_string_axioms;

/// How one character is written in HTML, inside text and quoted attributes.
pub open spec fn escaped_char(c: char) -> Seq<char> {
    if c == '&' {
        "&amp;"@
    } else if c == '<' {
        "&lt;"@
    } else if c == '>' {
        "&gt;"@
    } else if c == '"' {
        "&quot;"@
    } else if c == '\'' {
        "&#39;"@
    } else {
        seq![c]
    }
}

/// A text with the characters that mean something in HTML written as entities.
pub open spec fn escaped(s: Seq<char>) -> Seq<char> {
    s.flat_map(|c: char| escaped_char(c))
}

/// A link to `url` that reads `text`.
pub open spec fn anchor(url: Seq<char>, text: Seq<char>) -> Seq<char> {
    "<a href=\""@ + escaped(url) + "\">"@ + escaped(text) + "</a>"@
}

pub fn html_escape(s: &str) -> (r: String)
    ensures
        r@ == escaped(s@),
{
    let ghost f = |c: char| escaped_char(c);
    let mut out = String::new();
    assert(s@.take(0).flat_map(f) =~= Seq::empty());
    for c in it: s.chars()
        invariant
            it.seq() == s@,
            f == (|c: char| escaped_char(c)),
            out@ == s@.take(it.index()).flat_map(f),
    {
        let ghost was = out@;
        if c == '&' {
            push_text(&mut out, "&amp;");
        } else if c == '<' {
            push_text(&mut out, "&lt;");
        } else if c == '>' {
            push_text(&mut out, "&gt;");
        } else if c == '"' {
            push_text(&mut out, "&quot;");
        } else if c == '\'' {
            push_text(&mut out, "&#39;");
        } else {
            out.push(c);
        }
        proof {
            assert(out@ =~= was + escaped_char(c));
            s@.lemma_flat_map_take_append(f, it.index());
        }
    }
    assert(s@.take(s@.len() as int) =~= s@);
    out
}

/// The flavours of a link to a URL, with a text of its own or none.
pub open spec fn link_flavours(url: Seq<char>, text: Option<Seq<char>>) -> Seq<
    (Seq<char>, Seq<char>),
> {
    let shown = match text {
        Some(t) => t,
        None => url,
    };
    seq![("text"@, shown), (HTML_MIME@, anchor(url, shown)), (URL_MIME@, url)]
}

/// The flavours of a link: the text alone, an HTML anchor and the URL. Without
/// a text of its own the link reads as its URL.
pub fn link(url: &str, text: Option<&str>) -> (r: Vec<(&'static str, String)>)
    ensures
        r@.map_values(|f: (&'static str, String)| (f.0@, f.1@)) == link_flavours(
            url@,
            match text {
                Some(t) => Some(t@),
                None => None,
            },
        ),
{
    let shown = match text {
        Some(t) => t,
        None => url,
    };
    let mut html = "<a href=\"".to_string();
    let href = html_escape(url);
    push_text(&mut html, href.as_str());
    push_text(&mut html, "\">");
    let label = html_escape(shown);
    push_text(&mut html, label.as_str());
    push_text(&mut html, "</a>");
    let mut out: Vec<(&'static str, String)> = Vec::new();
    out.push(("text", shown.to_string()));
    out.push((HTML_MIME, html));
    out.push((URL_MIME, url.to_string()));
    assert(out@.map_values(|f: (&'static str, String)| (f.0@, f.1@)) =~= seq![
        ("text"@, shown@),
        (HTML_MIME@, anchor(url@, shown@)),
        (URL_MIME@, url@),
    ]);
    out
}

proof fn lemma_escaped_push(s: Seq<char>, c: char)
    ensures
        escaped(s.push(c)) == escaped(s) + escaped_char(c),
{
    s.lemma_flat_map_push(|c: char| escaped_char(c), c);
}

proof fn lemma_entities()
    ensures
        forall|c: char, x: char|
            #[trigger] escaped_char(c).contains(x) ==> x != '<' && x != '>' && x != '"' && x
                != '\'',
{
    reveal_strlit("&amp;");
    reveal_strlit("&lt;");
    reveal_strlit("&gt;");
    reveal_strlit("&quot;");
    reveal_strlit("&#39;");
}

/// Escaped text holds no character that opens or closes a tag or a quoted
/// attribute, so neither the address nor the label of a link can break out.
pub proof fn law_escaped_text_is_inert(s: Seq<char>)
    ensures
        forall|i: int|
            0 <= i < escaped(s).len() ==> {
                let x = #[trigger] escaped(s)[i];
                x != '<' && x != '>' && x != '"' && x != '\''
            },
    decreases s.len(),
{
    if s.len() == 0 {
        assert(s.map_values(|c: char| escaped_char(c)) =~= Seq::empty());
        assert(escaped(s) =~= Seq::empty());
    } else {
        let front = s.drop_last();
        law_escaped_text_is_inert(front);
        assert(s =~= front.push(s.last()));
        lemma_escaped_push(front, s.last());
        lemma_entities();
        let whole = escaped(s);
        assert forall|i: int| 0 <= i < whole.len() implies {
            let x = #[trigger] whole[i];
            x != '<' && x != '>' && x != '"' && x != '\''
        } by {
            if i < escaped(front).len() {
                assert(whole[i] == escaped(front)[i]);
            } else {
                let e = escaped_char(s.last());
                assert(whole[i] == e[i - escaped(front).len()]);
                assert(e.contains(whole[i]));
            }
        }
    }
}

/// Escaping loses nothing: different texts are written differently.
pub proof fn law_escaping_is_injective(a: Seq<char>, b: Seq<char>)
    requires
        escaped(a) == escaped(b),
    ensures
        a == b,
    decreases a.len(),
{
    lemma_escaped_front(a);
    lemma_escaped_front(b);
    lemma_entity_text();
    if a.len() == 0 || b.len() == 0 {
        assert(a =~= b);
    } else {
        let x = escaped_char(a[0]);
        let y = escaped_char(b[0]);
        let ra = escaped(a.drop_first());
        let rb = escaped(b.drop_first());
        let whole = escaped(a);
        assert(whole == x + ra);
        assert(whole == y + rb);
        assert(x[0] == whole[0] && y[0] == whole[0]);
        if x.len() > 1 && y.len() > 1 {
            assert(x[1] == whole[1] && y[1] == whole[1]);
            assert(x[2] == whole[2] && y[2] == whole[2]);
        }
        assert(a[0] == b[0]);
        assert(ra =~= whole.skip(x.len() as int));
        assert(rb =~= whole.skip(y.len() as int));
        law_escaping_is_injective(a.drop_first(), b.drop_first());
        assert(a =~= seq![a[0]] + a.drop_first());
        assert(b =~= seq![b[0]] + b.drop_first());
    }
}

/// The first characters of the entities tell them apart, and no other
/// character is written with an ampersand.
proof fn lemma_entity_text()
    ensures
        forall|c: char|
            {
                let e = #[trigger] escaped_char(c);
                &&& e.len() >= 1
                &&& e.len() > 1 <==> e[0] == '&'
                &&& e.len() > 1 ==> e.len() >= 4 && e[1] == (if c == '&' {
                    'a'
                } else if c == '<' {
                    'l'
                } else if c == '>' {
                    'g'
                } else if c == '"' {
                    'q'
                } else {
                    '#'
                })
                &&& e.len() == 1 ==> e[0] == c
                &&& e.len() > 1 <==> (c == '&' || c == '<' || c == '>' || c == '"' || c == '\'')
            },
{
    reveal_strlit("&amp;");
    reveal_strlit("&lt;");
    reveal_strlit("&gt;");
    reveal_strlit("&quot;");
    reveal_strlit("&#39;");
}

proof fn lemma_escaped_front(s: Seq<char>)
    ensures
        s.len() == 0 ==> escaped(s).len() == 0,
        s.len() > 0 ==> escaped(s) == escaped_char(s[0]) + escaped(s.drop_first()),
    decreases s.len(),
{
    let f = |c: char| escaped_char(c);
    if s.len() == 0 {
        assert(s.map_values(f) =~= Seq::empty());
        assert(escaped(s) =~= Seq::empty());
    } else {
        let front = s.drop_last();
        assert(s =~= front.push(s.last()));
        lemma_escaped_push(front, s.last());
        lemma_escaped_front(front);
        if front.len() == 0 {
            assert(s.drop_first() =~= Seq::empty());
            lemma_escaped_front(Seq::empty());
            assert(escaped(s) =~= escaped_char(s[0]) + escaped(s.drop_first()));
        } else {
            assert(s.drop_first() =~= front.drop_first().push(s.last()));
            lemma_escaped_push(front.drop_first(), s.last());
            assert(escaped(s) =~= escaped_char(s[0]) + escaped(s.drop_first()));
        }
    }
}

/// Escaping goes character by character, in order: the five that mean something in
/// HTML become their entities, and all others stay as they are.
pub proof fn law_escaping_goes_character_by_character(s: Seq<char>, c: char)
    ensures
        escaped(Seq::empty()) == Seq::<char>::empty(),
        c == '&' ==> escaped(s.push(c)) == escaped(s) + seq!['&', 'a', 'm', 'p', ';'],
        c == '<' ==> escaped(s.push(c)) == escaped(s) + seq!['&', 'l', 't', ';'],
        c == '>' ==> escaped(s.push(c)) == escaped(s) + seq!['&', 'g', 't', ';'],
        c == '"' ==> escaped(s.push(c)) == escaped(s) + seq!['&', 'q', 'u', 'o', 't', ';'],
        c == '\'' ==> escaped(s.push(c)) == escaped(s) + seq!['&', '#', '3', '9', ';'],
        c != '&' && c != '<' && c != '>' && c != '"' && c != '\'' ==> escaped(s.push(c)) == escaped(
            s,
        ).push(c),
{
    reveal_strlit("&amp;");
    reveal_strlit("&lt;");
    reveal_strlit("&gt;");
    reveal_strlit("&quot;");
    reveal_strlit("&#39;");
    lemma_escaped_front(Seq::empty());
    lemma_escaped_push(s, c);
    assert(escaped(Seq::empty()) =~= Seq::<char>::empty());
    assert("&amp;"@ =~= seq!['&', 'a', 'm', 'p', ';']);
    assert("&lt;"@ =~= seq!['&', 'l', 't', ';']);
    assert("&gt;"@ =~= seq!['&', 'g', 't', ';']);
    assert("&quot;"@ =~= seq!['&', 'q', 'u', 'o', 't', ';']);
    assert("&#39;"@ =~= seq!['&', '#', '3', '9', ';']);
}

/// A link is its text as it is, an anchor with the escaped URL as its address and the
/// escaped text as its label, and the URL as it is. Without a text of its own it is a
/// link that reads as its URL.
pub proof fn law_the_flavours_of_a_link(url: Seq<char>, text: Seq<char>)
    ensures
        link_flavours(url, Some(text)) == seq![
            ("text"@, text),
            ("text/html"@, "<a href=\""@ + escaped(url) + "\">"@ + escaped(text) + "</a>"@),
            ("chromium/x-source-url"@, url),
        ],
        link_flavours(url, None) == link_flavours(url, Some(url)),
{
}

} // verus!
