//! Rule patterns: the regular expressions of the `regex` crate.

use vstd::prelude::*;

verus! {

/// A compiled pattern of the `regex` crate.
#[verifier::external_type_specification]
#[verifier::external_body]
pub struct ExRegex(regex::Regex);

/// Why the `regex` crate refused a pattern.
#[verifier::external_type_specification]
#[verifier::external_body]
pub struct ExRegexError(regex::Error);

/// What `regex::Regex::new` makes of a source text.
pub uninterp spec fn compiled(source: Seq<char>) -> regex::Regex;

/// Whether this can come of compiling a source text.
pub uninterp spec fn may_compile(
    source: Seq<char>,
    made: Result<regex::Regex, regex::Error>,
) -> bool;

/// What `regex::Regex::captures` finds in a text: nothing when the pattern does
/// not match, otherwise the texts of its groups, from the whole match on, a
/// group that took no part in the match having none.
pub uninterp spec fn captured(pattern: regex::Regex, text: Seq<char>) -> Option<
    Seq<Option<Seq<char>>>,
>;

/// The text of a refusal of the `regex` crate.
pub uninterp spec fn pattern_message(error: regex::Error) -> Seq<char>;

/// The texts of a list of groups.
pub open spec fn groups(list: Seq<Option<String>>) -> Seq<Option<Seq<char>>> {
    list.map_values(
        |g: Option<String>|
            match g {
                Some(t) => Some(t@),
                None => None::<Seq<char>>,
            },
    )
}

/// `regex::Regex::new`: the result is something that can come of compiling this
/// source text, and a pattern that was compiled is the one that its source text
/// stands for. Nothing is said of which sources compile, which besides their
/// syntax rests on a limit on memory that differs between machines.
#[verifier::external_body]
pub(crate) fn compile(source: &str) -> (r: Result<regex::Regex, regex::Error>)
    ensures
        may_compile(source@, r),
        r matches Ok(pattern) ==> pattern == compiled(source@),
{
    regex::Regex::new(source)
}

/// `regex::Regex::captures`, with each group copied out: what it finds depends
/// on the pattern and the text alone, and group 0, the whole match, is always
/// among the groups of a match.
#[verifier::external_body]
pub(crate) fn captures(pattern: &regex::Regex, text: &str) -> (r: Option<Vec<Option<String>>>)
    ensures
        match r {
            Some(list) => captured(*pattern, text@) == Some(groups(list@)) && list@.len() > 0,
            None => captured(*pattern, text@) is None,
        },
{
    let found = pattern.captures(text)?;
    Some(found.iter().map(|group| group.map(|m| m.as_str().to_string())).collect())
}

/// The `Display` of `regex::Error`: its text is a matter of the error alone.
#[verifier::external_body]
pub(crate) fn pattern_error(error: &regex::Error) -> (r: String)
    ensures
        r@ == pattern_message(*error),
{
    error.to_string()
}

/// The groups of a match are what each of them holds, in order, and one that took no
/// part holds nothing.
pub proof fn law_groups_are_what_they_hold(list: Seq<Option<String>>)
    ensures
        groups(list).len() == list.len(),
        forall|i: int|
            0 <= i < list.len() ==> match list[i] {
                Some(text) => #[trigger] groups(list)[i] == Some(text@),
                None => groups(list)[i] is None,
            },
{
}

} // verus!
