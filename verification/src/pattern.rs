//! Regular expressions, as the regex crate has them.
//!
//! A pattern that the regex crate cannot compile matches nothing.
use regex::Regex;
use vstd::prelude::*;

use crate::text::opt_view;

verus! {

/// The text of the first match of a pattern in a text.
pub uninterp spec fn regex_find(pattern: Seq<char>, text: Seq<char>) -> Option<Seq<char>>;

/// The texts of the capture groups of the first match, group 0 being the match.
pub uninterp spec fn regex_captures(pattern: Seq<char>, text: Seq<char>) -> Option<
    Seq<Option<Seq<char>>>,
>;

/// The texts of the capture groups of each match, one match after the other.
pub uninterp spec fn regex_captures_iter(pattern: Seq<char>, text: Seq<char>) -> Seq<
    Seq<Option<Seq<char>>>,
>;

/// Whether a pattern matches somewhere in a text.
pub uninterp spec fn regex_is_match(pattern: Seq<char>, text: Seq<char>) -> bool;

/// A text with its first match replaced.
pub uninterp spec fn regex_replace(
    pattern: Seq<char>,
    text: Seq<char>,
    replacement: Seq<char>,
) -> Seq<char>;

/// A text with each match replaced.
pub uninterp spec fn regex_replace_all(
    pattern: Seq<char>,
    text: Seq<char>,
    replacement: Seq<char>,
) -> Seq<char>;

/// The texts of capture groups.
pub open spec fn group_views(groups: Seq<Option<String>>) -> Seq<Option<Seq<char>>> {
    groups.map_values(|g: Option<String>| opt_view(g))
}

/// The texts of the capture groups of several matches.
pub open spec fn match_views(matches: Seq<Vec<Option<String>>>) -> Seq<Seq<Option<Seq<char>>>> {
    matches.map_values(|m: Vec<Option<String>>| group_views(m@))
}

/// The text of a capture group. A group that took no part has none.
pub open spec fn group_text(groups: Seq<Option<Seq<char>>>, i: int) -> Seq<char> {
    if 0 <= i < groups.len() && groups[i] is Some {
        groups[i]->Some_0
    } else {
        seq![]
    }
}

/// Trusted: `Regex::new` and `Regex::find` of the regex crate. The result is the
/// text of the first match, and depends on the pattern and the text alone.
#[verifier::external_body]
pub(crate) fn find(pattern: &str, text: &str) -> (r: Option<String>)
    ensures
        opt_view(r) == regex_find(pattern@, text@),
{
    Regex::new(pattern).ok()?.find(text).map(|m| m.as_str().to_string())
}

/// Trusted: `Regex::new` and `Regex::captures` of the regex crate. The result is
/// the text of each capture group of the first match, and depends on the pattern
/// and the text alone.
#[verifier::external_body]
pub(crate) fn captures(pattern: &str, text: &str) -> (r: Option<Vec<Option<String>>>)
    ensures
        match r {
            Some(groups) => regex_captures(pattern@, text@) == Some(group_views(groups@)),
            None => regex_captures(pattern@, text@) is None,
        },
{
    let caps = Regex::new(pattern).ok()?.captures(text)?;
    Some(caps.iter().map(|g| g.map(|m| m.as_str().to_string())).collect())
}

/// Trusted: `Regex::new` and `Regex::captures_iter` of the regex crate. The
/// result holds the text of each capture group of each match, in the order of
/// the matches, and depends on the pattern and the text alone.
#[verifier::external_body]
pub(crate) fn captures_iter(pattern: &str, text: &str) -> (r: Vec<Vec<Option<String>>>)
    ensures
        match_views(r@) == regex_captures_iter(pattern@, text@),
{
    match Regex::new(pattern) {
        Ok(re) => re.captures_iter(text)
            .map(|c| c.iter().map(|g| g.map(|m| m.as_str().to_string())).collect())
            .collect(),
        Err(_) => Vec::new(),
    }
}

/// Trusted: `Regex::new` and `Regex::is_match` of the regex crate. The result
/// says whether there is a match, and depends on the pattern and the text alone.
#[verifier::external_body]
pub(crate) fn is_match(pattern: &str, text: &str) -> (r: bool)
    ensures
        r == regex_is_match(pattern@, text@),
{
    match Regex::new(pattern) {
        Ok(re) => re.is_match(text),
        Err(_) => false,
    }
}

/// Trusted: `Regex::new` and `Regex::replace` of the regex crate. The result is
/// the text with the first match replaced, depends on the three arguments alone,
/// and is the text itself where there is no match.
#[verifier::external_body]
pub(crate) fn replace(pattern: &str, text: &str, replacement: &str) -> (r: String)
    ensures
        r@ == regex_replace(pattern@, text@, replacement@),
        !regex_is_match(pattern@, text@) ==> r@ == text@,
{
    match Regex::new(pattern) {
        Ok(re) => re.replace(text, replacement).to_string(),
        Err(_) => text.to_string(),
    }
}

/// Trusted: `Regex::new` and `Regex::replace_all` of the regex crate. The result
/// is the text with each match replaced, depends on the three arguments alone,
/// and is the text itself where there is no match.
#[verifier::external_body]
pub(crate) fn replace_all(pattern: &str, text: &str, replacement: &str) -> (r: String)
    ensures
        r@ == regex_replace_all(pattern@, text@, replacement@),
        !regex_is_match(pattern@, text@) ==> r@ == text@,
{
    match Regex::new(pattern) {
        Ok(re) => re.replace_all(text, replacement).to_string(),
        Err(_) => text.to_string(),
    }
}

/// The text of a capture group. A group that took no part has none.
pub fn group(groups: &Vec<Option<String>>, i: usize) -> (r: String)
    ensures
        r@ == group_text(group_views(groups@), i as int),
{
    if i < groups.len() {
        match &groups[i] {
            Some(s) => s.clone(),
            None => String::new(),
        }
    } else {
        String::new()
    }
}

} // verus!
