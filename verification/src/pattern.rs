//! Regular expressions: cutting text into the words that are encoded one by one.

use fancy_regex::Regex;
use vstd::prelude::*;

verus! {

/// A word: a contraction's ending; letters, digits or other signs, each with at
/// most one space before; or white space.
pub const PRETOKEN_PATTERN: &'static str =
    r"'(?:[sdmt]|ll|ve|re)| ?\p{L}+| ?\p{N}+| ?[^\s\p{L}\p{N}]+|\s+(?!\S)|\s+";

/// A whole number, with or without a minus sign.
pub const NUMBER_PATTERN: &'static str = r"(-?\d+)";

/// The texts of string slices.
pub open spec fn texts(parts: Seq<&str>) -> Seq<Seq<char>> {
    parts.map_values(|part: &str| part@)
}

/// The successive matches of a pattern in a text, or nothing where the pattern
/// is malformed or the search was given up.
pub uninterp spec fn regex_matches(pattern: Seq<char>, text: Seq<char>) -> Option<Seq<Seq<char>>>;

/// The words of a text, or nothing where the search for them was given up.
pub open spec fn pretokens(text: Seq<char>) -> Option<Seq<Seq<char>>> {
    regex_matches(PRETOKEN_PATTERN@, text)
}

/// `Regex::new` and `Regex::find_iter`, with one of the two patterns above: the
/// text of each successive match, or `None` where the pattern does not compile or
/// a search ends in an error, as it does when it takes too many backtracking
/// steps.
///
/// Of the pattern for words, two things more. No match is empty, since each
/// alternative takes at least one character. And the matches follow each other
/// without a gap and cover the text: a search starts where the last match ended,
/// and whatever character stands there, a letter, a digit, white space or none
/// of these, one of the alternatives starts with it.
#[verifier::external_body]
pub(crate) fn find_all<'t>(pattern: &str, text: &'t str) -> (found: Option<Vec<&'t str>>)
    requires
        pattern@ == PRETOKEN_PATTERN@ || pattern@ == NUMBER_PATTERN@,
    ensures
        match found {
            Some(parts) => regex_matches(pattern@, text@) == Some(texts(parts@)),
            None => regex_matches(pattern@, text@) is None,
        },
        pattern@ == PRETOKEN_PATTERN@ ==> (found matches Some(parts) ==> texts(parts@).flatten()
            == text@),
        pattern@ == PRETOKEN_PATTERN@ ==> (found matches Some(parts) ==> forall|i: int|
            0 <= i < parts@.len() ==> (#[trigger] parts@[i])@.len() > 0),
{
    let regex = Regex::new(pattern).ok()?;
    let matches = regex.find_iter(text).map(|m| m.map(|m| m.as_str()));
    matches.collect::<Result<Vec<_>, _>>().ok()
}

/// The words of `text`.
pub fn pretokenize(text: &str) -> (words: Vec<&str>)
    requires
        pretokens(text@) is Some,
    ensures
        pretokens(text@) == Some(texts(words@)),
        texts(words@).flatten() == text@,
        forall|i: int| 0 <= i < words@.len() ==> (#[trigger] words@[i])@.len() > 0,
{
    find_all(PRETOKEN_PATTERN, text).unwrap()
}

/// The words of `text`, or `None` where the search for them was given up.
pub fn try_pretokenize(text: &str) -> (words: Option<Vec<&str>>)
    ensures
        match words {
            Some(words) => {
                &&& pretokens(text@) == Some(texts(words@))
                &&& texts(words@).flatten() == text@
                &&& forall|i: int| 0 <= i < words@.len() ==> (#[trigger] words@[i])@.len() > 0
            },
            None => pretokens(text@) is None,
        },
{
    find_all(PRETOKEN_PATTERN, text)
}

} // verus!
