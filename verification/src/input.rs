//! The moves that the players type: two digits on a line, found by a regular
//! expression.

use vstd::prelude::*;
use vstd::string::StrSliceExecFns;

verus! {

/// The pattern of a move on a line of input: a digit from 1 to 9, any run of
/// separators (which may hold digits), and a last digit from 1 to 9.
pub const MOVE_PATTERN: &'static str = "([1-9])[ ,-:_|]*([1-9])";

/// What the first and the second group of `pattern` capture in its first
/// match in `text`, as the `regex` crate finds it; nothing where `pattern` is
/// no regular expression, where it does not match, or where one of the two
/// groups takes no part in the match.
pub uninterp spec fn first_groups(pattern: Seq<char>, text: Seq<char>) -> Option<
    (Seq<char>, Seq<char>),
>;

/// `Regex::new` and `Regex::captures`, with `Captures::get` for the groups 1
/// and 2: the text of the two groups in the first match of `pattern` in
/// `text`. The contract only names that result.
#[verifier::external_body]
pub(crate) fn capture_two(pattern: &str, text: &str) -> (r: Option<(String, String)>)
    ensures
        r matches Some(g) ==> first_groups(pattern@, text@) == Some((g.0@, g.1@)),
        r is None ==> first_groups(pattern@, text@) is None,
{
    let re = regex::Regex::new(pattern).ok()?;
    let found = re.captures(text)?;
    Some((found.get(1)?.as_str().to_owned(), found.get(2)?.as_str().to_owned()))
}

/// The number that a text of one digit from 1 to 9 stands for; none for any
/// other text.
pub open spec fn digit_value(s: Seq<char>) -> Option<u8> {
    if s.len() == 1 && '1' <= s[0] && s[0] <= '9' {
        Some((s[0] as u8 - '0' as u8) as u8)
    } else {
        None
    }
}

/// The two numbers that two captured groups stand for; none unless each of
/// them is one digit from 1 to 9.
pub open spec fn pair_of(groups: Option<(Seq<char>, Seq<char>)>) -> Option<(u8, u8)> {
    match groups {
        Some((a, b)) => match (digit_value(a), digit_value(b)) {
            (Some(x), Some(y)) => Some((x, y)),
            _ => None,
        },
        None => None,
    }
}

/// The views of two captured groups.
pub open spec fn group_views(groups: Option<(String, String)>) -> Option<(Seq<char>, Seq<char>)> {
    match groups {
        Some((a, b)) => Some((a@, b@)),
        None => None,
    }
}

/// The number that a text of one digit from 1 to 9 stands for.
pub fn digit_of(s: &str) -> (r: Option<u8>)
    ensures
        r == digit_value(s@),
{
    if s.unicode_len() != 1 {
        return None;
    }
    let c = s.get_char(0);
    if '1' <= c && c <= '9' {
        Some(c as u8 - '0' as u8)
    } else {
        None
    }
}

/// The two numbers that two captured groups stand for.
pub fn pair_from_groups(groups: Option<(String, String)>) -> (r: Option<(u8, u8)>)
    ensures
        r == pair_of(group_views(groups)),
{
    match groups {
        Some((a, b)) => {
            match (digit_of(a.as_str()), digit_of(b.as_str())) {
                (Some(x), Some(y)) => Some((x, y)),
                _ => None,
            }
        },
        None => None,
    }
}

/// The two numbers of the first move that a line of input holds.
pub fn two_num_from_input(input: &str) -> (r: Option<(u8, u8)>)
    ensures
        r == pair_of(first_groups(MOVE_PATTERN@, input@)),
{
    pair_from_groups(capture_two(MOVE_PATTERN, input))
}

} // verus!
