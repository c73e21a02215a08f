//! Moving between `str` and sequences of characters.
use vstd::prelude::*;

verus! {

/// Relies on `Iterator::collect` over `str::chars`: the characters of `s`, in order.
#[verifier::external_body]
pub(crate) fn chars_of(s: &str) -> (r: Vec<char>)
    ensures
        r@ == s@,
{
    s.chars().collect()
}

/// Relies on `String`'s `FromIterator<&char>`: a string of exactly these characters.
#[verifier::external_body]
pub(crate) fn string_of(cs: &[char]) -> (r: String)
    ensures
        r@ == cs@,
{
    cs.iter().collect()
}

/// Relies on `format!`: the message, followed by the line it refers to.
#[verifier::external_body]
pub(crate) fn at_line(msg: &str, line: usize) -> (r: String)
    ensures
        r@.len() >= msg@.len(),
        r@.subrange(0, msg@.len() as int) == msg@,
{
    format!("{} on line {}", msg, line)
}

/// Relies on `format!`: a message that gives the number of values and of
/// tags of a loop, followed by the line it refers to.
#[verifier::external_body]
pub(crate) fn loop_count_message(values: usize, tags: usize, line: usize) -> (r: String)
    ensures
        r@.len() > 0,
{
    format!("loop has {} values for {} tags on line {}", values, tags, line)
}

/// Relies on `format!`: the message, the token's text, and the line.
#[verifier::external_body]
pub(crate) fn token_message(msg: &str, token: &str, line: usize) -> (r: String)
    ensures
        r@.len() >= msg@.len(),
        r@.subrange(0, msg@.len() as int) == msg@,
{
    format!("{} '{}' on line {}", msg, token, line)
}

/// Whether two strings hold the same characters.
pub fn same_text(a: &str, b: &String) -> (r: bool)
    ensures
        r == (a@ == b@),
{
    let owned = a.to_owned();
    owned == *b
}

} // verus!
