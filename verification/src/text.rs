//! What the library asks of `str` and `String` beyond what vstd specifies.

use vstd::prelude::*;

verus! {

/// `String::push` appends one character to the end of the string.
pub assume_specification[ String::push ](s: &mut String, ch: char)
    ensures
        final(s)@ == old(s)@.push(ch),
;

/// Whether `needle` occurs in `hay` as a run of consecutive characters.
pub open spec fn occurs_in(needle: Seq<char>, hay: Seq<char>) -> bool {
    exists|i: int|
        0 <= i && i + needle.len() <= hay.len() && #[trigger] hay.subrange(
            i,
            i + needle.len(),
        ) == needle
}

/// `str::contains` with a string as its pattern: whether the pattern matches
/// a sub-slice of the string, which for two strings is to occur in it.
#[verifier::external_body]
pub(crate) fn contains(hay: &str, needle: &str) -> (found: bool)
    ensures
        found == occurs_in(needle@, hay@),
{
    hay.contains(needle)
}

/// Whether two strings hold the same text.
pub fn same_text(a: &str, b: &str) -> (same: bool)
    ensures
        same == (a@ == b@),
{
    a.to_owned() == b.to_owned()
}

/// What `str::parse::<i32>` makes of a text: the number that it writes, or
/// the reason why it writes none, in words.
pub uninterp spec fn number_of(text: Seq<char>) -> Result<i32, Seq<char>>;

/// `str::parse::<i32>`, with the error turned into its message. The result
/// depends on the text alone.
#[verifier::external_body]
pub(crate) fn parse_number(text: &str) -> (out: Result<i32, String>)
    ensures
        match out {
            Ok(n) => number_of(text@) == Ok::<i32, Seq<char>>(n),
            Err(e) => number_of(text@) == Err::<i32, Seq<char>>(e@),
        },
{
    match text.parse::<i32>() {
        Ok(n) => Ok(n),
        Err(error) => Err(format!("{error}")),
    }
}

} // verus!
