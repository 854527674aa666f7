//! Small helpers on texts, counted in characters.

use vstd::prelude::*;
use vstd::string::*;

verus! {

/// The first `limit` items of `s`, or all of it where it is shorter.
pub open spec fn clipped<A>(s: Seq<A>, limit: int) -> Seq<A> {
    if limit <= 0 {
        Seq::empty()
    } else if limit < s.len() {
        s.take(limit)
    } else {
        s
    }
}

/// Clipping takes a part from the front and never makes longer.
pub proof fn lemma_clipped<A>(s: Seq<A>, limit: int)
    ensures
        clipped(s, limit).len() <= s.len(),
        limit >= 0 ==> clipped(s, limit).len() <= limit,
        clipped(s, limit) + s.skip(clipped(s, limit).len() as int) == s,
{
    assert(clipped(s, limit) + s.skip(clipped(s, limit).len() as int) =~= s);
}

/// Whether two texts hold the same characters.
pub fn same_text(a: &str, b: &str) -> (same: bool)
    ensures
        same == (a@ == b@),
{
    let left = String::from_str(a);
    let right = String::from_str(b);
    left == right
}

/// The first `limit` characters of `text`.
pub fn clip_text(text: &str, limit: usize) -> (head: String)
    ensures
        head@ == clipped(text@, limit as int),
{
    let len = text.unicode_len();
    if limit < len {
        String::from_str(text.substring_char(0, limit))
    } else {
        String::from_str(text)
    }
}

} // verus!
