//! Working with the reserved zero-width characters in arbitrary text.

use vstd::prelude::*;
use crate::symbols::{is_reserved, BIT_ONE, BIT_ZERO, END_MARKER, START_MARKER};
use crate::text::chars_of;

verus! {

/// The text as a reader sees it: every reserved character removed.
pub open spec fn visible(s: Seq<char>) -> Seq<char> {
    s.filter(|c: char| !is_reserved(c))
}

/// Checks whether a character is one of the four reserved zero-width characters.
pub fn is_zero_width_char(c: char) -> (r: bool)
    ensures
        r == is_reserved(c),
{
    c == BIT_ZERO || c == BIT_ONE || c == START_MARKER || c == END_MARKER
}

/// Removes every reserved zero-width character, keeping the visible content.
pub fn strip_hidden(text: &str) -> (r: String)
    ensures
        r@ == visible(text@),
{
    let chars = chars_of(text);
    let mut r = String::new();
    let mut i: usize = 0;
    while i < chars.len()
        invariant
            chars@ == text@,
            i <= chars.len(),
            r@ == visible(chars@.take(i as int)),
        decreases chars.len() - i,
    {
        let c = chars[i];
        proof {
            chars@.take(i as int).lemma_filter_push(c, |c: char| !is_reserved(c));
            assert(chars@.take(i + 1) == chars@.take(i as int).push(c));
        }
        if !is_zero_width_char(c) {
            r.push(c);
        }
        i = i + 1;
    }
    assert(chars@.take(chars.len() as int) == chars@);
    r
}

} // verus!
