//! Word wrapping of prose, done by the `textwrap` crate.

use vstd::prelude::*;

verus! {

/// What `textwrap::fill` returns for `text` and `width`.
pub uninterp spec fn spec_fill(text: Seq<char>, width: usize) -> Seq<char>;

/// `textwrap::fill(text, width)`: `text` wrapped to `width` columns with
/// textwrap's default options, the lines joined by newlines (the characters
/// are passed as a `String` and the result read back as characters). The
/// contract claims only that the result is determined by the two arguments;
/// how the words are laid out is left unsaid.
#[verifier::external_body]
pub(crate) fn fill(text: &[char], width: usize) -> (r: Vec<char>)
    ensures
        r@ == spec_fill(text@, width),
{
    let s: String = text.iter().collect();
    textwrap::fill(&s, width).chars().collect()
}

} // verus!
