//! Case folding: the form of a text that is compared when case is ignored.

use vstd::prelude::*;

verus! {

/// The lowercase form of a text as `str::to_lowercase` computes it: the
/// Unicode lowercase mapping, which depends on the text alone and not on a
/// locale. One character may fold to several.
pub uninterp spec fn lowercase_of(text: Seq<char>) -> Seq<char>;

/// Calls `str::to_lowercase`. Nothing is proved of the call; its result is
/// given the name `lowercase_of`.
#[verifier::external_body]
fn lowercase(s: &str) -> (out: String)
    ensures
        out@ == lowercase_of(s@),
{
    s.to_lowercase()
}

/// The folding rule of this crate: the empty text folds to itself, any other
/// text to its lowercase form.
pub open spec fn folded(text: Seq<char>) -> Seq<char> {
    if text.len() == 0 {
        text
    } else {
        lowercase_of(text)
    }
}

/// The text that is compared in place of `text`: its folded form when case is
/// ignored, else `text` itself.
pub open spec fn compared(text: Seq<char>, ignore_case: bool) -> Seq<char> {
    if ignore_case {
        folded(text)
    } else {
        text
    }
}

/// Folds `s` for a comparison that ignores case.
pub fn fold(s: &str) -> (out: String)
    ensures
        out@ == folded(s@),
{
    if s.is_empty() {
        String::new()
    } else {
        lowercase(s)
    }
}

} // verus!
