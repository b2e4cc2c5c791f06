//! Lowercase folding, as the standard library does it.

use vstd::prelude::*;

verus! {

/// The lowercase form of `text`: what `str::to_lowercase` returns for it.
pub uninterp spec fn lowercase_of(text: Seq<char>) -> Seq<char>;

/// `str::to_lowercase` maps a text to its lowercase form by the Unicode tables
/// of the standard library. Nothing here proves or restates those tables: the
/// contract only gives the result its name, so that equal texts fold to equal
/// texts and nothing else is known of the folded text.
pub assume_specification[ str::to_lowercase ](text: &str) -> (folded: String)
    ensures
        folded@ == lowercase_of(text@),
;

} // verus!
