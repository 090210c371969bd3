//! Case folding for the case-insensitive search.

use vstd::prelude::*;

verus! {

/// The lowercase form of a text, as `str::to_lowercase` computes it.
pub uninterp spec fn lowercase(text: Seq<char>) -> Seq<char>;

/// `str::to_lowercase` returns a new `String` that holds the lowercase form
/// of the slice. That form depends on the characters of the slice and on
/// nothing else, so it has a name, `lowercase`. Nothing else is claimed of
/// it: neither its length, nor how it treats any single character.
pub assume_specification[ str::to_lowercase ](text: &str) -> (folded: String)
    ensures
        folded@ == lowercase(text@),
;

} // verus!
