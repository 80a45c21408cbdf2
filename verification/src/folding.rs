//! Case folding: the lowercase form under which texts are compared when
//! case is to be ignored.

use vstd::prelude::*;

verus! {

/// The lowercase form of `text`. The mapping is that of the Unicode
/// standard; it does not depend on a locale, and it may change the number of
/// characters. Nothing in this crate defines it: it stands for what
/// `str::to_lowercase` returns.
pub uninterp spec fn lowercase(text: Seq<char>) -> Seq<char>;

/// Calls `str::to_lowercase` of the standard library.
///
/// Taken on trust: the returned string is the lowercase form of `text`,
/// which is what gives `lowercase` its meaning, and the lowercase form of
/// the empty text is empty.
#[verifier::external_body]
pub(crate) fn to_lowercase(text: &str) -> (folded: String)
    ensures
        folded@ == lowercase(text@),
        text@.len() == 0 ==> folded@.len() == 0,
{
    text.to_lowercase()
}

} // verus!
