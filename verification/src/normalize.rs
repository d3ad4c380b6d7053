//! Unicode normalization of names.

use vstd::prelude::*;
use unicode_normalization::UnicodeNormalization;

verus! {

/// The Unicode Normalization Form KC of a string: compatibility
/// decomposition followed by canonical composition.
pub uninterp spec fn nfkc(s: Seq<char>) -> Seq<char>;

/// unicode-normalization's `nfkc` on a string slice, collected into a
/// string: the characters of `s` in Normalization Form KC.
#[verifier::external_body]
pub(crate) fn normalize(s: &str) -> (normalized: String)
    ensures
        normalized@ == nfkc(s@),
{
    s.nfkc().collect()
}

} // verus!
