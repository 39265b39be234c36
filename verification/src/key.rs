//! The string type that edge labels and returned terms are stored in.

use compact_str::CompactString;
use vstd::prelude::*;

verus! {

#[verifier::external_type_specification]
#[verifier::external_body]
pub struct ExCompactString(CompactString);

/// The characters that a `CompactString` holds, in order.
pub uninterp spec fn key_chars(k: CompactString) -> Seq<char>;

/// Calls `CompactString::new`. Trusted: the new string holds exactly the
/// characters of `s`.
#[verifier::external_body]
pub(crate) fn key_new(s: &str) -> (k: CompactString)
    ensures
        key_chars(k) == s@,
{
    CompactString::new(s)
}

/// Calls `CompactString::as_str`. Trusted: the slice holds exactly the
/// characters of `k`.
#[verifier::external_body]
pub(crate) fn key_as_str(k: &CompactString) -> (s: &str)
    ensures
        s@ == key_chars(*k),
{
    k.as_str()
}

/// `CompactString::clone`. Trusted: the copy holds the same characters.
pub assume_specification[ <CompactString as Clone>::clone ](k: &CompactString) -> (r: CompactString)
    ensures
        key_chars(r) == key_chars(*k),
;

} // verus!
