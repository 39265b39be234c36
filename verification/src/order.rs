//! Ordering completions by weight for the saved listing.

use crate::completion::Completion;
use itertools::Itertools;
use std::cmp::Ordering;
use vstd::prelude::*;

verus! {

/// Orders two completions by weight, the heavier first.
pub fn heavier_first(a: &Completion, b: &Completion) -> (o: Ordering)
    ensures
        (o == Ordering::Less) == (*a.count > *b.count),
        (o == Ordering::Equal) == (*a.count == *b.count),
        (o == Ordering::Greater) == (*a.count < *b.count),
{
    if *a.count > *b.count {
        Ordering::Less
    } else if *a.count == *b.count {
        Ordering::Equal
    } else {
        Ordering::Greater
    }
}

/// No lighter completion stands before a heavier one.
pub open spec fn heaviest_come_first(s: Seq<Completion>) -> bool {
    forall|i: int, j: int| 0 <= i < j < s.len() ==> *s[i].count >= *s[j].count
}

/// Calls `Itertools::sorted_by` with `heavier_first`. Trusted: the result
/// holds the same completions, each as often as before, no lighter one
/// before a heavier one; and, the sort being stable, a list that is in that
/// order already comes back as it is.
#[verifier::external_body]
pub(crate) fn sort_heavier_first<'a>(found: Vec<Completion<'a>>) -> (sorted: Vec<Completion<'a>>)
    ensures
        sorted@.to_multiset() == found@.to_multiset(),
        heaviest_come_first(sorted@),
        heaviest_come_first(found@) ==> sorted@ == found@,
{
    found.into_iter().sorted_by(|a, b| heavier_first(a, b)).collect()
}

/// The same completions, the heavier first. Equally heavy ones keep the
/// order they came in: a list that is in order already is returned as it is.
pub fn heaviest_first<'a>(found: Vec<Completion<'a>>) -> (sorted: Vec<Completion<'a>>)
    ensures
        sorted@.to_multiset() == found@.to_multiset(),
        sorted@.len() == found@.len(),
        heaviest_come_first(sorted@),
        heaviest_come_first(found@) ==> sorted@ == found@,
{
    let sorted = sort_heavier_first(found);
    proof {
        vstd::seq_lib::to_multiset_len(sorted@);
        vstd::seq_lib::to_multiset_len(found@);
    }
    sorted
}

} // verus!
