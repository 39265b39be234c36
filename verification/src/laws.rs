//! What holds of insertions and lookups taken together.

use crate::completion::{
    covered, entry, lemma_rank_before_transitive, lemma_rank_is_strict, listed, rank_before,
    Completion,
};
use crate::text::is_prefix;
use crate::trie::{accumulated, PruningRadixTrie};
use vstd::prelude::*;

verus! {

/// After a term is inserted, an unbounded lookup of that term lists it once:
/// with the inserted weight where it was not stored before, and with the
/// saturating sum of the inserted weight and what was stored where it was.
pub proof fn law_inserted_term_is_listed(
    before: PruningRadixTrie,
    after: PruningRadixTrie,
    term: Seq<char>,
    weight: usize,
    results: Seq<Completion>,
)
    requires
        after.is_insertion_into(before, term, weight),
        after.is_lookup(term, None, results),
    ensures
        listed(results, term, accumulated(before.stored(term), weight)),
        forall|i: int|
            0 <= i < results.len() && entry(#[trigger] results[i]).0 == term ==> entry(results[i]).1
                == accumulated(before.stored(term), weight),
        forall|i: int, j: int|
            0 <= i < j < results.len() ==> entry(results[i]).0 != term || entry(results[j]).0 != term,
{
    let total = accumulated(before.stored(term), weight);
    assert(term.subrange(0, term.len() as int) =~= term);
    assert(after.holds(term, total));
    assert(covered(results, None, term, total));
    assert forall|i: int| 0 <= i < results.len() && entry(#[trigger] results[i]).0 == term implies entry(
        results[i],
    ).1 == total by {
        assert(after.holds(entry(results[i]).0, entry(results[i]).1));
    }
    assert forall|i: int, j: int| 0 <= i < j < results.len() implies entry(results[i]).0 != term
        || entry(results[j]).0 != term by {
        if entry(results[i]).0 == term && entry(results[j]).0 == term {
            assert(entry(results[i]).1 == total);
            assert(entry(results[j]).1 == total);
            assert(rank_before(entry(results[i]), entry(results[j])));
            assert(entry(results[i]) == entry(results[j]));
            lemma_rank_is_strict(entry(results[i]));
        }
    }
}

/// An insertion leaves every other term as it was: what was stored for a
/// different term before is stored after, and nothing else is.
pub proof fn law_insertion_keeps_other_terms(
    before: PruningRadixTrie,
    after: PruningRadixTrie,
    term: Seq<char>,
    weight: usize,
    other: Seq<char>,
    w: usize,
)
    requires
        after.is_insertion_into(before, term, weight),
        other != term,
    ensures
        after.holds(other, w) <==> before.holds(other, w),
{
}

/// Every completion that a lookup returns begins with the prefix and is a
/// stored term with its weight; and a stored term that begins with the
/// prefix and is not returned is no heavier than any completion returned,
/// which then are as many as the limit allows.
pub proof fn law_lookup_is_sound(
    trie: PruningRadixTrie,
    prefix: Seq<char>,
    top_k: Option<usize>,
    results: Seq<Completion>,
    term: Seq<char>,
    weight: usize,
)
    requires
        trie.is_lookup(prefix, top_k, results),
        trie.holds(term, weight),
        is_prefix(prefix, term),
        !listed(results, term, weight),
    ensures
        forall|i: int|
            0 <= i < results.len() ==> is_prefix(prefix, entry(#[trigger] results[i]).0) && trie.holds(
                entry(results[i]).0,
                entry(results[i]).1,
            ),
        top_k == Some(results.len() as usize),
        forall|i: int| 0 <= i < results.len() ==> entry(#[trigger] results[i]).1 >= weight,
{
    assert(covered(results, top_k, term, weight));
}

/// A lookup returns no more completions than the limit; and without a
/// limit, or where it returns fewer than the limit, it returns every stored
/// term that begins with the prefix.
pub proof fn law_lookup_is_complete(
    trie: PruningRadixTrie,
    prefix: Seq<char>,
    top_k: Option<usize>,
    results: Seq<Completion>,
    term: Seq<char>,
    weight: usize,
)
    requires
        trie.is_lookup(prefix, top_k, results),
        trie.holds(term, weight),
        is_prefix(prefix, term),
    ensures
        top_k.is_some() ==> results.len() <= top_k.unwrap(),
        top_k.is_none() || results.len() < top_k.unwrap() ==> listed(results, term, weight),
{
    assert(covered(results, top_k, term, weight));
}

/// The number of terms counts each distinct term once: an insertion adds
/// one to it where the term was not stored, and nothing where it was,
/// however often the term is inserted.
pub proof fn law_count_follows_insertions(
    before: PruningRadixTrie,
    after: PruningRadixTrie,
    term: Seq<char>,
    weight: usize,
)
    requires
        after.is_insertion_into(before, term, weight),
    ensures
        before.has_term(term) ==> after.count() == before.count(),
        !before.has_term(term) ==> after.count() == before.count() + 1,
        after.has_term(term),
{
    assert(after.holds(term, accumulated(before.stored(term), weight)));
}

/// Where the stored terms that begin with the prefix are no more than the
/// limit, a lookup returns every one of them. `matches` is any list that
/// holds all of those terms; its length bounds their number.
pub proof fn law_lookup_returns_all_that_fit(
    trie: PruningRadixTrie,
    prefix: Seq<char>,
    top_k: Option<usize>,
    results: Seq<Completion>,
    matches: Seq<(Seq<char>, usize)>,
    term: Seq<char>,
    weight: usize,
)
    requires
        trie.is_lookup(prefix, top_k, results),
        forall|t: Seq<char>, w: usize|
            trie.holds(t, w) && is_prefix(prefix, t) ==> exists|i: int|
                0 <= i < matches.len() && #[trigger] matches[i] == (t, w),
        top_k.is_some() ==> matches.len() <= top_k.unwrap(),
        trie.holds(term, weight),
        is_prefix(prefix, term),
    ensures
        listed(results, term, weight),
{
    assert(covered(results, top_k, term, weight));
    if !listed(results, term, weight) {
        let k = results.len() as int;
        let e = (term, weight);
        let item = |i: int|
            if i < k {
                entry(results[i])
            } else {
                e
            };
        let place = |i: int| choose|j: int| 0 <= j < matches.len() && matches[j] == item(i);
        let given = vstd::set_lib::set_int_range(0, k + 1);
        let places = vstd::set_lib::set_int_range(0, matches.len() as int);
        vstd::set_lib::lemma_int_range(0, k + 1);
        vstd::set_lib::lemma_int_range(0, matches.len() as int);
        assert forall|i: int| 0 <= i <= k implies 0 <= #[trigger] place(i) < matches.len()
            && matches[place(i)] == item(i) by {
            if i < k {
                assert(trie.holds(entry(results[i]).0, entry(results[i]).1));
                assert(is_prefix(prefix, entry(results[i]).0));
            }
            let it = item(i);
            assert(trie.holds(it.0, it.1) && is_prefix(prefix, it.0));
            let j = choose|j: int| 0 <= j < matches.len() && #[trigger] matches[j] == (it.0, it.1);
            assert(matches[j] == item(i));
        }
        assert(vstd::relations::injective_on(place, given)) by {
            assert forall|a: int, b: int|
                given.contains(a) && given.contains(b) && #[trigger] place(a) == #[trigger] place(
                    b,
                ) implies a == b by {
                assert(item(a) == item(b));
                if a < b {
                    if b < k {
                        assert(rank_before(entry(results[a]), entry(results[b])));
                    } else {
                        assert(rank_before(entry(results[a]), e));
                    }
                    lemma_rank_is_strict(item(a));
                } else if b < a {
                    if a < k {
                        assert(rank_before(entry(results[b]), entry(results[a])));
                    } else {
                        assert(rank_before(entry(results[b]), e));
                    }
                    lemma_rank_is_strict(item(b));
                }
            }
        }
        let image = given.map(place);
        vstd::set_lib::lemma_map_size(given, image, place);
        assert(image.subset_of(places)) by {
            assert forall|j: int| image.contains(j) implies places.contains(j) by {
                let i = choose|i: int| given.contains(i) && j == place(i);
                assert(0 <= place(i) < matches.len());
            }
        }
        vstd::set_lib::lemma_len_subset(image, places);
    }
}

/// Two lists that a lookup of one prefix under one limit may return agree on
/// their first `n` entries.
proof fn lemma_lookups_agree_upto(
    trie: PruningRadixTrie,
    prefix: Seq<char>,
    top_k: Option<usize>,
    r1: Seq<Completion>,
    r2: Seq<Completion>,
    n: int,
)
    requires
        trie.is_lookup(prefix, top_k, r1),
        trie.is_lookup(prefix, top_k, r2),
        0 <= n <= r1.len(),
        n <= r2.len(),
    ensures
        forall|j: int| 0 <= j < n ==> entry(#[trigger] r1[j]) == entry(r2[j]),
    decreases n,
{
    if n > 0 {
        lemma_lookups_agree_upto(trie, prefix, top_k, r1, r2, n - 1);
        let at = n - 1;
        let a = entry(r1[at]);
        let b = entry(r2[at]);
        if a != b {
            assert(trie.holds(entry(r1[at]).0, entry(r1[at]).1));
            assert(trie.holds(entry(r2[at]).0, entry(r2[at]).1));
            assert(covered(r2, top_k, a.0, a.1));
            assert(covered(r1, top_k, b.0, b.1));
            assert(rank_before(b, a)) by {
                if listed(r2, a.0, a.1) {
                    let j = choose|j: int| 0 <= j < r2.len() && entry(#[trigger] r2[j]) == a;
                    if j < at {
                        assert(entry(r1[j]) == entry(r2[j]));
                        assert(rank_before(entry(r1[j]), entry(r1[at])));
                        lemma_rank_is_strict(a);
                    } else {
                        assert(rank_before(entry(r2[at]), entry(r2[j])));
                    }
                } else {
                    assert(rank_before(entry(r2[at]), a));
                }
            }
            assert(rank_before(a, b)) by {
                if listed(r1, b.0, b.1) {
                    let j = choose|j: int| 0 <= j < r1.len() && entry(#[trigger] r1[j]) == b;
                    if j < at {
                        assert(entry(r1[j]) == entry(r2[j]));
                        assert(rank_before(entry(r2[j]), entry(r2[at])));
                        lemma_rank_is_strict(b);
                    } else {
                        assert(rank_before(entry(r1[at]), entry(r1[j])));
                    }
                } else {
                    assert(rank_before(entry(r1[at]), b));
                }
            }
            lemma_rank_before_transitive(a, b, a);
            lemma_rank_is_strict(a);
        }
    }
}

/// Of two lists that a lookup of one prefix under one limit may return, the
/// first is no longer than the second.
proof fn lemma_lookup_no_longer(
    trie: PruningRadixTrie,
    prefix: Seq<char>,
    top_k: Option<usize>,
    r1: Seq<Completion>,
    r2: Seq<Completion>,
)
    requires
        trie.is_lookup(prefix, top_k, r1),
        trie.is_lookup(prefix, top_k, r2),
    ensures
        r2.len() <= r1.len(),
{
    if r1.len() < r2.len() {
        let n = r1.len() as int;
        lemma_lookups_agree_upto(trie, prefix, top_k, r1, r2, n);
        let e = entry(r2[n]);
        assert(trie.holds(entry(r2[n]).0, entry(r2[n]).1));
        assert(covered(r1, top_k, e.0, e.1));
        if listed(r1, e.0, e.1) {
            let j = choose|j: int| 0 <= j < r1.len() && entry(#[trigger] r1[j]) == e;
            assert(entry(r1[j]) == entry(r2[j]));
            assert(rank_before(entry(r2[j]), entry(r2[n])));
            lemma_rank_is_strict(e);
        }
    }
}

/// A lookup is determined by the stored terms, the prefix and the limit: two
/// lists that it may return hold the same terms with the same weights in the
/// same order.
pub proof fn law_lookup_is_determined(
    trie: PruningRadixTrie,
    prefix: Seq<char>,
    top_k: Option<usize>,
    r1: Seq<Completion>,
    r2: Seq<Completion>,
)
    requires
        trie.is_lookup(prefix, top_k, r1),
        trie.is_lookup(prefix, top_k, r2),
    ensures
        r1.len() == r2.len(),
        forall|i: int| 0 <= i < r1.len() ==> entry(#[trigger] r1[i]) == entry(r2[i]),
{
    lemma_lookup_no_longer(trie, prefix, top_k, r1, r2);
    lemma_lookup_no_longer(trie, prefix, top_k, r2, r1);
    lemma_lookups_agree_upto(trie, prefix, top_k, r1, r2, r1.len() as int);
}

/// After the first `n` entries of a listing without repeated terms were
/// inserted one by one into a trie that stored nothing, exactly those
/// entries are stored.
proof fn lemma_inserted_entries(
    states: Seq<PruningRadixTrie>,
    listing: Seq<(Seq<char>, usize)>,
    n: int,
)
    requires
        0 <= n <= listing.len(),
        states.len() == listing.len() + 1,
        forall|t: Seq<char>, w: usize| !states[0].holds(t, w),
        forall|i: int, j: int| 0 <= i < j < listing.len() ==> listing[i].0 != listing[j].0,
        forall|j: int|
            0 < j <= listing.len() ==> (#[trigger] states[j]).is_insertion_into(
                states[j - 1],
                listing[j - 1].0,
                listing[j - 1].1,
            ),
    ensures
        forall|t: Seq<char>, w: usize| #[trigger]
            states[n].holds(t, w) <==> exists|i: int| 0 <= i < n && listing[i] == (t, w),
        states[n].count() == states[0].count() + n,
    decreases n,
{
    if n > 0 {
        lemma_inserted_entries(states, listing, n - 1);
        let before = states[n - 1];
        let term = listing[n - 1].0;
        let weight = listing[n - 1].1;
        assert(states[n].is_insertion_into(before, term, weight));
        if before.has_term(term) {
            let w0 = choose|w: usize| before.holds(term, w);
            assert(before.holds(term, w0));
            let i = choose|i: int| 0 <= i < n - 1 && listing[i] == (term, w0);
            assert(listing[i].0 == listing[n - 1].0);
        }
        assert(before.stored(term).is_none());
        assert forall|t: Seq<char>, w: usize| #[trigger]
            states[n].holds(t, w) <==> exists|i: int| 0 <= i < n && listing[i] == (t, w) by {
            if states[n].holds(t, w) {
                if t == term {
                    assert(listing[n - 1] == (t, w));
                } else {
                    assert(before.holds(t, w));
                    let i = choose|i: int| 0 <= i < n - 1 && listing[i] == (t, w);
                    assert(listing[i] == (t, w));
                }
            }
            if exists|i: int| 0 <= i < n && listing[i] == (t, w) {
                let i = choose|i: int| 0 <= i < n && listing[i] == (t, w);
                if i < n - 1 {
                    assert(before.holds(t, w));
                    assert(listing[i].0 != listing[n - 1].0);
                }
            }
        }
    }
}

/// Round trip: a trie that stored nothing, into which the entries of a
/// listing of another trie are inserted one by one in any of its orders,
/// then stores the same terms with the same weights as that trie, and
/// counts as many.
pub proof fn law_listing_rebuilds_the_trie(
    trie: PruningRadixTrie,
    listing: Seq<(Seq<char>, usize)>,
    states: Seq<PruningRadixTrie>,
)
    requires
        trie.wf(),
        trie.is_listing(listing),
        states.len() == listing.len() + 1,
        states[0].count() == 0,
        forall|t: Seq<char>, w: usize| !states[0].holds(t, w),
        forall|j: int|
            0 < j <= listing.len() ==> (#[trigger] states[j]).is_insertion_into(
                states[j - 1],
                listing[j - 1].0,
                listing[j - 1].1,
            ),
    ensures
        forall|t: Seq<char>, w: usize|
            states[listing.len() as int].holds(t, w) <==> trie.holds(t, w),
        states[listing.len() as int].count() == trie.count(),
{
    let n = listing.len() as int;
    lemma_inserted_entries(states, listing, n);
    trie.lemma_count_is_number_of_terms(listing);
    assert forall|t: Seq<char>, w: usize| states[n].holds(t, w) <==> trie.holds(t, w) by {
        if states[n].holds(t, w) {
            let i = choose|i: int| 0 <= i < n && listing[i] == (t, w);
            assert(trie.holds(listing[i].0, listing[i].1));
        }
        if trie.holds(t, w) {
            let i = choose|i: int| 0 <= i < listing.len() && #[trigger] listing[i] == (t, w);
            assert(listing[i] == (t, w));
        }
    }
}

/// The bound cached at the root is the heaviest stored weight: after every
/// insertion as before it, no stored term is heavier and, where anything is
/// stored, one term is that heavy.
pub proof fn law_top_weight_is_heaviest(trie: PruningRadixTrie, term: Seq<char>, weight: usize)
    requires
        trie.wf(),
        trie.holds(term, weight),
    ensures
        weight <= trie.top_weight(),
        exists|t: Seq<char>| #[trigger] trie.holds(t, trie.top_weight()),
{
    trie.lemma_top_weight();
}

} // verus!
