//! A suggested completion.

use crate::key::{key_as_str, key_chars};
use crate::text::{compare_text, lemma_lex_less_transitive, lex_less};
use compact_str::CompactString;
use vstd::prelude::*;

verus! {

/// Suggested completion for a given prefix.
#[derive(Debug, Clone)]
pub struct Completion<'a> {
    /// The completed term.
    pub term: CompactString,
    /// The total weight stored for the term.
    pub count: &'a usize,
}

impl<'a> Completion<'a> {
    /// Creates a completion from its term and weight.
    pub fn new(term: CompactString, count: &'a usize) -> (c: Self)
        ensures
            c.term == term,
            c.count == count,
    {
        Self { term, count }
    }
}

/// A completion as plain values: its term and its weight.
pub open spec fn entry(c: Completion) -> (Seq<char>, usize) {
    (key_chars(c.term), *c.count)
}

/// `a` is listed before `b`: the heavier first, and of two equally heavy the
/// one whose term comes first.
pub open spec fn rank_before(a: (Seq<char>, usize), b: (Seq<char>, usize)) -> bool {
    a.1 > b.1 || (a.1 == b.1 && lex_less(a.0, b.0))
}

/// The completions are in listing order, none twice.
pub open spec fn ranked(s: Seq<Completion>) -> bool {
    forall|i: int, j: int| 0 <= i < j < s.len() ==> rank_before(entry(s[i]), entry(s[j]))
}

/// The list respects the limit, where there is one.
pub open spec fn within(s: Seq<Completion>, limit: Option<usize>) -> bool {
    match limit {
        Some(k) => s.len() <= k,
        None => true,
    }
}

/// `pos` is where `e` belongs in the ranked list `s`: behind everything
/// that is listed before it, and at or before everything else.
pub open spec fn is_position(s: Seq<Completion>, e: (Seq<char>, usize), pos: int) -> bool {
    &&& 0 <= pos <= s.len()
    &&& forall|i: int| 0 <= i < pos ==> rank_before(entry(s[i]), e)
    &&& (pos < s.len() ==> entry(s[pos]) == e || rank_before(e, entry(s[pos])))
}

/// The list after `c` was offered at position `pos` under `limit`: unchanged
/// where the same entry stands there already; else `c` is inserted and what
/// exceeds the limit falls off the end.
pub open spec fn offered<'a>(
    s: Seq<Completion<'a>>,
    limit: Option<usize>,
    c: Completion<'a>,
    pos: int,
) -> Seq<Completion<'a>> {
    if pos < s.len() && entry(s[pos]) == entry(c) {
        s
    } else {
        let grown = s.insert(pos, c);
        match limit {
            Some(k) => if grown.len() > k {
                grown.take(k as int)
            } else {
                grown
            },
            None => grown,
        }
    }
}

/// The list holds the entry `(term, weight)`.
pub open spec fn listed(s: Seq<Completion>, term: Seq<char>, weight: usize) -> bool {
    exists|i: int| 0 <= i < s.len() && entry(#[trigger] s[i]) == (term, weight)
}

/// The list accounts for the entry `(term, weight)`: it holds it, or it is
/// full and everything it holds is listed before that entry.
pub open spec fn covered(
    s: Seq<Completion>,
    limit: Option<usize>,
    term: Seq<char>,
    weight: usize,
) -> bool {
    listed(s, term, weight) || (limit == Some(s.len() as usize) && forall|i: int|
        0 <= i < s.len() ==> rank_before(entry(#[trigger] s[i]), (term, weight)))
}

/// A list accounts for a completion that was offered to it, and for
/// whatever it accounted for before.
pub proof fn lemma_offered_covers(s: Seq<Completion>, limit: Option<usize>, c: Completion, pos: int)
    requires
        ranked(s),
        within(s, limit),
        limit != Some(0usize),
        is_position(s, entry(c), pos),
    ensures
        covered(offered(s, limit, c, pos), limit, entry(c).0, entry(c).1),
        forall|t: Seq<char>, w: usize|
            covered(s, limit, t, w) ==> #[trigger] covered(offered(s, limit, c, pos), limit, t, w),
{
    let r = offered(s, limit, c, pos);
    let grown = s.insert(pos, c);
    s.insert_ensures(pos, c);
    let same = pos < s.len() && entry(s[pos]) == entry(c);
    let cut = !same && limit.is_some() && grown.len() > limit.unwrap();
    if same {
        assert(entry(r[pos]) == entry(c));
    } else if !cut {
        assert(entry(r[pos]) == entry(c));
    } else if pos < r.len() {
        assert(entry(r[pos]) == entry(c));
    } else {
        assert(r =~= s);
    }
    assert forall|t: Seq<char>, w: usize| covered(s, limit, t, w) implies #[trigger] covered(
        r,
        limit,
        t,
        w,
    ) by {
        if same {
        } else if listed(s, t, w) {
            let i = choose|i: int| 0 <= i < s.len() && entry(#[trigger] s[i]) == (t, w);
            let at = if i < pos {
                i
            } else {
                i + 1
            };
            assert(entry(grown[at]) == (t, w));
            if at < r.len() {
                assert(entry(r[at]) == (t, w));
            } else {
                assert(i == s.len() - 1);
                assert forall|j: int| 0 <= j < r.len() implies rank_before(
                    entry(#[trigger] r[j]),
                    (t, w),
                ) by {
                    if j < pos {
                        assert(r[j] == s[j]);
                    } else if j == pos {
                        assert(r[j] == c);
                        if pos < i {
                            lemma_rank_before_transitive(entry(c), entry(s[pos]), entry(s[i]));
                        }
                    } else {
                        assert(r[j] == s[j - 1]);
                    }
                }
            }
        } else {
            assert(cut);
            assert forall|j: int| 0 <= j < r.len() implies rank_before(
                entry(#[trigger] r[j]),
                (t, w),
            ) by {
                if j < pos {
                    assert(r[j] == s[j]);
                } else if j == pos {
                    assert(r[j] == c);
                    lemma_rank_before_transitive(entry(c), entry(s[pos]), (t, w));
                } else {
                    assert(r[j] == s[j - 1]);
                }
            }
        }
    }
}

/// No entry is listed before itself.
pub proof fn lemma_rank_is_strict(a: (Seq<char>, usize))
    ensures
        !rank_before(a, a),
{
    if lex_less(a.0, a.0) {
        let n = choose|n: int|
            crate::text::is_common_len(a.0, a.0, n) && n < a.0.len() && (n == a.0.len() || (
            a.0[n] as u32) < (a.0[n] as u32));
        assert(a.0[n] == a.0[n]);
    }
}

/// The listing order is transitive.
pub proof fn lemma_rank_before_transitive(
    a: (Seq<char>, usize),
    b: (Seq<char>, usize),
    c: (Seq<char>, usize),
)
    requires
        rank_before(a, b),
        rank_before(b, c),
    ensures
        rank_before(a, c),
{
    if a.1 == b.1 && b.1 == c.1 {
        lemma_lex_less_transitive(a.0, b.0, c.0);
    }
}

/// Whether `(a_term, a_count)` is listed before, with, or behind
/// `(b_term, b_count)`: negative, zero or positive.
pub fn compare_rank(a_term: &str, a_count: usize, b_term: &str, b_count: usize) -> (o: i8)
    ensures
        o < 0 <==> rank_before((a_term@, a_count), (b_term@, b_count)),
        o > 0 <==> rank_before((b_term@, b_count), (a_term@, a_count)),
        o == 0 <==> (a_term@, a_count) == (b_term@, b_count),
{
    if a_count > b_count {
        -1
    } else if a_count < b_count {
        1
    } else {
        compare_text(a_term, b_term)
    }
}

/// Offers `c` to a ranked list that keeps at most `limit` completions.
pub fn offer<'a>(results: &mut Vec<Completion<'a>>, limit: Option<usize>, c: Completion<'a>)
    requires
        ranked(old(results)@),
        within(old(results)@, limit),
    ensures
        ranked(final(results)@),
        within(final(results)@, limit),
        exists|pos: int|
            is_position(old(results)@, entry(c), pos) && final(results)@ == offered(
                old(results)@,
                limit,
                c,
                pos,
            ),
{
    let mut pos: usize = 0;
    while pos < results.len() && compare_rank(
        key_as_str(&results[pos].term),
        *results[pos].count,
        key_as_str(&c.term),
        *c.count,
    ) < 0
        invariant
            results@ == old(results)@,
            pos <= results@.len(),
            forall|i: int| 0 <= i < pos ==> rank_before(entry(results@[i]), entry(c)),
        decreases results@.len() - pos,
    {
        pos = pos + 1;
    }
    if pos < results.len() {
        let o = compare_rank(
            key_as_str(&results[pos].term),
            *results[pos].count,
            key_as_str(&c.term),
            *c.count,
        );
        assert(is_position(old(results)@, entry(c), pos as int));
        if o == 0 {
            return ;
        }
    }
    assert(is_position(old(results)@, entry(c), pos as int));
    proof {
        assert forall|j: int| pos <= j < results@.len() implies rank_before(
            entry(c),
            entry(results@[j]),
        ) by {
            if j > pos {
                lemma_rank_before_transitive(entry(c), entry(results@[pos as int]), entry(results@[j]));
            }
        }
        results@.insert_ensures(pos as int, c);
    }
    results.insert(pos, c);
    match limit {
        Some(k) => {
            if results.len() > k {
                results.truncate(k);
            }
        },
        None => {},
    }
}

} // verus!
