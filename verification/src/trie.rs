//! The trie: a node arena, weighted insertion with path compression, and
//! top-k prefix lookup pruned by cached subtree bounds.

use crate::completion::{
    covered, entry, is_position, lemma_offered_covers, offer, offered, ranked, within, Completion,
};
use crate::key::{key_as_str, key_chars, key_new};
use crate::text::{common_prefix_len, is_common_len, is_prefix};
use compact_str::CompactString;
use vstd::multiset::Multiset;
use vstd::prelude::*;
use vstd::string::*;

verus! {

/// A labelled edge from a node to one of its children.
pub struct Edge {
    pub key: CompactString,
    pub child: usize,
}

/// A trie vertex, identified by its index in the arena.
pub struct Node {
    pub children: Vec<Edge>,
    pub weight: Option<usize>,
    pub child_max_weight: usize,
}

/// How the remaining term relates to the one sibling fragment it overlaps.
pub enum MatchKind {
    Equal,
    IsShorter,
    IsLonger,
    CommonSubstring,
}

/// Outcome of matching a term against the children of a node.
pub enum NodeMatch {
    NoMatch,
    Found { kind: MatchKind, index: usize, common: usize },
}

/// Whether two strings begin with the same character.
pub open spec fn shares_first(a: Seq<char>, b: Seq<char>) -> bool {
    a.len() > 0 && b.len() > 0 && a[0] == b[0]
}

/// The match kind that a common prefix of `common` characters gives for a
/// term of `term_len` and a fragment of `key_len` characters.
pub open spec fn kind_of(common: int, term_len: int, key_len: int) -> MatchKind {
    if common == term_len && common == key_len {
        MatchKind::Equal
    } else if common == term_len {
        MatchKind::IsShorter
    } else if common == key_len {
        MatchKind::IsLonger
    } else {
        MatchKind::CommonSubstring
    }
}

/// The larger of a node's own weight and the bound cached for its subtree.
pub open spec fn contribution_of(node: Node) -> usize {
    match node.weight {
        Some(w) => if w > node.child_max_weight {
            w
        } else {
            node.child_max_weight
        },
        None => node.child_max_weight,
    }
}

/// How many of the nodes carry a weight.
pub open spec fn weighted_count(nodes: Seq<Node>) -> nat
    decreases nodes.len(),
{
    if nodes.len() == 0 {
        0
    } else {
        weighted_count(nodes.drop_last()) + if nodes.last().weight.is_some() {
            1nat
        } else {
            0nat
        }
    }
}

/// The sum of two weights, held at the largest representable weight.
pub open spec fn saturating_sum(a: usize, b: usize) -> usize {
    if a + b > usize::MAX {
        usize::MAX
    } else {
        (a + b) as usize
    }
}

/// Counting is the same on two arenas that agree on which nodes carry a
/// weight, and one more where exactly node `at` gained one.
pub proof fn lemma_weighted_count_update(a: Seq<Node>, b: Seq<Node>, at: int)
    requires
        a.len() == b.len(),
        forall|n: int| 0 <= n < a.len() && n != at ==> a[n].weight.is_some() == b[n].weight.is_some(),
    ensures
        0 <= at < a.len() && a[at].weight.is_none() && b[at].weight.is_some() ==> weighted_count(b)
            == weighted_count(a) + 1,
        !(0 <= at < a.len()) || a[at].weight.is_some() == b[at].weight.is_some()
            ==> weighted_count(b) == weighted_count(a),
        weighted_count(a) <= a.len(),
    decreases a.len(),
{
    if a.len() > 0 {
        lemma_weighted_count_update(a.drop_last(), b.drop_last(), at);
    }
}

/// The weight stored after `added` is inserted onto a node that stored `before`.
pub open spec fn accumulated(before: Option<usize>, added: usize) -> usize {
    match before {
        Some(w) => saturating_sum(w, added),
        None => added,
    }
}

/// The edges of a child list as plain values: fragment and child, in order.
pub open spec fn pairs(children: Seq<Edge>) -> Seq<(Seq<char>, int)> {
    children.map_values(|e: Edge| (key_chars(e.key), e.child as int))
}

/// One of the edges leads to node `m`.
pub open spec fn is_kid(children: Seq<Edge>, m: int) -> bool {
    exists|i: int| 0 <= i < children.len() && (#[trigger] children[i]).child == m
}

/// PruningRadixTrie for autocomplete.
pub struct PruningRadixTrie {
    nodes: Vec<Node>,
    term_count: usize,
    /// For each node, the text spelled from the root to it.
    paths: Ghost<Seq<Seq<char>>>,
    /// For each node but the root, the node that it hangs below.
    parents: Ghost<Seq<int>>,
    /// No node lies deeper than this many characters.
    depth: Ghost<nat>,
    /// The node whose cached bound an insertion has yet to raise.
    loose: Ghost<int>,
    /// The weight to which that bound has yet to be raised.
    slack: Ghost<usize>,
}

impl PruningRadixTrie {
    /// The edges of node `n`, each with its fragment and its child, without
    /// their order.
    spec fn edges(&self, n: int) -> Multiset<(Seq<char>, int)> {
        pairs(self.nodes@[n].children@).to_multiset()
    }

    /// No child of `curr` begins with the first character of `term`.
    spec fn no_child_shares(&self, curr: int, term: Seq<char>) -> bool {
        forall|i: int|
            0 <= i < self.nodes@[curr].children@.len() ==> !shares_first(
                term,
                key_chars(#[trigger] self.nodes@[curr].children@[i].key),
            )
    }

    /// The fragment on edge `index` of `curr` agrees with `term` on its first
    /// `common` characters, at least one, and no further.
    spec fn meets(&self, curr: int, term: Seq<char>, index: int, common: int) -> bool {
        &&& 0 <= index < self.nodes@[curr].children@.len()
        &&& common > 0
        &&& is_common_len(term, key_chars(self.nodes@[curr].children@[index].key), common)
    }

    /// Node `n` is a leaf that carries `weight`: no children, no bound.
    spec fn is_leaf(&self, n: int, weight: usize) -> bool {
        &&& self.nodes@[n].weight == Some(weight)
        &&& self.nodes@[n].children@.len() == 0
        &&& self.nodes@[n].child_max_weight == 0
    }

    /// The arena after `term` was inserted below `curr`, none of whose
    /// children shared its first character: one new leaf with the weight,
    /// and one new edge to it that carries the whole term.
    spec fn after_no_match(&self, before: Self, curr: int, term: Seq<char>, weight: usize) -> bool {
        let leaf = before.nodes@.len() as int;
        &&& self.nodes@.len() == before.nodes@.len() + 1
        &&& self.is_leaf(leaf, weight)
        &&& self.edges(curr) == before.edges(curr).insert((term, leaf))
        &&& self.nodes@[curr].weight == before.nodes@[curr].weight
        &&& forall|n: int|
            0 <= n < before.nodes@.len() && n != curr ==> #[trigger] self.nodes@[n] == before.nodes@[n]
    }

    /// The arena after `term` was inserted below `curr`, where edge `index`
    /// agreed with it on `common` characters; `r` is the weight then stored.
    /// Landing on the child adds the weight there and creates nothing. A
    /// term that ends inside the fragment splits the edge by a new node with
    /// the weight, whose one edge carries the rest of the fragment to the
    /// old child and whose bound is the old child's contribution. A term
    /// that parts from the fragment forks the edge by a new weightless node
    /// with two edges, the rest of the fragment to the old child and the
    /// rest of the term to a new leaf, bounded by the larger of the old
    /// child's contribution and the weight. A term that runs past the
    /// fragment leaves the edges of `curr` as they were and the bound of the
    /// child at no less than `r`.
    spec fn after_found(
        &self,
        before: Self,
        curr: int,
        term: Seq<char>,
        weight: usize,
        r: usize,
        index: int,
        common: int,
    ) -> bool {
        let key = key_chars(before.nodes@[curr].children@[index].key);
        let c = before.nodes@[curr].children@[index].child as int;
        let fresh = before.nodes@.len() as int;
        let below = contribution_of(before.nodes@[c]);
        match kind_of(common, term.len() as int, key.len() as int) {
            MatchKind::Equal => {
                &&& self.nodes@.len() == before.nodes@.len()
                &&& self.edges(curr) == before.edges(curr)
                &&& self.nodes@[c].weight == Some(r)
                &&& r == accumulated(before.nodes@[c].weight, weight)
                &&& self.nodes@[c].children == before.nodes@[c].children
                &&& self.nodes@[c].child_max_weight == before.nodes@[c].child_max_weight
                &&& self.nodes@[curr].weight == before.nodes@[curr].weight
                &&& forall|n: int|
                    0 <= n < before.nodes@.len() && n != curr && n != c ==> #[trigger] self.nodes@[n]
                        == before.nodes@[n]
            },
            MatchKind::IsShorter => {
                &&& self.nodes@.len() == before.nodes@.len() + 1
                &&& self.nodes@[fresh].weight == Some(weight)
                &&& pairs(self.nodes@[fresh].children@) == Seq::<(Seq<char>, int)>::empty().push(
                    (key.subrange(common, key.len() as int), c),
                )
                &&& self.nodes@[fresh].child_max_weight == below
                &&& self.edges(curr) == before.edges(curr).remove((key, c)).insert((term, fresh))
                &&& self.nodes@[curr].weight == before.nodes@[curr].weight
                &&& forall|n: int|
                    0 <= n < before.nodes@.len() && n != curr ==> #[trigger] self.nodes@[n]
                        == before.nodes@[n]
            },
            MatchKind::CommonSubstring => {
                let fork = fresh + 1;
                &&& self.nodes@.len() == before.nodes@.len() + 2
                &&& self.is_leaf(fresh, weight)
                &&& self.nodes@[fork].weight.is_none()
                &&& self.edges(fork) == Multiset::<(Seq<char>, int)>::empty().insert(
                    (key.subrange(common, key.len() as int), c),
                ).insert((term.subrange(common, term.len() as int), fresh))
                &&& self.nodes@[fork].child_max_weight == if below > weight {
                    below
                } else {
                    weight
                }
                &&& self.edges(curr) == before.edges(curr).remove((key, c)).insert(
                    (term.subrange(0, common), fork),
                )
                &&& self.nodes@[curr].weight == before.nodes@[curr].weight
                &&& forall|n: int|
                    0 <= n < before.nodes@.len() && n != curr ==> #[trigger] self.nodes@[n]
                        == before.nodes@[n]
            },
            MatchKind::IsLonger => {
                &&& self.edges(curr) == before.edges(curr)
                &&& self.nodes@[curr].weight == before.nodes@[curr].weight
                &&& self.nodes@[c].weight == before.nodes@[c].weight
                &&& self.nodes@[c].child_max_weight >= r
                &&& self.nodes@[c].child_max_weight == if before.nodes@[c].child_max_weight > r {
                    before.nodes@[c].child_max_weight
                } else {
                    r
                }
            },
        }
    }

    /// At most one edge of a node agrees with a term on a first character,
    /// and on one number of characters.
    proof fn lemma_meets_once(&self, curr: int, term: Seq<char>, i1: int, c1: int, i2: int, c2: int)
        requires
            self.shape(),
            0 <= curr < self.nodes@.len(),
            self.meets(curr, term, i1, c1),
            self.meets(curr, term, i2, c2),
        ensures
            i1 == i2,
            c1 == c2,
            !self.no_child_shares(curr, term),
    {
        assert(self.siblings_ok(curr));
        let k1 = key_chars(self.nodes@[curr].children@[i1].key);
        let k2 = key_chars(self.nodes@[curr].children@[i2].key);
        assert(term[0] == k1[0]);
        assert(term[0] == k2[0]);
        assert(shares_first(term, k1));
        if i1 == i2 {
            crate::text::lemma_common_len_unique(term, k1, c1, c2);
        }
    }

    /// Edge `i` of node `n` leads to a node of the arena, one non-empty
    /// fragment further along, whose recorded parent is `n` and whose
    /// contribution is within what `n` allows its children.
    spec fn edge_ok(&self, n: int, i: int) -> bool {
        let e = self.nodes@[n].children@[i];
        &&& 0 < e.child < self.nodes@.len()
        &&& key_chars(e.key).len() > 0
        &&& self.paths@[e.child as int] == self.paths@[n] + key_chars(e.key)
        &&& self.parents@[e.child as int] == n
        &&& contribution_of(self.nodes@[e.child as int]) <= self.cap(n)
    }

    /// What the children of node `n` may contribute: its cached bound, or, at
    /// the one node below which an insertion is under way, the inserted
    /// weight if that is more.
    spec fn cap(&self, n: int) -> usize {
        if n == self.loose@ && self.slack@ > self.nodes@[n].child_max_weight {
            self.slack@
        } else {
            self.nodes@[n].child_max_weight
        }
    }

    /// No two edges of node `n` lead to the same child or begin with the
    /// same character, and no child stands before one that contributes more.
    spec fn siblings_ok(&self, n: int) -> bool {
        forall|i: int, j: int|
            0 <= i < j < self.nodes@[n].children@.len() ==> {
                &&& self.nodes@[n].children@[i].child != self.nodes@[n].children@[j].child
                &&& key_chars(self.nodes@[n].children@[i].key)[0] != key_chars(
                    self.nodes@[n].children@[j].key,
                )[0]
                &&& contribution_of(self.nodes@[self.nodes@[n].children@[i].child as int])
                    >= contribution_of(self.nodes@[self.nodes@[n].children@[j].child as int])
            }
    }

    /// No edge leads to node `c`.
    spec fn no_edge_to(&self, c: int) -> bool {
        forall|n: int, i: int|
            0 <= n < self.nodes@.len() && 0 <= i < self.nodes@[n].children@.len() ==> (
            #[trigger] self.nodes@[n].children@[i]).child != c
    }

    /// Node `n` has an edge to node `m`.
    spec fn has_child(&self, n: int, m: int) -> bool {
        exists|i: int|
            0 <= i < self.nodes@[n].children@.len() && (#[trigger] self.nodes@[n].children@[i]).child
                == m
    }

    /// Node `m` hangs below the node recorded as its parent.
    spec fn linked(&self, m: int) -> bool {
        0 <= self.parents@[m] < self.nodes@.len() && self.has_child(self.parents@[m], m)
    }

    /// Every node but the root hangs below its parent, so that every node is
    /// reached from the root.
    spec fn rooted(&self) -> bool {
        forall|m: int| 0 < m < self.nodes@.len() ==> #[trigger] self.linked(m)
    }

    /// Node `m` is node `n` or hangs, by way of its parents, below it.
    spec fn under(&self, n: int, m: int) -> bool
        decreases self.paths@[m].len(),
    {
        m == n || (0 < m < self.nodes@.len() && 0 <= self.parents@[m] < self.nodes@.len()
            && self.paths@[self.parents@[m]].len() < self.paths@[m].len() && self.under(
            n,
            self.parents@[m],
        ))
    }

    /// Node `m` is, or hangs below, one of the children of node `n`.
    spec fn below_child(&self, n: int, m: int) -> bool {
        exists|i: int|
            0 <= i < self.nodes@[n].children@.len() && #[trigger] self.under(
                self.nodes@[n].children@[i].child as int,
                m,
            )
    }

    /// The path of a node continues the path of its parent.
    proof fn lemma_parent_path(&self, m: int)
        requires
            self.sound(),
            0 < m < self.nodes@.len(),
        ensures
            0 <= self.parents@[m] < self.nodes@.len(),
            self.paths@[self.parents@[m]].len() < self.paths@[m].len(),
            is_prefix(self.paths@[self.parents@[m]], self.paths@[m]),
    {
        assert(self.linked(m));
        let p = self.parents@[m];
        let i = choose|i: int|
            0 <= i < self.nodes@[p].children@.len() && (#[trigger] self.nodes@[p].children@[i]).child
                == m;
        assert(self.edge_ok(p, i));
        assert(self.paths@[m].subrange(0, self.paths@[p].len() as int) =~= self.paths@[p]);
    }

    /// Every node hangs below the root.
    proof fn lemma_under_root(&self, m: int)
        requires
            self.sound(),
            0 <= m < self.nodes@.len(),
        ensures
            self.under(0, m),
        decreases self.paths@[m].len(),
    {
        if m != 0 {
            self.lemma_parent_path(m);
            self.lemma_under_root(self.parents@[m]);
        }
    }

    /// A node that hangs below `n` is, or hangs below, a child of `n`.
    proof fn lemma_step_down(&self, n: int, m: int)
        requires
            self.sound(),
            0 <= n < self.nodes@.len(),
            0 <= m < self.nodes@.len(),
            self.under(n, m),
            m != n,
        ensures
            self.below_child(n, m),
        decreases self.paths@[m].len(),
    {
        let p = self.parents@[m];
        if p == n {
            assert(self.linked(m));
            let i = choose|i: int|
                0 <= i < self.nodes@[p].children@.len() && (
                #[trigger] self.nodes@[p].children@[i]).child == m;
            assert(self.under(self.nodes@[n].children@[i].child as int, m));
        } else {
            self.lemma_step_down(n, p);
            let i = choose|i: int|
                0 <= i < self.nodes@[n].children@.len() && #[trigger] self.under(
                    self.nodes@[n].children@[i].child as int,
                    p,
                );
            assert(self.under(self.nodes@[n].children@[i].child as int, m));
        }
    }

    /// The path of a node begins with the path of every node it hangs below.
    proof fn lemma_under_prefix(&self, n: int, m: int)
        requires
            self.sound(),
            0 <= n < self.nodes@.len(),
            0 <= m < self.nodes@.len(),
            self.under(n, m),
        ensures
            is_prefix(self.paths@[n], self.paths@[m]),
        decreases self.paths@[m].len(),
    {
        if m == n {
            assert(self.paths@[m].subrange(0, self.paths@[m].len() as int) =~= self.paths@[m]);
        } else {
            let p = self.parents@[m];
            self.lemma_parent_path(m);
            self.lemma_under_prefix(n, p);
            assert(self.paths@[m].subrange(0, self.paths@[n].len() as int) =~= self.paths@[p].subrange(
                0,
                self.paths@[n].len() as int,
            ));
        }
    }

    /// Every node whose path begins with the path of `curr` is `curr` or
    /// hangs below it.
    spec fn owns(&self, curr: int) -> bool {
        forall|m: int|
            0 <= m < self.nodes@.len() && is_prefix(self.paths@[curr], #[trigger] self.paths@[m])
                ==> self.under(curr, m)
    }

    /// A node whose path continues the path of `curr` by `s` hangs below a
    /// child of `curr` whose fragment `s` begins with.
    proof fn lemma_way_down(&self, curr: int, m: int, s: Seq<char>) -> (j: int)
        requires
            self.sound(),
            self.owns(curr),
            0 <= curr < self.nodes@.len(),
            0 <= m < self.nodes@.len(),
            self.paths@[m] == self.paths@[curr] + s,
            s.len() > 0,
        ensures
            0 <= j < self.nodes@[curr].children@.len(),
            is_prefix(key_chars(self.nodes@[curr].children@[j].key), s),
            key_chars(self.nodes@[curr].children@[j].key).len() > 0,
            key_chars(self.nodes@[curr].children@[j].key)[0] == s[0],
            self.under(self.nodes@[curr].children@[j].child as int, m),
    {
        let base = self.paths@[curr];
        assert(self.paths@[m].subrange(0, base.len() as int) =~= base);
        assert(self.under(curr, m));
        self.lemma_step_down(curr, m);
        let j = choose|j: int|
            0 <= j < self.nodes@[curr].children@.len() && #[trigger] self.under(
                self.nodes@[curr].children@[j].child as int,
                m,
            );
        assert(self.edge_ok(curr, j));
        let c = self.nodes@[curr].children@[j].child as int;
        let key = key_chars(self.nodes@[curr].children@[j].key);
        self.lemma_under_prefix(c, m);
        assert forall|t: int| 0 <= t < key.len() implies s[t] == key[t] by {
            assert((base + s).subrange(0, (base + key).len() as int)[base.len() + t] == (base
                + key)[base.len() + t]);
            assert((base + s)[base.len() + t] == s[t]);
            assert((base + key)[base.len() + t] == key[t]);
        }
        assert(s.subrange(0, key.len() as int) =~= key);
        j
    }

    /// The child on edge `index` of a node that owns its part of the arena
    /// owns its own part.
    proof fn lemma_owns_child(&self, curr: int, index: int)
        requires
            self.sound(),
            self.owns(curr),
            0 <= curr < self.nodes@.len(),
            0 <= index < self.nodes@[curr].children@.len(),
        ensures
            self.owns(self.nodes@[curr].children@[index].child as int),
    {
        let base = self.paths@[curr];
        let c = self.nodes@[curr].children@[index].child as int;
        let key = key_chars(self.nodes@[curr].children@[index].key);
        assert(self.edge_ok(curr, index));
        assert forall|m: int|
            0 <= m < self.nodes@.len() && is_prefix(self.paths@[c], #[trigger] self.paths@[m]) implies self.under(
            c,
            m,
        ) by {
            if m != c {
                let full = self.paths@[m];
                let s = full.subrange(base.len() as int, full.len() as int);
                assert(full.subrange(0, (base + key).len() as int)[base.len() as int] == (base
                    + key)[base.len() as int]);
                assert forall|t: int| 0 <= t < base.len() implies full[t] == base[t] by {
                    assert(full.subrange(0, (base + key).len() as int)[t] == (base + key)[t]);
                }
                assert(full =~= base + s);
                let j = self.lemma_way_down(curr, m, s);
                assert(self.siblings_ok(curr));
                assert(j == index);
            }
        }
    }

    /// The list `s` accounts for every weighted node strictly below `n`
    /// whose path begins with `target`.
    spec fn covers_below(
        &self,
        s: Seq<Completion>,
        limit: Option<usize>,
        n: int,
        target: Seq<char>,
    ) -> bool {
        forall|m: int|
            0 <= m < self.nodes@.len() && m != n && #[trigger] self.under(n, m)
                && self.nodes@[m].weight.is_some() && is_prefix(target, self.paths@[m]) ==> covered(
                s,
                limit,
                self.paths@[m],
                self.nodes@[m].weight.unwrap(),
            )
    }

    /// Whatever `a` accounts for, `b` accounts for too.
    pub open spec fn keeps_covered(
        a: Seq<Completion>,
        b: Seq<Completion>,
        limit: Option<usize>,
    ) -> bool {
        forall|t: Seq<char>, w: usize| covered(a, limit, t, w) ==> #[trigger] covered(b, limit, t, w)
    }

    /// The contribution of a node that hangs below `c` is within the bound
    /// cached at `c`.
    proof fn lemma_bound(&self, c: int, m: int)
        requires
            self.sound(),
            0 <= c < self.nodes@.len(),
            0 <= m < self.nodes@.len(),
            self.under(c, m),
            m != c,
        ensures
            contribution_of(self.nodes@[m]) <= self.nodes@[c].child_max_weight,
        decreases self.paths@[m].len(),
    {
        let p = self.parents@[m];
        self.lemma_parent_path(m);
        assert(self.linked(m));
        let i = choose|i: int|
            0 <= i < self.nodes@[p].children@.len() && (#[trigger] self.nodes@[p].children@[i]).child
                == m;
        assert(self.edge_ok(p, i));
        if p != c {
            self.lemma_bound(c, p);
        }
    }

    /// The invariant of the trie: the arena is well shaped, every node is
    /// reached from the root, no insertion is under way, and the bound cached
    /// at the root is the heaviest stored weight.
    pub closed spec fn wf(&self) -> bool {
        self.sound() && self.top_ok()
    }

    /// The arena is well shaped, every node is reached from the root, and no
    /// insertion is under way.
    spec fn sound(&self) -> bool {
        self.shape() && self.rooted() && self.slack@ == 0
    }

    /// The bound cached at the root is the weight of a stored term, or zero
    /// where nothing is stored.
    spec fn top_ok(&self) -> bool {
        (exists|t: Seq<char>| #[trigger] self.holds(t, self.nodes@[0].child_max_weight)) || (
        self.nodes@[0].child_max_weight == 0 && forall|t: Seq<char>, w: usize| !self.holds(t, w))
    }

    /// The bound cached at the root: the heaviest weight stored.
    pub closed spec fn top_weight(&self) -> usize {
        self.nodes@[0].child_max_weight
    }

    /// The number of nodes in the arena, the root among them.
    pub closed spec fn node_count(&self) -> nat {
        self.nodes@.len()
    }

    /// The root has no weight, no children and no bound.
    pub closed spec fn root_is_bare(&self) -> bool {
        &&& self.nodes@[0].weight.is_none()
        &&& self.nodes@[0].children@.len() == 0
        &&& self.nodes@[0].child_max_weight == 0
    }

    /// The weighted nodes among the first `k` of the arena.
    spec fn weighted_upto(&self, k: int) -> Set<int> {
        Set::new(|n: int| 0 <= n < k && self.nodes@[n].weight.is_some())
    }

    /// The weighted nodes among the first `k` are as many as the count says.
    proof fn lemma_weighted_set(&self, k: int)
        requires
            0 <= k <= self.nodes@.len(),
        ensures
            self.weighted_upto(k).finite(),
            self.weighted_upto(k).len() == weighted_count(self.nodes@.take(k)),
        decreases k,
    {
        if k == 0 {
            assert(self.weighted_upto(0) =~= Set::<int>::empty());
            assert(self.nodes@.take(0).len() == 0);
        } else {
            self.lemma_weighted_set(k - 1);
            assert(self.nodes@.take(k).drop_last() =~= self.nodes@.take(k - 1));
            assert(self.nodes@.take(k).last() == self.nodes@[k - 1]);
            if self.nodes@[k - 1].weight.is_some() {
                assert(self.weighted_upto(k) =~= self.weighted_upto(k - 1).insert(k - 1));
            } else {
                assert(self.weighted_upto(k) =~= self.weighted_upto(k - 1));
            }
        }
    }

    /// The node that spells `term`.
    spec fn node_of(&self, term: Seq<char>) -> int {
        choose|n: int| 0 <= n < self.nodes@.len() && #[trigger] self.paths@[n] == term
    }

    /// A list that holds every stored term once, and nothing else, has as
    /// many entries as the trie counts terms.
    pub proof fn lemma_count_is_number_of_terms(&self, listing: Seq<(Seq<char>, usize)>)
        requires
            self.wf(),
            forall|i: int| 0 <= i < listing.len() ==> self.holds(#[trigger] listing[i].0, listing[i].1),
            forall|i: int, j: int| 0 <= i < j < listing.len() ==> listing[i].0 != listing[j].0,
            forall|t: Seq<char>, w: usize|
                self.holds(t, w) ==> exists|i: int| 0 <= i < listing.len() && #[trigger] listing[i] == (t, w),
        ensures
            listing.len() == self.count(),
    {
        let total = self.nodes@.len() as int;
        self.lemma_weighted_set(total);
        assert(self.nodes@.take(total) =~= self.nodes@);
        let weighted = self.weighted_upto(total);
        let places = vstd::set_lib::set_int_range(0, listing.len() as int);
        vstd::set_lib::lemma_int_range(0, listing.len() as int);
        let f = |i: int| self.node_of(listing[i].0);
        assert forall|i: int| 0 <= i < listing.len() implies {
            let n = #[trigger] f(i);
            0 <= n < total && self.paths@[n] == listing[i].0 && self.nodes@[n].weight == Some(
                listing[i].1,
            )
        } by {
            assert(self.holds(listing[i].0, listing[i].1));
            let m = choose|m: int|
                0 <= m < self.nodes@.len() && #[trigger] self.paths@[m] == listing[i].0
                    && self.nodes@[m].weight == Some(listing[i].1);
            let n = f(i);
            assert(self.paths@[m] == listing[i].0);
            if n < m {
                assert(self.paths@[n] != self.paths@[m]);
            } else if m < n {
                assert(self.paths@[m] != self.paths@[n]);
            }
        }
        assert(vstd::relations::injective_on(f, places)) by {
            assert forall|x1: int, x2: int|
                places.contains(x1) && places.contains(x2) && #[trigger] f(x1) == #[trigger] f(
                    x2,
                ) implies x1 == x2 by {
                assert(self.paths@[f(x1)] == listing[x1].0);
                assert(self.paths@[f(x2)] == listing[x2].0);
            }
        }
        assert forall|n: int| weighted.contains(n) implies #[trigger] places.map(f).contains(n) by {
            let w = self.nodes@[n].weight.unwrap();
            assert(self.paths@[n] == self.paths@[n] && self.nodes@[n].weight == Some(w));
            assert(self.holds(self.paths@[n], w));
            let i = choose|i: int| 0 <= i < listing.len() && #[trigger] listing[i] == (self.paths@[n], w);
            let m = f(i);
            assert(self.paths@[m] == self.paths@[n]);
            if n < m {
                assert(self.paths@[n] != self.paths@[m]);
            } else if m < n {
                assert(self.paths@[m] != self.paths@[n]);
            }
            assert(places.contains(i) && n == f(i));
        }
        assert forall|n: int| #[trigger] places.map(f).contains(n) implies weighted.contains(n) by {
            let i = choose|i: int| places.contains(i) && n == f(i);
            assert(f(i) == n);
        }
        assert(places.map(f) =~= weighted);
        vstd::set_lib::lemma_map_size(places, weighted, f);
    }

    /// The bound cached at the root is the heaviest weight stored: no stored
    /// term is heavier, and one is that heavy; it is zero where nothing is
    /// stored.
    pub proof fn lemma_top_weight(&self)
        requires
            self.wf(),
        ensures
            forall|t: Seq<char>, w: usize| #[trigger] self.holds(t, w) ==> w <= self.top_weight(),
            (exists|t: Seq<char>, w: usize| self.holds(t, w)) ==> exists|t: Seq<char>| #[trigger]
                self.holds(t, self.top_weight()),
            (forall|t: Seq<char>, w: usize| !self.holds(t, w)) ==> self.top_weight() == 0,
    {
        assert forall|t: Seq<char>, w: usize| #[trigger] self.holds(t, w) implies w
            <= self.top_weight() by {
            let n = choose|n: int|
                0 <= n < self.nodes@.len() && #[trigger] self.paths@[n] == t && self.nodes@[n].weight
                    == Some(w);
            self.lemma_under_root(n);
            self.lemma_bound(0, n);
        }
    }

    /// The arena is well shaped: every edge is as `edge_ok` says; siblings
    /// are as `siblings_ok` says; no two nodes spell the same text; the root
    /// spells the empty text and has no weight; no path is longer than the
    /// depth; and the term count is the number of weighted nodes.
    spec fn shape(&self) -> bool {
        &&& self.nodes@.len() > 0
        &&& self.paths@.len() == self.nodes@.len()
        &&& self.parents@.len() == self.nodes@.len()
        &&& self.paths@[0].len() == 0
        &&& self.nodes@[0].weight.is_none()
        &&& self.term_count == weighted_count(self.nodes@)
        &&& forall|n: int| 0 <= n < self.nodes@.len() ==> (#[trigger] self.paths@[n]).len() <= self.depth@
        &&& forall|n: int, i: int|
            0 <= n < self.nodes@.len() && 0 <= i < self.nodes@[n].children@.len()
                ==> #[trigger] self.edge_ok(n, i)
        &&& forall|n: int| 0 <= n < self.nodes@.len() ==> #[trigger] self.siblings_ok(n)
        &&& forall|a: int, b: int|
            0 <= a < b < self.nodes@.len() ==> #[trigger] self.paths@[a] != #[trigger] self.paths@[b]
    }

    /// What an insertion of `term` below `curr` leaves of node `n` of
    /// `before`: its path; the whole node if it lies above `curr`; and its
    /// weight, unless it spells the inserted term and took the weight.
    spec fn kept_at(
        &self,
        before: Self,
        n: int,
        curr: int,
        term: Seq<char>,
        weight: usize,
        r: usize,
    ) -> bool {
        &&& self.paths@[n] == before.paths@[n]
        &&& before.paths@[n].len() < before.paths@[curr].len() ==> self.nodes@[n]
            == before.nodes@[n]
        &&& (self.nodes@[n].weight == before.nodes@[n].weight || {
            &&& before.paths@[n] == before.paths@[curr] + term
            &&& self.nodes@[n].weight == Some(r)
            &&& r == accumulated(before.nodes@[n].weight, weight)
            &&& self.term_count == before.term_count + if before.nodes@[n].weight.is_none() {
                1nat
            } else {
                0nat
            }
        })
    }

    /// `kept_at` for every node of `before`.
    spec fn keeps(
        &self,
        before: Self,
        curr: int,
        term: Seq<char>,
        weight: usize,
        r: usize,
    ) -> bool {
        forall|n: int|
            0 <= n < before.nodes@.len() ==> #[trigger] self.kept_at(
                before,
                n,
                curr,
                term,
                weight,
                r,
            )
    }

    /// The children of node `n` stay distinct and in order where its edges
    /// are as they were and its children contribute what they did.
    proof fn lemma_siblings_kept(&self, after: Self, n: int, changed: int)
        requires
            self.shape(),
            0 <= n < self.nodes@.len() <= after.nodes@.len(),
            after.nodes@[n].children@ == self.nodes@[n].children@,
            forall|c: int|
                0 <= c < self.nodes@.len() && c != changed ==> contribution_of(
                    #[trigger] after.nodes@[c],
                ) == contribution_of(self.nodes@[c]),
            forall|i: int|
                0 <= i < self.nodes@[n].children@.len() ==> (
                #[trigger] self.nodes@[n].children@[i]).child != changed,
        ensures
            after.siblings_ok(n),
    {
        assert(self.siblings_ok(n));
        let now = after.nodes@[n].children@;
        assert forall|i: int, j: int| 0 <= i < j < now.len() implies now[i].child != now[j].child
            && key_chars(now[i].key)[0] != key_chars(now[j].key)[0] && contribution_of(
            after.nodes@[now[i].child as int],
        ) >= contribution_of(after.nodes@[now[j].child as int]) by {
            assert(self.edge_ok(n, i));
            assert(self.edge_ok(n, j));
            assert(self.nodes@[n].children@[i].child != changed);
            assert(self.nodes@[n].children@[j].child != changed);
        }
    }

    /// A trie that differs from a well-shaped one only in which node is
    /// marked, and allows every node's children no less, is well shaped too.
    proof fn lemma_loosen(&self, after: Self)
        requires
            self.shape(),
            forall|n: int| 0 <= n < self.nodes@.len() ==> after.cap(n) >= #[trigger] self.cap(n),
            after.nodes == self.nodes,
            after.term_count == self.term_count,
            after.paths == self.paths,
            after.parents == self.parents,
            after.depth == self.depth,
        ensures
            after.shape(),
            self.rooted() ==> after.rooted(),
    {
        assert forall|n: int, i: int|
            0 <= n < after.nodes@.len() && 0 <= i < after.nodes@[n].children@.len() implies #[trigger] after.edge_ok(
            n,
            i,
        ) by {
            assert(self.edge_ok(n, i));
        }
        assert forall|n: int| 0 <= n < after.nodes@.len() implies #[trigger] after.siblings_ok(
            n,
        ) by {
            self.lemma_siblings_kept(after, n, -1);
        }
        if self.rooted() {
            assert forall|m: int| 0 < m < after.nodes@.len() implies #[trigger] after.linked(m) by {
                assert(self.linked(m));
                let p = self.parents@[m];
                let i = choose|i: int|
                    0 <= i < self.nodes@[p].children@.len() && (#[trigger] self.nodes@[p].children@[i]).child
                        == m;
                assert(after.nodes@[p].children@[i].child == m);
            }
        }
    }

    /// The trie stores `term` with total weight `weight`.
    pub closed spec fn holds(&self, term: Seq<char>, weight: usize) -> bool {
        exists|n: int|
            0 <= n < self.nodes@.len() && #[trigger] self.paths@[n] == term && self.nodes@[n].weight
                == Some(weight)
    }

    /// Every listed completion is a stored term with its weight, and begins
    /// with `target`.
    pub open spec fn all_found(&self, s: Seq<Completion>, target: Seq<char>) -> bool {
        forall|i: int|
            0 <= i < s.len() ==> self.holds(entry(#[trigger] s[i]).0, entry(s[i]).1) && is_prefix(
                target,
                entry(s[i]).0,
            )
    }

    /// The weight stored for `term`, if it is stored.
    pub open spec fn stored(&self, term: Seq<char>) -> Option<usize> {
        if self.has_term(term) {
            Some(choose|w: usize| self.holds(term, w))
        } else {
            None
        }
    }

    /// What one insertion of `term` with `weight` into `before` gives: the
    /// term is stored with `weight` if it was not stored, and with the
    /// saturating sum of `weight` and what was stored if it was; it is
    /// counted once, when first stored; every other term is stored as before.
    pub open spec fn is_insertion_into(&self, before: Self, term: Seq<char>, weight: usize) -> bool {
        &&& self.count() == before.count() + if before.stored(term).is_none() {
            1nat
        } else {
            0nat
        }
        &&& forall|t: Seq<char>, w: usize| #[trigger]
            self.holds(t, w) <==> if t == term {
                w == accumulated(before.stored(term), weight)
            } else {
                before.holds(t, w)
            }
    }

    /// A term is stored with one weight only.
    pub proof fn lemma_holds_unique(&self, term: Seq<char>, w1: usize, w2: usize)
        requires
            self.wf(),
            self.holds(term, w1),
            self.holds(term, w2),
        ensures
            w1 == w2,
    {
        self.lemma_stored_at_most_once(term, w1, w2);
    }

    /// In a well-shaped arena a term is stored with one weight only.
    proof fn lemma_stored_at_most_once(&self, term: Seq<char>, w1: usize, w2: usize)
        requires
            self.shape(),
            self.holds(term, w1),
            self.holds(term, w2),
        ensures
            w1 == w2,
    {
        let a = choose|n: int|
            0 <= n < self.nodes@.len() && #[trigger] self.paths@[n] == term && self.nodes@[n].weight
                == Some(w1);
        let b = choose|n: int|
            0 <= n < self.nodes@.len() && #[trigger] self.paths@[n] == term && self.nodes@[n].weight
                == Some(w2);
        if a < b {
            assert(self.paths@[a] != self.paths@[b]);
        } else if b < a {
            assert(self.paths@[b] != self.paths@[a]);
        }
    }

    /// Nothing is stored for a text that no node spells.
    proof fn lemma_absent(&self, term: Seq<char>)
        requires
            forall|m: int| 0 <= m < self.nodes@.len() ==> #[trigger] self.paths@[m] != term,
        ensures
            self.stored(term).is_none(),
    {
        if self.has_term(term) {
            let w = choose|w: usize| self.holds(term, w);
            let n = choose|n: int|
                0 <= n < self.nodes@.len() && #[trigger] self.paths@[n] == term && self.nodes@[n].weight
                    == Some(w);
            assert(self.paths@[n] != term);
        }
    }

    /// What is stored for the text that node `x` spells is the weight of `x`.
    proof fn lemma_present(&self, x: int)
        requires
            self.shape(),
            0 <= x < self.nodes@.len(),
        ensures
            self.stored(self.paths@[x]) == self.nodes@[x].weight,
    {
        let term = self.paths@[x];
        if self.nodes@[x].weight.is_some() {
            let w0 = self.nodes@[x].weight.unwrap();
            assert(self.paths@[x] == term && self.nodes@[x].weight == Some(w0));
            assert(self.holds(term, w0));
            let w = choose|w: usize| self.holds(term, w);
            self.lemma_stored_at_most_once(term, w, w0);
        } else if self.has_term(term) {
            let w = choose|w: usize| self.holds(term, w);
            let n = choose|n: int|
                0 <= n < self.nodes@.len() && #[trigger] self.paths@[n] == term && self.nodes@[n].weight
                    == Some(w);
            if n < x {
                assert(self.paths@[n] != self.paths@[x]);
            } else if x < n {
                assert(self.paths@[x] != self.paths@[n]);
            }
        }
    }

    /// Two well-shaped arenas with the same nodes and paths store the same.
    proof fn lemma_stored_same(&self, other: Self, term: Seq<char>)
        requires
            self.shape(),
            other.shape(),
            self.nodes == other.nodes,
            self.paths == other.paths,
        ensures
            self.stored(term) == other.stored(term),
            forall|w: usize| self.holds(term, w) == other.holds(term, w),
    {
        assert forall|w: usize| self.holds(term, w) == other.holds(term, w) by {
            if self.holds(term, w) {
                let n = choose|n: int|
                    0 <= n < self.nodes@.len() && #[trigger] self.paths@[n] == term
                        && self.nodes@[n].weight == Some(w);
                assert(other.paths@[n] == term && other.nodes@[n].weight == Some(w));
            }
            if other.holds(term, w) {
                let n = choose|n: int|
                    0 <= n < other.nodes@.len() && #[trigger] other.paths@[n] == term
                        && other.nodes@[n].weight == Some(w);
                assert(self.paths@[n] == term && self.nodes@[n].weight == Some(w));
            }
        }
        if self.has_term(term) {
            let w = choose|w: usize| self.holds(term, w);
            assert(other.holds(term, w));
            let v = choose|v: usize| other.holds(term, v);
            assert(self.holds(term, v));
            self.lemma_stored_at_most_once(term, w, v);
        } else if other.has_term(term) {
            let v = choose|v: usize| other.holds(term, v);
            assert(self.holds(term, v));
        }
    }

    /// `results` is what a lookup of `prefix` under `top_k` returns: ranked
    /// with none twice, within the limit, only stored terms that begin with
    /// the prefix, and accounting for every stored term that begins with it.
    pub open spec fn is_lookup(
        &self,
        prefix: Seq<char>,
        top_k: Option<usize>,
        results: Seq<Completion>,
    ) -> bool {
        &&& ranked(results)
        &&& within(results, top_k)
        &&& self.all_found(results, prefix)
        &&& forall|t: Seq<char>, w: usize|
            self.holds(t, w) && is_prefix(prefix, t) ==> #[trigger] covered(results, top_k, t, w)
    }

    /// The trie stores `term` with some weight.
    pub open spec fn has_term(&self, term: Seq<char>) -> bool {
        exists|w: usize| self.holds(term, w)
    }

    /// The number of distinct terms stored.
    pub closed spec fn count(&self) -> nat {
        self.term_count as nat
    }

    /// Creates a new PruningRadixTrie instance.
    pub fn new() -> (t: Self)
        ensures
            t.wf(),
            t.node_count() == 1,
            t.root_is_bare(),
            t.top_weight() == 0,
            t.count() == 0,
            forall|term: Seq<char>, w: usize| !t.holds(term, w),
    {
        let mut nodes: Vec<Node> = Vec::new();
        nodes.push(Node { children: Vec::new(), weight: None, child_max_weight: 0 });
        let ghost paths: Seq<Seq<char>> = Seq::empty().push(Seq::empty());
        let ghost parents: Seq<int> = Seq::empty().push(0int);
        let t = PruningRadixTrie {
            nodes,
            term_count: 0,
            paths: Ghost(paths),
            parents: Ghost(parents),
            depth: Ghost(0nat),
            loose: Ghost(0int),
            slack: Ghost(0usize),
        };
        proof {
            assert(t.nodes@.drop_last().len() == 0);
            assert(weighted_count(t.nodes@.drop_last()) == 0);
        }
        t
    }

    /// Get the number of entries in the dictionary.
    pub fn len(&self) -> (n: usize)
        ensures
            n == self.count(),
    {
        self.term_count
    }

    /// Check if the dictionary is empty.
    pub fn is_empty(&self) -> (b: bool)
        ensures
            b == (self.count() == 0),
    {
        self.term_count == 0
    }

    /// Classifies `term` against the children of `node_id`: the first child
    /// whose fragment begins with the same character, and how far the two agree.
    fn match_children(&self, node_id: usize, term: &str) -> (m: NodeMatch)
        requires
            node_id < self.nodes@.len(),
        ensures
            match m {
                NodeMatch::NoMatch => forall|i: int|
                    0 <= i < self.nodes@[node_id as int].children@.len() ==> !shares_first(
                        term@,
                        key_chars(#[trigger] self.nodes@[node_id as int].children@[i].key),
                    ),
                NodeMatch::Found { kind, index, common } => {
                    let keys = self.nodes@[node_id as int].children@;
                    &&& index < keys.len()
                    &&& common > 0
                    &&& is_common_len(term@, key_chars(keys[index as int].key), common as int)
                    &&& kind == kind_of(
                        common as int,
                        term@.len() as int,
                        key_chars(keys[index as int].key).len() as int,
                    )
                    &&& forall|i: int|
                        0 <= i < index ==> !shares_first(term@, key_chars(#[trigger] keys[i].key))
                },
            },
    {
        let children = &self.nodes[node_id].children;
        let term_len: usize = term.unicode_len();
        let mut index: usize = 0;
        while index < children.len()
            invariant
                children == &self.nodes@[node_id as int].children,
                term_len == term@.len(),
                index <= children@.len(),
                forall|i: int|
                    0 <= i < index ==> !shares_first(term@, key_chars(#[trigger] children@[i].key)),
            decreases children@.len() - index,
        {
            let key = key_as_str(&children[index].key);
            let common: usize = common_prefix_len(term, key);
            if common > 0 {
                let key_len: usize = key.unicode_len();
                let kind = if common == term_len && common == key_len {
                    MatchKind::Equal
                } else if common == term_len {
                    MatchKind::IsShorter
                } else if common == key_len {
                    MatchKind::IsLonger
                } else {
                    MatchKind::CommonSubstring
                };
                return NodeMatch::Found { kind, index, common };
            }
            index = index + 1;
        }
        NodeMatch::NoMatch
    }

    /// The larger of the node's weight and its cached subtree bound.
    fn contribution(&self, id: usize) -> (c: usize)
        requires
            id < self.nodes@.len(),
        ensures
            c == contribution_of(self.nodes@[id as int]),
    {
        let node = &self.nodes[id];
        match node.weight {
            Some(w) => if w > node.child_max_weight {
                w
            } else {
                node.child_max_weight
            },
            None => node.child_max_weight,
        }
    }

    /// Where a child of the given contribution goes among the children of
    /// `node_id`: before the first sibling that contributes less.
    fn get_insert_index(&self, node_id: usize, contribution: usize) -> (pos: usize)
        requires
            self.shape(),
            node_id < self.nodes@.len(),
        ensures
            pos <= self.nodes@[node_id as int].children@.len(),
            forall|i: int|
                0 <= i < pos ==> contribution_of(
                    self.nodes@[(#[trigger] self.nodes@[node_id as int].children@[i]).child as int],
                ) >= contribution,
            pos < self.nodes@[node_id as int].children@.len() ==> contribution_of(
                self.nodes@[self.nodes@[node_id as int].children@[pos as int].child as int],
            ) < contribution,
    {
        let mut pos: usize = 0;
        while pos < self.nodes[node_id].children.len()
            invariant
                self.shape(),
                node_id < self.nodes@.len(),
                pos <= self.nodes@[node_id as int].children@.len(),
                forall|i: int|
                    0 <= i < pos ==> contribution_of(
                        self.nodes@[(#[trigger] self.nodes@[node_id as int].children@[i]).child as int],
                    ) >= contribution,
            decreases self.nodes@[node_id as int].children@.len() - pos,
        {
            assert(self.edge_ok(node_id as int, pos as int));
            let child_id: usize = self.nodes[node_id].children[pos].child;
            if self.contribution(child_id) < contribution {
                return pos;
            }
            pos = pos + 1;
        }
        pos
    }

    /// Appends a node with the given children, weight and bound to the
    /// arena and returns its identity. The children must fit the invariant:
    /// nodes of the arena that hang below nothing else at this moment, each
    /// one fragment below `path` and within the bound, with different first
    /// characters and in order of contribution.
    fn make_node(
        &mut self,
        children: Vec<Edge>,
        weight: Option<usize>,
        child_max_weight: usize,
        Ghost(path): Ghost<Seq<char>>,
        Ghost(parent): Ghost<int>,
    ) -> (id: usize)
        requires
            old(self).shape(),
            forall|m: int| 0 <= m < old(self).nodes@.len() ==> #[trigger] old(self).paths@[m] != path,
            path.len() <= old(self).depth@,
            forall|i: int|
                0 <= i < children@.len() ==> {
                    let e = #[trigger] children@[i];
                    &&& 0 < e.child < old(self).nodes@.len()
                    &&& key_chars(e.key).len() > 0
                    &&& old(self).paths@[e.child as int] == path + key_chars(e.key)
                    &&& old(self).no_edge_to(e.child as int)
                    &&& contribution_of(old(self).nodes@[e.child as int]) <= child_max_weight
                },
            forall|i: int, j: int|
                0 <= i < j < children@.len() ==> {
                    &&& children@[i].child != children@[j].child
                    &&& key_chars(children@[i].key)[0] != key_chars(children@[j].key)[0]
                    &&& contribution_of(old(self).nodes@[children@[i].child as int]) >= contribution_of(
                        old(self).nodes@[children@[j].child as int],
                    )
                },
        ensures
            final(self).shape(),
            id == old(self).nodes@.len(),
            final(self).depth@ == old(self).depth@,
            final(self).loose@ == old(self).loose@,
            final(self).slack@ == old(self).slack@,
            final(self).paths@ == old(self).paths@.push(path),
            final(self).nodes@ == old(self).nodes@.push(
                Node { children, weight, child_max_weight },
            ),
            final(self).term_count == old(self).term_count + if weight.is_some() {
                1nat
            } else {
                0nat
            },
            final(self).parents@[id as int] == parent,
            forall|i: int|
                0 <= i < children@.len() ==> final(self).linked((#[trigger] children@[i]).child as int)
                    && final(self).parents@[children@[i].child as int] == id,
            forall|m: int|
                0 <= m < old(self).nodes@.len() && !is_kid(children@, m)
                    ==> #[trigger] final(self).parents@[m] == old(self).parents@[m],
            forall|m: int|
                0 < m < old(self).nodes@.len() && old(self).linked(m) && !is_kid(children@, m)
                    ==> #[trigger] final(self).linked(m),
    {
        let id: usize = self.nodes.len();
        let ghost before = self.nodes@;
        let ghost was = self.parents@;
        self.nodes.push(Node { children, weight, child_max_weight });
        proof {
            self.paths@ = self.paths@.push(path);
            self.parents@ = Seq::new(
                (was.len() + 1) as nat,
                |m: int|
                    if m == id {
                        parent
                    } else if is_kid(children@, m) {
                        id as int
                    } else {
                        was[m]
                    },
            );
            assert forall|i: int| 0 <= i < children@.len() implies self.linked(
                (#[trigger] children@[i]).child as int,
            ) && self.parents@[children@[i].child as int] == id by {
                assert(is_kid(children@, children@[i].child as int));
                assert(self.nodes@[id as int].children@[i].child == children@[i].child);
            }
            assert forall|m: int|
                0 < m < before.len() && old(self).linked(m) && !is_kid(
                    children@,
                    m,
                ) implies #[trigger] self.linked(m) by {
                let p = old(self).parents@[m];
                let i = choose|i: int|
                    0 <= i < before[p].children@.len() && (#[trigger] before[p].children@[i]).child
                        == m;
                assert(self.nodes@[p].children@[i].child == m);
            }
            assert(self.nodes@.drop_last() == before);
            lemma_weighted_count_update(before, before, -1);
        }
        let grown: usize = self.nodes.len();
        assert(self.term_count < grown);
        if weight.is_some() {
            self.term_count = self.term_count + 1;
        }
        proof {
            assert forall|n: int, i: int|
                0 <= n < self.nodes@.len() && 0 <= i < self.nodes@[n].children@.len() implies #[trigger] self.edge_ok(
                n,
                i,
            ) by {
                if n < id {
                    assert(old(self).edge_ok(n, i));
                    assert(before[n].children@[i].child != id);
                    if is_kid(children@, before[n].children@[i].child as int) {
                        let k = choose|k: int|
                            0 <= k < children@.len() && (#[trigger] children@[k]).child
                                == before[n].children@[i].child;
                        assert(old(self).no_edge_to(children@[k].child as int));
                    }
                } else {
                    assert(is_kid(children@, children@[i].child as int));
                }
            }
            assert forall|n: int| 0 <= n < self.nodes@.len() implies #[trigger] self.siblings_ok(
                n,
            ) by {
                if n < id {
                    old(self).lemma_siblings_kept(*self, n, -1);
                }
            }
        }
        id
    }

    /// Links `child_id` under `parent_id` by an edge labelled `key`, placed by
    /// the child's contribution.
    fn append_child(&mut self, parent_id: usize, key: CompactString, child_id: usize)
        requires
            old(self).shape(),
            parent_id < old(self).nodes@.len(),
            0 < child_id < old(self).nodes@.len(),
            key_chars(key).len() > 0,
            old(self).paths@[child_id as int] == old(self).paths@[parent_id as int] + key_chars(key),
            old(self).parents@[child_id as int] == parent_id,
            contribution_of(old(self).nodes@[child_id as int]) <= old(self).cap(parent_id as int),
            forall|i: int|
                0 <= i < old(self).nodes@[parent_id as int].children@.len() ==> (#[trigger] old(
                    self,
                ).nodes@[parent_id as int].children@[i]).child != child_id && key_chars(
                    old(self).nodes@[parent_id as int].children@[i].key,
                )[0] != key_chars(key)[0],
        ensures
            final(self).shape(),
            final(self).depth@ == old(self).depth@,
            final(self).loose@ == old(self).loose@,
            final(self).slack@ == old(self).slack@,
            final(self).paths@ == old(self).paths@,
            final(self).term_count == old(self).term_count,
            final(self).nodes@.len() == old(self).nodes@.len(),
            forall|n: int|
                0 <= n < old(self).nodes@.len() ==> {
                    &&& (#[trigger] final(self).nodes@[n]).weight == old(self).nodes@[n].weight
                    &&& final(self).nodes@[n].child_max_weight == old(self).nodes@[n].child_max_weight
                    &&& n != parent_id ==> final(self).nodes@[n] == old(self).nodes@[n]
                },
            final(self).parents@ == old(self).parents@,
            final(self).linked(child_id as int),
            final(self).edges(parent_id as int) == old(self).edges(parent_id as int).insert(
                (key_chars(key), child_id as int),
            ),
            forall|m: int|
                0 < m < old(self).nodes@.len() && old(self).linked(m) ==> #[trigger] final(self).linked(m),
    {
        let c: usize = self.contribution(child_id);
        let pos: usize = self.get_insert_index(parent_id, c);
        let ghost before = self.nodes@;
        self.nodes[parent_id].children.insert(pos, Edge { key, child: child_id });
        proof {
            before[parent_id as int].children@.insert_ensures(pos as int, Edge { key, child: child_id });
            lemma_weighted_count_update(before, self.nodes@, -1);
            assert(pairs(self.nodes@[parent_id as int].children@) =~= pairs(
                before[parent_id as int].children@,
            ).insert(pos as int, (key_chars(key), child_id as int)));
            vstd::seq_lib::to_multiset_insert(
                pairs(before[parent_id as int].children@),
                pos as int,
                (key_chars(key), child_id as int),
            );
            assert(self.nodes@[parent_id as int].children@[pos as int].child == child_id);
            assert forall|m: int| 0 < m < before.len() && old(self).linked(m) implies #[trigger] self.linked(
                m,
            ) by {
                let p = old(self).parents@[m];
                let i = choose|i: int|
                    0 <= i < before[p].children@.len() && (#[trigger] before[p].children@[i]).child
                        == m;
                if p == parent_id && i >= pos {
                    assert(self.nodes@[p].children@[i + 1].child == m);
                } else {
                    assert(self.nodes@[p].children@[i].child == m);
                }
            }
            assert forall|n: int, i: int|
                0 <= n < self.nodes@.len() && 0 <= i < self.nodes@[n].children@.len() implies #[trigger] self.edge_ok(
                n,
                i,
            ) by {
                if n != parent_id {
                    assert(old(self).edge_ok(n, i));
                } else if i < pos {
                    assert(old(self).edge_ok(n, i));
                } else if i > pos {
                    assert(old(self).edge_ok(n, i - 1));
                }
            }
            assert forall|n: int| 0 <= n < self.nodes@.len() implies #[trigger] self.siblings_ok(
                n,
            ) by {
                assert(old(self).siblings_ok(n));
                if n != parent_id {
                    old(self).lemma_siblings_kept(*self, n, -1);
                } else {
                    let was = before[n].children@;
                    let now = self.nodes@[n].children@;
                    assert forall|i: int, j: int| 0 <= i < j < now.len() implies now[i].child
                        != now[j].child && key_chars(now[i].key)[0] != key_chars(now[j].key)[0]
                        && contribution_of(self.nodes@[now[i].child as int]) >= contribution_of(
                        self.nodes@[now[j].child as int],
                    ) by {
                        let a = if i < pos {
                            i
                        } else {
                            i - 1
                        };
                        let b = if j < pos {
                            j
                        } else {
                            j - 1
                        };
                        if i != pos {
                            assert(old(self).edge_ok(n, a));
                        }
                        if j != pos {
                            assert(old(self).edge_ok(n, b));
                        }
                        if pos < was.len() {
                            assert(old(self).edge_ok(n, pos as int));
                        }
                        if i != pos && j != pos {
                            assert(was[a].child != was[b].child);
                        } else if i == pos {
                            assert(was[b].child != child_id);
                            if b > pos {
                                assert(was[pos as int].child != was[b].child);
                            }
                        } else {
                            assert(was[a].child != child_id);
                        }
                    }
                }
            }
        }
    }

    /// Unlinks edge `index` of `parent_id` and returns it.
    fn remove_edge(&mut self, parent_id: usize, index: usize) -> (e: Edge)
        requires
            old(self).shape(),
            parent_id < old(self).nodes@.len(),
            index < old(self).nodes@[parent_id as int].children@.len(),
        ensures
            final(self).shape(),
            e == old(self).nodes@[parent_id as int].children@[index as int],
            final(self).depth@ == old(self).depth@,
            final(self).loose@ == old(self).loose@,
            final(self).slack@ == old(self).slack@,
            final(self).paths@ == old(self).paths@,
            final(self).term_count == old(self).term_count,
            final(self).nodes@.len() == old(self).nodes@.len(),
            forall|n: int|
                0 <= n < old(self).nodes@.len() ==> {
                    &&& (#[trigger] final(self).nodes@[n]).weight == old(self).nodes@[n].weight
                    &&& final(self).nodes@[n].child_max_weight == old(self).nodes@[n].child_max_weight
                    &&& n != parent_id ==> final(self).nodes@[n] == old(self).nodes@[n]
                },
            final(self).parents@ == old(self).parents@,
            final(self).no_edge_to(e.child as int),
            old(self).edges(parent_id as int).count((key_chars(e.key), e.child as int)) > 0,
            final(self).edges(parent_id as int) == old(self).edges(parent_id as int).remove(
                (key_chars(e.key), e.child as int),
            ),
            forall|i: int|
                0 <= i < final(self).nodes@[parent_id as int].children@.len() ==> key_chars(
                    (#[trigger] final(self).nodes@[parent_id as int].children@[i]).key,
                )[0] != key_chars(e.key)[0],
            forall|m: int|
                0 < m < old(self).nodes@.len() && old(self).linked(m) && m != e.child
                    ==> #[trigger] final(self).linked(m),
    {
        let ghost before = self.nodes@;
        let e = self.nodes[parent_id].children.remove(index);
        proof {
            before[parent_id as int].children@.remove_ensures(index as int);
            lemma_weighted_count_update(before, self.nodes@, -1);
            let was = pairs(before[parent_id as int].children@);
            assert(pairs(self.nodes@[parent_id as int].children@) =~= was.remove(index as int));
            vstd::seq_lib::to_multiset_remove(was, index as int);
            assert(was[index as int] == (key_chars(e.key), e.child as int));
            assert(was.contains(was[index as int]));
            vstd::seq_lib::to_multiset_contains(was, was[index as int]);
            assert forall|m: int|
                0 < m < before.len() && old(self).linked(m) && m != e.child implies #[trigger] self.linked(
                m,
            ) by {
                let p = old(self).parents@[m];
                let i = choose|i: int|
                    0 <= i < before[p].children@.len() && (#[trigger] before[p].children@[i]).child
                        == m;
                if p == parent_id && i > index {
                    assert(self.nodes@[p].children@[i - 1].child == m);
                } else {
                    assert(self.nodes@[p].children@[i].child == m);
                }
            }
            assert(old(self).edge_ok(parent_id as int, index as int));
            assert forall|n: int, i: int|
                0 <= n < self.nodes@.len() && 0 <= i < self.nodes@[n].children@.len() implies #[trigger] self.edge_ok(
                n,
                i,
            ) by {
                if n != parent_id {
                    assert(old(self).edge_ok(n, i));
                } else if i < index {
                    assert(old(self).edge_ok(n, i));
                } else {
                    assert(old(self).edge_ok(n, i + 1));
                }
            }
            assert forall|n: int| 0 <= n < self.nodes@.len() implies #[trigger] self.siblings_ok(
                n,
            ) by {
                assert(old(self).siblings_ok(n));
                if n != parent_id {
                    old(self).lemma_siblings_kept(*self, n, -1);
                } else {
                    let was = before[n].children@;
                    let now = self.nodes@[n].children@;
                    assert forall|i: int, j: int| 0 <= i < j < now.len() implies now[i].child
                        != now[j].child && key_chars(now[i].key)[0] != key_chars(now[j].key)[0]
                        && contribution_of(self.nodes@[now[i].child as int]) >= contribution_of(
                        self.nodes@[now[j].child as int],
                    ) by {
                        let a = if i < index {
                            i
                        } else {
                            i + 1
                        };
                        let b = if j < index {
                            j
                        } else {
                            j + 1
                        };
                        assert(old(self).edge_ok(n, a));
                        assert(old(self).edge_ok(n, b));
                        assert(was[a].child != was[b].child);
                    }
                }
            }
            assert forall|n: int, i: int|
                0 <= n < self.nodes@.len() && 0 <= i < self.nodes@[n].children@.len() implies (
            #[trigger] self.nodes@[n].children@[i]).child != e.child by {
                if n != parent_id {
                    assert(old(self).edge_ok(n, i));
                } else {
                    assert(old(self).siblings_ok(n));
                    let was = before[n].children@;
                    if i < index {
                        assert(was[i].child != was[index as int].child);
                    } else {
                        assert(was[index as int].child != was[i + 1].child);
                    }
                }
            }
            assert forall|i: int|
                0 <= i < self.nodes@[parent_id as int].children@.len() implies key_chars(
                (#[trigger] self.nodes@[parent_id as int].children@[i]).key,
            )[0] != key_chars(e.key)[0] by {
                assert(old(self).siblings_ok(parent_id as int));
                let was = before[parent_id as int].children@;
                if i < index {
                    assert(was[i].child != was[index as int].child);
                } else {
                    assert(was[index as int].child != was[i + 1].child);
                }
            }
        }
        e
    }

    /// Raises the subtree bound of child `node_id` of `parent_id` to at least
    /// `new_child_max_weight`, and puts its edge back in contribution order.
    fn update_child_max_weight(
        &mut self,
        parent_id: usize,
        node_id: usize,
        node_index: usize,
        new_child_max_weight: usize,
    )
        requires
            old(self).shape(),
            parent_id < old(self).nodes@.len(),
            node_index < old(self).nodes@[parent_id as int].children@.len(),
            old(self).nodes@[parent_id as int].children@[node_index as int].child == node_id,
            old(self).loose@ == node_id,
            old(self).slack@ == new_child_max_weight,
        ensures
            final(self).loose@ == parent_id,
            final(self).slack@ == new_child_max_weight,
            final(self).shape(),
            final(self).depth@ == old(self).depth@,
            final(self).paths@ == old(self).paths@,
            final(self).term_count == old(self).term_count,
            final(self).nodes@.len() == old(self).nodes@.len(),
            forall|n: int|
                0 <= n < old(self).nodes@.len() ==> {
                    &&& (#[trigger] final(self).nodes@[n]).weight == old(self).nodes@[n].weight
                    &&& n != parent_id && n != node_id ==> final(self).nodes@[n] == old(self).nodes@[n]
                },
            final(self).parents@ == old(self).parents@,
            old(self).rooted() ==> final(self).rooted(),
            final(self).nodes@[node_id as int].children == old(self).nodes@[node_id as int].children,
            final(self).edges(parent_id as int) == old(self).edges(parent_id as int),
            final(self).nodes@[parent_id as int].child_max_weight
                == old(self).nodes@[parent_id as int].child_max_weight,
            new_child_max_weight <= old(self).nodes@[node_id as int].child_max_weight
                ==> final(self).nodes@ == old(self).nodes@,
            final(self).nodes@[node_id as int].child_max_weight == if new_child_max_weight > old(
                self,
            ).nodes@[node_id as int].child_max_weight {
                new_child_max_weight
            } else {
                old(self).nodes@[node_id as int].child_max_weight
            },
    {
        assert(self.edge_ok(parent_id as int, node_index as int));
        if self.nodes[node_id].child_max_weight < new_child_max_weight {
            let e = self.remove_edge(parent_id, node_index);
            let ghost cut = *self;
            let weight = self.nodes[node_id].weight;
            self.set_detached(node_id, weight, new_child_max_weight);
            let ghost raised = *self;
            proof {
                self.loose@ = parent_id as int;
                raised.lemma_loosen(*self);
            }
            let ghost marked = *self;
            self.append_child(parent_id, e.key, node_id);
            proof {
                if old(self).rooted() {
                    assert forall|m: int| 0 < m < self.nodes@.len() implies #[trigger] self.linked(
                        m,
                    ) by {
                        if m != node_id {
                            assert(old(self).linked(m));
                            assert(cut.linked(m));
                            assert(raised.linked(m));
                            assert(marked.linked(m)) by {
                                let p = raised.parents@[m];
                                let i = choose|i: int|
                                    0 <= i < raised.nodes@[p].children@.len() && (
                                    #[trigger] raised.nodes@[p].children@[i]).child == m;
                                assert(marked.nodes@[p].children@[i].child == m);
                            }
                        }
                    }
                }
            }
        } else {
            let ghost marked = *self;
            proof {
                self.loose@ = parent_id as int;
                marked.lemma_loosen(*self);
            }
        }
    }

    /// Gives node `id`, to which no edge leads at this moment, a weight and a
    /// subtree bound no smaller than it had.
    fn set_detached(&mut self, id: usize, weight: Option<usize>, child_max_weight: usize)
        requires
            old(self).shape(),
            0 < id < old(self).nodes@.len(),
            old(self).no_edge_to(id as int),
            old(self).nodes@[id as int].child_max_weight <= child_max_weight,
            old(self).nodes@[id as int].weight.is_some() ==> weight.is_some(),
        ensures
            final(self).shape(),
            final(self).no_edge_to(id as int),
            final(self).depth@ == old(self).depth@,
            final(self).loose@ == old(self).loose@,
            final(self).slack@ == old(self).slack@,
            final(self).paths@ == old(self).paths@,
            final(self).parents@ == old(self).parents@,
            final(self).nodes@.len() == old(self).nodes@.len(),
            final(self).nodes@[id as int].weight == weight,
            final(self).nodes@[id as int].child_max_weight == child_max_weight,
            final(self).nodes@[id as int].children == old(self).nodes@[id as int].children,
            forall|n: int|
                0 <= n < old(self).nodes@.len() && n != id ==> #[trigger] final(self).nodes@[n] == old(
                    self,
                ).nodes@[n],
            final(self).term_count == old(self).term_count + if old(self).nodes@[id as int].weight.is_none()
                && weight.is_some() {
                1nat
            } else {
                0nat
            },
            forall|m: int|
                0 < m < old(self).nodes@.len() && old(self).linked(m) ==> #[trigger] final(self).linked(m),
    {
        let ghost before = self.nodes@;
        let had = self.nodes[id].weight.is_some();
        self.nodes[id].weight = weight;
        self.nodes[id].child_max_weight = child_max_weight;
        proof {
            lemma_weighted_count_update(before, self.nodes@, id as int);
            lemma_weighted_count_update(self.nodes@, self.nodes@, -1);
        }
        let total: usize = self.nodes.len();
        assert(self.term_count <= total);
        if !had && weight.is_some() {
            self.term_count = self.term_count + 1;
        }
        proof {
            assert forall|n: int, i: int|
                0 <= n < self.nodes@.len() && 0 <= i < self.nodes@[n].children@.len() implies #[trigger] self.edge_ok(
                n,
                i,
            ) by {
                assert(old(self).edge_ok(n, i));
                assert(before[n].children@[i].child != id);
            }
            assert forall|n: int, i: int|
                0 <= n < self.nodes@.len() && 0 <= i < self.nodes@[n].children@.len() implies (
            #[trigger] self.nodes@[n].children@[i]).child != id by {
                assert(before[n].children@[i].child != id);
            }
            assert forall|n: int| 0 <= n < self.nodes@.len() implies #[trigger] self.siblings_ok(
                n,
            ) by {
                assert forall|i: int| 0 <= i < before[n].children@.len() implies (
                #[trigger] before[n].children@[i]).child != id by {}
                old(self).lemma_siblings_kept(*self, n, id as int);
            }
            assert forall|m: int| 0 < m < before.len() && old(self).linked(m) implies #[trigger] self.linked(
                m,
            ) by {
                let p = old(self).parents@[m];
                let i = choose|i: int|
                    0 <= i < before[p].children@.len() && (#[trigger] before[p].children@[i]).child
                        == m;
                assert(self.nodes@[p].children@[i].child == m);
            }
        }
    }

    /// Inserts `term` below node `curr_id` and returns the total weight now
    /// stored for it.
    fn add_term(&mut self, curr_id: usize, term: &str, weight: usize) -> (r: usize)
        requires
            old(self).shape(),
            old(self).rooted(),
            old(self).slack@ == 0,
            old(self).owns(curr_id as int),
            curr_id < old(self).nodes@.len(),
            term@.len() > 0,
            old(self).paths@[curr_id as int].len() + term@.len() <= old(self).depth@,
        ensures
            final(self).shape(),
            final(self).rooted(),
            final(self).loose@ == curr_id,
            final(self).slack@ == r,
            final(self).nodes@[curr_id as int].weight == old(self).nodes@[curr_id as int].weight,
            final(self).nodes@[curr_id as int].child_max_weight
                == old(self).nodes@[curr_id as int].child_max_weight,
            old(self).no_child_shares(curr_id as int, term@) ==> final(self).after_no_match(
                *old(self),
                curr_id as int,
                term@,
                weight,
            ),
            forall|index: int, common: int| #[trigger]
                old(self).meets(curr_id as int, term@, index, common) ==> final(self).after_found(
                    *old(self),
                    curr_id as int,
                    term@,
                    weight,
                    r,
                    index,
                    common,
                ),
            r == accumulated(old(self).stored(old(self).paths@[curr_id as int] + term@), weight),
            final(self).term_count == old(self).term_count + if old(self).stored(
                old(self).paths@[curr_id as int] + term@,
            ).is_none() {
                1nat
            } else {
                0nat
            },
            final(self).depth@ == old(self).depth@,
            final(self).nodes@.len() >= old(self).nodes@.len(),
            old(self).term_count <= final(self).term_count <= old(self).term_count + 1,
            final(self).holds(old(self).paths@[curr_id as int] + term@, r),
            final(self).keeps(*old(self), curr_id as int, term@, weight, r),
            forall|n: int|
                old(self).nodes@.len() <= n < final(self).nodes@.len() ==> {
                    ||| (#[trigger] final(self).nodes@[n]).weight.is_none()
                    ||| {
                        &&& final(self).paths@[n] == old(self).paths@[curr_id as int] + term@
                        &&& final(self).nodes@[n].weight == Some(r)
                        &&& r == weight
                        &&& final(self).term_count == old(self).term_count + 1
                    }
                },
        decreases term@.len(),
    {
        let ghost base = self.paths@[curr_id as int];
        let ghost full = base + term@;
        let term_len: usize = term.unicode_len();
        match self.match_children(curr_id, term) {
            NodeMatch::NoMatch => {
                proof {
                    assert forall|m: int| 0 <= m < self.nodes@.len() implies #[trigger] self.paths@[m]
                        != full by {
                        if self.paths@[m] == full {
                            let j = self.lemma_way_down(curr_id as int, m, term@);
                            assert(shares_first(
                                term@,
                                key_chars(self.nodes@[curr_id as int].children@[j].key),
                            ));
                        }
                    }
                    old(self).lemma_absent(full);
                    self.loose@ = curr_id as int;
                    self.slack@ = weight;
                    old(self).lemma_loosen(*self);
                }
                let ghost marked = *self;
                let node_id = self.make_node(
                    Vec::new(),
                    Some(weight),
                    0,
                    Ghost(full),
                    Ghost(curr_id as int),
                );
                let ghost made = *self;
                proof {
                    assert forall|i: int|
                        0 <= i < self.nodes@[curr_id as int].children@.len() implies (
                    #[trigger] self.nodes@[curr_id as int].children@[i]).child != node_id
                        && key_chars(self.nodes@[curr_id as int].children@[i].key)[0] != term@[0] by {
                        assert(marked.edge_ok(curr_id as int, i));
                        assert(!shares_first(
                            term@,
                            key_chars(old(self).nodes@[curr_id as int].children@[i].key),
                        ));
                    }
                }
                self.append_child(curr_id, key_new(term), node_id);
                proof {
                    assert forall|m: int| 0 < m < self.nodes@.len() implies #[trigger] self.linked(
                        m,
                    ) by {
                        if m != node_id {
                            assert(marked.linked(m));
                            assert(made.linked(m));
                        }
                    }
                }
                assert(self.paths@[node_id as int] == full);
                assert(self.keeps(*old(self), curr_id as int, term@, weight, weight));
                proof {
                    assert forall|i2: int, c2: int| #[trigger]
                        old(self).meets(curr_id as int, term@, i2, c2) implies self.after_found(
                        *old(self),
                        curr_id as int,
                        term@,
                        weight,
                        weight,
                        i2,
                        c2,
                    ) by {
                        assert(shares_first(
                            term@,
                            key_chars(old(self).nodes@[curr_id as int].children@[i2].key),
                        ));
                    }
                    assert(self.after_no_match(*old(self), curr_id as int, term@, weight));
                }
                weight
            },
            NodeMatch::Found { kind, index, common } => {
                assert(self.edge_ok(curr_id as int, index as int));
                let node_id: usize = self.nodes[curr_id].children[index].child;
                let ghost key = key_chars(self.nodes@[curr_id as int].children@[index as int].key);
                match kind {
                    MatchKind::Equal => {
                        let r: usize = match self.nodes[node_id].weight {
                            Some(w) => if w > usize::MAX - weight {
                                usize::MAX
                            } else {
                                w + weight
                            },
                            None => weight,
                        };
                        let bound: usize = self.nodes[node_id].child_max_weight;
                        proof {
                            assert(key =~= term@);
                            old(self).lemma_present(node_id as int);
                            self.loose@ = curr_id as int;
                            self.slack@ = r;
                            old(self).lemma_loosen(*self);
                        }
                        let ghost marked = *self;
                        let e = self.remove_edge(curr_id, index);
                        let ghost cut = *self;
                        self.set_detached(node_id, Some(r), bound);
                        let ghost set = *self;
                        self.append_child(curr_id, e.key, node_id);
                        proof {
                            assert forall|m: int| 0 < m < self.nodes@.len() implies #[trigger] self.linked(
                                m,
                            ) by {
                                if m != node_id {
                                    assert(marked.linked(m));
                                    assert(cut.linked(m));
                                    assert(set.linked(m));
                                }
                            }
                            assert(self.paths@[node_id as int] == full);
                            assert forall|n: int| 0 <= n < old(self).nodes@.len() implies #[trigger] self.kept_at(
                                *old(self),
                                n,
                                curr_id as int,
                                term@,
                                weight,
                                r,
                            ) by {
                                assert(cut.nodes@[n].weight == marked.nodes@[n].weight);
                                if n != node_id {
                                    assert(set.nodes@[n] == cut.nodes@[n]);
                                }
                                assert(self.nodes@[n].weight == set.nodes@[n].weight);
                            }
                            assert(self.keeps(*old(self), curr_id as int, term@, weight, r));
                            assert(old(self).meets(curr_id as int, term@, index as int, common as int));
                            old(self).lemma_meets_once(
                                curr_id as int,
                                term@,
                                index as int,
                                common as int,
                                index as int,
                                common as int,
                            );
                            assert(key =~= term@);
                            assert(self.edges(curr_id as int) =~= old(self).edges(curr_id as int)) by {
                                assert(marked.edges(curr_id as int) == old(self).edges(curr_id as int));
                                assert(set.nodes@[curr_id as int] == cut.nodes@[curr_id as int]);
                                assert(set.edges(curr_id as int) == cut.edges(curr_id as int));
                            }
                            assert forall|n: int|
                                0 <= n < old(self).nodes@.len() && n != curr_id && n != node_id implies #[trigger] self.nodes@[n]
                                == old(self).nodes@[n] by {
                                assert(cut.nodes@[n] == marked.nodes@[n]);
                                assert(set.nodes@[n] == cut.nodes@[n]);
                            }
                            assert(self.after_found(
                                *old(self),
                                curr_id as int,
                                term@,
                                weight,
                                r,
                                index as int,
                                common as int,
                            ));
                            assert forall|i2: int, c2: int| #[trigger]
                                old(self).meets(curr_id as int, term@, i2, c2) implies self.after_found(
                                *old(self),
                                curr_id as int,
                                term@,
                                weight,
                                r,
                                i2,
                                c2,
                            ) by {
                                old(self).lemma_meets_once(
                                    curr_id as int,
                                    term@,
                                    index as int,
                                    common as int,
                                    i2,
                                    c2,
                                );
                            }
                        }
                        r
                    },
                    MatchKind::IsShorter => {
                        let old_key = key_as_str(&self.nodes[curr_id].children[index].key);
                        let key_len: usize = old_key.unicode_len();
                        let rest_key = key_new(old_key.substring_char(common, key_len));
                        let bound: usize = self.contribution(node_id);
                        let mut kids: Vec<Edge> = Vec::new();
                        kids.push(Edge { key: rest_key, child: node_id });
                        proof {
                            assert(key =~= term@ + key.subrange(common as int, key_len as int));
                            assert(base + key =~= full + key.subrange(common as int, key_len as int));
                        }
                        proof {
                            assert forall|m: int| 0 <= m < self.nodes@.len() implies #[trigger] self.paths@[m]
                                != full by {
                                if self.paths@[m] == full {
                                    let j = self.lemma_way_down(curr_id as int, m, term@);
                                    assert(self.siblings_ok(curr_id as int));
                                    assert(j == index);
                                }
                            }
                            old(self).lemma_absent(full);
                            self.loose@ = curr_id as int;
                            self.slack@ = weight;
                            old(self).lemma_loosen(*self);
                        }
                        let ghost marked = *self;
                        let _ = self.remove_edge(curr_id, index);
                        let ghost cut = *self;
                        let ghost kid_list = kids@;
                        let new_id = self.make_node(
                            kids,
                            Some(weight),
                            bound,
                            Ghost(full),
                            Ghost(curr_id as int),
                        );
                        let ghost made = *self;
                        proof {
                            assert forall|i: int|
                                0 <= i < self.nodes@[curr_id as int].children@.len() implies (
                            #[trigger] self.nodes@[curr_id as int].children@[i]).child != new_id
                                && key_chars(self.nodes@[curr_id as int].children@[i].key)[0]
                                != term@[0] by {
                                assert(cut.edge_ok(curr_id as int, i));
                                assert(key_chars(cut.nodes@[curr_id as int].children@[i].key)[0]
                                    != key[0]);
                            }
                        }
                        self.append_child(curr_id, key_new(term), new_id);
                        proof {
                            assert forall|m: int| 0 < m < self.nodes@.len() implies #[trigger] self.linked(
                                m,
                            ) by {
                                if m != new_id {
                                    assert(kid_list[0].child == node_id);
                                    if m != node_id {
                                        assert(marked.linked(m));
                                        assert(cut.linked(m));
                                        assert(!is_kid(kid_list, m));
                                    }
                                    assert(made.linked(m));
                                }
                            }
                        }
                        assert(self.paths@[new_id as int] == full);
                        assert(self.keeps(*old(self), curr_id as int, term@, weight, weight));
                        proof {
                            assert(old(self).meets(curr_id as int, term@, index as int, common as int));
                            old(self).lemma_meets_once(
                                curr_id as int,
                                term@,
                                index as int,
                                common as int,
                                index as int,
                                common as int,
                            );
                            assert(pairs(self.nodes@[new_id as int].children@) =~= Seq::<(Seq<char>, int)>::empty().push(
                                (key.subrange(common as int, key.len() as int), node_id as int),
                            ));
                            assert(self.after_found(
                                *old(self),
                                curr_id as int,
                                term@,
                                weight,
                                weight,
                                index as int,
                                common as int,
                            ));
                            assert forall|i2: int, c2: int| #[trigger]
                                old(self).meets(curr_id as int, term@, i2, c2) implies self.after_found(
                                *old(self),
                                curr_id as int,
                                term@,
                                weight,
                                weight,
                                i2,
                                c2,
                            ) by {
                                old(self).lemma_meets_once(
                                    curr_id as int,
                                    term@,
                                    index as int,
                                    common as int,
                                    i2,
                                    c2,
                                );
                            }
                        }
                        weight
                    },
                    MatchKind::IsLonger => {
                        let rest = term.substring_char(common, term_len);
                        proof {
                            assert(term@ =~= key + rest@);
                            assert(self.paths@[node_id as int] + rest@ =~= full);
                            self.lemma_owns_child(curr_id as int, index as int);
                        }
                        let ghost before = self.nodes@;
                        let r = self.add_term(node_id, rest, weight);
                        proof {
                            assert(self.kept_at(
                                *old(self),
                                curr_id as int,
                                node_id as int,
                                rest@,
                                weight,
                                r,
                            ));
                        }
                        let ghost mid = *self;
                        self.update_child_max_weight(curr_id, node_id, index, r);
                        proof {
                            let x = choose|x: int|
                                0 <= x < self.nodes@.len() && #[trigger] self.paths@[x] == full
                                    && self.nodes@[x].weight == Some(r);
                            assert(self.paths@[x] == full);
                            assert forall|n: int| 0 <= n < before.len() implies #[trigger] self.kept_at(
                                *old(self),
                                n,
                                curr_id as int,
                                term@,
                                weight,
                                r,
                            ) by {
                                assert(mid.kept_at(*old(self), n, node_id as int, rest@, weight, r));
                            }
                            assert(self.keeps(*old(self), curr_id as int, term@, weight, r));
                            assert(mid.kept_at(
                                *old(self),
                                curr_id as int,
                                node_id as int,
                                rest@,
                                weight,
                                r,
                            ));
                            assert(mid.edges(curr_id as int) == old(self).edges(curr_id as int));
                            assert(old(self).meets(curr_id as int, term@, index as int, common as int));
                            old(self).lemma_meets_once(
                                curr_id as int,
                                term@,
                                index as int,
                                common as int,
                                index as int,
                                common as int,
                            );
                            
                            assert(self.after_found(
                                *old(self),
                                curr_id as int,
                                term@,
                                weight,
                                r,
                                index as int,
                                common as int,
                            ));
                            assert forall|i2: int, c2: int| #[trigger]
                                old(self).meets(curr_id as int, term@, i2, c2) implies self.after_found(
                                *old(self),
                                curr_id as int,
                                term@,
                                weight,
                                r,
                                i2,
                                c2,
                            ) by {
                                old(self).lemma_meets_once(
                                    curr_id as int,
                                    term@,
                                    index as int,
                                    common as int,
                                    i2,
                                    c2,
                                );
                            }
                        }
                        r
                    },
                    MatchKind::CommonSubstring => {
                        let old_key = key_as_str(&self.nodes[curr_id].children[index].key);
                        let key_len: usize = old_key.unicode_len();
                        let rest_key = key_new(old_key.substring_char(common, key_len));
                        let head = key_new(term.substring_char(0, common));
                        let rest_term = key_new(term.substring_char(common, term_len));
                        let below: usize = self.contribution(node_id);
                        let bound: usize = if below > weight {
                            below
                        } else {
                            weight
                        };
                        let ghost fork_path = base + term@.subrange(0, common as int);
                        let mut kids: Vec<Edge> = Vec::new();
                        kids.push(Edge { key: rest_key, child: node_id });
                        proof {
                            assert(key.subrange(0, common as int) =~= term@.subrange(0, common as int));
                            assert(key =~= key.subrange(0, common as int) + key.subrange(
                                common as int,
                                key_len as int,
                            ));
                            assert(base + key =~= fork_path + key.subrange(
                                common as int,
                                key_len as int,
                            ));
                            assert(full =~= fork_path + term@.subrange(
                                common as int,
                                term_len as int,
                            ));
                        }
                        let ghost fork_at: int = self.nodes@.len() as int + 1;
                        proof {
                            assert forall|m: int| 0 <= m < self.nodes@.len() implies #[trigger] self.paths@[m]
                                != full && self.paths@[m] != fork_path by {
                                if self.paths@[m] == full {
                                    let j = self.lemma_way_down(curr_id as int, m, term@);
                                    assert(self.siblings_ok(curr_id as int));
                                    assert(j == index);
                                    assert(term@.subrange(0, key.len() as int)[common as int]
                                        == key[common as int]);
                                }
                                if self.paths@[m] == fork_path {
                                    let j = self.lemma_way_down(
                                        curr_id as int,
                                        m,
                                        term@.subrange(0, common as int),
                                    );
                                    assert(self.siblings_ok(curr_id as int));
                                    assert(j == index);
                                }
                            }
                            assert(fork_path.len() != full.len());
                            old(self).lemma_absent(full);
                            self.loose@ = curr_id as int;
                            self.slack@ = weight;
                            old(self).lemma_loosen(*self);
                        }
                        let ghost marked = *self;
                        let _ = self.remove_edge(curr_id, index);
                        let ghost s0 = *self;
                        let leaf_id = self.make_node(
                            Vec::new(),
                            Some(weight),
                            0,
                            Ghost(full),
                            Ghost(fork_at),
                        );
                        let ghost s1 = *self;
                        proof {
                            assert forall|n: int, i: int|
                                0 <= n < self.nodes@.len() && 0 <= i
                                    < self.nodes@[n].children@.len() implies (
                            #[trigger] self.nodes@[n].children@[i]).child != node_id by {
                                if n < leaf_id {
                                    assert(s0.nodes@[n].children@[i].child != node_id);
                                }
                            }
                        }
                        let ghost kid_list = kids@;
                        let fork_id = self.make_node(
                            kids,
                            None,
                            bound,
                            Ghost(fork_path),
                            Ghost(curr_id as int),
                        );
                        let ghost s2 = *self;
                        self.append_child(fork_id, rest_term, leaf_id);
                        let ghost s3 = *self;
                        proof {
                            assert forall|i: int|
                                0 <= i < self.nodes@[curr_id as int].children@.len() implies (
                            #[trigger] self.nodes@[curr_id as int].children@[i]).child != fork_id
                                && key_chars(self.nodes@[curr_id as int].children@[i].key)[0]
                                != term@[0] by {
                                assert(s0.edge_ok(curr_id as int, i));
                                assert(key_chars(s0.nodes@[curr_id as int].children@[i].key)[0]
                                    != key[0]);
                            }
                        }
                        self.append_child(curr_id, head, fork_id);
                        proof {
                            assert forall|m: int| 0 < m < self.nodes@.len() implies #[trigger] self.linked(
                                m,
                            ) by {
                                if m != fork_id {
                                    if m != leaf_id {
                                        assert(kid_list[0].child == node_id);
                                        if m != node_id {
                                            assert(marked.linked(m));
                                            assert(s0.linked(m));
                                            assert(s1.linked(m));
                                            assert(!is_kid(kid_list, m));
                                        }
                                        assert(s2.linked(m));
                                    }
                                    assert(s3.linked(m));
                                }
                            }
                        }
                        assert(self.paths@[leaf_id as int] == full);
                        assert(self.keeps(*old(self), curr_id as int, term@, weight, weight));
                        proof {
                            assert(old(self).meets(curr_id as int, term@, index as int, common as int));
                            old(self).lemma_meets_once(
                                curr_id as int,
                                term@,
                                index as int,
                                common as int,
                                index as int,
                                common as int,
                            );
                            let one = Seq::<(Seq<char>, int)>::empty();
                            assert(pairs(s2.nodes@[fork_id as int].children@) =~= one.push(
                                (key.subrange(common as int, key.len() as int), node_id as int),
                            ));
                            vstd::seq_lib::to_multiset_build(
                                one,
                                (key.subrange(common as int, key.len() as int), node_id as int),
                            );
                            assert(one.to_multiset() =~= Multiset::<(Seq<char>, int)>::empty()) by {
                                vstd::seq_lib::to_multiset_len(one);
                            }
                            assert(self.after_found(
                                *old(self),
                                curr_id as int,
                                term@,
                                weight,
                                weight,
                                index as int,
                                common as int,
                            ));
                            assert forall|i2: int, c2: int| #[trigger]
                                old(self).meets(curr_id as int, term@, i2, c2) implies self.after_found(
                                *old(self),
                                curr_id as int,
                                term@,
                                weight,
                                weight,
                                i2,
                                c2,
                            ) by {
                                old(self).lemma_meets_once(
                                    curr_id as int,
                                    term@,
                                    index as int,
                                    common as int,
                                    i2,
                                    c2,
                                );
                            }
                        }
                        weight
                    },
                }
            },
        }
    }

    /// Add a completion to the dictionary: a first insertion of `term` stores
    /// it with `weight`, a later one adds `weight` to what is stored, up to
    /// the largest representable weight.
    pub fn add_completion(&mut self, term: &str, weight: usize)
        requires
            old(self).wf(),
            term@.len() > 0,
        ensures
            final(self).wf(),
            final(self).is_insertion_into(*old(self), term@, weight),
    {
        let term_len: usize = term.unicode_len();
        proof {
            if self.depth@ < term_len {
                self.depth@ = term_len as nat;
            }
            assert forall|n: int, i: int|
                0 <= n < self.nodes@.len() && 0 <= i < self.nodes@[n].children@.len() implies #[trigger] self.edge_ok(
                n,
                i,
            ) by {
                assert(old(self).edge_ok(n, i));
            }
            assert(self.paths@[0] + term@ =~= term@);
            assert forall|n: int| 0 <= n < self.nodes@.len() implies #[trigger] self.siblings_ok(
                n,
            ) by {
                old(self).lemma_siblings_kept(*self, n, -1);
            }
            assert forall|m: int| 0 < m < self.nodes@.len() implies #[trigger] self.linked(m) by {
                assert(old(self).linked(m));
                let p = old(self).parents@[m];
                let i = choose|i: int|
                    0 <= i < old(self).nodes@[p].children@.len() && (#[trigger] old(
                        self,
                    ).nodes@[p].children@[i]).child == m;
                assert(self.nodes@[p].children@[i].child == m);
            }
        }
        let ghost before = *self;
        proof {
            assert forall|m: int|
                0 <= m < self.nodes@.len() && is_prefix(self.paths@[0], #[trigger] self.paths@[m]) implies self.under(
                0,
                m,
            ) by {
                self.lemma_under_root(m);
            }
        }
        let r = self.add_term(0, term, weight);
        let ghost mid = *self;
        if self.nodes[0].child_max_weight < r {
            self.nodes[0].child_max_weight = r;
        }
        proof {
            self.slack@ = 0;
            lemma_weighted_count_update(mid.nodes@, self.nodes@, -1);
            assert forall|n: int, i: int|
                0 <= n < self.nodes@.len() && 0 <= i < self.nodes@[n].children@.len() implies #[trigger] self.edge_ok(
                n,
                i,
            ) by {
                assert(mid.edge_ok(n, i));
            }
            assert forall|n: int| 0 <= n < self.nodes@.len() implies #[trigger] self.siblings_ok(
                n,
            ) by {
                assert forall|i: int| 0 <= i < mid.nodes@[n].children@.len() implies (
                #[trigger] mid.nodes@[n].children@[i]).child != 0 by {
                    assert(mid.edge_ok(n, i));
                }
                mid.lemma_siblings_kept(*self, n, 0);
            }
            assert forall|m: int| 0 < m < self.nodes@.len() implies #[trigger] self.linked(m) by {
                assert(mid.linked(m));
                let p = mid.parents@[m];
                let i = choose|i: int|
                    0 <= i < mid.nodes@[p].children@.len() && (#[trigger] mid.nodes@[p].children@[i]).child
                        == m;
                assert(self.nodes@[p].children@[i].child == m);
            }
            let x = choose|x: int|
                0 <= x < mid.nodes@.len() && #[trigger] mid.paths@[x] == term@ && mid.nodes@[x].weight
                    == Some(r);
            assert(self.paths@[x] == term@ && self.nodes@[x].weight == Some(r));
            assert(self.holds(term@, r));
            old(self).lemma_stored_same(before, term@);
            assert forall|t: Seq<char>, w: usize| #[trigger] self.holds(t, w) <==> if t == term@ {
                w == accumulated(old(self).stored(term@), weight)
            } else {
                old(self).holds(t, w)
            } by {
                old(self).lemma_stored_same(before, t);
                if self.holds(t, w) {
                    if t == term@ {
                        self.lemma_stored_at_most_once(term@, w, r);
                    } else {
                        let n = choose|n: int|
                            0 <= n < self.nodes@.len() && #[trigger] self.paths@[n] == t
                                && self.nodes@[n].weight == Some(w);
                        assert(mid.nodes@[n].weight == Some(w));
                        if n < before.nodes@.len() {
                            assert(mid.kept_at(before, n, 0, term@, weight, r));
                            assert(before.paths@[n] == t && before.nodes@[n].weight == Some(w));
                            assert(before.holds(t, w));
                        }
                    }
                }
                if t != term@ && old(self).holds(t, w) {
                    let n = choose|n: int|
                        0 <= n < before.nodes@.len() && #[trigger] before.paths@[n] == t
                            && before.nodes@[n].weight == Some(w);
                    assert(mid.kept_at(before, n, 0, term@, weight, r));
                    assert(self.paths@[n] == t && self.nodes@[n].weight == Some(w));
                }
            }
            let top = old(self).nodes@[0].child_max_weight;
            assert(mid.nodes@[0].child_max_weight == top);
            if r < top {
                assert(old(self).top_ok());
                assert(old(self).holds(term@, r) || !old(self).holds(term@, r));
                let t0 = choose|t: Seq<char>| #[trigger] old(self).holds(t, top);
                assert(old(self).holds(t0, top));
                if t0 == term@ {
                    let w0 = choose|w: usize| old(self).holds(term@, w);
                    old(self).lemma_stored_at_most_once(term@, w0, top);
                }
                assert(self.holds(t0, top));
            }
        }
    }

    /// `(term, weight)` is stored at a node strictly below `n`, and the term
    /// begins with `target`.
    spec fn from_below(&self, n: int, target: Seq<char>, term: Seq<char>, weight: usize) -> bool {
        exists|m: int|
            0 <= m < self.nodes@.len() && m != n && #[trigger] self.under(n, m) && self.paths@[m]
                == term && self.nodes@[m].weight == Some(weight) && is_prefix(target, term)
    }

    /// Every entry of `now` was listed in `was` or is stored strictly below
    /// `n` under a term that begins with `target`.
    spec fn only_from(
        &self,
        was: Seq<Completion>,
        now: Seq<Completion>,
        n: int,
        target: Seq<char>,
    ) -> bool {
        forall|i: int|
            0 <= i < now.len() ==> crate::completion::listed(
                was,
                entry(#[trigger] now[i]).0,
                entry(now[i]).1,
            ) || self.from_below(n, target, entry(now[i]).0, entry(now[i]).1)
    }

    /// What hangs below a child of `n` hangs below `n`.
    proof fn lemma_under_child(&self, n: int, c: int, m: int)
        requires
            self.sound(),
            0 <= n < self.nodes@.len(),
            0 < c < self.nodes@.len(),
            0 <= m < self.nodes@.len(),
            self.parents@[c] == n,
            self.under(c, m),
        ensures
            self.under(n, m),
            m != n,
        decreases self.paths@[m].len(),
    {
        self.lemma_parent_path(c);
        self.lemma_under_prefix(c, m);
        if m == c {
            assert(self.under(n, n));
        } else {
            self.lemma_parent_path(m);
            self.lemma_under_child(n, c, self.parents@[m]);
        }
    }

    /// What is stored at or below a child `c` of `n`, under a target that
    /// begins with the target of `n`, is stored below `n`.
    proof fn lemma_from_child(
        &self,
        n: int,
        c: int,
        target_c: Seq<char>,
        target_n: Seq<char>,
        term: Seq<char>,
        weight: usize,
    )
        requires
            self.sound(),
            0 <= n < self.nodes@.len(),
            0 < c < self.nodes@.len(),
            self.parents@[c] == n,
            is_prefix(target_n, target_c),
            self.from_below(c, target_c, term, weight) || (self.paths@[c] == term
                && self.nodes@[c].weight == Some(weight) && is_prefix(target_c, term)),
        ensures
            self.from_below(n, target_n, term, weight),
    {
        assert(term.subrange(0, target_n.len() as int) =~= target_c.subrange(
            0,
            target_n.len() as int,
        ));
        if self.from_below(c, target_c, term, weight) {
            let m = choose|m: int|
                0 <= m < self.nodes@.len() && m != c && #[trigger] self.under(c, m) && self.paths@[m]
                    == term && self.nodes@[m].weight == Some(weight) && is_prefix(target_c, term);
            self.lemma_under_child(n, c, m);
            assert(self.under(n, m));
        } else {
            assert(self.under(c, c));
            self.lemma_under_child(n, c, c);
            assert(self.under(n, c));
        }
    }

    /// The list `s` accounts for every weighted node that is `c` or hangs
    /// below it, and whose path begins with `target`.
    spec fn covers_under(
        &self,
        s: Seq<Completion>,
        limit: Option<usize>,
        c: int,
        target: Seq<char>,
    ) -> bool {
        forall|m: int|
            0 <= m < self.nodes@.len() && #[trigger] self.under(c, m) && self.nodes@[m].weight.is_some()
                && is_prefix(target, self.paths@[m]) ==> covered(
                s,
                limit,
                self.paths@[m],
                self.nodes@[m].weight.unwrap(),
            )
    }

    /// What a list accounts for under a node, a list that keeps every
    /// account accounts for too.
    proof fn lemma_covers_under_kept(
        &self,
        a: Seq<Completion>,
        b: Seq<Completion>,
        limit: Option<usize>,
        c: int,
        target: Seq<char>,
    )
        requires
            self.covers_under(a, limit, c, target),
            Self::keeps_covered(a, b, limit),
        ensures
            self.covers_under(b, limit, c, target),
    {
        assert forall|m: int|
            0 <= m < self.nodes@.len() && #[trigger] self.under(c, m) && self.nodes@[m].weight.is_some()
                && is_prefix(target, self.paths@[m]) implies covered(
            b,
            limit,
            self.paths@[m],
            self.nodes@[m].weight.unwrap(),
        ) by {
            assert(covered(a, limit, self.paths@[m], self.nodes@[m].weight.unwrap()));
        }
    }

    /// A full ranked list whose last entry weighs `worst` holds nothing
    /// lighter than `worst`.
    proof fn lemma_full_list(s: Seq<Completion>, worst: usize)
        requires
            ranked(s),
            s.len() > 0,
            worst == entry(s[s.len() - 1]).1,
        ensures
            forall|i: int| 0 <= i < s.len() ==> entry(#[trigger] s[i]).1 >= worst,
    {
        assert forall|i: int| 0 <= i < s.len() implies entry(#[trigger] s[i]).1 >= worst by {
            if i < s.len() - 1 {
                assert(crate::completion::rank_before(entry(s[i]), entry(s[s.len() - 1])));
            }
        }
    }

    /// No node under a child whose fragment parts from `prefix` has a path
    /// that continues `base + prefix`.
    proof fn lemma_parted(
        &self,
        c: int,
        m: int,
        base: Seq<char>,
        key: Seq<char>,
        prefix: Seq<char>,
        common: int,
    )
        requires
            self.sound(),
            0 <= c < self.nodes@.len(),
            0 <= m < self.nodes@.len(),
            self.under(c, m),
            self.paths@[c] == base + key,
            is_common_len(prefix, key, common),
            common < prefix.len(),
            common < key.len(),
        ensures
            !is_prefix(base + prefix, self.paths@[m]),
    {
        self.lemma_under_prefix(c, m);
        let full = self.paths@[m];
        if is_prefix(base + prefix, full) {
            let at = base.len() + common;
            assert(full.subrange(0, (base + key).len() as int)[at] == (base + key)[at]);
            assert(full.subrange(0, (base + prefix).len() as int)[at] == (base + prefix)[at]);
            assert((base + key)[at] == key[common]);
            assert((base + prefix)[at] == prefix[common]);
        }
    }

    /// Walks the subtree of `node_id`, whose path is `matched_prefix`, and
    /// offers to `results` the terms below it that continue with `prefix`.
    /// Children stand in order of contribution, so at the first child whose
    /// weight and subtree bound are below the lightest entry of a full
    /// result list the walk of this node ends.
    fn find_all_child_terms<'a>(
        &'a self,
        node_id: usize,
        prefix: &str,
        matched_prefix: &str,
        top_k: Option<usize>,
        results: &mut Vec<Completion<'a>>,
        Ghost(target): Ghost<Seq<char>>,
    )
        requires
            self.sound(),
            node_id < self.nodes@.len(),
            self.paths@[node_id as int] == matched_prefix@,
            is_prefix(target, matched_prefix@ + prefix@),
            top_k != Some(0usize),
            ranked(old(results)@),
            within(old(results)@, top_k),
            self.all_found(old(results)@, target),
        ensures
            ranked(final(results)@),
            within(final(results)@, top_k),
            self.all_found(final(results)@, target),
            Self::keeps_covered(old(results)@, final(results)@, top_k),
            self.covers_below(final(results)@, top_k, node_id as int, matched_prefix@ + prefix@),
            self.only_from(
                old(results)@,
                final(results)@,
                node_id as int,
                matched_prefix@ + prefix@,
            ),
        decreases self.depth@ - self.paths@[node_id as int].len(),
    {
        let node = &self.nodes[node_id];
        let ghost wanted = matched_prefix@ + prefix@;
        if Some(results.len()) == top_k && node.child_max_weight < *results[results.len()
            - 1].count {
            proof {
                Self::lemma_full_list(results@, *results@[results@.len() - 1].count);
                assert forall|m: int|
                    0 <= m < self.nodes@.len() && m != node_id && #[trigger] self.under(
                        node_id as int,
                        m,
                    ) && self.nodes@[m].weight.is_some() && is_prefix(
                        wanted,
                        self.paths@[m],
                    ) implies covered(
                    results@,
                    top_k,
                    self.paths@[m],
                    self.nodes@[m].weight.unwrap(),
                ) by {
                    self.lemma_bound(node_id as int, m);
                }
            }
            return ;
        }
        let prefix_len: usize = prefix.unicode_len();
        let mut i: usize = 0;
        while i < node.children.len()
            invariant
                self.sound(),
                node_id < self.nodes@.len(),
                node == &self.nodes@[node_id as int],
                self.paths@[node_id as int] == matched_prefix@,
                wanted == matched_prefix@ + prefix@,
                is_prefix(target, wanted),
                prefix_len == prefix@.len(),
                top_k != Some(0usize),
                i <= node.children@.len(),
                ranked(results@),
                within(results@, top_k),
                self.all_found(results@, target),
                Self::keeps_covered(old(results)@, results@, top_k),
                self.only_from(old(results)@, results@, node_id as int, wanted),
                forall|j: int|
                    0 <= j < i ==> #[trigger] self.covers_under(
                        results@,
                        top_k,
                        node.children@[j].child as int,
                        wanted,
                    ),
            decreases node.children@.len() - i,
        {
            assert(self.edge_ok(node_id as int, i as int));
            let child_id: usize = node.children[i].child;
            let child = &self.nodes[child_id];
            let key = key_as_str(&node.children[i].key);
            let ghost pre = results@;
            let ghost at = i as int;
            i = i + 1;
            if Some(results.len()) == top_k {
                let worst: usize = *results[results.len() - 1].count;
                let lighter = match child.weight {
                    Some(w) => w < worst,
                    None => true,
                };
                if lighter && child.child_max_weight < worst {
                    proof {
                        Self::lemma_full_list(results@, worst);
                        assert(self.siblings_ok(node_id as int));
                        assert forall|j: int| at <= j < node.children@.len() implies #[trigger] self.covers_under(
                            results@,
                            top_k,
                            node.children@[j].child as int,
                            wanted,
                        ) by {
                            let later = node.children@[j].child as int;
                            assert(self.edge_ok(node_id as int, j));
                            assert(contribution_of(self.nodes@[later]) < worst || (
                            self.nodes@[later].weight.is_none() && self.nodes@[later].child_max_weight
                                < worst));
                            assert forall|m: int|
                                0 <= m < self.nodes@.len() && #[trigger] self.under(later, m)
                                    && self.nodes@[m].weight.is_some() && is_prefix(
                                    wanted,
                                    self.paths@[m],
                                ) implies covered(
                                results@,
                                top_k,
                                self.paths@[m],
                                self.nodes@[m].weight.unwrap(),
                            ) by {
                                if m != later {
                                    self.lemma_bound(later, m);
                                }
                            }
                        }
                    }
                    i = node.children.len();
                    continue ;
                }
            }
            let common: usize = common_prefix_len(prefix, key);
            let key_len: usize = key.unicode_len();
            if common == prefix_len {
                let mut path: String = matched_prefix.to_owned();
                path.append(key);
                proof {
                    let a = matched_prefix@;
                    assert((a + key@).subrange(0, target.len() as int) =~= (a + prefix@).subrange(
                        0,
                        target.len() as int,
                    ));
                    reveal_strlit("");
                    assert(path@ + ""@ =~= path@);
                }
                match &child.weight {
                    Some(w) => {
                        let c = Completion { term: key_new(path.as_str()), count: w };
                        let ghost shown = results@;
                        offer(results, top_k, c);
                        proof {
                            assert(self.paths@[child_id as int] == path@);
                            assert(self.holds(path@, *w));
                            let pos = choose|pos: int|
                                is_position(shown, entry(c), pos) && results@ == offered(
                                    shown,
                                    top_k,
                                    c,
                                    pos,
                                );
                            shown.insert_ensures(pos, c);
                            assert forall|j: int| 0 <= j < results@.len() implies self.holds(
                                entry(#[trigger] results@[j]).0,
                                entry(results@[j]).1,
                            ) && is_prefix(target, entry(results@[j]).0) by {
                                if results@ != shown {
                                    if j < pos {
                                        assert(results@[j] == shown[j]);
                                    } else if j > pos {
                                        assert(results@[j] == shown[j - 1]);
                                    }
                                }
                            }
                            lemma_offered_covers(shown, top_k, c, pos);
                            assert forall|j: int| 0 <= j < results@.len() implies crate::completion::listed(
                                shown,
                                entry(#[trigger] results@[j]).0,
                                entry(results@[j]).1,
                            ) || entry(results@[j]) == (path@, *w) by {
                                if results@ != shown {
                                    if j < pos {
                                        assert(results@[j] == shown[j]);
                                    } else if j > pos {
                                        assert(results@[j] == shown[j - 1]);
                                    }
                                }
                            }
                        }
                    },
                    None => {},
                }
                let ghost offered_to = results@;
                self.find_all_child_terms(child_id, "", path.as_str(), top_k, results, Ghost(target));
                proof {
                    assert forall|m: int|
                        0 <= m < self.nodes@.len() && #[trigger] self.under(child_id as int, m)
                            && self.nodes@[m].weight.is_some() && is_prefix(
                            wanted,
                            self.paths@[m],
                        ) implies covered(
                        results@,
                        top_k,
                        self.paths@[m],
                        self.nodes@[m].weight.unwrap(),
                    ) by {
                        if m == child_id {
                            assert(covered(
                                offered_to,
                                top_k,
                                self.paths@[m],
                                self.nodes@[m].weight.unwrap(),
                            ));
                        } else {
                            self.lemma_under_prefix(child_id as int, m);
                        }
                    }
                    assert(self.covers_under(results@, top_k, child_id as int, wanted));
                    assert(is_prefix(wanted, path@)) by {
                        assert(path@.subrange(0, wanted.len() as int) =~= wanted);
                    }
                    assert forall|j: int| 0 <= j < results@.len() implies crate::completion::listed(
                        pre,
                        entry(#[trigger] results@[j]).0,
                        entry(results@[j]).1,
                    ) || self.from_below(
                        node_id as int,
                        wanted,
                        entry(results@[j]).0,
                        entry(results@[j]).1,
                    ) by {
                        let e = entry(results@[j]);
                        if self.from_below(child_id as int, path@ + ""@, e.0, e.1) {
                            self.lemma_from_child(
                                node_id as int,
                                child_id as int,
                                path@ + ""@,
                                wanted,
                                e.0,
                                e.1,
                            );
                        } else {
                            assert(crate::completion::listed(offered_to, e.0, e.1));
                            let q = choose|q: int|
                                0 <= q < offered_to.len() && entry(#[trigger] offered_to[q]) == e;
                            if !crate::completion::listed(pre, e.0, e.1) {
                                assert(child.weight.is_some());
                                assert(e == (path@, child.weight.unwrap()));
                                assert(path@.subrange(0, path@.len() as int) =~= path@);
                                self.lemma_from_child(
                                    node_id as int,
                                    child_id as int,
                                    path@,
                                    wanted,
                                    e.0,
                                    e.1,
                                );
                            }
                        }
                    }
                }
            } else if common == key_len {
                let mut path: String = matched_prefix.to_owned();
                path.append(key);
                let rest = prefix.substring_char(key_len, prefix_len);
                proof {
                    assert(prefix@ =~= key@ + rest@);
                    assert(path@ + rest@ =~= matched_prefix@ + prefix@);
                }
                self.find_all_child_terms(child_id, rest, path.as_str(), top_k, results, Ghost(target));
                proof {
                    assert(self.covers_under(results@, top_k, child_id as int, wanted));
                    assert(wanted.subrange(0, wanted.len() as int) =~= wanted);
                    assert forall|j: int| 0 <= j < results@.len() implies crate::completion::listed(
                        pre,
                        entry(#[trigger] results@[j]).0,
                        entry(results@[j]).1,
                    ) || self.from_below(
                        node_id as int,
                        wanted,
                        entry(results@[j]).0,
                        entry(results@[j]).1,
                    ) by {
                        let e = entry(results@[j]);
                        if self.from_below(child_id as int, path@ + rest@, e.0, e.1) {
                            self.lemma_from_child(
                                node_id as int,
                                child_id as int,
                                wanted,
                                wanted,
                                e.0,
                                e.1,
                            );
                        }
                    }
                }
            } else {
                proof {
                    assert forall|m: int|
                        0 <= m < self.nodes@.len() && #[trigger] self.under(child_id as int, m)
                            && self.nodes@[m].weight.is_some() && is_prefix(
                            wanted,
                            self.paths@[m],
                        ) implies covered(
                        results@,
                        top_k,
                        self.paths@[m],
                        self.nodes@[m].weight.unwrap(),
                    ) by {
                        self.lemma_parted(
                            child_id as int,
                            m,
                            matched_prefix@,
                            key@,
                            prefix@,
                            common as int,
                        );
                    }
                    assert(self.covers_under(results@, top_k, child_id as int, wanted));
                }
            }
            proof {
                assert forall|j: int| 0 <= j < results@.len() implies crate::completion::listed(
                    old(results)@,
                    entry(#[trigger] results@[j]).0,
                    entry(results@[j]).1,
                ) || self.from_below(
                    node_id as int,
                    wanted,
                    entry(results@[j]).0,
                    entry(results@[j]).1,
                ) by {
                    let e = entry(results@[j]);
                    if results@ == pre {
                    } else if crate::completion::listed(pre, e.0, e.1) {
                        let q = choose|q: int| 0 <= q < pre.len() && entry(#[trigger] pre[q]) == e;
                        assert(crate::completion::listed(old(results)@, entry(pre[q]).0, entry(pre[q]).1)
                            || self.from_below(
                            node_id as int,
                            wanted,
                            entry(pre[q]).0,
                            entry(pre[q]).1,
                        ));
                    }
                }
                assert(Self::keeps_covered(pre, results@, top_k));
                assert forall|j: int| 0 <= j < i implies #[trigger] self.covers_under(
                    results@,
                    top_k,
                    node.children@[j].child as int,
                    wanted,
                ) by {
                    if j < at {
                        assert(self.covers_under(pre, top_k, node.children@[j].child as int, wanted));
                        self.lemma_covers_under_kept(
                            pre,
                            results@,
                            top_k,
                            node.children@[j].child as int,
                            wanted,
                        );
                    }
                }
            }
        }
        proof {
            assert forall|m: int|
                0 <= m < self.nodes@.len() && m != node_id && #[trigger] self.under(node_id as int, m)
                    && self.nodes@[m].weight.is_some() && is_prefix(
                    wanted,
                    self.paths@[m],
                ) implies covered(
                results@,
                top_k,
                self.paths@[m],
                self.nodes@[m].weight.unwrap(),
            ) by {
                self.lemma_step_down(node_id as int, m);
                let j = choose|j: int|
                    0 <= j < self.nodes@[node_id as int].children@.len() && #[trigger] self.under(
                        self.nodes@[node_id as int].children@[j].child as int,
                        m,
                    );
                assert(self.covers_under(results@, top_k, node.children@[j].child as int, wanted));
            }
        }
    }

    /// Lookup completions for a given input prefix: the stored terms that
    /// begin with it, heaviest first and equal weights by term. With `top_k`
    /// given, at most that many are returned, and no stored term that begins
    /// with the prefix and is left out is heavier than one returned; without
    /// it, or where fewer than `top_k` are returned, every such term is
    /// returned.
    pub fn lookup_completions<'a>(&'a self, prefix: &str, top_k: Option<usize>) -> (results: Vec<
        Completion<'a>,
    >)
        requires
            self.wf(),
        ensures
            self.is_lookup(prefix@, top_k, results@),
    {
        let mut results: Vec<Completion<'a>> = Vec::new();
        if top_k == Some(0usize) {
            return results;
        }
        proof {
            reveal_strlit("");
            assert(""@ + prefix@ =~= prefix@);
            assert(self.paths@[0] =~= ""@);
            assert(prefix@.subrange(0, prefix@.len() as int) =~= prefix@);
        }
        self.find_all_child_terms(0, prefix, "", top_k, &mut results, Ghost(prefix@));
        proof {
            assert forall|t: Seq<char>, w: usize|
                self.holds(t, w) && is_prefix(prefix@, t) implies #[trigger] covered(
                results@,
                top_k,
                t,
                w,
            ) by {
                let n = choose|n: int|
                    0 <= n < self.nodes@.len() && #[trigger] self.paths@[n] == t
                        && self.nodes@[n].weight == Some(w);
                self.lemma_under_root(n);
            }
        }
        results
    }
}

impl Default for PruningRadixTrie {
    /// The empty trie.
    fn default() -> (t: Self)
        ensures
            t.wf(),
            t.node_count() == 1,
            t.root_is_bare(),
            t.top_weight() == 0,
            t.count() == 0,
            forall|term: Seq<char>, w: usize| !t.holds(term, w),
    {
        PruningRadixTrie::new()
    }
}

} // verus!
