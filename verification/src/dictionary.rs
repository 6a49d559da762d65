//! The lexicon: a prefix/suffix word graph (a GADDAG-style trie) stored in a
//! petgraph directed graph, and the endgame leave-value table.
//!
//! Every word is inserted once forward behind the separator `#`, and once per
//! split point as reversed prefix, separator, then forward suffix; every path
//! ends with the terminal `@`. Outgoing edge labels are unique per node, so
//! one-character transitions are deterministic.
use vstd::prelude::*;

use petgraph::visit::EdgeRef;

verus! {

#[verifier::external_type_specification]
#[verifier::external_body]
pub struct ExDirected(petgraph::Directed);

#[verifier::external_type_specification]
#[verifier::external_body]
#[verifier::reject_recursive_types(N)]
#[verifier::reject_recursive_types(E)]
#[verifier::reject_recursive_types(Ty)]
#[verifier::reject_recursive_types(Ix)]
pub struct ExGraph<N, E, Ty, Ix>(petgraph::graph::Graph<N, E, Ty, Ix>);

/// The node labels of a word graph, in insertion order.
pub uninterp spec fn graph_nodes(g: petgraph::graph::Graph<char, char>) -> Seq<char>;

/// The edges of a word graph as (source, target, label), in insertion order.
pub uninterp spec fn graph_edges(g: petgraph::graph::Graph<char, char>) -> Seq<(int, int, char)>;

/// Relies on petgraph's `Graph::new`: an empty graph.
#[verifier::external_body]
fn graph_new() -> (g: petgraph::graph::Graph<char, char>)
    ensures
        graph_nodes(g) == Seq::<char>::empty(),
        graph_edges(g) == Seq::<(int, int, char)>::empty(),
{
    petgraph::graph::Graph::new()
}

/// Relies on petgraph's `Graph::add_node`: appends one node and returns its
/// index; it panics only at the index type's maximum, kept out by `requires`.
#[verifier::external_body]
fn graph_add_node(g: &mut petgraph::graph::Graph<char, char>, w: char) -> (r: usize)
    requires
        graph_nodes(*old(g)).len() < 0xffff_0000,
    ensures
        graph_nodes(*final(g)) == graph_nodes(*old(g)).push(w),
        graph_edges(*final(g)) == graph_edges(*old(g)),
        r == graph_nodes(*old(g)).len(),
{
    g.add_node(w).index()
}

/// Relies on petgraph's `Graph::add_edge`: appends one edge between existing
/// nodes; it panics on a missing endpoint or at the index type's maximum,
/// both kept out by `requires`.
#[verifier::external_body]
fn graph_add_edge(g: &mut petgraph::graph::Graph<char, char>, a: usize, b: usize, w: char)
    requires
        a < graph_nodes(*old(g)).len(),
        b < graph_nodes(*old(g)).len(),
        graph_edges(*old(g)).len() < 0xffff_0000,
    ensures
        graph_nodes(*final(g)) == graph_nodes(*old(g)),
        graph_edges(*final(g)) == graph_edges(*old(g)).push(((a as int), (b as int), w)),
{
    g.add_edge(petgraph::graph::NodeIndex::new(a), petgraph::graph::NodeIndex::new(b), w);
}

/// Relies on petgraph's `Graph::edges_directed` with `Outgoing`: on a directed
/// graph it yields exactly the edges whose source is the given node, each
/// once, and is empty for an index with no node. `NodeIndex::new` silently
/// truncates to the u32 index type, so indices at or above 2^32 are kept out
/// by `requires`.
#[verifier::external_body]
fn graph_edges_from(g: &petgraph::graph::Graph<char, char>, n: usize) -> (r: Vec<(usize, char)>)
    requires
        n < 0x1_0000_0000,
    ensures
        forall|t: usize, c: char|
            #[trigger] r@.contains((t, c)) <==> graph_edges(*g).contains(((n as int), (t as int), c)),
{
    g.edges_directed(petgraph::graph::NodeIndex::new(n), petgraph::Direction::Outgoing).map(
        |e| (e.target().index(), *e.weight()),
    ).collect()
}

/// Relies on petgraph's `Graph::node_weights`: the node labels in insertion
/// order.
#[verifier::external_body]
fn graph_node_labels(g: &petgraph::graph::Graph<char, char>) -> (r: Vec<char>)
    ensures
        r@ == graph_nodes(*g),
{
    g.node_weights().cloned().collect()
}

/// Relies on petgraph's `Graph::raw_edges`: the edge list in insertion order,
/// each edge carrying its endpoints and weight.
#[verifier::external_body]
fn graph_raw_edges(g: &petgraph::graph::Graph<char, char>) -> (r: Vec<(usize, usize, char)>)
    ensures
        r@.len() == graph_edges(*g).len(),
        forall|i: int|
            0 <= i < r@.len() ==> graph_edges(*g)[i] == ((#[trigger] r@[i]).0 as int, r@[i].1 as int, r@[i].2),
{
    g.raw_edges().iter().map(|e| (e.source().index(), e.target().index(), e.weight)).collect()
}

/// Room kept below the graph index type's maximum.
pub const TRIE_CAP: usize = 0x4000_0000;

/// The word graph. `current` is the root the construction started from.
pub struct Trie {
    pub graph: petgraph::graph::Graph<char, char>,
    pub current: usize,
}

impl Trie {
    pub open spec fn nodes(self) -> Seq<char> {
        graph_nodes(self.graph)
    }

    pub open spec fn edges(self) -> Seq<(int, int, char)> {
        graph_edges(self.graph)
    }

    /// Structural well-formedness: a root exists, all edges join real nodes,
    /// and outgoing labels are unique per node.
    pub open spec fn wf(self) -> bool {
        &&& 1 <= self.nodes().len() <= TRIE_CAP
        &&& self.edges().len() <= TRIE_CAP
        &&& forall|i: int|
            0 <= i < self.edges().len() ==> 0 <= (#[trigger] self.edges()[i]).0
                < self.nodes().len() && 0 <= self.edges()[i].1 < self.nodes().len()
        &&& forall|i: int, j: int|
            #![trigger self.edges()[i], self.edges()[j]]
            0 <= i < self.edges().len() && 0 <= j < self.edges().len() && self.edges()[i].0
                == self.edges()[j].0 && self.edges()[i].2 == self.edges()[j].2 ==> i == j
    }

    /// The deterministic one-character transition out of node `n`.
    pub open spec fn step_spec(self, n: int, c: char) -> Option<int> {
        if exists|i: int|
            0 <= i < self.edges().len() && (#[trigger] self.edges()[i]).0 == n
                && self.edges()[i].2 == c {
            let i = choose|i: int|
                0 <= i < self.edges().len() && (#[trigger] self.edges()[i]).0 == n
                    && self.edges()[i].2 == c;
            Some(self.edges()[i].1)
        } else {
            None
        }
    }

    /// Consuming `w` one transition at a time from node `n`.
    pub open spec fn walk_spec(self, n: int, w: Seq<char>) -> Option<int>
        decreases w.len(),
    {
        if w.len() == 0 {
            Some(n)
        } else {
            match self.step_spec(n, w[0]) {
                Some(m) => self.walk_spec(m, w.drop_first()),
                None => None,
            }
        }
    }

    pub open spec fn walkable(self, n: int, w: Seq<char>) -> bool {
        self.walk_spec(n, w) is Some
    }

    /// The node behind the separator, where forward word walks start.
    pub open spec fn has_hashroot(self) -> bool {
        self.step_spec(0, '#') is Some
    }

    pub open spec fn hashroot_spec(self) -> int {
        self.step_spec(0, '#')->Some_0
    }

    /// Word membership: the separator, the word, then the terminal are
    /// walkable from the root.
    pub open spec fn accepts(self, w: Seq<char>) -> bool {
        self.walkable(0, seq!['#'] + w.push('@'))
    }
    /// Build-produced graphs are trees: every edge climbs to a strictly
    /// newer node, and every node has at most one incoming edge. Each node is
    /// then reached by exactly one label path from the root.
    pub open spec fn is_tree(self) -> bool {
        &&& forall|i: int|
            0 <= i < self.edges().len() ==> (#[trigger] self.edges()[i]).0 < self.edges()[i].1
        &&& forall|i: int, j: int|
            #![trigger self.edges()[i], self.edges()[j]]
            0 <= i < self.edges().len() && 0 <= j < self.edges().len() && self.edges()[i].1
                == self.edges()[j].1 ==> i == j
    }

    /// In a build-produced graph every edge's label equals its target node's
    /// label: nodes are created for the character that leads to them.
    pub open spec fn labels_match(self) -> bool {
        forall|i: int|
            0 <= i < self.edges().len() ==> (#[trigger] self.edges()[i]).2
                == self.nodes()[self.edges()[i].1]
    }

    /// The label path from the root to node `n` along incoming edges; empty
    /// for the root and for unreachable nodes.
    pub open spec fn node_path(self, n: int) -> Seq<char>
        decreases n,
    {
        if n <= 0 || !(exists|i: int|
            0 <= i < self.edges().len() && (#[trigger] self.edges()[i]).1 == n) {
            Seq::empty()
        } else {
            let i = choose|i: int|
                0 <= i < self.edges().len() && (#[trigger] self.edges()[i]).1 == n;
            if 0 <= self.edges()[i].0 < n {
                self.node_path(self.edges()[i].0).push(self.edges()[i].2)
            } else {
                Seq::empty()
            }
        }
    }
}

/// In a tree, the path to an edge's target extends the path to its source.
pub proof fn lemma_node_path_edge(t: Trie, i: int)
    requires
        t.wf(),
        t.is_tree(),
        0 <= i < t.edges().len(),
    ensures
        t.node_path(t.edges()[i].1) == t.node_path(t.edges()[i].0).push(t.edges()[i].2),
{
    let n = t.edges()[i].1;
    assert(n > t.edges()[i].0 >= 0);
    let j = choose|j: int| 0 <= j < t.edges().len() && (#[trigger] t.edges()[j]).1 == n;
    assert(j == i);
}

/// In a tree, a walk from the root spells out exactly the reached node's
/// access path: no other string reaches that node.
pub proof fn lemma_walk_is_node_path(t: Trie, s: Seq<char>, n: int)
    requires
        t.wf(),
        t.is_tree(),
        t.walk_spec(0, s) == Some(n),
    ensures
        s == t.node_path(n),
    decreases s.len(),
{
    if s.len() == 0 {
        assert(n == 0);
    } else {
        let front = s.drop_last();
        let c = s.last();
        assert(s =~= front.push(c));
        lemma_walk_push(t, 0, front, c);
        let m = t.walk_spec(0, front)->Some_0;
        assert(t.step_spec(m, c) == Some(n));
        let i = choose|i: int|
            0 <= i < t.edges().len() && (#[trigger] t.edges()[i]).0 == m && t.edges()[i].2 == c;
        assert(t.edges()[i].1 == n);
        lemma_node_path_edge(t, i);
        lemma_walk_is_node_path(t, front, m);
    }
}

/// Appending edges that all target brand-new nodes leaves every old node's
/// access path unchanged.
pub proof fn lemma_node_path_grow(t1: Trie, t2: Trie, n: int)
    requires
        t1.wf(),
        t2.wf(),
        t1.is_tree(),
        t2.is_tree(),
        t1.edges().is_prefix_of(t2.edges()),
        forall|i: int|
            t1.edges().len() <= i < t2.edges().len() ==> (#[trigger] t2.edges()[i]).1
                >= t1.nodes().len(),
        n < t1.nodes().len(),
    ensures
        t2.node_path(n) == t1.node_path(n),
    decreases n,
{
    if n > 0 {
        if exists|i: int| 0 <= i < t2.edges().len() && (#[trigger] t2.edges()[i]).1 == n {
            let i = choose|i: int|
                0 <= i < t2.edges().len() && (#[trigger] t2.edges()[i]).1 == n;
            assert(i < t1.edges().len());
            assert(t1.edges()[i] == t2.edges()[i]);
            assert(exists|j: int|
                0 <= j < t1.edges().len() && (#[trigger] t1.edges()[j]).1 == n);
            let j = choose|j: int|
                0 <= j < t1.edges().len() && (#[trigger] t1.edges()[j]).1 == n;
            assert(t2.edges()[j] == t1.edges()[j]);
            assert(j == i);
            lemma_node_path_grow(t1, t2, t1.edges()[i].0);
        } else {
            assert(!(exists|j: int|
                0 <= j < t1.edges().len() && (#[trigger] t1.edges()[j]).1 == n)) by {
                if exists|j: int|
                    0 <= j < t1.edges().len() && (#[trigger] t1.edges()[j]).1 == n {
                    let j = choose|j: int|
                        0 <= j < t1.edges().len() && (#[trigger] t1.edges()[j]).1 == n;
                    assert(t2.edges()[j] == t1.edges()[j]);
                }
            }
        }
    }
}

/// Every character of every listed word is a plain letter, never the
/// reserved separator `#` or terminal `@`.
pub open spec fn clean_words(words: Seq<Vec<char>>) -> bool {
    forall|i: int, j: int|
        0 <= i < words.len() && 0 <= j < (#[trigger] words[i])@.len() ==> (#[trigger] words[i]@[j])
            != '#' && words[i]@[j] != '@'
}

/// Whether `w` is one of the listed words.
pub open spec fn contains_word(words: Seq<Vec<char>>, w: Seq<char>) -> bool {
    exists|k: int| 0 <= k < words.len() && (#[trigger] words[k])@ == w
}

/// `s` is a prefix of an inserted path of one of the first `k` words: its
/// forward path or one of its split-point paths.
pub open spec fn listed_path(words: Seq<Vec<char>>, k: int, s: Seq<char>) -> bool {
    exists|m: int|
        0 <= m < k && (s.is_prefix_of(seq!['#'] + (#[trigger] words[m])@.push('@')) || (exists|
            l: int,
        |
            1 <= l < words[m]@.len() && s.is_prefix_of(gaddag_path(words[m]@, l))))
}

/// The assembly of the exactness direction: in a tree trie whose every node
/// is reached by a prefix of an inserted path of clean words, any accepted
/// word is one of the listed words.
proof fn lemma_only_listed(t: Trie, words: Seq<Vec<char>>)
    requires
        t.wf(),
        t.is_tree(),
        clean_words(words),
        forall|n: int|
            1 <= n < t.nodes().len() ==> (#[trigger] t.node_path(n)).is_prefix_of(seq!['#'])
                || listed_path(words, words.len() as int, t.node_path(n)),
    ensures
        forall|w: Seq<char>| #[trigger] t.accepts(w) ==> contains_word(words, w),
{
    assert forall|w: Seq<char>| #[trigger] t.accepts(w) implies contains_word(words, w) by {
        let s = seq!['#'] + w.push('@');
        assert(s.len() == w.len() + 2);
        assert(s[0] == '#');
        assert(s[s.len() - 1] == '@');
        assert(forall|j: int| 1 <= j <= w.len() ==> s[j] == w.push('@')[j - 1]);
        let n = t.walk_spec(0, s)->Some_0;
        lemma_walk_is_node_path(t, s, n);
        assert(s == t.node_path(n));
        assert(n != 0) by {
            if n == 0 {
                assert(t.node_path(0) =~= Seq::<char>::empty());
            }
        }
        assert(0 <= n < t.nodes().len()) by {
            lemma_walk_in_range(t, 0, s);
        }
        assert(!s.is_prefix_of(seq!['#']));
        assert(listed_path(words, words.len() as int, s));
        let m = choose|m: int|
            0 <= m < words.len() && (s.is_prefix_of(
                seq!['#'] + (#[trigger] words[m])@.push('@'),
            ) || (exists|l: int|
                1 <= l < words[m]@.len() && s.is_prefix_of(gaddag_path(words[m]@, l))));
        let u = words[m]@;
        if s.is_prefix_of(seq!['#'] + u.push('@')) {
            let f = seq!['#'] + u.push('@');
            assert(s == f.take(s.len() as int));
            assert(f.len() == u.len() + 2);
            assert(w.len() <= u.len());
            if w.len() < u.len() {
                let j = w.len() as int;
                assert(s[j + 1] == '@');
                assert(f[j + 1] == u.push('@')[j]);
                assert(f[j + 1] == u[j]);
                assert(u[j] != '@');
                assert(f.take(s.len() as int)[j + 1] == f[j + 1]);
                assert(false);
            }
            assert(w.len() == u.len());
            assert forall|j: int| 0 <= j < w.len() implies w[j] == u[j] by {
                assert(s[j + 1] == w.push('@')[j]);
                assert(f.take(s.len() as int)[j + 1] == f[j + 1]);
                assert(f[j + 1] == u.push('@')[j]);
            }
            assert(w =~= u);
            assert(contains_word(words, w));
        } else {
            let l = choose|l: int|
                1 <= l < words[m]@.len() && s.is_prefix_of(gaddag_path(words[m]@, l));
            let g = gaddag_path(u, l);
            assert(g.len() >= l + 2);
            assert(g[0] == u.take(l).reverse()[0]);
            assert(u.take(l).reverse()[0] == u.take(l)[l - 1]);
            assert(u.take(l)[l - 1] == u[l - 1]);
            assert(u[l - 1] != '#');
            assert(s == g.take(s.len() as int));
            assert(g.take(s.len() as int)[0] == g[0]);
            assert(false);
        }
    }
}

/// A walk from a real node ends at a real node.
proof fn lemma_walk_in_range(t: Trie, n: int, s: Seq<char>)
    requires
        t.wf(),
        0 <= n < t.nodes().len(),
        t.walk_spec(n, s) is Some,
    ensures
        0 <= t.walk_spec(n, s)->Some_0 < t.nodes().len(),
    decreases s.len(),
{
    if s.len() > 0 {
        lemma_step_in_range(t, n, s[0]);
        lemma_walk_in_range(t, t.step_spec(n, s[0])->Some_0, s.drop_first());
    }
}

/// Construction is deterministic: two lexicons built from the same word list
/// accept exactly the same language.
pub proof fn lemma_rebuild_same_language(t1: Trie, t2: Trie, words: Seq<Vec<char>>)
    requires
        forall|w: Seq<char>| #[trigger] t1.accepts(w) <==> contains_word(words, w),
        forall|w: Seq<char>| #[trigger] t2.accepts(w) <==> contains_word(words, w),
    ensures
        forall|w: Seq<char>| #[trigger] t1.accepts(w) == t2.accepts(w),
{
}

/// A present edge pins the transition: labels are unique per node.
pub proof fn lemma_step_from_edge(t: Trie, n: int, tgt: int, c: char)
    requires
        t.wf(),
        t.edges().contains((n, tgt, c)),
    ensures
        t.step_spec(n, c) == Some(tgt),
{
    let w = choose|w: int| 0 <= w < t.edges().len() && t.edges()[w] == (n, tgt, c);
    assert(t.edges()[w].0 == n && t.edges()[w].2 == c);
    let i = choose|i: int|
        0 <= i < t.edges().len() && (#[trigger] t.edges()[i]).0 == n && t.edges()[i].2 == c;
    assert(i == w);
}

/// Without an outgoing edge labelled `c` there is no transition.
pub proof fn lemma_step_none(t: Trie, n: int, c: char)
    requires
        forall|i: int|
            0 <= i < t.edges().len() ==> !((#[trigger] t.edges()[i]).0 == n && t.edges()[i].2
                == c),
    ensures
        t.step_spec(n, c) is None,
{
}

/// A step stays inside the node table.
pub proof fn lemma_step_in_range(t: Trie, n: int, c: char)
    requires
        t.wf(),
        t.step_spec(n, c) is Some,
    ensures
        0 <= t.step_spec(n, c)->Some_0 < t.nodes().len(),
{
}

/// Growing the graph by appending edges never breaks an existing walk.
pub proof fn lemma_walk_monotone(t1: Trie, t2: Trie, n: int, w: Seq<char>)
    requires
        t1.wf(),
        t2.wf(),
        t1.edges().is_prefix_of(t2.edges()),
        t1.walk_spec(n, w) is Some,
    ensures
        t2.walk_spec(n, w) == t1.walk_spec(n, w),
    decreases w.len(),
{
    if w.len() > 0 {
        let m = t1.step_spec(n, w[0])->Some_0;
        let i = choose|i: int|
            0 <= i < t1.edges().len() && (#[trigger] t1.edges()[i]).0 == n && t1.edges()[i].2
                == w[0];
        assert(t1.edges()[i].1 == m);
        assert(t2.edges()[i] == t1.edges()[i]);
        assert(t2.edges().contains((n, m, w[0])));
        lemma_step_from_edge(t2, n, m, w[0]);
        lemma_walk_monotone(t1, t2, m, w.drop_first());
    }
}

/// Two graphs with the same edge list accept exactly the same words: word
/// membership survives a rebuild from the exported edge list.
pub proof fn lemma_same_edges_same_words(t1: Trie, t2: Trie)
    requires
        t1.edges() == t2.edges(),
    ensures
        forall|w: Seq<char>| t1.accepts(w) == t2.accepts(w),
{
    assert forall|w: Seq<char>| t1.accepts(w) == t2.accepts(w) by {
        lemma_walk_same(t1, t2, 0, seq!['#'] + w.push('@'));
    }
}

proof fn lemma_walk_same(t1: Trie, t2: Trie, n: int, w: Seq<char>)
    requires
        t1.edges() == t2.edges(),
    ensures
        t1.walk_spec(n, w) == t2.walk_spec(n, w),
    decreases w.len(),
{
    assert(t1.step_spec(n, w[0]) == t2.step_spec(n, w[0]));
    if w.len() > 0 {
        match t1.step_spec(n, w[0]) {
            Some(m) => lemma_walk_same(t1, t2, m, w.drop_first()),
            None => {},
        }
    }
}

impl Trie {
    /// The construction root: the first node added.
    pub fn root(&self) -> (r: usize)
        requires
            self.wf(),
        ensures
            r == 0,
    {
        0
    }

    /// The deterministic transition: the node reached from `current` over the
    /// edge labelled `next`, if there is one. The index bound is the graph's
    /// machine limit; every node index is below it.
    pub fn can_next(&self, current: usize, next: char) -> (r: Option<usize>)
        requires
            self.wf(),
            current < TRIE_CAP,
        ensures
            match r {
                Some(t) => self.step_spec(current as int, next) == Some(t as int) && t
                    < self.nodes().len(),
                None => self.step_spec(current as int, next) is None,
            },
    {
        let outs = graph_edges_from(&self.graph, current);
        let mut i: usize = 0;
        while i < outs.len()
            invariant
                i <= outs@.len(),
                self.wf(),
                forall|t: usize, c: char|
                    #[trigger] outs@.contains((t, c)) <==> self.edges().contains(
                        ((current as int), (t as int), c),
                    ),
                forall|j: int| 0 <= j < i ==> (#[trigger] outs@[j]).1 != next,
            decreases outs@.len() - i,
        {
            let (t, c) = outs[i];
            if c == next {
                proof {
                    assert(outs@.contains((t, next)));
                    lemma_step_from_edge(*self, current as int, t as int, next);
                    lemma_step_in_range(*self, current as int, next);
                }
                return Some(t);
            }
            i = i + 1;
        }
        proof {
            assert forall|k: int|
                0 <= k < self.edges().len() ==> !((#[trigger] self.edges()[k]).0 == current as int
                    && self.edges()[k].2 == next) by {
                if 0 <= k < self.edges().len() && self.edges()[k].0 == current as int
                    && self.edges()[k].2 == next {
                    let t = self.edges()[k].1;
                    assert(self.edges().contains(((current as int), t, next)));
                    if t >= 0 {
                        let tu = t as usize;
                        assert(self.edges().contains(((current as int), (tu as int), next)));
                        assert(outs@.contains((tu, next)));
                        let j = choose|j: int| 0 <= j < outs@.len() && outs@[j] == (tu, next);
                        assert((outs@[j]).1 == next);
                    }
                }
            }
            lemma_step_none(*self, current as int, next);
        }
        None
    }

    /// Walks `initial` forward from behind the separator, standing still on a
    /// character with no transition.
    pub open spec fn seed_walk(self, n: int, w: Seq<char>) -> int
        decreases w.len(),
    {
        if w.len() == 0 {
            n
        } else {
            match self.step_spec(n, w[0]) {
                Some(m) => self.seed_walk(m, w.drop_first()),
                None => self.seed_walk(n, w.drop_first()),
            }
        }
    }

    /// Re-enters the graph mid-word: walks `initial` from the separator node.
    pub fn seed(&self, initial: &Vec<char>) -> (r: usize)
        requires
            self.wf(),
            self.has_hashroot(),
        ensures
            r as int == self.seed_walk(self.hashroot_spec(), initial@),
            r < self.nodes().len(),
    {
        let mut current = self.hashroot();
        proof {
            assert(initial@.skip(0) =~= initial@);
        }
        let mut i: usize = 0;
        while i < initial.len()
            invariant
                i <= initial@.len(),
                self.wf(),
                current < self.nodes().len(),
                self.seed_walk(current as int, initial@.skip(i as int)) == self.seed_walk(
                    self.hashroot_spec(),
                    initial@,
                ),
            decreases initial@.len() - i,
        {
            let c = initial[i];
            match self.can_next(current, c) {
                Some(t) => {
                    current = t;
                },
                None => {},
            }
            proof {
                assert(initial@.skip(i as int)[0] == initial@[i as int]);
                assert(initial@.skip(i as int).drop_first() =~= initial@.skip(i + 1));
            }
            i = i + 1;
        }
        proof {
            assert(initial@.skip(initial@.len() as int) =~= Seq::<char>::empty());
        }
        current
    }

    /// The separator node, where forward word walks start.
    fn hashroot(&self) -> (r: usize)
        requires
            self.wf(),
            self.has_hashroot(),
        ensures
            r as int == self.hashroot_spec(),
            r < self.nodes().len(),
    {
        proof {
            lemma_step_in_range(*self, 0, '#');
        }
        match self.can_next(0, '#') {
            Some(t) => t,
            None => {
                proof {
                    assert(false);
                }
                0
            },
        }
    }

    /// Every outgoing (label, target) pair of a node, each label once:
    /// transitions are deterministic, so the returned list is duplicate-free.
    pub fn nexts(&self, current: usize) -> (r: Vec<(char, usize)>)
        requires
            self.wf(),
            current < TRIE_CAP,
        ensures
            forall|c: char, t: usize|
                #[trigger] r@.contains((c, t)) <==> self.edges().contains(
                    ((current as int), (t as int), c),
                ),
            forall|a: int, b: int|
                0 <= a < b < r@.len() ==> (#[trigger] r@[a]).0 != (#[trigger] r@[b]).0,
    {
        let outs = graph_edges_from(&self.graph, current);
        let mut result: Vec<(char, usize)> = Vec::new();
        let mut i: usize = 0;
        while i < outs.len()
            invariant
                i <= outs@.len(),
                self.wf(),
                forall|t: usize, c: char|
                    #[trigger] outs@.contains((t, c)) <==> self.edges().contains(
                        ((current as int), (t as int), c),
                    ),
                forall|a: int, b: int|
                    0 <= a < b < result@.len() ==> (#[trigger] result@[a]).0 != (
                    #[trigger] result@[b]).0,
                forall|c: char, t: usize|
                    #[trigger] result@.contains((c, t)) ==> outs@.contains((t, c)),
                forall|j: int|
                    0 <= j < i ==> result@.contains(
                        ((#[trigger] outs@[j]).1, outs@[j].0),
                    ),
            decreases outs@.len() - i,
        {
            let (t, c) = outs[i];
            proof {
                assert(outs@.contains((t, c)));
            }
            if !contains_label(&result, c) {
                let ghost pre = result@;
                result.push((c, t));
                proof {
                    assert forall|a: int, b: int|
                        0 <= a < b < result@.len() implies (#[trigger] result@[a]).0 != (
                    #[trigger] result@[b]).0 by {
                        if b < pre.len() {
                            assert(result@[a] == pre[a] && result@[b] == pre[b]);
                        } else {
                            assert(result@[a] == pre[a] && result@[b] == (c, t));
                        }
                    }
                    assert forall|c2: char, t2: usize|
                        #[trigger] result@.contains((c2, t2)) implies outs@.contains(
                        (t2, c2),
                    ) by {
                        let k = choose|k: int|
                            0 <= k < result@.len() && result@[k] == (c2, t2);
                        if k < pre.len() {
                            assert(pre.contains((c2, t2)));
                        }
                    }
                    assert forall|j: int|
                        0 <= j < i + 1 implies result@.contains(
                        ((#[trigger] outs@[j]).1, outs@[j].0),
                    ) by {
                        if j < i {
                            let k = choose|k: int|
                                0 <= k < pre.len() && pre[k] == ((outs@[j]).1, outs@[j].0);
                            assert(result@[k] == pre[k]);
                        } else {
                            assert(result@[pre.len() as int] == (c, t));
                        }
                    }
                }
            } else {
                proof {
                    let a = choose|a: int|
                        0 <= a < result@.len() && (#[trigger] result@[a]).0 == c;
                    let t2 = result@[a].1;
                    assert(result@.contains((c, t2)));
                    assert(outs@.contains((t2, c)));
                    assert(self.edges().contains(((current as int), (t2 as int), c)));
                    assert(self.edges().contains(((current as int), (t as int), c)));
                    lemma_step_from_edge(*self, current as int, t2 as int, c);
                    lemma_step_from_edge(*self, current as int, t as int, c);
                    assert(t2 == t);
                    assert forall|j: int|
                        0 <= j < i + 1 implies result@.contains(
                        ((#[trigger] outs@[j]).1, outs@[j].0),
                    ) by {
                        if j == i {
                            assert(result@.contains((c, t)));
                        }
                    }
                }
            }
            i = i + 1;
        }
        proof {
            assert forall|c: char, t: usize|
                #[trigger] result@.contains((c, t)) <==> self.edges().contains(
                    ((current as int), (t as int), c),
                ) by {
                if self.edges().contains(((current as int), (t as int), c)) {
                    assert(outs@.contains((t, c)));
                    let j = choose|j: int| 0 <= j < outs@.len() && outs@[j] == (t, c);
                    assert(result@.contains(((outs@[j]).1, outs@[j].0)));
                }
            }
        }
        result
    }

    /// Whether `word` is in the lexicon: the separator-then-forward path for
    /// it reaches a terminal edge.
    pub fn check_word(&self, word: &Vec<char>) -> (r: bool)
        requires
            self.wf(),
            self.has_hashroot(),
        ensures
            r == self.accepts(word@),
    {
        proof {
            lemma_accepts_unfold(*self, word@);
        }
        let mut current = self.hashroot();
        proof {
            assert(word@.skip(0) =~= word@);
        }
        let mut i: usize = 0;
        while i < word.len()
            invariant
                i <= word@.len(),
                self.wf(),
                self.has_hashroot(),
                current < self.nodes().len(),
                self.walk_spec(current as int, word@.skip(i as int).push('@')) is Some
                    <==> self.walk_spec(self.hashroot_spec(), word@.push('@')) is Some,
                (match self.walk_spec(current as int, word@.skip(i as int).push('@')) {
                    Some(n) => self.walk_spec(self.hashroot_spec(), word@.push('@')) == Some(n),
                    None => true,
                }),
            decreases word@.len() - i,
        {
            let c = word[i];
            proof {
                assert(word@.skip(i as int).push('@')[0] == word@[i as int]);
                assert(word@.skip(i as int).push('@').drop_first() =~= word@.skip(i + 1).push(
                    '@',
                ));
            }
            match self.can_next(current, c) {
                Some(t) => {
                    current = t;
                },
                None => {
                    proof {
                        lemma_accepts_unfold(*self, word@);
                    }
                    return false;
                },
            }
            i = i + 1;
        }
        let r = self.can_next(current, '@');
        proof {
            lemma_accepts_unfold(*self, word@);
            assert(word@.skip(word@.len() as int).push('@') =~= seq!['@']);
            let g = seq!['@'];
            assert(g.len() == 1 && g[0] == '@');
            assert(g.drop_first() =~= Seq::<char>::empty());
            match self.step_spec(current as int, '@') {
                Some(m) => {
                    assert(self.walk_spec(m, g.drop_first()) == Some(m));
                    assert(self.walk_spec(current as int, g) == Some(m));
                },
                None => {
                    assert(self.walk_spec(current as int, g) is None);
                },
            }
        }
        r.is_some()
    }
}

/// Whether some pair in `v` carries the label `c`.
fn contains_label(v: &Vec<(char, usize)>, c: char) -> (r: bool)
    ensures
        r == (exists|k: int| 0 <= k < v@.len() && (#[trigger] v@[k]).0 == c),
{
    let mut i: usize = 0;
    while i < v.len()
        invariant
            i <= v@.len(),
            forall|k: int| 0 <= k < i ==> (#[trigger] v@[k]).0 != c,
        decreases v@.len() - i,
    {
        if v[i].0 == c {
            return true;
        }
        i = i + 1;
    }
    false
}

/// `accepts` unrolled past the separator: the walk from the separator node.
proof fn lemma_accepts_unfold(t: Trie, w: Seq<char>)
    requires
        t.wf(),
        t.has_hashroot(),
    ensures
        t.accepts(w) == (t.walk_spec(t.hashroot_spec(), w.push('@')) is Some),
{
    let full = seq!['#'] + w.push('@');
    assert(full[0] == '#');
    assert(full.drop_first() =~= w.push('@'));
}


/// A present transition survives appending edges.
pub proof fn lemma_step_monotone(t1: Trie, t2: Trie, n: int, c: char)
    requires
        t1.wf(),
        t2.wf(),
        t1.edges().is_prefix_of(t2.edges()),
        t1.step_spec(n, c) is Some,
    ensures
        t2.step_spec(n, c) == t1.step_spec(n, c),
{
    let m = t1.step_spec(n, c)->Some_0;
    let i = choose|i: int|
        0 <= i < t1.edges().len() && (#[trigger] t1.edges()[i]).0 == n && t1.edges()[i].2 == c;
    assert(t1.edges()[i].1 == m);
    assert(t2.edges()[i] == t1.edges()[i]);
    assert(t2.edges().contains((n, m, c)));
    lemma_step_from_edge(t2, n, m, c);
}

/// Appending one character to a walk: follow the walk, then one transition.
pub proof fn lemma_walk_push(t: Trie, n: int, w: Seq<char>, c: char)
    ensures
        t.walk_spec(n, w.push(c)) == (match t.walk_spec(n, w) {
            Some(m) => t.step_spec(m, c),
            None => None::<int>,
        }),
    decreases w.len(),
{
    if w.len() == 0 {
        assert(w.push(c) =~= seq![c]);
        assert(w.push(c)[0] == c);
        assert(w.push(c).drop_first() =~= Seq::<char>::empty());
        match t.step_spec(n, c) {
            Some(m) => {
                assert(t.walk_spec(m, w.push(c).drop_first()) == Some(m));
            },
            None => {},
        }
    } else {
        assert(w.push(c)[0] == w[0]);
        assert(w.push(c).drop_first() =~= w.drop_first().push(c));
        match t.step_spec(n, w[0]) {
            Some(m) => {
                lemma_walk_push(t, m, w.drop_first(), c);
            },
            None => {},
        }
    }
}

impl Trie {
    /// Follows the edge labelled `c` out of `from`, adding a fresh node and
    /// edge when there is none: deterministic edge reuse. The graph stays a
    /// tree with matching labels, old access paths survive, and the reached
    /// node's access path extends `from`'s by `c`.
    fn extend(&mut self, from: usize, c: char) -> (r: usize)
        requires
            old(self).wf(),
            old(self).is_tree(),
            old(self).labels_match(),
            from < old(self).nodes().len(),
            old(self).nodes().len() < TRIE_CAP,
            old(self).edges().len() < TRIE_CAP,
        ensures
            final(self).wf(),
            final(self).is_tree(),
            final(self).labels_match(),
            final(self).step_spec(from as int, c) == Some(r as int),
            r < final(self).nodes().len(),
            old(self).edges().is_prefix_of(final(self).edges()),
            old(self).nodes().is_prefix_of(final(self).nodes()),
            final(self).nodes().len() <= old(self).nodes().len() + 1,
            final(self).edges().len() <= old(self).edges().len() + 1,
            final(self).current == old(self).current,
            forall|e: int|
                old(self).edges().len() <= e < final(self).edges().len()
                    ==> (#[trigger] final(self).edges()[e]).1 >= old(self).nodes().len(),
            forall|n: int|
                0 <= n < old(self).nodes().len()
                    ==> final(self).node_path(n) == old(self).node_path(n),
            final(self).node_path(r as int) == final(self).node_path(from as int).push(c),
            forall|n: int|
                old(self).nodes().len() <= n < final(self).nodes().len()
                    ==> final(self).node_path(n) == final(self).node_path(from as int).push(c),
    {
        match self.can_next(from, c) {
            Some(t) => {
                proof {
                    assert(self.edges().is_prefix_of(self.edges()));
                    assert(self.nodes().is_prefix_of(self.nodes()));
                    let i = choose|i: int|
                        0 <= i < self.edges().len() && (#[trigger] self.edges()[i]).0
                            == from as int && self.edges()[i].2 == c;
                    assert(self.edges()[i].1 == t as int);
                    lemma_node_path_edge(*self, i);
                }
                t
            },
            None => {
                let ghost pre = *self;
                let nn = graph_add_node(&mut self.graph, c);
                graph_add_edge(&mut self.graph, from, nn, c);
                proof {
                    let e = self.edges();
                    let olde = pre.edges();
                    assert(e == olde.push(((from as int), (nn as int), c)));
                    assert(e[olde.len() as int] == ((from as int), (nn as int), c));
                    assert forall|i: int, j: int|
                        #![trigger e[i], e[j]]
                        0 <= i < e.len() && 0 <= j < e.len() && e[i].0 == e[j].0 && e[i].2
                            == e[j].2 implies i == j by {
                        if i < olde.len() && j < olde.len() {
                            assert(olde[i] == e[i] && olde[j] == e[j]);
                        } else if i < olde.len() && j == olde.len() {
                            assert(olde[i].0 == from as int && olde[i].2 == c);
                            assert(pre.step_spec(from as int, c) is None);
                            assert(false);
                        } else if j < olde.len() && i == olde.len() {
                            assert(olde[j].0 == from as int && olde[j].2 == c);
                            assert(pre.step_spec(from as int, c) is None);
                            assert(false);
                        }
                    }
                    assert(self.wf());
                    assert forall|i: int, j: int|
                        #![trigger e[i], e[j]]
                        0 <= i < e.len() && 0 <= j < e.len() && e[i].1 == e[j].1 implies i
                            == j by {
                        if i < olde.len() && j < olde.len() {
                            assert(olde[i] == e[i] && olde[j] == e[j]);
                        } else if i < olde.len() && j == olde.len() {
                            assert(olde[i].1 < pre.nodes().len());
                        } else if j < olde.len() && i == olde.len() {
                            assert(olde[j].1 < pre.nodes().len());
                        }
                    }
                    assert forall|i: int|
                        0 <= i < e.len() implies (#[trigger] e[i]).0 < e[i].1 by {
                        if i < olde.len() {
                            assert(olde[i] == e[i]);
                        }
                    }
                    assert(self.is_tree());
                    assert forall|i: int|
                        0 <= i < e.len() implies (#[trigger] e[i]).2
                            == self.nodes()[e[i].1] by {
                        if i < olde.len() {
                            assert(olde[i] == e[i]);
                            assert(olde[i].1 < pre.nodes().len());
                            assert(self.nodes()[e[i].1] == pre.nodes()[olde[i].1]);
                        } else {
                            assert(self.nodes()[nn as int] == c);
                        }
                    }
                    assert(self.labels_match());
                    assert(e.contains(((from as int), (nn as int), c)));
                    lemma_step_from_edge(*self, from as int, nn as int, c);
                    assert(olde.is_prefix_of(e));
                    assert(pre.nodes().is_prefix_of(self.nodes()));
                    assert forall|n: int|
                        0 <= n < pre.nodes().len() implies self.node_path(n) == pre.node_path(
                        n,
                    ) by {
                        lemma_node_path_grow(pre, *self, n);
                    }
                    lemma_node_path_edge(*self, olde.len() as int);
                }
                nn
            },
        }
    }

    /// Inserts one path from the root, reusing existing edges: the whole path
    /// is walkable afterwards, existing edges and access paths are untouched,
    /// and every node added is reached by a prefix of the path — nothing else
    /// becomes walkable.
    fn insert_from_root(&mut self, path: &Vec<char>) -> (r: usize)
        requires
            old(self).wf(),
            old(self).is_tree(),
            old(self).labels_match(),
            old(self).nodes().len() + path@.len() <= TRIE_CAP,
            old(self).edges().len() + path@.len() <= TRIE_CAP,
        ensures
            final(self).wf(),
            final(self).is_tree(),
            final(self).labels_match(),
            final(self).walk_spec(0, path@) == Some(r as int),
            old(self).edges().is_prefix_of(final(self).edges()),
            old(self).nodes().is_prefix_of(final(self).nodes()),
            final(self).nodes().len() <= old(self).nodes().len() + path@.len(),
            final(self).edges().len() <= old(self).edges().len() + path@.len(),
            final(self).current == old(self).current,
            forall|e: int|
                old(self).edges().len() <= e < final(self).edges().len()
                    ==> (#[trigger] final(self).edges()[e]).1 >= old(self).nodes().len(),
            forall|n: int|
                0 <= n < old(self).nodes().len()
                    ==> final(self).node_path(n) == old(self).node_path(n),
            forall|n: int|
                old(self).nodes().len() <= n < final(self).nodes().len()
                    ==> (#[trigger] final(self).node_path(n)).is_prefix_of(path@),
    {
        let mut cur: usize = 0;
        proof {
            assert(path@.take(0) =~= Seq::<char>::empty());
        }
        let mut i: usize = 0;
        while i < path.len()
            invariant
                i <= path@.len(),
                self.wf(),
                self.is_tree(),
                self.labels_match(),
                cur < self.nodes().len(),
                self.walk_spec(0, path@.take(i as int)) == Some(cur as int),
                self.node_path(cur as int) == path@.take(i as int),
                old(self).wf(),
                old(self).edges().is_prefix_of(self.edges()),
                old(self).nodes().is_prefix_of(self.nodes()),
                self.nodes().len() <= old(self).nodes().len() + i,
                self.edges().len() <= old(self).edges().len() + i,
                old(self).nodes().len() + path@.len() <= TRIE_CAP,
                old(self).edges().len() + path@.len() <= TRIE_CAP,
                self.current == old(self).current,
                forall|e: int|
                    old(self).edges().len() <= e < self.edges().len()
                        ==> (#[trigger] self.edges()[e]).1 >= old(self).nodes().len(),
                forall|n: int|
                    0 <= n < old(self).nodes().len()
                        ==> self.node_path(n) == old(self).node_path(n),
                forall|n: int|
                    old(self).nodes().len() <= n < self.nodes().len()
                        ==> (#[trigger] self.node_path(n)).is_prefix_of(path@),
            decreases path@.len() - i,
        {
            let ghost pre = *self;
            let c = path[i];
            let nxt = self.extend(cur, c);
            proof {
                lemma_walk_monotone(pre, *self, 0, path@.take(i as int));
                lemma_walk_push(*self, 0, path@.take(i as int), c);
                assert(path@.take(i + 1) =~= path@.take(i as int).push(c));
                assert(self.walk_spec(0, path@.take(i + 1)) == Some(nxt as int));
                assert(old(self).edges().is_prefix_of(self.edges()));
                assert(old(self).nodes().is_prefix_of(self.nodes()));
                assert(self.node_path(cur as int) == path@.take(i as int));
                assert(self.node_path(nxt as int) == path@.take(i + 1));
                assert(path@.take(i + 1).is_prefix_of(path@)) by {
                    assert(path@.take(i + 1) =~= path@.take(path@.take(i + 1).len() as int));
                }
                assert forall|n: int|
                    old(self).nodes().len() <= n < self.nodes().len() implies (
                #[trigger] self.node_path(n)).is_prefix_of(path@) by {
                    if n < pre.nodes().len() {
                        assert(self.node_path(n) == pre.node_path(n));
                    } else {
                        assert(self.node_path(n) == self.node_path(cur as int).push(c));
                        assert(self.node_path(n) == path@.take(i + 1));
                    }
                }
                assert forall|e: int|
                    old(self).edges().len() <= e < self.edges().len() implies (
                #[trigger] self.edges()[e]).1 >= old(self).nodes().len() by {
                    if e < pre.edges().len() {
                        assert(self.edges()[e] == pre.edges()[e]);
                    } else {
                        assert(self.edges()[e].1 >= pre.nodes().len());
                    }
                }
            }
            cur = nxt;
            i = i + 1;
        }
        proof {
            assert(path@.take(path@.len() as int) =~= path@);
        }
        cur
    }
}

/// One split-point path of a word: reversed prefix, separator, forward
/// suffix, terminal.
pub open spec fn gaddag_path(w: Seq<char>, l: int) -> Seq<char> {
    w.take(l).reverse() + seq!['#'] + w.skip(l) + seq!['@']
}

impl Trie {
    /// Inserts a word: its forward path behind the separator, and one
    /// reversed-prefix / separator / suffix path per split point. Every node
    /// added is reached by a prefix of one of those paths — the word becomes
    /// walkable, and nothing unrelated does.
    pub fn insert_word(&mut self, w: &Vec<char>) -> (r: bool)
        requires
            old(self).wf(),
            old(self).is_tree(),
            old(self).labels_match(),
            w@.len() <= 15,
            old(self).nodes().len() + 272 <= TRIE_CAP,
            old(self).edges().len() + 272 <= TRIE_CAP,
        ensures
            r,
            final(self).wf(),
            final(self).is_tree(),
            final(self).labels_match(),
            final(self).accepts(w@),
            forall|l: int| 1 <= l < w@.len() ==> final(self).walkable(0, gaddag_path(w@, l)),
            old(self).edges().is_prefix_of(final(self).edges()),
            old(self).nodes().is_prefix_of(final(self).nodes()),
            final(self).nodes().len() <= old(self).nodes().len() + 272,
            final(self).edges().len() <= old(self).edges().len() + 272,
            final(self).current == old(self).current,
            forall|n: int|
                0 <= n < old(self).nodes().len()
                    ==> final(self).node_path(n) == old(self).node_path(n),
            forall|n: int|
                old(self).nodes().len() <= n < final(self).nodes().len()
                    ==> (#[trigger] final(self).node_path(n)).is_prefix_of(
                    seq!['#'] + w@.push('@'),
                ) || (exists|l: int|
                    1 <= l < w@.len() && final(self).node_path(n).is_prefix_of(
                        gaddag_path(w@, l),
                    )),
    {
        let ghost start = *self;
        let mut path: Vec<char> = Vec::new();
        path.push('#');
        let mut i: usize = 0;
        while i < w.len()
            invariant
                i <= w@.len(),
                path@.len() == i + 1,
                path@[0] == '#',
                forall|k: int| 0 <= k < i ==> path@[k + 1] == w@[k],
            decreases w@.len() - i,
        {
            path.push(w[i]);
            i = i + 1;
        }
        path.push('@');
        proof {
            assert(path@ =~= seq!['#'] + w@.push('@'));
        }
        self.insert_from_root(&path);
        proof {
            assert(self.accepts(w@));
        }
        let mut l: usize = 1;
        while l < w.len()
            invariant
                1 <= l <= 15,
                w@.len() <= 15,
                l <= w@.len() || l == 1,
                self.wf(),
                self.is_tree(),
                self.labels_match(),
                self.accepts(w@),
                forall|m: int| 1 <= m < l ==> self.walkable(0, gaddag_path(w@, m)),
                start.wf(),
                start.edges().is_prefix_of(self.edges()),
                start.nodes().is_prefix_of(self.nodes()),
                self.nodes().len() <= start.nodes().len() + 17 * l,
                self.edges().len() <= start.edges().len() + 17 * l,
                start.nodes().len() + 272 <= TRIE_CAP,
                start.edges().len() + 272 <= TRIE_CAP,
                self.current == start.current,
                forall|n: int|
                    0 <= n < start.nodes().len()
                        ==> self.node_path(n) == start.node_path(n),
                forall|n: int|
                    start.nodes().len() <= n < self.nodes().len()
                        ==> (#[trigger] self.node_path(n)).is_prefix_of(
                        seq!['#'] + w@.push('@'),
                    ) || (exists|m: int|
                        1 <= m < l && self.node_path(n).is_prefix_of(gaddag_path(w@, m))),
            decreases w@.len() - l,
        {
            let mut path2: Vec<char> = Vec::new();
            let mut j: usize = 0;
            while j < l
                invariant
                    j <= l <= w@.len(),
                    path2@.len() == j,
                    forall|k: int| 0 <= k < j ==> path2@[k] == w@[l - 1 - k],
                decreases l - j,
            {
                path2.push(w[l - 1 - j]);
                j = j + 1;
            }
            path2.push('#');
            let mut m: usize = l;
            while m < w.len()
                invariant
                    l <= m <= w@.len(),
                    path2@.len() == l + 1 + (m - l),
                    forall|k: int| 0 <= k < l ==> path2@[k] == w@[l - 1 - k],
                    path2@[l as int] == '#',
                    forall|k: int| l <= k < m ==> path2@[k + 1] == w@[k],
                decreases w@.len() - m,
            {
                path2.push(w[m]);
                m = m + 1;
            }
            path2.push('@');
            proof {
                assert(path2@ =~= gaddag_path(w@, l as int));
            }
            let ghost pre = *self;
            self.insert_from_root(&path2);
            proof {
                lemma_walk_monotone(pre, *self, 0, seq!['#'] + w@.push('@'));
                assert forall|q: int| 1 <= q < l + 1 implies self.walkable(
                    0,
                    gaddag_path(w@, q),
                ) by {
                    if q < l {
                        lemma_walk_monotone(pre, *self, 0, gaddag_path(w@, q));
                    }
                }
                assert(start.edges().is_prefix_of(self.edges()));
                assert(start.nodes().is_prefix_of(self.nodes()));
                assert forall|n: int|
                    start.nodes().len() <= n < self.nodes().len() implies (
                #[trigger] self.node_path(n)).is_prefix_of(seq!['#'] + w@.push('@')) || (
                exists|m: int|
                    1 <= m < l + 1 && self.node_path(n).is_prefix_of(
                        gaddag_path(w@, m),
                    )) by {
                    if n < pre.nodes().len() {
                        assert(self.node_path(n) == pre.node_path(n));
                    } else {
                        assert(self.node_path(n).is_prefix_of(path2@));
                        assert(1 <= (l as int) < l + 1 && self.node_path(n).is_prefix_of(
                            gaddag_path(w@, l as int),
                        ));
                    }
                }
            }
            l = l + 1;
        }
        true
    }

    /// Builds the lexicon graph from a word list. The built graph accepts a
    /// word exactly when it is on the list: construction is complete and
    /// sound, so two builds from one list accept the same language.
    pub fn build(words: &Vec<Vec<char>>) -> (r: Trie)
        requires
            words@.len() <= 0x100000,
            forall|i: int| 0 <= i < words@.len() ==> (#[trigger] words@[i])@.len() <= 15,
            clean_words(words@),
        ensures
            r.wf(),
            r.is_tree(),
            r.labels_match(),
            r.has_hashroot(),
            forall|w: Seq<char>| #[trigger] r.accepts(w) <==> contains_word(words@, w),
    {
        let mut graph = graph_new();
        let root = graph_add_node(&mut graph, ' ');
        let mut trie = Trie { graph, current: root };
        proof {
            assert(trie.nodes().len() == 1);
            assert(trie.edges().len() == 0);
            assert(trie.wf());
            assert(trie.is_tree());
            assert(trie.labels_match());
        }
        trie.extend(0, '#');
        proof {
            assert forall|n: int|
                1 <= n < trie.nodes().len() implies (#[trigger] trie.node_path(n)).is_prefix_of(
                seq!['#'],
            ) || listed_path(words@, 0, trie.node_path(n)) by {
                assert(trie.node_path(n) == trie.node_path(0).push('#'));
                assert(trie.node_path(0) =~= Seq::<char>::empty());
                assert(trie.node_path(n) =~= seq!['#']);
                assert(trie.node_path(n) =~= seq!['#'].take(1));
            }
        }
        let mut i: usize = 0;
        while i < words.len()
            invariant
                i <= words@.len() <= 0x100000,
                forall|k: int| 0 <= k < words@.len() ==> (#[trigger] words@[k])@.len() <= 15,
                trie.wf(),
                trie.is_tree(),
                trie.labels_match(),
                trie.has_hashroot(),
                forall|k: int| 0 <= k < i ==> trie.accepts((#[trigger] words@[k])@),
                trie.nodes().len() <= 2 + 272 * i,
                trie.edges().len() <= 1 + 272 * i,
                forall|n: int|
                    1 <= n < trie.nodes().len() ==> (#[trigger] trie.node_path(n)).is_prefix_of(
                        seq!['#'],
                    ) || listed_path(words@, i as int, trie.node_path(n)),
            decreases words@.len() - i,
        {
            let ghost pre = trie;
            trie.insert_word(&words[i]);
            proof {
                lemma_step_monotone(pre, trie, 0, '#');
                assert forall|k: int| 0 <= k < i + 1 implies trie.accepts(
                    (#[trigger] words@[k])@,
                ) by {
                    if k < i {
                        lemma_walk_monotone(
                            pre,
                            trie,
                            0,
                            seq!['#'] + (words@[k])@.push('@'),
                        );
                    }
                }
                assert forall|n: int|
                    1 <= n < trie.nodes().len() implies (#[trigger] trie.node_path(
                    n,
                )).is_prefix_of(seq!['#']) || listed_path(words@, i + 1, trie.node_path(n)) by {
                    if n < pre.nodes().len() {
                        assert(trie.node_path(n) == pre.node_path(n));
                        if listed_path(words@, i as int, pre.node_path(n)) {
                            let m = choose|m: int|
                                0 <= m < i && (pre.node_path(n).is_prefix_of(
                                    seq!['#'] + (#[trigger] words@[m])@.push('@'),
                                ) || (exists|l: int|
                                    1 <= l < words@[m]@.len() && pre.node_path(n).is_prefix_of(
                                        gaddag_path(words@[m]@, l),
                                    )));
                            assert(0 <= m < i + 1);
                            assert(listed_path(words@, i + 1, trie.node_path(n)));
                        }
                    } else {
                        assert(trie.node_path(n).is_prefix_of(
                            seq!['#'] + (words@[i as int])@.push('@'),
                        ) || (exists|l: int|
                            1 <= l < words@[i as int]@.len() && trie.node_path(n).is_prefix_of(
                                gaddag_path(words@[i as int]@, l),
                            )));
                        assert(listed_path(words@, i + 1, trie.node_path(n)));
                    }
                }
            }
            i = i + 1;
        }
        proof {
            lemma_only_listed(trie, words@);
            assert forall|w: Seq<char>| contains_word(words@, w) implies #[trigger] trie.accepts(
                w,
            ) by {
                let k = choose|k: int| 0 <= k < words@.len() && (#[trigger] words@[k])@ == w;
                assert(trie.accepts(words@[k]@));
            }
        }
        trie
    }

    /// Whether the separator node exists, so word checks may run.
    pub fn has_separator(&self) -> (r: bool)
        requires
            self.wf(),
        ensures
            r == self.has_hashroot(),
    {
        let r = self.can_next(0, '#');
        r.is_some()
    }

    /// The graph as plain data: node labels and (source, target, label)
    /// edges, both in insertion order, for persistence.
    pub fn to_parts(&self) -> (r: (Vec<char>, Vec<(usize, usize, char)>))
        ensures
            r.0@ == self.nodes(),
            r.1@.map_values(|e: (usize, usize, char)| ((e.0 as int), (e.1 as int), e.2))
                == self.edges(),
    {
        let labels = graph_node_labels(&self.graph);
        let edges = graph_raw_edges(&self.graph);
        proof {
            assert(edges@.map_values(|e: (usize, usize, char)| ((e.0 as int), (e.1 as int), e.2))
                =~= self.edges());
        }
        (labels, edges)
    }
}

/// Plain graph data a trie can be rebuilt from: a root exists, sizes fit,
/// every edge joins listed nodes, and outgoing labels are unique per source.
pub open spec fn parts_valid(labels: Seq<char>, edges: Seq<(int, int, char)>) -> bool {
    &&& 1 <= labels.len() <= TRIE_CAP
    &&& edges.len() <= TRIE_CAP
    &&& forall|i: int|
        0 <= i < edges.len() ==> 0 <= (#[trigger] edges[i]).0 < labels.len() && 0 <= edges[i].1
            < labels.len()
    &&& forall|i: int, j: int|
        #![trigger edges[i], edges[j]]
        0 <= i < edges.len() && 0 <= j < edges.len() && edges[i].0 == edges[j].0 && edges[i].2
            == edges[j].2 ==> i == j
}

/// A well-formed trie exports data that `from_parts` accepts: persistence can
/// always round-trip a built lexicon.
pub proof fn lemma_export_valid(t: Trie)
    requires
        t.wf(),
    ensures
        parts_valid(t.nodes(), t.edges()),
{
}

impl Trie {
    /// Rebuilds a trie from exported parts; `None` exactly when the data is
    /// not valid graph data, so a corrupted cache is rejected, never trusted.
    pub fn from_parts(labels: &Vec<char>, edges: &Vec<(usize, usize, char)>) -> (r: Option<Trie>)
        ensures
            (r is Some) == parts_valid(
                labels@,
                edges@.map_values(|e: (usize, usize, char)| ((e.0 as int), (e.1 as int), e.2)),
            ),
            r is Some ==> (r->Some_0).wf() && (r->Some_0).nodes() == labels@ && (r->Some_0).edges()
                == edges@.map_values(
                |e: (usize, usize, char)| ((e.0 as int), (e.1 as int), e.2)),
    {
        let ghost eview = edges@.map_values(
            |e: (usize, usize, char)| ((e.0 as int), (e.1 as int), e.2),
        );
        if labels.len() == 0 || labels.len() > TRIE_CAP || edges.len() > TRIE_CAP {
            return None;
        }
        let mut graph = graph_new();
        let mut i: usize = 0;
        while i < labels.len()
            invariant
                i <= labels@.len() <= TRIE_CAP,
                graph_nodes(graph) == labels@.take(i as int),
                graph_edges(graph) == Seq::<(int, int, char)>::empty(),
            decreases labels@.len() - i,
        {
            graph_add_node(&mut graph, labels[i]);
            proof {
                assert(graph_nodes(graph) =~= labels@.take(i + 1));
            }
            i = i + 1;
        }
        proof {
            assert(labels@.take(labels@.len() as int) =~= labels@);
        }
        let mut trie = Trie { graph, current: 0 };
        let mut k: usize = 0;
        while k < edges.len()
            invariant
                k <= edges@.len() <= TRIE_CAP,
                eview == edges@.map_values(
                    |e: (usize, usize, char)| ((e.0 as int), (e.1 as int), e.2),
                ),
                trie.nodes() == labels@,
                1 <= labels@.len() <= TRIE_CAP,
                trie.edges() == eview.take(k as int),
                trie.wf(),
            decreases edges@.len() - k,
        {
            let (a, b, c) = edges[k];
            if a >= labels.len() || b >= labels.len() {
                proof {
                    assert(eview[k as int] == ((a as int), (b as int), c));
                }
                return None;
            }
            match trie.can_next(a, c) {
                Some(_) => {
                    proof {
                        let i = choose|i: int|
                            0 <= i < trie.edges().len() && (#[trigger] trie.edges()[i]).0
                                == a as int && trie.edges()[i].2 == c;
                        assert(eview[i] == trie.edges()[i]);
                        assert(eview[k as int] == ((a as int), (b as int), c));
                    }
                    return None;
                },
                None => {},
            }
            let ghost pre = trie;
            graph_add_edge(&mut trie.graph, a, b, c);
            proof {
                assert(trie.edges() == pre.edges().push(((a as int), (b as int), c)));
                assert(eview[k as int] == ((a as int), (b as int), c));
                assert(trie.edges() =~= eview.take(k + 1));
                let e = trie.edges();
                assert forall|x: int, y: int|
                    #![trigger e[x], e[y]]
                    0 <= x < e.len() && 0 <= y < e.len() && e[x].0 == e[y].0 && e[x].2 == e[y].2
                        implies x == y by {
                    if x < pre.edges().len() && y == pre.edges().len() {
                        assert(pre.edges()[x].0 == a as int && pre.edges()[x].2 == c);
                        assert(pre.step_spec(a as int, c) is None);
                        assert(false);
                    } else if y < pre.edges().len() && x == pre.edges().len() {
                        assert(pre.edges()[y].0 == a as int && pre.edges()[y].2 == c);
                        assert(pre.step_spec(a as int, c) is None);
                        assert(false);
                    } else if x < pre.edges().len() && y < pre.edges().len() {
                        assert(pre.edges()[x] == e[x] && pre.edges()[y] == e[y]);
                    }
                }
                assert(trie.wf());
            }
            k = k + 1;
        }
        proof {
            assert(eview.take(eview.len() as int) =~= eview);
            assert(parts_valid(labels@, eview));
        }
        Some(trie)
    }
}



/// Lookup in an association list where later entries override earlier ones,
/// as a map built by repeated insertion would.
pub open spec fn assoc_lookup(s: Seq<(Seq<usize>, i64)>, k: Seq<usize>) -> Option<i64>
    decreases s.len(),
{
    if s.len() == 0 {
        None
    } else if s.last().0 == k {
        Some(s.last().1)
    } else {
        assoc_lookup(s.drop_last(), k)
    }
}

/// The all-zero rack composition: no tiles left.
pub open spec fn zero_composition() -> Seq<usize> {
    Seq::new(27, |i: int| 0usize)
}

/// Whether two composition vectors are equal.
pub fn vec_eq_usize(a: &Vec<usize>, b: &Vec<usize>) -> (r: bool)
    ensures
        r == (a@ == b@),
{
    if a.len() != b.len() {
        return false;
    }
    let mut i: usize = 0;
    while i < a.len()
        invariant
            i <= a@.len(),
            a@.len() == b@.len(),
            forall|j: int| 0 <= j < i ==> a@[j] == b@[j],
        decreases a@.len() - i,
    {
        if a[i] != b[i] {
            return false;
        }
        i = i + 1;
    }
    proof {
        assert(a@ =~= b@);
    }
    true
}

/// The endgame leave-value table: rack composition vectors (27 per-letter
/// counts) mapped to a heuristic value in thousandths.
pub struct Dictionary {
    pub leaves: Vec<(Vec<usize>, i64)>,
}

impl Dictionary {
    /// The table as entries over plain sequences.
    pub open spec fn entries(self) -> Seq<(Seq<usize>, i64)> {
        self.leaves@.map_values(|e: (Vec<usize>, i64)| (e.0@, e.1))
    }

    /// What a composition is worth; the last entry for a key wins.
    pub open spec fn lookup(self, k: Seq<usize>) -> Option<i64> {
        assoc_lookup(self.entries(), k)
    }

    /// An empty leave table.
    pub fn new() -> (r: Dictionary)
        ensures
            r.entries() == Seq::<(Seq<usize>, i64)>::empty(),
    {
        let d = Dictionary { leaves: Vec::new() };
        proof {
            assert(d.entries() =~= Seq::<(Seq<usize>, i64)>::empty());
        }
        d
    }

    /// Adds an entry, overriding any earlier entry for the same composition.
    pub fn insert(&mut self, key: Vec<usize>, value: i64)
        ensures
            final(self).entries() == old(self).entries().push((key@, value)),
    {
        let ghost k = key@;
        self.leaves.push((key, value));
        proof {
            assert(final(self).entries() =~= old(self).entries().push((k, value)));
        }
    }

    /// The heuristic value of a rack composition; `None` means the
    /// composition was never observed, which callers treat as no bonus.
    pub fn evaluate(&self, rack: &Vec<usize>) -> (r: Option<i64>)
        ensures
            r == self.lookup(rack@),
    {
        let mut i: usize = self.leaves.len();
        proof {
            assert(self.entries().take(self.entries().len() as int) =~= self.entries());
        }
        while i > 0
            invariant
                i <= self.entries().len(),
                self.leaves@.len() == self.entries().len(),
                assoc_lookup(self.entries().take(i as int), rack@) == self.lookup(rack@),
            decreases i,
        {
            i = i - 1;
            let eq = vec_eq_usize(&self.leaves[i].0, rack);
            proof {
                let pre = self.entries().take(i + 1);
                assert(pre.last() == self.entries()[i as int]);
                assert(pre.drop_last() =~= self.entries().take(i as int));
            }
            if eq {
                return Some(self.leaves[i].1);
            }
        }
        proof {
            assert(self.entries().take(0) =~= Seq::<(Seq<usize>, i64)>::empty());
        }
        None
    }

    /// Builds the table from parsed leave lines and pins the all-zero
    /// composition (an empty rack) at value 0.
    pub fn with_leaves(parsed: &Vec<(Vec<usize>, i64)>) -> (r: Dictionary)
        ensures
            r.lookup(zero_composition()) == Some(0i64),
            forall|k: Seq<usize>|
                k != zero_composition() ==> #[trigger] r.lookup(k) == assoc_lookup(
                    parsed@.map_values(|e: (Vec<usize>, i64)| (e.0@, e.1)),
                    k,
                ),
    {
        let mut d = Dictionary::new();
        let mut i: usize = 0;
        while i < parsed.len()
            invariant
                i <= parsed@.len(),
                d.entries() == parsed@.map_values(|e: (Vec<usize>, i64)| (e.0@, e.1)).take(
                    i as int,
                ),
            decreases parsed@.len() - i,
        {
            let (k, v) = (clone_usize_vec(&parsed[i].0), parsed[i].1);
            d.insert(k, v);
            proof {
                assert(d.entries() =~= parsed@.map_values(
                    |e: (Vec<usize>, i64)| (e.0@, e.1),
                ).take(i + 1));
            }
            i = i + 1;
        }
        let mut zeros: Vec<usize> = Vec::new();
        let mut z: usize = 0;
        while z < 27
            invariant
                z <= 27,
                zeros@.len() == z,
                forall|j: int| 0 <= j < z ==> zeros@[j] == 0usize,
            decreases 27 - z,
        {
            zeros.push(0);
            z = z + 1;
        }
        proof {
            assert(zeros@ =~= zero_composition());
        }
        let ghost all = parsed@.map_values(|e: (Vec<usize>, i64)| (e.0@, e.1));
        d.insert(zeros, 0);
        proof {
            assert(all.take(parsed@.len() as int) =~= all);
            let fin = all.push((zero_composition(), 0i64));
            assert(fin.last() == (zero_composition(), 0i64));
            assert(fin.drop_last() =~= all);
        }
        d
    }
}

/// A plain copy of a composition vector.
fn clone_usize_vec(v: &Vec<usize>) -> (r: Vec<usize>)
    ensures
        r@ == v@,
{
    let mut r: Vec<usize> = Vec::new();
    let mut i: usize = 0;
    while i < v.len()
        invariant
            i <= v@.len(),
            r@ == v@.take(i as int),
        decreases v@.len() - i,
    {
        r.push(v[i]);
        proof {
            assert(r@ =~= v@.take(i + 1));
        }
        i = i + 1;
    }
    proof {
        assert(v@.take(v@.len() as int) =~= v@);
    }
    r
}


} // verus!
