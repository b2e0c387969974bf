//! Mathematical model of suffix tries and suffix trees.
//!
//! `SNode`/`SEdge` mirror the executable `TreeNode`/`Edge` at the
//! specification level: edges carry a label (a sequence of symbols) and a
//! target subtree, and a node optionally carries the index of the suffix
//! that ends at it.

use vstd::prelude::*;

verus! {

use crate::SENTINEL;

broadcast use vstd::seq::group_seq_axioms;

/// Specification-level tree node: an ordered sequence of outgoing edges and
/// an optional suffix index (present exactly at leaves).
#[verifier::ext_equal]
pub struct SNode {
    pub edges: Seq<SEdge>,
    pub index: Option<u32>,
}

/// Specification-level edge: a non-empty label, the cached label length,
/// and the child the edge leads to.
#[verifier::ext_equal]
pub struct SEdge {
    pub label: Seq<char>,
    pub llen: nat,
    pub target: SNode,
}

/// The node a fresh tree starts from: no edges, no index.
pub open spec fn empty_node() -> SNode {
    SNode { edges: Seq::empty(), index: None }
}

/// Leading symbol of an edge's label; sibling edges are ordered by it.
pub open spec fn lead(e: SEdge) -> char {
    e.label[0]
}

/// Number of nodes in the tree (the node itself plus all descendants).
pub open spec fn node_size(t: SNode) -> nat
    decreases t, 0int,
{
    1 + edges_size(t.edges, t.edges.len() as int)
}

/// Total node count of the subtrees hanging off the first `k` edges.
pub open spec fn edges_size(es: Seq<SEdge>, k: int) -> nat
    decreases es, k,
{
    if k <= 0 || es.len() < k {
        0
    } else {
        edges_size(es, k - 1) + node_size(es[k - 1].target)
    }
}

/// The set of leaves below a node, as pairs of (path word, suffix index):
/// the word spelled by concatenating edge labels from the node down to the
/// leaf, together with the index stored at that leaf.
pub open spec fn leaves(t: SNode) -> Set<(Seq<char>, u32)>
    decreases t, 0int,
{
    if t.edges.len() == 0 {
        match t.index {
            Some(ix) => set![(Seq::<char>::empty(), ix)],
            None => Set::empty(),
        }
    } else {
        edges_leaves(t.edges, t.edges.len() as int)
    }
}

/// Leaves contributed by the first `k` edges.
pub open spec fn edges_leaves(es: Seq<SEdge>, k: int) -> Set<(Seq<char>, u32)>
    decreases es, k,
{
    if k <= 0 || es.len() < k {
        Set::empty()
    } else {
        edges_leaves(es, k - 1).union(edge_leaves(es[k - 1]))
    }
}

/// Leaves reachable through one edge: the leaves of its target, each word
/// extended on the front with the edge's label.
pub open spec fn edge_leaves(e: SEdge) -> Set<(Seq<char>, u32)>
    decreases e, 1int,
{
    prefixed(e.label, leaves(e.target))
}

/// Every leaf word of `s`, with the prefix `p` spliced on the front.
pub open spec fn prefixed(p: Seq<char>, s: Set<(Seq<char>, u32)>) -> Set<(Seq<char>, u32)> {
    Set::new(|x: (Seq<char>, u32)| exists|w: Seq<char>| s.contains((w, x.1)) && x.0 == p + w)
}

/// Well-formedness: labels are non-empty with a correct cached length,
/// sibling edges are strictly ordered by their leading symbol, and an index
/// is stored only at leaves.
pub open spec fn wf(t: SNode) -> bool
    decreases t, 0int,
{
    &&& (t.index is Some ==> t.edges.len() == 0)
    &&& (forall|i: int|
        0 <= i < t.edges.len() ==> (#[trigger] t.edges[i]).label.len() >= 1 && t.edges[i].llen
            == t.edges[i].label.len())
    &&& (forall|i: int, j: int|
        0 <= i < j < t.edges.len() ==> (lead(#[trigger] t.edges[i]) as u32) < (lead(
            #[trigger] t.edges[j],
        ) as u32))
    &&& edges_wf(t.edges, t.edges.len() as int)
}

/// Well-formedness of the subtrees below the first `k` edges.
pub open spec fn edges_wf(es: Seq<SEdge>, k: int) -> bool
    decreases es, k,
{
    if k <= 0 || es.len() < k {
        true
    } else {
        edges_wf(es, k - 1) && wf(es[k - 1].target)
    }
}

/// Number of leaves of the tree, counted over its structure.
pub open spec fn num_leaves(t: SNode) -> nat
    decreases t, 0int,
{
    if t.edges.len() == 0 {
        if t.index is Some {
            1
        } else {
            0
        }
    } else {
        edges_num(t.edges, t.edges.len() as int)
    }
}

/// Leaves below the first `k` edges, counted.
pub open spec fn edges_num(es: Seq<SEdge>, k: int) -> nat
    decreases es, k,
{
    if k <= 0 || es.len() < k {
        0
    } else {
        edges_num(es, k - 1) + num_leaves(es[k - 1].target)
    }
}

/// Counting leaves sees only the first `k` edges.
pub proof fn lemma_edges_num_congruent(a: Seq<SEdge>, b: Seq<SEdge>, k: int)
    requires
        0 <= k <= a.len(),
        k <= b.len(),
        forall|i: int| 0 <= i < k ==> a[i] == b[i],
    ensures
        edges_num(a, k) == edges_num(b, k),
    decreases k,
{
    if k > 0 {
        lemma_edges_num_congruent(a, b, k - 1);
    }
}

/// Replacing the subtree below one edge changes the count by the
/// difference of the two subtrees' counts.
pub proof fn lemma_edges_num_update(es: Seq<SEdge>, k: int, j: int, e: SEdge)
    requires
        0 <= j < k <= es.len(),
    ensures
        edges_num(es.update(j, e), k) + num_leaves(es[j].target) == edges_num(es, k)
            + num_leaves(e.target),
    decreases k,
{
    if k - 1 > j {
        lemma_edges_num_update(es, k - 1, j, e);
        assert(es.update(j, e)[k - 1] == es[k - 1]);
    } else {
        lemma_edges_num_congruent(es.update(j, e), es, k - 1);
        assert(es.update(j, e)[k - 1] == e);
    }
}

/// Inserting one edge adds the count of its subtree.
pub proof fn lemma_edges_num_insert(es: Seq<SEdge>, k: int, j: int, e: SEdge)
    requires
        0 <= j <= k <= es.len(),
    ensures
        edges_num(es.insert(j, e), k + 1) == edges_num(es, k) + num_leaves(e.target),
    decreases k,
{
    es.insert_ensures(j, e);
    if j == k {
        lemma_edges_num_congruent(es.insert(j, e), es, k);
    } else {
        lemma_edges_num_insert(es, k - 1, j, e);
        assert(es.insert(j, e)[k] == es[k - 1]);
    }
}

/// Shape of one raw-trie edge: a sentinel edge ends in a leaf carrying an
/// index; any other edge leads to a node that is itself a raw trie.
pub open spec fn edge_trie(e: SEdge) -> bool
    decreases e, 1int,
{
    if lead(e) == SENTINEL {
        e.target.edges.len() == 0 && e.target.index is Some
    } else {
        trie_inv(e.target)
    }
}

/// Raw (uncontracted) suffix trie: every label is a single symbol with a
/// correct cached length, sibling edges are strictly ordered by their
/// symbol, interior nodes carry no index, and every subtree is again a trie.
pub open spec fn trie_inv(t: SNode) -> bool
    decreases t, 2int,
{
    &&& t.index is None
    &&& (forall|i: int|
        0 <= i < t.edges.len() ==> (#[trigger] t.edges[i]).label.len() == 1 && t.edges[i].llen
            == 1)
    &&& (forall|i: int, j: int|
        0 <= i < j < t.edges.len() ==> (lead(#[trigger] t.edges[i]) as u32) < (lead(
            #[trigger] t.edges[j],
        ) as u32))
    &&& edges_trie(t.edges, t.edges.len() as int)
}

/// `edge_trie` for the first `k` edges.
pub open spec fn edges_trie(es: Seq<SEdge>, k: int) -> bool
    decreases es, k,
{
    if k <= 0 || es.len() < k {
        true
    } else {
        edges_trie(es, k - 1) && edge_trie(es[k - 1])
    }
}

/// First position at or after `k` whose edge's leading symbol is at least
/// `c`; the length of the sequence if there is none. On edges strictly
/// sorted by leading symbol this is where an edge leading with `c` sits, or
/// where it must be inserted.
pub open spec fn pos_first(es: Seq<SEdge>, c: char, k: int) -> int
    decreases es.len() - k,
{
    if k < 0 || k >= es.len() {
        es.len() as int
    } else if (lead(es[k]) as u32) >= (c as u32) {
        k
    } else {
        pos_first(es, c, k + 1)
    }
}

/// Sorted position of leading symbol `c` among a node's edges.
pub open spec fn pos_of(es: Seq<SEdge>, c: char) -> int {
    pos_first(es, c, 0)
}

/// A leaf node recording that the suffix starting at offset `ix` ends here.
pub open spec fn leaf_node(ix: u32) -> SNode {
    SNode { edges: Seq::empty(), index: Some(ix) }
}

/// A single-symbol edge.
pub open spec fn single_edge(c: char, t: SNode) -> SEdge {
    SEdge { label: seq![c], llen: 1, target: t }
}

/// A well-formed suffix of a ranked string: non-empty, ends in the
/// sentinel, and contains the sentinel nowhere else.
pub open spec fn valid_suffix(s: Seq<char>) -> bool {
    &&& s.len() >= 1
    &&& s[s.len() - 1] == SENTINEL
    &&& (forall|i: int| 0 <= i < s.len() - 1 ==> s[i] != SENTINEL)
}

/// Insertion of one suffix into a raw trie, at the specification level.
/// Mirrors the executable insertion: walk the single-symbol edge matching
/// the leading symbol (creating it in sorted position if absent); at the
/// sentinel, add a sentinel edge to a fresh leaf carrying the index.
pub open spec fn spec_insert(t: SNode, suffix: Seq<char>, ix: u32) -> SNode
    decreases suffix.len(),
{
    if suffix.len() == 0 {
        t
    } else {
        let c = suffix[0];
        let j = pos_of(t.edges, c);
        if c == SENTINEL {
            SNode { edges: t.edges.insert(j, single_edge(c, leaf_node(ix))), index: t.index }
        } else if j < t.edges.len() && lead(t.edges[j]) == c {
            SNode {
                edges: t.edges.update(
                    j,
                    single_edge(c, spec_insert(t.edges[j].target, suffix.skip(1), ix)),
                ),
                index: t.index,
            }
        } else {
            SNode {
                edges: t.edges.insert(
                    j,
                    single_edge(c, spec_insert(empty_node(), suffix.skip(1), ix)),
                ),
                index: t.index,
            }
        }
    }
}

/// Membership in the union of the leaf sets of the first `k` edges.
pub proof fn lemma_edges_leaves_mem(es: Seq<SEdge>, k: int)
    requires
        0 <= k <= es.len(),
    ensures
        forall|x: (Seq<char>, u32)|
            #[trigger] edges_leaves(es, k).contains(x) <==> exists|i: int|
                0 <= i < k && (#[trigger] edge_leaves(es[i])).contains(x),
    decreases k,
{
    if k > 0 {
        lemma_edges_leaves_mem(es, k - 1);
        assert forall|x: (Seq<char>, u32)| #[trigger]
            edges_leaves(es, k).contains(x) implies exists|i: int|
            0 <= i < k && (#[trigger] edge_leaves(es[i])).contains(x) by {
            if edges_leaves(es, k - 1).contains(x) {
                let i = choose|i: int| 0 <= i < k - 1 && (#[trigger] edge_leaves(es[i])).contains(
                    x,
                );
                assert(edge_leaves(es[i]).contains(x));
            } else {
                assert(edge_leaves(es[k - 1]).contains(x));
            }
        }
        assert forall|x: (Seq<char>, u32)|
            (exists|i: int|
                0 <= i < k && (#[trigger] edge_leaves(es[i])).contains(x)) implies #[trigger]
            edges_leaves(es, k).contains(x) by {
            let i = choose|i: int| 0 <= i < k && (#[trigger] edge_leaves(es[i])).contains(x);
            if i < k - 1 {
                assert(edges_leaves(es, k - 1).contains(x));
            }
        }
    }
}

/// Membership in the leaf set of a node that carries no index.
pub proof fn lemma_leaves_mem(t: SNode)
    requires
        t.index is None,
    ensures
        forall|x: (Seq<char>, u32)|
            #[trigger] leaves(t).contains(x) <==> exists|i: int|
                0 <= i < t.edges.len() && (#[trigger] edge_leaves(t.edges[i])).contains(x),
{
    if t.edges.len() == 0 {
        assert(leaves(t) =~= Set::<(Seq<char>, u32)>::empty());
    } else {
        let n = t.edges.len() as int;
        lemma_edges_leaves_mem(t.edges, n);
        assert forall|x: (Seq<char>, u32)| #[trigger]
            leaves(t).contains(x) implies exists|i: int|
            0 <= i < t.edges.len() && (#[trigger] edge_leaves(t.edges[i])).contains(x) by {
            assert(edges_leaves(t.edges, n).contains(x));
        }
        assert forall|x: (Seq<char>, u32)|
            (exists|i: int|
                0 <= i < t.edges.len() && (#[trigger] edge_leaves(t.edges[i])).contains(
                    x,
                )) implies #[trigger] leaves(t).contains(x) by {
            assert(edges_leaves(t.edges, n).contains(x));
        }
    }
}

/// `edges_trie` says exactly that each of the first `k` edges is trie-shaped.
pub proof fn lemma_edges_trie_iff(es: Seq<SEdge>, k: int)
    requires
        0 <= k <= es.len(),
    ensures
        edges_trie(es, k) <==> (forall|i: int| 0 <= i < k ==> edge_trie(#[trigger] es[i])),
    decreases k,
{
    if k > 0 {
        lemma_edges_trie_iff(es, k - 1);
    }
}

/// `edges_wf` says exactly that each of the first `k` subtrees is well-formed.
pub proof fn lemma_edges_wf_iff(es: Seq<SEdge>, k: int)
    requires
        0 <= k <= es.len(),
    ensures
        edges_wf(es, k) <==> (forall|i: int| 0 <= i < k ==> wf(#[trigger] es[i].target)),
    decreases k,
{
    if k > 0 {
        lemma_edges_wf_iff(es, k - 1);
    }
}

/// What `pos_first` finds: everything before it leads with a symbol below
/// `c`, and the position itself (if in range) leads with at least `c`.
pub proof fn lemma_pos_first_props(es: Seq<SEdge>, c: char, k: int)
    requires
        0 <= k <= es.len(),
    ensures
        k <= pos_first(es, c, k) <= es.len(),
        forall|i: int|
            k <= i < pos_first(es, c, k) ==> (lead(#[trigger] es[i]) as u32) < (c as u32),
        pos_first(es, c, k) < es.len() ==> (lead(es[pos_first(es, c, k)]) as u32) >= (c as u32),
    decreases es.len() - k,
{
    if k < es.len() && (lead(es[k]) as u32) < (c as u32) {
        lemma_pos_first_props(es, c, k + 1);
    }
}

/// Any position with the properties of `pos_of` is `pos_of`.
pub proof fn lemma_pos_of_unique(es: Seq<SEdge>, c: char, j: int)
    requires
        0 <= j <= es.len(),
        forall|i: int| 0 <= i < j ==> (lead(#[trigger] es[i]) as u32) < (c as u32),
        j < es.len() ==> (lead(es[j]) as u32) >= (c as u32),
    ensures
        pos_of(es, c) == j,
{
    lemma_pos_first_props(es, c, 0);
    let p = pos_of(es, c);
    if p < j {
        assert((lead(es[p]) as u32) < (c as u32));
    }
    if j < p {
        assert((lead(es[j]) as u32) < (c as u32));
    }
}

/// A non-empty sequence is its head followed by its tail.
pub proof fn lemma_head_tail(s: Seq<char>)
    requires
        s.len() >= 1,
    ensures
        s == seq![s[0]] + s.skip(1),
{
    assert(s =~= seq![s[0]] + s.skip(1));
}

/// Inserting one suffix into a raw trie keeps it a raw trie and adds exactly
/// one leaf, carrying the whole suffix as its word and the given index.
#[verifier::rlimit(100)]
pub proof fn lemma_spec_insert(t: SNode, s: Seq<char>, ix: u32)
    requires
        trie_inv(t),
        valid_suffix(s),
        forall|j: u32| !(#[trigger] leaves(t).contains((s, j))),
    ensures
        trie_inv(spec_insert(t, s, ix)),
        leaves(spec_insert(t, s, ix)) == leaves(t).insert((s, ix)),
        num_leaves(spec_insert(t, s, ix)) == num_leaves(t) + 1,
    decreases s.len(),
{
    let es = t.edges;
    let n = es.len() as int;
    let c = s[0];
    let j = pos_of(es, c);
    lemma_pos_first_props(es, c, 0);
    lemma_edges_trie_iff(es, n);
    lemma_leaves_mem(t);
    let t2 = spec_insert(t, s, ix);
    let tail = s.skip(1);
    lemma_head_tail(s);
    if c == SENTINEL {
        // the sentinel occurs only at the end, so here the suffix is the
        // one-symbol sentinel word
        assert(s.len() == 1);
        assert(s =~= seq![c]);
        let leafn = leaf_node(ix);
        assert(leaves(leafn) =~= set![(Seq::<char>::empty(), ix)]);
        let ne = single_edge(c, leafn);
        // the new edge carries exactly the leaf (s, ix)
        assert(seq![c] + Seq::<char>::empty() =~= s);
        assert(edge_leaves(ne).contains((s, ix)));
        assert forall|x: (Seq<char>, u32)| #[trigger]
            edge_leaves(ne).contains(x) implies x == (s, ix) by {
            let w = choose|w: Seq<char>| leaves(leafn).contains((w, x.1)) && x.0 == seq![c] + w;
            assert(w =~= Seq::<char>::empty());
            assert(x.0 =~= s);
        }
        // no sentinel edge exists yet: it would already carry the word s
        assert forall|i: int| 0 <= i < n implies lead(#[trigger] es[i]) != c by {
            if lead(es[i]) == c {
                assert(edge_trie(es[i]));
                let jx = es[i].target.index->0;
                assert(leaves(es[i].target) =~= set![(Seq::<char>::empty(), jx)]);
                assert(es[i].label =~= seq![c]);
                assert(edge_leaves(es[i]).contains((s, jx)));
                assert(leaves(t).contains((s, jx)));
            }
        }
        let es2 = es.insert(j, ne);
        es.insert_ensures(j, ne);
        assert(t2.edges == es2 && t2.index == t.index);
        // ordering and shape of the new edge list
        assert forall|a: int, b: int| 0 <= a < b < es2.len() implies (lead(#[trigger] es2[a])
            as u32) < (lead(#[trigger] es2[b]) as u32) by {
            if b < j {
            } else if a < j && b == j {
                assert(es2[a] == es[a]);
            } else if a < j && b > j {
                assert(es2[a] == es[a] && es2[b] == es[b - 1]);
                if b - 1 == j {
                    assert((lead(es[j]) as u32) >= (c as u32));
                } else {
                }
            } else if a == j {
                assert(es2[b] == es[b - 1]);
                assert((lead(es[b - 1]) as u32) >= (c as u32));
                assert(lead(es[b - 1]) != c);
            } else {
            }
        }
        assert forall|i: int| 0 <= i < es2.len() implies (#[trigger] es2[i]).label.len() == 1
            && es2[i].llen == 1 && edge_trie(es2[i]) by {
            if i < j {
                assert(es2[i] == es[i]);
            } else if i == j {
                assert(lead(ne) == c);
            } else {
                assert(es2[i] == es[i - 1]);
            }
        }
        lemma_edges_trie_iff(es2, n + 1);
        assert(trie_inv(t2));
        // the leaf set gains exactly (s, ix)
        lemma_leaves_mem(t2);
        assert forall|x: (Seq<char>, u32)| #[trigger]
            leaves(t2).contains(x) implies leaves(t).insert((s, ix)).contains(x) by {
            let i = choose|i: int| 0 <= i < es2.len() && (#[trigger] edge_leaves(
                es2[i],
            )).contains(x);
            if i < j {
                assert(es2[i] == es[i]);
                assert(leaves(t).contains(x));
            } else if i == j {
                assert(x == (s, ix));
            } else {
                assert(es2[i] == es[i - 1]);
                assert(leaves(t).contains(x));
            }
        }
        assert forall|x: (Seq<char>, u32)| #[trigger]
            leaves(t).insert((s, ix)).contains(x) implies leaves(t2).contains(x) by {
            if x == (s, ix) {
                assert(es2[j] == ne);
                assert(edge_leaves(es2[j]).contains(x));
            } else {
                assert(leaves(t).contains(x));
                let i = choose|i: int| 0 <= i < n && (#[trigger] edge_leaves(es[i])).contains(x);
                if i < j {
                    assert(es2[i] == es[i]);
                    assert(edge_leaves(es2[i]).contains(x));
                } else {
                    assert(es2[i + 1] == es[i]);
                    assert(edge_leaves(es2[i + 1]).contains(x));
                }
            }
        }
        assert(leaves(t2) =~= leaves(t).insert((s, ix)));
        lemma_edges_num_insert(es, n, j, ne);
        assert(num_leaves(leafn) == 1);
        assert(num_leaves(t) == edges_num(es, n));
        assert(num_leaves(t2) == edges_num(es2, n + 1));
    } else if j < n && lead(es[j]) == c {
        let sub = es[j].target;
        assert(edge_trie(es[j]));
        assert(trie_inv(sub));
        assert(valid_suffix(tail));
        assert(es[j].label =~= seq![c]);
        assert forall|jx: u32| !(#[trigger] leaves(sub).contains((tail, jx))) by {
            if leaves(sub).contains((tail, jx)) {
                assert(edge_leaves(es[j]).contains((seq![c] + tail, jx)));
                assert(leaves(t).contains((s, jx)));
            }
        }
        lemma_spec_insert(sub, tail, ix);
        let sub2 = spec_insert(sub, tail, ix);
        let ne = single_edge(c, sub2);
        let es2 = es.update(j, ne);
        assert(t2.edges == es2 && t2.index == t.index);
        assert forall|i: int| 0 <= i < es2.len() implies (#[trigger] es2[i]).label.len() == 1
            && es2[i].llen == 1 && edge_trie(es2[i]) by {
            if i != j {
                assert(es2[i] == es[i]);
            }
        }
        assert forall|a: int, b: int| 0 <= a < b < es2.len() implies (lead(#[trigger] es2[a])
            as u32) < (lead(#[trigger] es2[b]) as u32) by {
            assert(lead(es2[a]) == lead(es[a]) && lead(es2[b]) == lead(es[b]));
        }
        lemma_edges_trie_iff(es2, n);
        assert(trie_inv(t2));
        lemma_leaves_mem(t2);
        assert forall|x: (Seq<char>, u32)| #[trigger]
            leaves(t2).contains(x) implies leaves(t).insert((s, ix)).contains(x) by {
            let i = choose|i: int| 0 <= i < es2.len() && (#[trigger] edge_leaves(
                es2[i],
            )).contains(x);
            if i != j {
                assert(es2[i] == es[i]);
                assert(leaves(t).contains(x));
            } else {
                let w = choose|w: Seq<char>| leaves(sub2).contains((w, x.1)) && x.0 == seq![c]
                    + w;
                if (w, x.1) == (tail, ix) {
                    assert(x.0 =~= s);
                    assert(x == (s, ix));
                } else {
                    assert(leaves(sub).contains((w, x.1)));
                    assert(edge_leaves(es[j]).contains(x));
                    assert(leaves(t).contains(x));
                }
            }
        }
        assert forall|x: (Seq<char>, u32)| #[trigger]
            leaves(t).insert((s, ix)).contains(x) implies leaves(t2).contains(x) by {
            if x == (s, ix) {
                assert(leaves(sub2).contains((tail, ix)));
                assert(es2[j] == ne);
                assert(edge_leaves(es2[j]).contains((seq![c] + tail, ix)));
                assert(seq![c] + tail =~= s);
            } else {
                assert(leaves(t).contains(x));
                let i = choose|i: int| 0 <= i < n && (#[trigger] edge_leaves(es[i])).contains(x);
                if i != j {
                    assert(es2[i] == es[i]);
                    assert(edge_leaves(es2[i]).contains(x));
                } else {
                    let w = choose|w: Seq<char>| leaves(sub).contains((w, x.1)) && x.0 == seq![c]
                        + w;
                    assert(leaves(sub2).contains((w, x.1)));
                    assert(edge_leaves(es2[j]).contains(x));
                }
            }
        }
        assert(leaves(t2) =~= leaves(t).insert((s, ix)));
        lemma_edges_num_update(es, n, j, ne);
        assert(num_leaves(t) == edges_num(es, n));
        assert(num_leaves(t2) == edges_num(es2, n));
    } else {
        assert(trie_inv(empty_node()));
        assert(leaves(empty_node()) =~= Set::<(Seq<char>, u32)>::empty());
        lemma_spec_insert(empty_node(), tail, ix);
        let sub2 = spec_insert(empty_node(), tail, ix);
        assert(leaves(sub2) =~= Set::<(Seq<char>, u32)>::empty().insert((tail, ix)));
        let ne = single_edge(c, sub2);
        let es2 = es.insert(j, ne);
        es.insert_ensures(j, ne);
        assert(t2.edges == es2 && t2.index == t.index);
        assert forall|a: int, b: int| 0 <= a < b < es2.len() implies (lead(#[trigger] es2[a])
            as u32) < (lead(#[trigger] es2[b]) as u32) by {
            if b < j {
            } else if a < j && b == j {
                assert(es2[a] == es[a]);
            } else if a < j && b > j {
                assert(es2[a] == es[a] && es2[b] == es[b - 1]);
                if b - 1 == j {
                    assert((lead(es[j]) as u32) >= (c as u32));
                    assert(lead(es[j]) != c);
                } else {
                    assert((lead(es[j]) as u32) >= (c as u32));
                    assert(lead(es[j]) != c);
                    assert((lead(es[b - 1]) as u32) > (lead(es[j]) as u32));
                }
            } else if a == j {
                assert(es2[b] == es[b - 1]);
                if b - 1 == j {
                    assert((lead(es[j]) as u32) >= (c as u32));
                    assert(lead(es[j]) != c);
                } else {
                    if j < n {
                        assert((lead(es[j]) as u32) >= (c as u32));
                        assert(lead(es[j]) != c);
                        assert((lead(es[b - 1]) as u32) > (lead(es[j]) as u32));
                    }
                }
            } else {
                assert(es2[a] == es[a - 1] && es2[b] == es[b - 1]);
            }
        }
        assert forall|i: int| 0 <= i < es2.len() implies (#[trigger] es2[i]).label.len() == 1
            && es2[i].llen == 1 && edge_trie(es2[i]) by {
            if i < j {
                assert(es2[i] == es[i]);
            } else if i == j {
                assert(lead(ne) == c && c != SENTINEL);
            } else {
                assert(es2[i] == es[i - 1]);
            }
        }
        lemma_edges_trie_iff(es2, n + 1);
        assert(trie_inv(t2));
        lemma_leaves_mem(t2);
        assert forall|x: (Seq<char>, u32)| #[trigger]
            leaves(t2).contains(x) implies leaves(t).insert((s, ix)).contains(x) by {
            let i = choose|i: int| 0 <= i < es2.len() && (#[trigger] edge_leaves(
                es2[i],
            )).contains(x);
            if i < j {
                assert(es2[i] == es[i]);
                assert(leaves(t).contains(x));
            } else if i == j {
                let w = choose|w: Seq<char>| leaves(sub2).contains((w, x.1)) && x.0 == seq![c]
                    + w;
                assert((w, x.1) == (tail, ix));
                assert(x.0 =~= s);
                assert(x == (s, ix));
            } else {
                assert(es2[i] == es[i - 1]);
                assert(leaves(t).contains(x));
            }
        }
        assert forall|x: (Seq<char>, u32)| #[trigger]
            leaves(t).insert((s, ix)).contains(x) implies leaves(t2).contains(x) by {
            if x == (s, ix) {
                assert(leaves(sub2).contains((tail, ix)));
                assert(es2[j] == ne);
                assert(edge_leaves(es2[j]).contains((seq![c] + tail, ix)));
                assert(seq![c] + tail =~= s);
            } else {
                assert(leaves(t).contains(x));
                let i = choose|i: int| 0 <= i < n && (#[trigger] edge_leaves(es[i])).contains(x);
                if i < j {
                    assert(es2[i] == es[i]);
                    assert(edge_leaves(es2[i]).contains(x));
                } else {
                    assert(es2[i + 1] == es[i]);
                    assert(edge_leaves(es2[i + 1]).contains(x));
                }
            }
        }
        assert(leaves(t2) =~= leaves(t).insert((s, ix)));
        lemma_edges_num_insert(es, n, j, ne);
        assert(num_leaves(sub2) == 1);
        assert(num_leaves(t) == edges_num(es, n));
        assert(num_leaves(t2) == edges_num(es2, n + 1));
    }
}

/// The tail of a sentinel-terminated suffix whose head is not the sentinel
/// is again a sentinel-terminated suffix.
pub proof fn lemma_valid_tail(s: Seq<char>)
    requires
        valid_suffix(s),
        s[0] != SENTINEL,
    ensures
        valid_suffix(s.skip(1)),
{
    assert(s.len() >= 2);
    let tail = s.skip(1);
    assert(tail[tail.len() - 1] == s[s.len() - 1]);
    assert forall|i: int| 0 <= i < tail.len() - 1 implies tail[i] != SENTINEL by {
        assert(tail[i] == s[i + 1]);
    }
}

/// A suffix absent from a trie is, with its head symbol removed, absent from
/// the subtree its head symbol leads to.
pub proof fn lemma_subtree_fresh(t: SNode, s: Seq<char>, j: int)
    requires
        trie_inv(t),
        s.len() >= 1,
        0 <= j < t.edges.len(),
        lead(t.edges[j]) == s[0],
        s[0] != SENTINEL,
        forall|jx: u32| !(#[trigger] leaves(t).contains((s, jx))),
    ensures
        trie_inv(t.edges[j].target),
        forall|jx: u32| !(#[trigger] leaves(t.edges[j].target).contains((s.skip(1), jx))),
{
    let tail = s.skip(1);
    lemma_head_tail(s);
    lemma_leaves_mem(t);
    lemma_edges_trie_iff(t.edges, t.edges.len() as int);
    assert(edge_trie(t.edges[j]));
    assert(t.edges[j].label =~= seq![s[0]]);
    assert forall|jx: u32| !(#[trigger] leaves(t.edges[j].target).contains((tail, jx))) by {
        if leaves(t.edges[j].target).contains((tail, jx)) {
            assert(edge_leaves(t.edges[j]).contains((seq![s[0]] + tail, jx)));
            assert(leaves(t).contains((s, jx)));
        }
    }
}

/// The raw suffix trie of `s` built from the suffixes starting at offsets
/// below `k`, inserted in offset order; the suffix starting at offset `i`
/// carries leaf index `2*i + 1`.
pub open spec fn spec_make(s: Seq<char>, k: int) -> SNode
    decreases k,
{
    if k <= 0 {
        empty_node()
    } else {
        spec_insert(spec_make(s, k - 1), s.skip(k - 1), (2 * (k - 1) + 1) as u32)
    }
}

/// The leaves the raw suffix trie of `s` must have, one per suffix starting
/// at an offset below `k`.
pub open spec fn suffix_leaves(s: Seq<char>, k: int) -> Set<(Seq<char>, u32)> {
    Set::new(
        |x: (Seq<char>, u32)|
            exists|i: int| 0 <= i < k && x == (s.skip(i), ((2 * i + 1) as u32)),
    )
}

/// Building the trie of the first `k` suffixes yields a raw trie whose leaf
/// set is exactly one leaf per suffix.
pub proof fn lemma_spec_make(s: Seq<char>, k: int)
    requires
        valid_suffix(s),
        0 <= k <= s.len(),
        s.len() <= 0x7FFF_FFFF,
    ensures
        trie_inv(spec_make(s, k)),
        leaves(spec_make(s, k)) == suffix_leaves(s, k),
        num_leaves(spec_make(s, k)) == (if k <= 0 { 0int } else { k }),
    decreases k,
{
    if k <= 0 {
        assert(leaves(empty_node()) =~= suffix_leaves(s, 0));
    } else {
        lemma_spec_make(s, k - 1);
        let t = spec_make(s, k - 1);
        let suf = s.skip(k - 1);
        let ix = (2 * (k - 1) + 1) as u32;
        assert(suf[suf.len() - 1] == s[s.len() - 1]);
        assert forall|i: int| 0 <= i < suf.len() - 1 implies suf[i] != SENTINEL by {
            assert(suf[i] == s[i + k - 1]);
        }
        assert forall|jx: u32| !(#[trigger] leaves(t).contains((suf, jx))) by {
            if leaves(t).contains((suf, jx)) {
                let i = choose|i: int|
                    0 <= i < k - 1 && (suf, jx) == (s.skip(i), ((2 * i + 1) as u32));
                assert(s.skip(i).len() == s.len() - i);
            }
        }
        lemma_spec_insert(t, suf, ix);
        assert forall|x: (Seq<char>, u32)| #[trigger]
            suffix_leaves(s, k).contains(x) implies leaves(t).insert((suf, ix)).contains(x) by {
            let i = choose|i: int| 0 <= i < k && x == (s.skip(i), ((2 * i + 1) as u32));
            if i < k - 1 {
                assert(suffix_leaves(s, k - 1).contains(x));
            }
        }
        assert forall|x: (Seq<char>, u32)| #[trigger]
            leaves(t).insert((suf, ix)).contains(x) implies suffix_leaves(s, k).contains(x) by {
            if x == (suf, ix) {
                assert(x == (s.skip(k - 1), ((2 * (k - 1) + 1) as u32)));
            } else {
                let i = choose|i: int|
                    0 <= i < k - 1 && x == (s.skip(i), ((2 * i + 1) as u32));
                assert(0 <= i < k && x == (s.skip(i), ((2 * i + 1) as u32)));
            }
        }
        assert(leaves(spec_make(s, k)) =~= suffix_leaves(s, k));
    }
}

/// A raw trie is in particular a well-formed tree.
pub proof fn lemma_trie_wf(t: SNode)
    requires
        trie_inv(t),
    ensures
        wf(t),
    decreases t,
{
    let n = t.edges.len() as int;
    lemma_edges_trie_iff(t.edges, n);
    assert forall|i: int| 0 <= i < n implies wf(#[trigger] t.edges[i].target) by {
        assert(edge_trie(t.edges[i]));
        if lead(t.edges[i]) == SENTINEL {
            assert(t.edges[i].target.edges.len() == 0);
            assert(edges_wf(t.edges[i].target.edges, 0));
        } else {
            lemma_trie_wf(t.edges[i].target);
        }
    }
    lemma_edges_wf_iff(t.edges, n);
}

} // verus!
