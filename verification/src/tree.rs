//! Executable suffix-trie construction: `TreeNode`/`Edge`, suffix insertion
//! and whole-trie building, verified against the model in `crate::model`.

use vstd::prelude::*;

verus! {

use crate::SENTINEL;
use crate::model::SNode;
use crate::model::SEdge;
use crate::model::empty_node;
use crate::model::lead;
use crate::model::leaves;
use crate::model::trie_inv;
use crate::model::valid_suffix;
use crate::model::spec_insert;
use crate::model::spec_make;
use crate::model::suffix_leaves;
use crate::model::num_leaves;
use crate::model::single_edge;
use crate::model::leaf_node;
use crate::model::lemma_pos_of_unique;
use crate::model::lemma_spec_insert;
use crate::model::lemma_spec_make;
use crate::model::wf;
use crate::model::lemma_trie_wf;
use crate::model::lemma_valid_tail;
use crate::model::lemma_subtree_fresh;

broadcast use vstd::seq::group_seq_axioms, vstd::std_specs::vec::group_vec_axioms;

/// A state of the suffix trie / suffix tree: an ordered table of outgoing
/// edges and, at leaves only, the start offset of the suffix ending here.
#[derive(Debug, PartialEq)]
pub struct TreeNode {
    pub edge_table: Vec<Edge>,
    pub index: Option<u32>,
}

/// An edge of the tree: the symbols consumed along it, the cached length of
/// that label, and the child node it leads to.
#[derive(Debug, PartialEq)]
pub struct Edge {
    pub label: Vec<char>,
    pub label_length: usize,
    pub target_node: TreeNode,
}

/// Abstraction of an executable node.
pub open spec fn node_view(n: TreeNode) -> SNode
    decreases n, 1int,
{
    SNode { edges: edges_view(n.edge_table@, n.edge_table@.len() as int), index: n.index }
}

/// Abstraction of the first `k` executable edges.
pub open spec fn edges_view(es: Seq<Edge>, k: int) -> Seq<SEdge>
    decreases es, k,
{
    if k <= 0 || es.len() < k {
        Seq::empty()
    } else {
        edges_view(es, k - 1).push(edge_view(es[k - 1]))
    }
}

/// Abstraction of one executable edge.
pub open spec fn edge_view(e: Edge) -> SEdge
    decreases e, 0int,
{
    SEdge { label: e.label@, llen: e.label_length as nat, target: node_view(e.target_node) }
}

impl View for TreeNode {
    type V = SNode;

    open spec fn view(&self) -> SNode {
        node_view(*self)
    }
}

impl View for Edge {
    type V = SEdge;

    open spec fn view(&self) -> SEdge {
        edge_view(*self)
    }
}

/// The abstraction of an edge table is pointwise the abstraction of its
/// edges.
pub proof fn lemma_edges_view(es: Seq<Edge>, k: int)
    requires
        0 <= k <= es.len(),
    ensures
        edges_view(es, k).len() == k,
        forall|i: int| 0 <= i < k ==> edges_view(es, k)[i] == edge_view(#[trigger] es[i]),
    decreases k,
{
    if k > 0 {
        lemma_edges_view(es, k - 1);
    }
}

impl TreeNode {
    /// A fresh node with no outgoing edges.
    pub fn new(index: Option<u32>) -> (r: TreeNode)
        ensures
            r@ == (SNode { edges: Seq::<SEdge>::empty(), index }),
    {
        TreeNode { edge_table: Vec::new(), index }
    }
}

impl Edge {
    /// An edge from the given label, cached label length and target.
    pub fn new(label: Vec<char>, label_length: usize, target_node: TreeNode) -> (r: Edge)
        ensures
            r@ == (SEdge { label: label@, llen: label_length as nat, target: target_node@ }),
    {
        Edge { label, label_length, target_node }
    }
}

/// The suffix of `v` that starts at offset `start`, as a fresh vector.
pub fn suffix_from(v: &Vec<char>, start: usize) -> (r: Vec<char>)
    requires
        start <= v@.len(),
    ensures
        r@ == v@.skip(start as int),
{
    let mut r: Vec<char> = Vec::new();
    let mut i: usize = start;
    while i < v.len()
        invariant
            start <= i <= v@.len(),
            r@ == v@.subrange(start as int, i as int),
        decreases v@.len() - i,
    {
        r.push(v[i]);
        proof {
            assert(v@.subrange(start as int, i + 1) =~= v@.subrange(start as int, i as int).push(
                v@[i as int],
            ));
        }
        i += 1;
    }
    proof {
        assert(r@ =~= v@.skip(start as int));
    }
    r
}

/// Insert the given sentinel-terminated suffix into the raw trie `root`,
/// recording `suffix_index` at the new leaf. The suffix must not already be
/// present; the result is again a raw trie, with exactly that leaf added.
#[verifier::rlimit(100)]
pub fn insert_suffix(root: TreeNode, suffix: Vec<char>, suffix_index: u32) -> (r: TreeNode)
    requires
        trie_inv(root@),
        valid_suffix(suffix@),
        forall|j: u32| !(#[trigger] leaves(root@).contains((suffix@, j))),
    ensures
        r@ == spec_insert(root@, suffix@, suffix_index),
        trie_inv(r@),
        leaves(r@) == leaves(root@).insert((suffix@, suffix_index)),
    decreases suffix@.len(),
{
    proof {
        lemma_spec_insert(root@, suffix@, suffix_index);
    }
    let ghost orig = root@;
    let mut node = root;
    let c = suffix[0];
    let n_edges = node.edge_table.len();
    proof {
        lemma_edges_view(node.edge_table@, n_edges as int);
        assert(orig.edges.len() == n_edges);
    }
    // find the sorted position of the leading symbol among the edges
    let mut j: usize = 0;
    while j < n_edges && (node.edge_table[j].label[0] as u32) < (c as u32)
        invariant
            0 <= j <= n_edges,
            n_edges == node.edge_table@.len(),
            trie_inv(orig),
            orig == node_view(node),
            orig.edges.len() == n_edges,
            forall|i: int|
                0 <= i < n_edges ==> orig.edges[i] == edge_view(#[trigger] node.edge_table@[i]),
            forall|i: int| 0 <= i < j ==> (lead(#[trigger] orig.edges[i]) as u32) < (c as u32),
        decreases n_edges - j,
    {
        proof {
            assert(orig.edges[j as int].label.len() == 1);
        }
        j += 1;
    }
    proof {
        if j < n_edges {
            assert(orig.edges[j as int].label.len() == 1);
        }
        lemma_pos_of_unique(orig.edges, c, j as int);
    }
    if c == SENTINEL {
        let mut lab: Vec<char> = Vec::new();
        lab.push(c);
        let leaf = TreeNode::new(Some(suffix_index));
        let e = Edge::new(lab, 1, leaf);
        let ghost ge = e;
        proof {
            assert(ge@.label =~= seq![c]);
            assert(ge@ =~= single_edge(c, leaf_node(suffix_index)));
        }
        let ghost before = node.edge_table@;
        node.edge_table.insert(j, e);
        proof {
            before.insert_ensures(j as int, ge);
            orig.edges.insert_ensures(j as int, ge@);
            lemma_edges_view(node.edge_table@, node.edge_table@.len() as int);
            let goal = orig.edges.insert(j as int, ge@);
            assert forall|i: int| 0 <= i < node.edge_table@.len() implies node_view(
                node,
            ).edges[i] == goal[i] by {
                assert(node_view(node).edges[i] == edge_view(node.edge_table@[i]));
                if i < j {
                    assert(node.edge_table@[i] == before[i]);
                } else if i == j {
                    assert(node.edge_table@[i] == ge);
                } else {
                    assert(node.edge_table@[i] == before[i - 1]);
                }
            }
            assert(node_view(node).edges =~= goal);
            assert(node@ =~= spec_insert(orig, suffix@, suffix_index));
        }
        node
    } else if j < n_edges && node.edge_table[j].label[0] == c {
        proof {
            assert(lead(orig.edges[j as int]) == c);
            lemma_valid_tail(suffix@);
            lemma_subtree_fresh(orig, suffix@, j as int);
        }
        let ghost tbl0 = node.edge_table@;
        let e = node.edge_table.remove(j);
        let Edge { label: _, label_length: _, target_node: sub } = e;
        let tail = suffix_from(&suffix, 1);
        proof {
            tbl0.remove_ensures(j as int);
            assert(sub@ == orig.edges[j as int].target);
        }
        let sub2 = insert_suffix(sub, tail, suffix_index);
        let mut lab: Vec<char> = Vec::new();
        lab.push(c);
        let e2 = Edge::new(lab, 1, sub2);
        let ghost ge2 = e2;
        proof {
            assert(ge2@.label =~= seq![c]);
            assert(ge2@ =~= single_edge(
                c,
                spec_insert(orig.edges[j as int].target, suffix@.skip(1), suffix_index),
            ));
        }
        let ghost mid = node.edge_table@;
        node.edge_table.insert(j, e2);
        proof {
            mid.insert_ensures(j as int, ge2);
            lemma_edges_view(node.edge_table@, node.edge_table@.len() as int);
            let goal = orig.edges.update(j as int, ge2@);
            assert forall|i: int| 0 <= i < node.edge_table@.len() implies node_view(
                node,
            ).edges[i] == goal[i] by {
                assert(node_view(node).edges[i] == edge_view(node.edge_table@[i]));
                if i < j {
                    assert(node.edge_table@[i] == mid[i]);
                    assert(mid[i] == tbl0[i]);
                } else if i == j {
                    assert(node.edge_table@[i] == ge2);
                } else {
                    assert(node.edge_table@[i] == mid[i - 1]);
                    assert(mid[i - 1] == tbl0[i]);
                }
            }
            assert(node_view(node).edges =~= goal);
            assert(node@ =~= spec_insert(orig, suffix@, suffix_index));
        }
        node
    } else {
        let fresh = TreeNode::new(None);
        let tail = suffix_from(&suffix, 1);
        proof {
            lemma_valid_tail(suffix@);
            assert(trie_inv(fresh@));
            assert(leaves(fresh@) =~= Set::<(Seq<char>, u32)>::empty());
        }
        let sub2 = insert_suffix(fresh, tail, suffix_index);
        let mut lab: Vec<char> = Vec::new();
        lab.push(c);
        let e2 = Edge::new(lab, 1, sub2);
        let ghost ge2 = e2;
        proof {
            assert(ge2@.label =~= seq![c]);
            assert(ge2@ =~= single_edge(
                c,
                spec_insert(empty_node(), suffix@.skip(1), suffix_index),
            ));
        }
        let ghost before = node.edge_table@;
        node.edge_table.insert(j, e2);
        proof {
            before.insert_ensures(j as int, ge2);
            orig.edges.insert_ensures(j as int, ge2@);
            lemma_edges_view(node.edge_table@, node.edge_table@.len() as int);
            let goal = orig.edges.insert(j as int, ge2@);
            assert forall|i: int| 0 <= i < node.edge_table@.len() implies node_view(
                node,
            ).edges[i] == goal[i] by {
                assert(node_view(node).edges[i] == edge_view(node.edge_table@[i]));
                if i < j {
                    assert(node.edge_table@[i] == before[i]);
                } else if i == j {
                    assert(node.edge_table@[i] == ge2);
                } else {
                    assert(node.edge_table@[i] == before[i - 1]);
                }
            }
            assert(node_view(node).edges =~= goal);
            assert(node@ =~= spec_insert(orig, suffix@, suffix_index));
        }
        node
    }
}

/// Build the raw suffix trie of a ranked string by inserting every suffix,
/// in offset order; the suffix starting at offset `i` gets leaf index
/// `2*i + 1`. The result is a raw trie with exactly one leaf per suffix,
/// whose root-to-leaf words are exactly the suffixes.
pub fn make_tree(string: Vec<char>) -> (r: TreeNode)
    requires
        valid_suffix(string@),
        string@.len() <= 0x7FFF_FFFF,
    ensures
        r@ == spec_make(string@, string@.len() as int),
        trie_inv(r@),
        wf(r@),
        leaves(r@) == suffix_leaves(string@, string@.len() as int),
        num_leaves(r@) == string@.len(),
{
    let mut root = TreeNode::new(None);
    let mut i: usize = 0;
    proof {
        lemma_spec_make(string@, 0);
        assert(root@ =~= spec_make(string@, 0));
    }
    while i < string.len()
        invariant
            0 <= i <= string@.len(),
            valid_suffix(string@),
            string@.len() <= 0x7FFF_FFFF,
            root@ == spec_make(string@, i as int),
        decreases string@.len() - i,
    {
        let suf = suffix_from(&string, i);
        let ix: u32 = ((2 * (i as u64) + 1) as u32);
        proof {
            lemma_spec_make(string@, i as int);
            let t = spec_make(string@, i as int);
            assert(suf@[suf@.len() - 1] == string@[string@.len() - 1]);
            assert forall|k: int| 0 <= k < suf@.len() - 1 implies suf@[k] != SENTINEL by {
                assert(suf@[k] == string@[k + i]);
            }
            assert forall|jx: u32| !(#[trigger] leaves(t).contains((suf@, jx))) by {
                if leaves(t).contains((suf@, jx)) {
                    let k = choose|k: int|
                        0 <= k < i && (suf@, jx) == (string@.skip(k), ((2 * k + 1) as u32));
                    assert(string@.skip(k).len() == string@.len() - k);
                }
            }
        }
        root = insert_suffix(root, suf, ix);
        i += 1;
    }
    proof {
        lemma_spec_make(string@, string@.len() as int);
        lemma_trie_wf(root@);
    }
    root
}

} // verus!
