//! Path contraction: collapsing unary chains of a raw suffix trie into
//! multi-symbol edges, yielding a compact suffix tree.

use vstd::prelude::*;

verus! {

use crate::model::SNode;
use crate::model::SEdge;
use crate::model::node_size;
use crate::model::edges_size;
use crate::model::leaves;
use crate::model::edge_leaves;
use crate::model::prefixed;
use crate::model::lead;
use crate::model::wf;
use crate::model::lemma_edges_wf_iff;
use crate::model::lemma_leaves_mem;
use crate::model::edges_leaves;
use crate::tree::TreeNode;
use crate::tree::Edge;
use crate::tree::node_view;
use crate::tree::edge_view;
use crate::tree::lemma_edges_view;

broadcast use vstd::seq::group_seq_axioms, vstd::std_specs::vec::group_vec_axioms;

/// A compact tree: no node, root included, has exactly one child.
pub open spec fn compact(t: SNode) -> bool
    decreases t, 0int,
{
    t.edges.len() != 1 && edges_compact(t.edges, t.edges.len() as int)
}

/// Compactness of the subtrees below the first `k` edges.
pub open spec fn edges_compact(es: Seq<SEdge>, k: int) -> bool
    decreases es, k,
{
    if k <= 0 || es.len() < k {
        true
    } else {
        edges_compact(es, k - 1) && compact(es[k - 1].target)
    }
}

/// `edges_compact` says exactly that each of the first `k` subtrees is compact.
pub proof fn lemma_edges_compact_iff(es: Seq<SEdge>, k: int)
    requires
        0 <= k <= es.len(),
    ensures
        edges_compact(es, k) <==> (forall|i: int| 0 <= i < k ==> compact(#[trigger] es[i].target)),
    decreases k,
{
    if k > 0 {
        lemma_edges_compact_iff(es, k - 1);
    }
}

/// Every subtree is at most as large as the sum over the first `k` edges.
pub proof fn lemma_edges_size_bound(es: Seq<SEdge>, k: int, i: int)
    requires
        0 <= i < k <= es.len(),
    ensures
        node_size(es[i].target) <= edges_size(es, k),
    decreases k,
{
    if i < k - 1 {
        lemma_edges_size_bound(es, k - 1, i);
    }
}

/// A child subtree is strictly smaller than the whole tree.
pub proof fn lemma_edge_size_bound(t: SNode, i: int)
    requires
        0 <= i < t.edges.len(),
    ensures
        node_size(t.edges[i].target) < node_size(t),
{
    lemma_edges_size_bound(t.edges, t.edges.len() as int, i);
}

/// One contraction step, at the specification level, mirroring the
/// executable `contract_trie`: a node with several children settles each
/// child edge in place and reports that it cannot be absorbed; a node with
/// exactly one child hands that child and its label up to the caller; a
/// leaf reports that it cannot be absorbed.
pub open spec fn sc(t: SNode) -> (SNode, Seq<char>, bool)
    decreases node_size(t), 1int, 0int,
{
    if t.edges.len() > 1 {
        (
            SNode { edges: settle_map(t.edges, t.edges.len() as int), index: t.index },
            Seq::empty(),
            true,
        )
    } else if t.edges.len() == 1 {
        (t.edges[0].target, t.edges[0].label, false)
    } else {
        (t, Seq::empty(), true)
    }
}

/// Fully contract the subtree below one edge, splicing the labels of the
/// unary chain below it onto the edge's own label.
pub open spec fn settle(e: SEdge) -> SEdge
    decreases node_size(e.target), 2int, 0int,
    via settle_decreases
{
    let t = e.target;
    if t.edges.len() == 1 {
        settle(
            SEdge {
                label: e.label + t.edges[0].label,
                llen: (e.label + t.edges[0].label).len(),
                target: t.edges[0].target,
            },
        )
    } else {
        let step = sc(t);
        SEdge { label: e.label + step.1, llen: (e.label + step.1).len(), target: step.0 }
    }
}

#[via_fn]
proof fn settle_decreases(e: SEdge) {
    let t = e.target;
    if t.edges.len() == 1 {
        assert(node_size(t) == 1 + edges_size(t.edges, 1));
        assert(edges_size(t.edges, 1) == edges_size(t.edges, 0) + node_size(t.edges[0].target));
    }
}

/// `settle` applied to each of the first `k` edges.
pub open spec fn settle_map(es: Seq<SEdge>, k: int) -> Seq<SEdge>
    decreases edges_size(es, k), 3int, k,
{
    if k <= 0 || es.len() < k {
        Seq::empty()
    } else {
        settle_map(es, k - 1).push(settle(es[k - 1]))
    }
}

/// `settle_map` is pointwise `settle`.
pub proof fn lemma_settle_map(es: Seq<SEdge>, k: int)
    requires
        0 <= k <= es.len(),
    ensures
        settle_map(es, k).len() == k,
        forall|i: int| 0 <= i < k ==> settle_map(es, k)[i] == settle(#[trigger] es[i]),
    decreases k,
{
    if k > 0 {
        lemma_settle_map(es, k - 1);
    }
}

/// `edges_size` grows with the number of edges counted.
pub proof fn lemma_edges_size_mono(es: Seq<SEdge>, k: int, n: int)
    requires
        0 <= k <= n <= es.len(),
    ensures
        edges_size(es, k) <= edges_size(es, n),
    decreases n,
{
    if k < n {
        lemma_edges_size_mono(es, k, n - 1);
    }
}

/// Contracting a node with zero or several children never grows the tree.
pub proof fn lemma_size_sc(t: SNode)
    ensures
        t.edges.len() != 1 ==> node_size(sc(t).0) <= node_size(t),
    decreases node_size(t), 1int, 0int,
{
    let n = t.edges.len() as int;
    if n > 1 {
        lemma_settle_map(t.edges, n);
        assert(edges_size(t.edges, n) < node_size(t));
        lemma_size_settle_all(t.edges, n, n);
        assert(node_size(sc(t).0) == 1 + edges_size(settle_map(t.edges, n), n));
    }
}

/// Settling an edge never grows the subtree below it.
pub proof fn lemma_size_settle(e: SEdge)
    ensures
        node_size(settle(e).target) <= node_size(e.target),
    decreases node_size(e.target), 2int, 0int,
{
    let t = e.target;
    if t.edges.len() == 1 {
        let child = t.edges[0];
        assert(node_size(t) == 1 + edges_size(t.edges, 1));
        assert(edges_size(t.edges, 1) == edges_size(t.edges, 0) + node_size(child.target));
        let e1 = SEdge {
            label: e.label + child.label,
            llen: (e.label + child.label).len(),
            target: child.target,
        };
        lemma_size_settle(e1);
    } else {
        lemma_size_sc(t);
    }
}

/// Settling every edge never grows the total size of the subtrees.
pub proof fn lemma_size_settle_all(es: Seq<SEdge>, n: int, k: int)
    requires
        0 <= k <= n <= es.len(),
    ensures
        edges_size(settle_map(es, n), k) <= edges_size(es, k),
    decreases edges_size(es, n), 3int, k,
{
    lemma_settle_map(es, n);
    if k > 0 {
        lemma_size_settle_all(es, n, k - 1);
        lemma_edges_size_bound(es, k, k - 1);
        lemma_edges_size_mono(es, k, n);
        lemma_size_settle(es[k - 1]);
        assert(edges_size(settle_map(es, n), k) == edges_size(settle_map(es, n), k - 1)
            + node_size(settle_map(es, n)[k - 1].target));
    }
}

/// Splicing prefixes composes with concatenation.
pub proof fn lemma_prefixed_compose(a: Seq<char>, b: Seq<char>, s: Set<(Seq<char>, u32)>)
    ensures
        prefixed(a, prefixed(b, s)) == prefixed(a + b, s),
{
    assert forall|x: (Seq<char>, u32)| #[trigger]
        prefixed(a, prefixed(b, s)).contains(x) implies prefixed(a + b, s).contains(x) by {
        let w = choose|w: Seq<char>| prefixed(b, s).contains((w, x.1)) && x.0 == a + w;
        let u = choose|u: Seq<char>| s.contains((u, x.1)) && w == b + u;
        assert(x.0 =~= (a + b) + u);
    }
    assert forall|x: (Seq<char>, u32)| #[trigger]
        prefixed(a + b, s).contains(x) implies prefixed(a, prefixed(b, s)).contains(x) by {
        let u = choose|u: Seq<char>| s.contains((u, x.1)) && x.0 == (a + b) + u;
        assert(prefixed(b, s).contains((b + u, x.1)));
        assert(x.0 =~= a + (b + u));
    }
    assert(prefixed(a, prefixed(b, s)) =~= prefixed(a + b, s));
}

/// What one contraction step guarantees: a unary node hands up its only
/// edge; any other node keeps its index, its edge count and its exact leaf
/// set, becomes compact, and is left untouched if it was compact already.
pub proof fn lemma_sc(t: SNode)
    requires
        wf(t),
    ensures
        t.edges.len() == 1 ==> sc(t) == (t.edges[0].target, t.edges[0].label, false),
        t.edges.len() != 1 ==> {
            let r = sc(t).0;
            &&& sc(t).1 =~= Seq::<char>::empty()
            &&& sc(t).2 == true
            &&& wf(r)
            &&& compact(r)
            &&& leaves(r) == leaves(t)
            &&& r.index == t.index
            &&& r.edges.len() == t.edges.len()
            &&& (compact(t) ==> r == t)
        },
    decreases node_size(t), 1int,
{
    let n = t.edges.len() as int;
    if n > 1 {
        let es = t.edges;
        let es2 = settle_map(es, n);
        let r = sc(t).0;
        lemma_settle_map(es, n);
        lemma_edges_wf_iff(es, n);
        assert forall|i: int| 0 <= i < n implies {
            let e2 = #[trigger] es2[i];
            &&& e2.label.len() >= es[i].label.len()
            &&& e2.label.subrange(0, es[i].label.len() as int) == es[i].label
            &&& e2.llen == e2.label.len()
            &&& wf(e2.target)
            &&& compact(e2.target)
            &&& edge_leaves(e2) == edge_leaves(es[i])
            &&& (compact(es[i].target) && es[i].llen == es[i].label.len() ==> e2 == es[i])
        } by {
            lemma_edge_size_bound(t, i);
            lemma_settle(es[i]);
        }
        // the leading symbol of every settled edge is unchanged
        assert forall|i: int| 0 <= i < n implies lead(#[trigger] es2[i]) == lead(es[i]) by {
            assert(es2[i].label.subrange(0, es[i].label.len() as int)[0] == es2[i].label[0]);
        }
        lemma_edges_wf_iff(es2, n);
        lemma_edges_compact_iff(es2, n);
        lemma_leaves_mem(t);
        lemma_leaves_mem(r);
        assert forall|x: (Seq<char>, u32)| #[trigger]
            leaves(r).contains(x) implies leaves(t).contains(x) by {
            let i = choose|i: int| 0 <= i < n && (#[trigger] edge_leaves(es2[i])).contains(x);
            assert(edge_leaves(es[i]).contains(x));
        }
        assert forall|x: (Seq<char>, u32)| #[trigger]
            leaves(t).contains(x) implies leaves(r).contains(x) by {
            let i = choose|i: int| 0 <= i < n && (#[trigger] edge_leaves(es[i])).contains(x);
            assert(edge_leaves(es2[i]).contains(x));
        }
        assert(leaves(r) =~= leaves(t));
        if compact(t) {
            lemma_edges_compact_iff(es, n);
            assert forall|i: int| 0 <= i < n implies es2[i] == #[trigger] es[i] by {}
            assert(es2 =~= es);
            assert(r =~= t);
        }
    } else if n == 1 {
    } else {
        assert(edges_compact(t.edges, 0));
        assert(sc(t).1 =~= Seq::<char>::empty());
    }
}

/// What settling one edge guarantees: the label grows only at its tail (so
/// the leading symbol is unchanged), the subtree becomes compact and
/// well-formed, the leaves reached through the edge are exactly preserved,
/// and an edge whose subtree is already compact is left untouched.
pub proof fn lemma_settle(e: SEdge)
    requires
        wf(e.target),
        e.label.len() >= 1,
    ensures
        ({
            let e2 = settle(e);
            &&& e2.label.len() >= e.label.len()
            &&& e2.label.subrange(0, e.label.len() as int) == e.label
            &&& e2.llen == e2.label.len()
            &&& wf(e2.target)
            &&& compact(e2.target)
            &&& edge_leaves(e2) == edge_leaves(e)
            &&& (compact(e.target) && e.llen == e.label.len() ==> e2 == e)
        }),
    decreases node_size(e.target), 2int,
{
    let t = e.target;
    let step = sc(t);
    lemma_sc(t);
    if t.edges.len() == 1 {
        let child = t.edges[0];
        lemma_edges_wf_iff(t.edges, 1);
        let e1 = SEdge {
            label: e.label + child.label,
            llen: (e.label + child.label).len(),
            target: child.target,
        };
        assert(node_size(t) == 1 + edges_size(t.edges, 1));
        assert(edges_size(t.edges, 1) == edges_size(t.edges, 0) + node_size(child.target));
        lemma_settle(e1);
        let e2 = settle(e);
        assert(e2 == settle(e1));
        // prefix facts chain through the spliced label
        assert(e1.label.subrange(0, e.label.len() as int) =~= e.label);
        assert(e2.label.subrange(0, e1.label.len() as int) == e1.label);
        assert(e2.label.subrange(0, e.label.len() as int) =~= e.label) by {
            assert forall|i: int| 0 <= i < e.label.len() implies e2.label.subrange(
                0,
                e.label.len() as int,
            )[i] == e.label[i] by {
                assert(e2.label[i] == e1.label[i]);
            }
        }
        // the leaves through e are the leaves through the spliced edge
        assert(leaves(t) == edge_leaves(child)) by {
            assert(edges_leaves(t.edges, 0) =~= Set::<(Seq<char>, u32)>::empty());
            assert(edges_leaves(t.edges, 1) =~= edges_leaves(t.edges, 0).union(
                edge_leaves(child),
            ));
            assert(Set::<(Seq<char>, u32)>::empty().union(edge_leaves(child)) =~= edge_leaves(
                child,
            ));
        }
        lemma_prefixed_compose(e.label, child.label, leaves(child.target));
        assert(edge_leaves(e) == edge_leaves(e1));
        assert(!compact(e.target));
    } else {
        let e2 = settle(e);
        assert(e.label + step.1 =~= e.label);
        assert(e2 == SEdge { label: e.label, llen: e.label.len(), target: step.0 });
        assert(e2.label.subrange(0, e.label.len() as int) =~= e.label);
        assert(edge_leaves(e2) =~= edge_leaves(e)) by {
            assert(leaves(step.0) == leaves(t));
        }
        if compact(e.target) && e.llen == e.label.len() {
            assert(step.0 == t);
            assert(e2 =~= e);
        }
    }
}

/// Contract a well-formed tree by recursive rewriting:
/// a node with several children fully settles each child edge in place and
/// returns itself with an empty label and `true`; a node with exactly one
/// child returns that child, the edge's label and `false`, leaving the
/// caller to splice the label on; a leaf returns itself with `true`.
/// On a node with zero or several children the result is the compact tree
/// with exactly the leaves of the input, and contracting an already compact
/// tree returns it unchanged.
#[verifier::rlimit(100)]
#[verifier::loop_isolation(false)]
pub fn contract_trie(node: TreeNode) -> (res: (TreeNode, Vec<char>, bool))
    requires
        wf(node@),
    ensures
        res.0@ == sc(node@).0,
        res.1@ == sc(node@).1,
        res.2 == sc(node@).2,
        node@.edges.len() != 1 ==> {
            &&& wf(res.0@)
            &&& compact(res.0@)
            &&& leaves(res.0@) == leaves(node@)
            &&& res.1@.len() == 0
            &&& res.2 == true
            &&& (compact(node@) ==> res.0@ == node@)
        },
        node@.edges.len() == 1 ==> res.0@ == node@.edges[0].target && res.1@ == node@.edges[0].label
            && res.2 == false,
    decreases node_size(node@),
{
    proof {
        lemma_sc(node@);
    }
    let ghost orig = node@;
    let mut current = node;
    let n = current.edge_table.len();
    proof {
        lemma_edges_view(current.edge_table@, n as int);
        assert(orig.edges.len() == n);
    }
    if n > 1 {
        let mut i: usize = 0;
        while i < n
            invariant
                n > 1,
                wf(orig),
                orig.edges.len() == n,
                0 <= i <= n,
                current.edge_table@.len() == n,
                current.index == orig.index,
                forall|k: int|
                    0 <= k < i ==> edge_view(#[trigger] current.edge_table@[k]) == settle(
                        orig.edges[k],
                    ),
                forall|k: int|
                    i <= k < n ==> edge_view(#[trigger] current.edge_table@[k]) == orig.edges[k],
            decreases n - i,
        {
            proof {
                lemma_edges_wf_iff(orig.edges, n as int);
                lemma_edge_size_bound(orig, i as int);
            }
            let ghost tbl0 = current.edge_table@;
            let e = current.edge_table.remove(i);
            let Edge { label: mut lab, label_length: _, target_node: mut tgt } = e;
            let ghost ge = orig.edges[i as int];
            proof {
                tbl0.remove_ensures(i as int);
                assert(edge_view(tbl0[i as int]) == ge);
                assert(lab@ == ge.label && node_view(tgt) == ge.target);
                assert(ge.llen == ge.label.len() && ge.label.len() >= 1);
                assert((SEdge { label: lab@, llen: lab@.len() as nat, target: tgt@ }) == ge);
            }
            // pull the unary chain below this edge onto its label until the
            // subtree reports it cannot contract further
            let mut done = false;
            while !done
                invariant
                    wf(tgt@),
                    lab@.len() >= 1,
                    node_size(tgt@) <= node_size(ge.target),
                    !done ==> settle(SEdge { label: lab@, llen: lab@.len() as nat, target: tgt@ })
                        == settle(ge),
                    done ==> (SEdge { label: lab@, llen: lab@.len() as nat, target: tgt@ })
                        == settle(ge),
                decreases (if done { 0int } else { 1int }), node_size(tgt@),
            {
                let ghost gt = tgt@;
                let ghost glab = lab@;
                let step = contract_trie(tgt);
                tgt = step.0;
                let mut clab = step.1;
                let end = step.2;
                lab.append(&mut clab);
                done = end;
                proof {
                    let cur = SEdge { label: glab, llen: glab.len() as nat, target: gt };
                    let nxt = SEdge { label: lab@, llen: lab@.len() as nat, target: tgt@ };
                    lemma_sc(gt);
                    if gt.edges.len() == 1 {
                        assert(lab@ == glab + gt.edges[0].label);
                        assert(settle(cur) == settle(nxt));
                        lemma_edges_wf_iff(gt.edges, 1);
                        assert(wf(tgt@));
                        assert(node_size(gt) == 1 + edges_size(gt.edges, 1));
                        assert(edges_size(gt.edges, 1) == edges_size(gt.edges, 0) + node_size(
                            tgt@,
                        ));
                        assert(node_size(tgt@) < node_size(gt));
                    } else {
                        assert(sc(gt).1 =~= Seq::<char>::empty());
                        assert(glab + sc(gt).1 =~= glab);
                        assert(lab@ == glab + sc(gt).1);
                        assert(settle(cur) == nxt);
                        assert(node_size(tgt@) <= node_size(ge.target)) by {
                            lemma_size_sc(gt);
                        }
                    }
                }
            }
            let llen = lab.len();
            let ghost mid = current.edge_table@;
            let e2 = Edge::new(lab, llen, tgt);
            let ghost ge2 = e2;
            current.edge_table.insert(i, e2);
            proof {
                mid.insert_ensures(i as int, ge2);
                assert(ge2@ == settle(ge));
                assert forall|k: int| 0 <= k < n implies edge_view(
                    #[trigger] current.edge_table@[k],
                ) == (if k <= i {
                    if k < i {
                        settle(orig.edges[k])
                    } else {
                        settle(orig.edges[i as int])
                    }
                } else {
                    orig.edges[k]
                }) by {
                    if k < i {
                        assert(current.edge_table@[k] == mid[k]);
                        assert(mid[k] == tbl0[k]);
                    } else if k == i {
                        assert(current.edge_table@[k] == ge2);
                    } else {
                        assert(current.edge_table@[k] == mid[k - 1]);
                        assert(mid[k - 1] == tbl0[k]);
                    }
                }
            }
            i += 1;
        }
        let empty_lab: Vec<char> = Vec::new();
        proof {
            lemma_edges_view(current.edge_table@, n as int);
            lemma_settle_map(orig.edges, n as int);
            assert forall|k: int| 0 <= k < n implies node_view(current).edges[k] == settle_map(
                orig.edges,
                n as int,
            )[k] by {
                assert(edge_view(current.edge_table@[k]) == settle(orig.edges[k]));
            }
            assert(node_view(current).edges =~= settle_map(orig.edges, n as int));
            assert(node_view(current) =~= sc(orig).0);
            assert(empty_lab@ =~= sc(orig).1);
        }
        (current, empty_lab, true)
    } else if n == 1 {
        let e = current.edge_table.remove(0);
        let Edge { label: lab, label_length: _, target_node: tgt } = e;
        proof {
            assert(lab@ == orig.edges[0].label && node_view(tgt) == orig.edges[0].target);
        }
        (tgt, lab, false)
    } else {
        let empty_lab: Vec<char> = Vec::new();
        proof {
            assert(node_view(current) == orig);
            assert(empty_lab@ =~= sc(orig).1);
        }
        (current, empty_lab, true)
    }
}

} // verus!
