//! The laws of the library, stated and proved once over the model: rank
//! stability, suffix completeness, contraction correctness, idempotence of
//! contraction, and determinism of the whole pipeline.

use vstd::prelude::*;

verus! {

use crate::model::SNode;
use crate::model::leaves;
use crate::model::trie_inv;
use crate::model::wf;
use crate::model::valid_suffix;
use crate::model::spec_make;
use crate::model::suffix_leaves;
use crate::model::lemma_spec_make;
use crate::model::num_leaves;
use crate::contract::sc;
use crate::contract::compact;
use crate::contract::lemma_sc;
use crate::rank::rank_post;
use crate::rank::rank_char;
use crate::rank::rank_of;
use crate::rank::pair_at;
use crate::rank::pairs_of;
use crate::rank::pair_lt;
use crate::rank::lemma_rank_of_unique;
use crate::rank::lemma_idx_first_props;

broadcast use vstd::seq::group_seq_axioms;

/// Symbol `i` of the ranked string is the rank symbol of the string's
/// `i`-th pair, and that rank is a valid index into the alphabet.
pub open spec fn ranked_symbol_ok(
    s: Seq<char>,
    alphabet: Seq<(char, char)>,
    ranked: Seq<char>,
    i: int,
) -> bool {
    &&& 0 <= rank_of(alphabet, pair_at(s, i)) < alphabet.len()
    &&& ranked[i] == rank_char(rank_of(alphabet, pair_at(s, i)))
}

/// Rank stability: for an even-length input with `k` distinct pairs, the
/// ranked string is one pair-count of rank symbols followed by the
/// sentinel; every rank below `k` occurs in it, and every symbol before the
/// sentinel is the symbol of some rank below `k`.
pub proof fn lemma_rank_stability(s: Seq<char>, alphabet: Seq<(char, char)>, ranked: Seq<char>)
    requires
        rank_post(s, alphabet, ranked),
    ensures
        ranked.len() == s.len() / 2 + 1,
        ranked[ranked.len() - 1] == crate::SENTINEL,
        forall|j: int| 0 <= j < alphabet.len() ==> ranked.contains(#[trigger] rank_char(j)),
        forall|i: int|
            0 <= i < ranked.len() - 1 ==> #[trigger] ranked_symbol_ok(s, alphabet, ranked, i),
{
    assert forall|j: int| 0 <= j < alphabet.len() implies ranked.contains(
        #[trigger] rank_char(j),
    ) by {
        let p = alphabet[j];
        assert(alphabet.contains(p));
        assert(pairs_of(s).contains(p));
        let i = choose|i: int| 0 <= i < pairs_of(s).len() && pairs_of(s)[i] == p;
        assert(pair_at(s, i) == p);
        assert forall|k: int| 0 <= k < j implies #[trigger] alphabet[k] != p by {
            assert(pair_lt(alphabet[k], alphabet[j]));
        }
        lemma_rank_of_unique(alphabet, p, j);
        assert(ranked[i] == rank_char(j));
        assert(ranked.contains(rank_char(j)));
    }
    assert forall|i: int| 0 <= i < ranked.len() - 1 implies #[trigger] ranked_symbol_ok(
        s,
        alphabet,
        ranked,
        i,
    ) by {
        let p = pair_at(s, i);
        assert(pairs_of(s)[i] == p);
        assert(pairs_of(s).contains(p));
        assert(alphabet.contains(p));
        let j0 = choose|j0: int| 0 <= j0 < alphabet.len() && alphabet[j0] == p;
        lemma_idx_first_props(alphabet, p, 0);
        let q = rank_of(alphabet, p);
        assert(q <= j0) by {
            if j0 < q {
                assert(alphabet[j0] != p);
            }
        }
        assert(ranked[i] == rank_char(q));
    }
}

/// The suffix family of the first `k` offsets has exactly `k` members.
pub proof fn lemma_suffix_leaves_card(s: Seq<char>, k: int)
    requires
        0 <= k <= s.len(),
        s.len() <= 0x7FFF_FFFF,
    ensures
        suffix_leaves(s, k).finite(),
        suffix_leaves(s, k).len() == k,
    decreases k,
{
    if k == 0 {
        assert(suffix_leaves(s, 0) =~= Set::<(Seq<char>, u32)>::empty());
    } else {
        lemma_suffix_leaves_card(s, k - 1);
        let x = (s.skip(k - 1), ((2 * (k - 1) + 1) as u32));
        assert forall|y: (Seq<char>, u32)| #[trigger]
            suffix_leaves(s, k).contains(y) implies suffix_leaves(s, k - 1).insert(x).contains(
            y,
        ) by {
            let i = choose|i: int| 0 <= i < k && y == (s.skip(i), ((2 * i + 1) as u32));
            if i < k - 1 {
                assert(suffix_leaves(s, k - 1).contains(y));
            }
        }
        assert forall|y: (Seq<char>, u32)| #[trigger]
            suffix_leaves(s, k - 1).insert(x).contains(y) implies suffix_leaves(s, k).contains(
            y,
        ) by {
            if y == x {
                assert(y == (s.skip(k - 1), ((2 * (k - 1) + 1) as u32)));
            } else {
                let i = choose|i: int| 0 <= i < k - 1 && y == (s.skip(i), ((2 * i + 1) as u32));
                assert(0 <= i < k && y == (s.skip(i), ((2 * i + 1) as u32)));
            }
        }
        assert(suffix_leaves(s, k) =~= suffix_leaves(s, k - 1).insert(x));
        assert(!suffix_leaves(s, k - 1).contains(x)) by {
            if suffix_leaves(s, k - 1).contains(x) {
                let i = choose|i: int| 0 <= i < k - 1 && x == (s.skip(i), ((2 * i + 1) as u32));
                assert(s.skip(i).len() == s.len() - i);
                assert(s.skip(k - 1).len() == s.len() - (k - 1));
            }
        }
    }
}

/// Suffix completeness: the raw trie of a ranked string of length `n` has
/// exactly `n` leaves, one per suffix offset, the word from the root to the
/// leaf for offset `i` is the suffix starting at `i`, and all leaf indices
/// are distinct.
pub proof fn lemma_suffix_completeness(s: Seq<char>)
    requires
        valid_suffix(s),
        s.len() <= 0x7FFF_FFFF,
    ensures
        trie_inv(spec_make(s, s.len() as int)),
        leaves(spec_make(s, s.len() as int)) == suffix_leaves(s, s.len() as int),
        num_leaves(spec_make(s, s.len() as int)) == s.len(),
        suffix_leaves(s, s.len() as int).len() == s.len(),
        forall|x1: (Seq<char>, u32), x2: (Seq<char>, u32)|
            suffix_leaves(s, s.len() as int).contains(x1) && suffix_leaves(
                s,
                s.len() as int,
            ).contains(x2) && x1 != x2 ==> x1.1 != x2.1,
{
    let n = s.len() as int;
    lemma_spec_make(s, n);
    lemma_suffix_leaves_card(s, n);
    assert forall|x1: (Seq<char>, u32), x2: (Seq<char>, u32)|
        suffix_leaves(s, n).contains(x1) && suffix_leaves(s, n).contains(x2) && x1
            != x2 implies x1.1 != x2.1 by {
        let i1 = choose|i: int| 0 <= i < n && x1 == (s.skip(i), ((2 * i + 1) as u32));
        let i2 = choose|i: int| 0 <= i < n && x2 == (s.skip(i), ((2 * i + 1) as u32));
        if x1.1 == x2.1 {
            assert(((2 * i1 + 1) as u32) == ((2 * i2 + 1) as u32));
            assert(i1 == i2);
        }
    }
}

/// Contraction correctness: contracting a well-formed tree whose root is
/// not unary preserves the leaf set exactly — same indices, same
/// root-to-leaf words — and leaves no node with exactly one child. A tree
/// whose root has exactly one child is instead handed up to the caller, so
/// this law speaks of the other roots.
pub proof fn lemma_contraction_correct(t: SNode)
    requires
        wf(t),
        t.edges.len() != 1,
    ensures
        leaves(sc(t).0) == leaves(t),
        compact(sc(t).0),
        wf(sc(t).0),
{
    lemma_sc(t);
}

/// Idempotence: a contracted tree is a fixed point of contraction — a tree
/// with no unary chains contracts to itself, with an empty pulled label.
pub proof fn lemma_contract_idempotent(t: SNode)
    requires
        wf(t),
        t.edges.len() != 1,
    ensures
        sc(sc(t).0) == (sc(t).0, Seq::<char>::empty(), true),
{
    lemma_sc(t);
    let r = sc(t).0;
    lemma_sc(r);
    assert(sc(r).1 =~= Seq::<char>::empty());
    assert(sc(r).0 == r);
}

/// The whole pipeline as a function of the ranked string alone: the raw
/// trie of all suffixes, contracted once at the root.
pub open spec fn suffix_tree_of(s: Seq<char>) -> SNode {
    sc(spec_make(s, s.len() as int)).0
}

/// Determinism: `make_tree` and `contract_trie` ensure that their results
/// equal `spec_make` and `sc` of their inputs, so two runs on the same
/// string yield the same tree, child order included. This law states that
/// the pipeline's result is a function of the input string.
pub proof fn lemma_deterministic(s: Seq<char>, t1: SNode, t2: SNode)
    requires
        t1 == suffix_tree_of(s),
        t2 == suffix_tree_of(s),
    ensures
        t1 == t2,
{
}

} // verus!
