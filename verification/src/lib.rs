//! A compact suffix tree for small strings, built in two verified stages:
//! a rank transform that recodes the input over a small alphabet of pair
//! ranks and appends a sentinel, and a naive suffix-trie construction
//! followed by path contraction into a suffix tree.
//!
//! `model` holds the mathematical model (trees as `SNode`, their leaf sets,
//! well-formedness, and the specification-level insertion and
//! construction); `tree` the executable trie types and construction;
//! `contract` the path contraction; `rank` the rank transform; and `laws`
//! the properties proved of the whole: rank stability, suffix
//! completeness, contraction correctness, idempotence and determinism.

use vstd::prelude::*;

pub mod contract;
pub mod laws;
pub mod model;
pub mod rank;
pub mod tree;

verus! {

/// The sentinel symbol that terminates every ranked string and suffix.
pub const SENTINEL: char = '~';

/// The whole pipeline for one candidate string: rank transform, suffix
/// trie of every suffix of the ranked string, and contraction at the root.
/// Returns the pair alphabet, the ranked string and the contracted tree.
pub fn build_suffix_tree(symbols: Vec<char>) -> (r: (Vec<(char, char)>, Vec<char>, tree::TreeNode))
    requires
        symbols@.len() % 2 == 0,
        symbols@.len() <= 156,
        forall|i: int| 0 <= i < symbols@.len() ==> symbols@[i] != SENTINEL,
    ensures
        rank::rank_post(symbols@, r.0@, r.1@),
        r.2@ == laws::suffix_tree_of(r.1@),
{
    let (alphabet, ranked) = rank::rank_string(symbols);
    let ranked_copy = tree::suffix_from(&ranked, 0);
    let trie = tree::make_tree(ranked_copy);
    proof {
        assert(ranked@.skip(0) =~= ranked@);
    }
    let (tree, _, _) = contract::contract_trie(trie);
    (alphabet, ranked, tree)
}

} // verus!
