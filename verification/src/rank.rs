//! The rank transform: encode a string as the sequence of ranks of its
//! adjacent symbol pairs among the distinct pairs, sorted ascending, and
//! append the sentinel.

use vstd::prelude::*;

use itertools::Itertools;

verus! {

use crate::SENTINEL;
use crate::model::valid_suffix;

broadcast use vstd::seq::group_seq_axioms, vstd::std_specs::vec::group_vec_axioms;

/// Non-strict lexicographic order on symbol pairs.
pub open spec fn pair_le(a: (char, char), b: (char, char)) -> bool {
    a.0 < b.0 || (a.0 == b.0 && a.1 <= b.1)
}

/// Strict lexicographic order on symbol pairs.
pub open spec fn pair_lt(a: (char, char), b: (char, char)) -> bool {
    a.0 < b.0 || (a.0 == b.0 && a.1 < b.1)
}

/// Sorted ascending, duplicates allowed.
pub open spec fn sorted_pairs(s: Seq<(char, char)>) -> bool {
    forall|i: int, j: int| 0 <= i < j < s.len() ==> pair_le(#[trigger] s[i], #[trigger] s[j])
}

/// Sorted strictly ascending: sorted and duplicate-free.
pub open spec fn strictly_sorted_pairs(s: Seq<(char, char)>) -> bool {
    forall|i: int, j: int| 0 <= i < j < s.len() ==> pair_lt(#[trigger] s[i], #[trigger] s[j])
}

/// The pair of symbols at pair-offset `i` of a string.
pub open spec fn pair_at(s: Seq<char>, i: int) -> (char, char) {
    (s[2 * i], s[2 * i + 1])
}

/// The consecutive, non-overlapping symbol pairs of a string.
pub open spec fn pairs_of(s: Seq<char>) -> Seq<(char, char)> {
    Seq::new((s.len() / 2) as nat, |i: int| pair_at(s, i))
}

/// A sequence with every element that already occurred earlier removed:
/// what remains is the first occurrence of each distinct element, in order.
pub open spec fn dedup_first(s: Seq<(char, char)>) -> Seq<(char, char)>
    decreases s.len(),
{
    if s.len() == 0 {
        Seq::empty()
    } else if s.drop_last().contains(s.last()) {
        dedup_first(s.drop_last())
    } else {
        dedup_first(s.drop_last()).push(s.last())
    }
}

/// The symbol a rank index is rendered as: `0` for rank zero, and the
/// following code points for the following ranks.
pub open spec fn rank_char(j: int) -> char {
    (((48 + j) as u8) as char)
}

/// First position at or after `k` where `p` occurs; the length if none.
pub open spec fn idx_first(a: Seq<(char, char)>, p: (char, char), k: int) -> int
    decreases a.len() - k,
{
    if k < 0 || k >= a.len() {
        a.len() as int
    } else if a[k] == p {
        k
    } else {
        idx_first(a, p, k + 1)
    }
}

/// The rank of a pair: its first position in the alphabet.
pub open spec fn rank_of(a: Seq<(char, char)>, p: (char, char)) -> int {
    idx_first(a, p, 0)
}

/// What `idx_first` finds.
pub proof fn lemma_idx_first_props(a: Seq<(char, char)>, p: (char, char), k: int)
    requires
        0 <= k <= a.len(),
    ensures
        k <= idx_first(a, p, k) <= a.len(),
        forall|i: int| k <= i < idx_first(a, p, k) ==> #[trigger] a[i] != p,
        idx_first(a, p, k) < a.len() ==> a[idx_first(a, p, k)] == p,
    decreases a.len() - k,
{
    if k < a.len() && a[k] != p {
        lemma_idx_first_props(a, p, k + 1);
    }
}

/// Any position with the properties of `rank_of` is `rank_of`.
pub proof fn lemma_rank_of_unique(a: Seq<(char, char)>, p: (char, char), j: int)
    requires
        0 <= j <= a.len(),
        forall|i: int| 0 <= i < j ==> #[trigger] a[i] != p,
        j < a.len() ==> a[j] == p,
    ensures
        rank_of(a, p) == j,
{
    lemma_idx_first_props(a, p, 0);
    let q = rank_of(a, p);
    if q < j {
        assert(a[q] != p);
    }
    if j < q {
        assert(a[j] != p);
    }
}

/// Removing later duplicates keeps exactly the elements.
pub proof fn lemma_dedup_contains(s: Seq<(char, char)>)
    ensures
        forall|x: (char, char)| dedup_first(s).contains(x) <==> s.contains(x),
        dedup_first(s).len() <= s.len(),
    decreases s.len(),
{
    if s.len() > 0 {
        lemma_dedup_contains(s.drop_last());
        assert forall|x: (char, char)| s.contains(x) implies dedup_first(s).contains(x) by {
            let i = choose|i: int| 0 <= i < s.len() && s[i] == x;
            if i < s.len() - 1 {
                assert(s.drop_last()[i] == x);
                assert(s.drop_last().contains(x));
                let d = dedup_first(s.drop_last());
                let k = choose|k: int| 0 <= k < d.len() && d[k] == x;
                if !s.drop_last().contains(s.last()) {
                    assert(dedup_first(s)[k] == x);
                }
            } else {
                if s.drop_last().contains(s.last()) {
                } else {
                    let d = dedup_first(s.drop_last());
                    assert(dedup_first(s)[d.len() as int] == x);
                }
            }
        }
        assert forall|x: (char, char)| dedup_first(s).contains(x) implies s.contains(x) by {
            let d = dedup_first(s);
            let k = choose|k: int| 0 <= k < d.len() && d[k] == x;
            if s.drop_last().contains(s.last()) {
                assert(s.drop_last().contains(x));
                let i = choose|i: int| 0 <= i < s.len() - 1 && s.drop_last()[i] == x;
                assert(s[i] == x);
            } else {
                let d0 = dedup_first(s.drop_last());
                if k < d0.len() {
                    assert(s.drop_last().contains(x));
                    let i = choose|i: int| 0 <= i < s.len() - 1 && s.drop_last()[i] == x;
                    assert(s[i] == x);
                } else {
                    assert(x == s.last());
                    assert(s[s.len() - 1] == x);
                }
            }
        }
    }
}

/// Removing later duplicates from a sorted sequence leaves it strictly
/// sorted.
pub proof fn lemma_dedup_sorted(s: Seq<(char, char)>)
    requires
        sorted_pairs(s),
    ensures
        strictly_sorted_pairs(dedup_first(s)),
    decreases s.len(),
{
    if s.len() > 0 {
        let s0 = s.drop_last();
        assert(sorted_pairs(s0)) by {
            assert forall|i: int, j: int| 0 <= i < j < s0.len() implies pair_le(
                #[trigger] s0[i],
                #[trigger] s0[j],
            ) by {
                assert(s[i] == s0[i] && s[j] == s0[j]);
            }
        }
        lemma_dedup_sorted(s0);
        if !s0.contains(s.last()) {
            lemma_dedup_contains(s0);
            let d0 = dedup_first(s0);
            let d = dedup_first(s);
            assert forall|i: int, j: int| 0 <= i < j < d.len() implies pair_lt(
                #[trigger] d[i],
                #[trigger] d[j],
            ) by {
                if j < d0.len() {
                    assert(d[i] == d0[i] && d[j] == d0[j]);
                } else {
                    assert(d[i] == d0[i]);
                    assert(d[j] == s.last());
                    assert(d0[i] == d[i]);
                    assert(d0.contains(d[i]));
                    assert(s0.contains(d[i]));
                    let k = choose|k: int| 0 <= k < s0.len() && s0[k] == d[i];
                    assert(s[k] == d[i]);
                    assert(pair_le(s[k], s.last()));
                    assert(d[i] != s.last());
                }
            }
        }
    }
}

/// Relies on itertools' `unique`: an iterator adaptor that filters out
/// elements that have already been produced once during iteration, keeping
/// the first occurrence of each distinct element, in order.
#[verifier::external_body]
fn unique_pairs(v: Vec<(char, char)>) -> (r: Vec<(char, char)>)
    ensures
        r@ == dedup_first(v@),
{
    v.into_iter().unique().collect()
}

/// Executable pair comparison.
fn le_pair(a: (char, char), b: (char, char)) -> (res: bool)
    ensures
        res == pair_le(a, b),
{
    a.0 < b.0 || (a.0 == b.0 && a.1 <= b.1)
}

/// Insertion sort of symbol pairs: ascending, keeping exactly the elements
/// (and the length) of the input.
#[verifier::rlimit(100)]
#[verifier::loop_isolation(false)]
fn sort_pairs(v: &Vec<(char, char)>) -> (r: Vec<(char, char)>)
    ensures
        sorted_pairs(r@),
        r@.len() == v@.len(),
        forall|x: (char, char)| r@.contains(x) <==> v@.contains(x),
{
    let mut r: Vec<(char, char)> = Vec::new();
    let mut i: usize = 0;
    while i < v.len()
        invariant
            0 <= i <= v@.len(),
            r@.len() == i,
            sorted_pairs(r@),
            forall|x: (char, char)| r@.contains(x) <==> v@.subrange(0, i as int).contains(x),
        decreases v@.len() - i,
    {
        let x = v[i];
        let mut j: usize = 0;
        while j < r.len() && le_pair(r[j], x)
            invariant
                0 <= j <= r@.len(),
                forall|k: int| 0 <= k < j ==> pair_le(#[trigger] r@[k], x),
            decreases r@.len() - j,
        {
            j += 1;
        }
        proof {
            if j < r@.len() {
                assert(!pair_le(r@[j as int], x));
                assert(pair_le(x, r@[j as int]));
            }
        }
        let ghost r0 = r@;
        r.insert(j, x);
        proof {
            r0.insert_ensures(j as int, x);
            assert forall|a: int, b: int| 0 <= a < b < r@.len() implies pair_le(
                #[trigger] r@[a],
                #[trigger] r@[b],
            ) by {
                if b < j {
                    assert(r@[a] == r0[a] && r@[b] == r0[b]);
                } else if a < j && b == j {
                    assert(r@[a] == r0[a] && r@[b] == x);
                } else if a < j && b > j {
                    assert(r@[a] == r0[a] && r@[b] == r0[b - 1]);
                } else if a == j {
                    assert(r@[a] == x && r@[b] == r0[b - 1]);
                    assert(b - 1 >= j && j < r0.len());
                    assert(pair_le(x, r0[j as int]));
                } else {
                    assert(r@[a] == r0[a - 1] && r@[b] == r0[b - 1]);
                }
            }
            assert forall|y: (char, char)| #[trigger]
                r@.contains(y) implies v@.subrange(0, i + 1).contains(y) by {
                let k = choose|k: int| 0 <= k < r@.len() && r@[k] == y;
                if k == j {
                    assert(v@.subrange(0, i + 1)[i as int] == y);
                } else {
                    let k0: int = if k < j {
                        k
                    } else {
                        k - 1
                    };
                    assert(r0[k0] == y);
                    assert(r0.contains(y));
                    assert(v@.subrange(0, i as int).contains(y));
                    let m = choose|m: int|
                        0 <= m < i && v@.subrange(0, i as int)[m] == y;
                    assert(v@.subrange(0, i + 1)[m] == y);
                }
            }
            assert forall|y: (char, char)| #[trigger]
                v@.subrange(0, i + 1).contains(y) implies r@.contains(y) by {
                let m = choose|m: int| 0 <= m <= i && #[trigger] v@.subrange(0, i + 1)[m] == y;
                if m < i {
                    assert(v@.subrange(0, i as int)[m] == y);
                    assert(v@.subrange(0, i as int).contains(y));
                    assert(r0.contains(y));
                    let k = choose|k: int| 0 <= k < r0.len() && r0[k] == y;
                    if k < j {
                        assert(r@[k] == y);
                    } else {
                        assert(r@[k + 1] == y);
                    }
                } else {
                    assert(y == x);
                    assert(r@[j as int] == y);
                }
            }
        }
        i += 1;
    }
    proof {
        assert(v@.subrange(0, v@.len() as int) =~= v@);
    }
    r
}

/// The relation `rank_string` establishes between its input, the pair
/// alphabet it returns and the ranked string it returns.
pub open spec fn rank_post(s: Seq<char>, alphabet: Seq<(char, char)>, ranked: Seq<char>) -> bool {
    &&& strictly_sorted_pairs(alphabet)
    &&& (forall|p: (char, char)| alphabet.contains(p) <==> pairs_of(s).contains(p))
    &&& alphabet.len() <= s.len() / 2
    &&& ranked.len() == s.len() / 2 + 1
    &&& ranked[ranked.len() - 1] == SENTINEL
    &&& (forall|i: int|
        0 <= i < s.len() / 2 ==> ranked[i] == rank_char(rank_of(alphabet, pair_at(s, i))))
}

/// Rank transform: split the string into consecutive pairs, list the
/// distinct pairs in ascending order, replace each pair by the symbol for
/// its rank in that list, and append the sentinel. The input must have even
/// length, must not contain the sentinel, and is bounded so that every rank
/// is rendered as one symbol below the sentinel.
#[verifier::rlimit(100)]
#[verifier::loop_isolation(false)]
pub fn rank_string(string: Vec<char>) -> (res: (Vec<(char, char)>, Vec<char>))
    requires
        string@.len() % 2 == 0,
        string@.len() <= 156,
        forall|i: int| 0 <= i < string@.len() ==> string@[i] != SENTINEL,
    ensures
        rank_post(string@, res.0@, res.1@),
        valid_suffix(res.1@),
{
    let n = string.len();
    let half = n / 2;
    // the consecutive pairs
    let mut pairs: Vec<(char, char)> = Vec::new();
    let mut i: usize = 0;
    while i < half
        invariant
            0 <= i <= half,
            pairs@.len() == i,
            forall|k: int| 0 <= k < i ==> pairs@[k] == pair_at(string@, k),
        decreases half - i,
    {
        pairs.push((string[2 * i], string[2 * i + 1]));
        i += 1;
    }
    proof {
        assert(pairs@ =~= pairs_of(string@));
    }
    // distinct pairs, ascending
    let sorted = sort_pairs(&pairs);
    let alphabet = unique_pairs(sorted);
    proof {
        lemma_dedup_contains(sorted@);
        lemma_dedup_sorted(sorted@);
        assert(alphabet@.len() <= half);
    }
    // replace each pair by the symbol of its rank
    let mut ranked: Vec<char> = Vec::new();
    i = 0;
    while i < half
        invariant
            0 <= i <= half,
            ranked@.len() == i,
            forall|k: int|
                0 <= k < i ==> ranked@[k] == rank_char(rank_of(alphabet@, pair_at(string@, k))),
            forall|k: int|
                0 <= k < i ==> ranked@[k] != SENTINEL && 0 <= rank_of(
                    alphabet@,
                    pair_at(string@, k),
                ) < alphabet@.len(),
        decreases half - i,
    {
        let p = (string[2 * i], string[2 * i + 1]);
        proof {
            assert(p == pair_at(string@, i as int));
            assert(pairs_of(string@)[i as int] == p);
            assert(pairs_of(string@).contains(p));
            assert(alphabet@.contains(p));
        }
        let mut j: usize = 0;
        while j < alphabet.len() && !(alphabet[j].0 == p.0 && alphabet[j].1 == p.1)
            invariant
                0 <= j <= alphabet@.len(),
                forall|k: int| 0 <= k < j ==> #[trigger] alphabet@[k] != p,
            decreases alphabet@.len() - j,
        {
            j += 1;
        }
        proof {
            if j == alphabet.len() {
                let w = choose|w: int| 0 <= w < alphabet@.len() && alphabet@[w] == p;
                assert(alphabet@[w] != p);
                assert(false);
            }
            lemma_rank_of_unique(alphabet@, p, j as int);
        }
        ranked.push((48u8 + (j as u8)) as char);
        proof {
            assert(ranked@[i as int] == rank_char(j as int));
            assert(((48 + j) as u8) as char != SENTINEL);
        }
        i += 1;
    }
    ranked.push(SENTINEL);
    proof {
        assert(ranked@[ranked@.len() - 1] == SENTINEL);
        assert(valid_suffix(ranked@));
    }
    (alphabet, ranked)
}

} // verus!
