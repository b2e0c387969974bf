use suffix_tree::build_suffix_tree;
use suffix_tree::contract::contract_trie;
use suffix_tree::rank::rank_string;
use suffix_tree::tree::{insert_suffix, make_tree, TreeNode};

fn chars(s: &str) -> Vec<char> {
    s.chars().collect()
}

fn count_leaves(n: &TreeNode) -> usize {
    if n.edge_table.is_empty() {
        if n.index.is_some() {
            1
        } else {
            0
        }
    } else {
        n.edge_table.iter().map(|e| count_leaves(&e.target_node)).sum()
    }
}

fn collect_words(n: &TreeNode, prefix: &str, out: &mut Vec<(String, u32)>) {
    if n.edge_table.is_empty() {
        if let Some(ix) = n.index {
            out.push((prefix.to_string(), ix));
        }
    }
    for e in n.edge_table.iter() {
        let mut p = prefix.to_string();
        p.extend(e.label.iter());
        collect_words(&e.target_node, &p, out);
    }
}

fn check_cached_lengths(n: &TreeNode) {
    for e in n.edge_table.iter() {
        assert_eq!(e.label_length, e.label.len());
        assert!(!e.label.is_empty());
        check_cached_lengths(&e.target_node);
    }
}

#[test]
fn rank_example_pairs() {
    let (alphabet, ranked) = rank_string(chars("121112212221"));
    assert_eq!(
        alphabet,
        vec![('1', '1'), ('1', '2'), ('2', '1'), ('2', '2')]
    );
    assert_eq!(ranked, chars("101232~"));
}

#[test]
fn rank_empty_input() {
    let (alphabet, ranked) = rank_string(Vec::new());
    assert!(alphabet.is_empty());
    assert_eq!(ranked, chars("~"));
}

#[test]
fn rank_duplicate_pairs_collapse() {
    // if duplicates were kept, the alphabet would have two entries and the
    // second pair would get rank 1
    let (alphabet, ranked) = rank_string(chars("1212"));
    assert_eq!(alphabet, vec![('1', '2')]);
    assert_eq!(ranked, chars("00~"));
}

#[test]
fn rank_orders_pairs_ascending() {
    let (alphabet, ranked) = rank_string(chars("zzaa"));
    assert_eq!(alphabet, vec![('a', 'a'), ('z', 'z')]);
    assert_eq!(ranked, chars("10~"));
}

#[test]
fn trie_of_aba_has_four_leaves() {
    let trie = make_tree(chars("aba~"));
    assert_eq!(count_leaves(&trie), 4);
    let mut words = Vec::new();
    collect_words(&trie, "", &mut words);
    words.sort();
    let mut expected = vec![
        ("aba~".to_string(), 1u32),
        ("ba~".to_string(), 3u32),
        ("a~".to_string(), 5u32),
        ("~".to_string(), 7u32),
    ];
    expected.sort();
    assert_eq!(words, expected);
}

#[test]
fn golden_aba_contracted_shape() {
    let trie = make_tree(chars("aba~"));
    let (tree, pulled, done) = contract_trie(trie);
    assert!(done);
    assert!(pulled.is_empty());
    check_cached_lengths(&tree);
    // root: three children, for leading symbols a, b and the sentinel
    assert_eq!(tree.edge_table.len(), 3);
    let a = &tree.edge_table[0];
    let b = &tree.edge_table[1];
    let s = &tree.edge_table[2];
    assert_eq!(a.label, chars("a"));
    assert_eq!(b.label, chars("ba~"));
    assert_eq!(s.label, chars("~"));
    // the b and sentinel branches end in leaves
    assert_eq!(b.target_node.index, Some(3));
    assert!(b.target_node.edge_table.is_empty());
    assert_eq!(s.target_node.index, Some(7));
    assert!(s.target_node.edge_table.is_empty());
    // after consuming "a" the tree branches again: "ba~" and "~"
    let an = &a.target_node;
    assert_eq!(an.index, None);
    assert_eq!(an.edge_table.len(), 2);
    assert_eq!(an.edge_table[0].label, chars("ba~"));
    assert_eq!(an.edge_table[0].target_node.index, Some(1));
    assert_eq!(an.edge_table[1].label, chars("~"));
    assert_eq!(an.edge_table[1].target_node.index, Some(5));
}

#[test]
fn contraction_preserves_leaves() {
    let trie = make_tree(chars("101232~"));
    let mut before = Vec::new();
    collect_words(&trie, "", &mut before);
    before.sort();
    let (tree, _, done) = contract_trie(trie);
    assert!(done);
    let mut after = Vec::new();
    collect_words(&tree, "", &mut after);
    after.sort();
    assert_eq!(before, after);
    assert_eq!(after.len(), 7);
}

#[test]
fn contraction_leaves_no_unary_nodes() {
    fn no_unary(n: &TreeNode) {
        assert_ne!(n.edge_table.len(), 1);
        for e in n.edge_table.iter() {
            no_unary(&e.target_node);
        }
    }
    let (tree, _, _) = contract_trie(make_tree(chars("101232~")));
    no_unary(&tree);
}

#[test]
fn contraction_idempotent_on_example() {
    let (once, _, _) = contract_trie(make_tree(chars("aba~")));
    let (again, pulled, done) = contract_trie(contract_trie(make_tree(chars("aba~"))).0);
    assert!(done);
    assert!(pulled.is_empty());
    assert_eq!(once, again);
}

#[test]
fn deterministic_build() {
    let build = |s: &str| {
        let (_, ranked) = rank_string(chars(s));
        contract_trie(make_tree(ranked)).0
    };
    assert_eq!(build("121112212221"), build("121112212221"));
}

#[test]
fn insert_single_sentinel_suffix() {
    let root = TreeNode::new(None);
    let t = insert_suffix(root, chars("~"), 9);
    assert_eq!(t.edge_table.len(), 1);
    assert_eq!(t.edge_table[0].label, chars("~"));
    assert_eq!(t.edge_table[0].label_length, 1);
    assert_eq!(t.edge_table[0].target_node.index, Some(9));
}

#[test]
fn insert_keeps_edges_sorted() {
    let mut t = TreeNode::new(None);
    t = insert_suffix(t, chars("b~"), 1);
    t = insert_suffix(t, chars("a~"), 3);
    t = insert_suffix(t, chars("~"), 5);
    assert_eq!(t.edge_table.len(), 3);
    assert_eq!(t.edge_table[0].label, chars("a"));
    assert_eq!(t.edge_table[1].label, chars("b"));
    assert_eq!(t.edge_table[2].label, chars("~"));
}

#[test]
fn contract_leaf_reports_done() {
    let leaf = TreeNode::new(None);
    let (n, pulled, done) = contract_trie(leaf);
    assert!(done);
    assert!(pulled.is_empty());
    assert!(n.edge_table.is_empty());
}

#[test]
fn contract_unary_root_hands_up_child() {
    // the trie of the bare sentinel string has a unary root, which
    // contraction hands up to the caller instead of keeping
    let trie = make_tree(chars("~"));
    assert_eq!(trie.edge_table.len(), 1);
    let (child, pulled, done) = contract_trie(trie);
    assert!(!done);
    assert_eq!(pulled, chars("~"));
    assert_eq!(child.index, Some(1));
}

#[test]
fn build_suffix_tree_matches_stages() {
    let (alphabet, ranked, tree) = build_suffix_tree(chars("121112212221"));
    let (alphabet2, ranked2) = suffix_tree::rank::rank_string(chars("121112212221"));
    assert_eq!(alphabet, alphabet2);
    assert_eq!(ranked, ranked2);
    let (tree2, _, _) = contract_trie(make_tree(ranked2));
    assert_eq!(tree, tree2);
}

#[test]
fn full_pipeline_example() {
    let (_, ranked) = rank_string(chars("121112212221"));
    let trie = make_tree(ranked);
    assert_eq!(count_leaves(&trie), 7);
    let (tree, _, done) = contract_trie(trie);
    assert!(done);
    assert_eq!(count_leaves(&tree), 7);
    let mut words = Vec::new();
    collect_words(&tree, "", &mut words);
    let mut indices: Vec<u32> = words.iter().map(|w| w.1).collect();
    indices.sort();
    assert_eq!(indices, vec![1, 3, 5, 7, 9, 11, 13]);
    for (w, ix) in words.iter() {
        let offset = ((ix - 1) / 2) as usize;
        assert_eq!(w, &"101232~"[offset..]);
    }
}
