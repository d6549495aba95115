// Trie::build across all IndexColumnShape kinds: multi-level tries, a non-identity
// permutation shape, the EqColumn filter (R(x,x)), empty results (-> None), and the
// zero-level EqConst path (-> Some(Leaf) / None).
use rntz_joins::IndexColumnShape::{EqColumn, EqConst, TrieLevel};
use rntz_joins::{Trie, Value, VecDb};

// Sorted keys of a trie node's map.
fn keys(node: &Trie) -> Vec<Value> {
    match node {
        Trie::Node(map) => {
            let mut k: Vec<Value> = map.keys().copied().collect();
            k.sort();
            k
        }
        Trie::Leaf => panic!("expected a Trie::Node, got a Leaf"),
    }
}

// Child of a node under `key` (panics if absent or if node is a Leaf).
fn child(node: &Trie, key: usize) -> &Trie {
    match node {
        Trie::Node(map) => map.get(&key.into()).expect("missing key"),
        Trie::Leaf => panic!("expected a Trie::Node, got a Leaf"),
    }
}

fn is_leaf(node: &Trie) -> bool {
    matches!(node, Trie::Leaf)
}

#[test]
fn test_trie_build() {
    let db = VecDb::new()
        .rel("E", 2, vec![vec![0, 1], vec![0, 2], vec![1, 2]])
        .rel("R", 2, vec![vec![0, 0], vec![1, 2], vec![3, 3], vec![2, 2]])
        .rel("S", 2, vec![vec![0, 1], vec![1, 0]])
        .rel("T", 1, vec![vec![5], vec![6]]);

    // Forward index E(x,y): level 0 = col 0, level 1 = col 1.
    let fwd = Trie::build(&db, "E", &vec![TrieLevel(0), TrieLevel(1)]).unwrap();
    assert_eq!(keys(&fwd), vec![0, 1]);
    assert_eq!(keys(child(&fwd, 0)), vec![1, 2]);
    assert_eq!(keys(child(&fwd, 1)), vec![2]);
    assert!(is_leaf(child(child(&fwd, 0), 1)));

    // Backward index E(x,y) with a swapped shape: top-level keys are the destinations.
    let bwd = Trie::build(&db, "E", &vec![TrieLevel(1), TrieLevel(0)]).unwrap();
    assert_eq!(keys(&bwd), vec![1, 2]);
    assert_eq!(keys(child(&bwd, 2)), vec![0, 1]);

    // R(x,x): EqColumn(0) keeps only rows where col1 == col0; depth-1 trie.
    let diag = Trie::build(&db, "R", &vec![TrieLevel(0), EqColumn(0)]).unwrap();
    assert_eq!(keys(&diag), vec![0, 2, 3]);
    assert!(is_leaf(child(&diag, 0)));

    // S has no diagonal rows, so R(x,x)-style build over S is empty -> None.
    assert!(Trie::build(&db, "S", &vec![TrieLevel(0), EqColumn(0)]).is_none());

    // Zero-level (fully constant) atom via EqConst: Some(Leaf) iff a match exists.
    match Trie::build(&db, "T", &vec![EqConst(5usize.into())]) {
        Some(Trie::Leaf) => {}
        other => panic!("T(5) should build Some(Leaf), got {:?}", other.is_some()),
    }
    assert!(Trie::build(&db, "T", &vec![EqConst(9usize.into())]).is_none());
}
