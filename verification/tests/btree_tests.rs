use kenchdb::arena::BtreeNode;
use kenchdb::btree::Btree;

/// Walks the subtree under `id`, checking order, occupancy, bounds and
/// balance; returns the subtree's height.
fn check_subtree(
    nodes: &Vec<BtreeNode>,
    id: usize,
    t: usize,
    lo: Option<u64>,
    hi: Option<u64>,
    is_root: bool,
) -> usize {
    let nd = &nodes[id];
    assert_eq!(nd.keys.len(), 2 * t - 1);
    assert_eq!(nd.children.len(), 2 * t);
    assert!(nd.n <= 2 * t - 1, "node overfull");
    if !is_root {
        assert!(nd.n >= t - 1, "non-root node underfull");
    }
    for i in 0..nd.n {
        if let Some(l) = lo {
            assert!(l < nd.keys[i], "key at or below lower bound");
        }
        if let Some(u) = hi {
            assert!(nd.keys[i] < u, "key at or above upper bound");
        }
        if i + 1 < nd.n {
            assert!(nd.keys[i] < nd.keys[i + 1], "keys not strictly increasing");
        }
    }
    if nd.is_leaf {
        return 0;
    }
    let mut height: Option<usize> = None;
    for i in 0..=nd.n {
        let child_lo = if i == 0 { lo } else { Some(nd.keys[i - 1]) };
        let child_hi = if i == nd.n { hi } else { Some(nd.keys[i]) };
        let h = check_subtree(nodes, nd.children[i], t, child_lo, child_hi, false);
        match height {
            None => height = Some(h),
            Some(prev) => assert_eq!(prev, h, "leaves at unequal depths"),
        }
    }
    height.unwrap() + 1
}

/// Checks every structural invariant of the tree, including that no node
/// the tree reaches sits on the free list.
fn check_invariants(tree: &Btree) {
    check_subtree(&tree.arena.nodes, tree.root_id, tree.t, None, None, true);
    let mut reached = vec![false; tree.arena.nodes.len()];
    mark_reached(&tree.arena.nodes, tree.root_id, &mut reached);
    for f in &tree.arena.free_list {
        assert!(*f < tree.arena.nodes.len(), "free id out of range");
        assert!(!reached[*f], "free id still reachable from the tree");
    }
}

fn mark_reached(nodes: &Vec<BtreeNode>, id: usize, reached: &mut Vec<bool>) {
    reached[id] = true;
    let nd = &nodes[id];
    if !nd.is_leaf {
        for i in 0..=nd.n {
            mark_reached(nodes, nd.children[i], reached);
        }
    }
}

#[test]
fn test_btree_t2_insert_sequence() {
    let mut tree = Btree::new(2);
    let keys = [10u64, 20, 5, 6, 12, 30, 7, 17];
    for k in keys {
        tree.insert(k);
        check_invariants(&tree);
    }
    assert!(tree.search(6).is_some());
    assert!(tree.search(13).is_none());
    for k in keys {
        let hit = tree.search(k).expect("inserted key must be found");
        let (nid, idx) = hit;
        assert_eq!(tree.arena.nodes[nid].keys[idx], k);
    }
}

#[test]
fn test_btree_root_split_grows_height() {
    // With t = 2 a leaf root holds at most 3 keys; the 4th insert forces
    // exactly one root split and the height rises by one.
    let mut tree = Btree::new(2);
    tree.insert(1);
    tree.insert(2);
    tree.insert(3);
    assert!(tree.arena.nodes[tree.root_id].is_leaf);
    let h0 = check_subtree(&tree.arena.nodes, tree.root_id, 2, None, None, true);
    assert_eq!(h0, 0);
    tree.insert(4);
    assert!(!tree.arena.nodes[tree.root_id].is_leaf);
    assert_eq!(tree.arena.nodes[tree.root_id].n, 1);
    let h1 = check_subtree(&tree.arena.nodes, tree.root_id, 2, None, None, true);
    assert_eq!(h1, 1);
    check_invariants(&tree);
}

#[test]
fn test_btree_duplicate_insert_is_noop() {
    let mut tree = Btree::new(2);
    tree.insert(5);
    tree.insert(5);
    assert_eq!(tree.arena.nodes[tree.root_id].n, 1);
    check_invariants(&tree);
}

#[test]
fn test_btree_roundtrip_permutation() {
    // After inserting a permutation of a key set, search finds exactly
    // the keys of the set; after deleting a subset it finds exactly the
    // remainder.
    let keys = [41u64, 7, 99, 3, 55, 18, 72, 27, 64, 1, 88, 33, 12, 50, 9];
    let deleted = [7u64, 55, 1, 88, 41];
    let mut tree = Btree::new(2);
    for k in keys {
        tree.insert(k);
        check_invariants(&tree);
    }
    for probe in 0..120u64 {
        assert_eq!(tree.search(probe).is_some(), keys.contains(&probe));
    }
    for d in deleted {
        tree.delete(d);
        check_invariants(&tree);
    }
    for probe in 0..120u64 {
        let expected = keys.contains(&probe) && !deleted.contains(&probe);
        assert_eq!(tree.search(probe).is_some(), expected, "probe {}", probe);
    }
}

#[test]
fn test_btree_insert_then_delete_leaves_empty() {
    // Inserting then deleting a key on an otherwise empty tree brings the
    // root back to an empty leaf.
    let mut tree = Btree::new(2);
    tree.insert(42);
    tree.delete(42);
    assert!(tree.arena.nodes[tree.root_id].is_leaf);
    assert_eq!(tree.arena.nodes[tree.root_id].n, 0);
    assert!(tree.search(42).is_none());
    check_invariants(&tree);
}

#[test]
fn test_btree_delete_last_key_of_leaf_root() {
    let mut tree = Btree::new(3);
    tree.insert(11);
    tree.delete(11);
    assert!(tree.arena.nodes[tree.root_id].is_leaf);
    assert_eq!(tree.arena.nodes[tree.root_id].n, 0);
}

#[test]
fn test_btree_delete_merges_root_children() {
    // A root with one key over two minimal children collapses into one
    // node on the next delete, shrinking the height by one.
    let mut tree = Btree::new(2);
    for k in [10u64, 20, 5, 6] {
        tree.insert(k);
    }
    tree.delete(6);
    // Root internal with one key, both children minimal.
    assert!(!tree.arena.nodes[tree.root_id].is_leaf);
    assert_eq!(tree.arena.nodes[tree.root_id].n, 1);
    tree.delete(5);
    check_invariants(&tree);
    assert!(tree.arena.nodes[tree.root_id].is_leaf);
    for k in [10u64, 20] {
        assert!(tree.search(k).is_some());
    }
    assert!(tree.search(5).is_none());
    assert!(tree.search(6).is_none());
}

#[test]
fn test_btree_t3_delete_from_internal() {
    let mut tree = Btree::new(3);
    for k in 1..=20u64 {
        tree.insert(k);
        check_invariants(&tree);
    }
    let h_before = check_subtree(&tree.arena.nodes, tree.root_id, 3, None, None, true);
    tree.delete(10);
    check_invariants(&tree);
    let h_after = check_subtree(&tree.arena.nodes, tree.root_id, 3, None, None, true);
    assert!(h_before == h_after || h_before == h_after + 1);
    for k in 1..=20u64 {
        assert_eq!(tree.search(k).is_some(), k != 10, "key {}", k);
    }
}

#[test]
fn test_btree_large_mixed_workload() {
    let mut tree = Btree::new(4);
    let mut present = vec![false; 500];
    let mut x: u64 = 1;
    for _ in 0..800 {
        // A simple deterministic pseudo-random walk.
        x = x.wrapping_mul(6364136223846793005).wrapping_add(1442695040888963407);
        let k = (x >> 33) % 500;
        if (x & 4) == 0 && present[k as usize] {
            tree.delete(k);
            present[k as usize] = false;
        } else {
            tree.insert(k);
            present[k as usize] = true;
        }
    }
    check_invariants(&tree);
    for k in 0..500u64 {
        assert_eq!(tree.search(k).is_some(), present[k as usize], "key {}", k);
    }
}
