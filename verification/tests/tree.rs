use btree::btree::Btree;
use btree::node::{Node, NodeType};
use btree::utils::error::BtreeError;

fn walk<V: Clone, const D: usize>(node: &Node<u64, V, D>, out: &mut Vec<(u64, V)>) {
    for key in node.keys.iter() {
        if let Some(child) = &key.pointed_node {
            walk(child, out);
        }
        out.push((key.key, key.value.clone()));
    }
    if let Some(child) = &node.last_node {
        walk(child, out);
    }
}

fn in_order<V: Clone, const D: usize>(tree: &Btree<u64, V, D>) -> Vec<(u64, V)> {
    let mut out = Vec::new();
    walk(tree.root(), &mut out);
    out
}

fn keys_of<V: Clone, const D: usize>(tree: &Btree<u64, V, D>) -> Vec<u64> {
    in_order(tree).into_iter().map(|p| p.0).collect()
}

fn height<V, const D: usize>(tree: &Btree<u64, V, D>) -> usize {
    let mut levels = 1;
    let mut node = tree.root();
    while let Some(child) = &node.last_node {
        levels += 1;
        node = child;
    }
    levels
}

// Checks shape below `node` and returns the depth of its leaves.
fn check_node<V, const D: usize>(node: &Node<u64, V, D>, is_root: bool) -> usize {
    assert!(node.keys.len() <= 2 * D - 1);
    if !is_root {
        assert!(node.keys.len() >= D - 1);
    }
    match node.type_ {
        NodeType::Leaf => {
            assert!(node.last_node.is_none());
            assert!(node.keys.iter().all(|k| k.pointed_node.is_none()));
            assert_eq!(node.child_count(), 0);
            1
        }
        NodeType::Internal => {
            assert!(node.keys.len() >= 1);
            assert_eq!(node.child_count(), node.keys.len() + 1);
            let last = node.last_node.as_ref().unwrap();
            let depth = check_node(last, false);
            for key in node.keys.iter() {
                let child = key.pointed_node.as_ref().unwrap();
                assert_eq!(check_node(child, false), depth);
            }
            depth + 1
        }
    }
}

fn check_invariants<V: Clone, const D: usize>(tree: &Btree<u64, V, D>) {
    let keys = keys_of(tree);
    assert!(keys.windows(2).all(|w| w[0] < w[1]));
    assert_eq!(check_node(tree.root(), true), height(tree));
    assert_eq!(tree.len(), keys.len());
    assert_eq!(tree.is_empty(), keys.is_empty());
    if keys.is_empty() {
        assert!(matches!(tree.root().type_, NodeType::Leaf));
        assert_eq!(tree.root().keys.len(), 0);
    }
}

fn permutation(n: u64, seed: u64) -> Vec<u64> {
    let mut items: Vec<u64> = (1..=n).collect();
    let mut state = seed;
    let mut i = items.len();
    while i > 1 {
        state = state.wrapping_mul(6364136223846793005).wrapping_add(1442695040888963407);
        let j = ((state >> 33) % (i as u64)) as usize;
        i -= 1;
        items.swap(i, j);
    }
    items
}

#[test]
fn new_rejects_degree_below_two() {
    assert!(matches!(Btree::<u64, u64, 1>::new(), Err(BtreeError::LowerBoundTooLow)));
    assert!(matches!(Btree::<u64, u64, 0>::new(), Err(BtreeError::LowerBoundTooLow)));
}

#[test]
fn new_rejects_degree_above_2048() {
    assert!(matches!(Btree::<u64, u64, 2049>::new(), Err(BtreeError::LowerBoundTooLarge)));
}

#[test]
fn new_accepts_both_bounds() {
    let low = Btree::<u64, u64, 2>::new().unwrap();
    assert_eq!(low.len(), 0);
    assert!(low.is_empty());
    check_invariants(&low);
    let high = Btree::<u64, u64, 2048>::new().unwrap();
    assert_eq!(high.len(), 0);
    assert_eq!(height(&high), 1);
    check_invariants(&high);
}

#[test]
fn error_messages() {
    assert_eq!(
        BtreeError::LowerBoundTooLow.message(),
        "Lower Bound (lowest number of keys in a node) needs to be at least 2"
    );
    assert_eq!(
        BtreeError::LowerBoundTooLarge.message(),
        "Lower Bound (lowest number of keys in a node) too large"
    );
}

#[test]
fn insert_then_get() {
    let mut tree = Btree::<u64, &str, 2>::new().unwrap();
    assert_eq!(tree.insert(7, "seven"), None);
    assert_eq!(tree.get(&7), Some(&"seven"));
    assert_eq!(tree.get(&8), None);
    assert_eq!(tree.len(), 1);
    check_invariants(&tree);
}

#[test]
fn insert_then_get_in_a_deep_tree() {
    let mut tree = Btree::<u64, u64, 2>::new().unwrap();
    for k in permutation(200, 11) {
        assert_eq!(tree.insert(k, k * 3), None);
        assert_eq!(tree.get(&k), Some(&(k * 3)));
        check_invariants(&tree);
    }
    assert_eq!(tree.len(), 200);
    for k in 1..=200u64 {
        assert_eq!(tree.get(&k), Some(&(k * 3)));
    }
    assert_eq!(tree.get(&0), None);
    assert_eq!(tree.get(&201), None);
}

#[test]
fn ascending_inserts_split_the_root_once() {
    let mut tree = Btree::<u64, u64, 2>::new().unwrap();
    for k in 1..=3u64 {
        tree.insert(k, k);
        assert_eq!(height(&tree), 1);
    }
    tree.insert(4, 4);
    assert_eq!(height(&tree), 2);
    assert_eq!(tree.root().keys.len(), 1);
    assert_eq!(tree.root().keys[0].key, 2);
    assert_eq!(keys_of(&tree), vec![1, 2, 3, 4]);
    check_invariants(&tree);
}

#[test]
fn ascending_inserts_split_the_root_once_degree_three() {
    let mut tree = Btree::<u64, u64, 3>::new().unwrap();
    for k in 1..=5u64 {
        tree.insert(k, k);
        assert_eq!(height(&tree), 1);
    }
    tree.insert(6, 6);
    assert_eq!(height(&tree), 2);
    assert_eq!(tree.root().keys.len(), 1);
    assert_eq!(tree.root().keys[0].key, 3);
    assert_eq!(tree.len(), 6);
    check_invariants(&tree);
}

#[test]
fn descending_inserts_split_the_root_once() {
    let mut tree = Btree::<u64, u64, 2>::new().unwrap();
    for k in (1..=4u64).rev() {
        tree.insert(k, k);
        check_invariants(&tree);
    }
    assert_eq!(height(&tree), 2);
    assert_eq!(tree.root().keys.len(), 1);
    assert_eq!(keys_of(&tree), vec![1, 2, 3, 4]);
}

#[test]
fn removing_the_only_element_leaves_an_empty_leaf() {
    let mut tree = Btree::<u64, &str, 2>::new().unwrap();
    tree.insert(5, "five");
    assert_eq!(tree.remove(&5), Some("five"));
    assert_eq!(tree.len(), 0);
    assert!(tree.is_empty());
    assert!(matches!(tree.root().type_, NodeType::Leaf));
    assert_eq!(tree.root().keys.len(), 0);
    assert_eq!(height(&tree), 1);
    check_invariants(&tree);
}

#[test]
fn seven_keys_come_out_in_order() {
    let mut tree = Btree::<u64, u64, 2>::new().unwrap();
    for k in [10u64, 20, 5, 6, 12, 30, 7] {
        assert_eq!(tree.insert(k, k + 100), None);
        check_invariants(&tree);
    }
    assert_eq!(keys_of(&tree), vec![5, 6, 7, 10, 12, 20, 30]);
    assert_eq!(height(&tree), 2);
    assert_eq!(tree.len(), 7);
    assert_eq!(
        in_order(&tree),
        vec![(5, 105), (6, 106), (7, 107), (10, 110), (12, 112), (20, 120), (30, 130)]
    );
}

#[test]
fn get_after_ten_inserts() {
    let mut tree = Btree::<u64, String, 2>::new().unwrap();
    for k in 1..=10u64 {
        tree.insert(k, format!("v{}", k));
    }
    assert_eq!(tree.get(&5), Some(&"v5".to_string()));
    assert_eq!(tree.get(&11), None);
    check_invariants(&tree);
}

#[test]
fn remove_first_three_of_ten() {
    let mut tree = Btree::<u64, u64, 2>::new().unwrap();
    for k in 1..=10u64 {
        tree.insert(k, k * 10);
    }
    for k in 1..=3u64 {
        assert_eq!(tree.remove(&k), Some(k * 10));
        check_invariants(&tree);
    }
    for k in 1..=3u64 {
        assert_eq!(tree.get(&k), None);
    }
    for k in 4..=10u64 {
        assert_eq!(tree.get(&k), Some(&(k * 10)));
    }
    assert_eq!(tree.len(), 7);
    assert_eq!(keys_of(&tree), vec![4, 5, 6, 7, 8, 9, 10]);
}

#[test]
fn second_insert_replaces_the_value() {
    let mut tree = Btree::<u64, &str, 2>::new().unwrap();
    assert_eq!(tree.insert(42, "a"), None);
    assert_eq!(tree.insert(42, "b"), Some("a"));
    assert_eq!(tree.get(&42), Some(&"b"));
    assert_eq!(tree.len(), 1);
    check_invariants(&tree);
}

#[test]
fn insert_sixteen_then_remove_all() {
    let mut tree = Btree::<u64, u64, 2>::new().unwrap();
    for k in 1..=16u64 {
        tree.insert(k, k);
        check_invariants(&tree);
    }
    assert_eq!(tree.len(), 16);
    for k in 1..=16u64 {
        assert_eq!(tree.remove(&k), Some(k));
        check_invariants(&tree);
        assert_eq!(tree.len() as u64, 16 - k);
    }
    assert_eq!(tree.len(), 0);
    assert_eq!(height(&tree), 1);
    assert!(matches!(tree.root().type_, NodeType::Leaf));
}

#[test]
fn degree_three_shuffled_inserts_and_removals() {
    let mut tree = Btree::<u64, u64, 3>::new().unwrap();
    let order = permutation(20, 7);
    for (n, k) in order.iter().enumerate() {
        assert_eq!(tree.insert(*k, *k + 1), None);
        check_invariants(&tree);
        assert_eq!(tree.len(), n + 1);
    }
    assert_eq!(keys_of(&tree), (1..=20u64).collect::<Vec<u64>>());
    let removal = permutation(20, 99);
    for (n, k) in removal.iter().enumerate() {
        assert_eq!(tree.remove(k), Some(*k + 1));
        check_invariants(&tree);
        assert_eq!(tree.len(), 19 - n);
        assert_eq!(tree.get(k), None);
    }
    assert!(tree.is_empty());
}

#[test]
fn replace_in_an_internal_node() {
    let mut tree = Btree::<u64, u64, 2>::new().unwrap();
    for k in 1..=10u64 {
        tree.insert(k, k);
    }
    let separator = tree.root().keys[0].key;
    assert_eq!(tree.insert(separator, 1000), Some(separator));
    assert_eq!(tree.get(&separator), Some(&1000));
    assert_eq!(tree.len(), 10);
    check_invariants(&tree);
}

#[test]
fn replace_the_median_that_a_split_brings_up() {
    let mut tree = Btree::<u64, u64, 2>::new().unwrap();
    for k in [10u64, 20, 30, 40, 50, 60] {
        tree.insert(k, k);
    }
    // The rightmost leaf is now full: [40, 50, 60]; inserting 50 splits it
    // and finds 50 as the median.
    assert_eq!(tree.insert(50, 5), Some(50));
    assert_eq!(tree.get(&50), Some(&5));
    assert_eq!(tree.len(), 6);
    check_invariants(&tree);
}

#[test]
fn remove_inverse() {
    let mut tree = Btree::<u64, u64, 2>::new().unwrap();
    for k in [2u64, 4, 6, 8, 10, 12, 14] {
        tree.insert(k, k);
    }
    let before = in_order(&tree);
    let len = tree.len();
    assert_eq!(tree.insert(7, 70), None);
    assert_eq!(tree.remove(&7), Some(70));
    assert_eq!(tree.get(&7), None);
    assert_eq!(tree.len(), len);
    assert_eq!(in_order(&tree), before);
    check_invariants(&tree);
}

#[test]
fn remove_is_idempotent() {
    let mut tree = Btree::<u64, u64, 2>::new().unwrap();
    for k in 1..=9u64 {
        tree.insert(k, k);
    }
    assert_eq!(tree.remove(&4), Some(4));
    let after_first = in_order(&tree);
    assert_eq!(tree.remove(&4), None);
    assert_eq!(in_order(&tree), after_first);
    assert_eq!(tree.len(), 8);
    check_invariants(&tree);
}

#[test]
fn remove_absent_key_changes_nothing() {
    let mut tree = Btree::<u64, u64, 3>::new().unwrap();
    assert_eq!(tree.remove(&1), None);
    for k in [10u64, 20, 30, 40, 50, 60, 70] {
        tree.insert(k, k);
    }
    let before = in_order(&tree);
    assert_eq!(tree.remove(&35), None);
    assert_eq!(tree.remove(&0), None);
    assert_eq!(tree.remove(&100), None);
    assert_eq!(in_order(&tree), before);
    assert_eq!(tree.len(), 7);
}

#[test]
fn any_order_gives_the_same_traversal() {
    let mut expected: Option<Vec<(u64, u64)>> = None;
    for seed in [1u64, 2, 3, 4, 5] {
        let mut tree = Btree::<u64, u64, 2>::new().unwrap();
        for k in permutation(40, seed) {
            tree.insert(k, k * k);
        }
        check_invariants(&tree);
        let got = in_order(&tree);
        match &expected {
            None => expected = Some(got),
            Some(e) => assert_eq!(&got, e),
        }
    }
    let all: Vec<(u64, u64)> = (1..=40u64).map(|k| (k, k * k)).collect();
    assert_eq!(expected, Some(all));
}

#[test]
fn remove_internal_keys_by_predecessor_successor_and_merge() {
    let mut tree = Btree::<u64, u64, 2>::new().unwrap();
    for k in 1..=30u64 {
        tree.insert(k, k);
    }
    // Remove keys that sit in internal nodes, again and again.
    let mut present: Vec<u64> = (1..=30).collect();
    while !tree.is_empty() {
        let k = tree.root().keys[0].key;
        assert_eq!(tree.remove(&k), Some(k));
        present.retain(|x| *x != k);
        assert_eq!(keys_of(&tree), present);
        check_invariants(&tree);
    }
    assert_eq!(height(&tree), 1);
}

#[test]
fn remove_descending_uses_left_siblings() {
    let mut tree = Btree::<u64, u64, 2>::new().unwrap();
    for k in 1..=40u64 {
        tree.insert(k, k);
    }
    for k in (1..=40u64).rev() {
        assert_eq!(tree.remove(&k), Some(k));
        check_invariants(&tree);
    }
    assert!(tree.is_empty());
}

#[test]
fn large_degree_tree() {
    let mut tree = Btree::<u64, u64, 2048>::new().unwrap();
    for k in permutation(9000, 5) {
        tree.insert(k, k);
    }
    assert_eq!(tree.len(), 9000);
    assert_eq!(height(&tree), 2);
    check_invariants(&tree);
    for k in 1..=9000u64 {
        assert_eq!(tree.remove(&k), Some(k));
    }
    assert!(tree.is_empty());
    check_invariants(&tree);
}

#[test]
fn tree_split_root_adds_a_level() {
    let mut tree = Btree::<u64, u64, 2>::new().unwrap();
    for k in [1u64, 2, 3] {
        tree.insert(k, k);
    }
    assert!(tree.root().is_full());
    tree.split_root();
    assert_eq!(height(&tree), 2);
    assert_eq!(tree.root().keys.len(), 1);
    assert_eq!(tree.root().keys[0].key, 2);
    assert_eq!(tree.len(), 3);
    assert_eq!(keys_of(&tree), vec![1, 2, 3]);
    check_invariants(&tree);
}

fn against_std_map<const D: usize>(steps: usize, seed: u64, span: u64) {
    let mut tree = Btree::<u64, u64, D>::new().unwrap();
    let mut model = std::collections::BTreeMap::new();
    let mut state = seed;
    for step in 0..steps {
        state = state.wrapping_mul(6364136223846793005).wrapping_add(1442695040888963407);
        let key = (state >> 33) % span;
        let what = (state >> 20) % 5;
        if what < 2 {
            assert_eq!(tree.insert(key, step as u64), model.insert(key, step as u64));
        } else if what < 4 {
            assert_eq!(tree.remove(&key), model.remove(&key));
        } else {
            assert_eq!(tree.get(&key), model.get(&key));
        }
        assert_eq!(tree.len(), model.len());
        if step % 16 == 0 {
            check_invariants(&tree);
            let expected: Vec<(u64, u64)> = model.iter().map(|(k, v)| (*k, *v)).collect();
            assert_eq!(in_order(&tree), expected);
        }
    }
    check_invariants(&tree);
    let expected: Vec<(u64, u64)> = model.iter().map(|(k, v)| (*k, *v)).collect();
    assert_eq!(in_order(&tree), expected);
    for key in 0..span {
        assert_eq!(tree.remove(&key), model.remove(&key));
    }
    assert!(tree.is_empty());
    assert_eq!(height(&tree), 1);
}

#[test]
fn agrees_with_a_std_map_degree_two() {
    against_std_map::<2>(6000, 17, 300);
}

#[test]
fn agrees_with_a_std_map_degree_three() {
    against_std_map::<3>(6000, 23, 500);
}

#[test]
fn agrees_with_a_std_map_degree_five() {
    against_std_map::<5>(6000, 29, 1000);
}

#[test]
fn removal_takes_a_level_off_only_when_the_root_merges() {
    let mut tree = Btree::<u64, u64, 2>::new().unwrap();
    for k in [10u64, 20, 30, 40] {
        tree.insert(k, k);
    }
    // Root [20] over [10] and [30, 40]: the right child can spare a key.
    assert_eq!(height(&tree), 2);
    assert_eq!(tree.remove(&10), Some(10));
    assert_eq!(height(&tree), 2);
    assert_eq!(tree.root().keys[0].key, 30);
    // Root [30] over [20] and [40]: both minimal, any removal merges them.
    assert_eq!(tree.remove(&99), None);
    assert_eq!(height(&tree), 1);
    assert_eq!(keys_of(&tree), vec![20, 30, 40]);
    check_invariants(&tree);
}

#[test]
fn string_keys_and_values() {
    let mut tree = Btree::<String, String, 2>::new().unwrap();
    for word in ["pear", "apple", "fig", "kiwi", "plum", "lime", "date"] {
        assert_eq!(tree.insert(word.to_string(), word.to_uppercase()), None);
    }
    assert_eq!(tree.get(&"fig".to_string()), Some(&"FIG".to_string()));
    assert_eq!(tree.get(&"grape".to_string()), None);
    assert_eq!(tree.remove(&"apple".to_string()), Some("APPLE".to_string()));
    assert_eq!(tree.len(), 6);
}
