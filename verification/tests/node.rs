use btree::iterator::{ChildIterator, KeysIterator};
use btree::key::Key;
use btree::node::{Node, NodeType};
use btree::order::{compare, KeyOrder};
use btree::utils::error::{NodeError, NodeOperationError};

type N2 = Node<u64, u64, 2>;
type N3 = Node<u64, u64, 3>;

fn record<const D: usize>(k: u64) -> Key<u64, u64, D> {
    Key::new(k, k * 10)
}

fn leaf<const D: usize>(keys: &[u64]) -> Node<u64, u64, D> {
    Node::leaf(keys.iter().map(|k| record(*k)).collect())
}

// An internal node: `children` has one node more than `seps` has keys.
fn internal<const D: usize>(seps: &[u64], children: Vec<Node<u64, u64, D>>) -> Node<u64, u64, D> {
    assert_eq!(children.len(), seps.len() + 1);
    let mut children = children;
    let last = children.pop().unwrap();
    let mut keys = Vec::new();
    for (k, child) in seps.iter().zip(children.into_iter()) {
        let mut key = record(*k);
        key.set_pointed_node(child.boxed());
        keys.push(key);
    }
    Node::internal(keys, last.into_ptr())
}

fn own_keys<const D: usize>(node: &Node<u64, u64, D>) -> Vec<u64> {
    node.keys.iter().map(|k| k.key).collect()
}

fn child_keys<const D: usize>(node: &Node<u64, u64, D>, i: usize) -> Vec<u64> {
    let child = if i < node.keys.len() {
        node.keys[i].pointed_node.as_ref().unwrap()
    } else {
        node.last_node.as_ref().unwrap()
    };
    own_keys(child)
}

fn walk<const D: usize>(node: &Node<u64, u64, D>, out: &mut Vec<(u64, u64)>) {
    for key in node.keys.iter() {
        if let Some(child) = &key.pointed_node {
            walk(child, out);
        }
        out.push((key.key, key.value));
    }
    if let Some(child) = &node.last_node {
        walk(child, out);
    }
}

fn traversal<const D: usize>(node: &Node<u64, u64, D>) -> Vec<u64> {
    let mut out = Vec::new();
    walk(node, &mut out);
    out.into_iter().map(|p| p.0).collect()
}

fn sample_tree() -> N2 {
    // [10 | 20] over [1, 5], [12], [30, 40, 50]
    internal(&[10, 20], vec![leaf(&[1, 5]), leaf(&[12]), leaf(&[30, 40, 50])])
}

#[test]
fn key_new_owns_no_subtree() {
    let key: Key<u64, &str, 2> = Key::new(3, "three");
    assert_eq!(*key.key(), 3);
    assert_eq!(*key.value(), "three");
    assert!(key.pointed_node().is_none());
}

#[test]
fn key_replace_value_returns_the_old_one() {
    let mut key: Key<u64, &str, 2> = Key::new(3, "a");
    assert_eq!(key.replace_value("b"), "a");
    assert_eq!(*key.value(), "b");
    assert_eq!(*key.key(), 3);
}

#[test]
fn key_subtree_can_be_set_read_changed_and_taken() {
    let mut key: Key<u64, u64, 2> = Key::new(9, 90);
    assert!(key.unset_pointed_node().is_none());
    key.set_pointed_node(leaf(&[1, 2]).boxed());
    assert_eq!(own_keys(key.pointed_node().unwrap()), vec![1, 2]);
    key.pointed_node_mut().unwrap().keys.push(record(3));
    assert_eq!(own_keys(key.pointed_node().unwrap()), vec![1, 2, 3]);
    let taken = key.unset_pointed_node().unwrap();
    assert_eq!(own_keys(&taken), vec![1, 2, 3]);
    assert!(key.pointed_node().is_none());
    assert!(key.pointed_node_mut().is_none());
    assert_eq!(*key.key(), 9);
}

#[test]
fn compare_is_three_way() {
    assert!(matches!(compare(&1u64, &2u64), KeyOrder::Less));
    assert!(matches!(compare(&2u64, &2u64), KeyOrder::Equal));
    assert!(matches!(compare(&3u64, &2u64), KeyOrder::Greater));
    assert!(matches!(compare(&-3i32, &2i32), KeyOrder::Less));
}

#[test]
fn node_constructors() {
    let empty = N2::default(NodeType::Leaf);
    assert!(empty.is_leaf());
    assert!(empty.is_empty());
    assert_eq!(empty.keys_count(), 0);
    assert!(empty.last_node.is_none());
    let inner = N2::default(NodeType::Internal);
    assert!(!inner.is_leaf());
    assert!(matches!(inner.type_(), NodeType::Internal));
    let made = N2::new(vec![record(1)], None, NodeType::Leaf);
    assert_eq!(own_keys(&made), vec![1]);
    assert!(matches!(made.type_(), NodeType::Leaf));
    let l = leaf::<2>(&[4, 5]);
    assert_eq!(l.len(), 2);
    assert!(l.is_leaf());
    let i = N2::internal(vec![], l.into_ptr());
    assert!(!i.is_leaf());
    assert_eq!(own_keys(i.last_node.as_ref().unwrap()), vec![4, 5]);
    assert!(N2::new_keys().is_empty());
}

#[test]
fn node_boxed_and_into_ptr_keep_the_node() {
    let b = leaf::<2>(&[1, 2]).boxed();
    assert_eq!(own_keys(&b), vec![1, 2]);
    let p = leaf::<2>(&[3]).into_ptr();
    assert_eq!(own_keys(p.as_ref().unwrap()), vec![3]);
}

#[test]
fn occupancy_tests_degree_two() {
    // D = 2: at least 1 key, at most 3.
    let counts: Vec<(usize, bool, bool, bool)> = vec![
        (0, true, false, false),
        (1, false, false, false),
        (2, false, false, false),
        (3, false, true, false),
        (4, false, true, true),
    ];
    for (n, under, full, over) in counts {
        let keys: Vec<u64> = (1..=n as u64).collect();
        let node = leaf::<2>(&keys);
        assert_eq!(node.underflow(), under);
        assert_eq!(node.is_full(), full);
        assert_eq!(node.overflow(), over);
        assert_eq!(node.is_empty(), n == 0);
        assert_eq!(node.keys_count(), n);
        assert_eq!(node.len(), n);
    }
}

#[test]
fn occupancy_tests_degree_three() {
    // D = 3: at least 2 keys, at most 5.
    for n in 0..=7usize {
        let keys: Vec<u64> = (1..=n as u64).collect();
        let node = leaf::<3>(&keys);
        assert_eq!(node.underflow(), n < 2);
        assert_eq!(node.is_full(), n >= 5);
        assert_eq!(node.overflow(), n > 5);
    }
}

#[test]
fn child_count_is_keys_plus_one_for_internal_nodes() {
    assert_eq!(leaf::<2>(&[1, 2]).child_count(), 0);
    assert_eq!(sample_tree().child_count(), 3);
    assert_eq!(sample_tree().child_len(0), 2);
    assert_eq!(sample_tree().child_len(1), 1);
    assert_eq!(sample_tree().child_len(2), 3);
}

#[test]
fn get_and_get_mut_by_index() {
    let mut node = leaf::<2>(&[1, 2, 3]);
    assert_eq!(node.get(1).unwrap().key, 2);
    assert!(node.get(3).is_none());
    node.get_mut(2).unwrap().value = 77;
    assert_eq!(node.get(2).unwrap().value, 77);
    assert!(node.get_mut(3).is_none());
    assert_eq!(own_keys(&node), vec![1, 2, 3]);
}

#[test]
fn remove_key_and_pops() {
    let mut node = leaf::<3>(&[1, 2, 3, 4, 5]);
    assert_eq!(node.remove_key(1).unwrap().key, 2);
    assert_eq!(own_keys(&node), vec![1, 3, 4, 5]);
    assert!(node.remove_key(4).is_none());
    assert_eq!(own_keys(&node), vec![1, 3, 4, 5]);
    assert_eq!(node.pop_middle().unwrap().key, 4);
    assert_eq!(own_keys(&node), vec![1, 3, 5]);
    assert_eq!(node.pop_first().unwrap().key, 1);
    assert_eq!(node.pop_last().unwrap().key, 5);
    assert_eq!(node.pop_middle().unwrap().key, 3);
    assert!(node.pop_first().is_none());
    assert!(node.pop_middle().is_none());
    assert!(node.pop_last().is_none());
}

#[test]
fn index_for_finds_keys_and_gaps() {
    let node = leaf::<3>(&[10, 20, 30, 40, 50]);
    assert_eq!(node.index_for(&10), (true, 0));
    assert_eq!(node.index_for(&30), (true, 2));
    assert_eq!(node.index_for(&50), (true, 4));
    assert_eq!(node.index_for(&5), (false, 0));
    assert_eq!(node.index_for(&25), (false, 2));
    assert_eq!(node.index_for(&55), (false, 5));
    assert_eq!(leaf::<3>(&[]).index_for(&1), (false, 0));
}

#[test]
fn find_searches_the_subtree() {
    let tree = sample_tree();
    for k in [1u64, 5, 10, 12, 20, 30, 40, 50] {
        assert_eq!(tree.find(&k), Some(&(k * 10)));
    }
    for k in [0u64, 2, 11, 15, 25, 45, 60] {
        assert_eq!(tree.find(&k), None);
    }
}

#[test]
fn take_child_and_put_child() {
    let mut tree = sample_tree();
    let first = tree.take_child(0);
    assert_eq!(own_keys(&first), vec![1, 5]);
    assert!(tree.keys[0].pointed_node.is_none());
    let last = tree.take_child(2);
    assert_eq!(own_keys(&last), vec![30, 40, 50]);
    assert!(tree.last_node.is_none());
    tree.put_child(0, first);
    tree.put_child(2, last);
    assert_eq!(traversal(&tree), vec![1, 5, 10, 12, 20, 30, 40, 50]);
    assert_eq!(own_keys(&tree), vec![10, 20]);
}

#[test]
fn split_inner_takes_a_full_node_apart() {
    let mut node = leaf::<2>(&[1, 2, 3]);
    let (left, median, right) = node.split_inner();
    assert_eq!(own_keys(&left), vec![1]);
    assert_eq!(median.key, 2);
    assert_eq!(median.value, 20);
    assert!(median.pointed_node.is_none());
    assert_eq!(own_keys(&right), vec![3]);
    assert!(node.keys.is_empty());
    assert!(node.last_node.is_none());
    assert!(left.is_leaf() && right.is_leaf());
}

#[test]
fn split_inner_hands_the_children_over() {
    let mut node: N2 =
        internal(&[10, 20, 30], vec![leaf(&[5]), leaf(&[15]), leaf(&[25]), leaf(&[35])]);
    let (left, median, right) = node.split_inner();
    assert_eq!(median.key, 20);
    assert!(median.pointed_node.is_none());
    assert_eq!(traversal(&left), vec![5, 10, 15]);
    assert_eq!(traversal(&right), vec![25, 30, 35]);
    assert_eq!(own_keys(left.last_node.as_ref().unwrap()), vec![15]);
    assert_eq!(own_keys(right.last_node.as_ref().unwrap()), vec![35]);
    assert!(!left.is_leaf() && !right.is_leaf());
}

#[test]
fn split_keeps_the_upper_half_and_returns_the_median_over_the_lower() {
    let mut node = leaf::<3>(&[1, 2, 3, 4, 5]);
    let median = node.split();
    assert_eq!(median.key, 3);
    assert_eq!(own_keys(median.pointed_node.as_ref().unwrap()), vec![1, 2]);
    assert_eq!(own_keys(&node), vec![4, 5]);
}

#[test]
fn split_child_in_a_key_slot() {
    let mut tree: N2 = internal(&[100], vec![leaf(&[10, 20, 30]), leaf(&[200])]);
    tree.split_node_pointed_by_key(0);
    assert_eq!(own_keys(&tree), vec![20, 100]);
    assert_eq!(child_keys(&tree, 0), vec![10]);
    assert_eq!(child_keys(&tree, 1), vec![30]);
    assert_eq!(child_keys(&tree, 2), vec![200]);
    assert_eq!(traversal(&tree), vec![10, 20, 30, 100, 200]);
}

#[test]
fn split_child_in_the_trailing_slot() {
    let mut tree: N2 = internal(&[100], vec![leaf(&[10]), leaf(&[200, 300, 400])]);
    tree.split_node_pointed_by_key(1);
    assert_eq!(own_keys(&tree), vec![100, 300]);
    assert_eq!(child_keys(&tree, 0), vec![10]);
    assert_eq!(child_keys(&tree, 1), vec![200]);
    assert_eq!(child_keys(&tree, 2), vec![400]);
}

#[test]
fn node_split_root_adds_a_level() {
    let mut node = leaf::<2>(&[1, 2, 3]);
    node.split_root();
    assert!(!node.is_leaf());
    assert_eq!(own_keys(&node), vec![2]);
    assert_eq!(child_keys(&node, 0), vec![1]);
    assert_eq!(child_keys(&node, 1), vec![3]);
}

#[test]
fn split_into_parent_moves_the_upper_half() {
    let mut node = leaf::<3>(&[1, 2, 3, 4, 5]);
    let mut parent: Key<u64, u64, 3> = Key::new(100, 1);
    {
        let back = node.split_into_parent(&mut parent);
        assert_eq!(back.key, 100);
        assert_eq!(own_keys(back.pointed_node.as_ref().unwrap()), vec![4, 5]);
    }
    assert_eq!(own_keys(&node), vec![1, 2, 3]);
    assert_eq!(own_keys(parent.pointed_node.as_ref().unwrap()), vec![4, 5]);
    assert_eq!(parent.value, 1);
}

#[test]
fn init_keys_leaves_one_key() {
    let mut node = leaf::<2>(&[1, 2]);
    node.init_keys(record(9));
    assert_eq!(own_keys(&node), vec![9]);
}

#[test]
fn merge_children_around_a_key() {
    let mut tree: N2 = internal(&[10, 20], vec![leaf(&[5]), leaf(&[15]), leaf(&[25])]);
    tree.merge_childs(0);
    assert_eq!(own_keys(&tree), vec![20]);
    assert_eq!(child_keys(&tree, 0), vec![5, 10, 15]);
    assert_eq!(child_keys(&tree, 1), vec![25]);
    assert_eq!(traversal(&tree), vec![5, 10, 15, 20, 25]);
}

#[test]
fn merge_children_around_the_last_key() {
    let mut tree: N2 = internal(&[10, 20], vec![leaf(&[5]), leaf(&[15]), leaf(&[25])]);
    tree.merge_childs(1);
    assert_eq!(own_keys(&tree), vec![10]);
    assert_eq!(child_keys(&tree, 0), vec![5]);
    assert_eq!(child_keys(&tree, 1), vec![15, 20, 25]);
}

#[test]
fn merge_internal_children_keeps_their_subtrees() {
    let left: N2 = internal(&[10], vec![leaf(&[5]), leaf(&[15])]);
    let right: N2 = internal(&[30], vec![leaf(&[25]), leaf(&[35])]);
    let mut tree: N2 = internal(&[20], vec![left, right]);
    tree.merge_childs(0);
    assert_eq!(own_keys(&tree), Vec::<u64>::new());
    assert_eq!(child_keys(&tree, 0), vec![10, 20, 30]);
    assert_eq!(traversal(&tree), vec![5, 10, 15, 20, 25, 30, 35]);
}

#[test]
fn slide_to_left_sibling() {
    let mut left = leaf::<2>(&[5]);
    let mut right = leaf::<2>(&[20, 30]);
    let mut sep: Key<u64, u64, 2> = record(10);
    assert_eq!(right.slide_one_key_to_left_sibling(&mut left, &mut sep), Ok(()));
    assert_eq!(own_keys(&left), vec![5, 10]);
    assert_eq!(sep.key, 20);
    assert_eq!(sep.value, 200);
    assert_eq!(own_keys(&right), vec![30]);
}

#[test]
fn slide_to_left_sibling_moves_a_subtree() {
    let mut left: N2 = internal(&[10], vec![leaf(&[5]), leaf(&[15])]);
    let mut right: N2 = internal(&[30, 40], vec![leaf(&[25]), leaf(&[35]), leaf(&[45])]);
    let mut sep: Key<u64, u64, 2> = record(20);
    assert_eq!(right.slide_one_key_to_left_sibling(&mut left, &mut sep), Ok(()));
    assert_eq!(sep.key, 30);
    assert_eq!(traversal(&left), vec![5, 10, 15, 20, 25]);
    assert_eq!(own_keys(&left), vec![10, 20]);
    assert_eq!(own_keys(left.last_node.as_ref().unwrap()), vec![25]);
    assert_eq!(traversal(&right), vec![35, 40, 45]);
}

#[test]
fn slide_to_left_sibling_fails_on_an_empty_giver() {
    let mut left = leaf::<2>(&[5]);
    let mut right = leaf::<2>(&[]);
    let mut sep: Key<u64, u64, 2> = record(10);
    assert_eq!(right.slide_one_key_to_left_sibling(&mut left, &mut sep), Err(()));
    assert_eq!(own_keys(&left), vec![5]);
    assert_eq!(sep.key, 10);
    assert!(right.keys.is_empty());
}

#[test]
fn slide_to_right_sibling() {
    let mut left = leaf::<2>(&[5, 8]);
    let mut right = leaf::<2>(&[20]);
    let mut sep: Key<u64, u64, 2> = record(10);
    assert_eq!(left.slide_one_key_to_right_sibling(&mut right, &mut sep), Ok(()));
    assert_eq!(own_keys(&left), vec![5]);
    assert_eq!(sep.key, 8);
    assert_eq!(sep.value, 80);
    assert_eq!(own_keys(&right), vec![10, 20]);
}

#[test]
fn slide_to_right_sibling_moves_a_subtree() {
    let mut left: N2 = internal(&[10, 14], vec![leaf(&[5]), leaf(&[12]), leaf(&[16])]);
    let mut right: N2 = internal(&[30], vec![leaf(&[25]), leaf(&[35])]);
    let mut sep: Key<u64, u64, 2> = record(20);
    assert_eq!(left.slide_one_key_to_right_sibling(&mut right, &mut sep), Ok(()));
    assert_eq!(sep.key, 14);
    assert_eq!(traversal(&left), vec![5, 10, 12]);
    assert_eq!(traversal(&right), vec![16, 20, 25, 30, 35]);
    assert_eq!(own_keys(&right), vec![20, 30]);
}

#[test]
fn slide_to_right_sibling_fails_on_an_empty_giver() {
    let mut left = leaf::<2>(&[]);
    let mut right = leaf::<2>(&[20]);
    let mut sep: Key<u64, u64, 2> = record(10);
    assert_eq!(left.slide_one_key_to_right_sibling(&mut right, &mut sep), Err(()));
    assert_eq!(own_keys(&right), vec![20]);
    assert_eq!(sep.key, 10);
}

#[test]
fn rotate_left_from_right() {
    let mut tree: N2 = internal(&[10, 20], vec![leaf(&[5]), leaf(&[12, 15]), leaf(&[25])]);
    tree.rotate_left_from_right(0);
    assert_eq!(own_keys(&tree), vec![12, 20]);
    assert_eq!(child_keys(&tree, 0), vec![5, 10]);
    assert_eq!(child_keys(&tree, 1), vec![15]);
    assert_eq!(child_keys(&tree, 2), vec![25]);
}

#[test]
fn rotate_right_from_left() {
    let mut tree: N2 = internal(&[10, 20], vec![leaf(&[5]), leaf(&[12, 15]), leaf(&[25])]);
    tree.rotate_right_from_left(1);
    assert_eq!(own_keys(&tree), vec![10, 15]);
    assert_eq!(child_keys(&tree, 0), vec![5]);
    assert_eq!(child_keys(&tree, 1), vec![12]);
    assert_eq!(child_keys(&tree, 2), vec![20, 25]);
}

#[test]
fn ensure_child_has_extra_prefers_the_left_sibling() {
    let mut tree: N2 = internal(&[10, 20], vec![leaf(&[5, 7]), leaf(&[15]), leaf(&[25, 27])]);
    assert_eq!(tree.ensure_child_has_extra(1), 1);
    assert_eq!(own_keys(&tree), vec![7, 20]);
    assert_eq!(child_keys(&tree, 0), vec![5]);
    assert_eq!(child_keys(&tree, 1), vec![10, 15]);
    assert_eq!(child_keys(&tree, 2), vec![25, 27]);
}

#[test]
fn ensure_child_has_extra_then_tries_the_right_sibling() {
    let mut tree: N2 = internal(&[10, 20], vec![leaf(&[5]), leaf(&[15]), leaf(&[25, 27])]);
    assert_eq!(tree.ensure_child_has_extra(1), 1);
    assert_eq!(own_keys(&tree), vec![10, 25]);
    assert_eq!(child_keys(&tree, 1), vec![15, 20]);
    assert_eq!(child_keys(&tree, 2), vec![27]);
}

#[test]
fn ensure_child_has_extra_merges_with_the_right_sibling() {
    let mut tree: N2 = internal(&[10, 20], vec![leaf(&[5]), leaf(&[15]), leaf(&[25])]);
    assert_eq!(tree.ensure_child_has_extra(0), 0);
    assert_eq!(own_keys(&tree), vec![20]);
    assert_eq!(child_keys(&tree, 0), vec![5, 10, 15]);
}

#[test]
fn ensure_child_has_extra_merges_the_trailing_child_to_the_left() {
    let mut tree: N2 = internal(&[10, 20], vec![leaf(&[5]), leaf(&[15]), leaf(&[25])]);
    assert_eq!(tree.ensure_child_has_extra(2), 1);
    assert_eq!(own_keys(&tree), vec![10]);
    assert_eq!(child_keys(&tree, 1), vec![15, 20, 25]);
}

#[test]
fn swap_with_the_last_and_first_entry() {
    let mut tree = sample_tree();
    let mut slot: Key<u64, u64, 2> = Key::new(99, 1);
    tree.swap_last_entry(&mut slot);
    assert_eq!((slot.key, slot.value), (50, 500));
    assert_eq!(traversal(&tree), vec![1, 5, 10, 12, 20, 30, 40, 99]);
    tree.swap_first_entry(&mut slot);
    assert_eq!((slot.key, slot.value), (1, 10));
    assert_eq!(traversal(&tree), vec![50, 5, 10, 12, 20, 30, 40, 99]);
    let mut l = leaf::<2>(&[3, 4]);
    l.swap_last_entry(&mut slot);
    assert_eq!(own_keys(&l), vec![3, 1]);
    assert_eq!(slot.key, 4);
}

#[test]
fn insert_into_a_leaf() {
    let mut node = leaf::<3>(&[10, 30]);
    assert_eq!(node.insert_inner_leaf(Key::new(20, 2)), None);
    assert_eq!(own_keys(&node), vec![10, 20, 30]);
    assert_eq!(node.insert_inner_leaf(Key::new(20, 3)), Some(2));
    assert_eq!(own_keys(&node), vec![10, 20, 30]);
    assert_eq!(node.find(&20), Some(&3));
    assert_eq!(node.insert_inner(Key::new(5, 1)), None);
    assert_eq!(own_keys(&node), vec![5, 10, 20, 30]);
}

#[test]
fn insert_below_an_internal_node() {
    let mut tree = sample_tree();
    assert_eq!(tree.insert_inner_internal(Key::new(11, 1)), None);
    assert_eq!(child_keys(&tree, 1), vec![11, 12]);
    assert_eq!(tree.insert_inner_internal(Key::new(10, 7)), Some(100));
    assert_eq!(tree.find(&10), Some(&7));
    // The trailing child is full: it is split before it is entered.
    assert_eq!(tree.insert_inner(Key::new(45, 2)), None);
    assert_eq!(own_keys(&tree), vec![10, 20, 40]);
    assert_eq!(child_keys(&tree, 2), vec![30]);
    assert_eq!(child_keys(&tree, 3), vec![45, 50]);
    assert_eq!(traversal(&tree), vec![1, 5, 10, 11, 12, 20, 30, 40, 45, 50]);
}

#[test]
fn node_insert_splits_a_full_root() {
    let mut node = leaf::<2>(&[1, 2, 3]);
    assert_eq!(node.insert(4, 40), None);
    assert!(!node.is_leaf());
    assert_eq!(own_keys(&node), vec![2]);
    assert_eq!(traversal(&node), vec![1, 2, 3, 4]);
    assert_eq!(node.insert(3, 33), Some(30));
    assert_eq!(node.find(&3), Some(&33));
}

#[test]
fn insert_keys_inserts_first_to_last() {
    let mut node = N2::default(NodeType::Leaf);
    node.insert_keys(vec![Key::new(3, 1), Key::new(1, 2), Key::new(2, 3), Key::new(3, 4), Key::new(9, 5)]);
    assert_eq!(traversal(&node), vec![1, 2, 3, 9]);
    assert_eq!(node.find(&3), Some(&4));
    assert_eq!(node.find(&9), Some(&5));
}

#[test]
fn remove_in_leaf_takes_the_key_out() {
    let mut node = leaf::<3>(&[10, 20, 30]);
    assert_eq!(node.remove_in_leaf(true, 1, &20), Some(200));
    assert_eq!(own_keys(&node), vec![10, 30]);
    assert_eq!(node.remove_in_leaf(false, 1, &20), None);
    assert_eq!(own_keys(&node), vec![10, 30]);
}

#[test]
fn remove_by_predecessor_and_successor() {
    let mut tree = sample_tree();
    assert_eq!(tree.remove_by_predecessor(0, &10), Some(100));
    assert_eq!(own_keys(&tree), vec![5, 20]);
    assert_eq!(child_keys(&tree, 0), vec![1]);
    assert_eq!(tree.remove_by_successor(1, &20), Some(200));
    assert_eq!(own_keys(&tree), vec![5, 30]);
    assert_eq!(child_keys(&tree, 2), vec![40, 50]);
    assert_eq!(traversal(&tree), vec![1, 5, 12, 30, 40, 50]);
}

#[test]
fn remove_here_merges_minimal_children() {
    let mut tree: N2 = internal(&[10, 20], vec![leaf(&[5]), leaf(&[15]), leaf(&[25])]);
    assert_eq!(tree.remove_here(0, &10), Some(100));
    assert_eq!(own_keys(&tree), vec![20]);
    assert_eq!(child_keys(&tree, 0), vec![5, 15]);
    assert_eq!(traversal(&tree), vec![5, 15, 20, 25]);
}

#[test]
fn remove_below_rebalances_before_it_descends() {
    let mut tree: N2 = internal(&[10, 20], vec![leaf(&[5, 7]), leaf(&[15]), leaf(&[25])]);
    assert_eq!(tree.remove_below(1, &15), Some(150));
    assert_eq!(own_keys(&tree), vec![7, 20]);
    assert_eq!(child_keys(&tree, 1), vec![10]);
    assert_eq!(tree.remove_below(1, &11), None);
    assert_eq!(traversal(&tree), vec![5, 7, 10, 20, 25]);
}

#[test]
fn remove_from_child_descends() {
    let mut tree = sample_tree();
    assert_eq!(tree.remove_from_child(2, &40), Some(400));
    assert_eq!(child_keys(&tree, 2), vec![30, 50]);
    assert_eq!(tree.remove_from_child(0, &3), None);
    assert_eq!(traversal(&tree), vec![1, 5, 10, 12, 20, 30, 50]);
}

#[test]
fn node_remove_may_empty_an_internal_root() {
    let mut tree: N2 = internal(&[10], vec![leaf(&[5]), leaf(&[15])]);
    assert_eq!(tree.remove(&5), Some(50));
    assert!(!tree.is_leaf());
    assert!(tree.is_empty());
    assert_eq!(own_keys(tree.last_node.as_ref().unwrap()), vec![10, 15]);
    assert_eq!(tree.find(&10), Some(&100));
    assert_eq!(tree.find(&5), None);
}

#[test]
fn keys_cursor_walks_the_keys() {
    let node = leaf::<3>(&[1, 2, 3]);
    let mut it = node.key_iter();
    assert_eq!(it.next().unwrap().key, 1);
    assert_eq!(it.next().unwrap().key, 2);
    assert_eq!(it.next().unwrap().key, 3);
    assert!(it.next().is_none());
    assert!(it.next().is_none());
    let mut again = KeysIterator::new(&node);
    assert_eq!(again.next().unwrap().value, 10);
    let empty = leaf::<3>(&[]);
    assert!(empty.key_iter().next().is_none());
}

#[test]
fn child_cursor_walks_the_child_slots() {
    let tree = sample_tree();
    let mut it = tree.child_iter();
    assert_eq!(own_keys(it.next().unwrap()), vec![1, 5]);
    assert_eq!(own_keys(it.next().unwrap()), vec![12]);
    assert_eq!(own_keys(it.next().unwrap()), vec![30, 40, 50]);
    assert!(it.next().is_none());
    assert!(it.next().is_none());
    let l = leaf::<2>(&[1, 2]);
    let mut on_leaf = ChildIterator::new(&l);
    assert!(on_leaf.next().is_none());
    let empty = N2::default(NodeType::Leaf);
    assert!(empty.child_iter().next().is_none());
}

#[test]
fn node_error_messages_and_conversion() {
    assert_eq!(NodeOperationError::Full.message(), "The Node is full");
    assert_eq!(NodeOperationError::Empty.message(), "The Node is empty");
    let e: NodeError = NodeOperationError::Full.into();
    assert_eq!(e, NodeError::Operation(NodeOperationError::Full));
    assert_eq!(e.message(), "Operation failed: The Node is full");
    assert_eq!(
        NodeError::from(NodeOperationError::Empty).message(),
        "Operation failed: The Node is empty"
    );
}

#[test]
fn degree_three_split_uses_index_two_as_median() {
    let mut node: N3 = leaf(&[1, 2, 3, 4, 5]);
    let (left, median, right) = node.split_inner();
    assert_eq!(own_keys(&left), vec![1, 2]);
    assert_eq!(median.key, 3);
    assert_eq!(own_keys(&right), vec![4, 5]);
}

#[test]
fn records_compare_by_key_alone() {
    let a: Key<u64, &str, 2> = Key::new(1, "a");
    let b: Key<u64, &str, 2> = Key::new(1, "b");
    let mut c: Key<u64, &str, 2> = Key::new(2, "a");
    c.set_pointed_node(Node::default(NodeType::Leaf).boxed());
    assert!(a == b);
    assert!(a != c);
    assert!(a < c);
    assert!(c > b);
    assert!(a <= b && a >= b);
    assert_eq!(a.partial_cmp(&c), Some(std::cmp::Ordering::Less));
    assert_eq!(c.partial_cmp(&a), Some(std::cmp::Ordering::Greater));
    assert_eq!(a.partial_cmp(&b), Some(std::cmp::Ordering::Equal));
}
