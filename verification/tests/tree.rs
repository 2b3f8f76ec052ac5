use imt::cache::HashCache;
use imt::hashor::{Hashor, Keccak256};
use imt::imt::Imt;
use imt::merkle::{hash_pair, hash_root};
use imt::mutate::{IMTInsert, IMTMutate, IMTUpdate, ImtError};
use imt::node::IMTNode;

type Tree = Imt<Keccak256, u64, u64>;
type Node = IMTNode<u64, u64>;

const A: u64 = 65;
const B: u64 = 66;
const C: u64 = 67;

fn expect_insert(res: Result<IMTMutate<u64, u64>, ImtError>) -> IMTInsert<u64, u64> {
    match res {
        Ok(IMTMutate::Insert(insert)) => insert,
        other => panic!("not an insertion: {:?}", other),
    }
}

fn expect_update(res: Result<IMTMutate<u64, u64>, ImtError>) -> IMTUpdate<u64, u64> {
    match res {
        Ok(IMTMutate::Update(update)) => update,
        other => panic!("not an update: {:?}", other),
    }
}

/// The digest of the subtree at `pos` of `level`, from the nodes in index order.
fn subtree(nodes: &[Node], depth: u8, level: u8, pos: u64) -> Option<imt::Hash> {
    if level == depth {
        nodes.get(pos as usize).map(|node| node.hash(&Keccak256))
    } else {
        let left = subtree(nodes, depth, level + 1, 2 * pos);
        let right = subtree(nodes, depth, level + 1, 2 * pos + 1);
        hash_pair(&Keccak256, left, right)
    }
}

/// The root, computed anew from the nodes in index order.
fn recompute_root(nodes: &[Node], depth: u8) -> imt::Hash {
    let top = subtree(nodes, depth, 0, 0).unwrap();
    hash_root(&Keccak256, &top, nodes.len() as u64 - 1)
}

/// The sibling path of leaf `index`, computed anew from the nodes.
fn recompute_path(nodes: &[Node], depth: u8, index: u64) -> Vec<Option<imt::Hash>> {
    let mut path = Vec::new();
    let mut pos = index;
    let mut level = depth;
    while level > 0 {
        path.push(subtree(nodes, depth, level, pos ^ 1));
        pos /= 2;
        level -= 1;
    }
    path
}

/// The root that a verifier derives from a node, its sibling path and a size.
fn root_from_path(node: &Node, path: &[Option<imt::Hash>], size: u64) -> imt::Hash {
    let mut hash = node.hash(&Keccak256);
    let mut pos = node.index;
    for sibling in path {
        let parent = if pos % 2 == 0 {
            hash_pair(&Keccak256, Some(hash), *sibling)
        } else {
            hash_pair(&Keccak256, *sibling, Some(hash))
        };
        hash = parent.unwrap();
        pos /= 2;
    }
    hash_root(&Keccak256, &hash, size)
}

fn nodes_of(tree: &Tree, keys_by_index: &[u64]) -> Vec<Node> {
    keys_by_index.iter().map(|key| tree.get(key).unwrap()).collect()
}

#[test]
fn new_tree_holds_the_sentinel_alone() {
    let tree = Tree::new(Keccak256, 2);
    assert_eq!(tree.size(), 0);
    assert_eq!(tree.depth(), 2);
    assert_eq!(tree.get(&0), Some(Node { index: 0, key: 0, value: 0, next_key: 0 }));
    assert_eq!(tree.get(&1), None);
    assert_eq!(tree.root(), tree.root);
}

#[test]
fn new_tree_root_is_computed_over_the_sentinel() {
    let tree = Tree::new(Keccak256, 2);
    let sentinel = Node { index: 0, key: 0, value: 0, next_key: 0 };
    let leaf = sentinel.hash(&Keccak256);
    let level1 = Keccak256.hash(&leaf);
    let top = Keccak256.hash(&level1);
    let mut bytes = top.to_vec();
    bytes.extend_from_slice(&0u64.to_be_bytes());
    assert_eq!(tree.root, Keccak256.hash(&bytes));
    assert_eq!(tree.root, recompute_root(&[sentinel], 2));
}

#[test]
fn new_tree_of_depth_zero() {
    let mut tree = Tree::new(Keccak256, 0);
    let sentinel = Node { index: 0, key: 0, value: 0, next_key: 0 };
    assert_eq!(tree.root, hash_root(&Keccak256, &sentinel.hash(&Keccak256), 0));
    assert_eq!(tree.siblings(&0), vec![]);
    let root = tree.root;
    assert_eq!(tree.insert_node(5, A), Err(ImtError::Overflow));
    assert_eq!(tree.root, root);
    assert_eq!(tree.size(), 0);
}

#[test]
fn new_tree_of_the_greatest_depth() {
    let mut tree = Tree::new(Keccak256, 64);
    assert_eq!(tree.siblings(&0), vec![None; 64]);
    let insert = expect_insert(tree.insert_node(9, A));
    assert_eq!(insert.node, Node { index: 1, key: 9, value: A, next_key: 0 });
    assert_eq!(insert.node_siblings.len(), 64);
    assert_eq!(tree.size(), 1);
    assert_eq!(root_from_path(&insert.node, &insert.node_siblings, 1), tree.root);
    let sentinel = tree.get(&0).unwrap();
    let mut expected = vec![None; 64];
    expected[0] = Some(sentinel.hash(&Keccak256));
    assert_eq!(insert.node_siblings, expected);
}

#[test]
fn scenario_three_insertions_at_depth_two() {
    let mut tree = Tree::new(Keccak256, 2);
    assert_eq!(tree.get(&0), Some(Node { index: 0, key: 0, value: 0, next_key: 0 }));

    let first = expect_insert(tree.insert_node(5, A));
    assert_eq!(first.ln_node, Node { index: 0, key: 0, value: 0, next_key: 0 });
    assert_eq!(first.node, Node { index: 1, key: 5, value: A, next_key: 0 });
    assert_eq!(tree.get(&0).unwrap().next_key, 5);
    assert_eq!(tree.get(&5), Some(Node { index: 1, key: 5, value: A, next_key: 0 }));
    assert_eq!(tree.size(), 1);

    let second = expect_insert(tree.insert_node(10, B));
    assert_eq!(second.ln_node, Node { index: 1, key: 5, value: A, next_key: 0 });
    assert_eq!(second.node, Node { index: 2, key: 10, value: B, next_key: 0 });
    assert_eq!(tree.get(&5).unwrap().next_key, 10);
    assert_eq!(tree.get(&10), Some(Node { index: 2, key: 10, value: B, next_key: 0 }));
    assert_eq!(tree.size(), 2);

    let third = expect_insert(tree.insert_node(7, C));
    assert_eq!(third.ln_node, Node { index: 1, key: 5, value: A, next_key: 10 });
    assert_eq!(third.node, Node { index: 3, key: 7, value: C, next_key: 10 });
    assert_eq!(tree.get(&5).unwrap().next_key, 7);
    assert_eq!(tree.get(&7), Some(Node { index: 3, key: 7, value: C, next_key: 10 }));
    assert_eq!(tree.get(&10).unwrap().next_key, 0);
    assert_eq!(tree.get(&0).unwrap().next_key, 5);
    assert_eq!(tree.size(), 3);

    let root = tree.root;
    assert_eq!(tree.insert_node(8, A), Err(ImtError::Overflow));
    assert_eq!(tree.root, root);
    assert_eq!(tree.size(), 3);
    assert_eq!(tree.get(&8), None);
}

#[test]
fn root_kept_while_growing_equals_root_computed_anew() {
    let mut tree = Tree::new(Keccak256, 3);
    let mut keys = vec![0u64];
    assert_eq!(tree.root, recompute_root(&nodes_of(&tree, &keys), 3));
    for (key, value) in [(50u64, 1u64), (20, 2), (70, 3), (10, 4), (60, 5), (30, 6), (40, 7)] {
        expect_insert(tree.insert_node(key, value));
        keys.push(key);
        assert_eq!(tree.root, recompute_root(&nodes_of(&tree, &keys), 3));
        assert_eq!(tree.root(), tree.root);
    }
    assert_eq!(tree.size(), 7);
    assert_eq!(tree.insert_node(80, 8), Err(ImtError::Overflow));
    expect_update(tree.update_node(20, 99));
    assert_eq!(tree.root, recompute_root(&nodes_of(&tree, &keys), 3));
}

#[test]
fn insertion_keeps_the_list_sorted() {
    let mut tree = Tree::new(Keccak256, 3);
    for key in [50u64, 20, 70, 10, 60, 30, 40] {
        expect_insert(tree.insert_node(key, key + 1));
    }
    let mut chain = Vec::new();
    let mut node = tree.get(&0).unwrap();
    while node.next_key != 0 {
        chain.push(node.next_key);
        node = tree.get(&node.next_key).unwrap();
    }
    assert_eq!(chain, vec![10, 20, 30, 40, 50, 60, 70]);
    for (i, key) in [0u64, 50, 20, 70, 10, 60, 30, 40].iter().enumerate() {
        let node = tree.get(key).unwrap();
        assert_eq!(node.index, i as u64);
        assert_eq!(node.key, *key);
    }
}

#[test]
fn after_insertion_only_the_predecessor_points_at_the_new_key() {
    let mut tree = Tree::new(Keccak256, 3);
    for key in [50u64, 20, 70] {
        expect_insert(tree.insert_node(key, 1));
    }
    let before = tree.get(&20).unwrap();
    let insert = expect_insert(tree.insert_node(30, 2));
    assert_eq!(insert.ln_node, before);
    assert_eq!(insert.node.next_key, before.next_key);
    assert_eq!(insert.node.next_key, 50);
    let pointing: Vec<u64> = [0u64, 50, 20, 70, 30]
        .iter()
        .filter(|key| tree.get(key).unwrap().next_key == 30)
        .cloned()
        .collect();
    assert_eq!(pointing, vec![20]);
}

#[test]
fn low_nullifier_is_the_predecessor() {
    let mut tree = Tree::new(Keccak256, 3);
    for key in [50u64, 20, 70] {
        expect_insert(tree.insert_node(key, 1));
    }
    assert_eq!(tree.low_nullifier(&1).key, 0);
    assert_eq!(tree.low_nullifier(&19).key, 0);
    assert_eq!(tree.low_nullifier(&21).key, 20);
    assert_eq!(tree.low_nullifier(&49).key, 20);
    assert_eq!(tree.low_nullifier(&51).key, 50);
    assert_eq!(tree.low_nullifier(&71).key, 70);
    assert_eq!(tree.low_nullifier(&u64::MAX), tree.get(&70).unwrap());
    let ln = tree.low_nullifier(&60);
    assert!(ln.key < 60 && (ln.next_key > 60 || ln.next_key == 0));
    assert!(ln.is_ln_of(&60));
}

#[test]
fn low_nullifier_in_a_new_tree_is_the_sentinel() {
    let tree = Tree::new(Keccak256, 1);
    assert_eq!(tree.low_nullifier(&1), Node { index: 0, key: 0, value: 0, next_key: 0 });
    assert_eq!(tree.low_nullifier(&u64::MAX).key, 0);
}

#[test]
fn siblings_are_read_from_the_leaf_level_up() {
    let mut tree = Tree::new(Keccak256, 2);
    assert_eq!(tree.siblings(&0), vec![None, None]);
    expect_insert(tree.insert_node(5, A));
    let sentinel = tree.get(&0).unwrap();
    let five = tree.get(&5).unwrap();
    assert_eq!(tree.siblings(&0), vec![Some(five.hash(&Keccak256)), None]);
    assert_eq!(tree.siblings(&5), vec![Some(sentinel.hash(&Keccak256)), None]);
    expect_insert(tree.insert_node(10, B));
    let five = tree.get(&5).unwrap();
    let ten = tree.get(&10).unwrap();
    let left = hash_pair(&Keccak256, Some(sentinel.hash(&Keccak256)), Some(five.hash(&Keccak256)));
    let right = hash_pair(&Keccak256, Some(ten.hash(&Keccak256)), None);
    assert_eq!(tree.siblings(&0), vec![Some(five.hash(&Keccak256)), right]);
    assert_eq!(tree.siblings(&10), vec![None, left]);
}

#[test]
fn siblings_equal_the_path_computed_anew() {
    let mut tree = Tree::new(Keccak256, 3);
    let keys = [0u64, 50, 20, 70, 10, 60];
    for key in &keys[1..] {
        expect_insert(tree.insert_node(*key, key * 2));
    }
    let nodes = nodes_of(&tree, &keys);
    for node in &nodes {
        assert_eq!(tree.siblings(&node.key), recompute_path(&nodes, 3, node.index));
        assert_eq!(tree.siblings(&node.key).len(), 3);
    }
}

#[test]
fn insert_record_holds_roots_sizes_and_paths() {
    let mut tree = Tree::new(Keccak256, 2);
    expect_insert(tree.insert_node(5, A));
    let old_root = tree.root;
    let old_nodes = nodes_of(&tree, &[0, 5]);
    let insert = expect_insert(tree.insert_node(3, B));
    let new_nodes = nodes_of(&tree, &[0, 5, 3]);

    assert_eq!(insert.old_root, old_root);
    assert_eq!(insert.old_size, 1);
    assert_eq!(insert.ln_node, Node { index: 0, key: 0, value: 0, next_key: 5 });
    assert_eq!(insert.ln_siblings, recompute_path(&old_nodes, 2, 0));
    assert_eq!(insert.node, Node { index: 2, key: 3, value: B, next_key: 5 });
    assert_eq!(insert.node_siblings, recompute_path(&new_nodes, 2, 2));
    assert_eq!(insert.updated_ln_siblings, recompute_path(&new_nodes, 2, 0));
    assert_ne!(insert.ln_siblings, insert.updated_ln_siblings);
    assert_eq!(tree.get(&0).unwrap().next_key, 3);
    assert_ne!(tree.root, old_root);
}

#[test]
fn insert_record_lets_a_verifier_replay_the_step() {
    let mut tree = Tree::new(Keccak256, 3);
    for (key, value) in [(50u64, 1u64), (20, 2), (70, 3), (10, 4), (60, 5), (30, 6), (40, 7)] {
        let insert = expect_insert(tree.insert_node(key, value));
        // The predecessor, as it was, leads to the old root.
        assert_eq!(
            root_from_path(&insert.ln_node, &insert.ln_siblings, insert.old_size),
            insert.old_root
        );
        // The new node leads to the new root.
        assert_eq!(
            root_from_path(&insert.node, &insert.node_siblings, insert.old_size + 1),
            tree.root
        );
        // So does the predecessor with its new link.
        let new_ln = Node { next_key: key, ..insert.ln_node };
        assert_eq!(
            root_from_path(&new_ln, &insert.updated_ln_siblings, insert.old_size + 1),
            tree.root
        );
        assert_eq!(insert.node.next_key, insert.ln_node.next_key);
        assert_eq!(insert.node.index, insert.old_size + 1);
    }
}

#[test]
fn insert_at_capacity_fails_with_overflow() {
    let mut tree = Tree::new(Keccak256, 1);
    expect_insert(tree.insert_node(5, A));
    let root = tree.root;
    let nodes = nodes_of(&tree, &[0, 5]);
    assert_eq!(tree.insert_node(6, B), Err(ImtError::Overflow));
    assert_eq!(tree.root, root);
    assert_eq!(tree.size(), 1);
    assert_eq!(nodes_of(&tree, &[0, 5]), nodes);
    assert_eq!(tree.get(&6), None);
}

#[test]
fn overflow_is_reported_before_conflict() {
    let mut tree = Tree::new(Keccak256, 1);
    expect_insert(tree.insert_node(5, A));
    assert_eq!(tree.insert_node(5, B), Err(ImtError::Overflow));
    assert_eq!(tree.insert_node(0, B), Err(ImtError::Overflow));
}

#[test]
fn insert_of_a_present_key_fails_with_conflict() {
    let mut tree = Tree::new(Keccak256, 2);
    expect_insert(tree.insert_node(5, A));
    let root = tree.root;
    let nodes = nodes_of(&tree, &[0, 5]);
    assert_eq!(tree.insert_node(5, B), Err(ImtError::KeyConflict));
    assert_eq!(tree.root, root);
    assert_eq!(tree.size(), 1);
    assert_eq!(nodes_of(&tree, &[0, 5]), nodes);
    assert_eq!(tree.siblings(&5), recompute_path(&nodes, 2, 1));
}

#[test]
fn insert_of_the_sentinel_key_fails_with_conflict() {
    let mut tree = Tree::new(Keccak256, 2);
    let root = tree.root;
    assert_eq!(tree.insert_node(0, A), Err(ImtError::KeyConflict));
    assert_eq!(tree.root, root);
    assert_eq!(tree.size(), 0);
    assert_eq!(tree.get(&0), Some(Node { index: 0, key: 0, value: 0, next_key: 0 }));
}

#[test]
fn update_of_an_absent_key_fails() {
    let mut tree = Tree::new(Keccak256, 2);
    expect_insert(tree.insert_node(5, A));
    let root = tree.root;
    assert_eq!(tree.update_node(6, B), Err(ImtError::UnknownKey));
    assert_eq!(tree.root, root);
    assert_eq!(tree.size(), 1);
    assert_eq!(tree.get(&5).unwrap().value, A);
    assert_eq!(tree.get(&6), None);
}

#[test]
fn update_replaces_the_value_alone() {
    let mut tree = Tree::new(Keccak256, 3);
    let keys = [0u64, 50, 20, 70, 10];
    for key in &keys[1..] {
        expect_insert(tree.insert_node(*key, 1));
    }
    let before = nodes_of(&tree, &keys);
    let old_root = tree.root;
    let update = expect_update(tree.update_node(20, 42));
    let after = nodes_of(&tree, &keys);

    assert_eq!(update.old_root, old_root);
    assert_eq!(update.size, 4);
    assert_eq!(update.new_value, 42);
    assert_eq!(update.node, Node { index: 2, key: 20, value: 42, next_key: 50 });
    assert_eq!(tree.size(), 4);
    assert_ne!(tree.root, old_root);
    for (old, new) in before.iter().zip(after.iter()) {
        if old.key == 20 {
            assert_eq!(*new, Node { value: 42, ..*old });
        } else {
            assert_eq!(new, old);
        }
    }
    assert_eq!(tree.root, recompute_root(&after, 3));
}

#[test]
fn update_changes_no_digest_off_the_path() {
    let mut tree = Tree::new(Keccak256, 3);
    let keys = [0u64, 50, 20, 70, 10];
    for key in &keys[1..] {
        expect_insert(tree.insert_node(*key, 1));
    }
    let before = nodes_of(&tree, &keys);
    // The siblings of a leaf lie off its path.
    let own_path = tree.siblings(&20);
    let update = expect_update(tree.update_node(20, 42));
    assert_eq!(update.node_siblings, own_path);
    assert_eq!(tree.siblings(&20), own_path);
    assert_eq!(update.node_siblings, recompute_path(&before, 3, 2));
    // Leaf 3 is the sibling of leaf 2: its path holds the new digest of leaf 2
    // and nothing else that changed.
    let other = tree.siblings(&70);
    let expected = recompute_path(&before, 3, 3);
    assert_eq!(other[0], Some(update.node.hash(&Keccak256)));
    assert_eq!(other[1..], expected[1..]);
    // Leaf 4 is in the other half of the tree: only the digest beside the
    // top of its half changed.
    let far = tree.siblings(&10);
    let far_before = recompute_path(&before, 3, 4);
    assert_eq!(far[..2], far_before[..2]);
    assert_ne!(far[2], far_before[2]);
}

#[test]
fn update_record_lets_a_verifier_replay_the_step() {
    let mut tree = Tree::new(Keccak256, 2);
    expect_insert(tree.insert_node(5, A));
    expect_insert(tree.insert_node(10, B));
    let old_node = tree.get(&5).unwrap();
    let update = expect_update(tree.update_node(5, C));
    assert_eq!(root_from_path(&old_node, &update.node_siblings, update.size), update.old_root);
    assert_eq!(root_from_path(&update.node, &update.node_siblings, update.size), tree.root);
    assert_eq!(update.node.value, update.new_value);
}

#[test]
fn update_of_the_sentinel() {
    let mut tree = Tree::new(Keccak256, 1);
    let update = expect_update(tree.update_node(0, 7));
    assert_eq!(update.node, Node { index: 0, key: 0, value: 7, next_key: 0 });
    assert_eq!(update.node_siblings, vec![None]);
    assert_eq!(tree.root, recompute_root(&[update.node], 1));
}

#[test]
fn update_with_the_same_value_keeps_the_root() {
    let mut tree = Tree::new(Keccak256, 2);
    expect_insert(tree.insert_node(5, A));
    let root = tree.root;
    let update = expect_update(tree.update_node(5, A));
    assert_eq!(update.old_root, root);
    assert_eq!(tree.root, root);
}

#[test]
fn same_nodes_with_another_size_give_another_root() {
    let mut tree = Tree::new(Keccak256, 2);
    expect_insert(tree.insert_node(5, A));
    let nodes = nodes_of(&tree, &[0, 5]);
    let top = subtree(&nodes, 2, 0, 0).unwrap();
    assert_eq!(tree.root, hash_root(&Keccak256, &top, 1));
    assert_ne!(tree.root, hash_root(&Keccak256, &top, 0));
    assert_ne!(tree.root, hash_root(&Keccak256, &top, 2));
}

#[test]
fn mutate_constructors_fill_the_records() {
    let node = Node { index: 1, key: 5, value: A, next_key: 0 };
    let ln = Node { index: 0, key: 0, value: 0, next_key: 0 };
    let insert = IMTMutate::insert(
        [1u8; 32],
        0,
        ln,
        vec![None],
        node,
        vec![Some([2u8; 32])],
        vec![Some([3u8; 32])],
    );
    assert_eq!(
        insert,
        IMTMutate::Insert(IMTInsert {
            old_root: [1u8; 32],
            old_size: 0,
            ln_node: ln,
            ln_siblings: vec![None],
            node,
            node_siblings: vec![Some([2u8; 32])],
            updated_ln_siblings: vec![Some([3u8; 32])],
        })
    );
    let update = IMTMutate::update([1u8; 32], 1, node, vec![None], A);
    assert_eq!(
        update,
        IMTMutate::Update(IMTUpdate {
            old_root: [1u8; 32],
            size: 1,
            node,
            node_siblings: vec![None],
            new_value: A,
        })
    );
}

#[test]
fn cache_reads_what_was_written() {
    let mut cache = HashCache::new();
    assert_eq!(cache.get(0, 0), None);
    assert_eq!(cache.get(3, 7), None);
    cache.set(3, 7, [1u8; 32]);
    assert_eq!(cache.get(3, 7), Some([1u8; 32]));
    assert_eq!(cache.get(3, 6), None);
    assert_eq!(cache.get(2, 7), None);
    cache.set(3, 6, [0u8; 32]);
    assert_eq!(cache.get(3, 6), Some([0u8; 32]));
    cache.set(3, 7, [2u8; 32]);
    assert_eq!(cache.get(3, 7), Some([2u8; 32]));
    assert_eq!(cache.get(3, 6), Some([0u8; 32]));
}

#[test]
fn tree_with_byte_array_values() {
    let mut tree: Imt<Keccak256, u64, [u8; 32]> = Imt::new(Keccak256, 2);
    assert_eq!(tree.get(&0).unwrap().value, [0u8; 32]);
    let res = tree.insert_node(5, [7u8; 32]);
    assert!(matches!(res, Ok(IMTMutate::Insert(_))));
    assert_eq!(
        tree.get(&5),
        Some(IMTNode { index: 1, key: 5, value: [7u8; 32], next_key: 0 })
    );
    assert_eq!(tree.get(&0).unwrap().next_key, 5);
}
