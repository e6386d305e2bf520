use photo_sync_merkle::{MerkleTree, Node};

fn strings(items: &[&str]) -> Vec<String> {
    items.iter().map(|s| s.to_string()).collect()
}

fn letters(n: usize) -> Vec<String> {
    (0..n).map(|i| ((b'A' + i as u8) as char).to_string()).collect()
}

#[test]
fn build_tree_over_nothing_has_no_root() {
    assert!(MerkleTree::build_tree(&[]).is_none());
    assert!(MerkleTree::build_tree_rec(Vec::new()).is_none());
    let tree = MerkleTree::new(Vec::new());
    assert!(tree.root.is_none());
    assert!(tree.arr.is_empty());
}

#[test]
fn build_tree_over_one_item_pads_the_leaf() {
    let root = MerkleTree::build_tree(&strings(&["A"])).unwrap();
    assert_eq!(root.leave_count(), 2);
    assert_eq!(root.height(), 1);
    assert_eq!(root.content(), "A+A");
    assert_eq!(
        root.value(),
        "cb3a55635f951ed5c3185b80f17cc79031d02ab288e39354527aee04a836c037"
    );
    let left = root.left().unwrap();
    let right = root.right().unwrap();
    assert!(!left.is_copied());
    assert!(right.is_copied());
    assert_eq!(left.value(), &Node::hash("A"));
    assert_eq!(right.value(), &Node::hash("A"));
    assert_eq!(right.leave_count(), 1);
    assert_eq!(right.height(), 0);
    assert!(!root.is_copied());
}

#[test]
fn build_tree_over_two_items() {
    let root = MerkleTree::build_tree(&strings(&["A", "B"])).unwrap();
    assert_eq!(root.leave_count(), 2);
    assert_eq!(root.height(), 1);
    assert_eq!(root.content(), "A+B");
    assert_eq!(
        root.value(),
        "b30ab174f7459cdd40a3acdf15d0c9444fec2adcfb9d579aa154c084885edd0a"
    );
    assert!(!root.right().unwrap().is_copied());
}

#[test]
fn build_tree_over_five_items_pads_at_two_levels() {
    let root = MerkleTree::build_tree(&strings(&["A", "B", "C", "D", "E"])).unwrap();
    assert_eq!(root.leave_count(), 8);
    assert_eq!(root.height(), 3);
    assert_eq!(root.content(), "A+B+C+C+D+E+E+E");
    assert_eq!(
        root.value(),
        "d21efe0fe7efb677c6f27a17211a50edea42d749ad20070f744ef7c39306b727"
    );
    let right = root.right().unwrap();
    assert_eq!(right.content(), "D+E+E+E");
    assert_eq!(right.height(), 2);
    assert_eq!(right.leave_count(), 4);
    let padding = right.right().unwrap();
    assert_eq!(padding.content(), "E+E");
    assert!(!padding.is_copied());
    assert!(padding.left().unwrap().is_copied());
    assert!(padding.right().unwrap().is_copied());
}

#[test]
fn build_tree_keeps_the_order_given() {
    let root = MerkleTree::build_tree(&strings(&["C", "A", "B"])).unwrap();
    assert_eq!(root.content(), "C+A+B+B");
}

#[test]
fn build_tree_rec_over_three_nodes_pads_the_last() {
    let nodes: Vec<Node> = ["A", "B", "C"]
        .iter()
        .map(|s| Node::new(None, None, Node::hash(s), s.to_string(), false, 0))
        .collect();
    let root = MerkleTree::build_tree_rec(nodes).unwrap();
    assert_eq!(root.content(), "A+B+C+C");
    assert_eq!(root.leave_count(), 4);
    assert_eq!(root.height(), 2);
    assert_eq!(
        root.value(),
        "bd144551df2d311a947adbb0fc4b4bfa7bd76ae0e60095d88a8f79a3e3986af6"
    );
}

#[test]
fn build_tree_rec_over_one_node_pairs_it_with_its_copy() {
    let inner = Node::join(
        Node::new(None, None, Node::hash("A"), "A".to_string(), false, 0),
        Node::new(None, None, Node::hash("B"), "B".to_string(), false, 0),
    );
    let root = MerkleTree::build_tree_rec(vec![inner]).unwrap();
    assert_eq!(root.content(), "A+B+A+B");
    assert_eq!(root.height(), 2);
    assert_eq!(root.leave_count(), 4);
    assert!(root.right().unwrap().is_copied());
}

#[test]
fn leaf_count_is_the_even_number_of_items_where_that_is_a_power_of_two() {
    for n in [1usize, 2, 3, 4, 7, 8, 15, 16] {
        let root = MerkleTree::new(letters(n)).root.unwrap();
        assert_eq!(root.leave_count(), n + n % 2, "{} items", n);
    }
}

#[test]
fn leaf_count_is_the_next_power_of_two_elsewhere() {
    let expected = [(5usize, 8usize), (6, 8), (9, 16), (10, 16), (11, 16), (12, 16), (13, 16), (14, 16), (17, 32)];
    for (n, slots) in expected {
        let root = MerkleTree::new(letters(n)).root.unwrap();
        assert_eq!(root.leave_count(), slots, "{} items", n);
    }
}

#[test]
fn height_grows_with_the_logarithm_of_the_items() {
    let expected = [(1usize, 1usize), (2, 1), (3, 2), (4, 2), (5, 3), (8, 3), (9, 4), (16, 4), (17, 5)];
    for (n, height) in expected {
        let root = MerkleTree::new(letters(n)).root.unwrap();
        assert_eq!(root.height(), height, "{} items", n);
    }
}

fn assert_balanced(node: &Node) -> usize {
    match (node.left(), node.right()) {
        (None, None) => {
            assert_eq!(node.height(), 0);
            assert_eq!(node.leave_count(), 1);
            1
        }
        (Some(left), Some(right)) => {
            assert_eq!(node.height(), left.height() + 1);
            assert_eq!(node.height(), right.height() + 1);
            let slots = assert_balanced(left) + assert_balanced(right);
            assert_eq!(node.leave_count(), slots);
            slots
        }
        _ => panic!("a node with one child"),
    }
}

#[test]
fn built_trees_are_balanced() {
    for n in 1..20 {
        let root = MerkleTree::new(letters(n)).root.unwrap();
        assert_balanced(&root);
    }
}

#[test]
fn new_sorts_the_items() {
    let tree = MerkleTree::new(strings(&["D", "B", "E", "A", "C"]));
    assert_eq!(tree.arr, strings(&["A", "B", "C", "D", "E"]));
    assert_eq!(tree.root.as_ref().unwrap().content(), "A+B+C+C+D+E+E+E");
}

#[test]
fn new_orders_by_code_point() {
    let tree = MerkleTree::new(strings(&["b", "B", "ab", "", "a", "é", "z", "\u{10000}", "\u{ffff}"]));
    assert_eq!(
        tree.arr,
        strings(&["", "B", "a", "ab", "b", "z", "é", "\u{ffff}", "\u{10000}"])
    );
}

#[test]
fn new_keeps_repeated_items() {
    let tree = MerkleTree::new(strings(&["B", "A", "B", "A"]));
    assert_eq!(tree.arr, strings(&["A", "A", "B", "B"]));
    assert_eq!(tree.root.unwrap().content(), "A+A+B+B");
}

#[test]
fn building_twice_gives_the_same_tree() {
    let values = strings(&["pear", "apple", "fig", "cherry", "banana"]);
    let first = MerkleTree::new(values.clone());
    let second = MerkleTree::new(values);
    assert_eq!(first.arr, second.arr);
    assert_eq!(first.arr, strings(&["apple", "banana", "cherry", "fig", "pear"]));
    let (a, b) = (first.root.unwrap(), second.root.unwrap());
    assert_eq!(a.value(), b.value());
    assert_eq!(a.content(), b.content());
    assert_eq!(a.leave_count(), b.leave_count());
}

#[test]
fn building_from_another_order_of_the_same_items_gives_the_same_tree() {
    let first = MerkleTree::new(strings(&["A", "B", "C", "D", "E"]));
    let second = MerkleTree::new(strings(&["E", "C", "A", "D", "B"]));
    assert_eq!(first.arr, second.arr);
    assert_eq!(first.root.unwrap().value(), second.root.unwrap().value());
}

#[test]
fn changing_one_item_changes_the_root_digest() {
    let base = letters(8);
    let digest = MerkleTree::new(base.clone()).root.unwrap().value().clone();
    for i in 0..base.len() {
        let mut changed = base.clone();
        changed[i] = format!("{}'", base[i]);
        let other = MerkleTree::new(changed).root.unwrap().value().clone();
        assert_ne!(digest, other, "item {}", i);
    }
    assert_eq!(
        MerkleTree::new(strings(&["A", "B", "C", "D", "Z"])).root.unwrap().value(),
        "0561dabf0d042f80da68a3cdc32140e6abf65a5754e6f468080a23af96cd1461"
    );
}
