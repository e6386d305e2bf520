use photo_sync_merkle::Node;

fn leaf(item: &str) -> Node {
    Node::new(None, None, Node::hash(item), item.to_string(), false, 0)
}

#[test]
fn new_leaf_spans_one_slot() {
    let node = leaf("A");
    assert_eq!(node.leave_count(), 1);
    assert_eq!(node.height(), 0);
    assert_eq!(node.content(), "A");
    assert_eq!(node.value(), &Node::hash("A"));
    assert!(!node.is_copied());
    assert!(node.left().is_none());
    assert!(node.right().is_none());
}

#[test]
fn new_with_two_children_adds_their_slots() {
    let left = Node::join(leaf("A"), leaf("B"));
    let right = Node::join(leaf("C"), leaf("D"));
    let node = Node::new(
        Some(Box::new(left)),
        Some(Box::new(right)),
        "digest".to_string(),
        "payload".to_string(),
        false,
        2,
    );
    assert_eq!(node.leave_count(), 4);
    assert_eq!(node.height(), 2);
    assert_eq!(node.value(), "digest");
    assert_eq!(node.content(), "payload");
    assert_eq!(node.left().unwrap().content(), "A+B");
    assert_eq!(node.right().unwrap().content(), "C+D");
}

#[test]
fn new_with_one_child_takes_its_slots() {
    let child = Node::join(leaf("A"), leaf("B"));
    let only_left = Node::new(
        Some(Box::new(child.clone())),
        None,
        String::new(),
        String::new(),
        false,
        2,
    );
    assert_eq!(only_left.leave_count(), 2);
    let only_right = Node::new(None, Some(Box::new(child)), String::new(), String::new(), true, 9);
    assert_eq!(only_right.leave_count(), 2);
    assert_eq!(only_right.height(), 9);
    assert!(only_right.is_copied());
    assert!(only_right.left().is_none());
}

#[test]
fn join_hashes_the_two_digests_and_joins_the_payloads() {
    let node = Node::join(leaf("A"), leaf("B"));
    let expected = Node::hash(&format!("{}{}", Node::hash("A"), Node::hash("B")));
    assert_eq!(node.value(), &expected);
    assert_eq!(
        node.value(),
        "b30ab174f7459cdd40a3acdf15d0c9444fec2adcfb9d579aa154c084885edd0a"
    );
    assert_eq!(node.content(), "A+B");
    assert_eq!(node.height(), 1);
    assert_eq!(node.leave_count(), 2);
    assert!(!node.is_copied());
}

#[test]
fn join_stands_one_above_the_left_child() {
    let low = leaf("A");
    let high = Node::join(leaf("B"), leaf("C"));
    let node = Node::join(low, high);
    assert_eq!(node.height(), 1);
    assert_eq!(node.leave_count(), 3);
    assert_eq!(node.content(), "A+B+C");
}

#[test]
fn copy_marks_padding_and_keeps_the_rest() {
    let node = Node::join(leaf("A"), leaf("B"));
    let twin = node.copy();
    assert!(twin.is_copied());
    assert!(!node.is_copied());
    assert_eq!(twin.value(), node.value());
    assert_eq!(twin.content(), node.content());
    assert_eq!(twin.height(), node.height());
    assert_eq!(twin.leave_count(), node.leave_count());
    assert_eq!(twin.left().unwrap().content(), "A");
    assert_eq!(twin.right().unwrap().content(), "B");
    assert!(!twin.left().unwrap().is_copied());
}

#[test]
fn clone_keeps_every_field() {
    let node = Node::join(leaf("A"), leaf("B").copy());
    let twin = node.clone();
    assert_eq!(twin.value(), node.value());
    assert_eq!(twin.content(), node.content());
    assert_eq!(twin.height(), node.height());
    assert_eq!(twin.leave_count(), node.leave_count());
    assert_eq!(twin.is_copied(), node.is_copied());
    assert!(twin.right().unwrap().is_copied());
    assert!(!twin.left().unwrap().is_copied());
    assert_eq!(format!("{:?}", twin), format!("{:?}", node));
}
