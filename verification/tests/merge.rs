use photo_sync_merkle::MerkleTree;

fn strings(items: &[&str]) -> Vec<String> {
    items.iter().map(|s| s.to_string()).collect()
}

fn merged(a: &[&str], b: &[&str]) -> Vec<String> {
    MerkleTree::merge_sorted_arrays(&strings(a), &strings(b))
}

#[test]
fn merge_interleaves_two_sorted_lists() {
    assert_eq!(
        merged(&["A", "C", "E"], &["B", "D", "F"]),
        strings(&["A", "B", "C", "D", "E", "F"])
    );
}

#[test]
fn merge_drops_items_that_both_lists_hold() {
    assert_eq!(
        merged(&["A", "B", "D"], &["B", "C", "D"]),
        strings(&["A", "B", "C", "D"])
    );
}

#[test]
fn merge_drops_repeats_within_one_list() {
    assert_eq!(merged(&["A", "A", "B"], &[]), strings(&["A", "B"]));
    assert_eq!(merged(&[], &["C", "C", "C"]), strings(&["C"]));
}

#[test]
fn merge_with_nothing() {
    assert_eq!(merged(&[], &[]), Vec::<String>::new());
    assert_eq!(merged(&["A", "B"], &[]), strings(&["A", "B"]));
    assert_eq!(merged(&[], &["A", "B"]), strings(&["A", "B"]));
}

#[test]
fn merge_appends_what_is_left_of_the_longer_list() {
    assert_eq!(
        merged(&["A"], &["B", "C", "D"]),
        strings(&["A", "B", "C", "D"])
    );
    assert_eq!(
        merged(&["B", "C", "D"], &["A"]),
        strings(&["A", "B", "C", "D"])
    );
}

#[test]
fn merge_of_the_two_tails_of_differing_lists() {
    assert_eq!(merged(&["E"], &["Z"]), strings(&["E", "Z"]));
}

#[test]
fn merge_does_not_sort_and_drops_repeats_that_are_apart() {
    assert_eq!(merged(&["b", "a"], &["a", "c"]), strings(&["a", "b", "c"]));
    assert_eq!(merged(&["c", "a", "c"], &[]), strings(&["c", "a"]));
}

#[test]
fn merge_orders_by_code_point() {
    assert_eq!(
        merged(&["B", "a", "é"], &["A", "b", "z"]),
        strings(&["A", "B", "a", "b", "z", "é"])
    );
    assert_eq!(merged(&["ab"], &["a"]), strings(&["a", "ab"]));
}

#[test]
fn merge_is_sorted_and_holds_each_item_once() {
    let x = strings(&["apple", "banana", "cherry", "fig"]);
    let y = strings(&["banana", "date", "fig", "grape", "kiwi"]);
    let out = MerkleTree::merge_sorted_arrays(&x, &y);
    for pair in out.windows(2) {
        assert!(pair[0] < pair[1]);
    }
    for item in x.iter().chain(y.iter()) {
        assert_eq!(out.iter().filter(|o| *o == item).count(), 1);
    }
    assert_eq!(out.len(), 7);
}

#[test]
fn merge_again_with_nothing_changes_nothing() {
    let once = merged(&["A", "C", "C", "E"], &["B", "C", "F"]);
    let twice = MerkleTree::merge_sorted_arrays(&once, &[]);
    assert_eq!(once, strings(&["A", "B", "C", "E", "F"]));
    assert_eq!(twice, once);
}

#[test]
fn merge_of_many_items_keeps_the_first_of_each() {
    let a: Vec<String> = (0..200).map(|i| format!("item-{:04}", i / 2)).collect();
    let b: Vec<String> = (0..200).map(|i| format!("item-{:04}", i / 3 + 50)).collect();
    let out = MerkleTree::merge_sorted_arrays(&a, &b);
    let expected: Vec<String> = (0..117).map(|i| format!("item-{:04}", i)).collect();
    assert_eq!(out, expected);
}
