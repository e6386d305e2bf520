//! The tree over a sorted item list, and its reconciliation with another.

use crate::merge::{distinct, lemma_distinct, lemma_merge_len, merge, merge_unique};
use crate::node::{lemma_model_fits, Node, NodeView};
use crate::order::{item_le, sort_items, sorted, text_le, texts};
use crate::prefix::{
    counts_of, leftmost_at_height, lemma_matched_bound, lemma_matched_total, lemma_total_take,
    matched_counts_of, matched_leaf_count, matched_prefix, total,
};
use crate::shape::{
    build_items, build_level, leaves, lemma_build_level_height, lemma_build_level_padded,
    lemma_build_level_slots, lemma_build_level_some, lemma_leaf_slots_bounds, level_fits, padded,
};
use vstd::hash_map::StringHashMap;
use vstd::prelude::*;

verus! {

/// A hash tree together with the items it was built from.
pub struct MerkleTree {
    pub root: Option<Node>,
    pub arr: Vec<String>,
}

/// What a tree is: its root, if it has one, and its items in order.
pub struct TreeView {
    pub root: Option<NodeView>,
    pub items: Seq<Seq<char>>,
}

impl View for MerkleTree {
    type V = TreeView;

    open spec fn view(&self) -> TreeView {
        TreeView { root: root_view_of(self.root), items: texts(self.arr@) }
    }
}

/// The models of a list of nodes, in order.
pub open spec fn node_views(nodes: Seq<Node>) -> Seq<NodeView> {
    Seq::new(nodes.len(), |i: int| nodes[i]@)
}

/// The model of a node that may be absent.
pub open spec fn view_of(node: Option<&Node>) -> Option<NodeView> {
    match node {
        Some(n) => Some(n@),
        None => None,
    }
}

/// The model of a root that may be absent.
pub open spec fn root_view_of(root: Option<Node>) -> Option<NodeView> {
    match root {
        Some(n) => Some(n@),
        None => None,
    }
}

/// `count`, or the length of `items` where that is less.
pub open spec fn within(items: Seq<Seq<char>>, count: nat) -> int {
    if count <= items.len() {
        count as int
    } else {
        items.len() as int
    }
}

/// What a reconciliation leaves: the first `matched` items of `mine`, then the
/// merge without repeats of what follows the first `matched` items in `mine`
/// and in `theirs`. A list with fewer items than `matched` counts as a whole
/// among the first: nothing of it follows.
pub open spec fn synced_items(
    mine: Seq<Seq<char>>,
    theirs: Seq<Seq<char>>,
    matched: nat,
) -> Seq<Seq<char>> {
    mine.take(within(mine, matched)) + merge_unique(
        mine.skip(within(mine, matched)),
        theirs.skip(within(theirs, matched)),
    )
}

/// Copies the items from `from` up to `to`.
fn copy_range(items: &Vec<String>, from: usize, to: usize) -> (out: Vec<String>)
    requires
        from <= to <= items@.len(),
    ensures
        texts(out@) == texts(items@).subrange(from as int, to as int),
{
    let mut out: Vec<String> = Vec::new();
    let mut i: usize = from;
    while i < to
        invariant
            from <= i <= to <= items@.len(),
            texts(out@) == texts(items@).subrange(from as int, i as int),
        decreases to - i,
    {
        let ghost before = out@;
        assert(texts(before).len() == i - from);
        out.push(items[i].clone());
        assert forall|m: int| 0 <= m < out@.len() implies texts(out@)[m] == texts(items@).subrange(
            from as int,
            i as int + 1,
        )[m] by {
            if m < before.len() {
                assert(texts(before)[m] == before[m]@);
            }
        }
        assert(texts(out@) =~= texts(items@).subrange(from as int, i as int + 1));
        i += 1;
    }
    out
}

impl MerkleTree {
    /// The items, as texts.
    pub open spec fn items(&self) -> Seq<Seq<char>> {
        self@.items
    }

    /// The model of the root.
    pub open spec fn root_view(&self) -> Option<NodeView> {
        self@.root
    }

    /// The root is the tree over the items.
    pub open spec fn wf(&self) -> bool {
        self.root_view() == build_items(self.items())
    }

    /// The tree holds `values` in ascending order, each as often as they do,
    /// and its root is the tree over them in that order.
    pub open spec fn made_from(&self, values: Seq<Seq<char>>) -> bool {
        &&& sorted(self.items())
        &&& self.items().len() == values.len()
        &&& self.items().to_multiset() == values.to_multiset()
        &&& self.wf()
    }

    /// The items that a reconciliation with `other` leaves.
    pub open spec fn items_after_sync(&self, other: &MerkleTree) -> Seq<Seq<char>> {
        match (self.root_view(), other.root_view()) {
            (Some(a), Some(b)) => synced_items(self.items(), other.items(), matched_prefix(a, b)),
            _ => self.items(),
        }
    }

    /// Both trees have a root, as many leaf slots match as both have items or
    /// fewer, and that many leading items are the same in both.
    pub open spec fn shares_matched_run(&self, other: &MerkleTree) -> bool {
        match (self.root_view(), other.root_view()) {
            (Some(a), Some(b)) => {
                &&& matched_prefix(a, b) <= self.items().len()
                &&& matched_prefix(a, b) <= other.items().len()
                &&& self.items().take(matched_prefix(a, b) as int) == other.items().take(
                    matched_prefix(a, b) as int,
                )
            },
            _ => false,
        }
    }

    /// Whether the items of both trees together leave room for the padding of
    /// a rebuilt tree. Nothing is rebuilt where one of the two has no root.
    pub open spec fn sync_fits(&self, other: &MerkleTree) -> bool {
        self.root is Some && other.root is Some ==> self.arr@.len() + other.arr@.len()
            <= usize::MAX / 2
    }

    /// Sorts the items and builds the tree over them.
    pub fn new(values: Vec<String>) -> (tree: MerkleTree)
        requires
            values@.len() <= usize::MAX / 2,
        ensures
            tree.made_from(texts(values@)),
    {
        let mut sorted_values = values;
        sort_items(&mut sorted_values);
        proof {
            texts(sorted_values@).to_multiset_ensures();
            texts(values@).to_multiset_ensures();
        }
        let root = MerkleTree::build_tree(sorted_values.as_slice());
        MerkleTree { root, arr: sorted_values }
    }

    /// Builds the tree over `values`, taken in the order given: one leaf for
    /// each, a padding copy of the last where their number is odd, and the
    /// levels above by halving.
    pub fn build_tree(values: &[String]) -> (root: Option<Node>)
        requires
            values@.len() <= usize::MAX / 2,
        ensures
            root_view_of(root) == build_items(texts(values@)),
    {
        let ghost items = texts(values@);
        let mut level: Vec<Node> = Vec::new();
        let mut i: usize = 0;
        while i < values.len()
            invariant
                i <= values@.len(),
                items == texts(values@),
                node_views(level@) == leaves(items.take(i as int)),
            decreases values.len() - i,
        {
            let leaf = Node::new(
                None,
                None,
                Node::hash(values[i].as_str()),
                values[i].clone(),
                false,
                0,
            );
            let ghost before = level@;
            assert(leaf@ == NodeView::leaf(items[i as int]));
            assert(node_views(before).len() == i);
            level.push(leaf);
            assert forall|m: int| 0 <= m < level@.len() implies node_views(level@)[m] == leaves(
                items.take(i as int + 1),
            )[m] by {
                if m < before.len() {
                    assert(node_views(before)[m] == before[m]@);
                    assert(items.take(i as int)[m] == items[m]);
                    assert(leaves(items.take(i as int))[m] == NodeView::leaf(items[m]));
                    assert(items.take(i as int + 1)[m] == items[m]);
                } else {
                    assert(items.take(i as int + 1)[m] == items[m]);
                }
            }
            assert(node_views(level@) =~= leaves(items.take(i as int + 1)));
            i += 1;
        }
        assert(items.take(i as int) =~= items);
        if level.len() % 2 == 1 {
            let last = level[level.len() - 1].copy();
            level.push(last);
        }
        assert(node_views(level@) =~= padded(leaves(items)));
        proof {
            lemma_build_level_padded(leaves(items));
            lemma_build_level_slots(leaves(items));
            lemma_leaf_slots_bounds(items.len());
        }
        MerkleTree::build_tree_rec(level)
    }

    /// Builds the tree over one level of nodes. An odd level gets a padding
    /// copy of its last node. Two nodes get a parent. A longer level is cut at
    /// its midpoint, and the trees over the two halves get a parent. Over no
    /// node there is no tree.
    pub fn build_tree_rec(nodes: Vec<Node>) -> (root: Option<Node>)
        requires
            level_fits(node_views(nodes@)),
        ensures
            root_view_of(root) == build_level(node_views(nodes@)),
        decreases nodes@.len(),
    {
        let ghost given = node_views(nodes@);
        let mut nodes = nodes;
        if nodes.len() % 2 == 1 {
            let last = nodes[nodes.len() - 1].copy();
            nodes.push(last);
        }
        let ghost level = node_views(nodes@);
        assert(level =~= padded(given));
        if nodes.len() == 0 {
            return None;
        }
        if nodes.len() == 2 {
            let right = nodes.pop().unwrap();
            let left = nodes.pop().unwrap();
            assert(left@ == level[0]);
            assert(right@ == level[1]);
            assert(level[0] == given[0]);
            return Some(Node::join(left, right));
        }
        let mid = nodes.len() / 2;
        let second = nodes.split_off(mid);
        let ghost first_views = level.subrange(0, mid as int);
        let ghost second_views = level.subrange(mid as int, level.len() as int);
        assert(node_views(nodes@) =~= first_views);
        assert(node_views(second@) =~= second_views);
        proof {
            lemma_build_level_some(first_views);
            lemma_build_level_some(second_views);
            lemma_build_level_height(first_views);
            assert(first_views[0] == given[0]);
            assert forall|i: int| 0 <= i < level.len() implies (#[trigger] level[i]).height
                + given.len() <= usize::MAX by {
                if i < given.len() {
                    assert(level[i] == given[i]);
                } else {
                    assert(level[i] == given.last().as_padding());
                    assert(given.last() == given[given.len() - 1]);
                }
            }
            assert forall|i: int| 0 <= i < first_views.len() implies (#[trigger] first_views[i]).height
                + first_views.len() <= usize::MAX by {
                assert(first_views[i] == level[i]);
            }
            assert forall|i: int| 0 <= i < second_views.len() implies (
            #[trigger] second_views[i]).height + second_views.len() <= usize::MAX by {
                assert(second_views[i] == level[i + mid]);
            }
        }
        let left = MerkleTree::build_tree_rec(nodes);
        let right = MerkleTree::build_tree_rec(second);
        match (left, right) {
            (Some(l), Some(r)) => Some(Node::join(l, r)),
            _ => None,
        }
    }

    /// Merges two item lists with two pointers, the item of `arr1` first where
    /// two are equal, and then keeps of each item only the first occurrence.
    pub fn merge_sorted_arrays(arr1: &[String], arr2: &[String]) -> (unique: Vec<String>)
        ensures
            texts(unique@) == merge_unique(texts(arr1@), texts(arr2@)),
    {
        let ghost a = texts(arr1@);
        let ghost b = texts(arr2@);
        let mut merged: Vec<String> = Vec::new();
        let mut i: usize = 0;
        let mut j: usize = 0;
        assert(a.skip(0) =~= a);
        assert(b.skip(0) =~= b);
        assert(texts(merged@) + merge(a, b) =~= merge(a, b));
        while i < arr1.len() && j < arr2.len()
            invariant
                i <= arr1@.len(),
                j <= arr2@.len(),
                a == texts(arr1@),
                b == texts(arr2@),
                texts(merged@) + merge(a.skip(i as int), b.skip(j as int)) == merge(a, b),
            decreases arr1@.len() - i + arr2@.len() - j,
        {
            let ghost before = texts(merged@);
            let ghost rest_a = a.skip(i as int);
            let ghost rest_b = b.skip(j as int);
            assert(rest_a[0] == a[i as int]);
            assert(rest_b[0] == b[j as int]);
            if item_le(arr1[i].as_str(), arr2[j].as_str()) {
                merged.push(arr1[i].clone());
                assert(rest_a.skip(1) =~= a.skip(i as int + 1));
                assert(texts(merged@) =~= before + seq![a[i as int]]);
                assert(texts(merged@) + merge(a.skip(i as int + 1), rest_b) =~= before + merge(
                    rest_a,
                    rest_b,
                ));
                i += 1;
            } else {
                merged.push(arr2[j].clone());
                assert(rest_b.skip(1) =~= b.skip(j as int + 1));
                assert(texts(merged@) =~= before + seq![b[j as int]]);
                assert(texts(merged@) + merge(rest_a, b.skip(j as int + 1)) =~= before + merge(
                    rest_a,
                    rest_b,
                ));
                j += 1;
            }
        }
        while i < arr1.len()
            invariant
                i <= arr1@.len(),
                j <= arr2@.len(),
                i == arr1@.len() || j == arr2@.len(),
                a == texts(arr1@),
                b == texts(arr2@),
                texts(merged@) + merge(a.skip(i as int), b.skip(j as int)) == merge(a, b),
            decreases arr1@.len() - i,
        {
            let ghost before = texts(merged@);
            let ghost rest_a = a.skip(i as int);
            assert(rest_a[0] == a[i as int]);
            merged.push(arr1[i].clone());
            assert(texts(merged@) =~= before + seq![a[i as int]]);
            assert(rest_a =~= seq![a[i as int]] + a.skip(i as int + 1));
            assert(texts(merged@) + a.skip(i as int + 1) =~= before + rest_a);
            i += 1;
        }
        while j < arr2.len()
            invariant
                i == arr1@.len(),
                j <= arr2@.len(),
                a == texts(arr1@),
                b == texts(arr2@),
                texts(merged@) + merge(a.skip(i as int), b.skip(j as int)) == merge(a, b),
            decreases arr2@.len() - j,
        {
            let ghost before = texts(merged@);
            let ghost rest_b = b.skip(j as int);
            assert(rest_b[0] == b[j as int]);
            merged.push(arr2[j].clone());
            assert(texts(merged@) =~= before + seq![b[j as int]]);
            assert(rest_b =~= seq![b[j as int]] + b.skip(j as int + 1));
            assert(texts(merged@) + b.skip(j as int + 1) =~= before + rest_b);
            j += 1;
        }
        assert(texts(merged@) =~= merge(a, b));

        let mut unique: Vec<String> = Vec::new();
        let mut seen: StringHashMap<()> = StringHashMap::new();
        let mut k: usize = 0;
        while k < merged.len()
            invariant
                k <= merged@.len(),
                texts(unique@) == distinct(texts(merged@).take(k as int)),
                forall|item: Seq<char>| seen@.contains_key(item) <==> texts(unique@).contains(item),
            decreases merged@.len() - k,
        {
            let ghost kept = texts(unique@);
            let ghost upto = texts(merged@).take(k as int + 1);
            assert(upto.drop_last() =~= texts(merged@).take(k as int));
            assert(upto.last() == merged@[k as int]@);
            if !seen.contains_key(merged[k].as_str()) {
                seen.insert(merged[k].clone(), ());
                unique.push(merged[k].clone());
                assert(texts(unique@) =~= kept.push(merged@[k as int]@));
                assert forall|item: Seq<char>| seen@.contains_key(item) <==> texts(
                    unique@,
                ).contains(item) by {
                    let all = kept.push(merged@[k as int]@);
                    if all.contains(item) {
                        let m = choose|m: int| 0 <= m < all.len() && all[m] == item;
                        if m < kept.len() {
                            assert(kept[m] == item);
                        }
                    }
                    if kept.contains(item) {
                        let m = choose|m: int| 0 <= m < kept.len() && kept[m] == item;
                        assert(all[m] == item);
                    }
                    assert(all[kept.len() as int] == merged@[k as int]@);
                }
            }
            k += 1;
        }
        assert(texts(merged@).take(k as int) =~= texts(merged@));
        unique
    }

    /// Walks from `node` through left children to the first node at `height`.
    /// There is none where the walk ends at a node without a left child.
    pub fn get_leftmost_node_with_height<'a>(&'a self, node: &'a Node, height: usize) -> (found:
        Option<&'a Node>)
        ensures
            view_of(found) == leftmost_at_height(node@, height as nat),
        decreases node@,
    {
        if node.height() == height {
            return Some(node);
        }
        match node.left() {
            Some(left) => self.get_leftmost_node_with_height(left, height),
            None => None,
        }
    }

    /// The number of leaf slots under the matching subtrees of two nodes.
    pub fn get_same_val_count(node_a: Option<&Node>, node_b: Option<&Node>) -> (count: usize)
        ensures
            count == matched_leaf_count(view_of(node_a), view_of(node_b)),
    {
        let mut heights: Vec<usize> = Vec::new();
        MerkleTree::get_height_for_same_val_rec(node_a, node_b, &mut heights);
        let ghost counts = counts_of(heights@);
        proof {
            assert(counts_of(Seq::<usize>::empty()) =~= Seq::<nat>::empty());
            assert(counts =~= matched_counts_of(view_of(node_a), view_of(node_b)));
            match (node_a, node_b) {
                (Some(a), Some(b)) => {
                    use_type_invariant(a);
                    lemma_model_fits(*a);
                    lemma_matched_total(a@, b@);
                    lemma_matched_bound(a@, b@);
                },
                _ => {
                    assert(total(Seq::<nat>::empty()) == 0);
                },
            }
            assert(total(counts) == matched_leaf_count(view_of(node_a), view_of(node_b)));
            assert(total(counts) <= usize::MAX);
        }
        let mut count: usize = 0;
        let mut i: usize = 0;
        while i < heights.len()
            invariant
                i <= heights@.len(),
                counts == counts_of(heights@),
                count == total(counts.take(i as int)),
                total(counts) <= usize::MAX,
            decreases heights@.len() - i,
        {
            proof {
                lemma_total_take(counts, i as int + 1);
                assert(counts.take(i as int + 1).drop_last() =~= counts.take(i as int));
                assert(counts.take(i as int + 1).last() == heights@[i as int] as nat);
            }
            count = count + heights[i];
            i += 1;
        }
        assert(counts.take(i as int) =~= counts);
        count
    }

    /// Appends to `heights` the leaf-slot counts of the matching subtrees of
    /// two nodes, from left to right.
    pub fn get_height_for_same_val_rec(
        node_a: Option<&Node>,
        node_b: Option<&Node>,
        heights: &mut Vec<usize>,
    )
        ensures
            counts_of(final(heights)@) == counts_of(old(heights)@) + matched_counts_of(
                view_of(node_a),
                view_of(node_b),
            ),
        decreases
                match node_a {
                    Some(a) => a@.node_count(),
                    None => 0,
                },
    {
        let ghost before = heights@;
        if node_a.is_none() || node_b.is_none() {
            assert(counts_of(before) + Seq::<nat>::empty() =~= counts_of(before));
            return ;
        }
        let a = node_a.unwrap();
        let b = node_b.unwrap();
        if *a.value() == *b.value() {
            heights.push(a.leave_count());
            assert(counts_of(heights@) =~= counts_of(before) + seq![a@.leave_count]);
            return ;
        }
        let a_left = a.left();
        let b_left = b.left();
        let a_right = a.right();
        let b_right = b.right();
        MerkleTree::get_height_for_same_val_rec(a_left, b_left, heights);
        MerkleTree::get_height_for_same_val_rec(a_right, b_right, heights);
        proof {
            let first = matched_counts_of(view_of(a_left), view_of(b_left));
            let second = matched_counts_of(view_of(a_right), view_of(b_right));
            assert(counts_of(heights@) =~= counts_of(before) + (first + second));
        }
    }

    /// The count that `sync` goes by, where both trees have a root.
    pub fn same_val_count(&self, other: &MerkleTree) -> (count: Option<usize>)
        ensures
            match (self.root_view(), other.root_view()) {
                (Some(a), Some(b)) => count == Some(matched_prefix(a, b) as usize)
                    && matched_prefix(a, b) <= usize::MAX,
                _ => count is None,
            },
    {
        match (&self.root, &other.root) {
            (Some(my_root), Some(other_root)) => {
                let min_height = if my_root.height() <= other_root.height() {
                    my_root.height()
                } else {
                    other_root.height()
                };
                let my_leftmost = self.get_leftmost_node_with_height(my_root, min_height);
                let other_leftmost = self.get_leftmost_node_with_height(other_root, min_height);
                Some(MerkleTree::get_same_val_count(my_leftmost, other_leftmost))
            },
            _ => None,
        }
    }

    /// Reconciles this tree with `other`. Where one of the two has no root,
    /// nothing changes. Else as many leading items stay as leaf slots match,
    /// what follows that many items on both sides is merged without repeats,
    /// and the tree is built anew over the result. Where more leaf slots match
    /// than a tree has items, all its items count as leading ones.
    pub fn sync(&mut self, other: &MerkleTree)
        requires
            old(self).sync_fits(other),
        ensures
            final(self).items() == old(self).items_after_sync(other),
            old(self).root is Some && other.root is Some ==> final(self).wf(),
            old(self).root is None || other.root is None ==> *final(self) == *old(self),
    {
        let same_val_count = match self.same_val_count(other) {
            Some(count) => count,
            None => {
                return ;
            },
        };
        let ghost mine = self.items();
        let ghost theirs = other.items();
        let kept = if same_val_count <= self.arr.len() {
            same_val_count
        } else {
            self.arr.len()
        };
        let skipped = if same_val_count <= other.arr.len() {
            same_val_count
        } else {
            other.arr.len()
        };
        let mut items = copy_range(&self.arr, 0, kept);
        let my_diff_arr = copy_range(&self.arr, kept, self.arr.len());
        let other_diff_arr = copy_range(&other.arr, skipped, other.arr.len());
        let merged_arr = MerkleTree::merge_sorted_arrays(
            my_diff_arr.as_slice(),
            other_diff_arr.as_slice(),
        );
        let ghost common = texts(items@);
        let ghost tail = texts(merged_arr@);
        proof {
            assert(common =~= mine.take(kept as int));
            assert(texts(my_diff_arr@) =~= mine.skip(kept as int));
            assert(texts(other_diff_arr@) =~= theirs.skip(skipped as int));
            lemma_merge_len(texts(my_diff_arr@), texts(other_diff_arr@));
            lemma_distinct(merge(texts(my_diff_arr@), texts(other_diff_arr@)));
        }
        let mut i: usize = 0;
        while i < merged_arr.len()
            invariant
                i <= merged_arr@.len(),
                tail == texts(merged_arr@),
                texts(items@) == common + tail.take(i as int),
            decreases merged_arr@.len() - i,
        {
            let ghost before = items@;
            assert(texts(before).len() == before.len());
            assert(tail.take(i as int).len() == i);
            items.push(merged_arr[i].clone());
            assert forall|m: int| 0 <= m < items@.len() implies texts(items@)[m] == (common
                + tail.take(i as int + 1))[m] by {
                if m < before.len() {
                    assert(texts(before)[m] == before[m]@);
                    assert((common + tail.take(i as int))[m] == (common + tail.take(
                        i as int + 1,
                    ))[m]);
                }
            }
            assert(texts(items@) =~= common + tail.take(i as int + 1));
            i += 1;
        }
        assert(tail.take(i as int) =~= tail);
        self.arr = items;
        self.root = MerkleTree::build_tree(self.arr.as_slice());
    }

    /// Reconciles this tree with `other` where the two have room for it, as
    /// `sync` does, and says whether it did. Where they have not, nothing
    /// changes.
    pub fn try_sync(&mut self, other: &MerkleTree) -> (done: bool)
        ensures
            done == old(self).sync_fits(other),
            done ==> final(self).items() == old(self).items_after_sync(other),
            done && old(self).root is Some && other.root is Some ==> final(self).wf(),
            !done || old(self).root is None || other.root is None ==> *final(self) == *old(self),
    {
        if self.root.is_some() && other.root.is_some() {
            if other.arr.len() > usize::MAX / 2 || self.arr.len() > usize::MAX / 2
                - other.arr.len() {
                return false;
            }
        }
        self.sync(other);
        true
    }
}

} // verus!
