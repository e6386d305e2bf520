//! What holds of the library as a whole, proved from the contracts and the
//! spec functions they are stated over.

use crate::digest::{digest_of, distinct_digests, lemma_digest_len};
use crate::merge::{
    distinct, lemma_distinct, lemma_distinct_sorted, lemma_merge_contains, lemma_merge_sorted,
    merge, merge_unique,
};
use crate::node::NodeView;
use crate::order::{lemma_sorted_set_unique, lemma_sorted_unique, sorted, sorted_set, text_le};
use crate::prefix::{leftmost_at_height, matched_prefix};
use crate::shape::{
    build_items, build_level, hashed_texts, is_power_of_two, leaf_slots, leaves,
    lemma_build_level_balanced, lemma_build_level_padded, lemma_build_level_slots,
    lemma_build_level_some, lemma_hashed_holds_nodes, lemma_leaf_slots_bounds,
    lemma_leaf_slots_of_power_of_two, lemma_leaf_slots_power_of_two, levels_above, padded,
};
use crate::tree::{synced_items, within, MerkleTree};
use vstd::prelude::*;

verus! {

/// Building is deterministic: two trees made from the same values hold the
/// same items in the same order, and the same root, digest included.
pub proof fn lemma_build_deterministic(
    first: MerkleTree,
    second: MerkleTree,
    values: Seq<Seq<char>>,
)
    requires
        first.made_from(values),
        second.made_from(values),
    ensures
        first.items() == second.items(),
        first.root_view() == second.root_view(),
{
    lemma_sorted_unique(first.items(), second.items());
}

/// The root over `n` items spans `leaf_slots(n)` leaf slots, stands
/// `levels_above(n)` above the leaves, and the tree below it is balanced.
pub proof fn lemma_build_items_shape(items: Seq<Seq<char>>)
    requires
        items.len() > 0,
    ensures
        build_items(items) is Some,
        build_items(items).unwrap().leave_count == leaf_slots(items.len()),
        build_items(items).unwrap().height == levels_above(items.len()),
        build_items(items).unwrap().balanced(),
{
    lemma_build_level_padded(leaves(items));
    lemma_build_level_some(leaves(items));
    lemma_build_level_slots(leaves(items));
    lemma_build_level_balanced(leaves(items), 0);
}

/// There is a root exactly where there is an item.
pub proof fn lemma_build_items_some(items: Seq<Seq<char>>)
    ensures
        build_items(items) is Some <==> items.len() > 0,
{
    lemma_build_level_padded(leaves(items));
    lemma_build_level_some(leaves(items));
}

/// Leaf coverage: over `n` items the root spans `n` leaf slots where `n` is
/// even and `n + 1` where it is odd, exactly if that number is a power of two.
/// Over any other number of items the halving pads again further up, and the
/// root spans the next power of two.
pub proof fn lemma_leaf_coverage(items: Seq<Seq<char>>)
    requires
        items.len() > 0,
    ensures
        build_items(items) is Some,
        is_power_of_two(items.len() + items.len() % 2) <==> build_items(items).unwrap().leave_count
            == items.len() + items.len() % 2,
        items.len() + items.len() % 2 <= build_items(items).unwrap().leave_count <= 2
            * items.len(),
{
    let n = items.len();
    lemma_build_items_shape(items);
    lemma_leaf_slots_bounds(n);
    lemma_leaf_slots_power_of_two(n);
    if is_power_of_two(n + n % 2) {
        lemma_leaf_slots_of_power_of_two(n);
    }
}

/// Compared with itself, a node matches as a whole.
pub proof fn lemma_matched_prefix_same(root: NodeView)
    ensures
        matched_prefix(root, root) == root.leave_count,
{
    assert(leftmost_at_height(root, root.height) == Some(root));
}

/// Self-sync identity: a tree keeps its items as they are when it is
/// reconciled with a tree equal to it. Where the root spans more leaf slots
/// than there are items, all of them match, and nothing is left to merge.
pub proof fn lemma_self_sync_identity(tree: MerkleTree, twin: MerkleTree)
    requires
        tree.wf(),
        twin.wf(),
        twin.items() == tree.items(),
    ensures
        tree.items_after_sync(&twin) == tree.items(),
{
    let items = tree.items();
    match tree.root_view() {
        Some(root) => {
            lemma_build_items_some(items);
            lemma_build_items_shape(items);
            lemma_leaf_slots_bounds(items.len());
            lemma_matched_prefix_same(root);
            let kept = within(items, matched_prefix(root, root));
            assert(kept == items.len());
            assert(items.skip(kept) =~= Seq::<Seq<char>>::empty());
            assert(merge(Seq::<Seq<char>>::empty(), Seq::<Seq<char>>::empty()) =~= Seq::<
                Seq<char>,
            >::empty());
            assert(distinct(Seq::<Seq<char>>::empty()) =~= Seq::<Seq<char>>::empty());
            assert(items.take(kept) =~= items);
            assert(synced_items(items, items, matched_prefix(root, root)) =~= items);
        },
        None => {},
    }
}

/// Merge correctness: the merge without repeats of two sorted lists is
/// sorted, holds each item of either list and no other, holds none twice, and
/// is left as it is by a further merge with nothing.
pub proof fn lemma_merge_unique_correct(x: Seq<Seq<char>>, y: Seq<Seq<char>>)
    requires
        sorted(x),
        sorted(y),
    ensures
        sorted(merge_unique(x, y)),
        forall|item: Seq<char>|
            merge_unique(x, y).contains(item) <==> x.contains(item) || y.contains(item),
        merge_unique(x, y).no_duplicates(),
        merge_unique(merge_unique(x, y), Seq::empty()) == merge_unique(x, y),
{
    let merged = merge(x, y);
    lemma_merge_sorted(x, y);
    lemma_distinct_sorted(merged);
    lemma_distinct(merged);
    assert forall|item: Seq<char>|
        merge_unique(x, y).contains(item) <==> x.contains(item) || y.contains(item) by {
        lemma_merge_contains(x, y, item);
    }
    lemma_merge_unique_idempotent(x, y);
}

/// Of any two lists, sorted or not, the merge without repeats holds each item
/// of either list once, and a further merge with nothing leaves it as it is.
pub proof fn lemma_merge_unique_idempotent(x: Seq<Seq<char>>, y: Seq<Seq<char>>)
    ensures
        merge_unique(x, y).no_duplicates(),
        merge_unique(merge_unique(x, y), Seq::empty()) == merge_unique(x, y),
{
    let unique = merge_unique(x, y);
    lemma_distinct(merge(x, y));
    lemma_distinct(unique);
    assert(merge(unique, Seq::empty()) == unique);
}

/// Reconciliation over a common leading run: where both lists are sorted and
/// agree on their first `matched` items, what a reconciliation leaves is
/// sorted and holds each item of either list and no other.
pub proof fn lemma_sync_of_common_prefix(
    mine: Seq<Seq<char>>,
    theirs: Seq<Seq<char>>,
    matched: nat,
)
    requires
        sorted(mine),
        sorted(theirs),
        matched <= mine.len(),
        matched <= theirs.len(),
        mine.take(matched as int) == theirs.take(matched as int),
    ensures
        sorted(synced_items(mine, theirs, matched)),
        forall|item: Seq<char>|
            synced_items(mine, theirs, matched).contains(item) <==> mine.contains(item)
                || theirs.contains(item),
        mine.no_duplicates() && theirs.no_duplicates() ==> synced_items(
            mine,
            theirs,
            matched,
        ).no_duplicates(),
{
    let k = matched as int;
    let common = mine.take(k);
    let my_tail = mine.skip(k);
    let their_tail = theirs.skip(k);
    let tail = merge_unique(my_tail, their_tail);
    let all = synced_items(mine, theirs, matched);
    assert forall|i: int, j: int| 0 <= i < j < my_tail.len() implies text_le(
        #[trigger] my_tail[i],
        #[trigger] my_tail[j],
    ) by {
        assert(text_le(mine[i + k], mine[j + k]));
    }
    assert forall|i: int, j: int| 0 <= i < j < their_tail.len() implies text_le(
        #[trigger] their_tail[i],
        #[trigger] their_tail[j],
    ) by {
        assert(text_le(theirs[i + k], theirs[j + k]));
    }
    lemma_merge_unique_correct(my_tail, their_tail);
    assert forall|i: int, j: int| 0 <= i < j < all.len() implies text_le(
        #[trigger] all[i],
        #[trigger] all[j],
    ) by {
        if j < k {
            assert(text_le(mine[i], mine[j]));
        } else if i >= k {
            assert(text_le(tail[i - k], tail[j - k]));
        } else {
            let item = tail[j - k];
            assert(tail.contains(item));
            assert(common[i] == mine[i]);
            assert(theirs.take(k)[i] == theirs[i]);
            if my_tail.contains(item) {
                let m = choose|m: int| 0 <= m < my_tail.len() && my_tail[m] == item;
                assert(text_le(mine[i], mine[m + k]));
            } else {
                let m = choose|m: int| 0 <= m < their_tail.len() && their_tail[m] == item;
                assert(text_le(theirs[i], theirs[m + k]));
            }
        }
    }
    assert forall|item: Seq<char>| all.contains(item) <==> mine.contains(item) || theirs.contains(
        item,
    ) by {
        if all.contains(item) {
            let i = choose|i: int| 0 <= i < all.len() && all[i] == item;
            if i < k {
                assert(mine[i] == item);
            } else {
                assert(tail[i - k] == item);
                assert(tail.contains(item));
                if my_tail.contains(item) {
                    let m = choose|m: int| 0 <= m < my_tail.len() && my_tail[m] == item;
                    assert(mine[m + k] == item);
                } else {
                    let m = choose|m: int| 0 <= m < their_tail.len() && their_tail[m] == item;
                    assert(theirs[m + k] == item);
                }
            }
        }
        if mine.contains(item) || theirs.contains(item) {
            let in_common = exists|i: int| 0 <= i < k && mine[i] == item;
            if in_common {
                let i = choose|i: int| 0 <= i < k && mine[i] == item;
                assert(all[i] == item);
            } else {
                if mine.contains(item) {
                    let i = choose|i: int| 0 <= i < mine.len() && mine[i] == item;
                    assert(my_tail[i - k] == item);
                    assert(my_tail.contains(item));
                } else {
                    let i = choose|i: int| 0 <= i < theirs.len() && theirs[i] == item;
                    if i < k {
                        assert(theirs.take(k)[i] == theirs[i]);
                        assert(common[i] == mine[i]);
                    }
                    assert(their_tail[i - k] == item);
                    assert(their_tail.contains(item));
                }
                assert(tail.contains(item));
                let m = choose|m: int| 0 <= m < tail.len() && tail[m] == item;
                assert(all[m + k] == item);
            }
        }
    }
    if mine.no_duplicates() && theirs.no_duplicates() {
        assert forall|i: int, j: int| 0 <= i < j < all.len() implies all[i] != all[j] by {
            if j < k {
                assert(all[i] == mine[i] && all[j] == mine[j]);
            } else if i >= k {
                assert(all[i] == tail[i - k] && all[j] == tail[j - k]);
            } else {
                let item = tail[j - k];
                assert(tail.contains(item));
                assert(all[i] == mine[i]);
                assert(theirs.take(k)[i] == theirs[i]);
                assert(common[i] == mine[i]);
                if my_tail.contains(item) {
                    let m = choose|m: int| 0 <= m < my_tail.len() && my_tail[m] == item;
                    assert(mine[m + k] == item);
                } else {
                    let m = choose|m: int| 0 <= m < their_tail.len() && their_tail[m] == item;
                    assert(theirs[m + k] == item);
                }
            }
        }
    }
}

/// One reconciliation over a shared run: where both trees hold their items
/// sorted and without repeats, and the leaf slots that match stand for leading
/// items that the two share, what is left is the sorted union of the two,
/// without repeats.
pub proof fn lemma_sync_gives_union(tree: MerkleTree, other: MerkleTree)
    requires
        sorted_set(tree.items()),
        sorted_set(other.items()),
        tree.shares_matched_run(&other),
    ensures
        sorted_set(tree.items_after_sync(&other)),
        forall|item: Seq<char>|
            tree.items_after_sync(&other).contains(item) <==> tree.items().contains(item)
                || other.items().contains(item),
{
    let matched = matched_prefix(tree.root_view().unwrap(), other.root_view().unwrap());
    lemma_sync_of_common_prefix(tree.items(), other.items(), matched);
}

/// Two reconciliations in a row, each over a shared run: `between` is the
/// tree after `first` was reconciled with `second`. Reconciled with `third`,
/// it holds the sorted union of the three, without repeats.
pub proof fn lemma_two_syncs_give_union(
    first: MerkleTree,
    second: MerkleTree,
    third: MerkleTree,
    between: MerkleTree,
)
    requires
        sorted_set(first.items()),
        sorted_set(second.items()),
        sorted_set(third.items()),
        first.shares_matched_run(&second),
        between.items() == first.items_after_sync(&second),
        between.shares_matched_run(&third),
    ensures
        sorted_set(between.items_after_sync(&third)),
        forall|item: Seq<char>|
            between.items_after_sync(&third).contains(item) <==> first.items().contains(item)
                || second.items().contains(item) || third.items().contains(item),
{
    lemma_sync_gives_union(first, second);
    lemma_sync_gives_union(between, third);
}

/// The order of two reconciliations is without effect where each of the four
/// goes over a shared run: `via_second` is the tree after `first` was
/// reconciled with `second`, `via_third` the tree after it was reconciled with
/// `third`.
pub proof fn lemma_two_syncs_in_either_order(
    first: MerkleTree,
    second: MerkleTree,
    third: MerkleTree,
    via_second: MerkleTree,
    via_third: MerkleTree,
)
    requires
        sorted_set(first.items()),
        sorted_set(second.items()),
        sorted_set(third.items()),
        first.shares_matched_run(&second),
        via_second.items() == first.items_after_sync(&second),
        via_second.shares_matched_run(&third),
        first.shares_matched_run(&third),
        via_third.items() == first.items_after_sync(&third),
        via_third.shares_matched_run(&second),
    ensures
        via_second.items_after_sync(&third) == via_third.items_after_sync(&second),
{
    lemma_two_syncs_give_union(first, second, third, via_second);
    lemma_two_syncs_give_union(first, third, second, via_third);
    let one = via_second.items_after_sync(&third);
    let other = via_third.items_after_sync(&second);
    assert forall|item: Seq<char>| one.contains(item) <==> other.contains(item) by {
        assert(one.contains(item) <==> first.items().contains(item) || second.items().contains(item)
            || third.items().contains(item));
        assert(other.contains(item) <==> first.items().contains(item) || third.items().contains(
            item,
        ) || second.items().contains(item));
    }
    lemma_sorted_set_unique(one, other);
}

/// Two texts of equal length followed by two others make the same text only
/// where they are the same.
pub proof fn lemma_concat_split(a: Seq<char>, b: Seq<char>, c: Seq<char>, d: Seq<char>)
    requires
        a.len() == c.len(),
        a + b == c + d,
    ensures
        a == c,
        b == d,
{
    assert(a =~= (a + b).subrange(0, a.len() as int));
    assert(c =~= (c + d).subrange(0, c.len() as int));
    assert(b =~= (a + b).subrange(a.len() as int, (a + b).len() as int));
    assert(d =~= (c + d).subrange(c.len() as int, (c + d).len() as int));
}

/// Two parents with one digest have children with the same digests, where
/// the two texts hashed for them are among texts with different digests and
/// the left children's digests are of one length.
pub proof fn lemma_parent_digests(
    l: NodeView,
    r: NodeView,
    m: NodeView,
    s: NodeView,
    texts: Set<Seq<char>>,
)
    requires
        distinct_digests(texts),
        texts.contains(l.digest + r.digest),
        texts.contains(m.digest + s.digest),
        l.digest.len() == m.digest.len(),
        NodeView::parent(l, r).digest == NodeView::parent(m, s).digest,
    ensures
        l.digest == m.digest,
        r.digest == s.digest,
{
    assert(digest_of(l.digest + r.digest) == digest_of(m.digest + s.digest));
    lemma_concat_split(l.digest, r.digest, m.digest, s.digest);
}

/// Two levels of one length whose trees have one root digest hold the same
/// digests, node by node, where no two of the texts hashed for the two trees
/// share a digest.
pub proof fn lemma_level_digests(x: Seq<NodeView>, y: Seq<NodeView>, texts: Set<Seq<char>>)
    requires
        distinct_digests(texts),
        x.len() == y.len(),
        x.len() > 0,
        forall|i: int| 0 <= i < x.len() ==> (#[trigger] x[i]).digest.len() == 64,
        forall|i: int| 0 <= i < y.len() ==> (#[trigger] y[i]).digest.len() == 64,
        build_level(x).unwrap().hashed().subset_of(texts),
        build_level(y).unwrap().hashed().subset_of(texts),
        build_level(x).unwrap().digest == build_level(y).unwrap().digest,
    ensures
        forall|i: int| 0 <= i < x.len() ==> (#[trigger] x[i]).digest == y[i].digest,
    decreases x.len(),
{
    let level_x = padded(x);
    let level_y = padded(y);
    let mid = level_x.len() / 2;
    lemma_build_level_some(x);
    lemma_build_level_some(y);
    assert forall|i: int| 0 <= i < level_x.len() implies (#[trigger] level_x[i]).digest.len()
        == 64 && level_y[i].digest.len() == 64 by {
        if i < x.len() {
            assert(level_x[i] == x[i]);
            assert(level_y[i] == y[i]);
        } else {
            assert(x.last() == x[x.len() - 1]);
            assert(y.last() == y[y.len() - 1]);
        }
    }
    if level_x.len() == 2 {
        let root_x = NodeView::parent(level_x[0], level_x[1]);
        let root_y = NodeView::parent(level_y[0], level_y[1]);
        assert(root_x.hashed().contains(level_x[0].digest + level_x[1].digest));
        assert(root_y.hashed().contains(level_y[0].digest + level_y[1].digest));
        lemma_parent_digests(level_x[0], level_x[1], level_y[0], level_y[1], texts);
        assert forall|i: int| 0 <= i < x.len() implies (#[trigger] x[i]).digest == y[i].digest by {
            assert(level_x[i] == x[i]);
            assert(level_y[i] == y[i]);
        }
    } else {
        let first_x = level_x.subrange(0, mid as int);
        let second_x = level_x.subrange(mid as int, level_x.len() as int);
        let first_y = level_y.subrange(0, mid as int);
        let second_y = level_y.subrange(mid as int, level_y.len() as int);
        lemma_build_level_some(first_x);
        lemma_build_level_some(second_x);
        lemma_build_level_some(first_y);
        lemma_build_level_some(second_y);
        lemma_root_digest_len(first_x);
        lemma_root_digest_len(first_y);
        let lx = build_level(first_x).unwrap();
        let rx = build_level(second_x).unwrap();
        let ly = build_level(first_y).unwrap();
        let ry = build_level(second_y).unwrap();
        let root_x = NodeView::parent(lx, rx);
        let root_y = NodeView::parent(ly, ry);
        assert(build_level(x).unwrap() == root_x);
        assert(build_level(y).unwrap() == root_y);
        assert(root_x.hashed().contains(lx.digest + rx.digest));
        assert(root_y.hashed().contains(ly.digest + ry.digest));
        assert(lx.hashed().subset_of(root_x.hashed()));
        assert(rx.hashed().subset_of(root_x.hashed()));
        assert(ly.hashed().subset_of(root_y.hashed()));
        assert(ry.hashed().subset_of(root_y.hashed()));
        lemma_parent_digests(lx, rx, ly, ry, texts);
        assert forall|i: int| 0 <= i < first_x.len() implies (#[trigger] first_x[i]).digest.len()
            == 64 && first_y[i].digest.len() == 64 by {
            assert(first_x[i] == level_x[i]);
            assert(first_y[i] == level_y[i]);
        }
        assert forall|i: int| 0 <= i < second_x.len() implies (#[trigger] second_x[i]).digest.len()
            == 64 && second_y[i].digest.len() == 64 by {
            assert(second_x[i] == level_x[i + mid]);
            assert(second_y[i] == level_y[i + mid]);
        }
        lemma_level_digests(first_x, first_y, texts);
        lemma_level_digests(second_x, second_y, texts);
        assert forall|i: int| 0 <= i < x.len() implies (#[trigger] x[i]).digest == y[i].digest by {
            assert(level_x[i] == x[i]);
            assert(level_y[i] == y[i]);
            if i < mid {
                assert(first_x[i] == level_x[i]);
                assert(first_y[i] == level_y[i]);
            } else {
                assert(second_x[i - mid] == level_x[i]);
                assert(second_y[i - mid] == level_y[i]);
            }
        }
    }
}

/// The digest of a root is 64 characters long.
pub proof fn lemma_root_digest_len(nodes: Seq<NodeView>)
    requires
        nodes.len() > 0,
    ensures
        build_level(nodes).unwrap().digest.len() == 64,
{
    let level = padded(nodes);
    let mid = level.len() / 2;
    lemma_build_level_some(nodes);
    if level.len() == 2 {
        lemma_digest_len(level[0].digest + level[1].digest);
    } else {
        let first = level.subrange(0, mid as int);
        let second = level.subrange(mid as int, level.len() as int);
        lemma_build_level_some(first);
        lemma_build_level_some(second);
        lemma_digest_len(build_level(first).unwrap().digest + build_level(second).unwrap().digest);
    }
}

/// Digest sensitivity: two item lists of one length that differ in an item,
/// be it a single one, have trees with different root digests, where no two
/// of the texts hashed to build the two trees share a digest.
pub proof fn lemma_digest_sensitivity(a: Seq<Seq<char>>, b: Seq<Seq<char>>)
    requires
        a.len() == b.len(),
        a != b,
        distinct_digests(hashed_texts(a).union(hashed_texts(b))),
    ensures
        build_items(a) is Some,
        build_items(b) is Some,
        build_items(a).unwrap().digest != build_items(b).unwrap().digest,
{
    let texts = hashed_texts(a).union(hashed_texts(b));
    assert(a.len() > 0) by {
        if a.len() == 0 {
            assert(a =~= b);
        }
    }
    lemma_build_items_some(a);
    lemma_build_items_some(b);
    lemma_build_level_padded(leaves(a));
    lemma_build_level_padded(leaves(b));
    if build_items(a).unwrap().digest == build_items(b).unwrap().digest {
        assert forall|i: int| 0 <= i < a.len() implies (#[trigger] leaves(a)[i]).digest.len() == 64
            && leaves(b)[i].digest.len() == 64 by {
            lemma_digest_len(a[i]);
            lemma_digest_len(b[i]);
        }
        assert(hashed_texts(a).subset_of(texts));
        assert(hashed_texts(b).subset_of(texts));
        lemma_level_digests(leaves(a), leaves(b), texts);
        assert forall|i: int| 0 <= i < a.len() implies a[i] == b[i] by {
            assert(leaves(a)[i].digest == leaves(b)[i].digest);
            assert(digest_of(a[i]) == digest_of(b[i]));
            lemma_hashed_holds_nodes(leaves(a), i);
            lemma_hashed_holds_nodes(leaves(b), i);
            assert(leaves(a)[i].hashed().contains(a[i]));
            assert(leaves(b)[i].hashed().contains(b[i]));
            assert(texts.contains(a[i]));
            assert(texts.contains(b[i]));
        }
        assert(a =~= b);
    }
}

} // verus!
