//! The shape of a built tree, as spec functions, and what holds of it.

use crate::node::NodeView;
use vstd::prelude::*;

verus! {

/// One leaf for each item, in order.
pub open spec fn leaves(items: Seq<Seq<char>>) -> Seq<NodeView> {
    Seq::new(items.len(), |i: int| NodeView::leaf(items[i]))
}

/// A level made even: one of odd length gets a padding copy of its last node.
pub open spec fn padded(nodes: Seq<NodeView>) -> Seq<NodeView> {
    if nodes.len() % 2 == 1 {
        nodes.push(nodes.last().as_padding())
    } else {
        nodes
    }
}

/// The tree over one level of nodes. The level is made even. Two nodes get a
/// parent. A longer level is cut at its midpoint, each half is built by
/// itself, and the two subtrees get a parent. There is no tree over nothing.
pub open spec fn build_level(nodes: Seq<NodeView>) -> Option<NodeView>
    decreases nodes.len(),
{
    let level = padded(nodes);
    let mid = level.len() / 2;
    if level.len() == 0 {
        None
    } else if level.len() == 2 {
        Some(NodeView::parent(level[0], level[1]))
    } else {
        match (
            build_level(level.subrange(0, mid as int)),
            build_level(level.subrange(mid as int, level.len() as int)),
        ) {
            (Some(l), Some(r)) => Some(NodeView::parent(l, r)),
            _ => None,
        }
    }
}

/// The tree over a list of items, taken in the order given.
pub open spec fn build_items(items: Seq<Seq<char>>) -> Option<NodeView> {
    build_level(padded(leaves(items)))
}

/// The texts that are hashed when the tree over `items` is built: the items,
/// and for each node above the leaves the digests of its two children, one
/// after the other.
pub open spec fn hashed_texts(items: Seq<Seq<char>>) -> Set<Seq<char>> {
    match build_items(items) {
        Some(root) => root.hashed(),
        None => Set::empty(),
    }
}

/// The number of leaf slots of the tree over `n` leaves.
pub open spec fn leaf_slots(n: nat) -> nat
    decreases n,
{
    let even = n + n % 2;
    if even == 0 {
        0
    } else if even == 2 {
        2
    } else {
        2 * leaf_slots(even / 2)
    }
}

/// The number of levels that the tree over `n` nodes adds above them.
pub open spec fn levels_above(n: nat) -> nat
    decreases n,
{
    let even = n + n % 2;
    if even <= 2 {
        1
    } else {
        1 + levels_above(even / 2)
    }
}

/// 1, 2, 4, 8 and so on.
pub open spec fn is_power_of_two(n: nat) -> bool
    decreases n,
{
    n == 1 || (n > 1 && n % 2 == 0 && is_power_of_two(n / 2))
}

/// Whether building over `nodes` stays within `usize`: each node has room
/// above it for as many levels as there are nodes, and the root's leaf-slot
/// count fits.
pub open spec fn level_fits(nodes: Seq<NodeView>) -> bool {
    &&& forall|i: int| 0 <= i < nodes.len() ==> (#[trigger] nodes[i]).height + nodes.len() <= usize::MAX
    &&& match build_level(nodes) {
        Some(root) => root.leave_count <= usize::MAX,
        None => true,
    }
}

/// There is a tree over every level that holds a node, and over no other.
pub proof fn lemma_build_level_some(nodes: Seq<NodeView>)
    ensures
        build_level(nodes) is Some <==> nodes.len() > 0,
    decreases nodes.len(),
{
    let level = padded(nodes);
    let mid = level.len() / 2;
    if level.len() > 2 {
        lemma_build_level_some(level.subrange(0, mid as int));
        lemma_build_level_some(level.subrange(mid as int, level.len() as int));
    }
}

/// Padding an even level, or one that was padded, changes nothing, and the
/// tree over a level is the tree over the padded level.
pub proof fn lemma_build_level_padded(nodes: Seq<NodeView>)
    ensures
        padded(padded(nodes)) == padded(nodes),
        build_level(padded(nodes)) == build_level(nodes),
{
}

/// The root stands at most as many levels above the first node as the level
/// has nodes.
pub proof fn lemma_build_level_height(nodes: Seq<NodeView>)
    requires
        nodes.len() > 0,
    ensures
        build_level(nodes) is Some,
        build_level(nodes).unwrap().height <= nodes[0].height + nodes.len(),
    decreases nodes.len(),
{
    let level = padded(nodes);
    let mid = level.len() / 2;
    lemma_build_level_some(nodes);
    if level.len() > 2 {
        let first = level.subrange(0, mid as int);
        let second = level.subrange(mid as int, level.len() as int);
        lemma_build_level_some(first);
        lemma_build_level_some(second);
        lemma_build_level_height(first);
        assert(first[0] == nodes[0]);
    }
}

/// Over leaves, the root spans `leaf_slots` of their number.
pub proof fn lemma_build_level_slots(nodes: Seq<NodeView>)
    requires
        forall|i: int| 0 <= i < nodes.len() ==> (#[trigger] nodes[i]).leave_count == 1,
    ensures
        match build_level(nodes) {
            Some(root) => root.leave_count == leaf_slots(nodes.len()),
            None => nodes.len() == 0,
        },
    decreases nodes.len(),
{
    let level = padded(nodes);
    let mid = level.len() / 2;
    lemma_build_level_some(nodes);
    if level.len() > 2 {
        let first = level.subrange(0, mid as int);
        let second = level.subrange(mid as int, level.len() as int);
        lemma_build_level_some(first);
        lemma_build_level_some(second);
        lemma_build_level_slots(first);
        lemma_build_level_slots(second);
        assert(leaf_slots(mid) + leaf_slots(mid) == 2 * leaf_slots(mid));
    }
}

/// A tree has at least as many leaf slots as the even level it stands on, and
/// at most twice as many.
pub proof fn lemma_leaf_slots_bounds(n: nat)
    ensures
        n + n % 2 <= leaf_slots(n) <= 2 * n,
        n >= 2 ==> leaf_slots(n) + 2 <= 2 * n,
    decreases n,
{
    let even = n + n % 2;
    if even > 2 {
        lemma_leaf_slots_bounds(even / 2);
    }
}

/// The leaf slots of a tree are a power of two.
pub proof fn lemma_leaf_slots_power_of_two(n: nat)
    requires
        n > 0,
    ensures
        is_power_of_two(leaf_slots(n)),
    decreases n,
{
    let even = n + n % 2;
    if even > 2 {
        lemma_leaf_slots_power_of_two(even / 2);
        assert(leaf_slots(n) / 2 == leaf_slots(even / 2));
    } else {
        assert(is_power_of_two(1));
        assert(is_power_of_two(2));
    }
}

/// Where the even level is a power of two long, the tree has no further leaf
/// slot.
pub proof fn lemma_leaf_slots_of_power_of_two(n: nat)
    requires
        n > 0,
        is_power_of_two(n + n % 2),
    ensures
        leaf_slots(n) == n + n % 2,
    decreases n,
{
    let even = n + n % 2;
    if even > 2 {
        let half = even / 2;
        assert(is_power_of_two(half));
        assert(half > 1);
        assert(half % 2 == 0);
        lemma_leaf_slots_of_power_of_two(half);
    }
}

/// Over balanced nodes of one height the tree is balanced, and its root
/// stands `levels_above` their number above them.
pub proof fn lemma_build_level_balanced(nodes: Seq<NodeView>, height: nat)
    requires
        nodes.len() > 0,
        forall|i: int| 0 <= i < nodes.len() ==> (#[trigger] nodes[i]).balanced(),
        forall|i: int| 0 <= i < nodes.len() ==> (#[trigger] nodes[i]).height == height,
    ensures
        build_level(nodes) is Some,
        build_level(nodes).unwrap().balanced(),
        build_level(nodes).unwrap().height == height + levels_above(nodes.len()),
    decreases nodes.len(),
{
    let level = padded(nodes);
    let mid = level.len() / 2;
    lemma_build_level_some(nodes);
    assert forall|i: int| 0 <= i < level.len() implies (#[trigger] level[i]).balanced() && level[i].height
        == height by {
        if i < nodes.len() {
            assert(level[i] == nodes[i]);
        } else {
            assert(nodes.last() == nodes[nodes.len() - 1]);
            assert(nodes[nodes.len() - 1].balanced());
        }
    }
    if level.len() > 2 {
        let first = level.subrange(0, mid as int);
        let second = level.subrange(mid as int, level.len() as int);
        assert forall|i: int| 0 <= i < first.len() implies (#[trigger] first[i]).balanced() && first[i].height
            == height by {
            assert(first[i] == level[i]);
        }
        assert forall|i: int| 0 <= i < second.len() implies (#[trigger] second[i]).balanced()
            && second[i].height == height by {
            assert(second[i] == level[i + mid]);
        }
        lemma_build_level_balanced(first, height);
        lemma_build_level_balanced(second, height);
    } else {
        assert(level[0].balanced());
        assert(level[1].balanced());
    }
}

/// What was hashed for a node of a level was hashed for the tree over the
/// level.
pub proof fn lemma_hashed_holds_nodes(nodes: Seq<NodeView>, i: int)
    requires
        0 <= i < nodes.len(),
    ensures
        build_level(nodes) is Some,
        nodes[i].hashed().subset_of(build_level(nodes).unwrap().hashed()),
    decreases nodes.len(),
{
    let level = padded(nodes);
    let mid = level.len() / 2;
    lemma_build_level_some(nodes);
    assert(level[i] == nodes[i]);
    if level.len() > 2 {
        let first = level.subrange(0, mid as int);
        let second = level.subrange(mid as int, level.len() as int);
        lemma_build_level_some(first);
        lemma_build_level_some(second);
        if i < mid {
            assert(first[i] == level[i]);
            lemma_hashed_holds_nodes(first, i);
        } else {
            assert(second[i - mid] == level[i]);
            lemma_hashed_holds_nodes(second, i - mid);
        }
    }
}

} // verus!
