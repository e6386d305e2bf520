//! Aligning two trees at one height and counting the leaf slots under
//! subtrees with equal digests.

use crate::node::NodeView;
use vstd::prelude::*;

verus! {

/// The node that a walk from `node` through left children meets first at
/// `height`, if it meets one before the walk ends at a node without a left
/// child.
pub open spec fn leftmost_at_height(node: NodeView, height: nat) -> Option<NodeView>
    decreases node,
{
    if node.height == height {
        Some(node)
    } else {
        match node.left {
            Some(left) => leftmost_at_height(*left, height),
            None => None,
        }
    }
}

/// The leaf-slot counts of the matching subtrees of `a` and `b`, from left to
/// right. Where the digests are equal the subtree of `a` counts as a whole.
/// Where they differ, the left children are compared with each other and the
/// right children with each other, as far as both have them.
pub open spec fn matched_counts(a: NodeView, b: NodeView) -> Seq<nat>
    decreases a,
{
    if a.digest == b.digest {
        seq![a.leave_count]
    } else {
        (match (a.left, b.left) {
            (Some(l), Some(m)) => matched_counts(*l, *m),
            _ => Seq::empty(),
        }) + (match (a.right, b.right) {
            (Some(r), Some(s)) => matched_counts(*r, *s),
            _ => Seq::empty(),
        })
    }
}

/// The number of leaf slots under the matching subtrees of `a` and `b`.
pub open spec fn matched_leaves(a: NodeView, b: NodeView) -> nat
    decreases a,
{
    if a.digest == b.digest {
        a.leave_count
    } else {
        (match (a.left, b.left) {
            (Some(l), Some(m)) => matched_leaves(*l, *m),
            _ => 0,
        }) + (match (a.right, b.right) {
            (Some(r), Some(s)) => matched_leaves(*r, *s),
            _ => 0,
        })
    }
}

/// `matched_counts` where both nodes are there, else nothing.
pub open spec fn matched_counts_of(a: Option<NodeView>, b: Option<NodeView>) -> Seq<nat> {
    match (a, b) {
        (Some(x), Some(y)) => matched_counts(x, y),
        _ => Seq::empty(),
    }
}

/// `matched_leaves` where both nodes are there, else 0.
pub open spec fn matched_leaf_count(a: Option<NodeView>, b: Option<NodeView>) -> nat {
    match (a, b) {
        (Some(x), Some(y)) => matched_leaves(x, y),
        _ => 0,
    }
}

/// The count that two trees agree on: both are entered at the height of the
/// lower root, through their left children, and the matching leaf slots below
/// the two nodes found there are counted.
pub open spec fn matched_prefix(a: NodeView, b: NodeView) -> nat {
    let height = if a.height <= b.height {
        a.height
    } else {
        b.height
    };
    matched_leaf_count(leftmost_at_height(a, height), leftmost_at_height(b, height))
}

/// The sum of a list of counts.
pub open spec fn total(counts: Seq<nat>) -> nat
    decreases counts.len(),
{
    if counts.len() == 0 {
        0
    } else {
        total(counts.drop_last()) + counts.last()
    }
}

/// A list of machine integers, read as counts.
pub open spec fn counts_of(values: Seq<usize>) -> Seq<nat> {
    Seq::new(values.len(), |i: int| values[i] as nat)
}

/// The sum of two lists, one after the other, is the sum of their sums.
pub proof fn lemma_total_concat(x: Seq<nat>, y: Seq<nat>)
    ensures
        total(x + y) == total(x) + total(y),
    decreases y.len(),
{
    if y.len() == 0 {
        assert(x + y =~= x);
    } else {
        lemma_total_concat(x, y.drop_last());
        assert((x + y).drop_last() =~= x + y.drop_last());
    }
}

/// The sum of the first `k` counts is at most the sum of all.
pub proof fn lemma_total_take(counts: Seq<nat>, k: int)
    requires
        0 <= k <= counts.len(),
    ensures
        total(counts.take(k)) <= total(counts),
{
    lemma_total_concat(counts.take(k), counts.skip(k));
    assert(counts.take(k) + counts.skip(k) =~= counts);
}

/// The matching leaf slots are the sum of the counts of the matching subtrees.
pub proof fn lemma_matched_total(a: NodeView, b: NodeView)
    ensures
        total(matched_counts(a, b)) == matched_leaves(a, b),
    decreases a,
{
    if a.digest == b.digest {
        let one = seq![a.leave_count];
        assert(one.drop_last() =~= Seq::<nat>::empty());
        assert(total(one.drop_last()) == 0);
        assert(one.last() == a.leave_count);
        assert(total(one) == total(one.drop_last()) + one.last());
    } else {
        let first = match (a.left, b.left) {
            (Some(l), Some(m)) => matched_counts(*l, *m),
            _ => Seq::empty(),
        };
        let second = match (a.right, b.right) {
            (Some(r), Some(s)) => matched_counts(*r, *s),
            _ => Seq::empty(),
        };
        match (a.left, b.left) {
            (Some(l), Some(m)) => lemma_matched_total(*l, *m),
            _ => {},
        }
        match (a.right, b.right) {
            (Some(r), Some(s)) => lemma_matched_total(*r, *s),
            _ => {},
        }
        lemma_total_concat(first, second);
        assert(total(Seq::<nat>::empty()) == 0);
        assert(matched_counts(a, b) == first + second);
    }
}

/// No more leaf slots match than the first tree spans.
pub proof fn lemma_matched_bound(a: NodeView, b: NodeView)
    requires
        a.counted(),
    ensures
        matched_leaves(a, b) <= a.leave_count,
    decreases a,
{
    if a.digest != b.digest {
        match (a.left, b.left) {
            (Some(l), Some(m)) => lemma_matched_bound(*l, *m),
            _ => {},
        }
        match (a.right, b.right) {
            (Some(r), Some(s)) => lemma_matched_bound(*r, *s),
            _ => {},
        }
    }
}

} // verus!
