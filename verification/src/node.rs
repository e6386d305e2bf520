//! The node of a hash tree, and its mathematical model.

use crate::digest::{digest_of, hex_encode, sha256};
use vstd::prelude::*;
use vstd::string::*;

verus! {

/// What a node is: its children, its digest, the trace of the items below it,
/// whether it was made to fill an odd level, its height and the number of leaf
/// slots below it.
pub struct NodeView {
    pub left: Option<Box<NodeView>>,
    pub right: Option<Box<NodeView>>,
    pub digest: Seq<char>,
    pub payload: Seq<char>,
    pub is_padding: bool,
    pub height: nat,
    pub leave_count: nat,
}

impl NodeView {
    /// The leaf for one item.
    pub open spec fn leaf(item: Seq<char>) -> NodeView {
        NodeView {
            left: None,
            right: None,
            digest: digest_of(item),
            payload: item,
            is_padding: false,
            height: 0,
            leave_count: 1,
        }
    }

    /// The parent of two subtrees: it hashes their digests, one after the
    /// other, joins their payloads with `+`, stands one above the left child
    /// and spans the leaf slots of both.
    pub open spec fn parent(l: NodeView, r: NodeView) -> NodeView {
        NodeView {
            left: Some(Box::new(l)),
            right: Some(Box::new(r)),
            digest: digest_of(l.digest + r.digest),
            payload: l.payload + seq!['+'] + r.payload,
            is_padding: false,
            height: l.height + 1,
            leave_count: l.leave_count + r.leave_count,
        }
    }

    /// The same node, marked as padding.
    pub open spec fn as_padding(self) -> NodeView {
        NodeView { is_padding: true, ..self }
    }

    /// The number of leaf slots that a node with these children spans: one for
    /// a leaf, else what its children span together.
    pub open spec fn slots_below(left: Option<Box<NodeView>>, right: Option<Box<NodeView>>) -> nat {
        match (left, right) {
            (Some(l), Some(r)) => l.leave_count + r.leave_count,
            (Some(l), None) => l.leave_count,
            (None, Some(r)) => r.leave_count,
            (None, None) => 1,
        }
    }

    /// Leaves stand at height 0 and span one leaf slot. Every other node has
    /// two children, stands one above each of them and spans the leaf slots of
    /// both. The same holds below.
    pub open spec fn balanced(self) -> bool
        decreases self,
    {
        match (self.left, self.right) {
            (None, None) => self.height == 0 && self.leave_count == 1,
            (Some(l), Some(r)) => {
                &&& l.balanced()
                &&& r.balanced()
                &&& self.height == l.height + 1
                &&& self.height == r.height + 1
                &&& self.leave_count == l.leave_count + r.leave_count
            },
            _ => false,
        }
    }

    /// The texts that the digests of a built subtree are the digests of: the
    /// payload of each leaf, and for each node with two children the digests
    /// of the two, one after the other.
    pub open spec fn hashed(self) -> Set<Seq<char>>
        decreases self,
    {
        match (self.left, self.right) {
            (Some(l), Some(r)) => l.hashed().union(r.hashed()).insert(l.digest + r.digest),
            _ => set![self.payload],
        }
    }

    /// The number of nodes of the subtree.
    pub open spec fn node_count(self) -> nat
        decreases self,
    {
        1 + (match self.left {
            Some(l) => l.node_count(),
            None => 0,
        }) + (match self.right {
            Some(r) => r.node_count(),
            None => 0,
        })
    }

    /// The leaf-slot count of this node and of every node below it is the one
    /// that its children give.
    pub open spec fn counted(self) -> bool
        decreases self,
    {
        &&& self.leave_count == NodeView::slots_below(self.left, self.right)
        &&& match self.left {
            Some(l) => l.counted(),
            None => true,
        }
        &&& match self.right {
            Some(r) => r.counted(),
            None => true,
        }
    }
}

/// A node of a hash tree. Leaves and inner nodes share this one type.
#[derive(Debug)]
pub struct Node {
    left: Option<Box<Node>>,
    right: Option<Box<Node>>,
    value: String,
    content: String,
    is_copied: bool,
    height: usize,
    leave_count: usize,
}

/// The model of a node, by recursion over its children.
pub closed spec fn model_of(node: Node) -> NodeView
    decreases node,
{
    NodeView {
        left: match node.left {
            Some(l) => Some(Box::new(model_of(*l))),
            None => None,
        },
        right: match node.right {
            Some(r) => Some(Box::new(model_of(*r))),
            None => None,
        },
        digest: node.value@,
        payload: node.content@,
        is_padding: node.is_copied,
        height: node.height as nat,
        leave_count: node.leave_count as nat,
    }
}

/// The model of an optional child.
pub open spec fn child_view(child: Option<Box<Node>>) -> Option<Box<NodeView>> {
    match child {
        Some(node) => Some(Box::new(model_of(*node))),
        None => None,
    }
}

/// The height and the leaf-slot count of a node are machine integers.
pub proof fn lemma_model_fits(node: Node)
    ensures
        node@.height <= usize::MAX,
        node@.leave_count <= usize::MAX,
{
}

impl View for Node {
    type V = NodeView;

    open spec fn view(&self) -> NodeView {
        model_of(*self)
    }
}

impl Clone for Node {
    /// A copy of this node and of everything below it, equal to it in every
    /// field.
    fn clone(&self) -> (res: Node)
        ensures
            res == *self,
        decreases self,
    {
        proof {
            use_type_invariant(self);
        }
        let left = match &self.left {
            Some(node) => Some(Box::new((**node).clone())),
            None => None,
        };
        let right = match &self.right {
            Some(node) => Some(Box::new((**node).clone())),
            None => None,
        };
        Node {
            left,
            right,
            value: self.value.clone(),
            content: self.content.clone(),
            is_copied: self.is_copied,
            height: self.height,
            leave_count: self.leave_count,
        }
    }
}

impl Node {
    /// Every node that exists spans as many leaf slots as its children give.
    #[verifier::type_invariant]
    pub open spec fn counts_hold(self) -> bool {
        self@.counted()
    }

    /// Makes a node from its parts. The leaf-slot count is not given: it
    /// follows from the children.
    pub fn new(
        left: Option<Box<Node>>,
        right: Option<Box<Node>>,
        value: String,
        content: String,
        is_copied: bool,
        height: usize,
    ) -> (node: Node)
        requires
            child_view(left) is Some && child_view(right) is Some ==> child_view(
                left,
            ).unwrap().leave_count + child_view(right).unwrap().leave_count <= usize::MAX,
        ensures
            node@ == (NodeView {
                left: child_view(left),
                right: child_view(right),
                digest: value@,
                payload: content@,
                is_padding: is_copied,
                height: height as nat,
                leave_count: NodeView::slots_below(child_view(left), child_view(right)),
            }),
            node@.counted(),
    {
        let leave_count = match (&left, &right) {
            (Some(l), Some(r)) => {
                proof {
                    use_type_invariant(&**l);
                    use_type_invariant(&**r);
                }
                l.leave_count + r.leave_count
            },
            (Some(l), None) => {
                proof {
                    use_type_invariant(&**l);
                }
                l.leave_count
            },
            (None, Some(r)) => {
                proof {
                    use_type_invariant(&**r);
                }
                r.leave_count
            },
            _ => 1,
        };
        Node { left, right, value, content, is_copied, height, leave_count }
    }

    /// The digest of a text: SHA-256 over its UTF-8 bytes, in lowercase
    /// hexadecimal.
    pub fn hash(value: &str) -> (digest: String)
        ensures
            digest@ == digest_of(value@),
    {
        let bytes = sha256(value.as_bytes());
        hex_encode(bytes.as_slice())
    }

    /// The parent of two subtrees.
    pub fn join(left: Node, right: Node) -> (node: Node)
        requires
            left@.height < usize::MAX,
            left@.leave_count + right@.leave_count <= usize::MAX,
        ensures
            node@ == NodeView::parent(left@, right@),
    {
        proof {
            reveal_strlit("+");
        }
        let value = Node::hash(left.value.clone().concat(right.value.as_str()).as_str());
        let content = left.content.clone().concat("+").concat(right.content.as_str());
        let height = left.height + 1;
        assert(content@ =~= left@.payload + seq!['+'] + right@.payload);
        Node::new(Some(Box::new(left)), Some(Box::new(right)), value, content, false, height)
    }

    /// The digest.
    pub fn value(&self) -> (digest: &String)
        ensures
            digest@ == self@.digest,
    {
        &self.value
    }

    /// The trace of the items below this node.
    pub fn content(&self) -> (payload: &String)
        ensures
            payload@ == self@.payload,
    {
        &self.content
    }

    /// Whether this node was made to fill an odd level.
    pub fn is_copied(&self) -> (padding: bool)
        ensures
            padding == self@.is_padding,
    {
        self.is_copied
    }

    /// The height: 0 for a leaf.
    pub fn height(&self) -> (height: usize)
        ensures
            height == self@.height,
    {
        self.height
    }

    /// The number of leaf slots below this node, padding included.
    pub fn leave_count(&self) -> (count: usize)
        ensures
            count == self@.leave_count,
    {
        self.leave_count
    }

    /// The left child.
    pub fn left(&self) -> (child: Option<&Node>)
        ensures
            match child {
                Some(node) => self@.left == Some(Box::new(node@)),
                None => self@.left is None,
            },
    {
        match &self.left {
            Some(node) => Some(&**node),
            None => None,
        }
    }

    /// The right child.
    pub fn right(&self) -> (child: Option<&Node>)
        ensures
            match child {
                Some(node) => self@.right == Some(Box::new(node@)),
                None => self@.right is None,
            },
    {
        match &self.right {
            Some(node) => Some(&**node),
            None => None,
        }
    }

    /// A copy of this node and of everything below it, marked as padding.
    pub fn copy(&self) -> (node: Node)
        ensures
            node@ == self@.as_padding(),
    {
        proof {
            use_type_invariant(self);
        }
        let twin = self.clone();
        Node {
            left: twin.left,
            right: twin.right,
            value: twin.value,
            content: twin.content,
            is_copied: true,
            height: twin.height,
            leave_count: twin.leave_count,
        }
    }
}

} // verus!
