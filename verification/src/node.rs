use crate::tree::Tree;
use vstd::prelude::*;

verus! {

/// What a leaf and an internal node have in common.
pub trait HuffBaseNode: View<V = Tree> {
    /// Whether the node is a leaf.
    fn is_leaf(&self) -> (leaf: bool)
        ensures
            leaf == (self@ is Leaf),
    ;

    /// The weight of the node.
    fn weight(&self) -> (weight: u64)
        ensures
            weight == self@.weight(),
    ;
}

/// A symbol with its frequency.
pub struct HuffLeafNode {
    element: char,
    weight: u64,
}

/// Two subtrees under one weight.
pub struct HuffInternalNode {
    left: Box<HuffNode>,
    right: Box<HuffNode>,
    weight: u64,
}

/// A node of either kind.
pub enum HuffNode {
    Leaf(HuffLeafNode),
    Internal(HuffInternalNode),
}

impl HuffNode {
    /// The tree that a node and all below it stand for.
    pub closed spec fn tree(&self) -> Tree
        decreases self,
    {
        match self {
            HuffNode::Leaf(leaf) => Tree::Leaf { symbol: leaf.element, weight: leaf.weight as nat },
            HuffNode::Internal(node) => Tree::Node {
                left: Box::new(node.left.tree()),
                right: Box::new(node.right.tree()),
                weight: node.weight as nat,
            },
        }
    }
}

impl View for HuffLeafNode {
    type V = Tree;

    closed spec fn view(&self) -> Tree {
        Tree::Leaf { symbol: self.element, weight: self.weight as nat }
    }
}

impl View for HuffInternalNode {
    type V = Tree;

    closed spec fn view(&self) -> Tree {
        Tree::Node {
            left: Box::new(self.left.tree()),
            right: Box::new(self.right.tree()),
            weight: self.weight as nat,
        }
    }
}

impl View for HuffNode {
    type V = Tree;

    closed spec fn view(&self) -> Tree {
        self.tree()
    }
}

impl HuffLeafNode {
    /// A leaf for `element` with the weight `weight`.
    pub fn new(element: char, weight: u64) -> (leaf: HuffLeafNode)
        ensures
            leaf@ == (Tree::Leaf { symbol: element, weight: weight as nat }),
    {
        HuffLeafNode { element, weight }
    }

    /// The symbol of the leaf.
    pub fn value(&self) -> (symbol: char)
        ensures
            self@ == (Tree::Leaf { symbol, weight: self@.weight() }),
    {
        self.element
    }
}

impl HuffBaseNode for HuffLeafNode {
    fn is_leaf(&self) -> (leaf: bool) {
        true
    }

    fn weight(&self) -> (weight: u64) {
        self.weight
    }
}

impl HuffInternalNode {
    /// A node over `left` and `right` with the weight `weight`, which
    /// need not be the sum of theirs: the tree builder sees to that.
    pub fn new(left: HuffNode, right: HuffNode, weight: u64) -> (node: HuffInternalNode)
        ensures
            node@ == (Tree::Node {
                left: Box::new(left@),
                right: Box::new(right@),
                weight: weight as nat,
            }),
    {
        HuffInternalNode { left: Box::new(left), right: Box::new(right), weight }
    }

    /// The child to the left.
    pub fn left(&self) -> (child: &HuffNode)
        ensures
            self@ is Node,
            child@ == *self@->left,
    {
        &*self.left
    }

    /// The child to the right.
    pub fn right(&self) -> (child: &HuffNode)
        ensures
            self@ is Node,
            child@ == *self@->right,
    {
        &*self.right
    }
}

impl HuffBaseNode for HuffInternalNode {
    fn is_leaf(&self) -> (leaf: bool) {
        false
    }

    fn weight(&self) -> (weight: u64) {
        self.weight
    }
}

impl HuffNode {
    /// A leaf as a node.
    pub fn leaf(leaf: HuffLeafNode) -> (node: HuffNode)
        ensures
            node@ == leaf@,
    {
        HuffNode::Leaf(leaf)
    }

    /// An internal node as a node.
    pub fn internal(inner: HuffInternalNode) -> (node: HuffNode)
        ensures
            node@ == inner@,
    {
        HuffNode::Internal(inner)
    }

    /// The leaf that this node is, if it is one.
    pub fn as_leaf(&self) -> (leaf: Option<&HuffLeafNode>)
        ensures
            leaf is Some <==> self@ is Leaf,
            leaf is Some ==> leaf.unwrap()@ == self@,
    {
        match self {
            HuffNode::Leaf(leaf) => Some(leaf),
            HuffNode::Internal(_) => None,
        }
    }

    /// The internal node that this node is, if it is one.
    pub fn as_internal(&self) -> (node: Option<&HuffInternalNode>)
        ensures
            node is Some <==> self@ is Node,
            node is Some ==> node.unwrap()@ == self@,
    {
        match self {
            HuffNode::Leaf(_) => None,
            HuffNode::Internal(node) => Some(node),
        }
    }
}

impl HuffBaseNode for HuffNode {
    fn is_leaf(&self) -> (leaf: bool) {
        match self {
            HuffNode::Leaf(leaf) => leaf.is_leaf(),
            HuffNode::Internal(node) => node.is_leaf(),
        }
    }

    fn weight(&self) -> (weight: u64) {
        match self {
            HuffNode::Leaf(leaf) => leaf.weight(),
            HuffNode::Internal(node) => node.weight(),
        }
    }
}

/// A node as the tree builder's queue holds it.
pub struct BoxedHuffNode {
    pub inner: HuffNode,
}

impl View for BoxedHuffNode {
    type V = Tree;

    open spec fn view(&self) -> Tree {
        self.inner@
    }
}

impl BoxedHuffNode {
    /// The node `inner` for the queue.
    pub fn new(inner: HuffNode) -> (node: BoxedHuffNode)
        ensures
            node.inner == inner,
    {
        BoxedHuffNode { inner }
    }

    /// The weight of the node.
    pub fn weight(&self) -> (weight: u64)
        ensures
            weight == self@.weight(),
    {
        self.inner.weight()
    }

    /// Whether the node is a leaf.
    pub fn is_leaf(&self) -> (leaf: bool)
        ensures
            leaf == (self@ is Leaf),
    {
        self.inner.is_leaf()
    }
}

} // verus!
