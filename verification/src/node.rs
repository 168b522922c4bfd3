//! The tree node: a color tag, one key/value pair, and owned child subtrees.

use vstd::prelude::*;

verus! {

/// The binary color tag carried by every node.
#[derive(Clone, Copy, Debug, PartialEq, Eq, Structural)]
pub enum RBColor {
    Red,
    Black,
}

/// An optional owned subtree.  A node exclusively owns its children; parent
/// relationships are never stored, so ownership is strictly hierarchical.
pub type OptNode<V> = Option<Box<RBNode<V>>>;

/// One node of the tree: a color, a key, the stored value, and the two
/// owned child subtrees.
pub struct RBNode<V> {
    pub color: RBColor,
    pub key: u64,
    pub value: V,
    pub left_child: OptNode<V>,
    pub right_child: OptNode<V>,
}

impl<V> RBNode<V> {
    /// A fresh black node with no children, as used for a new root.
    pub fn new(key: u64, value: V) -> (r: Self)
        ensures
            r == (RBNode {
                color: RBColor::Black,
                key,
                value,
                left_child: None::<Box<RBNode<V>>>,
                right_child: None::<Box<RBNode<V>>>,
            }),
    {
        RBNode::with_color(RBColor::Black, key, value)
    }

    /// A fresh node of the given color with no children.
    pub fn with_color(color: RBColor, key: u64, value: V) -> (r: Self)
        ensures
            r == (RBNode {
                color,
                key,
                value,
                left_child: None::<Box<RBNode<V>>>,
                right_child: None::<Box<RBNode<V>>>,
            }),
    {
        RBNode { color, key, value, left_child: None, right_child: None }
    }

    /// Overwrites the node's color tag and nothing else.
    pub fn set_color(&mut self, color: RBColor)
        ensures
            *final(self) == (RBNode { color, ..*old(self) }),
    {
        self.color = color;
    }
}

} // verus!
