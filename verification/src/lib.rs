//! An ordered map backed by a red-black binary search tree.
//!
//! The map stores one value per unique `u64` key and supports insertion with
//! replace-on-duplicate semantics and point lookup.  After every completed
//! insert the tree satisfies the red-black invariants — binary-search order,
//! no red node with a red child, equal black counts on every root-to-nil
//! path, and a black root — which bound its height logarithmically in the
//! number of keys.

pub mod node;
pub mod model;
pub mod search;
pub mod insert;
pub mod tree;
pub mod lemmas;

pub use node::RBColor;
pub use node::RBNode;
pub use tree::RBTree;
