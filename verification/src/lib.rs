//! A red-black tree: an ordered collection with insertion, lookup and removal in logarithmic
//! time.
//!
//! [`RedBlackTree`] is the collection. Its contracts speak of the multiset of its elements,
//! of their in-order sequence and of the shape of the tree; the modules below hold the parts
//! it is made of, each with the exact shape that it leaves.
//!
//! - [`order`]: what is asked of the comparison of the elements.
//! - [`sorted`]: ascending sequences, and one insertion or removal in them.
//! - [`node`]: nodes and links, their measures and the coloring rules.
//! - [`paths`]: the coloring rules read along paths.
//! - [`rotate`]: the two rotations.
//! - [`insert`], [`remove`], [`search`]: the three operations on subtrees.
//! - [`inspect`]: walks that measure a subtree or hold it to the rules.
//! - [`tree`]: the collection itself and the laws that hold of it.

pub mod insert;
pub mod inspect;
pub mod node;
pub mod order;
pub mod paths;
pub mod remove;
pub mod rotate;
pub mod search;
pub mod sorted;
pub mod tree;

pub use tree::RedBlackTree;
