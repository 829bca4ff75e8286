//! Ordered indexes over flat, fixed-capacity arenas.
//!
//! The centre of the crate is a size-balanced binary search tree whose nodes
//! live in the slots of an arena and refer to each other by slot index. A
//! handle is the index of a slot and at the same time the key by which the
//! tree is ordered. A tree is nothing but a root handle that the caller
//! keeps and that is read against an arena; several trees can live in one
//! arena as long as no handle is in two of them.
//!
//! Every operation is stated against the mathematical tree,
//! [`trees::shape::Shape`], that the arena holds at the root
//! ([`trees::layout::shape_of`]): attaching gives the tree
//! [`Shape::attached`](trees::shape::Shape::attached), detaching gives
//! [`Shape::detached`](trees::shape::Shape::detached), and no slot outside
//! the tree is touched.
//!
//! - [`New`] is the arena; [`BTree`] is the interface under which a tree in it
//!   is used.
//! - [`Tree`] has the accessors and primitives of an arena, [`NoRecur`] the
//!   engine on it.
//! - [`SzbTree`] and [`NoRecurSzbTree`] offer the same to callers that name
//!   handles by raw numbers, with zero for no handle.
//! - [`LinkType`] and [`Leaf`] say what the integer types are as handles.
//! - [`trees::laws`] has what holds of the engine whatever it is given.

pub mod link_type;
pub mod store;
pub mod trees;

pub use link_type::LinkType;
pub use store::{BTree, New};
pub use trees::leaf::Leaf;
pub use trees::no_recur::NoRecur;
pub use trees::no_recur_szb_tree::NoRecurSzbTree;
pub use trees::node::Node;
pub use trees::szb_tree::SzbTree;
pub use trees::tree::Tree;
