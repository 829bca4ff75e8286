//! The size-balanced tree: its mathematical model, the way an arena holds it,
//! and the engine that attaches and detaches handles.
//!
//! [`shape`] is the model: a tree of handles with the rotations and the
//! attach and detach procedures as functions on it. [`node`] and [`layout`]
//! say what an arena is and when it holds a tree. [`tree`] has the accessors
//! and primitives of an arena, [`no_recur`] the engine, and [`laws`] what
//! holds of it whatever the input. [`szb_tree`] and [`no_recur_szb_tree`]
//! offer both to callers that name handles by raw numbers with zero for none.
//! The other modules carry the proof of the engine.

mod attach;
mod detach;
pub mod laws;
pub mod layout;
pub mod leaf;
mod moves;
pub mod no_recur;
pub mod no_recur_szb_tree;
pub mod node;
mod path;
pub mod shape;
pub mod szb_tree;
pub mod tree;
mod walk;
