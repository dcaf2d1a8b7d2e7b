//! A best-first chess exploration engine: it grows a tree of positions one
//! node at a time, choosing the node by an interest score, and reads an
//! evaluation and a preferred move off the grown tree by minimax.
//!
//! The rules of chess are not part of this crate. A position is a record of
//! what the engine reads of it, and the positions that follow from one are
//! handed to the engine by its caller.

pub mod arrange;
pub mod attack;
pub mod board;
pub mod chess;
pub mod choice;
pub mod control;
pub mod engine;
pub mod entry;
pub mod eval;
pub mod expansion;
pub mod features;
pub mod fitting;
pub mod frontier;
pub mod heap;
pub mod interest;
pub mod minimax;
pub mod score;
pub mod static_eval;
pub mod text;
pub mod tree;
pub mod tree_laws;
pub mod weights;
