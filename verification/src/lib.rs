//! A behavior-tree engine over an arena of nodes.
//!
//! Leaves report progress through a [`leaf::LeafNodeResult`]; control nodes
//! carry an evaluator that the per-tick driver in [`tick`] runs bottom-up,
//! starting from the active frontier of each tree.
//!
//! - [`node`], [`world`]: what a node carries, and the arena that holds the
//!   trees, the registry of evaluators and the frame time.
//! - [`sequence`], [`time_limit`]: the two control nodes.
//! - [`dispatch`], [`tick`]: running an evaluator, and the walk of one tick.
//! - [`target`]: the entity that a tree decides for.
//! - [`whole_tick`]: what one tick makes of a tree with one active path.
//! - [`paths`], [`order`], [`order_steps`], [`order_walk`]: the shape of the
//!   active part of a tree, and why an evaluation keeps it.
//! - [`alike`]: worlds that differ only in what evaluator slots hold.
//! - [`time`]: spans of time and the countdown behind a deadline.

pub mod alike;
pub mod dispatch;
pub mod leaf;
pub mod node;
pub mod order;
pub mod order_steps;
pub mod order_walk;
pub mod paths;
pub mod sequence;
pub mod target;
pub mod tick;
pub mod time;
pub mod time_limit;
pub mod whole_tick;
pub mod world;
