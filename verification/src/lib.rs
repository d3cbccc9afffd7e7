//! Alias and mutation analysis for a single function body.
//!
//! A body is a control-flow graph of instructions over typed places. The
//! alias engine turns the region-subset facts of the borrow checker into a
//! points-to relation and answers alias, conflict and reachability queries;
//! the mutation visitor describes, per instruction, what is written and from
//! which inputs.

pub mod aliases;
pub mod body;
pub mod components;
pub mod config;
pub mod constraints;
pub mod domain;
pub mod extensions;
pub mod graph;
pub mod interior;
pub mod laws;
pub mod loans;
pub mod memo;
pub mod mutation;
pub mod order;
pub mod place;
pub mod propagate;
pub mod queries;
pub mod sums;
