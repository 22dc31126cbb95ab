//! A procedure execution engine: procedures are graphs of nodes and flows,
//! cursors walk them, and a scheduler turns the directives that scripts emit
//! into changes of the cursor tree.
//!
//! Policies where the model leaves a choice:
//! - a procedure starts on its first node without incomings, else on its
//!   first node;
//! - `Continue` over several outgoings that are all flows races them as a
//!   selection; any other several outgoings fan out in parallel;
//! - `Continue` without outgoings completes the cursor silently;
//! - a selection is won by the first flow, in order, whose condition holds.
pub mod base;
pub mod context;
pub mod cursor;
pub mod error;
pub mod flow;
pub mod node;
mod outside;
pub mod procedure;
pub mod scheduler;
pub mod script;
pub mod state;
pub mod task;
