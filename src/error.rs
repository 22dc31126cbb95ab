use vstd::prelude::*;

verus! {

/// The errors of the engine.
#[derive(Debug, Clone, PartialEq, Eq)]
pub enum Error {
    /// A referenced entity is no longer live, or a cursor was cancelled.
    Canceled,
    /// No node or flow of the procedure has the name.
    NotFound { procedure: String, name: String },
    /// A node that needs a successor has none.
    NoNextNode { procedure: String, node: String },
    /// The script host failed.
    ScriptFailed { reason: String },
}

} // verus!
