use vstd::prelude::*;

use std::time::Duration;

use crate::cursor::Cursor;
use crate::error::Error;
use crate::flow::Flow;

verus! {

/// A node form whose links own their ends.
pub struct Task {
    pub name: String,
    pub script: String,
    pub incomings: Vec<Port>,
    pub outgoings: Vec<Port>,
}

/// An end of a task's link.
pub enum Port {
    Task(Task),
    Flow(Flow),
}

/// The directives of the task form.
pub enum Operation {
    /// Move to the next task.
    Next,
    /// Move to the given port.
    One(Port),
    /// Start several ports in parallel, one child cursor each.
    Parallel(Vec<Port>),
    /// Select the first port that is ready.
    Select(Vec<Port>),
    /// Wait for the duration, then move to the port.
    Wait(Port, Duration),
    /// Terminate the cursor.
    Complete,
    /// Terminate the cursor and its parent.
    Bubble,
}

impl Task {
    /// A task runs no script of its own: the cursor is left as it is.
    pub fn execute(&self, cursor: &mut Cursor) -> (r: Result<(), Error>)
        ensures
            r is Ok,
            *final(cursor) == *old(cursor),
    {
        Ok(())
    }
}

} // verus!
