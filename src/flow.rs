use vstd::prelude::*;

use crate::base::Next;

verus! {

/// An edge of a procedure. Its ends are indices into the procedure's nodes.
#[derive(Debug, Clone)]
pub struct Flow {
    pub name: String,
    pub source_node: usize,
    pub target_node: usize,
    /// Condition script; an empty text always holds.
    pub condition: String,
    pub script: String,
}

impl Flow {
    /// Whether the flow carries a condition that the script host must evaluate.
    pub fn has_condition(&self) -> (r: bool)
        ensures
            r == (self.condition@.len() > 0),
    {
        !self.condition.as_str().is_empty()
    }

    /// The directive of running the flow: along the edge when its condition
    /// holds, else the cursor completes.
    pub fn execute(&self, condition_holds: bool) -> (r: Next)
        ensures
            condition_holds ==> r is Continue,
            !condition_holds ==> r is Complete,
    {
        if condition_holds {
            Next::Continue
        } else {
            Next::Complete
        }
    }
}

} // verus!
