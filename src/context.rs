use vstd::prelude::*;

use crate::state::State;

verus! {

/// What a cursor carries besides its position.
pub struct Context {
    pub state: State,
}

impl Context {
    /// A context with an empty state.
    pub fn new() -> (r: Context)
        ensures
            r.state.wf(),
            r.state@ == Map::<Seq<char>, crate::state::Value>::empty(),
    {
        Context { state: State::new() }
    }

    /// An independent copy.
    pub fn snapshot(&self) -> (r: Context)
        requires
            self.state.wf(),
        ensures
            r.state.wf(),
            r.state@ == self.state@,
    {
        Context { state: self.state.snapshot() }
    }
}

} // verus!
