use vstd::prelude::*;

use crate::state::{State, Variant};

verus! {

/// The directive a script asked for. A target is recorded by name and
/// resolved against the procedure when the script is applied.
#[derive(Debug)]
pub enum Request {
    Null,
    Continue,
    One(String),
    Complete,
    Bubble,
}

/// The single-slot mailbox a script writes to while it runs, with the state
/// it works on. The last request wins; none leaves `Null`.
pub struct Script {
    pub state: State,
    pub request: Request,
}

impl Script {
    /// A script over `state` that has requested nothing.
    pub fn new(state: State) -> (r: Script)
        ensures
            r.state == state,
            r.request is Null,
    {
        Script { state, request: Request::Null }
    }

    pub fn set_continue(&mut self)
        ensures
            final(self).request is Continue,
            final(self).state == old(self).state,
    {
        self.request = Request::Continue;
    }

    /// Requests a move to the node or flow called `name`.
    pub fn set_one(&mut self, name: String)
        ensures
            final(self).request == Request::One(name),
            final(self).state == old(self).state,
    {
        self.request = Request::One(name);
    }

    pub fn set_complete(&mut self)
        ensures
            final(self).request is Complete,
            final(self).state == old(self).state,
    {
        self.request = Request::Complete;
    }

    pub fn set_bubble(&mut self)
        ensures
            final(self).request is Bubble,
            final(self).state == old(self).state,
    {
        self.request = Request::Bubble;
    }

    /// Binds `key` to `value` in the script's state.
    pub fn set_state(&mut self, key: String, value: Variant)
        requires
            old(self).state.wf(),
        ensures
            final(self).state.wf(),
            final(self).state@ == old(self).state@.insert(key@, value.value()),
            final(self).request == old(self).request,
    {
        self.state.set(key, value);
    }
}

} // verus!
