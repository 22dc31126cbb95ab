use vstd::prelude::*;

use tokio_util::sync::CancellationToken;

use crate::base::Executable;
use crate::context::Context;
use crate::outside::share_token;

verus! {

/// A live position in a procedure. Cursors live in the scheduler and refer
/// to their procedure, parent and children by index.
pub struct Cursor {
    pub id: String,
    /// Index of the procedure in the scheduler.
    pub procedure: usize,
    pub context: Context,
    pub current: Executable,
    pub parent: Option<usize>,
    /// The cursors of the pending fan-out, in order.
    pub children: Vec<usize>,
    pub is_complete: bool,
    /// The fan-out has joined: the next step continues from `current`.
    pub resume: bool,
    /// What the last fan-out spawned, in order.
    pub fanned: Vec<Executable>,
    /// A pending `Wait`: where to go, and when.
    pub waiting: Option<(Executable, tokio::time::Instant)>,
    pub cancel: CancellationToken,
}

impl Cursor {
    pub fn id(&self) -> (r: &str)
        ensures
            r@ == self.id@,
    {
        self.id.as_str()
    }

    pub fn context(&self) -> (r: &Context)
        ensures
            r == &self.context,
    {
        &self.context
    }

    /// The index of the procedure in the scheduler.
    pub fn procedure(&self) -> (r: usize)
        ensures
            r == self.procedure,
    {
        self.procedure
    }

    pub fn current(&self) -> (r: &Executable)
        ensures
            r == &self.current,
    {
        &self.current
    }

    pub fn set_current(&mut self, current: Executable)
        ensures
            final(self).current == current,
            final(self).id == old(self).id,
            final(self).procedure == old(self).procedure,
            final(self).context == old(self).context,
            final(self).parent == old(self).parent,
            final(self).children == old(self).children,
            final(self).is_complete == old(self).is_complete,
            final(self).resume == old(self).resume,
            final(self).fanned == old(self).fanned,
            final(self).waiting == old(self).waiting,
            final(self).cancel == old(self).cancel,
    {
        self.current = current;
    }

    /// The index of the parent cursor, if any.
    pub fn parent(&self) -> (r: Option<usize>)
        ensures
            r == self.parent,
    {
        self.parent
    }

    pub fn is_complete(&self) -> (r: bool)
        ensures
            r == self.is_complete,
    {
        self.is_complete
    }

    /// A handle to the cursor's cancellation token, for awaiting it.
    pub fn signals(&self) -> CancellationToken {
        share_token(&self.cancel)
    }
}

} // verus!
