use vstd::prelude::*;

use crate::base::Executable;

verus! {

/// A vertex of a procedure, carrying a script.
#[derive(Debug)]
pub struct Node {
    pub name: String,
    pub script: String,
    pub incomings: Vec<Executable>,
    /// Ordered: the order decides selection and fan-out order.
    pub outgoings: Vec<Executable>,
}

} // verus!
