use vstd::prelude::*;

use crate::base::{lemma_targets_push, targets, Executable, Next, Target};
use crate::error::Error;
use crate::flow::Flow;
use crate::node::Node;

verus! {

/// A procedure: a named graph of nodes and flows, each kept in declaration
/// order. Nodes and flows refer to each other by index.
#[derive(Debug)]
pub struct Procedure {
    pub name: String,
    pub nodes: Vec<Node>,
    pub flows: Vec<Flow>,
}

/// Whether some node is called `name`.
pub open spec fn has_node(p: Procedure, name: Seq<char>) -> bool {
    exists|i: int| 0 <= i < p.nodes@.len() && (#[trigger] p.nodes@[i]).name@ == name
}

/// Whether some flow is called `name`.
pub open spec fn has_flow(p: Procedure, name: Seq<char>) -> bool {
    exists|i: int| 0 <= i < p.flows@.len() && (#[trigger] p.flows@[i]).name@ == name
}

/// Whether an executable refers only to entities that exist in `p`.
pub open spec fn refers_within(e: Target, p: Procedure) -> bool {
    match e {
        Target::Node(i) => i < p.nodes@.len(),
        Target::Flow(i) => i < p.flows@.len(),
        Target::Procedure => true,
        Target::Selection(fs) => forall|k: int| 0 <= k < fs.len() ==> fs[k] < p.flows@.len(),
    }
}

/// Whether node `i` is where a cursor entering the procedure starts: the
/// first node without incomings in declaration order, else the first node.
pub open spec fn is_start(p: Procedure, i: usize) -> bool {
    &&& i < p.nodes@.len()
    &&& forall|j: int| 0 <= j < i ==> (#[trigger] p.nodes@[j]).incomings@.len() != 0
    &&& (p.nodes@[i as int].incomings@.len() == 0 || (i == 0 && forall|j: int|
        0 <= j < p.nodes@.len() ==> (#[trigger] p.nodes@[j]).incomings@.len() != 0))
}

impl Procedure {
    /// Names are unique among nodes and among flows, and every reference
    /// points inside the procedure.
    pub open spec fn wf(&self) -> bool {
        &&& forall|i: int, j: int|
            0 <= i < j < self.nodes@.len() ==> (#[trigger] self.nodes@[i]).name@
                != (#[trigger] self.nodes@[j]).name@
        &&& forall|i: int, j: int|
            0 <= i < j < self.flows@.len() ==> (#[trigger] self.flows@[i]).name@
                != (#[trigger] self.flows@[j]).name@
        &&& forall|i: int|
            0 <= i < self.flows@.len() ==> (#[trigger] self.flows@[i]).source_node
                < self.nodes@.len() && self.flows@[i].target_node < self.nodes@.len()
        &&& forall|i: int, k: int|
            0 <= i < self.nodes@.len() && 0 <= k < self.nodes@[i].outgoings@.len()
                ==> refers_within(#[trigger] self.nodes@[i].outgoings@[k]@, *self)
        &&& forall|i: int, k: int|
            0 <= i < self.nodes@.len() && 0 <= k < self.nodes@[i].incomings@.len()
                ==> refers_within(#[trigger] self.nodes@[i].incomings@[k]@, *self)
    }

    /// An empty procedure.
    pub fn new(name: String) -> (r: Procedure)
        ensures
            r.name == name,
            r.nodes@.len() == 0,
            r.flows@.len() == 0,
            r.wf(),
    {
        Procedure { name, nodes: Vec::new(), flows: Vec::new() }
    }

    /// The index of the node called `name`, if any.
    pub fn node_index(&self, name: &String) -> (r: Option<usize>)
        requires
            self.wf(),
        ensures
            r is Some <==> has_node(*self, name@),
            r matches Some(i) ==> i < self.nodes@.len() && self.nodes@[i as int].name@ == name@,
    {
        let mut i: usize = 0;
        while i < self.nodes.len()
            invariant
                i <= self.nodes@.len(),
                forall|j: int| 0 <= j < i ==> (#[trigger] self.nodes@[j]).name@ != name@,
            decreases self.nodes.len() - i,
        {
            if self.nodes[i].name == *name {
                return Some(i);
            }
            i += 1;
        }
        None
    }

    /// The index of the flow called `name`, if any.
    pub fn flow_index(&self, name: &String) -> (r: Option<usize>)
        requires
            self.wf(),
        ensures
            r is Some <==> has_flow(*self, name@),
            r matches Some(i) ==> i < self.flows@.len() && self.flows@[i as int].name@ == name@,
    {
        let mut i: usize = 0;
        while i < self.flows.len()
            invariant
                i <= self.flows@.len(),
                forall|j: int| 0 <= j < i ==> (#[trigger] self.flows@[j]).name@ != name@,
            decreases self.flows.len() - i,
        {
            if self.flows[i].name == *name {
                return Some(i);
            }
            i += 1;
        }
        None
    }

    /// Finds the node, else the flow, called `name`.
    pub fn find(&self, name: &str) -> (r: Result<Executable, Error>)
        requires
            self.wf(),
        ensures
            has_node(*self, name@) ==> (r matches Ok(Executable::Node(i)) && i
                < self.nodes@.len() && self.nodes@[i as int].name@ == name@),
            !has_node(*self, name@) && has_flow(*self, name@) ==> (r matches Ok(
                Executable::Flow(i),
            ) && i < self.flows@.len() && self.flows@[i as int].name@ == name@),
            !has_node(*self, name@) && !has_flow(*self, name@) ==> (r matches Err(
                Error::NotFound { procedure, name: missing },
            ) && procedure@ == self.name@ && missing@ == name@),
    {
        let key = name.to_owned();
        match self.node_index(&key) {
            Some(i) => Ok(Executable::Node(i)),
            None => match self.flow_index(&key) {
                Some(j) => Ok(Executable::Flow(j)),
                None => Err(Error::NotFound { procedure: self.name.clone(), name: key }),
            },
        }
    }

    /// Appends a node without links. Refused (`None`) when the name is taken.
    pub fn add_node(&mut self, name: String, script: String) -> (r: Option<usize>)
        requires
            old(self).wf(),
        ensures
            final(self).wf(),
            final(self).name == old(self).name,
            final(self).flows@ == old(self).flows@,
            has_node(*old(self), name@) ==> r is None && *final(self) == *old(self),
            !has_node(*old(self), name@) ==> r == Some(old(self).nodes@.len() as usize)
                && final(self).nodes@.len() == old(self).nodes@.len() + 1
                && final(self).nodes@.drop_last() == old(self).nodes@
                && final(self).nodes@.last().name == name
                && final(self).nodes@.last().script == script
                && final(self).nodes@.last().incomings@.len() == 0
                && final(self).nodes@.last().outgoings@.len() == 0,
    {
        if self.node_index(&name).is_some() {
            return None;
        }
        let idx = self.nodes.len();
        let node = Node { name, script, incomings: Vec::new(), outgoings: Vec::new() };
        self.nodes.push(node);
        assert(self.nodes@.drop_last() =~= old(self).nodes@);
        assert forall|i: int, k: int|
            0 <= i < self.nodes@.len() && 0 <= k < self.nodes@[i].outgoings@.len() implies refers_within(
            #[trigger] self.nodes@[i].outgoings@[k]@,
            *self,
        ) by {
            assert(refers_within(old(self).nodes@[i].outgoings@[k]@, *old(self)));
        }
        assert forall|i: int, k: int|
            0 <= i < self.nodes@.len() && 0 <= k < self.nodes@[i].incomings@.len() implies refers_within(
            #[trigger] self.nodes@[i].incomings@[k]@,
            *self,
        ) by {
            assert(refers_within(old(self).nodes@[i].incomings@[k]@, *old(self)));
        }
        Some(idx)
    }

    /// Appends `e` to the outgoings of node `i`.
    fn push_outgoing(&mut self, i: usize, e: Executable)
        requires
            old(self).wf(),
            i < old(self).nodes@.len(),
            refers_within(e@, *old(self)),
        ensures
            final(self).wf(),
            final(self).name == old(self).name,
            final(self).flows@ == old(self).flows@,
            final(self).nodes@.len() == old(self).nodes@.len(),
            forall|j: int|
                0 <= j < final(self).nodes@.len() && j != i ==> #[trigger] final(self).nodes@[j]
                    == old(self).nodes@[j],
            final(self).nodes@[i as int].name == old(self).nodes@[i as int].name,
            final(self).nodes@[i as int].incomings@ == old(self).nodes@[i as int].incomings@,
            final(self).nodes@[i as int].outgoings@ == old(self).nodes@[i as int].outgoings@.push(e),
    {
        let mut node = self.nodes.remove(i);
        node.outgoings.push(e);
        self.nodes.insert(i, node);
        assert(self.nodes@ =~= old(self).nodes@.update(i as int, node));
        assert forall|a: int, k: int|
            0 <= a < self.nodes@.len() && 0 <= k < self.nodes@[a].outgoings@.len() implies refers_within(
            #[trigger] self.nodes@[a].outgoings@[k]@,
            *self,
        ) by {
            if a != i || k < old(self).nodes@[a].outgoings@.len() {
                assert(refers_within(old(self).nodes@[a].outgoings@[k]@, *old(self)));
            }
        }
        assert forall|a: int, k: int|
            0 <= a < self.nodes@.len() && 0 <= k < self.nodes@[a].incomings@.len() implies refers_within(
            #[trigger] self.nodes@[a].incomings@[k]@,
            *self,
        ) by {
            assert(refers_within(old(self).nodes@[a].incomings@[k]@, *old(self)));
        }
    }

    /// Appends `e` to the incomings of node `i`.
    fn push_incoming(&mut self, i: usize, e: Executable)
        requires
            old(self).wf(),
            i < old(self).nodes@.len(),
            refers_within(e@, *old(self)),
        ensures
            final(self).wf(),
            final(self).name == old(self).name,
            final(self).flows@ == old(self).flows@,
            final(self).nodes@.len() == old(self).nodes@.len(),
            forall|j: int|
                0 <= j < final(self).nodes@.len() && j != i ==> #[trigger] final(self).nodes@[j]
                    == old(self).nodes@[j],
            final(self).nodes@[i as int].name == old(self).nodes@[i as int].name,
            final(self).nodes@[i as int].outgoings@ == old(self).nodes@[i as int].outgoings@,
            final(self).nodes@[i as int].incomings@ == old(self).nodes@[i as int].incomings@.push(e),
    {
        let mut node = self.nodes.remove(i);
        node.incomings.push(e);
        self.nodes.insert(i, node);
        assert(self.nodes@ =~= old(self).nodes@.update(i as int, node));
        assert forall|a: int, k: int|
            0 <= a < self.nodes@.len() && 0 <= k < self.nodes@[a].outgoings@.len() implies refers_within(
            #[trigger] self.nodes@[a].outgoings@[k]@,
            *self,
        ) by {
            assert(refers_within(old(self).nodes@[a].outgoings@[k]@, *old(self)));
        }
        assert forall|a: int, k: int|
            0 <= a < self.nodes@.len() && 0 <= k < self.nodes@[a].incomings@.len() implies refers_within(
            #[trigger] self.nodes@[a].incomings@[k]@,
            *self,
        ) by {
            if a != i || k < old(self).nodes@[a].incomings@.len() {
                assert(refers_within(old(self).nodes@[a].incomings@[k]@, *old(self)));
            }
        }
    }

    /// Makes node `to` a direct outgoing of node `from` (and `from` an
    /// incoming of `to`). Refused (`false`) when either index is out of range.
    pub fn add_link(&mut self, from: usize, to: usize) -> (r: bool)
        requires
            old(self).wf(),
        ensures
            final(self).wf(),
            final(self).name == old(self).name,
            final(self).flows@ == old(self).flows@,
            final(self).nodes@.len() == old(self).nodes@.len(),
            r == (from < old(self).nodes@.len() && to < old(self).nodes@.len()),
            !r ==> *final(self) == *old(self),
            r ==> targets(final(self).nodes@[from as int].outgoings@) == targets(
                old(self).nodes@[from as int].outgoings@,
            ).push(Target::Node(to)),
    {
        if from >= self.nodes.len() || to >= self.nodes.len() {
            return false;
        }
        self.push_outgoing(from, Executable::Node(to));
        let ghost mid = *self;
        self.push_incoming(to, Executable::Node(from));
        proof {
            lemma_targets_push(old(self).nodes@[from as int].outgoings@, Executable::Node(to));
        }
        true
    }

    /// Appends a flow from node `source` to node `target`, and records it in
    /// the source's outgoings and the target's incomings. Refused (`None`)
    /// when the name is taken or an end is out of range.
    pub fn add_flow(&mut self, name: String, source: usize, target: usize, condition: String) -> (r:
        Option<usize>)
        requires
            old(self).wf(),
        ensures
            final(self).wf(),
            final(self).name == old(self).name,
            final(self).nodes@.len() == old(self).nodes@.len(),
            r is Some <==> (!has_flow(*old(self), name@) && source < old(self).nodes@.len() && target
                < old(self).nodes@.len()),
            r is None ==> *final(self) == *old(self),
            r is Some ==> r == Some(old(self).flows@.len() as usize) && final(self).flows@.len()
                == old(self).flows@.len() + 1 && final(self).flows@.drop_last() == old(self).flows@
                && final(self).flows@.last().name == name && final(self).flows@.last().source_node
                == source && final(self).flows@.last().target_node == target
                && final(self).flows@.last().condition == condition && targets(
                final(self).nodes@[source as int].outgoings@,
            ) == targets(old(self).nodes@[source as int].outgoings@).push(
                Target::Flow(old(self).flows@.len() as usize),
            ),
    {
        if source >= self.nodes.len() || target >= self.nodes.len() || self.flow_index(
            &name,
        ).is_some() {
            return None;
        }
        let idx = self.flows.len();
        let flow = Flow { name, source_node: source, target_node: target, condition, script: String::new() };
        self.flows.push(flow);
        assert(self.flows@.drop_last() =~= old(self).flows@);
        assert forall|a: int, k: int|
            0 <= a < self.nodes@.len() && 0 <= k < self.nodes@[a].outgoings@.len() implies refers_within(
            #[trigger] self.nodes@[a].outgoings@[k]@,
            *self,
        ) by {
            assert(refers_within(old(self).nodes@[a].outgoings@[k]@, *old(self)));
        }
        assert forall|a: int, k: int|
            0 <= a < self.nodes@.len() && 0 <= k < self.nodes@[a].incomings@.len() implies refers_within(
            #[trigger] self.nodes@[a].incomings@[k]@,
            *self,
        ) by {
            assert(refers_within(old(self).nodes@[a].incomings@[k]@, *old(self)));
        }
        let ghost before = *self;
        self.push_outgoing(source, Executable::Flow(idx));
        self.push_incoming(target, Executable::Flow(idx));
        proof {
            lemma_targets_push(before.nodes@[source as int].outgoings@, Executable::Flow(idx));
        }
        Some(idx)
    }

    /// The start node; `None` for a procedure without nodes.
    pub fn start_node(&self) -> (r: Option<usize>)
        ensures
            r is None <==> self.nodes@.len() == 0,
            r matches Some(i) ==> is_start(*self, i),
    {
        let mut i: usize = 0;
        while i < self.nodes.len()
            invariant
                i <= self.nodes@.len(),
                forall|j: int| 0 <= j < i ==> (#[trigger] self.nodes@[j]).incomings@.len() != 0,
            decreases self.nodes.len() - i,
        {
            if self.nodes[i].incomings.len() == 0 {
                return Some(i);
            }
            i += 1;
        }
        if self.nodes.len() == 0 {
            None
        } else {
            Some(0)
        }
    }

    /// The directive of entering the procedure: a move to its start node; a
    /// procedure without nodes completes the cursor.
    pub fn execute(&self) -> (r: Next)
        ensures
            self.nodes@.len() == 0 ==> r is Complete,
            self.nodes@.len() > 0 ==> (r matches Next::One(Executable::Node(i)) && is_start(*self, i)),
    {
        match self.start_node() {
            Some(i) => Next::One(Executable::Node(i)),
            None => Next::Complete,
        }
    }

    /// Whether `e` refers only to entities of this procedure.
    fn refers_inside(&self, e: &Executable) -> (r: bool)
        ensures
            r == refers_within(e@, *self),
    {
        match e {
            Executable::Node(i) => *i < self.nodes.len(),
            Executable::Flow(i) => *i < self.flows.len(),
            Executable::Procedure => true,
            Executable::Selection(fs) => {
                let mut k: usize = 0;
                while k < fs.len()
                    invariant
                        k <= fs@.len(),
                        e@ == Target::Selection(fs@),
                        forall|j: int| 0 <= j < k ==> fs@[j] < self.flows@.len(),
                    decreases fs.len() - k,
                {
                    if fs[k] >= self.flows.len() {
                        assert(!(e@->Selection_0[k as int] < self.flows@.len()));
                        return false;
                    }
                    k += 1;
                }
                true
            },
        }
    }

    /// Whether every executable of `es` refers inside this procedure.
    fn all_inside(&self, es: &Vec<Executable>) -> (r: bool)
        ensures
            r == forall|k: int| 0 <= k < es@.len() ==> refers_within(#[trigger] es@[k]@, *self),
    {
        let mut k: usize = 0;
        while k < es.len()
            invariant
                k <= es@.len(),
                forall|j: int| 0 <= j < k ==> refers_within(#[trigger] es@[j]@, *self),
            decreases es.len() - k,
        {
            if !self.refers_inside(&es[k]) {
                return false;
            }
            k += 1;
        }
        true
    }

    /// Whether the procedure is well formed: what a loaded procedure must be
    /// before a scheduler runs it.
    pub fn check(&self) -> (r: bool)
        ensures
            r == self.wf(),
    {
        let n = self.nodes.len();
        let mut i: usize = 0;
        while i < n
            invariant
                n == self.nodes@.len(),
                i <= n,
                forall|a: int, b: int|
                    0 <= a < b < n && a < i ==> (#[trigger] self.nodes@[a]).name@
                        != (#[trigger] self.nodes@[b]).name@,
                forall|a: int, k: int|
                    0 <= a < i && 0 <= k < self.nodes@[a].outgoings@.len() ==> refers_within(
                        #[trigger] self.nodes@[a].outgoings@[k]@,
                        *self,
                    ),
                forall|a: int, k: int|
                    0 <= a < i && 0 <= k < self.nodes@[a].incomings@.len() ==> refers_within(
                        #[trigger] self.nodes@[a].incomings@[k]@,
                        *self,
                    ),
            decreases n - i,
        {
            let mut j: usize = i + 1;
            while j < n
                invariant
                    n == self.nodes@.len(),
                    i < n,
                    i < j <= n,
                    forall|b: int| i < b < j ==> self.nodes@[i as int].name@ != (#[trigger] self.nodes@[b]).name@,
                decreases n - j,
            {
                if self.nodes[i].name == self.nodes[j].name {
                    return false;
                }
                j += 1;
            }
            if !self.all_inside(&self.nodes[i].outgoings) {
                return false;
            }
            if !self.all_inside(&self.nodes[i].incomings) {
                return false;
            }
            i += 1;
        }
        let m = self.flows.len();
        let mut i: usize = 0;
        while i < m
            invariant
                m == self.flows@.len(),
                n == self.nodes@.len(),
                i <= m,
                forall|a: int, b: int|
                    0 <= a < b < m && a < i ==> (#[trigger] self.flows@[a]).name@
                        != (#[trigger] self.flows@[b]).name@,
                forall|a: int|
                    0 <= a < i ==> (#[trigger] self.flows@[a]).source_node < n
                        && self.flows@[a].target_node < n,
            decreases m - i,
        {
            if self.flows[i].source_node >= n || self.flows[i].target_node >= n {
                return false;
            }
            let mut j: usize = i + 1;
            while j < m
                invariant
                    m == self.flows@.len(),
                    i < m,
                    i < j <= m,
                    forall|b: int| i < b < j ==> self.flows@[i as int].name@ != (#[trigger] self.flows@[b]).name@,
                decreases m - j,
            {
                if self.flows[i].name == self.flows[j].name {
                    return false;
                }
                j += 1;
            }
            i += 1;
        }
        true
    }
}

} // verus!
