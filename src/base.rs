use vstd::prelude::*;

use crate::procedure::Procedure;

verus! {

/// The deadline type of a `Wait` directive.
#[verifier::external_type_specification]
#[verifier::external_body]
pub struct ExInstant(tokio::time::Instant);

/// A reference to one runnable entity of a procedure. Nodes and flows are
/// named by their index in the procedure; `Procedure` is the procedure the
/// cursor runs.
#[derive(Debug)]
pub enum Executable {
    Node(usize),
    Flow(usize),
    Procedure,
    /// Candidate flows, in order, whose conditions race.
    Selection(Vec<usize>),
}

/// What an executable refers to, with a selection's flows as a sequence.
pub enum Target {
    Node(usize),
    Flow(usize),
    Procedure,
    Selection(Seq<usize>),
}

impl View for Executable {
    type V = Target;

    open spec fn view(&self) -> Target {
        match self {
            Executable::Node(i) => Target::Node(*i),
            Executable::Flow(i) => Target::Flow(*i),
            Executable::Procedure => Target::Procedure,
            Executable::Selection(flows) => Target::Selection(flows@),
        }
    }
}

/// The targets of a sequence of executables.
pub open spec fn targets(s: Seq<Executable>) -> Seq<Target> {
    s.map_values(|e: Executable| e@)
}

/// Appending an executable appends its target.
pub proof fn lemma_targets_push(s: Seq<Executable>, e: Executable)
    ensures
        targets(s.push(e)) == targets(s).push(e@),
{
    assert(targets(s.push(e)) =~= targets(s).push(e@));
}

/// The directives a script may emit.
#[derive(Debug)]
pub enum Next {
    /// No transition: run `current` again.
    Null,
    /// Advance along the outgoings of `current`.
    Continue,
    /// Move to the executable.
    One(Executable),
    /// Spawn one child cursor per executable and suspend.
    Parallel(Vec<Executable>),
    /// Race the executables; the first that is ready wins.
    Select(Vec<Executable>),
    /// Sleep until the deadline, then move to the executable.
    Wait(Executable, tokio::time::Instant),
    /// Terminate the cursor.
    Complete,
    /// Terminate the cursor and its parent.
    Bubble,
}

/// The flows of a selection, each wrapped as an executable.
pub open spec fn flows_as_targets(flows: Seq<usize>) -> Seq<Target> {
    flows.map_values(|f: usize| Target::Flow(f))
}

/// What `Executable::outgoings` returns.
pub open spec fn outgoings_of(e: Target, procedure: Procedure) -> Seq<Target> {
    match e {
        Target::Node(i) => if i < procedure.nodes@.len() {
            targets(procedure.nodes@[i as int].outgoings@)
        } else {
            Seq::empty()
        },
        Target::Flow(i) => if i < procedure.flows@.len() {
            seq![Target::Node(procedure.flows@[i as int].target_node)]
        } else {
            Seq::empty()
        },
        Target::Procedure => Seq::empty(),
        Target::Selection(flows) => flows_as_targets(flows),
    }
}

fn copy_indices(v: &Vec<usize>) -> (r: Vec<usize>)
    ensures
        r@ == v@,
{
    let mut r: Vec<usize> = Vec::new();
    let mut i: usize = 0;
    while i < v.len()
        invariant
            i <= v.len(),
            r@ == v@.subrange(0, i as int),
        decreases v.len() - i,
    {
        r.push(v[i]);
        i += 1;
    }
    assert(r@ =~= v@);
    r
}

impl Clone for Executable {
    fn clone(&self) -> (r: Self)
        ensures
            r@ == self@,
    {
        match self {
            Executable::Node(i) => Executable::Node(*i),
            Executable::Flow(i) => Executable::Flow(*i),
            Executable::Procedure => Executable::Procedure,
            Executable::Selection(flows) => Executable::Selection(copy_indices(flows)),
        }
    }
}

/// Identity of the referenced entities: equal indices, and for selections
/// the same flows in the same order.
impl PartialEq for Executable {
    fn eq(&self, other: &Executable) -> (r: bool) {
        match (self, other) {
            (Executable::Node(a), Executable::Node(b)) => *a == *b,
            (Executable::Flow(a), Executable::Flow(b)) => *a == *b,
            (Executable::Procedure, Executable::Procedure) => true,
            (Executable::Selection(a), Executable::Selection(b)) => {
                assert(self@ == Target::Selection(a@) && other@ == Target::Selection(b@));
                if a.len() != b.len() {
                    return false;
                }
                let mut i: usize = 0;
                while i < a.len()
                    invariant
                        i <= a.len(),
                        a@.len() == b@.len(),
                        self@ == Target::Selection(a@),
                        other@ == Target::Selection(b@),
                        a@.subrange(0, i as int) == b@.subrange(0, i as int),
                    decreases a.len() - i,
                {
                    if a[i] != b[i] {
                        assert(a@[i as int] != b@[i as int]);
                        assert(a@ != b@);
                        assert(self@ != other@);
                        return false;
                    }
                    assert(a@.subrange(0, i + 1) =~= a@.subrange(0, i as int).push(a@[i as int]));
                    assert(b@.subrange(0, i + 1) =~= b@.subrange(0, i as int).push(b@[i as int]));
                    i += 1;
                }
                assert(a@ =~= a@.subrange(0, i as int));
                assert(b@ =~= b@.subrange(0, i as int));
                true
            },
            _ => false,
        }
    }
}

impl vstd::std_specs::cmp::PartialEqSpecImpl for Executable {
    open spec fn obeys_eq_spec() -> bool {
        true
    }

    open spec fn eq_spec(&self, other: &Executable) -> bool {
        self@ == other@
    }
}

impl Executable {
    /// The successors of this executable in `procedure`: a node's declared
    /// outgoings, a flow's target node, nothing for the procedure itself, and
    /// a selection's flows. A dangling index has none.
    pub fn outgoings(&self, procedure: &Procedure) -> (r: Vec<Executable>)
        ensures
            targets(r@) == outgoings_of(self@, *procedure),
    {
        match self {
            Executable::Node(i) => {
                if *i < procedure.nodes.len() {
                    copy_executables(&procedure.nodes[*i].outgoings)
                } else {
                    Vec::new()
                }
            },
            Executable::Flow(i) => {
                if *i < procedure.flows.len() {
                    let mut r = Vec::new();
                    r.push(Executable::Node(procedure.flows[*i].target_node));
                    assert(targets(r@) =~= seq![Target::Node(procedure.flows@[*i as int].target_node)]);
                    r
                } else {
                    Vec::new()
                }
            },
            Executable::Procedure => Vec::new(),
            Executable::Selection(flows) => {
                let mut r: Vec<Executable> = Vec::new();
                let mut k: usize = 0;
                while k < flows.len()
                    invariant
                        k <= flows.len(),
                        targets(r@) == flows_as_targets(flows@.subrange(0, k as int)),
                    decreases flows.len() - k,
                {
                    let ghost prev = r@;
                    let e = Executable::Flow(flows[k]);
                    r.push(e);
                    proof {
                        lemma_targets_push(prev, e);
                        let sub = flows@.subrange(0, k as int);
                        assert(flows@.subrange(0, k + 1) =~= sub.push(flows@[k as int]));
                        assert(flows_as_targets(sub.push(flows@[k as int])) =~= flows_as_targets(
                            sub,
                        ).push(Target::Flow(flows@[k as int])));
                    }
                    k += 1;
                }
                assert(flows@.subrange(0, k as int) =~= flows@);
                r
            },
        }
    }
}

/// An element-wise copy of a sequence of executables.
pub fn copy_executables(v: &Vec<Executable>) -> (r: Vec<Executable>)
    ensures
        targets(r@) == targets(v@),
{
    let mut r: Vec<Executable> = Vec::new();
    let mut i: usize = 0;
    while i < v.len()
        invariant
            i <= v.len(),
            targets(r@) == targets(v@.subrange(0, i as int)),
        decreases v.len() - i,
    {
        let e = v[i].clone();
        let ghost prev = r@;
        r.push(e);
        proof {
            lemma_targets_push(prev, e);
            lemma_targets_push(v@.subrange(0, i as int), v@[i as int]);
            assert(v@.subrange(0, i + 1) =~= v@.subrange(0, i as int).push(v@[i as int]));
        }
        i += 1;
    }
    assert(v@.subrange(0, i as int) =~= v@);
    r
}

} // verus!
