use vstd::prelude::*;

use crate::base::{copy_executables, lemma_targets_push, outgoings_of, targets, Executable, Next, Target};
use crate::context::Context;
use crate::cursor::Cursor;
use crate::outside::{cancel, child_token, fresh_id, root_token};
use crate::procedure::{has_flow, has_node, is_start, Procedure};
use crate::script::{Request, Script};

verus! {

/// Owns the procedures and the cursors, and applies directives to the
/// cursor tree.
pub struct Scheduler {
    /// Registered procedures; `None` once a procedure has been released.
    pub procedures: Vec<Option<Procedure>>,
    /// Every cursor ever created; a cursor's index is its handle.
    pub cursors: Vec<Cursor>,
}

/// What a cursor's task must do next.
#[derive(Debug)]
pub enum Step {
    /// The cursor is complete: its task ends.
    Finished,
    /// The cursor waits for its children.
    Suspended,
    /// The cursor moved without outside work: ask again.
    Yield,
    /// Sleep until the deadline (or cancellation), then `wake`.
    Sleep(tokio::time::Instant),
    /// Run the script of the node with this index.
    RunNode(usize),
    /// Evaluate the condition of the flow with this index.
    CheckFlow(usize),
    /// Evaluate the conditions of these flows in order; the first that holds wins.
    RaceFlows(Vec<usize>),
}

/// Where a directive sends a cursor.
pub enum Route {
    /// The cursor completes.
    Finish,
    /// The cursor moves to the target.
    Move(Target),
    /// The cursor spawns one child per target and suspends.
    Spawn(Seq<Target>),
}

/// Executable form of a `Route`.
pub enum Plan {
    Finish,
    Move(Executable),
    Spawn(Vec<Executable>),
}

impl View for Plan {
    type V = Route;

    open spec fn view(&self) -> Route {
        match self {
            Plan::Finish => Route::Finish,
            Plan::Move(e) => Route::Move(e@),
            Plan::Spawn(es) => Route::Spawn(targets(es@)),
        }
    }
}

/// Whether every target is a flow.
pub open spec fn all_flows(s: Seq<Target>) -> bool {
    forall|k: int| 0 <= k < s.len() ==> (#[trigger] s[k]) is Flow
}

/// The flow indices of a sequence of flow targets.
pub open spec fn flow_indices(s: Seq<Target>) -> Seq<usize> {
    s.map_values(|t: Target| t->Flow_0)
}

/// `Continue` over the outgoings `outs`: none completes the cursor, one is
/// moved to, several flows become a selection, and anything else fans out.
pub open spec fn continue_route(outs: Seq<Target>) -> Route {
    if outs.len() == 0 {
        Route::Finish
    } else if outs.len() == 1 {
        Route::Move(outs[0])
    } else if all_flows(outs) {
        Route::Move(Target::Selection(flow_indices(outs)))
    } else {
        Route::Spawn(outs)
    }
}

/// The first node or procedure at or after `i`, which is ready at once.
pub open spec fn ready_from(es: Seq<Target>, i: int) -> Option<int>
    decreases es.len() - i,
{
    if i < 0 || i >= es.len() {
        None
    } else if es[i] is Node || es[i] is Procedure {
        Some(i)
    } else {
        ready_from(es, i + 1)
    }
}

/// The flows named by the candidates, selections flattened, in order.
pub open spec fn candidate_flows(es: Seq<Target>) -> Seq<usize>
    decreases es.len(),
{
    if es.len() == 0 {
        Seq::empty()
    } else {
        let rest = candidate_flows(es.drop_last());
        match es.last() {
            Target::Flow(f) => rest.push(f),
            Target::Selection(fs) => rest + fs,
            _ => rest,
        }
    }
}

/// `Select` over the candidates `es`: the first node or procedure wins at
/// once; otherwise no flow completes the cursor, one flow is moved to, and
/// several become a selection.
pub open spec fn select_route(es: Seq<Target>) -> Route {
    match ready_from(es, 0) {
        Some(k) => Route::Move(es[k]),
        None => {
            let fs = candidate_flows(es);
            if fs.len() == 0 {
                Route::Finish
            } else if fs.len() == 1 {
                Route::Move(Target::Flow(fs[0]))
            } else {
                Route::Move(Target::Selection(fs))
            }
        },
    }
}

/// The targets of `s` that are not in `removed`, in order.
pub open spec fn without(s: Seq<Target>, removed: Seq<Target>) -> Seq<Target>
    decreases s.len(),
{
    if s.len() == 0 {
        s
    } else {
        let w = without(s.drop_last(), removed);
        if removed.contains(s.last()) {
            w
        } else {
            w.push(s.last())
        }
    }
}

/// Whether `d` is `c` or lies below it in the cursor tree.
pub open spec fn descends(cs: Seq<Cursor>, d: int, c: int) -> bool
    decreases d,
{
    if d == c {
        true
    } else if 0 <= d < cs.len() {
        match cs[d].parent {
            Some(p) => (p as int) < d && descends(cs, p as int, c),
            None => false,
        }
    } else {
        false
    }
}

/// Whether cursor `i` is the parent of cursor `c`.
pub open spec fn is_parent_of(cs: Seq<Cursor>, i: int, c: int) -> bool {
    cs[c].parent matches Some(q) && q as int == i
}

/// A cursor marked complete, all else kept.
pub open spec fn completed(c: Cursor) -> Cursor {
    Cursor { is_complete: true, ..c }
}

/// Every cursor that was complete still is, and none was removed.
pub open spec fn keeps_completion(before: Seq<Cursor>, after: Seq<Cursor>) -> bool {
    &&& before.len() <= after.len()
    &&& forall|i: int|
        0 <= i < before.len() && (#[trigger] before[i]).is_complete ==> after[i].is_complete
    &&& forall|i: int| 0 <= i < before.len() ==> (#[trigger] after[i]).parent == before[i].parent
}

/// A cursor moved to `e`, all else kept.
pub open spec fn moved(c: Cursor, e: Executable) -> Cursor {
    Cursor { current: e, ..c }
}

/// After a fan-out of `c` over `ts`: one new live child per target, in
/// order, each with a snapshot of the parent's state; `c` waits for them.
pub open spec fn spawned(before: Seq<Cursor>, after: Seq<Cursor>, c: int, ts: Seq<Target>) -> bool {
    let n = before.len();
    &&& after.len() == n + ts.len()
    &&& forall|i: int| 0 <= i < n && i != c ==> #[trigger] after[i] == before[i]
    &&& after[c].children@.len() == ts.len()
    &&& forall|k: int| 0 <= k < ts.len() ==> #[trigger] after[c].children@[k] == n + k
    &&& targets(after[c].fanned@) == ts
    &&& after[c] == Cursor {
        children: after[c].children,
        fanned: after[c].fanned,
        resume: ts.len() == 0,
        ..before[c]
    }
    &&& forall|i: int|
        n <= i < n + ts.len() ==> {
            let ch = #[trigger] after[i];
            &&& ch.current@ == ts[i - n]
            &&& ch.parent == Some(c as usize)
            &&& !ch.is_complete
            &&& ch.children@.len() == 0
            &&& !ch.resume
            &&& ch.waiting is None
            &&& ch.procedure == before[c].procedure
            &&& ch.context.state@ == before[c].context.state@
        }
}

/// What following `route` does to cursor `c`.
pub open spec fn follows(before: Seq<Cursor>, after: Seq<Cursor>, c: int, route: Route) -> bool {
    match route {
        Route::Finish => {
            &&& after.len() == before.len()
            &&& after[c].is_complete
            &&& forall|d: int|
                0 <= d < before.len() && descends(before, d, c) ==> #[trigger] after[d].is_complete
        },
        Route::Move(t) => {
            &&& after.len() == before.len()
            &&& after[c].current@ == t
            &&& after[c] == moved(before[c], after[c].current)
            &&& forall|i: int| 0 <= i < before.len() && i != c ==> #[trigger] after[i] == before[i]
        },
        Route::Spawn(ts) => spawned(before, after, c, ts),
    }
}

/// `c`, its parent (if any), and every cursor below either are complete.
pub open spec fn bubbled(before: Seq<Cursor>, after: Seq<Cursor>, c: int) -> bool {
    &&& after.len() == before.len()
    &&& after[c].is_complete
    &&& forall|d: int| 0 <= d < before.len() && descends(before, d, c) ==> #[trigger] after[d].is_complete
    &&& before[c].parent matches Some(p) ==> {
        &&& after[p as int].is_complete
        &&& forall|d: int|
            0 <= d < before.len() && descends(before, d, p as int) ==> #[trigger] after[d].is_complete
    }
}

/// What the directive `next` does to the live cursor `c`.
pub open spec fn directed(
    procs: Seq<Option<Procedure>>,
    cs: Seq<Cursor>,
    after: Seq<Cursor>,
    c: int,
    next: Next,
) -> bool {
    let cur = cs[c];
    match next {
        Next::Null => after == cs,
        Next::Continue => match procs[cur.procedure as int] {
            Some(p) => follows(cs, after, c, continue_route(outgoings_of(cur.current@, p))),
            None => follows(cs, after, c, Route::Finish),
        },
        Next::One(e) => follows(cs, after, c, Route::Move(e@)),
        Next::Parallel(es) => follows(cs, after, c, Route::Spawn(targets(es@))),
        Next::Select(es) => follows(cs, after, c, select_route(targets(es@))),
        Next::Wait(e, t) => after == cs.update(c, Cursor { waiting: Some((e, t)), ..cur }),
        Next::Complete => follows(cs, after, c, Route::Finish),
        Next::Bubble => bubbled(cs, after, c),
    }
}

/// Whether `t` is what `Procedure::find` gives for `name`: the node of
/// that name, else the flow of that name.
pub open spec fn found(p: Procedure, name: Seq<char>, t: Target) -> bool {
    if has_node(p, name) {
        t matches Target::Node(i) && i < p.nodes@.len() && p.nodes@[i as int].name@ == name
    } else {
        has_flow(p, name) && (t matches Target::Flow(i) && i < p.flows@.len() && p.flows@[i as int].name@
            == name)
    }
}

/// What applying a finished script to the live cursor `c` does: `mid` is
/// the cursor table with the script's state installed.
pub open spec fn scripted(
    procs: Seq<Option<Procedure>>,
    mid: Seq<Cursor>,
    after: Seq<Cursor>,
    c: int,
    request: Request,
) -> bool {
    match request {
        Request::Null => directed(procs, mid, after, c, Next::Null),
        Request::Continue => directed(procs, mid, after, c, Next::Continue),
        Request::Complete => directed(procs, mid, after, c, Next::Complete),
        Request::Bubble => directed(procs, mid, after, c, Next::Bubble),
        Request::One(name) => match procs[mid[c].procedure as int] {
            Some(p) => if has_node(p, name@) || has_flow(p, name@) {
                found(p, name@, after[c].current@) && follows(mid, after, c, Route::Move(after[c].current@))
            } else {
                follows(mid, after, c, Route::Finish)
            },
            None => follows(mid, after, c, Route::Finish),
        },
    }
}

/// Whether every flow index of a selection exists in `p`.
pub open spec fn flows_exist(fs: Seq<usize>, p: Procedure) -> bool {
    forall|k: int| 0 <= k < fs.len() ==> #[trigger] fs[k] < p.flows@.len()
}

/// What one step of the live cursor `c` does, and what its task must do.
pub open spec fn stepped(before: Scheduler, after: Seq<Cursor>, c: int, r: Step) -> bool {
    let cs = before.cursors@;
    let cur = cs[c];
    match before.procedures@[cur.procedure as int] {
        None => r is Finished && follows(cs, after, c, Route::Finish),
        Some(p) => if cur.children@.len() > 0 {
            r is Suspended && after == cs
        } else if cur.resume {
            r is Yield && follows(
                cs.update(c, Cursor { resume: false, ..cur }),
                after,
                c,
                continue_route(without(outgoings_of(cur.current@, p), targets(cur.fanned@))),
            )
        } else if cur.waiting is Some {
            r matches Step::Sleep(t) && t == cur.waiting->Some_0.1 && after == cs
        } else {
            match cur.current@ {
                Target::Procedure => if p.nodes@.len() == 0 {
                    r is Finished && follows(cs, after, c, Route::Finish)
                } else {
                    &&& r is Yield
                    &&& after[c].current@ matches Target::Node(i) && is_start(p, i)
                    &&& follows(cs, after, c, Route::Move(after[c].current@))
                },
                Target::Node(i) => if i < p.nodes@.len() {
                    r == Step::RunNode(i) && after == cs
                } else {
                    r is Finished && follows(cs, after, c, Route::Finish)
                },
                Target::Flow(i) => if i < p.flows@.len() {
                    r == Step::CheckFlow(i) && after == cs
                } else {
                    r is Finished && follows(cs, after, c, Route::Finish)
                },
                Target::Selection(fs) => if flows_exist(fs, p) {
                    r matches Step::RaceFlows(v) && v@ == fs && after == cs
                } else {
                    r is Finished && follows(cs, after, c, Route::Finish)
                },
            }
        },
    }
}

/// The first index below `n` at or after `i` whose result holds.
pub open spec fn first_true(rs: Seq<bool>, i: int, n: int) -> Option<int>
    decreases n - i,
{
    if i < 0 || i >= n || i >= rs.len() {
        None
    } else if rs[i] {
        Some(i)
    } else {
        first_true(rs, i + 1, n)
    }
}

/// A fresh root cursor on procedure `pi`.
pub open spec fn is_root(c: Cursor, pi: int) -> bool {
    &&& c.procedure == pi
    &&& c.current@ == Target::Procedure
    &&& c.parent is None
    &&& !c.is_complete
    &&& c.children@.len() == 0
    &&& !c.resume
    &&& c.waiting is None
    &&& c.context.state@ == Map::<Seq<char>, crate::state::Value>::empty()
}

/// No cursor other than `c` had its state changed.
pub open spec fn contexts_kept(before: Seq<Cursor>, after: Seq<Cursor>, c: int) -> bool {
    forall|i: int|
        0 <= i < before.len() && i != c ==> (#[trigger] after[i]).context == before[i].context
}

/// Copies a sequence of flow indices.
fn copy_flows(v: &Vec<usize>) -> (r: Vec<usize>)
    ensures
        r@ == v@,
{
    let mut r: Vec<usize> = Vec::new();
    let mut i: usize = 0;
    while i < v.len()
        invariant
            i <= v.len(),
            r@ == v@.subrange(0, i as int),
        decreases v.len() - i,
    {
        r.push(v[i]);
        i += 1;
        assert(r@ =~= v@.subrange(0, i as int));
    }
    assert(r@ =~= v@);
    r
}

/// The plan of `Continue` over the outgoings `outs`.
pub fn continue_plan(outs: Vec<Executable>) -> (r: Plan)
    ensures
        r@ == continue_route(targets(outs@)),
{
    let ghost ts = targets(outs@);
    if outs.len() == 0 {
        return Plan::Finish;
    }
    if outs.len() == 1 {
        let e = outs[0].clone();
        return Plan::Move(e);
    }
    let mut flows: Vec<usize> = Vec::new();
    let mut i: usize = 0;
    while i < outs.len()
        invariant
            i <= outs@.len(),
            outs@.len() > 1,
            ts == targets(outs@),
            all_flows(ts.subrange(0, i as int)),
            flows@ == flow_indices(ts.subrange(0, i as int)),
        decreases outs.len() - i,
    {
        match &outs[i] {
            Executable::Flow(f) => {
                flows.push(*f);
            },
            _ => {
                assert(!(ts[i as int] is Flow));
                assert(!all_flows(ts));
                return Plan::Spawn(outs);
            },
        }
        i += 1;
        assert(ts.subrange(0, i as int) =~= ts.subrange(0, i - 1).push(ts[i - 1]));
        assert(flows@ =~= flow_indices(ts.subrange(0, i as int)));
    }
    assert(ts.subrange(0, i as int) =~= ts);
    Plan::Move(Executable::Selection(flows))
}

/// The plan of `Select` over the candidates `es`.
pub fn select_plan(es: &Vec<Executable>) -> (r: Plan)
    ensures
        r@ == select_route(targets(es@)),
{
    let ghost ts = targets(es@);
    let mut flows: Vec<usize> = Vec::new();
    let mut i: usize = 0;
    while i < es.len()
        invariant
            i <= es@.len(),
            ts == targets(es@),
            ready_from(ts, 0) == ready_from(ts, i as int),
            flows@ == candidate_flows(ts.subrange(0, i as int)),
        decreases es.len() - i,
    {
        assert(ts.subrange(0, i + 1).drop_last() =~= ts.subrange(0, i as int));
        match &es[i] {
            Executable::Node(n) => {
                return Plan::Move(Executable::Node(*n));
            },
            Executable::Procedure => {
                return Plan::Move(Executable::Procedure);
            },
            Executable::Flow(f) => {
                flows.push(*f);
            },
            Executable::Selection(fs) => {
                let mut k: usize = 0;
                let ghost base = flows@;
                while k < fs.len()
                    invariant
                        k <= fs@.len(),
                        flows@ == base + fs@.subrange(0, k as int),
                    decreases fs.len() - k,
                {
                    flows.push(fs[k]);
                    k += 1;
                    assert(flows@ =~= base + fs@.subrange(0, k as int));
                }
                assert(fs@.subrange(0, k as int) =~= fs@);
            },
        }
        i += 1;
    }
    assert(ts.subrange(0, i as int) =~= ts);
    if flows.len() == 0 {
        Plan::Finish
    } else if flows.len() == 1 {
        Plan::Move(Executable::Flow(flows[0]))
    } else {
        Plan::Move(Executable::Selection(flows))
    }
}

/// The executables of `outs` whose targets are not among those of `removed`.
pub fn without_executables(outs: &Vec<Executable>, removed: &Vec<Executable>) -> (r: Vec<Executable>)
    ensures
        targets(r@) == without(targets(outs@), targets(removed@)),
{
    let ghost ts = targets(outs@);
    let ghost rs = targets(removed@);
    let mut r: Vec<Executable> = Vec::new();
    let mut i: usize = 0;
    while i < outs.len()
        invariant
            i <= outs@.len(),
            ts == targets(outs@),
            rs == targets(removed@),
            targets(r@) == without(ts.subrange(0, i as int), rs),
        decreases outs.len() - i,
    {
        let mut found = false;
        let mut j: usize = 0;
        while j < removed.len()
            invariant
                j <= removed@.len(),
                i < outs@.len(),
                ts == targets(outs@),
                rs == targets(removed@),
                found == exists|k: int| 0 <= k < j && rs[k] == ts[i as int],
            decreases removed.len() - j,
        {
            let same = removed[j] == outs[i];
            assert(rs[j as int] == removed@[j as int]@);
            assert(ts[i as int] == outs@[i as int]@);
            if same {
                found = true;
            }
            j += 1;
        }
        assert(found == rs.contains(ts[i as int]));
        assert(ts.subrange(0, i + 1).drop_last() =~= ts.subrange(0, i as int));
        if !found {
            let e = outs[i].clone();
            let ghost prev = r@;
            r.push(e);
            proof {
                lemma_targets_push(prev, e);
            }
        }
        i += 1;
    }
    assert(ts.subrange(0, i as int) =~= ts);
    r
}

impl Scheduler {
    /// Links of cursor `i`: a valid procedure index, a well-formed state, a
    /// parent with a smaller index that is complete only if `i` is, and
    /// children with larger indices that name `i` as their parent.
    pub open spec fn link_ok(&self, i: int) -> bool {
        let c = self.cursors@[i];
        &&& c.procedure < self.procedures@.len()
        &&& c.context.state.wf()
        &&& (c.parent matches Some(p) ==> (p as int) < i && (self.cursors@[p as int].is_complete
            ==> c.is_complete))
        &&& forall|k: int|
            0 <= k < c.children@.len() ==> i < #[trigger] c.children@[k] < self.cursors@.len()
                && self.cursors@[c.children@[k] as int].parent == Some(i as usize)
    }

    /// A live cursor with children has a live child.
    pub open spec fn join_ok(&self, i: int) -> bool {
        let c = self.cursors@[i];
        !c.is_complete && c.children@.len() > 0 ==> exists|k: int|
            0 <= k < c.children@.len() && !self.cursors@[#[trigger] c.children@[k] as int].is_complete
    }

    pub open spec fn wf(&self) -> bool {
        &&& forall|i: int|
            0 <= i < self.procedures@.len() ==> (#[trigger] self.procedures@[i] matches Some(p) ==> p.wf())
        &&& forall|i: int| 0 <= i < self.cursors@.len() ==> #[trigger] self.link_ok(i)
        &&& forall|i: int| 0 <= i < self.cursors@.len() ==> #[trigger] self.join_ok(i)
    }

    /// A scheduler without procedures or cursors.
    pub fn new() -> (r: Scheduler)
        ensures
            r.wf(),
            r.procedures@.len() == 0,
            r.cursors@.len() == 0,
    {
        Scheduler { procedures: Vec::new(), cursors: Vec::new() }
    }

    /// Marks `c` and every cursor below it complete, cancelling their tokens.
    fn mark_subtree(&mut self, c: usize)
        requires
            old(self).wf(),
            c < old(self).cursors@.len(),
        ensures
            final(self).procedures == old(self).procedures,
            final(self).cursors@.len() == old(self).cursors@.len(),
            forall|i: int|
                0 <= i < old(self).cursors@.len() ==> #[trigger] final(self).cursors@[i] == if descends(
                    old(self).cursors@,
                    i,
                    c as int,
                ) {
                    completed(old(self).cursors@[i])
                } else {
                    old(self).cursors@[i]
                },
    {
        let ghost cs = self.cursors@;
        let n = self.cursors.len();
        let mut in_sub: Vec<bool> = Vec::new();
        let mut i: usize = 0;
        while i < n
            invariant
                n == cs.len(),
                self.cursors@ == cs,
                self.wf(),
                c < n,
                i <= n,
                in_sub@.len() == i,
                forall|j: int| 0 <= j < i ==> #[trigger] in_sub@[j] == descends(cs, j, c as int),
            decreases n - i,
        {
            let b = if i == c {
                true
            } else {
                match self.cursors[i].parent {
                    Some(p) => {
                        assert(self.link_ok(i as int));
                        in_sub[p]
                    },
                    None => false,
                }
            };
            in_sub.push(b);
            i += 1;
        }
        let mut j: usize = n;
        while j > 0
            invariant
                j <= n,
                n == cs.len(),
                in_sub@.len() == n,
                forall|k: int| 0 <= k < n ==> #[trigger] in_sub@[k] == descends(cs, k, c as int),
                self.procedures == old(self).procedures,
                cs == old(self).cursors@,
                self.cursors@.len() == n,
                forall|k: int|
                    0 <= k < n ==> #[trigger] self.cursors@[k] == if k >= j && in_sub@[k] {
                        completed(cs[k])
                    } else {
                        cs[k]
                    },
            decreases j,
        {
            j -= 1;
            if in_sub[j] {
                let mut cur = self.cursors.remove(j);
                cancel(&cur.cancel);
                cur.is_complete = true;
                self.cursors.insert(j, cur);
                proof {
                    assert forall|k: int| 0 <= k < n implies #[trigger] self.cursors@[k] == if k
                        >= j && in_sub@[k] {
                        completed(cs[k])
                    } else {
                        cs[k]
                    } by {
                        if k == j {
                            assert(self.cursors@[k] == cur);
                        }
                    }
                }
            }
        }
    }

    /// Below `c` lie only cursors with larger or equal index.
    proof fn lemma_descends_ge(&self, d: int, c: int)
        requires
            self.wf(),
            descends(self.cursors@, d, c),
        ensures
            d >= c,
        decreases d,
    {
        if d != c {
            assert(self.link_ok(d));
            let p = self.cursors@[d].parent->Some_0;
            self.lemma_descends_ge(p as int, c);
        }
    }

    /// Completing a cursor completes everything below it.
    pub proof fn lemma_cancel_reaches_descendants(&self, c: int, d: int)
        requires
            self.wf(),
            0 <= c < self.cursors@.len(),
            self.cursors@[c].is_complete,
            descends(self.cursors@, d, c),
        ensures
            0 <= d < self.cursors@.len(),
            self.cursors@[d].is_complete,
        decreases d,
    {
        if d != c {
            assert(self.link_ok(d));
            let p = self.cursors@[d].parent->Some_0;
            self.lemma_cancel_reaches_descendants(c, p as int);
        }
    }

    /// Completes `c` and, through cancellation, every cursor below it. When
    /// this leaves the parent's fan-out without a live child, the parent
    /// joins: its children are released and its next step continues.
    pub fn complete(&mut self, c: usize)
        requires
            old(self).wf(),
            c < old(self).cursors@.len(),
        ensures
            final(self).wf(),
            final(self).procedures == old(self).procedures,
            final(self).cursors@.len() == old(self).cursors@.len(),
            keeps_completion(old(self).cursors@, final(self).cursors@),
            contexts_kept(old(self).cursors@, final(self).cursors@, c as int),
            final(self).cursors@[c as int].is_complete,
            forall|d: int|
                0 <= d < old(self).cursors@.len() && descends(old(self).cursors@, d, c as int)
                    ==> #[trigger] final(self).cursors@[d] == completed(old(self).cursors@[d]),
            forall|i: int|
                0 <= i < old(self).cursors@.len() && !descends(old(self).cursors@, i, c as int)
                    && !is_parent_of(old(self).cursors@, i, c as int)
                    ==> #[trigger] final(self).cursors@[i] == old(self).cursors@[i],
            old(self).cursors@[c as int].parent matches Some(p) ==> {
                let before = old(self).cursors@[p as int];
                let after = final(self).cursors@[p as int];
                if !before.is_complete && forall|k: int|
                    0 <= k < before.children@.len()
                        ==> #[trigger] final(self).cursors@[before.children@[k] as int].is_complete {
                    &&& after.children@.len() == 0
                    &&& after == Cursor { children: after.children, resume: true, ..before }
                } else {
                    after == before
                }
            },
    {
        let ghost cs = self.cursors@;
        self.mark_subtree(c);
        let ghost marked = self.cursors@;
        proof {
            assert forall|i: int| 0 <= i < cs.len() implies #[trigger] self.link_ok(i) by {
                assert(old(self).link_ok(i));
                if let Some(p) = cs[i].parent {
                    if self.cursors@[p as int].is_complete && !cs[p as int].is_complete {
                        assert(descends(cs, p as int, c as int));
                        if i == c {
                            old(self).lemma_descends_ge(p as int, c as int);
                        }
                        assert(descends(cs, i, c as int));
                    }
                }
                assert forall|k: int| 0 <= k < cs[i].children@.len() implies i
                    < #[trigger] self.cursors@[i].children@[k] < self.cursors@.len()
                    && self.cursors@[self.cursors@[i].children@[k] as int].parent == Some(
                    i as usize,
                ) by {
                    let ch = cs[i].children@[k] as int;
                    assert(self.cursors@[ch].parent == cs[ch].parent);
                }
            }
            assert forall|i: int|
                0 <= i < cs.len() && !is_parent_of(cs, i, c as int) implies #[trigger] self.join_ok(
                i,
            ) by {
                assert(old(self).join_ok(i));
                if !self.cursors@[i].is_complete && self.cursors@[i].children@.len() > 0 {
                    assert(!descends(cs, i, c as int));
                    let w = choose|k: int|
                        0 <= k < cs[i].children@.len() && !cs[#[trigger] cs[i].children@[k] as int].is_complete;
                    let ch = cs[i].children@[w] as int;
                    assert(old(self).link_ok(i));
                    if descends(cs, ch, c as int) {
                        assert(ch != c);
                        assert(cs[ch].parent == Some(i as usize));
                    }
                    assert(!self.cursors@[ch].is_complete);
                }
            }
        }
        let ghost ms = *self;
        if let Some(p) = self.cursors[c].parent {
            proof {
                assert(old(self).link_ok(c as int));
                assert(cs[c as int].parent == Some(p));
                assert forall|i: int| 0 <= i < cs.len() && i != p implies #[trigger] ms.join_ok(i) by {
                    assert(!is_parent_of(cs, i, c as int));
                }
                if descends(cs, p as int, c as int) {
                    old(self).lemma_descends_ge(p as int, c as int);
                }
                assert(marked[p as int] == cs[p as int]);
            }
            if !self.cursors[p].is_complete {
                let mut all = true;
                let mut k: usize = 0;
                while k < self.cursors[p].children.len()
                    invariant
                        p < self.cursors@.len(),
                        self.cursors@ == marked,
                        k <= self.cursors@[p as int].children@.len(),
                        self.link_ok(p as int),
                        all == forall|j: int|
                            0 <= j < k ==> #[trigger] marked[marked[p as int].children@[j] as int].is_complete,
                    decreases self.cursors@[p as int].children@.len() - k,
                {
                    let ch = self.cursors[p].children[k];
                    if !self.cursors[ch].is_complete {
                        all = false;
                    }
                    k += 1;
                }
                if all {
                    let mut cur = self.cursors.remove(p);
                    cur.children = Vec::new();
                    cur.resume = true;
                    self.cursors.insert(p, cur);
                    proof {
                        assert forall|k: int| 0 <= k < cs[p as int].children@.len() implies #[trigger] self.cursors@[cs[p as int].children@[k] as int].is_complete by {
                            assert(marked[marked[p as int].children@[k] as int].is_complete);
                        }
                        assert(self.cursors@ =~= marked.update(p as int, cur));
                        assert forall|i: int| 0 <= i < cs.len() implies #[trigger] self.link_ok(i) by {
                            assert(ms.link_ok(i));
                            assert forall|k: int| 0 <= k < self.cursors@[i].children@.len() implies i
                                < #[trigger] self.cursors@[i].children@[k] < self.cursors@.len()
                                && self.cursors@[self.cursors@[i].children@[k] as int].parent
                                == Some(i as usize) by {
                                let ch = marked[i].children@[k] as int;
                                assert(self.cursors@[ch].parent == marked[ch].parent);
                            }
                        }
                        assert forall|i: int| 0 <= i < cs.len() implies #[trigger] self.join_ok(i) by {
                            if i != p {
                                assert(ms.join_ok(i));
                                assert(ms.link_ok(i));
                                if !self.cursors@[i].is_complete && self.cursors@[i].children@.len() > 0 {
                                    let w = choose|k: int|
                                        0 <= k < marked[i].children@.len() && !marked[#[trigger] marked[i].children@[k] as int].is_complete;
                                    let ch = marked[i].children@[w] as int;
                                    assert(self.cursors@[ch].is_complete == marked[ch].is_complete);
                                }
                            }
                        }
                    }
                } else {
                    proof {
                        assert(self.join_ok(p as int));
                        assert(!forall|k: int| 0 <= k < cs[p as int].children@.len() ==> #[trigger] self.cursors@[cs[p as int].children@[k] as int].is_complete);
                    }
                }
            } else {
                proof {
                    assert(self.join_ok(p as int));
                }
            }
        }
    }

    /// Equal parent links give equal descent.
    pub proof fn lemma_descends_same_parents(a: Seq<Cursor>, b: Seq<Cursor>, d: int, c: int)
        requires
            a.len() == b.len(),
            forall|i: int| 0 <= i < a.len() ==> (#[trigger] a[i]).parent == b[i].parent,
        ensures
            descends(a, d, c) == descends(b, d, c),
        decreases d,
    {
        if d != c && 0 <= d < a.len() {
            assert(a[d].parent == b[d].parent);
            if let Some(p) = a[d].parent {
                if (p as int) < d {
                    Self::lemma_descends_same_parents(a, b, p as int, c);
                }
            }
        }
    }

    /// Completes `c` and its parent; the parent's other children are
    /// cancelled with it.
    pub fn complete_and_bubble(&mut self, c: usize)
        requires
            old(self).wf(),
            c < old(self).cursors@.len(),
        ensures
            final(self).wf(),
            final(self).procedures == old(self).procedures,
            final(self).cursors@.len() == old(self).cursors@.len(),
            keeps_completion(old(self).cursors@, final(self).cursors@),
            contexts_kept(old(self).cursors@, final(self).cursors@, c as int),
            final(self).cursors@[c as int].is_complete,
            forall|d: int|
                0 <= d < old(self).cursors@.len() && descends(old(self).cursors@, d, c as int)
                    ==> #[trigger] final(self).cursors@[d].is_complete,
            old(self).cursors@[c as int].parent matches Some(p) ==> {
                &&& final(self).cursors@[p as int].is_complete
                &&& forall|d: int|
                    0 <= d < old(self).cursors@.len() && descends(old(self).cursors@, d, p as int)
                        ==> #[trigger] final(self).cursors@[d].is_complete
            },
    {
        let parent = self.cursors[c].parent;
        proof {
            assert(old(self).link_ok(c as int));
        }
        self.complete(c);
        let ghost mid = self.cursors@;
        if let Some(p) = parent {
            self.complete(p);
            proof {
                assert forall|d: int|
                    0 <= d < old(self).cursors@.len() && descends(old(self).cursors@, d, p as int)
                        implies #[trigger] self.cursors@[d].is_complete by {
                    Self::lemma_descends_same_parents(old(self).cursors@, mid, d, p as int);
                }
            }
        }
    }

    /// Replaces the position, the pending wait and the resume flag of `c`
    /// where a new value is given; returns the replaced wait.
    fn update_cursor(
        &mut self,
        c: usize,
        current: Option<Executable>,
        waiting: Option<Option<(Executable, tokio::time::Instant)>>,
        resume: Option<bool>,
        context: Option<Context>,
    ) -> (r: Option<(Executable, tokio::time::Instant)>)
        requires
            old(self).wf(),
            c < old(self).cursors@.len(),
            context matches Some(x) ==> x.state.wf(),
        ensures
            final(self).wf(),
            final(self).procedures == old(self).procedures,
            final(self).cursors@ == old(self).cursors@.update(
                c as int,
                Cursor {
                    current: if current is Some {
                        current->Some_0
                    } else {
                        old(self).cursors@[c as int].current
                    },
                    waiting: if waiting is Some {
                        waiting->Some_0
                    } else {
                        old(self).cursors@[c as int].waiting
                    },
                    resume: if resume is Some {
                        resume->Some_0
                    } else {
                        old(self).cursors@[c as int].resume
                    },
                    context: if context is Some {
                        context->Some_0
                    } else {
                        old(self).cursors@[c as int].context
                    },
                    ..old(self).cursors@[c as int]
                },
            ),
            r == if waiting is Some {
                old(self).cursors@[c as int].waiting
            } else {
                None
            },
    {
        let mut cur = self.cursors.remove(c);
        if let Some(e) = current {
            cur.current = e;
        }
        let mut r = None;
        if let Some(w) = waiting {
            r = cur.waiting.take();
            cur.waiting = w;
        }
        if let Some(b) = resume {
            cur.resume = b;
        }
        if let Some(x) = context {
            cur.context = x;
        }
        self.cursors.insert(c, cur);
        assert(self.cursors@ =~= old(self).cursors@.update(c as int, cur));
        assert forall|i: int| 0 <= i < self.cursors@.len() implies #[trigger] self.link_ok(i) by {
            assert(old(self).link_ok(i));
            assert forall|k: int| 0 <= k < self.cursors@[i].children@.len() implies i
                < #[trigger] self.cursors@[i].children@[k] < self.cursors@.len()
                && self.cursors@[self.cursors@[i].children@[k] as int].parent == Some(i as usize) by {
                let ch = old(self).cursors@[i].children@[k] as int;
                assert(self.cursors@[ch].parent == old(self).cursors@[ch].parent);
            }
        }
        assert forall|i: int| 0 <= i < self.cursors@.len() implies #[trigger] self.join_ok(i) by {
            assert(old(self).join_ok(i));
            assert(old(self).link_ok(i));
            if !self.cursors@[i].is_complete && self.cursors@[i].children@.len() > 0 {
                let w = choose|k: int|
                    0 <= k < old(self).cursors@[i].children@.len() && !old(self).cursors@[#[trigger] old(
                        self,
                    ).cursors@[i].children@[k] as int].is_complete;
                let ch = old(self).cursors@[i].children@[w] as int;
                assert(self.cursors@[ch].is_complete == old(self).cursors@[ch].is_complete);
            }
        }
        r
    }

    /// Moves `c` to `e`.
    fn move_to(&mut self, c: usize, e: Executable)
        requires
            old(self).wf(),
            c < old(self).cursors@.len(),
        ensures
            final(self).wf(),
            final(self).procedures == old(self).procedures,
            final(self).cursors@ == old(self).cursors@.update(c as int, moved(old(self).cursors@[c as int], e)),
    {
        self.update_cursor(c, Some(e), None, None, None);
        assert(self.cursors@ =~= old(self).cursors@.update(c as int, moved(old(self).cursors@[c as int], e)));
    }

    /// Spawns one child cursor of `c` per executable, in order. Each child
    /// starts on its executable with a snapshot of `c`'s state and a
    /// cancellation token derived from `c`'s; `c` waits for them.
    pub fn create_children(&mut self, c: usize, es: &Vec<Executable>)
        requires
            old(self).wf(),
            c < old(self).cursors@.len(),
            !old(self).cursors@[c as int].is_complete,
        ensures
            final(self).wf(),
            final(self).procedures == old(self).procedures,
            keeps_completion(old(self).cursors@, final(self).cursors@),
            contexts_kept(old(self).cursors@, final(self).cursors@, c as int),
            spawned(old(self).cursors@, final(self).cursors@, c as int, targets(es@)),
            final(self).cursors@[c as int].waiting == old(self).cursors@[c as int].waiting,
    {
        let ghost cs = self.cursors@;
        let n0 = self.cursors.len();
        proof {
            assert(old(self).link_ok(c as int));
        }
        let mut kids: Vec<usize> = Vec::new();
        let mut k: usize = 0;
        while k < es.len()
            invariant
                n0 == cs.len(),
                c < n0,
                cs == old(self).cursors@,
                old(self).link_ok(c as int),
                self.procedures == old(self).procedures,
                k <= es@.len(),
                self.cursors@.len() == n0 + k,
                forall|i: int| 0 <= i < n0 ==> #[trigger] self.cursors@[i] == cs[i],
                kids@.len() == k,
                forall|j: int| 0 <= j < k ==> #[trigger] kids@[j] == n0 + j,
                forall|j: int|
                    0 <= j < k ==> {
                        let ch = #[trigger] self.cursors@[n0 + j];
                        &&& ch.current@ == es@[j]@
                        &&& ch.parent == Some(c)
                        &&& !ch.is_complete
                        &&& ch.children@.len() == 0
                        &&& !ch.resume
                        &&& ch.waiting is None
                        &&& ch.procedure == cs[c as int].procedure
                        &&& ch.context.state@ == cs[c as int].context.state@
                        &&& ch.context.state.wf()
                    },
            decreases es.len() - k,
        {
            let id = fresh_id();
            let context = self.cursors[c].context.snapshot();
            let token = child_token(&self.cursors[c].cancel);
            let child = Cursor {
                id,
                procedure: self.cursors[c].procedure,
                context,
                current: es[k].clone(),
                parent: Some(c),
                children: Vec::new(),
                is_complete: false,
                resume: false,
                fanned: Vec::new(),
                waiting: None,
                cancel: token,
            };
            let idx = self.cursors.len();
            self.cursors.push(child);
            kids.push(idx);
            k += 1;
        }
        let ghost grown = self.cursors@;
        let mut cur = self.cursors.remove(c);
        cur.children = kids;
        cur.fanned = copy_executables(es);
        cur.resume = es.len() == 0;
        self.cursors.insert(c, cur);
        assert(self.cursors@ =~= grown.update(c as int, cur));
        proof {
            let n = self.cursors@.len();
            assert forall|i: int| 0 <= i < n implies #[trigger] self.link_ok(i) by {
                if i < n0 {
                    assert(old(self).link_ok(i));
                    if i != c {
                        assert forall|k2: int| 0 <= k2 < self.cursors@[i].children@.len() implies i
                            < #[trigger] self.cursors@[i].children@[k2] < self.cursors@.len()
                            && self.cursors@[self.cursors@[i].children@[k2] as int].parent == Some(
                            i as usize,
                        ) by {
                            let ch = cs[i].children@[k2] as int;
                            assert(self.cursors@[ch].parent == cs[ch].parent);
                        }
                    } else {
                        assert forall|k2: int| 0 <= k2 < self.cursors@[i].children@.len() implies i
                            < #[trigger] self.cursors@[i].children@[k2] < self.cursors@.len()
                            && self.cursors@[self.cursors@[i].children@[k2] as int].parent == Some(
                            i as usize,
                        ) by {
                            assert(self.cursors@[i].children@[k2] == n0 + k2);
                            assert(self.cursors@[n0 + k2] == grown[n0 + k2]);
                        }
                    }
                } else {
                    assert(self.cursors@[i] == grown[i]);
                    assert(grown[n0 + (i - n0)] == grown[i]);
                }
            }
            assert forall|i: int| 0 <= i < n implies #[trigger] self.join_ok(i) by {
                if i < n0 && i != c {
                    assert(old(self).join_ok(i));
                    assert(old(self).link_ok(i));
                    if !self.cursors@[i].is_complete && self.cursors@[i].children@.len() > 0 {
                        let w = choose|k2: int|
                            0 <= k2 < cs[i].children@.len() && !cs[#[trigger] cs[i].children@[k2] as int].is_complete;
                        let ch = cs[i].children@[w] as int;
                        assert(self.cursors@[ch].is_complete == cs[ch].is_complete);
                    }
                } else if i == c {
                    if es@.len() > 0 {
                        assert(self.cursors@[i].children@[0] == n0);
                        assert(self.cursors@[n0 as int] == grown[n0 + 0]);
                    }
                } else {
                    assert(self.cursors@[i] == grown[i]);
                    assert(grown[n0 + (i - n0)] == grown[i]);
                }
            }
            assert forall|i2: int| n0 <= i2 < n0 + es@.len() implies {
                let ch = #[trigger] self.cursors@[i2];
                &&& ch.current@ == targets(es@)[i2 - n0]
                &&& ch.parent == Some(c as usize)
                &&& !ch.is_complete
                &&& ch.children@.len() == 0
                &&& !ch.resume
                &&& ch.waiting is None
                &&& ch.procedure == cs[c as int].procedure
                &&& ch.context.state@ == cs[c as int].context.state@
            } by {
                let k2 = i2 - n0;
                assert(self.cursors@[n0 + k2] == grown[n0 + k2]);
            }
        }
    }

    /// Follows a plan for `c`: complete it, move it, or fan it out.
    fn follow(&mut self, c: usize, plan: Plan)
        requires
            old(self).wf(),
            c < old(self).cursors@.len(),
            !old(self).cursors@[c as int].is_complete,
        ensures
            final(self).wf(),
            final(self).procedures == old(self).procedures,
            keeps_completion(old(self).cursors@, final(self).cursors@),
            contexts_kept(old(self).cursors@, final(self).cursors@, c as int),
            follows(old(self).cursors@, final(self).cursors@, c as int, plan@),
    {
        match plan {
            Plan::Finish => {
                self.complete(c);
            },
            Plan::Move(e) => {
                self.move_to(c, e);
            },
            Plan::Spawn(es) => {
                self.create_children(c, &es);
            },
        }
    }

    /// Applies a directive to cursor `c`. A complete cursor is left as it is.
    pub fn handle_next_operation(&mut self, c: usize, next: Next)
        requires
            old(self).wf(),
            c < old(self).cursors@.len(),
        ensures
            final(self).wf(),
            final(self).procedures == old(self).procedures,
            keeps_completion(old(self).cursors@, final(self).cursors@),
            contexts_kept(old(self).cursors@, final(self).cursors@, c as int),
            old(self).cursors@[c as int].is_complete ==> final(self).cursors@ == old(self).cursors@,
            !old(self).cursors@[c as int].is_complete ==> directed(
                old(self).procedures@,
                old(self).cursors@,
                final(self).cursors@,
                c as int,
                next,
            ),
    {
        if self.cursors[c].is_complete {
            return;
        }
        proof {
            assert(old(self).link_ok(c as int));
        }
        match next {
            Next::Null => {},
            Next::Continue => {
                let pi = self.cursors[c].procedure;
                let outs = match &self.procedures[pi] {
                    Some(p) => Some(self.cursors[c].current.outgoings(p)),
                    None => None,
                };
                match outs {
                    Some(outs) => {
                        let plan = continue_plan(outs);
                        self.follow(c, plan);
                    },
                    None => {
                        self.complete(c);
                    },
                }
            },
            Next::One(e) => {
                self.follow(c, Plan::Move(e));
            },
            Next::Parallel(es) => {
                self.follow(c, Plan::Spawn(es));
            },
            Next::Select(es) => {
                let plan = select_plan(&es);
                self.follow(c, plan);
            },
            Next::Wait(e, t) => {
                self.update_cursor(c, None, Some(Some((e, t))), None, None);
                assert(self.cursors@ =~= old(self).cursors@.update(
                    c as int,
                    Cursor { waiting: Some((e, t)), ..old(self).cursors@[c as int] },
                ));
            },
            Next::Complete => {
                self.complete(c);
            },
            Next::Bubble => {
                self.complete_and_bubble(c);
            },
        }
    }

    /// Takes one step of cursor `c`: decides from its position what its
    /// task does next, and makes the moves that need no outside work.
    pub fn execute_current(&mut self, c: usize) -> (r: Step)
        requires
            old(self).wf(),
            c < old(self).cursors@.len(),
        ensures
            final(self).wf(),
            final(self).procedures == old(self).procedures,
            keeps_completion(old(self).cursors@, final(self).cursors@),
            contexts_kept(old(self).cursors@, final(self).cursors@, c as int),
            old(self).cursors@[c as int].is_complete ==> r is Finished && final(self).cursors@
                == old(self).cursors@,
            !old(self).cursors@[c as int].is_complete ==> stepped(
                *old(self),
                final(self).cursors@,
                c as int,
                r,
            ),
    {
        if self.cursors[c].is_complete {
            return Step::Finished;
        }
        proof {
            assert(old(self).link_ok(c as int));
        }
        let pi = self.cursors[c].procedure;
        if self.procedures[pi].is_none() {
            self.complete(c);
            return Step::Finished;
        }
        if self.cursors[c].children.len() > 0 {
            return Step::Suspended;
        }
        if self.cursors[c].resume {
            self.update_cursor(c, None, None, Some(false), None);
            let ghost mid = self.cursors@;
            assert(mid =~= old(self).cursors@.update(
                c as int,
                Cursor { resume: false, ..old(self).cursors@[c as int] },
            ));
            let rest = match &self.procedures[pi] {
                Some(p) => {
                    let outs = self.cursors[c].current.outgoings(p);
                    without_executables(&outs, &self.cursors[c].fanned)
                },
                None => Vec::new(),
            };
            let plan = continue_plan(rest);
            self.follow(c, plan);
            return Step::Yield;
        }
        if let Some(w) = &self.cursors[c].waiting {
            return Step::Sleep(w.1);
        }
        match &self.cursors[c].current {
            Executable::Procedure => {
                let start = match &self.procedures[pi] {
                    Some(p) => p.start_node(),
                    None => None,
                };
                match start {
                    Some(i) => {
                        self.move_to(c, Executable::Node(i));
                        Step::Yield
                    },
                    None => {
                        self.complete(c);
                        Step::Finished
                    },
                }
            },
            Executable::Node(i) => {
                let i = *i;
                let ok = match &self.procedures[pi] {
                    Some(p) => i < p.nodes.len(),
                    None => false,
                };
                if ok {
                    Step::RunNode(i)
                } else {
                    self.complete(c);
                    Step::Finished
                }
            },
            Executable::Flow(i) => {
                let i = *i;
                let ok = match &self.procedures[pi] {
                    Some(p) => i < p.flows.len(),
                    None => false,
                };
                if ok {
                    Step::CheckFlow(i)
                } else {
                    self.complete(c);
                    Step::Finished
                }
            },
            Executable::Selection(fs) => {
                let fs = copy_flows(fs);
                let mut ok = true;
                match &self.procedures[pi] {
                    Some(p) => {
                        let mut k: usize = 0;
                        while k < fs.len()
                            invariant
                                k <= fs@.len(),
                                ok == flows_exist(fs@.subrange(0, k as int), *p),
                            decreases fs.len() - k,
                        {
                            if fs[k] >= p.flows.len() {
                                ok = false;
                            }
                            k += 1;
                            assert(ok == flows_exist(fs@.subrange(0, k as int), *p)) by {
                                if !ok {
                                    if fs@[k - 1] >= p.flows@.len() {
                                        assert(fs@.subrange(0, k as int)[k - 1] == fs@[k - 1]);
                                    } else {
                                        assert(!flows_exist(fs@.subrange(0, k - 1), *p));
                                        let w = choose|j: int|
                                            0 <= j < k - 1 && !(#[trigger] fs@.subrange(0, k - 1)[j]
                                                < p.flows@.len());
                                        assert(fs@.subrange(0, k as int)[w] == fs@.subrange(0, k - 1)[w]);
                                    }
                                }
                            }
                        }
                        assert(fs@.subrange(0, k as int) =~= fs@);
                    },
                    None => {},
                }
                if ok {
                    Step::RaceFlows(fs)
                } else {
                    self.complete(c);
                    Step::Finished
                }
            },
        }
    }

    /// Settles a selection race of cursor `c`: `results` holds the
    /// conditions of its flows in order, as far as they were evaluated. The
    /// first flow whose condition held wins; if none held, `c` completes.
    pub fn resolve_selection(&mut self, c: usize, results: &Vec<bool>)
        requires
            old(self).wf(),
            c < old(self).cursors@.len(),
        ensures
            final(self).wf(),
            final(self).procedures == old(self).procedures,
            keeps_completion(old(self).cursors@, final(self).cursors@),
            contexts_kept(old(self).cursors@, final(self).cursors@, c as int),
            old(self).cursors@[c as int].is_complete || !(old(self).cursors@[c as int].current@ is Selection)
                ==> final(self).cursors@ == old(self).cursors@,
            !old(self).cursors@[c as int].is_complete ==> (old(self).cursors@[c as int].current@ matches Target::Selection(fs) ==>
                match first_true(results@, 0, fs.len() as int) {
                    Some(k) => follows(
                        old(self).cursors@,
                        final(self).cursors@,
                        c as int,
                        Route::Move(Target::Flow(fs[k])),
                    ),
                    None => follows(old(self).cursors@, final(self).cursors@, c as int, Route::Finish),
                }),
    {
        if self.cursors[c].is_complete {
            return;
        }
        let fs = match &self.cursors[c].current {
            Executable::Selection(fs) => copy_flows(fs),
            _ => {
                return;
            },
        };
        let mut k: usize = 0;
        while k < fs.len() && k < results.len()
            invariant
                k <= fs@.len(),
                self.cursors == old(self).cursors,
                self.procedures == old(self).procedures,
                old(self).wf(),
                c < old(self).cursors@.len(),
                !old(self).cursors@[c as int].is_complete,
                old(self).cursors@[c as int].current@ == Target::Selection(fs@),
                first_true(results@, 0, fs@.len() as int) == first_true(results@, k as int, fs@.len() as int),
            decreases fs.len() - k,
        {
            if results[k] {
                let f = fs[k];
                self.move_to(c, Executable::Flow(f));
                return;
            }
            k += 1;
        }
        self.complete(c);
    }

    /// Ends the pending wait of cursor `c`: it moves to the executable it
    /// waited for. A complete cursor, or one that does not wait, is left as
    /// it is.
    pub fn wake(&mut self, c: usize)
        requires
            old(self).wf(),
            c < old(self).cursors@.len(),
        ensures
            final(self).wf(),
            final(self).procedures == old(self).procedures,
            keeps_completion(old(self).cursors@, final(self).cursors@),
            contexts_kept(old(self).cursors@, final(self).cursors@, c as int),
            (old(self).cursors@[c as int].is_complete || old(self).cursors@[c as int].waiting is None)
                ==> final(self).cursors@ == old(self).cursors@,
            !old(self).cursors@[c as int].is_complete && old(self).cursors@[c as int].waiting is Some
                ==> final(self).cursors@ == old(self).cursors@.update(
                c as int,
                Cursor {
                    current: old(self).cursors@[c as int].waiting->Some_0.0,
                    waiting: None,
                    ..old(self).cursors@[c as int]
                },
            ),
    {
        if self.cursors[c].is_complete || self.cursors[c].waiting.is_none() {
            return;
        }
        let w = self.update_cursor(c, None, Some(None), None, None);
        if let Some((e, _)) = w {
            self.update_cursor(c, Some(e), None, None, None);
        }
        assert(self.cursors@ =~= old(self).cursors@.update(
            c as int,
            Cursor {
                current: old(self).cursors@[c as int].waiting->Some_0.0,
                waiting: None,
                ..old(self).cursors@[c as int]
            },
        ));
    }

    /// Drops procedure `pi`: the cursors that run it fail on their next
    /// step with `Canceled` and complete.
    pub fn release_procedure(&mut self, pi: usize)
        requires
            old(self).wf(),
            pi < old(self).procedures@.len(),
        ensures
            final(self).wf(),
            final(self).cursors == old(self).cursors,
            final(self).procedures@ == old(self).procedures@.update(pi as int, None),
    {
        self.procedures.set(pi, None);
        assert forall|i: int| 0 <= i < self.cursors@.len() implies #[trigger] self.link_ok(i) by {
            assert(old(self).link_ok(i));
        }
        assert forall|i: int| 0 <= i < self.cursors@.len() implies #[trigger] self.join_ok(i) by {
            assert(old(self).join_ok(i));
        }
    }

    /// Registers the procedures, each with a fresh root cursor positioned on
    /// the procedure itself. Their tasks are then started by the caller.
    pub fn start_procedure(&mut self, procedures: Vec<Procedure>)
        requires
            old(self).wf(),
            forall|k: int| 0 <= k < procedures@.len() ==> (#[trigger] procedures@[k]).wf(),
        ensures
            final(self).wf(),
            keeps_completion(old(self).cursors@, final(self).cursors@),
            final(self).procedures@.len() == old(self).procedures@.len() + procedures@.len(),
            final(self).cursors@.len() == old(self).cursors@.len() + procedures@.len(),
            forall|i: int|
                0 <= i < old(self).procedures@.len() ==> #[trigger] final(self).procedures@[i]
                    == old(self).procedures@[i],
            forall|i: int|
                0 <= i < old(self).cursors@.len() ==> #[trigger] final(self).cursors@[i]
                    == old(self).cursors@[i],
            forall|i: int|
                old(self).procedures@.len() <= i < final(self).procedures@.len()
                    ==> #[trigger] final(self).procedures@[i] == Some(
                    procedures@[i - old(self).procedures@.len()],
                ),
            forall|i: int|
                old(self).cursors@.len() <= i < final(self).cursors@.len() ==> is_root(
                    #[trigger] final(self).cursors@[i],
                    old(self).procedures@.len() + (i - old(self).cursors@.len()),
                ),
    {
        let ghost np = old(self).procedures@.len();
        let ghost nc = old(self).cursors@.len();
        let ghost all = procedures@;
        let mut rest = procedures;
        let ghost mut k: int = 0;
        while rest.len() > 0
            invariant
                self.wf(),
                0 <= k <= all.len(),
                rest@ == all.subrange(k, all.len() as int),
                forall|j: int| 0 <= j < all.len() ==> (#[trigger] all[j]).wf(),
                self.procedures@.len() == np + k,
                self.cursors@.len() == nc + k,
                forall|i: int| 0 <= i < np ==> #[trigger] self.procedures@[i] == old(self).procedures@[i],
                forall|i: int| 0 <= i < nc ==> #[trigger] self.cursors@[i] == old(self).cursors@[i],
                forall|j: int| 0 <= j < k ==> #[trigger] self.procedures@[np + j] == Some(all[j]),
                forall|j: int| 0 <= j < k ==> is_root(#[trigger] self.cursors@[nc + j], np + j),
            decreases rest.len(),
        {
            let p = rest.remove(0);
            assert(p == all[k]);
            let pi = self.procedures.len();
            let ghost before = *self;
            self.procedures.push(Some(p));
            let cursor = Cursor {
                id: fresh_id(),
                procedure: pi,
                context: Context::new(),
                current: Executable::Procedure,
                parent: None,
                children: Vec::new(),
                is_complete: false,
                resume: false,
                fanned: Vec::new(),
                waiting: None,
                cancel: root_token(),
            };
            self.cursors.push(cursor);
            proof {
                assert forall|i: int| 0 <= i < self.procedures@.len() implies (#[trigger] self.procedures@[i] matches Some(q) ==> q.wf()) by {
                    if i < np + k {
                        assert(before.procedures@[i] == self.procedures@[i]);
                    } else {
                        assert(self.procedures@[i] == Some(all[k]));
                    }
                }
                assert forall|i: int| 0 <= i < self.cursors@.len() implies #[trigger] self.link_ok(i) by {
                    if i < self.cursors@.len() - 1 {
                        assert(before.link_ok(i));
                        assert forall|k2: int| 0 <= k2 < self.cursors@[i].children@.len() implies i
                            < #[trigger] self.cursors@[i].children@[k2] < self.cursors@.len()
                            && self.cursors@[self.cursors@[i].children@[k2] as int].parent == Some(
                            i as usize,
                        ) by {
                            let ch = before.cursors@[i].children@[k2] as int;
                            assert(self.cursors@[ch] == before.cursors@[ch]);
                        }
                    }
                }
                assert forall|i: int| 0 <= i < self.cursors@.len() implies #[trigger] self.join_ok(i) by {
                    if i < self.cursors@.len() - 1 {
                        assert(before.join_ok(i));
                        assert(before.link_ok(i));
                        if !self.cursors@[i].is_complete && self.cursors@[i].children@.len() > 0 {
                            let w = choose|k2: int|
                                0 <= k2 < before.cursors@[i].children@.len() && !before.cursors@[#[trigger] before.cursors@[i].children@[k2] as int].is_complete;
                            let ch = before.cursors@[i].children@[w] as int;
                            assert(self.cursors@[ch] == before.cursors@[ch]);
                        }
                    }
                }
                assert(self.cursors@[nc + k] == cursor);
            }
            proof {
                k = k + 1;
            }
        }
        assert forall|i: int| np <= i < self.procedures@.len() implies #[trigger] self.procedures@[i]
            == Some(all[i - np]) by {
            assert(self.procedures@[np + (i - np)] == Some(all[i - np]));
        }
        assert forall|i: int| nc <= i < self.cursors@.len() implies is_root(
            #[trigger] self.cursors@[i],
            np + (i - nc),
        ) by {
            assert(is_root(self.cursors@[nc + (i - nc)], np + (i - nc)));
        }
    }

    /// A script run for cursor `c`: it starts from a snapshot of the
    /// cursor's state and records no directive.
    pub fn prepare_script(&self, c: usize) -> (r: Script)
        requires
            self.wf(),
            c < self.cursors@.len(),
        ensures
            r.state.wf(),
            r.state@ == self.cursors@[c as int].context.state@,
            r.request is Null,
    {
        proof {
            assert(self.link_ok(c as int));
        }
        Script::new(self.cursors[c].context.state.snapshot())
    }

    /// Applies a finished script to cursor `c`: its state becomes the
    /// cursor's, and its directive is applied; a directive that names
    /// nothing in the procedure fails the script, which completes the
    /// cursor. A complete cursor is left as it is.
    pub fn apply_script(&mut self, c: usize, script: Script)
        requires
            old(self).wf(),
            c < old(self).cursors@.len(),
            script.state.wf(),
        ensures
            final(self).wf(),
            final(self).procedures == old(self).procedures,
            keeps_completion(old(self).cursors@, final(self).cursors@),
            contexts_kept(old(self).cursors@, final(self).cursors@, c as int),
            old(self).cursors@[c as int].is_complete ==> final(self).cursors@ == old(self).cursors@,
            !old(self).cursors@[c as int].is_complete ==> scripted(
                old(self).procedures@,
                old(self).cursors@.update(
                    c as int,
                    Cursor {
                        context: Context { state: script.state },
                        ..old(self).cursors@[c as int]
                    },
                ),
                final(self).cursors@,
                c as int,
                script.request,
            ),
    {
        if self.cursors[c].is_complete {
            return;
        }
        let Script { state, request } = script;
        let ghost st = state;
        self.update_cursor(c, None, None, None, Some(Context { state }));
        assert(self.cursors@ =~= old(self).cursors@.update(
            c as int,
            Cursor { context: Context { state: st }, ..old(self).cursors@[c as int] },
        ));
        match request {
            Request::Null => {},
            Request::Continue => self.handle_next_operation(c, Next::Continue),
            Request::Complete => self.handle_next_operation(c, Next::Complete),
            Request::Bubble => self.handle_next_operation(c, Next::Bubble),
            Request::One(name) => {
                let pi = self.cursors[c].procedure;
                proof {
                    assert(self.link_ok(c as int));
                }
                let target = match &self.procedures[pi] {
                    Some(p) => {
                        proof {
                            assert(self.procedures@[pi as int] matches Some(q) ==> q.wf());
                        }
                        match p.find(name.as_str()) {
                            Ok(e) => Some(e),
                            Err(_) => None,
                        }
                    },
                    None => None,
                };
                match target {
                    Some(e) => self.move_to(c, e),
                    None => self.complete(c),
                }
            },
        }
    }

    /// A live cursor waiting on a fan-out has a live child: the parent
    /// stays suspended exactly while some child of the fan-out runs.
    pub proof fn lemma_fan_out_pending(&self, c: int)
        requires
            self.wf(),
            0 <= c < self.cursors@.len(),
            !self.cursors@[c].is_complete,
            self.cursors@[c].children@.len() > 0,
        ensures
            exists|k: int|
                0 <= k < self.cursors@[c].children@.len() && !self.cursors@[#[trigger] self.cursors@[c].children@[k] as int].is_complete,
    {
        assert(self.join_ok(c));
    }

    /// `Continue` is deterministic: two live, unsuspended cursors with the
    /// same outgoings both complete, or move to the same target, or fan out
    /// into children on the same targets in the same order.
    pub proof fn lemma_continue_deterministic(
        procs1: Seq<Option<Procedure>>,
        before1: Seq<Cursor>,
        after1: Seq<Cursor>,
        c1: int,
        procs2: Seq<Option<Procedure>>,
        before2: Seq<Cursor>,
        after2: Seq<Cursor>,
        c2: int,
    )
        requires
            0 <= c1 < before1.len(),
            0 <= c2 < before2.len(),
            !before1[c1].is_complete && before1[c1].children@.len() == 0,
            !before2[c2].is_complete && before2[c2].children@.len() == 0,
            procs1[before1[c1].procedure as int] is Some,
            procs2[before2[c2].procedure as int] is Some,
            outgoings_of(before1[c1].current@, procs1[before1[c1].procedure as int]->Some_0)
                == outgoings_of(before2[c2].current@, procs2[before2[c2].procedure as int]->Some_0),
            directed(procs1, before1, after1, c1, Next::Continue),
            directed(procs2, before2, after2, c2, Next::Continue),
        ensures
            after1[c1].is_complete <==> after2[c2].is_complete,
            !after1[c1].is_complete ==> after1[c1].children@.len() == after2[c2].children@.len(),
            !after1[c1].is_complete && after1[c1].children@.len() == 0 ==> after1[c1].current@
                == after2[c2].current@,
            !after1[c1].is_complete ==> forall|k: int|
                0 <= k < after1[c1].children@.len() ==> after1[#[trigger] after1[c1].children@[k] as int].current@
                    == after2[after2[c2].children@[k] as int].current@,
    {
        let outs = outgoings_of(before1[c1].current@, procs1[before1[c1].procedure as int]->Some_0);
        match continue_route(outs) {
            Route::Finish => {},
            Route::Move(t) => {},
            Route::Spawn(ts) => {
                let n1 = before1.len();
                let n2 = before2.len();
                assert forall|k: int| 0 <= k < after1[c1].children@.len() implies after1[#[trigger] after1[c1].children@[k] as int].current@
                    == after2[after2[c2].children@[k] as int].current@ by {
                    assert(after1[c1].children@[k] == n1 + k);
                    assert(after2[c2].children@[k] == n2 + k);
                    assert(after1[n1 + k].current@ == ts[(n1 + k) - n1]);
                    assert(after2[n2 + k].current@ == ts[(n2 + k) - n2]);
                }
            },
        }
    }

    /// The cursors that are not complete, in index order: a completed
    /// cursor leaves this set for good.
    pub fn live_cursors(&self) -> (r: Vec<usize>)
        ensures
            forall|k: int| 0 <= k < r@.len() ==> (#[trigger] r@[k]) < self.cursors@.len() && !self.cursors@[r@[k] as int].is_complete,
            forall|a: int, b: int| 0 <= a < b < r@.len() ==> (#[trigger] r@[a]) < (#[trigger] r@[b]),
            forall|i: int|
                0 <= i < self.cursors@.len() && !(#[trigger] self.cursors@[i]).is_complete ==> r@.contains(i as usize),
    {
        let mut r: Vec<usize> = Vec::new();
        let mut i: usize = 0;
        while i < self.cursors.len()
            invariant
                i <= self.cursors@.len(),
                forall|k: int| 0 <= k < r@.len() ==> (#[trigger] r@[k]) < i && !self.cursors@[r@[k] as int].is_complete,
                forall|a: int, b: int| 0 <= a < b < r@.len() ==> (#[trigger] r@[a]) < (#[trigger] r@[b]),
                forall|j: int| 0 <= j < i && !(#[trigger] self.cursors@[j]).is_complete ==> r@.contains(j as usize),
            decreases self.cursors.len() - i,
        {
            if !self.cursors[i].is_complete {
                let ghost prev = r@;
                r.push(i);
                assert forall|j: int| 0 <= j < i + 1 && !(#[trigger] self.cursors@[j]).is_complete implies r@.contains(j as usize) by {
                    if j < i {
                        let w = choose|w: int| 0 <= w < prev.len() && prev[w] == j as usize;
                        assert(r@[w] == j as usize);
                    } else {
                        assert(r@[r@.len() - 1] == i);
                    }
                }
            }
            i += 1;
        }
        r
    }
}

} // verus!
