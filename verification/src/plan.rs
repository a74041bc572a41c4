//! The build plan: the scheduler lifted from node indices to unit paths.
//! Paths are interned into a duplicate-free node table; the plan then
//! releases paths one at a time, and `schedule` runs a whole plan to its
//! end, reporting a residual cycle when not every unit could be released.

use vstd::prelude::*;
use crate::schedule::{
    lemma_distinct_full, lemma_some_missing, lemma_unresolved_pos, unresolved, Scheduler,
};

verus! {

/// The views of a string edge list.
pub open spec fn edge_views(edges: Seq<(String, String)>) -> Seq<(Seq<char>, Seq<char>)> {
    edges.map(|k: int, e: (String, String)| (e.0@, e.1@))
}

/// Whether `p` is an endpoint of some edge.
pub open spec fn is_endpoint(es: Seq<(Seq<char>, Seq<char>)>, p: Seq<char>) -> bool {
    exists|k: int| 0 <= k < es.len() && ((#[trigger] es[k]).0 == p || es[k].1 == p)
}

/// `s` witnesses a dependency cycle: it is inhabited, and every one of
/// its members is the dependent of an edge whose dependency is again in
/// `s`.  A finite edge set admitting such a witness contains a cycle, and
/// an acyclic edge set admits none.
pub open spec fn cycle_witness(es: Seq<(Seq<char>, Seq<char>)>, s: Set<Seq<char>>) -> bool {
    &&& exists|p: Seq<char>| s.contains(p)
    &&& forall|p: Seq<char>|
        #[trigger] s.contains(p) ==> exists|k: int|
            0 <= k < es.len() && (#[trigger] es[k]).0 == p && s.contains(es[k].1)
}

/// Whether the edge set contains a dependency cycle.
pub open spec fn has_cycle(es: Seq<(Seq<char>, Seq<char>)>) -> bool {
    exists|s: Set<Seq<char>>| cycle_witness(es, s)
}

/// A scheduler over interned unit paths.
pub struct BuildPlan {
    /// The distinct unit paths, indexed by node number.
    pub nodes: Vec<String>,
    /// The index-level scheduler.
    pub sched: Scheduler,
}

impl BuildPlan {
    /// The node table names each node once, and the scheduler is
    /// consistent and sized to it.
    pub open spec fn wf(self) -> bool {
        &&& self.sched.wf()
        &&& self.sched.n == self.nodes@.len()
        &&& forall|i: int, j: int|
            0 <= i < j < self.nodes@.len() ==> self.nodes@[i]@ != self.nodes@[j]@
    }

    /// The plan represents exactly the edge list `es`: edge for edge with
    /// matching endpoint paths, and every node is an endpoint.
    pub open spec fn corresponds(self, es: Seq<(Seq<char>, Seq<char>)>) -> bool {
        &&& self.sched.edges@.len() == es.len()
        &&& forall|k: int|
            0 <= k < es.len() ==> self.nodes@[(#[trigger] self.sched.edges@[k]).0 as int]@ == (
            #[trigger] es[k]).0 && self.nodes@[self.sched.edges@[k].1 as int]@ == es[k].1
        &&& forall|i: int|
            0 <= i < self.nodes@.len() ==> is_endpoint(es, (#[trigger] self.nodes@[i])@)
    }

    /// The paths released so far, in release order.
    pub open spec fn released(self) -> Seq<Seq<char>> {
        self.sched.emitted().map(|t: int, u: usize| self.nodes@[u as int]@)
    }
}

/// The index of `s` in `nodes`, interning it at the back when absent.
/// The table stays duplicate-free and already-assigned indices keep their
/// paths.
fn intern(nodes: &mut Vec<String>, s: &String) -> (r: usize)
    requires
        forall|i: int, j: int|
            0 <= i < j < old(nodes)@.len() ==> old(nodes)@[i]@ != old(nodes)@[j]@,
    ensures
        forall|i: int, j: int|
            0 <= i < j < final(nodes)@.len() ==> final(nodes)@[i]@ != final(nodes)@[j]@,
        final(nodes)@.len() >= old(nodes)@.len(),
        forall|i: int| 0 <= i < old(nodes)@.len() ==> final(nodes)@[i] == old(nodes)@[i],
        r < final(nodes)@.len(),
        final(nodes)@[r as int]@ == s@,
        final(nodes)@.len() <= old(nodes)@.len() + 1,
        forall|i: int|
            old(nodes)@.len() <= i < final(nodes)@.len() ==> final(nodes)@[i]@ == s@,
{
    let n = nodes.len();
    let mut i: usize = 0;
    while i < n
        invariant
            i <= n,
            n == nodes@.len(),
            nodes@ == old(nodes)@,
            forall|a: int, b: int|
                0 <= a < b < old(nodes)@.len() ==> old(nodes)@[a]@ != old(nodes)@[b]@,
            forall|j: int| 0 <= j < i ==> nodes@[j]@ != s@,
        decreases n - i,
    {
        if nodes[i].eq(s) {
            proof {
                assert forall|a: int, b: int|
                    0 <= a < b < nodes@.len() implies nodes@[a]@ != nodes@[b]@ by {
                    assert(old(nodes)@[a]@ != old(nodes)@[b]@);
                }
            }
            return i;
        }
        i = i + 1;
    }
    nodes.push(s.clone());
    n
}

impl BuildPlan {
    /// Intern both endpoints of every edge and build the scheduler over
    /// the resulting node numbers.
    pub fn from_edges(edges: &Vec<(String, String)>) -> (p: BuildPlan)
        ensures
            p.wf(),
            p.corresponds(edge_views(edges@)),
            p.sched.head == 0,
    {
        let m = edges.len();
        let ghost es = edge_views(edges@);
        let mut nodes: Vec<String> = Vec::new();
        let mut ie: Vec<(usize, usize)> = Vec::new();
        let mut k: usize = 0;
        while k < m
            invariant
                k <= m,
                m == edges@.len(),
                es == edge_views(edges@),
                ie@.len() == k,
                forall|i: int, j: int| 0 <= i < j < nodes@.len() ==> nodes@[i]@ != nodes@[j]@,
                forall|t: int|
                    0 <= t < k ==> (#[trigger] ie@[t]).0 < nodes@.len() && ie@[t].1 < nodes@.len(),
                forall|t: int|
                    0 <= t < k ==> nodes@[(#[trigger] ie@[t]).0 as int]@ == es[t].0 && nodes@[
                        ie@[t].1 as int
                    ]@ == es[t].1,
                forall|i: int|
                    0 <= i < nodes@.len() ==> is_endpoint(es, (#[trigger] nodes@[i])@),
            decreases m - k,
        {
            let ghost len0 = nodes@.len();
            let a = intern(&mut nodes, &edges[k].0);
            proof {
                assert forall|i: int|
                    0 <= i < nodes@.len() implies is_endpoint(es, (#[trigger] nodes@[i])@) by {
                    if i >= len0 {
                        assert(es[k as int].0 == edges@[k as int].0@);
                        assert(nodes@[i]@ == edges@[k as int].0@);
                    }
                }
            }
            let ghost len1 = nodes@.len();
            let b = intern(&mut nodes, &edges[k].1);
            proof {
                assert forall|i: int|
                    0 <= i < nodes@.len() implies is_endpoint(es, (#[trigger] nodes@[i])@) by {
                    if i >= len1 {
                        assert(es[k as int].1 == edges@[k as int].1@);
                        assert(nodes@[i]@ == edges@[k as int].1@);
                    }
                }
            }
            ie.push((a, b));
            proof {
                assert(nodes@[a as int]@ == edges@[k as int].0@);
                assert(nodes@[b as int]@ == edges@[k as int].1@);
                assert(es[k as int].0 == edges@[k as int].0@ && es[k as int].1 == edges@[
                    k as int
                ].1@);
            }
            k = k + 1;
        }
        let n = nodes.len();
        let sched = Scheduler::new(n, &ie);
        proof {
            assert(sched.edges@ == ie@);
        }
        BuildPlan { nodes, sched }
    }

    /// How many units the plan covers.
    pub fn total(&self) -> (r: usize)
        ensures
            r == self.nodes@.len(),
    {
        self.nodes.len()
    }

    /// How many units have been released so far.
    pub fn completed(&self) -> (r: usize)
        ensures
            r == self.sched.head,
    {
        self.sched.head
    }

    /// The path of the next unit to build, if any unit is ready.
    pub fn next_target(&self) -> (r: Option<String>)
        requires
            self.wf(),
        ensures
            match r {
                Option::Some(name) => self.sched.head < self.sched.queue@.len() && name@
                    == self.nodes@[self.sched.queue@[self.sched.head as int] as int]@,
                Option::None => self.sched.head == self.sched.queue@.len(),
            },
    {
        match self.sched.next_target() {
            Option::Some(u) => Option::Some(self.nodes[u].clone()),
            Option::None => Option::None,
        }
    }

    /// Release the unit at the head of the ready queue.
    pub fn complete_current(&mut self)
        requires
            old(self).wf(),
            old(self).sched.head < old(self).sched.queue@.len(),
        ensures
            final(self).wf(),
            final(self).nodes == old(self).nodes,
            final(self).sched.edges == old(self).sched.edges,
            final(self).sched.n == old(self).sched.n,
            final(self).sched.head == old(self).sched.head + 1,
            final(self).released() == old(self).released().push(
                old(self).nodes@[old(self).sched.queue@[old(self).sched.head as int] as int]@,
            ),
    {
        self.sched.complete_current();
        proof {
            assert(self.released() =~= old(self).released().push(
                old(self).nodes@[old(self).sched.queue@[old(self).sched.head as int] as int]@,
            ));
        }
    }
}

/// Why a schedule stopped early: after `scheduled` of the `total` units,
/// no unit was left without an unbuilt dependency, so the remaining units
/// depend on one another in a cycle.
#[derive(Clone, Copy, PartialEq, Eq, Structural, Debug)]
pub struct ResidualCycle {
    /// How many units were released before the schedule stalled.
    pub scheduled: usize,
    /// How many units the dependency graph holds.
    pub total: usize,
}

/// `ord` is a valid topological order of the edge list `es`: it lists
/// exactly the endpoints of `es`, each of them once, and for every edge
/// the dependency comes strictly before its dependent.
pub open spec fn valid_topological_order(
    es: Seq<(Seq<char>, Seq<char>)>,
    ord: Seq<String>,
) -> bool {
    &&& forall|pv: Seq<char>|
        is_endpoint(es, pv) ==> exists|i: int| 0 <= i < ord.len() && (#[trigger] ord[i])@ == pv
    &&& forall|i: int| 0 <= i < ord.len() ==> is_endpoint(es, (#[trigger] ord[i])@)
    &&& forall|i: int, j: int| 0 <= i < j < ord.len() ==> ord[i]@ != ord[j]@
    &&& forall|k: int, i: int|
        0 <= k < es.len() && 0 <= i < ord.len() && (#[trigger] ord[i])@ == (#[trigger] es[k]).0
            ==> exists|j: int| 0 <= j < i && ord[j]@ == es[k].1
}

/// A finished full schedule read off a plan is a valid topological
/// order: it lists exactly the endpoints, each once, and every edge's
/// dependency strictly before its dependent.
proof fn lemma_schedule_ok(p: BuildPlan, es: Seq<(Seq<char>, Seq<char>)>, ord: Seq<String>)
    requires
        p.wf(),
        p.corresponds(es),
        p.sched.head == p.sched.queue@.len(),
        p.sched.queue@.len() == p.nodes@.len(),
        ord.len() == p.sched.queue@.len(),
        forall|t: int|
            0 <= t < ord.len() ==> (#[trigger] ord[t])@ == p.nodes@[p.sched.queue@[t] as int]@,
    ensures
        valid_topological_order(es, ord),
{
    let q = p.sched.queue@;
    let nodes = p.nodes@;
    let n = nodes.len();
    lemma_distinct_full(q, n);
    assert forall|pv: Seq<char>| is_endpoint(es, pv) implies exists|i: int|
        0 <= i < ord.len() && (#[trigger] ord[i])@ == pv by {
        let k = choose|k: int| 0 <= k < es.len() && ((#[trigger] es[k]).0 == pv || es[k].1 == pv);
        let u = if es[k].0 == pv {
            p.sched.edges@[k].0
        } else {
            p.sched.edges@[k].1
        };
        assert(nodes[u as int]@ == pv);
        assert(q.contains(u));
        let i = choose|i: int| 0 <= i < q.len() && q[i] == u;
        assert(ord[i]@ == pv);
    }
    assert forall|k: int, i: int|
        0 <= k < es.len() && 0 <= i < ord.len() && (#[trigger] ord[i])@ == (
        #[trigger] es[k]).0 implies exists|j: int| 0 <= j < i && ord[j]@ == es[k].1 by {
        let a = p.sched.edges@[k].0;
        let b = p.sched.edges@[k].1;
        assert(nodes[a as int]@ == es[k].0);
        assert(nodes[q[i] as int]@ == ord[i]@);
        assert(q[i] == a) by {
            if q[i] != a {
                assert(nodes[q[i] as int]@ != nodes[a as int]@);
            }
        }
        let j = choose|j: int| 0 <= j < i && p.sched.queue@[j] == b;
        assert(ord[j]@ == nodes[b as int]@);
    }
}

/// A stalled partial schedule exhibits a dependency cycle: the paths of
/// the units never released form a cycle witness.
proof fn lemma_schedule_err(p: BuildPlan, es: Seq<(Seq<char>, Seq<char>)>)
    requires
        p.wf(),
        p.corresponds(es),
        p.sched.head == p.sched.queue@.len(),
        p.sched.queue@.len() < p.nodes@.len(),
    ensures
        has_cycle(es),
{
    let q = p.sched.queue@;
    let nodes = p.nodes@;
    let n = nodes.len();
    let emitted = p.sched.emitted();
    let iedges = p.sched.edges@;
    assert(emitted =~= q);
    let s = Set::new(
        |pv: Seq<char>| exists|u: usize| u < n && !emitted.contains(u) && nodes[u as int]@ == pv,
    );
    lemma_some_missing(q, n);
    let u0 = choose|u: usize| u < n && !q.contains(u);
    assert(s.contains(nodes[u0 as int]@));
    assert forall|pv: Seq<char>| #[trigger] s.contains(pv) implies exists|k: int|
        0 <= k < es.len() && (#[trigger] es[k]).0 == pv && s.contains(es[k].1) by {
        let u = choose|u: usize| u < n && !emitted.contains(u) && nodes[u as int]@ == pv;
        assert(p.sched.counts@[u as int] != 0) by {
            if p.sched.counts@[u as int] == 0 {
                assert(q.contains(u));
                let i = choose|i: int| 0 <= i < q.len() && q[i] == u;
                assert(emitted[i] == u);
            }
        }
        assert(unresolved(iedges, u, emitted.to_set()) > 0);
        lemma_unresolved_pos(iedges, u, emitted.to_set());
        let k = choose|k: int|
            0 <= k < iedges.len() && (#[trigger] iedges[k]).0 == u && !emitted.to_set().contains(
                iedges[k].1,
            );
        let b = iedges[k].1;
        assert(es[k].0 == nodes[u as int]@);
        assert(es[k].1 == nodes[b as int]@);
        assert(b < n);
        assert(!emitted.contains(b));
        assert(s.contains(es[k].1));
    }
    assert(cycle_witness(es, s));
}

/// Run a whole schedule over the edge list `(dependent, dependency)`.
///
/// On success the order is a valid topological order of exactly the
/// edges' endpoints: every endpoint appears once, nothing else appears,
/// and for every edge the dependency is scheduled strictly before its
/// dependent.  Success is owed whenever the edge set is acyclic; the
/// error case exhibits a residual dependency cycle.
pub fn schedule(edges: &Vec<(String, String)>) -> (r: Result<Vec<String>, ResidualCycle>)
    ensures
        r is Ok ==> valid_topological_order(edge_views(edges@), (r->Ok_0)@),
        r is Err ==> (r->Err_0).scheduled < (r->Err_0).total && has_cycle(edge_views(edges@)),
{
    let ghost es = edge_views(edges@);
    let mut plan = BuildPlan::from_edges(edges);
    let n = plan.nodes.len();
    proof {
        crate::schedule::lemma_distinct_bounded(plan.sched.queue@, n as nat);
    }
    while plan.sched.head < plan.sched.queue.len()
        invariant
            plan.wf(),
            plan.corresponds(es),
            es == edge_views(edges@),
            n == plan.nodes@.len(),
            plan.sched.queue@.len() <= n,
        decreases n - plan.sched.head,
    {
        plan.complete_current();
        proof {
            crate::schedule::lemma_distinct_bounded(plan.sched.queue@, n as nat);
        }
    }
    let qlen = plan.sched.queue.len();
    proof {
        assert(plan.sched.head == qlen);
    }
    if qlen == n {
        let mut ord: Vec<String> = Vec::new();
        let mut i: usize = 0;
        while i < qlen
            invariant
                i <= qlen,
                plan.wf(),
                plan.corresponds(es),
                n == plan.nodes@.len(),
                qlen == plan.sched.queue@.len(),
                plan.sched.head == qlen,
                ord@.len() == i,
                forall|t: int|
                    0 <= t < i ==> (#[trigger] ord@[t])@ == plan.nodes@[
                        plan.sched.queue@[t] as int
                    ]@,
            decreases qlen - i,
        {
            let u = plan.sched.queue[i];
            ord.push(plan.nodes[u].clone());
            i = i + 1;
        }
        proof {
            lemma_schedule_ok(plan, es, ord@);
        }
        Ok(ord)
    } else {
        let scheduled = plan.completed();
        proof {
            lemma_schedule_err(plan, es);
        }
        Err(ResidualCycle { scheduled, total: n })
    }
}

} // verus!
