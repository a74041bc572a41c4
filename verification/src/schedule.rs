//! The topological build scheduler.  Edges are pairs of node indices
//! `(dependent, dependency)`; the scheduler counts, for every node, how
//! many of its dependency occurrences are not yet built, keeps a FIFO
//! queue of nodes with no unresolved dependency, and releases nodes in an
//! order in which every dependency is scheduled strictly before each of
//! its dependents.

use vstd::prelude::*;

verus! {

/// How many times `x` occurs in `s`.
pub open spec fn occ(s: Seq<usize>, x: usize) -> nat
    decreases s.len(),
{
    if s.len() == 0 {
        0
    } else {
        (if s[0] == x {
            1 as nat
        } else {
            0 as nat
        }) + occ(s.drop_first(), x)
    }
}

/// The dependents of node `j`: the sources of the edges whose dependency
/// is `j`, one entry per edge occurrence, in edge order.
pub open spec fn dependents_of(edges: Seq<(usize, usize)>, j: usize) -> Seq<usize>
    decreases edges.len(),
{
    if edges.len() == 0 {
        Seq::empty()
    } else {
        (if edges[0].1 == j {
            seq![edges[0].0]
        } else {
            Seq::<usize>::empty()
        }) + dependents_of(edges.drop_first(), j)
    }
}

/// How many dependency occurrences of node `u` are not yet done: the
/// number of edges `(u, v)` whose dependency `v` lies outside `done`.
pub open spec fn unresolved(edges: Seq<(usize, usize)>, u: usize, done: Set<usize>) -> nat
    decreases edges.len(),
{
    if edges.len() == 0 {
        0
    } else {
        (if edges[0].0 == u && !done.contains(edges[0].1) {
            1 as nat
        } else {
            0 as nat
        }) + unresolved(edges.drop_first(), u, done)
    }
}

/// Occurrence counts add over concatenation.
proof fn lemma_occ_concat(a: Seq<usize>, b: Seq<usize>, x: usize)
    ensures
        occ(a + b, x) == occ(a, x) + occ(b, x),
    decreases a.len(),
{
    if a.len() == 0 {
        assert(a + b =~= b);
    } else {
        assert((a + b).drop_first() =~= a.drop_first() + b);
        lemma_occ_concat(a.drop_first(), b, x);
    }
}

/// Appending one edge extends the dependent list of exactly its
/// dependency.
proof fn lemma_dependents_push(edges: Seq<(usize, usize)>, e: (usize, usize), j: usize)
    ensures
        dependents_of(edges.push(e), j) == dependents_of(edges, j) + (if e.1 == j {
            seq![e.0]
        } else {
            Seq::<usize>::empty()
        }),
    decreases edges.len(),
{
    if edges.len() == 0 {
        assert(edges.push(e)[0] == e);
        assert(edges.push(e).drop_first() =~= Seq::<(usize, usize)>::empty());
        assert(dependents_of(Seq::<(usize, usize)>::empty(), j) =~= Seq::<usize>::empty());
        assert(dependents_of(edges, j) =~= Seq::<usize>::empty());
        if e.1 == j {
            assert(dependents_of(edges.push(e), j) =~= seq![e.0]);
            assert(dependents_of(edges, j) + seq![e.0] =~= seq![e.0]);
        } else {
            assert(dependents_of(edges.push(e), j) =~= Seq::<usize>::empty());
            assert(dependents_of(edges, j) + Seq::<usize>::empty() =~= Seq::<usize>::empty());
        }
    } else {
        assert(edges.push(e).drop_first() =~= edges.drop_first().push(e));
        assert(edges.push(e)[0] == edges[0]);
        lemma_dependents_push(edges.drop_first(), e, j);
        let head = if edges[0].1 == j {
            seq![edges[0].0]
        } else {
            Seq::<usize>::empty()
        };
        let tail = if e.1 == j {
            seq![e.0]
        } else {
            Seq::<usize>::empty()
        };
        assert(head + (dependents_of(edges.drop_first(), j) + tail) =~= (head + dependents_of(
            edges.drop_first(),
            j,
        )) + tail);
    }
}

/// Appending one edge raises the unresolved count of exactly its
/// dependent, when its dependency is not yet done.
proof fn lemma_unresolved_push(
    edges: Seq<(usize, usize)>,
    e: (usize, usize),
    u: usize,
    done: Set<usize>,
)
    ensures
        unresolved(edges.push(e), u, done) == unresolved(edges, u, done) + (if e.0 == u
            && !done.contains(e.1) {
            1 as nat
        } else {
            0 as nat
        }),
    decreases edges.len(),
{
    if edges.len() == 0 {
        assert(edges.push(e)[0] == e);
        assert(edges.push(e).drop_first() =~= Seq::<(usize, usize)>::empty());
        assert(unresolved(Seq::<(usize, usize)>::empty(), u, done) == 0);
    } else {
        assert(edges.push(e).drop_first() =~= edges.drop_first().push(e));
        assert(edges.push(e)[0] == edges[0]);
        lemma_unresolved_push(edges.drop_first(), e, u, done);
    }
}

/// Marking `v` done resolves, for every node `w`, exactly the occurrences
/// of `w` among the dependents of `v`.
proof fn lemma_unresolved_insert(edges: Seq<(usize, usize)>, v: usize, w: usize, done: Set<usize>)
    requires
        !done.contains(v),
    ensures
        unresolved(edges, w, done) == unresolved(edges, w, done.insert(v)) + occ(
            dependents_of(edges, v),
            w,
        ),
    decreases edges.len(),
{
    if edges.len() != 0 {
        lemma_unresolved_insert(edges.drop_first(), v, w, done);
        let head = if edges[0].1 == v {
            seq![edges[0].0]
        } else {
            Seq::<usize>::empty()
        };
        lemma_occ_concat(head, dependents_of(edges.drop_first(), v), w);
        assert(occ(Seq::<usize>::empty(), w) == 0);
        if edges[0].1 == v {
            assert(seq![edges[0].0][0] == edges[0].0);
            assert(seq![edges[0].0].drop_first() =~= Seq::<usize>::empty());
        }
    }
}

/// A node with no unresolved dependency has every dependency done.
proof fn lemma_unresolved_zero(edges: Seq<(usize, usize)>, u: usize, done: Set<usize>)
    requires
        unresolved(edges, u, done) == 0,
    ensures
        forall|k: int|
            0 <= k < edges.len() && (#[trigger] edges[k]).0 == u ==> done.contains(edges[k].1),
    decreases edges.len(),
{
    if edges.len() != 0 {
        lemma_unresolved_zero(edges.drop_first(), u, done);
        assert forall|k: int|
            0 <= k < edges.len() && (#[trigger] edges[k]).0 == u implies done.contains(
            edges[k].1,
        ) by {
            if k > 0 {
                assert(edges.drop_first()[k - 1] == edges[k]);
            }
        }
    }
}

/// A node with an unresolved dependency has some edge to a node outside
/// `done`.
pub proof fn lemma_unresolved_pos(edges: Seq<(usize, usize)>, u: usize, done: Set<usize>)
    requires
        unresolved(edges, u, done) > 0,
    ensures
        exists|k: int|
            0 <= k < edges.len() && (#[trigger] edges[k]).0 == u && !done.contains(edges[k].1),
    decreases edges.len(),
{
    if edges[0].0 == u && !done.contains(edges[0].1) {
        assert(edges[0] == edges[0]);
    } else {
        lemma_unresolved_pos(edges.drop_first(), u, done);
        let k0 = choose|k: int|
            0 <= k < edges.drop_first().len() && (#[trigger] edges.drop_first()[k]).0 == u
                && !done.contains(edges.drop_first()[k].1);
        assert(edges[k0 + 1] == edges.drop_first()[k0]);
    }
}

/// A duplicate-free sequence of indices below `n` has at most `n`
/// entries.
pub proof fn lemma_distinct_bounded(q: Seq<usize>, n: nat)
    requires
        forall|i: int, j: int| 0 <= i < j < q.len() ==> q[i] != q[j],
        forall|i: int| 0 <= i < q.len() ==> (#[trigger] q[i]) < n,
    ensures
        q.len() <= n,
{
    let qi = q.map_values(|x: usize| x as int);
    assert(qi.no_duplicates());
    qi.unique_seq_to_set();
    assert(qi.to_set().subset_of(vstd::set_lib::set_int_range(0, n as int))) by {
        assert forall|x: int|
            qi.to_set().contains(x) implies vstd::set_lib::set_int_range(0, n as int).contains(
            x,
        ) by {
            let i = choose|i: int| 0 <= i < qi.len() && qi[i] == x;
            assert(q[i] < n);
        }
    }
    vstd::set_lib::lemma_int_range(0, n as int);
    vstd::set_lib::lemma_len_subset(qi.to_set(), vstd::set_lib::set_int_range(0, n as int));
}

/// A duplicate-free sequence of all `n` indices below `n` contains every
/// one of them.
pub proof fn lemma_distinct_full(q: Seq<usize>, n: nat)
    requires
        forall|i: int, j: int| 0 <= i < j < q.len() ==> q[i] != q[j],
        forall|i: int| 0 <= i < q.len() ==> (#[trigger] q[i]) < n,
        q.len() == n,
    ensures
        forall|u: usize| u < n ==> q.contains(u),
{
    assert forall|u: usize| u < n implies q.contains(u) by {
        if !q.contains(u) {
            let qi = q.map_values(|x: usize| x as int);
            assert(qi.no_duplicates());
            qi.unique_seq_to_set();
            let r = vstd::set_lib::set_int_range(0, n as int).remove(u as int);
            vstd::set_lib::lemma_int_range(0, n as int);
            assert(qi.to_set().subset_of(r)) by {
                assert forall|x: int| qi.to_set().contains(x) implies r.contains(x) by {
                    let i = choose|i: int| 0 <= i < qi.len() && qi[i] == x;
                    assert(q[i] < n);
                    assert(q[i] != u);
                }
            }
            vstd::set_lib::lemma_len_subset(qi.to_set(), r);
            assert(vstd::set_lib::set_int_range(0, n as int).contains(u as int));
            assert(r.len() == n - 1);
            assert(false);
        }
    }
}

/// A duplicate-free sequence of fewer than `n` indices below `n` misses
/// at least one of them.
pub proof fn lemma_some_missing(q: Seq<usize>, n: nat)
    requires
        forall|i: int, j: int| 0 <= i < j < q.len() ==> q[i] != q[j],
        forall|i: int| 0 <= i < q.len() ==> (#[trigger] q[i]) < n,
        q.len() < n,
        n <= usize::MAX,
    ensures
        exists|u: usize| u < n && !q.contains(u),
{
    if !(exists|u: usize| u < n && !q.contains(u)) {
        assert(forall|u: usize| u < n ==> q.contains(u));
        let qi = q.map_values(|x: usize| x as int);
        assert(qi.no_duplicates());
        qi.unique_seq_to_set();
        let r = vstd::set_lib::set_int_range(0, n as int);
        vstd::set_lib::lemma_int_range(0, n as int);
        assert(r.subset_of(qi.to_set())) by {
            assert forall|x: int| r.contains(x) implies qi.to_set().contains(x) by {
                let u = x as usize;
                assert(u as int == x);
                assert(q.contains(u));
                let i = choose|i: int| 0 <= i < q.len() && q[i] == u;
                assert(qi[i] == x);
            }
        }
        vstd::set_lib::lemma_len_subset(r, qi.to_set());
        assert(false);
    }
}

/// The nodes already released, in order: the consumed prefix of the queue.
impl Scheduler {
    pub open spec fn emitted(self) -> Seq<usize> {
        self.queue@.take(self.head as int)
    }

    /// The internal consistency of a scheduler: counts record unresolved
    /// dependency occurrences with respect to what has been emitted, the
    /// queue holds exactly the nodes with no unresolved dependency, and
    /// everything emitted so far respects the edges.
    pub open spec fn wf(self) -> bool {
        &&& self.counts@.len() == self.n
        &&& self.dependents@.len() == self.n
        &&& self.head <= self.queue@.len()
        &&& forall|i: int| 0 <= i < self.queue@.len() ==> (#[trigger] self.queue@[i]) < self.n
        &&& forall|i: int, j: int| 0 <= i < j < self.queue@.len() ==> self.queue@[i] != self.queue@[j]
        &&& forall|k: int|
            0 <= k < self.edges@.len() ==> (#[trigger] self.edges@[k]).0 < self.n
                && self.edges@[k].1 < self.n
        &&& forall|j: int|
            0 <= j < self.n ==> (#[trigger] self.dependents@[j])@ == dependents_of(
                self.edges@,
                j as usize,
            )
        &&& forall|j: int, t: int|
            0 <= j < self.n && 0 <= t < self.dependents@[j]@.len() ==> (
            #[trigger] self.dependents@[j]@[t]) < self.n
        &&& forall|u: int|
            0 <= u < self.n ==> (#[trigger] self.counts@[u]) == unresolved(
                self.edges@,
                u as usize,
                self.emitted().to_set(),
            )
        &&& forall|u: usize|
            u < self.n ==> (self.queue@.contains(u) <==> self.counts@[u as int] == 0)
        &&& forall|i: int, k: int|
            0 <= i < self.head && 0 <= k < self.edges@.len() && (#[trigger] self.edges@[k]).0 == (
            #[trigger] self.queue@[i]) ==> exists|j: int|
                0 <= j < i && self.queue@[j] == self.edges@[k].1
    }
}

/// The scheduler's state: for `n` nodes, the per-node unresolved counts,
/// the per-node dependent lists, and the ready queue, whose consumed
/// prefix is the release order so far.
pub struct Scheduler {
    /// Number of nodes; every index below is smaller.
    pub n: usize,
    /// For each node, the dependents waiting on it, per edge occurrence.
    pub dependents: Vec<Vec<usize>>,
    /// For each node, its unresolved dependency occurrences.
    pub counts: Vec<usize>,
    /// Nodes released or ready, in release order; grows at the back.
    pub queue: Vec<usize>,
    /// How many entries of `queue` have been released.
    pub head: usize,
    /// The edge list the scheduler was built from.
    pub edges: Ghost<Seq<(usize, usize)>>,
}

/// The initial ready queue: the nodes whose in-degree is zero, in
/// ascending order.
pub fn get_zero_in_degree(in_degree: &Vec<usize>) -> (q: Vec<usize>)
    ensures
        forall|i: int|
            0 <= i < q@.len() ==> (#[trigger] q@[i]) < in_degree@.len() && in_degree@[q@[i] as int]
                == 0,
        forall|i: int, j: int| 0 <= i < j < q@.len() ==> q@[i] < q@[j],
        forall|u: usize| u < in_degree@.len() && in_degree@[u as int] == 0 ==> q@.contains(u),
{
    let n = in_degree.len();
    let mut q: Vec<usize> = Vec::new();
    let mut u: usize = 0;
    while u < n
        invariant
            u <= n,
            n == in_degree@.len(),
            forall|i: int|
                0 <= i < q@.len() ==> (#[trigger] q@[i]) < u && in_degree@[q@[i] as int] == 0,
            forall|i: int, j: int| 0 <= i < j < q@.len() ==> q@[i] < q@[j],
            forall|w: usize| w < u && in_degree@[w as int] == 0 ==> q@.contains(w),
        decreases n - u,
    {
        if in_degree[u] == 0 {
            let ghost q0 = q@;
            q.push(u);
            proof {
                assert forall|w: usize| w < u + 1 && in_degree@[w as int] == 0 implies
                    q@.contains(w) by {
                    if w < u {
                        assert(q0.contains(w));
                        let i = choose|i: int| 0 <= i < q0.len() && q0[i] == w;
                        assert(q@[i] == w);
                    } else {
                        assert(q@[q@.len() - 1] == w);
                    }
                }
            }
        }
        u = u + 1;
    }
    q
}

impl Scheduler {
    /// Build a scheduler for `n` nodes from the edge list: count each
    /// edge occurrence toward its dependent's in-degree, record it in its
    /// dependency's dependent list, and seed the queue with the nodes of
    /// in-degree zero.
    pub fn new(n: usize, edges: &Vec<(usize, usize)>) -> (s: Scheduler)
        requires
            forall|k: int|
                0 <= k < edges@.len() ==> (#[trigger] edges@[k]).0 < n && edges@[k].1 < n,
        ensures
            s.wf(),
            s.n == n,
            s.edges@ == edges@,
            s.head == 0,
            s.emitted() == Seq::<usize>::empty(),
    {
        let m = edges.len();
        let mut counts: Vec<usize> = Vec::new();
        let mut u: usize = 0;
        while u < n
            invariant
                u <= n,
                m == edges@.len(),
                counts@.len() == u,
                forall|w: int|
                    0 <= w < u ==> (#[trigger] counts@[w]) == unresolved(
                        edges@,
                        w as usize,
                        Set::empty(),
                    ),
                forall|k: int|
                    0 <= k < edges@.len() ==> (#[trigger] edges@[k]).0 < n && edges@[k].1 < n,
            decreases n - u,
        {
            let mut c: usize = 0;
            let mut k: usize = 0;
            proof {
                assert(edges@.take(0) =~= Seq::<(usize, usize)>::empty());
            }
            while k < m
                invariant
                    k <= m,
                    m == edges@.len(),
                    c == unresolved(edges@.take(k as int), u, Set::empty()),
                    c <= k,
                decreases m - k,
            {
                proof {
                    assert(edges@.take(k as int + 1) =~= edges@.take(k as int).push(edges@[k as int]));
                    lemma_unresolved_push(edges@.take(k as int), edges@[k as int], u, Set::empty());
                }
                if edges[k].0 == u {
                    c = c + 1;
                }
                k = k + 1;
            }
            proof {
                assert(edges@.take(m as int) =~= edges@);
            }
            counts.push(c);
            u = u + 1;
        }
        let mut dependents: Vec<Vec<usize>> = Vec::new();
        let mut j: usize = 0;
        while j < n
            invariant
                j <= n,
                m == edges@.len(),
                dependents@.len() == j,
                forall|w: int|
                    0 <= w < j ==> (#[trigger] dependents@[w])@ == dependents_of(
                        edges@,
                        w as usize,
                    ),
                forall|w: int, t: int|
                    0 <= w < j && 0 <= t < dependents@[w]@.len() ==> (
                    #[trigger] dependents@[w]@[t]) < n,
                forall|k: int|
                    0 <= k < edges@.len() ==> (#[trigger] edges@[k]).0 < n && edges@[k].1 < n,
            decreases n - j,
        {
            let mut row: Vec<usize> = Vec::new();
            let mut k: usize = 0;
            proof {
                assert(edges@.take(0) =~= Seq::<(usize, usize)>::empty());
            }
            while k < m
                invariant
                    k <= m,
                    m == edges@.len(),
                    row@ == dependents_of(edges@.take(k as int), j),
                    forall|t: int| 0 <= t < row@.len() ==> (#[trigger] row@[t]) < n,
                    forall|kk: int|
                        0 <= kk < edges@.len() ==> (#[trigger] edges@[kk]).0 < n && edges@[kk].1
                            < n,
                decreases m - k,
            {
                proof {
                    assert(edges@.take(k as int + 1) =~= edges@.take(k as int).push(edges@[k as int]));
                    lemma_dependents_push(edges@.take(k as int), edges@[k as int], j);
                }
                if edges[k].1 == j {
                    row.push(edges[k].0);
                    proof {
                        assert(row@ =~= dependents_of(edges@.take(k as int), j) + seq![
                            edges@[k as int].0,
                        ]);
                    }
                } else {
                    proof {
                        assert(dependents_of(edges@.take(k as int), j) + Seq::<usize>::empty()
                            =~= row@);
                    }
                }
                k = k + 1;
            }
            proof {
                assert(edges@.take(m as int) =~= edges@);
            }
            dependents.push(row);
            j = j + 1;
        }
        let queue = get_zero_in_degree(&counts);
        let s = Scheduler {
            n,
            dependents,
            counts,
            queue,
            head: 0,
            edges: Ghost(edges@),
        };
        proof {
            assert(s.emitted() =~= Seq::<usize>::empty());
            assert(s.emitted().to_set() =~= Set::<usize>::empty());
            assert forall|w: int| 0 <= w < s.n implies (#[trigger] s.counts@[w]) == unresolved(
                s.edges@,
                w as usize,
                s.emitted().to_set(),
            ) by {
                assert(s.counts@[w] == unresolved(edges@, w as usize, Set::empty()));
            }
        }
        s
    }

    /// The next node to build: the head of the ready queue, if the
    /// schedule is not exhausted.
    pub fn next_target(&self) -> (r: Option<usize>)
        requires
            self.head <= self.queue@.len(),
        ensures
            match r {
                Option::Some(u) => self.head < self.queue@.len() && u == self.queue@[self.head as int],
                Option::None => self.head == self.queue@.len(),
            },
    {
        if self.head < self.queue.len() {
            Option::Some(self.queue[self.head])
        } else {
            Option::None
        }
    }

    /// Release the node at the head of the queue: mark it done, resolve
    /// one dependency occurrence of each of its dependents, and enqueue
    /// every dependent whose last unresolved dependency this was.
    pub fn complete_current(&mut self)
        requires
            old(self).wf(),
            old(self).head < old(self).queue@.len(),
        ensures
            final(self).wf(),
            final(self).n == old(self).n,
            final(self).edges == old(self).edges,
            final(self).head == old(self).head + 1,
            final(self).emitted() == old(self).emitted().push(
                old(self).queue@[old(self).head as int],
            ),
    {
        let u = self.queue[self.head];
        let ghost edges = self.edges@;
        let ghost n = self.n as int;
        let ghost done0 = self.emitted().to_set();
        let ghost emitted0 = self.emitted();
        proof {
            assert(!emitted0.contains(u)) by {
                if emitted0.contains(u) {
                    let i = choose|i: int| 0 <= i < emitted0.len() && emitted0[i] == u;
                    assert(self.queue@[i] == self.queue@[self.head as int]);
                }
            }
            assert(!done0.contains(u));
            assert(self.queue@.contains(u)) by {
                assert(self.queue@[self.head as int] == u);
            }
            assert(self.counts@[u as int] == 0);
            assert(unresolved(edges, u, done0) == 0);
        }
        let qlen = self.queue.len();
        proof {
            assert(self.head < qlen);
        }
        self.head = self.head + 1;
        let ghost emitted1 = emitted0.push(u);
        let ghost done1 = done0.insert(u);
        proof {
            assert(self.emitted() =~= emitted1);
            assert(emitted1.to_set() =~= done1) by {
                assert forall|x: usize| emitted1.to_set().contains(x) implies done1.contains(
                    x,
                ) by {
                    let i = choose|i: int| 0 <= i < emitted1.len() && emitted1[i] == x;
                    if i < emitted0.len() {
                        assert(emitted0[i] == x);
                    }
                }
                assert forall|x: usize| done1.contains(x) implies emitted1.to_set().contains(
                    x,
                ) by {
                    if x == u {
                        assert(emitted1[emitted1.len() - 1] == x);
                    } else {
                        let i = choose|i: int| 0 <= i < emitted0.len() && emitted0[i] == x;
                        assert(emitted1[i] == x);
                    }
                }
            }
        }
        let ghost deps = self.dependents@[u as int]@;
        proof {
            assert(deps == dependents_of(edges, u));
            assert forall|w: usize| w < n implies unresolved(edges, w, done0) == unresolved(
                edges,
                w,
                done1,
            ) + occ(deps, w) by {
                lemma_unresolved_insert(edges, u, w, done0);
            }
            assert(deps.take(0) =~= Seq::<usize>::empty());
            lemma_unresolved_zero(edges, u, done0);
            assert forall|i: int, k: int|
                0 <= i < self.head && 0 <= k < edges.len() && (#[trigger] edges[k]).0 == (
                #[trigger] self.queue@[i]) implies exists|j: int|
                0 <= j < i && self.queue@[j] == edges[k].1 by {
                if i == self.head - 1 {
                    assert(self.queue@[i] == u);
                    assert(done0.contains(edges[k].1));
                    assert(emitted0.contains(edges[k].1));
                    let j = choose|j: int| 0 <= j < emitted0.len() && emitted0[j] == edges[k].1;
                    assert(self.queue@[j] == edges[k].1);
                }
            }
        }
        let m = self.dependents[u].len();
        let mut t: usize = 0;
        while t < m
            invariant
                self.n as int == n,
                self.edges@ == edges,
                self.dependents@ == old(self).dependents@,
                self.dependents@.len() == n,
                self.counts@.len() == n,
                u < n,
                deps == dependents_of(edges, u),
                deps == self.dependents@[u as int]@,
                m == deps.len(),
                t <= m,
                forall|tt: int| 0 <= tt < deps.len() ==> (#[trigger] deps[tt]) < n,
                forall|k: int|
                    0 <= k < edges.len() ==> (#[trigger] edges[k]).0 < n && edges[k].1 < n,
                self.head == old(self).head + 1,
                self.head <= self.queue@.len(),
                self.queue@.take(self.head as int) == emitted1,
                emitted1.to_set() == done1,
                forall|i: int| 0 <= i < self.queue@.len() ==> (#[trigger] self.queue@[i]) < n,
                forall|i: int, j: int|
                    0 <= i < j < self.queue@.len() ==> self.queue@[i] != self.queue@[j],
                forall|w: usize|
                    w < n ==> (#[trigger] self.counts@[w as int]) + occ(deps.take(t as int), w)
                        == unresolved(edges, w, done0),
                forall|w: usize| w < n ==> unresolved(edges, w, done0) == unresolved(edges, w, done1)
                    + occ(deps, w),
                forall|w: usize|
                    w < n ==> (self.queue@.contains(w) <==> self.counts@[w as int] == 0),
                forall|i: int, k: int|
                    0 <= i < self.head && 0 <= k < edges.len() && (#[trigger] edges[k]).0 == (
                    #[trigger] self.queue@[i]) ==> exists|j: int|
                        0 <= j < i && self.queue@[j] == edges[k].1,
            decreases m - t,
        {
            let d = self.dependents[u][t];
            let c = self.counts[d];
            proof {
                assert(deps.take(t as int + 1) =~= deps.take(t as int).push(deps[t as int]));
                assert(deps.take(t as int).push(deps[t as int]) =~= deps.take(t as int) + seq![
                    deps[t as int],
                ]);
                lemma_occ_concat(deps.take(t as int), seq![deps[t as int]], d);
                assert(occ(seq![deps[t as int]], d) == 1) by {
                    assert(seq![deps[t as int]][0] == deps[t as int]);
                    assert(seq![deps[t as int]].drop_first() =~= Seq::<usize>::empty());
                    assert(occ(Seq::<usize>::empty(), d) == 0);
                    assert(d == deps[t as int]);
                }
                assert(deps =~= deps.take(t as int + 1) + deps.skip(t as int + 1));
                lemma_occ_concat(deps.take(t as int + 1), deps.skip(t as int + 1), d);
                assert(c >= 1);
            }
            self.counts.set(d, c - 1);
            let ghost q1 = self.queue@;
            if c - 1 == 0 {
                self.queue.push(d);
                proof {
                    assert(self.queue@ =~= q1.push(d));
                    assert(self.queue@.take(self.head as int) =~= emitted1);
                    assert forall|w: usize| w < n implies (self.queue@.contains(w)
                        <==> self.counts@[w as int] == 0) by {
                        if self.queue@.contains(w) {
                            let i = choose|i: int| 0 <= i < self.queue@.len() && self.queue@[i] == w;
                            if i < self.queue@.len() - 1 {
                                assert(q1[i] == w);
                                assert(q1.contains(w));
                            }
                        }
                        if self.counts@[w as int] == 0 {
                            if w != d {
                                assert(q1.contains(w));
                                let i = choose|i: int| 0 <= i < q1.len() && q1[i] == w;
                                assert(self.queue@[i] == w);
                            } else {
                                assert(self.queue@[self.queue@.len() - 1] == w);
                            }
                        }
                    }
                    assert forall|i: int, k: int|
                        0 <= i < self.head && 0 <= k < edges.len() && (#[trigger] edges[k]).0 == (
                        #[trigger] self.queue@[i]) implies exists|j: int|
                        0 <= j < i && self.queue@[j] == edges[k].1 by {
                        assert(self.queue@[i] == q1[i]);
                        let j = choose|j: int| 0 <= j < i && q1[j] == edges[k].1;
                        assert(self.queue@[j] == edges[k].1);
                    }
                }
            } else {
                proof {
                    assert forall|w: usize| w < n implies (self.queue@.contains(w)
                        <==> self.counts@[w as int] == 0) by {}
                }
            }
            proof {
                assert forall|w: usize| w < n implies (#[trigger] self.counts@[w as int]) + occ(
                    deps.take(t as int + 1),
                    w,
                ) == unresolved(edges, w, done0) by {
                    assert(deps.take(t as int + 1) =~= deps.take(t as int) + seq![deps[t as int]]);
                    lemma_occ_concat(deps.take(t as int), seq![deps[t as int]], w);
                    assert(occ(seq![deps[t as int]], w) == (if deps[t as int] == w {
                        1 as nat
                    } else {
                        0 as nat
                    })) by {
                        assert(seq![deps[t as int]][0] == deps[t as int]);
                        assert(seq![deps[t as int]].drop_first() =~= Seq::<usize>::empty());
                        assert(occ(Seq::<usize>::empty(), w) == 0);
                    }
                }
            }
            t = t + 1;
        }
        proof {
            assert(deps.take(m as int) =~= deps);
            assert forall|w: int| 0 <= w < n implies (#[trigger] self.counts@[w]) == unresolved(
                edges,
                w as usize,
                self.emitted().to_set(),
            ) by {
                assert(self.counts@[w] + occ(deps, w as usize) == unresolved(edges, w as usize, done0));
            }
        }
    }
}

} // verus!
