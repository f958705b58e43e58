//! Strongly connected components by depth-first search with an explicit
//! stack of frames.

use vstd::prelude::*;
use crate::cnf::graph::{adjacency, graph_ok, has_edge, reaches};
use crate::cnf::search::{pending_of, Search, Visit};
use crate::cnf::search_steps::{
    at_root, lemma_close_inv, lemma_initial_inv, lemma_pending_positive, lemma_pending_relax,
    lemma_relax_inv, lemma_retreat_inv, lemma_time_left, lemma_visit_inv,
};

verus! {

/// A vertex whose successors are being visited, and the index of the next
/// successor to look at.
#[derive(Debug, Clone, Copy)]
pub struct Frame {
    pub node: usize,
    pub next: usize,
}

/// The numbers of a list as integers.
pub open spec fn ints(v: Seq<usize>) -> Seq<int> {
    Seq::new(v.len(), |i: int| v[i] as int)
}

/// The frames of a list as mathematical values.
pub open spec fn visits(v: Seq<Frame>) -> Seq<Visit> {
    Seq::new(v.len(), |i: int| Visit { node: v[i].node as int, next: v[i].next as int })
}

/// The components of a list, each as a sequence.
pub open spec fn parts(sccs: Vec<Vec<usize>>) -> Seq<Seq<usize>> {
    Seq::new(sccs@.len(), |c: int| sccs@[c]@)
}

/// Whether `v` stands in one of the lists of `sccs`.
pub open spec fn listed_in(sccs: Seq<Seq<usize>>, v: int) -> bool {
    exists|c: int, k: int|
        0 <= c < sccs.len() && 0 <= k < sccs[c].len() && #[trigger] sccs[c][k] == v
}

/// Whether `sccs` lists the strongly connected components of `adj`, each
/// vertex once, in an order in which no edge leads from a component to a
/// later one.
pub open spec fn is_condensation(adj: Seq<Seq<usize>>, sccs: Seq<Seq<usize>>) -> bool {
    &&& forall|c: int| 0 <= c < sccs.len() ==> (#[trigger] sccs[c]).len() > 0
    &&& forall|c: int, k: int|
        0 <= c < sccs.len() && 0 <= k < sccs[c].len() ==> (#[trigger] sccs[c][k]) < adj.len()
    &&& forall|v: int| 0 <= v < adj.len() ==> #[trigger] listed_in(sccs, v)
    &&& forall|c1: int, k1: int, c2: int, k2: int|
        0 <= c1 < sccs.len() && 0 <= k1 < sccs[c1].len() && 0 <= c2 < sccs.len() && 0 <= k2
            < sccs[c2].len() && #[trigger] sccs[c1][k1] == #[trigger] sccs[c2][k2] ==> c1 == c2
            && k1 == k2
    &&& forall|c: int, k1: int, k2: int|
        0 <= c < sccs.len() && 0 <= k1 < sccs[c].len() && 0 <= k2 < sccs[c].len() ==> reaches(
            adj,
            #[trigger] sccs[c][k1] as int,
            #[trigger] sccs[c][k2] as int,
        )
    &&& forall|c1: int, k1: int, c2: int, k2: int|
        0 <= c1 < sccs.len() && 0 <= k1 < sccs[c1].len() && 0 <= c2 < sccs.len() && 0 <= k2
            < sccs[c2].len() && has_edge(
            adj,
            #[trigger] sccs[c1][k1] as int,
            #[trigger] sccs[c2][k2] as int,
        ) ==> c2 <= c1
}

/// Whether `sccs` lists the components that the finished search `m` has
/// found: list `c` holds the vertices of component `c`, the one that was
/// discovered last first.
pub open spec fn lists_components(sccs: Seq<Seq<usize>>, m: Search) -> bool {
    &&& m.done()
    &&& sccs.len() == m.count
    &&& forall|c: int, k: int|
        0 <= c < sccs.len() && 0 <= k < sccs[c].len() ==> (#[trigger] sccs[c][k]) < m.n()
            && m.comp[sccs[c][k] as int] == c
    &&& forall|v: int| 0 <= v < m.n() ==> #[trigger] listed_in(sccs, v)
    &&& forall|c: int, k1: int, k2: int|
        0 <= c < sccs.len() && 0 <= k1 < k2 < sccs[c].len() ==> m.tin[(
        #[trigger] sccs[c][k1]) as int] > m.tin[(#[trigger] sccs[c][k2]) as int]
}

/// Whether `sccs` is what the depth-first search of `adj` finds: the
/// search, begun with nothing discovered and made step by step, comes to
/// its end, and `sccs` lists the components that it has found then, in the
/// order in which it closed them.
pub open spec fn is_search_result(adj: Seq<Seq<usize>>, sccs: Seq<Seq<usize>>) -> bool {
    exists|k: nat| lists_components(sccs, #[trigger] Search::initial(adj).steps(k))
}

/// The search for the strongly connected components of a graph.
pub struct StronglyConnectedComponents<'a> {
    pub graph: &'a Vec<Vec<usize>>,
    pub timer: usize,
    pub tin: Vec<usize>,
    pub low: Vec<usize>,
    pub all: Vec<usize>,
    pub sccs: Vec<Vec<usize>>,
    pub frames: Vec<Frame>,
    pub model: Ghost<Search>,
    pub slot: Ghost<Seq<int>>,
    /// The number of steps that the search has made.
    pub steps: Ghost<nat>,
}

impl<'a> StronglyConnectedComponents<'a> {
    /// Whether the components found so far list the vertices that have
    /// their component, each once.
    pub open spec fn listed(&self) -> bool {
        let m = self.model@;
        &&& self.sccs@.len() == m.count
        &&& self.slot@.len() == m.n()
        &&& forall|c: int| 0 <= c < self.sccs@.len() ==> (#[trigger] self.sccs@[c])@.len() > 0
        &&& forall|c: int, k: int|
            0 <= c < self.sccs@.len() && 0 <= k < self.sccs@[c]@.len() ==> {
                let v = #[trigger] self.sccs@[c]@[k];
                v < m.n() && m.assigned(v as int) && m.comp[v as int] == c && self.slot@[v as int]
                    == k
            }
        &&& forall|v: int|
            0 <= v < m.n() && m.assigned(v) ==> 0 <= (#[trigger] self.slot@[v])
                < self.sccs@[m.comp[v]]@.len() && self.sccs@[m.comp[v]]@[self.slot@[v]] == v
        &&& forall|c: int, k1: int, k2: int|
            0 <= c < self.sccs@.len() && 0 <= k1 < k2 < self.sccs@[c]@.len() ==> m.tin[(
            #[trigger] self.sccs@[c]@[k1]) as int] > m.tin[(#[trigger] self.sccs@[c]@[k2]) as int]
    }

    /// Whether the fields hold the state `model`, and the search is in order.
    pub open spec fn wf(&self) -> bool {
        let m = self.model@;
        &&& m.adj == adjacency(*self.graph)
        &&& m.inv()
        &&& ints(self.tin@) == m.tin
        &&& ints(self.low@) == m.low
        &&& ints(self.all@) == m.stack
        &&& visits(self.frames@) == m.frames
        &&& self.timer == m.order.len()
        &&& self.listed()
        &&& m == Search::initial(m.adj).steps(self.steps@)
    }

    /// Discovers `v`.
    fn visit(&mut self, v: usize)
        requires
            old(self).wf(),
            v < old(self).graph@.len(),
            old(self).tin@[v as int] == old(self).graph@.len(),
            old(self).frames@.len() > 0 ==> {
                let top = old(self).frames@.last();
                top.next < old(self).graph@[top.node as int]@.len() && old(
                    self,
                ).graph@[top.node as int]@[top.next as int] == v
            },
            old(self).model@.step() == old(self).model@.visit(v as int),
        ensures
            final(self).wf(),
            final(self).graph == old(self).graph,
            final(self).model@ == old(self).model@.visit(v as int),
            old(self).timer < old(self).graph@.len(),
            final(self).timer == old(self).timer + 1,
            final(self).tin@ == old(self).tin@.update(v as int, old(self).timer),
    {
        let ghost m = self.model@;
        proof {
            lemma_time_left(m, v as int);
            if self.frames@.len() > 0 {
                assert(m.frames.last() == visits(self.frames@)[self.frames@.len() - 1]);
                assert(m.frame_ok(m.frames.len() - 1));
            }
            lemma_visit_inv(m, v as int);
        }
        let t = self.timer;
        self.tin[v] = t;
        self.low[v] = t;
        self.timer = t + 1;
        self.all.push(v);
        self.frames.push(Frame { node: v, next: 0 });
        proof {
            self.model@ = m.visit(v as int);
            self.steps@ = self.steps@ + 1;
            let m2 = self.model@;
            assert(m.vertex_ok(v as int));
            assert(ints(self.tin@) =~= m2.tin);
            assert(ints(self.low@) =~= m2.low);
            assert(ints(self.all@) =~= m2.stack);
            assert(visits(self.frames@) =~= m2.frames);
            assert forall|x: int| 0 <= x < m.n() implies m2.assigned(x) == m.assigned(x) by {}
        }
    }

    /// Deals with the next edge of the top frame, which leads to a vertex
    /// that has been discovered.
    fn relax(&mut self)
        requires
            old(self).wf(),
            old(self).frames@.len() > 0,
            old(self).frames@.last().next < old(self).graph@[old(
                self,
            ).frames@.last().node as int]@.len(),
            old(self).tin@[old(self).graph@[old(self).frames@.last().node as int]@[old(
                self,
            ).frames@.last().next as int] as int] < old(self).graph@.len(),
        ensures
            final(self).wf(),
            final(self).graph == old(self).graph,
            final(self).model@ == old(self).model@.relax(),
            final(self).timer == old(self).timer,
            final(self).tin@ == old(self).tin@,
            0 <= pending_of(final(self).model@.adj, final(self).model@.frames) < pending_of(
                old(self).model@.adj,
                old(self).model@.frames,
            ),
    {
        let ghost m = self.model@;
        let last = self.frames.len() - 1;
        let u = self.frames[last].node;
        let e = self.frames[last].next;
        proof {
            assert(m.frames.last() == visits(self.frames@)[last as int]);
            assert(m.frame_ok(last as int));
            lemma_relax_inv(m);
        }
        let x = self.graph[u][e];
        assert(e < self.graph[u as int].len());
        proof {
            assert(m.adj[u as int][e as int] == x);
            assert(x < m.n());
            assert(m.low[x as int] == self.low@[x as int]);
            assert(m.low[u as int] == self.low@[u as int]);
        }
        let lx = self.low[x];
        if lx < self.low[u] {
            self.low[u] = lx;
        }
        self.frames[last].next = e + 1;
        proof {
            self.model@ = m.relax();
            self.steps@ = self.steps@ + 1;
            assert(m.step() == m.relax());
            let m2 = self.model@;
            assert(ints(self.low@) =~= m2.low);
            assert(visits(self.frames@) =~= m2.frames);
            assert forall|y: int| 0 <= y < m.n() implies m2.assigned(y) == m.assigned(y) by {
                assert(m.vertex_ok(y));
            }
            lemma_pending_relax(m);
            assert(m2.frames.take(m2.frames.len() as int) == m2.frames);
            lemma_pending_positive(m2, m2.frames.len() as int);
        }
    }

    /// Leaves the top frame, all of whose edges have been dealt with: takes
    /// its component off the stack if it closes one, and deals with the
    /// edge that led to it.
    fn finish(&mut self)
        requires
            old(self).wf(),
            old(self).frames@.len() > 0,
            old(self).frames@.last().next == old(self).graph@[old(
                self,
            ).frames@.last().node as int]@.len(),
        ensures
            final(self).wf(),
            final(self).graph == old(self).graph,
            final(self).timer == old(self).timer,
            final(self).tin@ == old(self).tin@,
            0 <= pending_of(final(self).model@.adj, final(self).model@.frames) < pending_of(
                old(self).model@.adj,
                old(self).model@.frames,
            ),
    {
        let ghost m = self.model@;
        let ghost slot0 = self.slot@;
        let ghost steps0 = self.steps@;
        let ghost sccs0 = self.sccs;
        let n = self.graph.len();
        let last = self.frames.len() - 1;
        let u = self.frames[last].node;
        proof {
            assert(m.frames.last() == visits(self.frames@)[last as int]);
            assert(m.frame_ok(last as int));
            assert(m.vertex_ok(u as int));
            assert(m.tin[u as int] == self.tin@[u as int]);
            assert(m.low[u as int] == self.low@[u as int]);
            assert(m.frames.take(m.frames.len() as int) == m.frames);
            lemma_pending_positive(m, m.frames.len() as int);
        }
        if self.low[u] == self.tin[u] {
            proof {
                lemma_close_inv(m);
            }
            let ghost cut = m.pos[u as int];
            let mut scc: Vec<usize> = Vec::new();
            let mut open: bool = true;
            proof {
                assert(m.stack.take(m.stack.len() as int) == m.stack);
                assert forall|v: int| 0 <= v < n implies (#[trigger] self.low@[v]) == (if m.stacked(
                    v,
                ) && m.pos[v] >= self.all@.len() {
                    n as int
                } else {
                    m.low[v]
                }) by {
                    assert(m.vertex_ok(v));
                    assert(ints(self.low@)[v] == m.low[v]);
                }
            }
            while open
                invariant
                    at_root(m),
                    0 <= cut < m.stack.len(),
                    u < n,
                    m.stacked(u as int),
                    m.stack[cut] == u,
                    m.adj == adjacency(*self.graph),
                    n == m.n(),
                    u == m.frames.last().node,
                    cut == m.pos[u as int],
                    self.graph == old(self).graph,
                    self.tin@ == old(self).tin@,
                    self.frames@ == old(self).frames@,
                    self.sccs == sccs0,
                    self.timer == old(self).timer,
                    self.model@ == m,
                    self.slot@ == slot0,
                    self.steps@ == steps0,
                    cut <= self.all@.len() <= m.stack.len(),
                    open ==> cut < self.all@.len(),
                    !open ==> cut == self.all@.len(),
                    ints(self.all@) == m.stack.take(self.all@.len() as int),
                    self.low@.len() == n,
                    forall|v: int|
                        0 <= v < n ==> (#[trigger] self.low@[v]) == (if m.stacked(v) && m.pos[v]
                            >= self.all@.len() {
                            n as int
                        } else {
                            m.low[v]
                        }),
                    scc@.len() == m.stack.len() - self.all@.len(),
                    forall|i: int|
                        0 <= i < scc@.len() ==> (#[trigger] scc@[i]) == m.stack[m.stack.len() - 1
                            - i],
                decreases self.all@.len() + (if open { 1int } else { 0int }),
            {
                let ghost before = self.all@;
                let ghost low_before = self.low@;
                let x = self.all.pop().unwrap();
                proof {
                    let k = before.len() - 1;
                    assert(ints(before)[k] == m.stack.take(before.len() as int)[k]);
                    assert(x == m.stack[k]);
                    assert(m.stack_ok(k));
                    assert(ints(self.all@) =~= m.stack.take(self.all@.len() as int)) by {
                        assert forall|i: int| 0 <= i < self.all@.len() implies ints(self.all@)[i]
                            == m.stack.take(self.all@.len() as int)[i] by {
                            assert(ints(before)[i] == m.stack.take(before.len() as int)[i]);
                        }
                    }
                }
                self.low[x] = n;
                scc.push(x);
                if x == u {
                    open = false;
                }
                proof {
                    assert forall|v: int| 0 <= v < n implies (#[trigger] self.low@[v]) == (if m.stacked(
                        v,
                    ) && m.pos[v] >= self.all@.len() {
                        n as int
                    } else {
                        m.low[v]
                    }) by {
                        assert(low_before[v] == (if m.stacked(v) && m.pos[v] >= before.len() {
                            n as int
                        } else {
                            m.low[v]
                        }));
                        if v != x && m.stacked(v) && m.pos[v] == self.all@.len() {
                            assert(m.vertex_ok(v));
                        }
                    }
                    if x != u {
                        assert(cut != self.all@.len());
                    }
                }
            }
            self.sccs.push(scc);
            self.frames.pop();
            proof {
                let m2 = m.close();
                self.model@ = m2;
                self.steps@ = self.steps@ + 1;
                assert(m.step() == m.close());
                assert(Search::initial(m.adj).steps(self.steps@) == Search::initial(m.adj).steps(
                    steps0,
                ).step());
                self.slot@ = Seq::new(
                    n as nat,
                    |v: int|
                        if m.stacked(v) && m.pos[v] >= cut {
                            m.stack.len() - 1 - m.pos[v]
                        } else {
                            slot0[v]
                        },
                );
                assert(ints(self.low@) =~= m2.low);
                assert(ints(self.all@) =~= m2.stack);
                assert(visits(self.frames@) =~= m2.frames);
                assert forall|y: int| 0 <= y < n implies (m2.assigned(y) <==> (m.assigned(y) || (
                m.stacked(y) && m.pos[y] >= cut))) by {
                    assert(m.vertex_ok(y));
                }
                assert forall|c: int, k: int|
                    0 <= c < self.sccs@.len() && 0 <= k < self.sccs@[c]@.len() implies {
                    let v = #[trigger] self.sccs@[c]@[k];
                    v < m2.n() && m2.assigned(v as int) && m2.comp[v as int] == c
                        && self.slot@[v as int] == k
                } by {
                    if c < sccs0@.len() {
                        assert(self.sccs@[c] == sccs0@[c]);
                        let v = sccs0@[c]@[k];
                        assert(m.assigned(v as int));
                    } else {
                        let v = scc@[k];
                        assert(m.stack_ok(m.stack.len() - 1 - k));
                    }
                }
                assert forall|v: int| 0 <= v < m2.n() && m2.assigned(v) implies 0 <= (
                #[trigger] self.slot@[v]) < self.sccs@[m2.comp[v]]@.len()
                    && self.sccs@[m2.comp[v]]@[self.slot@[v]] == v by {
                    assert(m.vertex_ok(v));
                    if m.assigned(v) {
                        assert(self.sccs@[m.comp[v]] == sccs0@[m.comp[v]]);
                    } else {
                        assert(scc@[m.stack.len() - 1 - m.pos[v]] == m.stack[m.pos[v]]);
                    }
                }
                assert forall|c: int| 0 <= c < self.sccs@.len() implies (
                #[trigger] self.sccs@[c])@.len() > 0 by {
                    if c < sccs0@.len() {
                        assert(self.sccs@[c] == sccs0@[c]);
                    }
                }
                assert forall|c: int, k1: int, k2: int|
                    0 <= c < self.sccs@.len() && 0 <= k1 < k2 < self.sccs@[c]@.len() implies m2.tin[(
                #[trigger] self.sccs@[c]@[k1]) as int] > m2.tin[(
                #[trigger] self.sccs@[c]@[k2]) as int] by {
                    if c < sccs0@.len() {
                        assert(self.sccs@[c] == sccs0@[c]);
                    } else {
                        let p1 = m.stack.len() - 1 - k1;
                        let p2 = m.stack.len() - 1 - k2;
                        let a = m.stack[p1];
                        let b = m.stack[p2];
                        assert(scc@[k1] == a);
                        assert(scc@[k2] == b);
                        assert(m.stack_ok(p1));
                        assert(m.stack_ok(p2));
                        assert(m.sorted_ok(a, b));
                        assert(m.vertex_ok(a));
                        assert(m.vertex_ok(b));
                    }
                }
                assert(m2.frames.take(m2.frames.len() as int) == m2.frames);
                lemma_pending_positive(m2, m2.frames.len() as int);
            }
            if self.frames.len() > 0 {
                proof {
                    let m2 = self.model@;
                    assert(m.frame_ok(last - 1));
                    assert(m2.frames.last() == m.frames[last - 1]);
                    assert(visits(self.frames@)[last - 1] == m2.frames[last - 1]);
                    assert(m.vertex_ok(u as int));
                    lemma_pending_relax(m2);
                    lemma_relax_inv(m2);
                    let m3 = m2.relax();
                    assert(m3.frames.take(m3.frames.len() as int) == m3.frames);
                    lemma_pending_positive(m3, m3.frames.len() as int);
                }
                self.relax();
            }
        } else {
            proof {
                lemma_retreat_inv(m);
                assert(m.frame_ok(last - 1));
            }
            self.frames.pop();
            let last2 = self.frames.len() - 1;
            let p = self.frames[last2].node;
            let e = self.frames[last2].next;
            proof {
                assert(visits(old(self).frames@)[last2 as int] == m.frames[last2 as int]);
                assert(m.vertex_ok(p as int));
                assert(m.low[p as int] == self.low@[p as int]);
            }
            assert(e < self.graph[p as int].len());
            let lu = self.low[u];
            if lu < self.low[p] {
                self.low[p] = lu;
            }
            self.frames[last2].next = e + 1;
            proof {
                let m1 = m.retreat();
                let m2 = m1.relax();
                self.model@ = m2;
                self.steps@ = self.steps@ + 1;
                assert(m.step() == m2);
                assert(Search::initial(m.adj).steps(self.steps@) == Search::initial(m.adj).steps(
                    steps0,
                ).step());
                assert(m1.frames.last() == m.frames[last2 as int]);
                assert(m1.adj[p as int][e as int] == u);
                assert(ints(self.low@) =~= m2.low);
                assert(visits(self.frames@) =~= m2.frames);
                assert(ints(self.all@) =~= m2.stack);
                assert forall|y: int| 0 <= y < m.n() implies m2.assigned(y) == m.assigned(y) by {
                    assert(m.vertex_ok(y));
                }
                lemma_pending_relax(m1);
                assert(m2.frames.take(m2.frames.len() as int) == m2.frames);
                lemma_pending_positive(m2, m2.frames.len() as int);
            }
        }
    }

    /// Searches from `u`, which has not been discovered, until every vertex
    /// that it reaches has its component.
    fn dfs(&mut self, u: usize)
        requires
            old(self).wf(),
            old(self).frames@.len() == 0,
            u < old(self).graph@.len(),
            old(self).tin@[u as int] == old(self).graph@.len(),
            forall|v: int| 0 <= v < u ==> (#[trigger] old(self).tin@[v]) < old(self).graph@.len(),
        ensures
            final(self).wf(),
            final(self).frames@.len() == 0,
            final(self).graph == old(self).graph,
            final(self).tin@[u as int] < final(self).graph@.len(),
            forall|v: int|
                0 <= v < old(self).graph@.len() && old(self).tin@[v] < old(self).graph@.len()
                    ==> (#[trigger] final(self).tin@[v]) < old(self).graph@.len(),
    {
        let n = self.graph.len();
        proof {
            let m = self.model@;
            assert(m.frames =~= visits(self.frames@));
            assert forall|v: int| 0 <= v < u implies !#[trigger] m.unvisited(v) by {
                assert(ints(self.tin@)[v] == m.tin[v]);
                assert(self.tin@[v] < n);
            }
            assert(ints(self.tin@)[u as int] == m.tin[u as int]);
            assert(m.is_first_unvisited(u as int));
            let w = choose|w: int| m.is_first_unvisited(w);
            if w < u {
                assert(!m.unvisited(w));
            }
            if u < w {
                assert(!m.unvisited(u as int));
            }
        }
        self.visit(u);
        while self.frames.len() > 0
            invariant
                self.wf(),
                self.graph == old(self).graph,
                n == self.graph@.len(),
                u < n,
                self.timer <= n,
                self.tin@.len() == n,
                self.tin@[u as int] < n,
                forall|v: int|
                    0 <= v < n && old(self).tin@[v] < n ==> (#[trigger] self.tin@[v]) < n,
            decreases n - self.timer, pending_of(self.model@.adj, self.model@.frames),
        {
            let ghost m = self.model@;
            let last = self.frames.len() - 1;
            let v = self.frames[last].node;
            let e = self.frames[last].next;
            proof {
                assert(m.frames.last() == visits(self.frames@)[last as int]);
                assert(m.frame_ok(last as int));
                assert(m.frames.take(m.frames.len() as int) == m.frames);
                lemma_pending_positive(m, m.frames.len() as int);
            }
            if e < self.graph[v].len() {
                let x = self.graph[v][e];
                proof {
                    assert(m.adj[v as int][e as int] == x);
                    assert(x < n);
                }
                if self.tin[x] == n {
                    proof {
                        assert(m.tin[x as int] == self.tin@[x as int]);
                        assert(m.step() == m.visit(x as int));
                    }
                    self.visit(x);
                } else {
                    proof {
                        assert(m.vertex_ok(x as int));
                        assert(m.tin[x as int] == self.tin@[x as int]);
                        lemma_pending_relax(m);
                    }
                    self.relax();
                }
            } else {
                self.finish();
            }
        }
    }

    /// The strongly connected components of `graph`, each as the list of
    /// its vertices. No edge leads from a component to one that comes
    /// later in the result.
    pub fn of(graph: &'a Vec<Vec<usize>>) -> (sccs: Vec<Vec<usize>>)
        requires
            graph_ok(adjacency(*graph)),
        ensures
            is_condensation(adjacency(*graph), parts(sccs)),
            is_search_result(adjacency(*graph), parts(sccs)),
    {
        let n = graph.len();
        let ghost adj = adjacency(*graph);
        let mut tin: Vec<usize> = Vec::new();
        let mut low: Vec<usize> = Vec::new();
        let mut i: usize = 0;
        while i < n
            invariant
                i <= n,
                tin@.len() == i,
                low@.len() == i,
                forall|k: int| 0 <= k < i ==> tin@[k] == n,
                forall|k: int| 0 <= k < i ==> low@[k] == 0,
            decreases n - i,
        {
            tin.push(n);
            low.push(0);
            i += 1;
        }
        let mut solver = Self {
            graph,
            timer: 0,
            tin,
            low,
            all: Vec::new(),
            sccs: Vec::new(),
            frames: Vec::new(),
            model: Ghost(Search::initial(adj)),
            slot: Ghost(Seq::new(n as nat, |v: int| -1int)),
            steps: Ghost(0nat),
        };
        proof {
            lemma_initial_inv(adj);
            let m = solver.model@;
            assert(ints(solver.tin@) =~= m.tin);
            assert(ints(solver.low@) =~= m.low);
            assert(ints(solver.all@) =~= m.stack);
            assert(visits(solver.frames@) =~= m.frames);
        }
        let mut u: usize = 0;
        while u < n
            invariant
                u <= n,
                n == graph@.len(),
                adj == adjacency(*graph),
                solver.graph == graph,
                solver.wf(),
                solver.frames@.len() == 0,
                solver.tin@.len() == n,
                forall|v: int| 0 <= v < u ==> (#[trigger] solver.tin@[v]) < n,
            decreases n - u,
        {
            proof {
                assert(solver.model@.vertex_ok(u as int));
                assert(ints(solver.tin@)[u as int] == solver.model@.tin[u as int]);
            }
            if solver.tin[u] == n {
                let ghost before = solver.tin@;
                solver.dfs(u);
                proof {
                    assert forall|v: int| 0 <= v < u + 1 implies (#[trigger] solver.tin@[v]) < n by {
                        if v < u {
                            assert(before[v] < n);
                        }
                    }
                }
            }
            u += 1;
        }
        proof {
            let m = solver.model@;
            let ps = parts(solver.sccs);
            assert forall|v: int| 0 <= v < n implies m.assigned(v) by {
                assert(m.vertex_ok(v));
                assert(m.tin[v] == solver.tin@[v]);
            }
            assert forall|v: int| 0 <= v < adj.len() implies #[trigger] listed_in(ps, v) by {
                assert(m.vertex_ok(v));
                assert(m.assigned(v));
                assert(0 <= solver.slot@[v] < solver.sccs@[m.comp[v]]@.len());
                assert(ps[m.comp[v]][solver.slot@[v]] == v);
            }
            assert forall|c: int, k1: int, k2: int|
                0 <= c < ps.len() && 0 <= k1 < ps[c].len() && 0 <= k2 < ps[c].len() implies reaches(
                adj,
                #[trigger] ps[c][k1] as int,
                #[trigger] ps[c][k2] as int,
            ) by {
                let a = solver.sccs@[c]@[k1];
                let b = solver.sccs@[c]@[k2];
                assert(m.pair_ok(a as int, b as int));
            }
            assert forall|c1: int, k1: int, c2: int, k2: int|
                0 <= c1 < ps.len() && 0 <= k1 < ps[c1].len() && 0 <= c2 < ps.len() && 0 <= k2
                    < ps[c2].len() && has_edge(
                    adj,
                    #[trigger] ps[c1][k1] as int,
                    #[trigger] ps[c2][k2] as int,
                ) implies c2 <= c1 by {
                let a = solver.sccs@[c1]@[k1];
                let b = solver.sccs@[c2]@[k2];
                let e = choose|e: int| 0 <= e < adj[a as int].len() && #[trigger] adj[a as int][e] == b;
                assert(m.edge_ok(a as int, e));
            }
            assert forall|c1: int, k1: int, c2: int, k2: int|
                0 <= c1 < ps.len() && 0 <= k1 < ps[c1].len() && 0 <= c2 < ps.len() && 0 <= k2
                    < ps[c2].len() && #[trigger] ps[c1][k1] == #[trigger] ps[c2][k2] implies c1
                == c2 && k1 == k2 by {
                let a = solver.sccs@[c1]@[k1];
                let b = solver.sccs@[c2]@[k2];
            }
            assert forall|c: int| 0 <= c < ps.len() implies (#[trigger] ps[c]).len() > 0 by {
                assert(solver.sccs@[c]@.len() > 0);
            }
            assert forall|c: int, k: int| 0 <= c < ps.len() && 0 <= k < ps[c].len() implies (
            #[trigger] ps[c][k]) < adj.len() by {
                let a = solver.sccs@[c]@[k];
            }
            assert(m.frames =~= visits(solver.frames@));
            assert forall|v: int| 0 <= v < m.n() implies !#[trigger] m.unvisited(v) by {
                assert(m.assigned(v));
            }
            assert forall|c: int, k: int| 0 <= c < ps.len() && 0 <= k < ps[c].len() implies (
            #[trigger] ps[c][k]) < m.n() && m.comp[ps[c][k] as int] == c by {
                let a = solver.sccs@[c]@[k];
            }
            assert forall|c: int, k1: int, k2: int|
                0 <= c < ps.len() && 0 <= k1 < k2 < ps[c].len() implies m.tin[(
            #[trigger] ps[c][k1]) as int] > m.tin[(#[trigger] ps[c][k2]) as int] by {
                let a = solver.sccs@[c]@[k1];
                let b = solver.sccs@[c]@[k2];
            }
            assert(lists_components(ps, Search::initial(adj).steps(solver.steps@)));
        }
        solver.sccs
    }
}

} // verus!
