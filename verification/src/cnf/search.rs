//! The state of the depth-first search for strongly connected components,
//! as a mathematical value, and what holds of it at every step.

use vstd::prelude::*;
use crate::cnf::graph::{graph_ok, reaches};

verus! {

/// A vertex whose successors are being visited, and the number of them
/// that have been dealt with.
pub ghost struct Visit {
    pub node: int,
    pub next: int,
}

/// The state of the search.
///
/// `tin` is the time at which a vertex was discovered, or the number of
/// vertices while it has not been; `low` is the earliest discovery time
/// known to be reachable among the vertices on the stack, or the number of
/// vertices once the vertex has its component.
pub ghost struct Search {
    pub adj: Seq<Seq<usize>>,
    pub tin: Seq<int>,
    pub low: Seq<int>,
    pub stack: Seq<int>,
    pub frames: Seq<Visit>,
    /// The component of each vertex, or -1.
    pub comp: Seq<int>,
    /// The number of components found.
    pub count: int,
    /// The vertices in the order of their discovery.
    pub order: Seq<int>,
    /// The place of each vertex on the stack.
    pub pos: Seq<int>,
    /// For each vertex on the stack, a vertex on the stack that it reaches
    /// and that was discovered at time `low`.
    pub target: Seq<int>,
    /// The index of the frame of each vertex, or -1.
    pub gray: Seq<int>,
}

/// The number of steps that the frames still ask for: one for each edge
/// that has not been dealt with, and one for each frame.
pub open spec fn pending_of(adj: Seq<Seq<usize>>, frames: Seq<Visit>) -> int
    decreases frames.len(),
{
    if frames.len() == 0 {
        0
    } else {
        pending_of(adj, frames.drop_last()) + adj[frames.last().node].len()
            - frames.last().next + 1
    }
}

impl Search {
    /// The number of vertices.
    pub open spec fn n(self) -> int {
        self.adj.len() as int
    }

    /// Whether `v` has not been discovered.
    pub open spec fn unvisited(self, v: int) -> bool {
        self.tin[v] == self.n()
    }

    /// Whether `v` has been discovered and has no component yet: it is on
    /// the stack.
    pub open spec fn stacked(self, v: int) -> bool {
        0 <= self.tin[v] < self.n() && 0 <= self.low[v] <= self.tin[v]
    }

    /// Whether `v` has its component.
    pub open spec fn assigned(self, v: int) -> bool {
        0 <= self.tin[v] < self.n() && self.low[v] == self.n()
    }

    /// Whether the tables have one entry for each vertex, and the stack is
    /// empty where no frame is open and begins with the vertex of the
    /// first frame where one is.
    pub open spec fn shape(self) -> bool {
        &&& graph_ok(self.adj)
        &&& self.tin.len() == self.n()
        &&& self.low.len() == self.n()
        &&& self.comp.len() == self.n()
        &&& self.pos.len() == self.n()
        &&& self.target.len() == self.n()
        &&& self.gray.len() == self.n()
        &&& self.count >= 0
        &&& self.frames.len() == 0 ==> self.stack.len() == 0
        &&& self.frames.len() > 0 ==> self.stack.len() > 0 && self.stack[0]
            == self.frames[0].node
    }

    /// What holds of the vertex `v`: its time of discovery is its place in
    /// `order`; while it is on the stack, `pos` is its place there and
    /// `target` a vertex on the stack that it reaches and that was
    /// discovered at time `low`, before `v` itself if `v` has no frame; once
    /// it has its component, that is one of those found.
    pub open spec fn vertex_ok(self, v: int) -> bool {
        &&& 0 <= self.tin[v] <= self.n()
        &&& self.tin[v] < self.n() ==> {
            &&& self.tin[v] < self.order.len()
            &&& self.order[self.tin[v]] == v
            &&& (self.low[v] == self.n() || 0 <= self.low[v] <= self.tin[v])
        }
        &&& self.unvisited(v) ==> self.comp[v] == -1 && self.gray[v] == -1
        &&& self.stacked(v) ==> {
            &&& self.comp[v] == -1
            &&& 0 <= self.pos[v] < self.stack.len()
            &&& self.stack[self.pos[v]] == v
            &&& 0 <= self.target[v] < self.n()
            &&& self.stacked(self.target[v])
            &&& self.tin[self.target[v]] == self.low[v]
            &&& reaches(self.adj, v, self.target[v])
            &&& self.gray[v] == -1 ==> self.low[v] < self.tin[v]
            &&& self.gray[v] != -1 ==> 0 <= self.gray[v] < self.frames.len()
                && self.frames[self.gray[v]].node == v
        }
        &&& self.assigned(v) ==> 0 <= self.comp[v] < self.count && self.gray[v] == -1
    }

    /// Whether the vertex discovered at time `t` knows it.
    pub open spec fn order_ok(self, t: int) -> bool {
        0 <= self.order[t] < self.n() && self.tin[self.order[t]] == t
    }

    /// Whether the vertex at place `k` of the stack is on the stack and
    /// knows its place.
    pub open spec fn stack_ok(self, k: int) -> bool {
        &&& 0 <= self.stack[k] < self.n()
        &&& self.stacked(self.stack[k])
        &&& self.pos[self.stack[k]] == k
    }

    /// Whether, of the two vertices on the stack, the one discovered
    /// earlier lies deeper.
    pub open spec fn sorted_ok(self, u: int, v: int) -> bool {
        self.stacked(u) && self.stacked(v) && self.tin[u] < self.tin[v] ==> self.pos[u]
            < self.pos[v]
    }

    /// What holds of frame `k`: its vertex is on the stack and knows the
    /// frame, and the next of its edges leads to the vertex of the frame
    /// above, which was discovered later.
    pub open spec fn frame_ok(self, k: int) -> bool {
        let u = self.frames[k].node;
        let e = self.frames[k].next;
        &&& 0 <= u < self.n()
        &&& self.stacked(u)
        &&& self.gray[u] == k
        &&& 0 <= e <= self.adj[u].len()
        &&& k + 1 < self.frames.len() ==> {
            &&& e < self.adj[u].len()
            &&& self.adj[u][e] == self.frames[k + 1].node
            &&& self.tin[u] < self.tin[self.frames[k + 1].node]
        }
    }

    /// Whether edge `e` of `u` has been dealt with.
    pub open spec fn handled(self, u: int, e: int) -> bool {
        self.stacked(u) && (self.gray[u] == -1 || e < self.frames[self.gray[u]].next)
    }

    /// What holds of edge `e` of `u`: if `u` has its component, so has the
    /// vertex that the edge leads to, and it is no later one; if the edge
    /// has been dealt with, that vertex has been discovered, and `low` of
    /// `u` is no later than its discovery while it is on the stack.
    pub open spec fn edge_ok(self, u: int, e: int) -> bool {
        let x = self.adj[u][e] as int;
        &&& self.assigned(u) ==> self.assigned(x) && self.comp[x] <= self.comp[u]
        &&& self.handled(u, e) ==> self.tin[x] < self.n() && (self.stacked(x) ==> self.low[u]
            <= self.tin[x])
    }

    /// Whether `y` is on the stack above the vertex of frame `k` and below
    /// that of the next frame.
    pub open spec fn in_region(self, k: int, y: int) -> bool {
        &&& self.stacked(y)
        &&& self.tin[self.frames[k].node] < self.tin[y]
        &&& k + 1 < self.frames.len() ==> self.tin[y] < self.tin[self.frames[k + 1].node]
    }

    /// What holds of a vertex `y` above the vertex of frame `k`: it has no
    /// frame, `low` of the frame's vertex is no later than its own, and
    /// the frame's vertex reaches it.
    pub open spec fn region_ok(self, k: int, y: int) -> bool {
        self.in_region(k, y) ==> {
            &&& self.gray[y] == -1
            &&& self.low[self.frames[k].node] <= self.low[y]
            &&& reaches(self.adj, self.frames[k].node, y)
        }
    }

    /// Whether `u` reaches `v` if both are in one component.
    pub open spec fn pair_ok(self, u: int, v: int) -> bool {
        self.assigned(u) && self.assigned(v) && self.comp[u] == self.comp[v] ==> reaches(
            self.adj,
            u,
            v,
        )
    }

    /// What holds of the search at every step.
    pub open spec fn inv(self) -> bool {
        &&& self.shape()
        &&& forall|v: int| 0 <= v < self.n() ==> #[trigger] self.vertex_ok(v)
        &&& forall|t: int| 0 <= t < self.order.len() ==> #[trigger] self.order_ok(t)
        &&& forall|k: int| 0 <= k < self.stack.len() ==> #[trigger] self.stack_ok(k)
        &&& forall|u: int, v: int|
            0 <= u < self.n() && 0 <= v < self.n() ==> #[trigger] self.sorted_ok(u, v)
        &&& forall|k: int| 0 <= k < self.frames.len() ==> #[trigger] self.frame_ok(k)
        &&& forall|u: int, e: int|
            0 <= u < self.n() && 0 <= e < self.adj[u].len() ==> #[trigger] self.edge_ok(u, e)
        &&& forall|k: int, y: int|
            0 <= k < self.frames.len() && 0 <= y < self.n() ==> #[trigger] self.region_ok(k, y)
        &&& forall|u: int, v: int|
            0 <= u < self.n() && 0 <= v < self.n() ==> #[trigger] self.pair_ok(u, v)
    }

    /// The search before it has begun.
    pub open spec fn initial(adj: Seq<Seq<usize>>) -> Search {
        let n = adj.len() as int;
        Search {
            adj,
            tin: Seq::new(adj.len(), |v: int| n),
            low: Seq::new(adj.len(), |v: int| 0int),
            stack: Seq::empty(),
            frames: Seq::empty(),
            comp: Seq::new(adj.len(), |v: int| -1int),
            count: 0,
            order: Seq::empty(),
            pos: Seq::new(adj.len(), |v: int| -1int),
            target: Seq::new(adj.len(), |v: int| -1int),
            gray: Seq::new(adj.len(), |v: int| -1int),
        }
    }

    /// The search after the discovery of `v`.
    pub open spec fn visit(self, v: int) -> Search {
        let t = self.order.len() as int;
        Search {
            tin: self.tin.update(v, t),
            low: self.low.update(v, t),
            stack: self.stack.push(v),
            frames: self.frames.push(Visit { node: v, next: 0 }),
            order: self.order.push(v),
            pos: self.pos.update(v, self.stack.len() as int),
            target: self.target.update(v, v),
            gray: self.gray.update(v, self.frames.len() as int),
            ..self
        }
    }

    /// The search after the next edge of the top frame, which leads to a
    /// vertex that has been discovered, has been dealt with.
    pub open spec fn relax(self) -> Search {
        let top = self.frames.last();
        let u = top.node;
        let x = self.adj[u][top.next] as int;
        let frames = self.frames.update(
            self.frames.len() - 1,
            Visit { node: u, next: top.next + 1 },
        );
        if self.low[x] < self.low[u] {
            Search {
                low: self.low.update(u, self.low[x]),
                target: self.target.update(u, self.target[x]),
                frames,
                ..self
            }
        } else {
            Search { frames, ..self }
        }
    }

    /// The search after the top frame has been left without closing a
    /// component.
    pub open spec fn retreat(self) -> Search {
        let u = self.frames.last().node;
        Search { frames: self.frames.drop_last(), gray: self.gray.update(u, -1), ..self }
    }

    /// The search after the vertices from the top frame's vertex up have
    /// been taken off the stack as a component.
    pub open spec fn close(self) -> Search {
        let r = self.frames.last().node;
        let cut = self.pos[r];
        let n = self.n();
        Search {
            stack: self.stack.take(cut),
            low: Seq::new(
                self.low.len(),
                |v: int| if self.stacked(v) && self.pos[v] >= cut { n } else { self.low[v] },
            ),
            comp: Seq::new(
                self.comp.len(),
                |v: int| if self.stacked(v) && self.pos[v] >= cut { self.count } else { self.comp[v] },
            ),
            count: self.count + 1,
            frames: self.frames.drop_last(),
            gray: self.gray.update(r, -1),
            ..self
        }
    }

    /// Whether the search is over: no frame is open and every vertex has
    /// been discovered.
    pub open spec fn done(self) -> bool {
        self.frames.len() == 0 && forall|v: int| 0 <= v < self.n() ==> !#[trigger] self.unvisited(v)
    }

    /// Whether `v` is the first vertex that has not been discovered.
    pub open spec fn is_first_unvisited(self, v: int) -> bool {
        &&& 0 <= v < self.n()
        &&& self.unvisited(v)
        &&& forall|u: int| 0 <= u < v ==> !#[trigger] self.unvisited(u)
    }

    /// The search one step on. Where no frame is open, the first vertex
    /// that has not been discovered is; else the next edge of the top
    /// frame is followed to a vertex that has not been discovered, or dealt
    /// with; a frame without further edges is left, with its component taken
    /// off the stack if it closes one. A search that is over stays as it is.
    pub open spec fn step(self) -> Search {
        if self.frames.len() == 0 {
            if exists|v: int| self.is_first_unvisited(v) {
                self.visit(choose|v: int| self.is_first_unvisited(v))
            } else {
                self
            }
        } else {
            let top = self.frames.last();
            if top.next < self.adj[top.node].len() {
                let x = self.adj[top.node][top.next] as int;
                if self.unvisited(x) {
                    self.visit(x)
                } else {
                    self.relax()
                }
            } else if self.low[top.node] == self.tin[top.node] {
                self.close()
            } else {
                self.retreat().relax()
            }
        }
    }

    /// The search `k` steps on.
    pub open spec fn steps(self, k: nat) -> Search
        decreases k,
    {
        if k == 0 {
            self
        } else {
            self.steps((k - 1) as nat).step()
        }
    }
}

} // verus!
