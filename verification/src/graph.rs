//! A directed graph over integer nodes that is kept acyclic at all times.
//!
//! The graph stores, besides its edge list, a concrete topological order of
//! its nodes (`order`, with `pos` as the inverse permutation). Every edge
//! points from a node earlier in `order` to a node later in it, so the order
//! is both a certificate of acyclicity and a ready-made evaluation order.
//! Edge insertion either keeps the order valid as it is, repairs it by
//! shifting the affected nodes, or reports that the new edge would close a
//! directed cycle.

use vstd::prelude::*;

verus! {

/// A sequence of nodes in which every consecutive pair is an edge.
pub open spec fn is_path(edges: Seq<(usize, usize)>, p: Seq<usize>) -> bool {
    &&& p.len() >= 1
    &&& forall|i: int|
        0 <= i < p.len() - 1 ==> edges.contains((#[trigger] p[i], p[i + 1]))
}

/// Node `b` can be reached from node `a` by following zero or more edges.
pub open spec fn reaches(edges: Seq<(usize, usize)>, a: usize, b: usize) -> bool {
    exists|p: Seq<usize>| is_path(edges, p) && p.first() == a && p.last() == b
}

/// A directed acyclic graph that maintains a topological order of its nodes.
///
/// Nodes are the integers `0 .. node_count()`. The order is kept as a vector
/// `order` of nodes together with its inverse `pos`, so that
/// `order[pos[x]] == x` and every edge runs from a smaller to a larger
/// position.
pub struct DepGraph {
    order: Vec<usize>,
    pos: Vec<usize>,
    edges: Vec<(usize, usize)>,
}

impl DepGraph {
    /// How many nodes the graph has.
    pub closed spec fn node_count(&self) -> int {
        self.pos@.len() as int
    }

    /// The maintained topological order, as a sequence of nodes.
    pub closed spec fn order_seq(&self) -> Seq<usize> {
        self.order@
    }

    /// The inverse of `order_seq`: the position of each node in the order.
    pub closed spec fn pos_seq(&self) -> Seq<usize> {
        self.pos@
    }

    /// All edges, in insertion order.
    pub closed spec fn edge_seq(&self) -> Seq<(usize, usize)> {
        self.edges@
    }

    /// Position of node `x` in the maintained order.
    pub open spec fn position(&self, x: int) -> int {
        self.pos_seq()[x] as int
    }

    /// The maintained order and its inverse are mutually consistent
    /// permutations of the nodes, and every edge points forward in the order.
    pub open spec fn wf(&self) -> bool {
        &&& self.order_seq().len() == self.node_count()
        &&& self.pos_seq().len() == self.node_count()
        &&& self.node_count() <= usize::MAX
        &&& forall|i: int|
            0 <= i < self.node_count() ==> #[trigger] self.order_seq()[i] < self.node_count()
        &&& forall|i: int|
            0 <= i < self.node_count() ==> self.position(#[trigger] self.order_seq()[i] as int)
                == i
        &&& forall|x: int|
            0 <= x < self.node_count() ==> 0 <= #[trigger] self.position(x) < self.node_count()
        &&& forall|x: int|
            0 <= x < self.node_count() ==> #[trigger] self.order_seq()[self.position(x)] == x
        &&& forall|k: int|
            0 <= k < self.edge_seq().len() ==> (#[trigger] self.edge_seq()[k]).0
                < self.node_count() && self.edge_seq()[k].1 < self.node_count()
        &&& forall|k: int|
            0 <= k < self.edge_seq().len() ==> self.position(
                (#[trigger] self.edge_seq()[k]).0 as int,
            ) < self.position(self.edge_seq()[k].1 as int)
        &&& self.edge_seq().no_duplicates()
    }

    /// An empty graph.
    pub fn new() -> (g: DepGraph)
        ensures
            g.wf(),
            g.node_count() == 0,
            g.edge_seq() == Seq::<(usize, usize)>::empty(),
    {
        DepGraph { order: Vec::new(), pos: Vec::new(), edges: Vec::new() }
    }

    /// Number of nodes, as an executable value.
    pub fn len(&self) -> (n: usize)
        ensures
            n == self.node_count(),
    {
        self.pos.len()
    }

    /// The node at position `i` of the maintained order.
    pub fn order_at(&self, i: usize) -> (x: usize)
        requires
            self.wf(),
            i < self.node_count(),
        ensures
            x == self.order_seq()[i as int],
            x < self.node_count(),
    {
        self.order[i]
    }

    /// Append a fresh node, placed at the end of the order.
    pub fn add_node(&mut self) -> (x: usize)
        requires
            old(self).wf(),
        ensures
            final(self).wf(),
            x == old(self).node_count(),
            final(self).node_count() == old(self).node_count() + 1,
            final(self).order_seq() == old(self).order_seq().push(x),
            final(self).pos_seq() == old(self).pos_seq().push(x),
            final(self).edge_seq() == old(self).edge_seq(),
    {
        let x = self.pos.len();
        self.order.push(x);
        self.pos.push(x);
        let new_total = self.pos.len();
        proof {
            assert(self.node_count() == new_total);
            assert forall|i: int|
                0 <= i < self.node_count() implies self.position(
                #[trigger] self.order_seq()[i] as int,
            ) == i by {
                if i < self.node_count() - 1 {
                    assert(self.order_seq()[i] == old(self).order_seq()[i]);
                }
            }
            assert forall|y: int|
                0 <= y < self.node_count() implies 0 <= #[trigger] self.position(y)
                < self.node_count() && self.order_seq()[self.position(y)] == y by {
                if y < self.node_count() - 1 {
                    assert(self.position(y) == old(self).position(y));
                    assert(old(self).order_seq()[old(self).position(y)] == y);
                } else {
                    assert(self.position(y) == self.node_count() - 1);
                }
            }
        }
        x
    }

    /// Append an edge that already agrees with the maintained order.
    ///
    /// The caller shows that `u` stands before `v`; the order is unchanged.
    pub fn add_edge_ordered(&mut self, u: usize, v: usize)
        requires
            old(self).wf(),
            u < old(self).node_count(),
            v < old(self).node_count(),
            old(self).position(u as int) < old(self).position(v as int),
            !old(self).edge_seq().contains((u, v)),
        ensures
            final(self).wf(),
            final(self).node_count() == old(self).node_count(),
            final(self).order_seq() == old(self).order_seq(),
            final(self).pos_seq() == old(self).pos_seq(),
            final(self).edge_seq() == old(self).edge_seq().push((u, v)),
    {
        self.edges.push((u, v));
        proof {
            assert forall|i: int, j: int|
                0 <= i < self.edge_seq().len() && 0 <= j < self.edge_seq().len() && i != j
                implies self.edge_seq()[i] != self.edge_seq()[j] by {
                let last = self.edge_seq().len() - 1;
                if i == last || j == last {
                    let k = if i == last { j } else { i };
                    if old(self).edge_seq()[k] == (u, v) {
                        assert(old(self).edge_seq().contains((u, v)));
                    }
                } else {
                    assert(old(self).edge_seq().no_duplicates());
                    assert(old(self).edge_seq()[i] != old(self).edge_seq()[j]);
                }
            }
            assert forall|k: int|
                0 <= k < self.edge_seq().len() implies (#[trigger] self.edge_seq()[k]).0
                < self.node_count() && self.edge_seq()[k].1 < self.node_count()
                && self.position(self.edge_seq()[k].0 as int) < self.position(
                self.edge_seq()[k].1 as int,
            ) by {
                if k < self.edge_seq().len() - 1 {
                    assert(self.edge_seq()[k] == old(self).edge_seq()[k]);
                }
            }
            assert forall|y: int|
                0 <= y < self.node_count() implies 0 <= #[trigger] self.position(y)
                < self.node_count() && self.order_seq()[self.position(y)] == y by {
                assert(self.position(y) == old(self).position(y));
                assert(old(self).order_seq()[old(self).position(y)] == y);
            }
        }
    }

    /// Along any path, positions in the maintained order strictly increase.
    proof fn lemma_path_increases(&self, p: Seq<usize>)
        requires
            self.wf(),
            is_path(self.edge_seq(), p),
            p.len() >= 2,
        ensures
            p.first() < self.node_count(),
            p.last() < self.node_count(),
            self.position(p.first() as int) < self.position(p.last() as int),
        decreases p.len(),
    {
        assert(self.edge_seq().contains((p[0], p[1])));
        let k = choose|k: int|
            0 <= k < self.edge_seq().len() && self.edge_seq()[k] == (p[0], p[1]);
        if p.len() == 2 {
        } else {
            let q = p.subrange(1, p.len() as int);
            assert forall|i: int| 0 <= i < q.len() - 1 implies #[trigger] self.edge_seq().contains(
                (q[i], q[i + 1]),
            ) by {
                assert(q[i] == p[i + 1]);
                assert(q[i + 1] == p[i + 2]);
                assert(self.edge_seq().contains((p[i + 1], p[i + 2])));
            }
            self.lemma_path_increases(q);
            assert(q.first() == p[1]);
            assert(q.last() == p.last());
        }
    }

    /// Every node reaches itself by the empty path.
    proof fn lemma_reaches_self(edges: Seq<(usize, usize)>, v: usize)
        ensures
            reaches(edges, v, v),
    {
        let p = seq![v];
        assert(is_path(edges, p) && p.first() == v && p.last() == v);
    }

    /// Reachability extends across a single edge.
    proof fn lemma_reaches_step(edges: Seq<(usize, usize)>, a: usize, b: usize, c: usize)
        requires
            reaches(edges, a, b),
            edges.contains((b, c)),
        ensures
            reaches(edges, a, c),
    {
        let p = choose|p: Seq<usize>| is_path(edges, p) && p.first() == a && p.last() == b;
        let q = p.push(c);
        assert forall|i: int| 0 <= i < q.len() - 1 implies edges.contains(
            (#[trigger] q[i], q[i + 1]),
        ) by {
            if i < p.len() - 1 {
                assert(edges.contains((p[i], p[i + 1])));
            } else {
                assert(q[i] == b && q[i + 1] == c);
            }
        }
        assert(is_path(edges, q) && q.first() == a && q.last() == c);
    }

    /// A no-duplicate sequence of nodes below `n` has at most `n` elements.
    proof fn lemma_bounded_no_dup_len(s: Seq<usize>, n: int)
        requires
            s.no_duplicates(),
            forall|i: int| 0 <= i < s.len() ==> #[trigger] s[i] < n,
            n >= 0,
        ensures
            s.len() <= n,
    {
        broadcast use vstd::set::group_set_axioms;

        let t = Seq::new(s.len(), |i: int| s[i] as int);
        assert forall|i: int, j: int|
            (0 <= i < t.len() && 0 <= j < t.len() && i != j) implies t[i] != t[j] by {
            assert(s[i] != s[j]);
        }
        t.unique_seq_to_set();
        vstd::set_lib::lemma_int_range(0, n);
        assert forall|x: int| t.to_set().contains(x) implies vstd::set_lib::set_int_range(
            0,
            n,
        ).contains(x) by {
            let i = choose|i: int| 0 <= i < t.len() && t[i] == x;
            assert(s[i] < n);
        }
        vstd::set_lib::lemma_len_subset(t.to_set(), vstd::set_lib::set_int_range(0, n));
    }

    /// A set of flags that holds at a path's start and is closed under edges
    /// also holds at the path's end.
    proof fn lemma_closed_covers_reachable(&self, r: Seq<bool>, p: Seq<usize>)
        requires
            self.wf(),
            r.len() == self.node_count(),
            is_path(self.edge_seq(), p),
            p.first() < self.node_count(),
            r[p.first() as int],
            forall|k: int|
                0 <= k < self.edge_seq().len() && r[(#[trigger] self.edge_seq()[k]).0 as int]
                    ==> r[self.edge_seq()[k].1 as int],
        ensures
            p.last() < self.node_count() && r[p.last() as int],
        decreases p.len(),
    {
        if p.len() == 1 {
        } else {
            assert(self.edge_seq().contains((p[0], p[1])));
            let k = choose|k: int|
                0 <= k < self.edge_seq().len() && self.edge_seq()[k] == (p[0], p[1]);
            assert(r[self.edge_seq()[k].1 as int]);
            let q = p.subrange(1, p.len() as int);
            assert forall|i: int| 0 <= i < q.len() - 1 implies self.edge_seq().contains(
                (#[trigger] q[i], q[i + 1]),
            ) by {
                assert(self.edge_seq().contains((p[i + 1], p[i + 2])));
            }
            self.lemma_closed_covers_reachable(r, q);
            assert(q.last() == p.last());
        }
    }

    /// Flags for every node that `v` reaches: the start node is flagged, a
    /// flag implies reachability, and the flags are closed under edges.
    #[verifier::rlimit(60)]
    fn reach(&self, v: usize) -> (r: Vec<bool>)
        requires
            self.wf(),
            v < self.node_count(),
        ensures
            r@.len() == self.node_count(),
            r@[v as int],
            forall|x: int| 0 <= x < r@.len() && r@[x] ==> reaches(self.edge_seq(), v, x as usize),
            forall|k: int|
                0 <= k < self.edge_seq().len() && r@[(#[trigger] self.edge_seq()[k]).0 as int]
                    ==> r@[self.edge_seq()[k].1 as int],
    {
        let n = self.pos.len();
        let mut visited: Vec<bool> = Vec::new();
        let mut i: usize = 0;
        while i < n
            invariant
                i <= n,
                visited@.len() == i,
                forall|j: int| 0 <= j < i ==> !visited@[j],
            decreases n - i,
        {
            visited.push(false);
            i += 1;
        }
        let mut queue: Vec<usize> = Vec::new();
        visited[v] = true;
        queue.push(v);
        proof {
            Self::lemma_reaches_self(self.edge_seq(), v);
            assert(queue@[0] == v);
        }
        let mut head: usize = 0;
        while head < queue.len()
            invariant
                self.wf(),
                v < self.node_count(),
                visited@.len() == self.node_count(),
                visited@[v as int],
                head <= queue@.len(),
                queue@.len() <= self.node_count(),
                queue@.no_duplicates(),
                forall|j: int|
                    0 <= j < queue@.len() ==> #[trigger] queue@[j] < self.node_count()
                        && visited@[queue@[j] as int],
                forall|x: int|
                    0 <= x < visited@.len() && visited@[x] ==> #[trigger] queue@.contains(
                        x as usize,
                    ),
                forall|x: int|
                    0 <= x < visited@.len() && visited@[x] ==> reaches(
                        self.edge_seq(),
                        v,
                        x as usize,
                    ),
                forall|j: int, k: int|
                    0 <= j < head && 0 <= k < self.edge_seq().len() && (
                    #[trigger] self.edge_seq()[k]).0 == #[trigger] queue@[j]
                        ==> visited@[self.edge_seq()[k].1 as int],
            decreases self.node_count() - head,
        {
            let x = queue[head];
            head += 1;
            let mut k: usize = 0;
            let ghost head0 = head;
            let edge_total = self.edges.len();
            while k < edge_total
                invariant
                    self.wf(),
                    v < self.node_count(),
                    edge_total == self.edge_seq().len(),
                    x < self.node_count(),
                    head == head0,
                    1 <= head <= queue@.len(),
                    queue@[head - 1] == x,
                    visited@.len() == self.node_count(),
                    visited@[v as int],
                    visited@[x as int],
                    queue@.len() <= self.node_count(),
                    queue@.no_duplicates(),
                    k <= edge_total,
                    forall|j: int|
                        0 <= j < queue@.len() ==> #[trigger] queue@[j] < self.node_count()
                            && visited@[queue@[j] as int],
                    forall|y: int|
                        0 <= y < visited@.len() && visited@[y] ==> #[trigger] queue@.contains(
                            y as usize,
                        ),
                    forall|y: int|
                        0 <= y < visited@.len() && visited@[y] ==> reaches(
                            self.edge_seq(),
                            v,
                            y as usize,
                        ),
                    forall|j: int, kk: int|
                        0 <= j < head - 1 && 0 <= kk < self.edge_seq().len() && (
                        #[trigger] self.edge_seq()[kk]).0 == #[trigger] queue@[j]
                            ==> visited@[self.edge_seq()[kk].1 as int],
                    forall|kk: int|
                        0 <= kk < k && (#[trigger] self.edge_seq()[kk]).0 == x
                            ==> visited@[self.edge_seq()[kk].1 as int],
                decreases edge_total - k,
            {
                let (a, b) = self.edges[k];
                if a == x && !visited[b] {
                    let ghost q0 = queue@;
                    let ghost vis0 = visited@;
                    visited[b] = true;
                    queue.push(b);
                    proof {
                        Self::lemma_reaches_step(self.edge_seq(), v, x, b);
                        assert forall|j: int, jj: int|
                            (0 <= j < queue@.len() && 0 <= jj < queue@.len() && j != jj)
                            implies queue@[j] != queue@[jj] by {
                            let last = queue@.len() - 1;
                            if j == last || jj == last {
                                let o = if j == last { jj } else { j };
                                assert(q0[o] == queue@[o]);
                                if q0[o] == b {
                                    assert(q0.contains(b));
                                    assert(vis0[b as int]);
                                }
                            } else {
                                assert(q0[j] != q0[jj]);
                            }
                        }
                        Self::lemma_bounded_no_dup_len(queue@, self.node_count());
                        assert forall|y: int|
                            0 <= y < visited@.len() && visited@[y] implies #[trigger] queue@.contains(
                            y as usize,
                        ) by {
                            if y == b as int {
                                assert(queue@[queue@.len() - 1] == b);
                            } else {
                                assert(vis0[y]);
                                assert(q0.contains(y as usize));
                                let jy = choose|jy: int| 0 <= jy < q0.len() && q0[jy] == y as usize;
                                assert(queue@[jy] == y as usize);
                            }
                        }
                    }
                }
                k += 1;
            }
        }
        proof {
            assert forall|k: int|
                0 <= k < self.edge_seq().len() && visited@[(
                #[trigger] self.edge_seq()[k]).0 as int] implies visited@[self.edge_seq()[
                k
            ].1 as int] by {
                let e0 = self.edge_seq()[k].0;
                assert(queue@.contains(e0));
                let j = choose|j: int| 0 <= j < queue@.len() && queue@[j] == e0;
                assert(queue@[j] == e0);
            }
        }
        visited
    }

    /// Where node `x` will stand after the repair that inserting an edge
    /// into `u` may force: nodes before `u`'s position split into those the
    /// new edge's target reaches (flagged in `r`, shifted to just after `u`)
    /// and those it does not (kept in place); later nodes stay put.
    spec fn repair_rank(g: DepGraph, r: Seq<bool>, pu: int, x: usize) -> int {
        if g.position(x as int) < pu {
            if r[x as int] {
                2
            } else {
                0
            }
        } else if g.position(x as int) == pu {
            1
        } else {
            3
        }
    }

    /// The strict order in which the repaired node order lists two nodes.
    spec fn repair_before(g: DepGraph, r: Seq<bool>, pu: int, x: usize, y: usize) -> bool {
        ||| Self::repair_rank(g, r, pu, x) < Self::repair_rank(g, r, pu, y)
        ||| (Self::repair_rank(g, r, pu, x) == Self::repair_rank(g, r, pu, y) && g.position(
            x as int,
        ) < g.position(y as int))
    }

    /// Every edge, and the candidate edge `(u, v)`, agrees with the repaired
    /// order when `u` is not reachable from `v`.
    proof fn lemma_edges_respect_repair(&self, r: Seq<bool>, u: usize, v: usize)
        requires
            self.wf(),
            u < self.node_count(),
            v < self.node_count(),
            self.position(v as int) < self.position(u as int),
            r.len() == self.node_count(),
            r[v as int],
            !r[u as int],
            forall|k: int|
                0 <= k < self.edge_seq().len() && r[(#[trigger] self.edge_seq()[k]).0 as int]
                    ==> r[self.edge_seq()[k].1 as int],
        ensures
            Self::repair_before(*self, r, self.position(u as int), u, v),
            forall|k: int|
                0 <= k < self.edge_seq().len() ==> Self::repair_before(
                    *self,
                    r,
                    self.position(u as int),
                    (#[trigger] self.edge_seq()[k]).0,
                    self.edge_seq()[k].1,
                ),
    {
        let pu = self.position(u as int);
        assert forall|k: int| 0 <= k < self.edge_seq().len() implies Self::repair_before(
            *self,
            r,
            pu,
            (#[trigger] self.edge_seq()[k]).0,
            self.edge_seq()[k].1,
        ) by {
            let a = self.edge_seq()[k].0;
            let b = self.edge_seq()[k].1;
            assert(self.position(a as int) < self.position(b as int));
            if self.position(a as int) == pu {
                assert(self.order_seq()[pu] == a && self.order_seq()[pu] == u);
            }
            if self.position(b as int) == pu {
                assert(self.order_seq()[pu] == b && self.order_seq()[pu] == u);
            }
            if self.position(a as int) < pu && r[a as int] {
                assert(r[b as int]);
            }
        }
    }

    /// Build the repaired order: nodes flagged in `r` that stand before `u`
    /// move to just after `u`; everything else keeps its relative place.
    /// Returns the new order and its inverse.
    #[verifier::rlimit(100)]
    fn build_repaired_order(&self, u: usize, r: &Vec<bool>) -> (res: (Vec<usize>, Vec<usize>))
        requires
            self.wf(),
            u < self.node_count(),
            r@.len() == self.node_count(),
            !r@[u as int],
        ensures
            res.0@.len() == self.node_count(),
            res.1@.len() == self.node_count(),
            forall|j: int| 0 <= j < res.0@.len() ==> #[trigger] res.0@[j] < self.node_count(),
            forall|j: int|
                0 <= j < res.0@.len() ==> #[trigger] res.1@[res.0@[j] as int] == j,
            forall|x: int|
                0 <= x < self.node_count() ==> 0 <= #[trigger] res.1@[x] < self.node_count()
                    && res.0@[res.1@[x] as int] == x,
            forall|j1: int, j2: int|
                0 <= j1 < j2 < res.0@.len() ==> Self::repair_before(
                    *self,
                    r@,
                    self.position(u as int),
                    #[trigger] res.0@[j1],
                    #[trigger] res.0@[j2],
                ),
    {
        let ghost n = self.node_count();
        let pu = self.pos[u];
        proof {
            assert(0 <= self.position(u as int) < n);
            assert forall|x: int| 0 <= x < n implies 0 <= #[trigger] self.position(x) by {}
        }
        let mut kept: Vec<usize> = Vec::new();
        let mut moved: Vec<usize> = Vec::new();
        let mut i: usize = 0;
        while i < pu
            invariant
                self.wf(),
                n == self.node_count(),
                u < n,
                pu == self.position(u as int),
                pu < n,
                r@.len() == n,
                i <= pu,
                kept@.len() + moved@.len() == i,
                forall|j: int|
                    0 <= j < kept@.len() ==> #[trigger] kept@[j] < n && self.position(
                        kept@[j] as int,
                    ) < i && !r@[kept@[j] as int],
                forall|j1: int, j2: int|
                    0 <= j1 < j2 < kept@.len() ==> self.position((#[trigger] kept@[j1]) as int)
                        < self.position((#[trigger] kept@[j2]) as int),
                forall|j: int|
                    0 <= j < moved@.len() ==> #[trigger] moved@[j] < n && self.position(
                        moved@[j] as int,
                    ) < i && r@[moved@[j] as int],
                forall|j1: int, j2: int|
                    0 <= j1 < j2 < moved@.len() ==> self.position((#[trigger] moved@[j1]) as int)
                        < self.position((#[trigger] moved@[j2]) as int),
                forall|x: int|
                    0 <= x < n && self.position(x) < i ==> (r@[x] ==> moved@.contains(x as usize))
                        && (!r@[x] ==> kept@.contains(x as usize)),
            decreases pu - i,
        {
            let x = self.order[i];
            proof {
                assert(self.position(x as int) == i);
            }
            let ghost kept0 = kept@;
            let ghost moved0 = moved@;
            if r[x] {
                moved.push(x);
            } else {
                kept.push(x);
            }
            proof {
                assert forall|y: int|
                    0 <= y < n && self.position(y) < i + 1 implies (r@[y] ==> moved@.contains(
                    y as usize,
                )) && (!r@[y] ==> kept@.contains(y as usize)) by {
                    if self.position(y) < i {
                        if r@[y] {
                            let j = choose|j: int| 0 <= j < moved0.len() && moved0[j] == y as usize;
                            assert(moved@[j] == y as usize);
                        } else {
                            let j = choose|j: int| 0 <= j < kept0.len() && kept0[j] == y as usize;
                            assert(kept@[j] == y as usize);
                        }
                    } else {
                        assert(self.order_seq()[self.position(y)] == y);
                        assert(y == x as int);
                        if r@[y] {
                            assert(moved@[moved@.len() - 1] == x);
                        } else {
                            assert(kept@[kept@.len() - 1] == x);
                        }
                    }
                }
            }
            i += 1;
        }
        let ghost keptg = kept@;
        let ghost movedg = moved@;
        let ghost kl = keptg.len() as int;
        let ghost ml = movedg.len() as int;
        let mut neworder = kept;
        neworder.push(u);
        let mut j: usize = 0;
        while j < moved.len()
            invariant
                j <= moved.len(),
                moved@ == movedg,
                neworder@ == keptg + seq![u] + movedg.take(j as int),
            decreases moved@.len() - j,
        {
            neworder.push(moved[j]);
            proof {
                assert(neworder@ =~= keptg + seq![u] + movedg.take(j + 1));
            }
            j += 1;
        }
        proof {
            assert(movedg.take(ml) =~= movedg);
        }
        let total = self.order.len();
        let mut t: usize = pu + 1;
        while t < total
            invariant
                self.wf(),
                n == self.node_count(),
                total == n,
                pu < n,
                pu + 1 <= t <= total,
                neworder@ == keptg + seq![u] + movedg + self.order_seq().subrange(
                    pu + 1,
                    t as int,
                ),
            decreases total - t,
        {
            neworder.push(self.order[t]);
            proof {
                assert(neworder@ =~= keptg + seq![u] + movedg + self.order_seq().subrange(
                    pu + 1,
                    t + 1,
                ));
            }
            t += 1;
        }
        proof {
            if pu + 1 >= total {
                assert(neworder@ =~= keptg + seq![u] + movedg + self.order_seq().subrange(
                    pu + 1,
                    pu + 1,
                ));
            }
        }
        let ghost nog = neworder@;
        proof {
            assert(kl + ml == pu);
            assert(nog.len() == n);
            assert forall|jj: int| 0 <= jj < n implies #[trigger] nog[jj] < n by {
                if jj < kl {
                    assert(nog[jj] == keptg[jj]);
                } else if jj == kl {
                    assert(nog[jj] == u);
                } else if jj <= kl + ml {
                    assert(nog[jj] == movedg[jj - kl - 1]);
                } else {
                    assert(nog[jj] == self.order_seq()[jj]);
                }
            }
            assert forall|j1: int, j2: int|
                0 <= j1 < j2 < n implies Self::repair_before(
                *self,
                r@,
                pu as int,
                #[trigger] nog[j1],
                #[trigger] nog[j2],
            ) by {
                if j1 < kl {
                    assert(nog[j1] == keptg[j1]);
                } else if j1 == kl {
                    assert(nog[j1] == u);
                } else if j1 <= kl + ml {
                    assert(nog[j1] == movedg[j1 - kl - 1]);
                } else {
                    assert(nog[j1] == self.order_seq()[j1]);
                    assert(self.position(nog[j1] as int) == j1);
                }
                if j2 < kl {
                    assert(nog[j2] == keptg[j2]);
                } else if j2 == kl {
                    assert(nog[j2] == u);
                } else if j2 <= kl + ml {
                    assert(nog[j2] == movedg[j2 - kl - 1]);
                } else {
                    assert(nog[j2] == self.order_seq()[j2]);
                    assert(self.position(nog[j2] as int) == j2);
                }
            }
            assert forall|j1: int, j2: int| 0 <= j1 < j2 < n implies nog[j1] != nog[j2] by {
                assert(Self::repair_before(*self, r@, pu as int, nog[j1], nog[j2]));
            }
            assert forall|x: int| 0 <= x < n implies #[trigger] nog.contains(x as usize) by {
                let px = self.position(x);
                if px < pu {
                    if r@[x] {
                        assert(movedg.contains(x as usize));
                        let jm = choose|jm: int| 0 <= jm < movedg.len() && movedg[jm] == x as usize;
                        assert(nog[kl + 1 + jm] == x as usize);
                    } else {
                        assert(keptg.contains(x as usize));
                        let jk = choose|jk: int| 0 <= jk < keptg.len() && keptg[jk] == x as usize;
                        assert(nog[jk] == x as usize);
                    }
                } else if px == pu {
                    assert(self.order_seq()[px] == x);
                    assert(self.order_seq()[pu as int] == u);
                    assert(nog[kl] == x as usize);
                } else {
                    assert(nog[px] == self.order_seq()[px]);
                    assert(self.order_seq()[px] == x);
                }
            }
        }
        let nodes_total = self.pos.len();
        let mut newpos: Vec<usize> = Vec::new();
        let mut z: usize = 0;
        while z < nodes_total
            invariant
                z <= nodes_total,
                newpos@.len() == z,
            decreases nodes_total - z,
        {
            newpos.push(0);
            z += 1;
        }
        let mut j2: usize = 0;
        while j2 < nodes_total
            invariant
                n == self.node_count(),
                nodes_total == n,
                j2 <= nodes_total,
                nog == neworder@,
                nog.len() == n,
                newpos@.len() == n,
                forall|jj: int| 0 <= jj < n ==> #[trigger] nog[jj] < n,
                forall|j1: int, jx: int| 0 <= j1 < jx < n ==> nog[j1] != nog[jx],
                forall|jj: int| 0 <= jj < j2 ==> #[trigger] newpos@[nog[jj] as int] == jj,
            decreases nodes_total - j2,
        {
            let node = neworder[j2];
            newpos[node] = j2;
            j2 += 1;
        }
        proof {
            assert forall|x: int|
                0 <= x < n implies 0 <= #[trigger] newpos@[x] < n && nog[newpos@[x] as int]
                == x by {
                assert(nog.contains(x as usize));
                let jx = choose|jx: int| 0 <= jx < nog.len() && nog[jx] == x as usize;
                assert(newpos@[nog[jx] as int] == jx);
            }
        }
        (neworder, newpos)
    }

    /// Attempt to add the edge `(u, v)`, repairing the maintained order if
    /// needed. Fails exactly when `u` is already reachable from `v`, that is,
    /// exactly when the new edge would close a directed cycle; on failure the
    /// graph is unchanged.
    #[verifier::rlimit(100)]
    pub fn try_add_edge(&mut self, u: usize, v: usize) -> (res: Result<(), ()>)
        requires
            old(self).wf(),
            u < old(self).node_count(),
            v < old(self).node_count(),
            !old(self).edge_seq().contains((u, v)),
        ensures
            final(self).node_count() == old(self).node_count(),
            final(self).wf(),
            res is Ok <==> !reaches(old(self).edge_seq(), v, u),
            res is Ok ==> final(self).edge_seq() == old(self).edge_seq().push((u, v)),
            res is Err ==> final(self).order_seq() == old(self).order_seq(),
            res is Err ==> final(self).pos_seq() == old(self).pos_seq(),
            res is Err ==> final(self).edge_seq() == old(self).edge_seq(),
    {
        let ghost n = self.node_count();
        let pu = self.pos[u];
        let pv = self.pos[v];
        if pu < pv {
            proof {
                if reaches(self.edge_seq(), v, u) {
                    let p = choose|p: Seq<usize>|
                        is_path(self.edge_seq(), p) && p.first() == v && p.last() == u;
                    if p.len() >= 2 {
                        self.lemma_path_increases(p);
                    }
                }
            }
            self.add_edge_ordered(u, v);
            Ok(())
        } else {
            let r = self.reach(v);
            if r[u] {
                return Err(());
            }
            proof {
                if reaches(self.edge_seq(), v, u) {
                    let p = choose|p: Seq<usize>|
                        is_path(self.edge_seq(), p) && p.first() == v && p.last() == u;
                    self.lemma_closed_covers_reachable(r@, p);
                }
                if pu == pv {
                    assert(self.order_seq()[pu as int] == u && self.order_seq()[pv as int] == v);
                }
                self.lemma_edges_respect_repair(r@, u, v);
            }
            let ghost g0 = *self;
            let (neworder, newpos) = self.build_repaired_order(u, &r);
            let ghost nog = neworder@;
            let ghost npg = newpos@;
            self.order = neworder;
            self.pos = newpos;
            self.edges.push((u, v));
            proof {
                let gf = *self;
                let pug = g0.position(u as int);
                assert(gf.order_seq() == nog && gf.pos_seq() == npg);
                assert(gf.node_count() == n);
                assert(gf.edge_seq() == g0.edge_seq().push((u, v)));
                assert forall|k: int|
                    0 <= k < gf.edge_seq().len() implies (#[trigger] gf.edge_seq()[k]).0 < n
                    && gf.edge_seq()[k].1 < n && gf.position(gf.edge_seq()[k].0 as int)
                    < gf.position(gf.edge_seq()[k].1 as int) by {
                    let a = gf.edge_seq()[k].0;
                    let b = gf.edge_seq()[k].1;
                    if k < gf.edge_seq().len() - 1 {
                        assert(gf.edge_seq()[k] == g0.edge_seq()[k]);
                        assert(Self::repair_before(g0, r@, pug, a, b));
                    } else {
                        assert(gf.edge_seq()[k] == (u, v));
                        assert(Self::repair_before(g0, r@, pug, u, v));
                    }
                    assert(a < n && b < n);
                    let ja = gf.position(a as int);
                    let jb = gf.position(b as int);
                    assert(nog[ja] == a && nog[jb] == b);
                    if ja == jb {
                        assert(a == b);
                        assert(false);
                    }
                    if jb < ja {
                        assert(Self::repair_before(g0, r@, pug, nog[jb], nog[ja]));
                        assert(false);
                    }
                }
                assert forall|i2: int, jx: int|
                    (0 <= i2 < gf.edge_seq().len() && 0 <= jx < gf.edge_seq().len() && i2 != jx)
                    implies gf.edge_seq()[i2] != gf.edge_seq()[jx] by {
                    let last = gf.edge_seq().len() - 1;
                    if i2 == last || jx == last {
                        let o = if i2 == last { jx } else { i2 };
                        if g0.edge_seq()[o] == (u, v) {
                            assert(g0.edge_seq().contains((u, v)));
                        }
                    } else {
                        assert(g0.edge_seq().no_duplicates());
                        assert(g0.edge_seq()[i2] != g0.edge_seq()[jx]);
                    }
                }
            }
            Ok(())
        }
    }

    /// A path in the graph extended by the candidate edge `(u, v)` that runs
    /// from `v` to `u` yields reachability of `u` from `v` in the graph alone.
    #[verifier::rlimit(100)]
    proof fn lemma_strip_new_edge(edges: Seq<(usize, usize)>, u: usize, v: usize, p: Seq<usize>)
        requires
            is_path(edges.push((u, v)), p),
            p.first() == v,
            p.last() == u,
        ensures
            reaches(edges, v, u),
        decreases p.len(),
    {
        if exists|i: int| 0 <= i < p.len() - 1 && (#[trigger] p[i], p[i + 1]) == (u, v) {
            let i = choose|i: int| 0 <= i < p.len() - 1 && (#[trigger] p[i], p[i + 1]) == (u, v);
            let q = p.take(i + 1);
            assert forall|t: int| 0 <= t < q.len() - 1 implies edges.push((u, v)).contains(
                (#[trigger] q[t], q[t + 1]),
            ) by {
                assert(edges.push((u, v)).contains((p[t], p[t + 1])));
            }
            assert(q.first() == v && q.last() == u);
            Self::lemma_strip_new_edge(edges, u, v, q);
        } else {
            assert forall|t: int| 0 <= t < p.len() - 1 implies edges.contains(
                (#[trigger] p[t], p[t + 1]),
            ) by {
                assert(edges.push((u, v)).contains((p[t], p[t + 1])));
                let k = choose|k: int|
                    0 <= k < edges.push((u, v)).len() && edges.push((u, v))[k] == (p[t], p[t + 1]);
                if k == edges.len() {
                    assert((p[t], p[t + 1]) == (u, v));
                } else {
                    assert(edges[k] == (p[t], p[t + 1]));
                }
            }
            assert(is_path(edges, p));
        }
    }

    /// If `u` is reachable from `v`, then the edge set extended by `(u, v)`
    /// holds a directed cycle.
    #[verifier::rlimit(100)]
    proof fn lemma_back_path_creates_cycle(edges: Seq<(usize, usize)>, u: usize, v: usize)
        requires
            reaches(edges, v, u),
        ensures
            exists|p: Seq<usize>|
                is_path(edges.push((u, v)), p) && p.len() >= 2 && p.first() == p.last(),
    {
        let p = choose|p: Seq<usize>| is_path(edges, p) && p.first() == v && p.last() == u;
        let q = p.push(v);
        assert forall|t: int| 0 <= t < q.len() - 1 implies edges.push((u, v)).contains(
            (#[trigger] q[t], q[t + 1]),
        ) by {
            if t < p.len() - 1 {
                assert(edges.contains((p[t], p[t + 1])));
                let k = choose|k: int| 0 <= k < edges.len() && edges[k] == (p[t], p[t + 1]);
                assert(edges.push((u, v))[k] == (p[t], p[t + 1]));
            } else {
                assert(q[t] == u && q[t + 1] == v);
                assert(edges.push((u, v))[edges.len() as int] == (u, v));
            }
        }
        assert(is_path(edges.push((u, v)), q) && q.len() >= 2 && q.first() == q.last());
    }

    /// From a cycle whose first step is the candidate edge `(u, v)`, the
    /// rest of the cycle is a path from `v` round to `u`.
    #[verifier::rlimit(100)]
    proof fn lemma_rotate_cycle_head(edges: Seq<(usize, usize)>, u: usize, v: usize, p: Seq<usize>)
        requires
            is_path(edges.push((u, v)), p),
            p.len() >= 2,
            p.first() == p.last(),
            p[0] == u,
            p[1] == v,
        ensures
            reaches(edges, v, u),
    {
        let w = p.subrange(1, p.len() as int);
        assert forall|t: int| 0 <= t < w.len() - 1 implies edges.push((u, v)).contains(
            (#[trigger] w[t], w[t + 1]),
        ) by {
            assert(edges.push((u, v)).contains((p[t + 1], p[t + 2])));
        }
        assert(w.first() == p[1] && w.first() == v);
        assert(w.last() == p.last() && p.last() == p.first() && p.first() == p[0]);
        assert(w.last() == u);
        Self::lemma_strip_new_edge(edges, u, v, w);
    }

    /// From a cycle that crosses the candidate edge `(u, v)` at position
    /// `i`, rotate out a path from `v` round to `u`.
    #[verifier::rlimit(100)]
    #[verifier::spinoff_prover]
    proof fn lemma_rotate_cycle(
        edges: Seq<(usize, usize)>,
        u: usize,
        v: usize,
        p: Seq<usize>,
        i: int,
    )
        requires
            is_path(edges.push((u, v)), p),
            p.len() >= 2,
            p.first() == p.last(),
            0 <= i < p.len() - 1,
            p[i] == u,
            p[i + 1] == v,
        ensures
            reaches(edges, v, u),
    {
        if i == 0 {
            Self::lemma_rotate_cycle_head(edges, u, v, p);
        } else {
            let w = p.subrange(i + 1, p.len() as int) + p.subrange(1, i + 1);
            let l1 = p.len() - i - 1;
            assert forall|t: int| 0 <= t < w.len() - 1 implies edges.push((u, v)).contains(
                (#[trigger] w[t], w[t + 1]),
            ) by {
                if t < l1 - 1 {
                    assert(w[t] == p[i + 1 + t] && w[t + 1] == p[i + 1 + t + 1]);
                    assert(edges.push((u, v)).contains((p[i + 1 + t], p[i + 2 + t])));
                } else if t == l1 - 1 {
                    assert(w[t] == p[p.len() - 1]);
                    assert(w[t + 1] == p[1]);
                    assert(p[p.len() - 1] == p[0]);
                    assert(edges.push((u, v)).contains((p[0], p[1])));
                } else {
                    assert(w[t] == p[t - l1 + 1] && w[t + 1] == p[t - l1 + 2]);
                    assert(edges.push((u, v)).contains((p[t - l1 + 1], p[t - l1 + 2])));
                }
            }
            assert(w.first() == p[i + 1] && w.first() == v);
            assert(w.last() == p[i] && w.last() == u);
            Self::lemma_strip_new_edge(edges, u, v, w);
        }
    }

    /// A directed cycle in the edge set extended by `(u, v)` needs the new
    /// edge, provided the edge set itself is acyclic; so `u` was already
    /// reachable from `v`.
    #[verifier::rlimit(100)]
    proof fn lemma_cycle_needs_back_path(
        edges: Seq<(usize, usize)>,
        u: usize,
        v: usize,
        p: Seq<usize>,
    )
        requires
            forall|q: Seq<usize>| is_path(edges, q) && q.len() >= 2 ==> q.first() != q.last(),
            is_path(edges.push((u, v)), p),
            p.len() >= 2,
            p.first() == p.last(),
        ensures
            reaches(edges, v, u),
    {
        if exists|i: int| 0 <= i < p.len() - 1 && (#[trigger] p[i], p[i + 1]) == (u, v) {
            let i = choose|i: int| 0 <= i < p.len() - 1 && (#[trigger] p[i], p[i + 1]) == (u, v);
            Self::lemma_rotate_cycle(edges, u, v, p, i);
        } else {
            assert forall|t: int| 0 <= t < p.len() - 1 implies edges.contains(
                (#[trigger] p[t], p[t + 1]),
            ) by {
                assert(edges.push((u, v)).contains((p[t], p[t + 1])));
                let k = choose|k: int|
                    0 <= k < edges.push((u, v)).len() && edges.push((u, v))[k] == (p[t], p[t + 1]);
                if k == edges.len() {
                    assert((p[t], p[t + 1]) == (u, v));
                } else {
                    assert(edges[k] == (p[t], p[t + 1]));
                }
            }
            assert(is_path(edges, p));
            assert(false);
        }
    }

    /// Adding the edge `(u, v)` to an acyclic edge set closes a directed
    /// cycle exactly when `u` is already reachable from `v`.
    pub proof fn lemma_edge_closes_cycle(edges: Seq<(usize, usize)>, u: usize, v: usize)
        requires
            forall|p: Seq<usize>| is_path(edges, p) && p.len() >= 2 ==> p.first() != p.last(),
        ensures
            reaches(edges, v, u) <==> exists|p: Seq<usize>|
                is_path(edges.push((u, v)), p) && p.len() >= 2 && p.first() == p.last(),
    {
        if reaches(edges, v, u) {
            Self::lemma_back_path_creates_cycle(edges, u, v);
        }
        if exists|p: Seq<usize>|
            is_path(edges.push((u, v)), p) && p.len() >= 2 && p.first() == p.last() {
            let p = choose|p: Seq<usize>|
                is_path(edges.push((u, v)), p) && p.len() >= 2 && p.first() == p.last();
            Self::lemma_cycle_needs_back_path(edges, u, v, p);
        }
    }

    /// The graph is acyclic: no path of at least one edge returns to its
    /// starting node.
    pub proof fn lemma_acyclic(&self)
        requires
            self.wf(),
        ensures
            forall|p: Seq<usize>|
                is_path(self.edge_seq(), p) && p.len() >= 2 ==> p.first() != p.last(),
    {
        assert forall|p: Seq<usize>|
            is_path(self.edge_seq(), p) && p.len() >= 2 implies p.first() != p.last() by {
            self.lemma_path_increases(p);
        }
    }
}

} // verus!
