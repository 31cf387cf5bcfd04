use vstd::prelude::*;

use crate::errors::GraphError;
use crate::tuple_reader::TupleReader;

verus! {

broadcast use vstd::seq_lib::lemma_seq_contains_after_push;

/// A vertex identifier, drawn from the dense one-based range `1..=n` of its
/// graph.
pub type Vertex = u32;

/// An ordered pair of vertices; its direction carries meaning only when the
/// graph it belongs to is directed.
pub type Edge = (u32, u32);

/// One connected component: the vertices it holds, in an order that carries
/// no meaning.
pub type Component = Vec<u32>;

/// Holds true when every edge of `edges` has both endpoints inside the dense
/// vertex range `1..=n`.
pub open spec fn edges_within(n: u32, edges: Seq<(u32, u32)>) -> bool {
    forall|k: int|
        0 <= k < edges.len() ==> {
            &&& 1 <= (#[trigger] edges[k]).0 <= n
            &&& 1 <= edges[k].1 <= n
        }
}

/// Whether `w` is a direct neighbor of `u` under the edge list `edges`: the
/// pair `(u, w)` occurs, or the graph is undirected and `(w, u)` occurs.
/// Duplicate edges collapse, since only occurrence matters.
pub open spec fn seq_adjacent(edges: Seq<(u32, u32)>, directed: bool, u: u32, w: u32) -> bool {
    edges.contains((u, w)) || (!directed && edges.contains((w, u)))
}

/// The membership sets of a list of components: each component collapsed to
/// the set of vertices it holds.
pub open spec fn component_views(comps: Seq<Vec<u32>>) -> Seq<Set<u32>> {
    comps.map_values(|c: Vec<u32>| c@.to_set())
}

/// The union of a list of vertex sets.
pub open spec fn union_of_all(cs: Seq<Set<u32>>) -> Set<u32>
    decreases cs.len(),
{
    if cs.len() == 0 {
        Set::empty()
    } else {
        cs.first().union(union_of_all(cs.drop_first()))
    }
}

/// Whether no two distinct sets of the list share a vertex.
pub open spec fn pairwise_disjoint(cs: Seq<Set<u32>>) -> bool {
    forall|j: int, k: int| 0 <= j < k < cs.len() ==> (#[trigger] cs[j]).disjoint(#[trigger] cs[k])
}

/// The set of vertices a traversal has marked.
///
/// A mark table for the vertices `1..=n` of one graph; entry `0` is unused so
/// that vertex `v` is stored at index `v`.  Viewed abstractly as the set of
/// marked vertices.
pub struct Visited {
    marks: Vec<bool>,
}

impl View for Visited {
    type V = Set<u32>;

    closed spec fn view(&self) -> Set<u32> {
        Set::new(|v: u32| 1 <= v < self.marks@.len() && self.marks@[v as int])
    }
}

impl Visited {
    /// The raw mark table, exposed so that callers can state how `mark`
    /// rewrites it.
    pub closed spec fn mark_seq(self) -> Seq<bool> {
        self.marks@
    }

    /// A visited set sized for the vertices `1..=n`.
    pub open spec fn wf(self, n: u32) -> bool {
        self.mark_seq().len() == n as int + 1
    }

    /// A fresh, empty visited set for a graph of `n` vertices.
    pub fn new(n: u32) -> (r: Visited)
        requires
            n < u32::MAX,
        ensures
            r.wf(n),
            r@ == Set::<u32>::empty(),
    {
        let mut marks: Vec<bool> = Vec::new();
        let mut i: u32 = 0;
        while i <= n
            invariant
                i <= n + 1,
                n < u32::MAX,
                marks@.len() == i as int,
                forall|j: int| 0 <= j < marks@.len() ==> !marks@[j],
            decreases n + 1 - i,
        {
            marks.push(false);
            i = i + 1;
        }
        let r = Visited { marks };
        proof {
            assert(r@ =~= Set::<u32>::empty());
        }
        r
    }

    /// Whether vertex `v` has been marked.  Unmarked for any `v` outside the
    /// range the set was sized for.
    pub fn is_marked(&self, v: Vertex) -> (r: bool)
        ensures
            r == self@.contains(v),
    {
        let idx = v as usize;
        if 1 <= v && idx < self.marks.len() {
            self.marks[idx]
        } else {
            false
        }
    }

    /// Marks vertex `v`.
    pub fn mark(&mut self, v: Vertex)
        requires
            1 <= v,
            (v as int) < old(self).mark_seq().len(),
        ensures
            final(self).mark_seq() == old(self).mark_seq().update(v as int, true),
            final(self)@ == old(self)@.insert(v),
    {
        self.marks.set(v as usize, true);
        proof {
            assert(self@ =~= old(self)@.insert(v));
        }
    }
}

/// The number of `true` entries of a mark table; the measure by which a
/// traversal terminates.
spec fn count_marked(s: Seq<bool>) -> nat
    decreases s.len(),
{
    if s.len() == 0 {
        0
    } else {
        count_marked(s.drop_last()) + (if s.last() {
            1nat
        } else {
            0nat
        })
    }
}

/// A mark table never holds more marks than entries.
proof fn lemma_count_marked_le(s: Seq<bool>)
    ensures
        count_marked(s) <= s.len(),
    decreases s.len(),
{
    if s.len() > 0 {
        lemma_count_marked_le(s.drop_last());
    }
}

/// Setting an unmarked entry raises the mark count by exactly one.
proof fn lemma_count_marked_update(s: Seq<bool>, i: int)
    requires
        0 <= i < s.len(),
        !s[i],
    ensures
        count_marked(s.update(i, true)) == count_marked(s) + 1,
    decreases s.len(),
{
    if i == s.len() - 1 {
        assert(s.update(i, true).drop_last() =~= s.drop_last());
    } else {
        assert(s.update(i, true).drop_last() =~= s.drop_last().update(i, true));
        lemma_count_marked_update(s.drop_last(), i);
    }
}

/// An immutable graph over the dense vertex range `1..=n`, with a
/// deduplicating edge set and a direction flag.
///
/// The adjacency index is derived from the edge list once, at construction,
/// and reused by every query.
#[derive(Debug)]
pub struct Graph {
    n: u32,
    edges: Vec<(u32, u32)>,
    directed: bool,
    adj: Vec<Vec<u32>>,
}

impl Graph {
    /// The declared number of vertices; the vertex set is `1..=vertex_count()`.
    pub closed spec fn vertex_count(self) -> u32 {
        self.n
    }

    /// The edge list the graph was built from, duplicates included; the edge
    /// set of the model is its collapse to a set.
    pub closed spec fn edge_list(self) -> Seq<(u32, u32)> {
        self.edges@
    }

    /// Whether edges are one-way.
    pub closed spec fn is_directed(self) -> bool {
        self.directed
    }

    /// The graph's vertex set: the dense range `1..=vertex_count()`.
    pub open spec fn vertex_set(self) -> Set<u32> {
        Set::new(|v: u32| 1 <= v <= self.vertex_count())
    }

    /// The graph's edge set; duplicate pairs of the edge list collapse.
    pub open spec fn edge_set(self) -> Set<(u32, u32)> {
        self.edge_list().to_set()
    }

    /// Whether `v` belongs to the vertex set.
    pub open spec fn in_range(self, v: u32) -> bool {
        1 <= v <= self.vertex_count()
    }

    /// Whether `w` is a direct neighbor of `u`: the edge `(u, w)` exists, or
    /// the graph is undirected and `(w, u)` exists.
    pub open spec fn adjacent(self, u: u32, w: u32) -> bool {
        seq_adjacent(self.edge_list(), self.is_directed(), u, w)
    }

    /// The internal invariant: the vertex count leaves room for a dense
    /// one-based index, every edge endpoint lies in the vertex set, and the
    /// adjacency index agrees with the edge list.
    pub closed spec fn wf(self) -> bool {
        &&& self.n < u32::MAX
        &&& self.adj@.len() == self.n as int + 1
        &&& edges_within(self.n, self.edges@)
        &&& forall|u: u32, w: u32|
            1 <= u <= self.n ==> ((#[trigger] self.adj@[u as int]@.contains(w)) <==> self.adjacent(
                u,
                w,
            ))
    }

    /// Whether `p` walks the graph: a nonempty run of vertices of the vertex
    /// set, each adjacent to the next.
    pub open spec fn is_path(self, p: Seq<u32>) -> bool {
        &&& p.len() >= 1
        &&& forall|i: int| 0 <= i < p.len() ==> self.in_range(#[trigger] p[i])
        &&& forall|i: int| 0 <= i < p.len() - 1 ==> self.adjacent(#[trigger] p[i], p[i + 1])
    }

    /// Whether `p` is a path that starts at `u` and ends at `w`.
    pub open spec fn path_from_to(self, p: Seq<u32>, u: u32, w: u32) -> bool {
        self.is_path(p) && p.first() == u && p.last() == w
    }

    /// Whether some path leads from `u` to `w`.  Every vertex of the vertex
    /// set reaches itself by the one-vertex path.
    pub open spec fn reachable(self, u: u32, w: u32) -> bool {
        exists|p: Seq<u32>| self.path_from_to(p, u, w)
    }

    /// The set of vertices reachable from `u`, `u` itself included when it
    /// belongs to the vertex set.
    pub open spec fn reach_set(self, u: u32) -> Set<u32> {
        Set::new(|w: u32| self.reachable(u, w))
    }

    /// Whether `s` is closed under adjacency: no edge leads from a member of
    /// `s` to a vertex outside it.
    pub open spec fn stable_under_adjacency(self, s: Set<u32>) -> bool {
        forall|u: u32, w: u32| s.contains(u) && #[trigger] self.adjacent(u, w) ==> s.contains(w)
    }

    /// The components found from seed `i` on, with `visited` already marked:
    /// seeds are taken in ascending order, an already visited seed is passed
    /// over, and each remaining seed contributes the vertices it reaches that
    /// no earlier component claimed.
    pub open spec fn component_seq_from(self, i: int, visited: Set<u32>) -> Seq<Set<u32>>
        decreases self.vertex_count() + 1 - i,
    {
        if i < 1 || i > self.vertex_count() {
            Seq::empty()
        } else if visited.contains(i as u32) {
            self.component_seq_from(i + 1, visited)
        } else {
            seq![self.reach_set(i as u32).difference(visited)] + self.component_seq_from(
                i + 1,
                visited.union(self.reach_set(i as u32)),
            )
        }
    }

    /// The connected components of the graph, as the traversal over ascending
    /// seeds finds them.  For a directed graph this is the reachable-set
    /// grouping of the same procedure, not a partition into classes of
    /// mutually reachable vertices.
    pub open spec fn spec_components(self) -> Seq<Set<u32>> {
        self.component_seq_from(1, Set::empty())
    }

    /// Adjacent vertices both lie in the vertex set of a well-formed graph.
    pub proof fn lemma_adjacent_in_range(self, u: u32, w: u32)
        requires
            self.wf(),
            self.adjacent(u, w),
        ensures
            self.in_range(u),
            self.in_range(w),
    {
        if self.edge_list().contains((u, w)) {
            let k = choose|k: int| 0 <= k < self.edge_list().len() && self.edge_list()[k] == (u, w);
            assert(1 <= self.edge_list()[k].0 <= self.n);
        } else {
            let k = choose|k: int| 0 <= k < self.edge_list().len() && self.edge_list()[k] == (w, u);
            assert(1 <= self.edge_list()[k].0 <= self.n);
        }
    }

    /// Every vertex of the vertex set reaches itself.
    pub proof fn lemma_reachable_self(self, v: u32)
        requires
            self.in_range(v),
        ensures
            self.reachable(v, v),
    {
        let p: Seq<u32> = seq![v];
        assert(self.path_from_to(p, v, v));
    }

    /// Reachability extends along an edge leaving its endpoint.
    pub proof fn lemma_reachable_step(self, u: u32, x: u32, w: u32)
        requires
            self.wf(),
            self.reachable(u, x),
            self.adjacent(x, w),
        ensures
            self.reachable(u, w),
    {
        let p = choose|p: Seq<u32>| self.path_from_to(p, u, x);
        let q = p.push(w);
        self.lemma_adjacent_in_range(x, w);
        assert forall|i: int| 0 <= i < q.len() implies self.in_range(#[trigger] q[i]) by {
            if i < p.len() {
                assert(self.in_range(p[i]));
            }
        }
        assert forall|i: int| 0 <= i < q.len() - 1 implies self.adjacent(#[trigger] q[i], q[i + 1]) by {
            if i < p.len() - 1 {
                assert(self.adjacent(p[i], p[i + 1]));
            }
        }
        assert(self.path_from_to(q, u, w));
    }

    /// A vertex reached from `u` lies in the vertex set.
    pub proof fn lemma_reachable_in_range(self, u: u32, w: u32)
        requires
            self.reachable(u, w),
        ensures
            self.in_range(w),
            self.in_range(u),
    {
        let p = choose|p: Seq<u32>| self.path_from_to(p, u, w);
        assert(self.in_range(p[0]));
        assert(self.in_range(p[p.len() - 1]));
    }

    /// A set that is closed under adjacency holds everything reachable from
    /// any of its members: a walk can never leave it.
    pub proof fn lemma_stable_set_holds_reachable(self, s: Set<u32>, u: u32, w: u32)
        requires
            self.stable_under_adjacency(s),
            s.contains(u),
            self.reachable(u, w),
        ensures
            s.contains(w),
    {
        let p = choose|p: Seq<u32>| self.path_from_to(p, u, w);
        self.lemma_stable_set_holds_path(s, p);
    }

    /// Each vertex of a path whose start lies in an adjacency-closed set lies
    /// in that set as well.
    proof fn lemma_stable_set_holds_path(self, s: Set<u32>, p: Seq<u32>)
        requires
            self.stable_under_adjacency(s),
            self.is_path(p),
            s.contains(p.first()),
        ensures
            s.contains(p.last()),
        decreases p.len(),
    {
        if p.len() > 1 {
            assert(self.adjacent(p[0], p[1]));
            let q = p.drop_first();
            assert(self.is_path(q));
            assert(s.contains(q.first()));
            self.lemma_stable_set_holds_path(s, q);
        }
    }

    /// The set of vertices reachable from `v` is itself closed under
    /// adjacency.
    pub proof fn lemma_reach_set_stable(self, v: u32)
        requires
            self.wf(),
        ensures
            self.stable_under_adjacency(self.reach_set(v)),
    {
        assert forall|u: u32, w: u32|
            self.reach_set(v).contains(u) && #[trigger] self.adjacent(u, w) implies self.reach_set(
            v,
        ).contains(w) by {
            self.lemma_reachable_step(v, u, w);
        }
    }

    /// In an undirected graph, reversing a path shows that its end reaches
    /// its start.
    proof fn lemma_path_reverses(self, p: Seq<u32>)
        requires
            self.wf(),
            !self.is_directed(),
            self.is_path(p),
        ensures
            self.reachable(p.last(), p.first()),
        decreases p.len(),
    {
        if p.len() == 1 {
            self.lemma_reachable_self(p.first());
        } else {
            let q = p.drop_first();
            assert(self.is_path(q));
            self.lemma_path_reverses(q);
            assert(self.adjacent(p[0], p[1]));
            assert(self.adjacent(p[1], p[0]));
            self.lemma_reachable_step(p.last(), p[1], p[0]);
        }
    }

    /// In an undirected graph, reachability is symmetric.
    pub proof fn lemma_reachable_symmetric(self, v: u32, w: u32)
        requires
            self.wf(),
            !self.is_directed(),
        ensures
            self.reachable(v, w) == self.reachable(w, v),
    {
        if self.reachable(v, w) {
            let p = choose|p: Seq<u32>| self.path_from_to(p, v, w);
            self.lemma_path_reverses(p);
        }
        if self.reachable(w, v) {
            let p = choose|p: Seq<u32>| self.path_from_to(p, w, v);
            self.lemma_path_reverses(p);
        }
    }

    /// Walking a path from a vertex already reached extends reachability to
    /// the path's end.
    proof fn lemma_reach_trans_path(self, u: u32, p: Seq<u32>)
        requires
            self.wf(),
            self.is_path(p),
            self.reachable(u, p.first()),
        ensures
            self.reachable(u, p.last()),
        decreases p.len(),
    {
        if p.len() > 1 {
            assert(self.adjacent(p[0], p[1]));
            self.lemma_reachable_step(u, p[0], p[1]);
            let q = p.drop_first();
            assert(self.is_path(q));
            self.lemma_reach_trans_path(u, q);
        }
    }

    /// Reachability is transitive.
    pub proof fn lemma_reachable_transitive(self, u: u32, x: u32, w: u32)
        requires
            self.wf(),
            self.reachable(u, x),
            self.reachable(x, w),
        ensures
            self.reachable(u, w),
    {
        let p = choose|p: Seq<u32>| self.path_from_to(p, x, w);
        self.lemma_reach_trans_path(u, p);
    }

    /// In an undirected graph, two vertices that reach a common vertex reach
    /// the same vertices.
    proof fn lemma_reach_set_of_member(self, s: u32, x: u32)
        requires
            self.wf(),
            !self.is_directed(),
            self.reachable(s, x),
        ensures
            self.reach_set(x) == self.reach_set(s),
    {
        self.lemma_reachable_symmetric(s, x);
        assert forall|y: u32|
            self.reach_set(x).contains(y) == self.reach_set(s).contains(y) by {
            if self.reachable(x, y) {
                self.lemma_reachable_transitive(s, x, y);
            }
            if self.reachable(s, y) {
                self.lemma_reachable_transitive(x, s, y);
            }
        }
        assert(self.reach_set(x) =~= self.reach_set(s));
    }

    /// The facts that the ascending-seed component list enjoys, by induction
    /// over the seeds: with every smaller vertex of the vertex set already
    /// visited and the visited set closed under adjacency, the components
    /// found from seed `i` on are pairwise disjoint, avoid the visited set,
    /// are each nonempty, and together cover exactly the not yet visited part
    /// of the vertex set.
    proof fn lemma_component_seq_from_props(self, i: int, visited: Set<u32>)
        requires
            self.wf(),
            1 <= i <= self.vertex_count() as int + 1,
            self.stable_under_adjacency(visited),
            forall|w: u32| #[trigger] visited.contains(w) ==> self.in_range(w),
            forall|w: u32| #[trigger] self.in_range(w) && w < i ==> visited.contains(w),
        ensures
            pairwise_disjoint(self.component_seq_from(i, visited)),
            forall|k: int|
                0 <= k < self.component_seq_from(i, visited).len() ==> (
                #[trigger] self.component_seq_from(i, visited)[k]).disjoint(visited),
            union_of_all(self.component_seq_from(i, visited)) == self.vertex_set().difference(
                visited,
            ),
            forall|k: int|
                0 <= k < self.component_seq_from(i, visited).len() ==> (
                #[trigger] self.component_seq_from(i, visited)[k]) != Set::<u32>::empty(),
            !self.is_directed() ==> forall|k: int, x: u32|
                0 <= k < self.component_seq_from(i, visited).len() && (
                #[trigger] self.component_seq_from(i, visited)[k].contains(x))
                    ==> self.component_seq_from(i, visited)[k] == self.reach_set(x),
        decreases self.vertex_count() as int + 1 - i,
    {
        let cs = self.component_seq_from(i, visited);
        if i > self.vertex_count() {
            assert(cs == Seq::<Set<u32>>::empty());
            assert forall|w: u32| self.vertex_set().contains(w) implies visited.contains(w) by {
                assert(self.in_range(w));
            }
            assert(union_of_all(cs) =~= self.vertex_set().difference(visited));
        } else if visited.contains(i as u32) {
            self.lemma_component_seq_from_props(i + 1, visited);
            let tail = self.component_seq_from(i + 1, visited);
            assert(cs == tail);
            assert forall|k: int| 0 <= k < cs.len() implies (#[trigger] cs[k])
                != Set::<u32>::empty() by {
                assert(cs[k] == tail[k]);
            }
            if !self.is_directed() {
                assert forall|k: int, x: u32|
                    0 <= k < cs.len() && #[trigger] cs[k].contains(x) implies cs[k]
                    == self.reach_set(x) by {
                    assert(tail[k].contains(x));
                }
            }
        } else {
            let s = i as u32;
            let r = self.reach_set(s);
            let c = r.difference(visited);
            let vis2 = visited.union(r);
            let tail = self.component_seq_from(i + 1, vis2);
            self.lemma_reachable_self(s);
            self.lemma_reach_set_stable(s);
            assert forall|a: u32, b: u32|
                vis2.contains(a) && #[trigger] self.adjacent(a, b) implies vis2.contains(b) by {
                if visited.contains(a) {
                    assert(visited.contains(b));
                } else {
                    assert(r.contains(b));
                }
            }
            assert forall|w: u32| #[trigger] vis2.contains(w) implies self.in_range(w) by {
                if !visited.contains(w) {
                    self.lemma_reachable_in_range(s, w);
                }
            }
            self.lemma_component_seq_from_props(i + 1, vis2);
            assert(cs == seq![c] + tail);
            assert(cs[0] == c);
            assert(cs.drop_first() =~= tail);
            assert(cs.first() == c);
            assert forall|k: int| 0 <= k < cs.len() implies (#[trigger] cs[k]).disjoint(
                visited,
            ) by {
                if k > 0 {
                    assert(cs[k] == tail[k - 1]);
                    assert(tail[k - 1].disjoint(vis2));
                }
            }
            assert forall|j: int, k: int| 0 <= j < k < cs.len() implies (
            #[trigger] cs[j]).disjoint(#[trigger] cs[k]) by {
                if j == 0 {
                    assert(cs[k] == tail[k - 1]);
                    assert(tail[k - 1].disjoint(vis2));
                    assert forall|x: u32| c.contains(x) implies !cs[k].contains(x) by {
                        assert(vis2.contains(x));
                    }
                } else {
                    assert(cs[j] == tail[j - 1]);
                    assert(cs[k] == tail[k - 1]);
                    assert(tail[j - 1].disjoint(tail[k - 1]));
                }
            }
            assert(union_of_all(cs) == c.union(union_of_all(tail)));
            assert forall|w: u32|
                union_of_all(cs).contains(w) == self.vertex_set().difference(visited).contains(
                    w,
                ) by {
                if c.contains(w) {
                    self.lemma_reachable_in_range(s, w);
                }
                if self.vertex_set().contains(w) && !visited.contains(w) && !r.contains(w) {
                    assert(!vis2.contains(w));
                    assert(union_of_all(tail).contains(w));
                }
            }
            assert(union_of_all(cs) =~= self.vertex_set().difference(visited));
            assert forall|k: int| 0 <= k < cs.len() implies (#[trigger] cs[k])
                != Set::<u32>::empty() by {
                if k == 0 {
                    assert(cs[0].contains(s));
                    assert(!Set::<u32>::empty().contains(s));
                } else {
                    assert(cs[k] == tail[k - 1]);
                }
            }
            if !self.is_directed() {
                assert forall|w: u32| r.contains(w) implies !visited.contains(w) by {
                    if visited.contains(w) {
                        self.lemma_reachable_symmetric(s, w);
                        self.lemma_stable_set_holds_reachable(visited, w, s);
                    }
                }
                assert(c =~= r);
                assert forall|k: int, x: u32|
                    0 <= k < cs.len() && #[trigger] cs[k].contains(x) implies cs[k]
                    == self.reach_set(x) by {
                    if k == 0 {
                        self.lemma_reach_set_of_member(s, x);
                    } else {
                        assert(tail[k - 1].contains(x));
                    }
                }
            }
        }
    }

    /// The components of an undirected graph partition the vertex set: they
    /// are pairwise disjoint, each holds at least one vertex, and together
    /// they cover exactly the vertex set.
    pub proof fn lemma_components_partition(self)
        requires
            self.wf(),
            !self.is_directed(),
        ensures
            pairwise_disjoint(self.spec_components()),
            union_of_all(self.spec_components()) == self.vertex_set(),
            forall|k: int|
                0 <= k < self.spec_components().len() ==> (#[trigger] self.spec_components()[k])
                    != Set::<u32>::empty(),
    {
        self.lemma_component_seq_from_props(1, Set::empty());
        assert(self.vertex_set().difference(Set::empty()) =~= self.vertex_set());
        let cs = self.spec_components();
        let base = self.component_seq_from(1, Set::empty());
        assert(cs == base);
        assert forall|k: int| 0 <= k < cs.len() implies (#[trigger] cs[k])
            != Set::<u32>::empty() by {
            assert(cs[k] == base[k]);
        }
    }

    /// In an undirected graph, each component is exactly the set of vertices
    /// reachable from any one of its members: a maximal set of mutually
    /// reachable vertices.
    pub proof fn lemma_components_are_reach_sets(self)
        requires
            self.wf(),
            !self.is_directed(),
        ensures
            forall|k: int, x: u32|
                0 <= k < self.spec_components().len() && (
                #[trigger] self.spec_components()[k].contains(x))
                    ==> self.spec_components()[k] == self.reach_set(x),
    {
        self.lemma_component_seq_from_props(1, Set::empty());
        let cs = self.spec_components();
        let base = self.component_seq_from(1, Set::empty());
        assert(cs == base);
        assert forall|k: int, x: u32|
            0 <= k < cs.len() && #[trigger] cs[k].contains(x) implies cs[k] == self.reach_set(
            x,
        ) by {
            assert(base[k].contains(x));
        }
    }

    /// Two graphs over the same vertices with the same direction flag and
    /// equal edge sets have the same components, seed by seed.
    proof fn lemma_component_seq_same(g1: Graph, g2: Graph, i: int, visited: Set<u32>)
        requires
            g1.vertex_count() == g2.vertex_count(),
            forall|u: u32| #[trigger] g1.reach_set(u) == g2.reach_set(u),
        ensures
            g1.component_seq_from(i, visited) == g2.component_seq_from(i, visited),
        decreases g1.vertex_count() + 1 - i,
    {
        if 1 <= i <= g1.vertex_count() {
            if visited.contains(i as u32) {
                Graph::lemma_component_seq_same(g1, g2, i + 1, visited);
            } else {
                assert(g1.reach_set(i as u32) == g2.reach_set(i as u32));
                Graph::lemma_component_seq_same(
                    g1,
                    g2,
                    i + 1,
                    visited.union(g1.reach_set(i as u32)),
                );
            }
        }
    }

    /// Queries see the edge list only through its collapse to a set: two
    /// graphs over the same vertices, with the same direction flag and equal
    /// edge sets, agree on adjacency, on reachability, and on their
    /// components.  A duplicated edge changes nothing.
    pub proof fn lemma_duplicate_edges_collapse(g1: Graph, g2: Graph)
        requires
            g1.vertex_count() == g2.vertex_count(),
            g1.is_directed() == g2.is_directed(),
            g1.edge_set() == g2.edge_set(),
        ensures
            forall|u: u32, w: u32| (#[trigger] g1.adjacent(u, w)) == g2.adjacent(u, w),
            forall|u: u32, w: u32| (#[trigger] g1.reachable(u, w)) == g2.reachable(u, w),
            g1.spec_components() == g2.spec_components(),
    {
        assert forall|u: u32, w: u32| (#[trigger] g1.adjacent(u, w)) == g2.adjacent(u, w) by {
            assert(g1.edge_list().contains((u, w)) == g1.edge_set().contains((u, w)));
            assert(g2.edge_list().contains((u, w)) == g2.edge_set().contains((u, w)));
            assert(g1.edge_list().contains((w, u)) == g1.edge_set().contains((w, u)));
            assert(g2.edge_list().contains((w, u)) == g2.edge_set().contains((w, u)));
        }
        assert forall|u: u32, w: u32| (#[trigger] g1.reachable(u, w)) == g2.reachable(u, w) by {
            if g1.reachable(u, w) {
                let p = choose|p: Seq<u32>| g1.path_from_to(p, u, w);
                assert(g2.is_path(p));
                assert(g2.path_from_to(p, u, w));
            }
            if g2.reachable(u, w) {
                let p = choose|p: Seq<u32>| g2.path_from_to(p, u, w);
                assert(g1.is_path(p));
                assert(g1.path_from_to(p, u, w));
            }
        }
        assert forall|u: u32| #[trigger] g1.reach_set(u) == g2.reach_set(u) by {
            assert(g1.reach_set(u) =~= g2.reach_set(u));
        }
        Graph::lemma_component_seq_same(g1, g2, 1, Set::empty());
    }

    /// Running the component search twice on an unmodified graph yields the
    /// same collection of component memberships: the result is a function of
    /// the graph alone, so two runs agree as sequences of sets and hence as a
    /// set of sets, regardless of element ordering.
    pub proof fn lemma_components_deterministic(self, c1: Seq<Set<u32>>, c2: Seq<Set<u32>>)
        requires
            c1 == self.spec_components(),
            c2 == self.spec_components(),
        ensures
            c1 == c2,
            c1.to_set() == c2.to_set(),
    {
    }

    /// Builds a graph over the vertices `1..=n` from the given edge list.
    ///
    /// Returns `GraphError::MalformedInput` when an edge endpoint lies outside
    /// `1..=n`, or when `n` is too large for the dense one-based index; the
    /// graph is returned exactly when neither holds.
    pub fn new(n: u32, edges: Vec<Edge>, directed: bool) -> (r: Result<Graph, GraphError>)
        ensures
            match r {
                Ok(g) => {
                    &&& n < u32::MAX
                    &&& edges_within(n, edges@)
                    &&& g.wf()
                    &&& g.vertex_count() == n
                    &&& g.edge_list() == edges@
                    &&& g.is_directed() == directed
                },
                Err(e) => {
                    &&& e == GraphError::MalformedInput
                    &&& !(n < u32::MAX && edges_within(n, edges@))
                },
            },
    {
        if n == u32::MAX {
            return Err(GraphError::MalformedInput);
        }
        let mut k: usize = 0;
        while k < edges.len()
            invariant
                k <= edges@.len(),
                forall|j: int|
                    0 <= j < k ==> {
                        &&& 1 <= (#[trigger] edges@[j]).0 <= n
                        &&& 1 <= edges@[j].1 <= n
                    },
            decreases edges@.len() - k,
        {
            let e = edges[k];
            if e.0 < 1 || e.0 > n || e.1 < 1 || e.1 > n {
                return Err(GraphError::MalformedInput);
            }
            k = k + 1;
        }
        let adj = Graph::adjacencies(n, &edges, directed);
        let g = Graph { n, edges, directed, adj };
        Ok(g)
    }

    /// Scans one neighbor row for `w`.
    fn row_contains(row: &Vec<u32>, w: u32) -> (r: bool)
        ensures
            r == row@.contains(w),
    {
        let mut k: usize = 0;
        while k < row.len()
            invariant
                k <= row@.len(),
                forall|j: int| 0 <= j < k ==> row@[j] != w,
            decreases row@.len() - k,
        {
            if row[k] == w {
                return true;
            }
            k = k + 1;
        }
        false
    }

    /// Records `w` as a neighbor of `u`, once: a duplicate of an already
    /// present neighbor is dropped, so a row stays a set.
    fn add_neighbor(adj: &mut Vec<Vec<u32>>, u: u32, w: u32)
        requires
            1 <= u,
            (u as int) < old(adj)@.len(),
        ensures
            final(adj)@.len() == old(adj)@.len(),
            forall|x: u32|
                (#[trigger] final(adj)@[u as int]@.contains(x)) <==> (old(adj)@[u as int]@.contains(
                    x,
                ) || x == w),
            forall|i: int|
                0 <= i < old(adj)@.len() && i != u as int ==> final(adj)@[i] == old(adj)@[i],
    {
        let row = &mut adj[u as usize];
        if !Graph::row_contains(row, w) {
            row.push(w);
        }
    }

    /// Depth-first traversal from `v`, by an explicit work stack.
    ///
    /// Marks as visited every vertex reachable from `v` (including `v`), and
    /// appends each newly visited vertex to `component` once.  The visited set
    /// handed in must be closed under adjacency (a fresh one is), and stays
    /// so; the order in which neighbors are taken, and hence the order of
    /// `component`, carries no meaning — only membership does.
    pub fn explore(&self, v: Vertex, visited: &mut Visited, component: &mut Component)
        requires
            self.wf(),
            old(visited).wf(self.vertex_count()),
            self.stable_under_adjacency(old(visited)@),
            self.in_range(v),
        ensures
            final(visited).wf(self.vertex_count()),
            final(visited)@ == old(visited)@.union(self.reach_set(v)),
            self.stable_under_adjacency(final(visited)@),
            old(component)@.is_prefix_of(final(component)@),
            final(component)@.skip(old(component)@.len() as int).to_set() == self.reach_set(
                v,
            ).difference(old(visited)@),
            final(component)@.skip(old(component)@.len() as int).no_duplicates(),
    {
        let ghost vis0: Set<u32> = visited@;
        let ghost comp0: Seq<u32> = component@;
        proof {
            lemma_count_marked_le(visited.mark_seq());
        }
        let mut stack: Vec<u32> = Vec::new();
        stack.push(v);
        proof {
            self.lemma_reachable_self(v);
        }
        while stack.len() > 0
            invariant
                self.wf(),
                self.in_range(v),
                visited.wf(self.vertex_count()),
                count_marked(visited.mark_seq()) <= self.vertex_count() as int + 1,
                vis0.subset_of(visited@),
                forall|w: u32|
                    #[trigger] visited@.contains(w) && !vis0.contains(w) ==> self.reachable(v, w),
                forall|j: int|
                    0 <= j < stack@.len() ==> self.in_range(#[trigger] stack@[j])
                        && self.reachable(v, stack@[j]),
                forall|a: u32, b: u32|
                    visited@.contains(a) && #[trigger] self.adjacent(a, b) ==> visited@.contains(b)
                        || stack@.contains(b),
                visited@.contains(v) || stack@.contains(v),
                comp0.is_prefix_of(component@),
                component@.skip(comp0.len() as int).to_set() == visited@.difference(vis0),
                component@.skip(comp0.len() as int).no_duplicates(),
            decreases self.vertex_count() as int + 1 - count_marked(visited.mark_seq()), stack@.len(),
        {
            let ghost stack_before = stack@;
            let u = stack.pop().unwrap();
            assert(stack_before == stack@.push(u));
            if !visited.is_marked(u) {
                let ghost vis_before = visited@;
                let ghost marks_before = visited.mark_seq();
                proof {
                    assert(!marks_before[u as int]);
                    lemma_count_marked_update(marks_before, u as int);
                }
                let ghost comp_before = component@;
                visited.mark(u);
                component.push(u);
                proof {
                    lemma_count_marked_le(visited.mark_seq());
                    let m = comp0.len() as int;
                    let oldskip = comp_before.skip(m);
                    let newskip = component@.skip(m);
                    assert(newskip == oldskip.push(u));
                    assert(oldskip.to_set().contains(u) == oldskip.contains(u));
                    assert(!oldskip.contains(u));
                    assert forall|i: int, j: int|
                        0 <= i < newskip.len() && 0 <= j < newskip.len() && i != j implies newskip[i]
                        != newskip[j] by {
                        if i < oldskip.len() && j < oldskip.len() {
                            assert(oldskip[i] == newskip[i] && oldskip[j] == newskip[j]);
                        } else if j == oldskip.len() {
                            assert(oldskip[i] == newskip[i] && newskip[j] == u);
                            assert(oldskip.contains(oldskip[i]));
                        } else {
                            assert(oldskip[j] == newskip[j] && newskip[i] == u);
                            assert(oldskip.contains(oldskip[j]));
                        }
                    }
                    assert forall|x: u32|
                        newskip.to_set().contains(x) == visited@.difference(vis0).contains(
                            x,
                        ) by {
                        assert(newskip.to_set().contains(x) == newskip.contains(x));
                        assert(oldskip.to_set().contains(x) == oldskip.contains(x));
                        assert(newskip.contains(x) == (oldskip.contains(x) || x == u));
                    }
                    assert(newskip.to_set() =~= visited@.difference(vis0));
                }
                proof {
                    let row = self.adj@[u as int]@;
                    assert(row.skip(0) == row);
                    assert forall|a: u32, b: u32|
                        visited@.contains(a) && #[trigger] self.adjacent(a, b)
                            && !visited@.contains(b) && !stack@.contains(b) implies (a == u
                        && row.skip(0).contains(b)) by {
                        if a == u {
                            assert(row.contains(b));
                        } else {
                            assert(vis_before.contains(a));
                            assert(vis_before.contains(b) || stack_before.contains(b));
                        }
                    }
                }
                let neighbors = &self.adj[u as usize];
                let mut k: usize = 0;
                while k < neighbors.len()
                    invariant
                        self.wf(),
                        self.in_range(v),
                        self.in_range(u),
                        visited.wf(self.vertex_count()),
                        count_marked(visited.mark_seq()) <= self.vertex_count() as int + 1,
                        neighbors@ == self.adj@[u as int]@,
                        k <= neighbors@.len(),
                        vis0.subset_of(visited@),
                        visited@.contains(u),
                        self.reachable(v, u),
                        forall|w: u32|
                            #[trigger] visited@.contains(w) && !vis0.contains(w)
                                ==> self.reachable(v, w),
                        forall|j: int|
                            0 <= j < stack@.len() ==> self.in_range(#[trigger] stack@[j])
                                && self.reachable(v, stack@[j]),
                        forall|a: u32, b: u32|
                            visited@.contains(a) && #[trigger] self.adjacent(a, b)
                                ==> visited@.contains(b) || stack@.contains(b) || (a == u
                                && self.adj@[u as int]@.skip(k as int).contains(b)),
                        visited@.contains(v) || stack@.contains(v),
                        comp0.is_prefix_of(component@),
                        component@.skip(comp0.len() as int).to_set() == visited@.difference(vis0),
                        component@.skip(comp0.len() as int).no_duplicates(),
                    decreases neighbors@.len() - k,
                {
                    let w = neighbors[k];
                    proof {
                        assert(self.adj@[u as int]@.contains(w));
                        assert(self.adjacent(u, w));
                        self.lemma_reachable_step(v, u, w);
                        self.lemma_adjacent_in_range(u, w);
                    }
                    if !visited.is_marked(w) {
                        stack.push(w);
                    }
                    proof {
                        let row = self.adj@[u as int]@;
                        assert forall|a: u32, b: u32|
                            visited@.contains(a) && #[trigger] self.adjacent(a, b)
                                && !visited@.contains(b) && !stack@.contains(b) implies (a == u
                            && row.skip(k as int + 1).contains(b)) by {
                            assert(row.skip(k as int).contains(b));
                            assert(b != w);
                            let j = choose|j: int|
                                0 <= j < row.skip(k as int).len() && row.skip(k as int)[j] == b;
                            assert(j >= 1);
                            assert(row.skip(k as int + 1)[j - 1] == b);
                        }
                    }
                    k = k + 1;
                }
            }
        }
        proof {
            assert(visited@.contains(v));
            assert forall|w: u32| self.reach_set(v).contains(w) implies visited@.contains(w) by {
                self.lemma_stable_set_holds_reachable(visited@, v, w);
            }
            assert(visited@ =~= vis0.union(self.reach_set(v)));
            assert(component@.skip(comp0.len() as int).to_set() =~= self.reach_set(v).difference(
                vis0,
            ));
        }
    }

    /// Whether vertex `w` can be reached from vertex `v`.
    ///
    /// Answers exactly the model's reachability when both `v` and `w` belong
    /// to the vertex set, and signals `GraphError::UnknownVertex` otherwise,
    /// so that a query against a bad vertex cannot be mistaken for a
    /// legitimate "no path" answer.
    pub fn is_reachable(&self, v: Vertex, w: Vertex) -> (r: Result<bool, GraphError>)
        requires
            self.wf(),
        ensures
            self.in_range(v) && self.in_range(w) ==> r == Ok::<bool, GraphError>(
                self.reachable(v, w),
            ),
            !(self.in_range(v) && self.in_range(w)) ==> r == Err::<bool, GraphError>(
                GraphError::UnknownVertex,
            ),
    {
        if v < 1 || v > self.n || w < 1 || w > self.n {
            return Err(GraphError::UnknownVertex);
        }
        let mut visited = Visited::new(self.n);
        let mut component: Vec<u32> = Vec::new();
        self.explore(v, &mut visited, &mut component);
        let found = visited.is_marked(w);
        proof {
            assert(self.reach_set(v).contains(w) == self.reachable(v, w));
        }
        Ok(found)
    }

    /// Loads a graph from an input stream: the first pair read gives the
    /// number of vertices `v` and of edges `e`, and the next `e` pairs give
    /// the edges.
    ///
    /// Any failure of the reader is handed back unchanged, and an edge list
    /// that `new` rejects yields its `GraphError::MalformedInput`; whatever
    /// the reader produced, a graph is only ever returned well-formed, with
    /// the requested direction flag.
    pub fn load<T: TupleReader>(reader: &mut T, directed: bool) -> (r: Result<Graph, GraphError>)
        ensures
            match r {
                Ok(g) => g.wf() && g.is_directed() == directed,
                Err(_) => true,
            },
    {
        let first = reader.next_tuple();
        let (v, e) = match first {
            Ok(p) => p,
            Err(err) => { return Err(err) },
        };
        let mut edges: Vec<(u32, u32)> = Vec::new();
        let mut i: u32 = 0;
        while i < e
            invariant
                i <= e,
            decreases e - i,
        {
            let next = reader.next_tuple();
            match next {
                Ok(p) => edges.push(p),
                Err(err) => { return Err(err) },
            }
            i = i + 1;
        }
        Graph::new(v, edges, directed)
    }

    /// Depth-first search of the entire graph: traverses from each not yet
    /// visited vertex in ascending order, capturing each closure as one
    /// component.
    fn depth_first_search(&self) -> (comps: Vec<Component>)
        requires
            self.wf(),
        ensures
            component_views(comps@) == self.spec_components(),
            forall|k: int| 0 <= k < comps@.len() ==> (#[trigger] comps@[k])@.no_duplicates(),
    {
        let mut comps: Vec<Vec<u32>> = Vec::new();
        let mut visited = Visited::new(self.n);
        proof {
            assert(component_views(comps@) + self.component_seq_from(1, visited@)
                =~= self.component_seq_from(1, Set::empty()));
        }
        let mut v: u32 = 1;
        while v <= self.n
            invariant
                self.wf(),
                1 <= v <= self.vertex_count() as int + 1,
                visited.wf(self.vertex_count()),
                self.stable_under_adjacency(visited@),
                forall|w: u32| 1 <= w < v ==> #[trigger] visited@.contains(w),
                forall|w: u32| #[trigger] visited@.contains(w) ==> self.in_range(w),
                self.spec_components() == component_views(comps@) + self.component_seq_from(
                    v as int,
                    visited@,
                ),
                forall|k: int| 0 <= k < comps@.len() ==> (#[trigger] comps@[k])@.no_duplicates(),
            decreases self.vertex_count() as int + 1 - v,
        {
            if !visited.is_marked(v) {
                let ghost vis_before = visited@;
                let ghost comps_before = comps@;
                let mut comp: Vec<u32> = Vec::new();
                self.explore(v, &mut visited, &mut comp);
                comps.push(comp);
                proof {
                    self.lemma_reachable_self(v);
                    assert(comp@.skip(0) == comp@);
                    assert(comp@.to_set() == self.reach_set(v).difference(vis_before));
                    assert(self.component_seq_from(v as int, vis_before) == seq![
                        self.reach_set(v).difference(vis_before),
                    ] + self.component_seq_from(v as int + 1, vis_before.union(self.reach_set(v))));
                    assert(component_views(comps@) =~= component_views(comps_before).push(
                        comp@.to_set(),
                    ));
                    assert(component_views(comps_before).push(comp@.to_set())
                        + self.component_seq_from(v as int + 1, visited@)
                        =~= component_views(comps_before) + self.component_seq_from(
                        v as int,
                        vis_before,
                    ));
                    assert forall|w: u32| #[trigger] visited@.contains(w) implies self.in_range(
                        w,
                    ) by {
                        if !vis_before.contains(w) {
                            self.lemma_reachable_in_range(v, w);
                        }
                    }
                    assert forall|a: u32, b: u32|
                        visited@.contains(a) && #[trigger] self.adjacent(a, b) implies visited@.contains(
                        b,
                    ) by {
                        if vis_before.contains(a) {
                            assert(vis_before.contains(b));
                        } else {
                            self.lemma_reachable_step(v, a, b);
                        }
                    }
                }
            } else {
                proof {
                    assert(self.component_seq_from(v as int, visited@) == self.component_seq_from(
                        v as int + 1,
                        visited@,
                    ));
                }
            }
            v = v + 1;
        }
        proof {
            assert(self.component_seq_from(v as int, visited@) =~= Seq::<Set<u32>>::empty());
            assert(component_views(comps@) + Seq::<Set<u32>>::empty() =~= component_views(comps@));
        }
        comps
    }

    /// The connected components of the graph, one `Vec` of vertices per
    /// component, each vertex of the vertex set appearing in exactly one.
    ///
    /// The result is a function of the graph alone; the order among
    /// components and within a component carries no meaning — only the
    /// membership sets do, and those equal `spec_components()` exactly.  For
    /// a directed graph the grouping is by forward reachability from each
    /// seed, not a partition into mutually reachable classes.
    pub fn connected_components(&self) -> (comps: Vec<Component>)
        requires
            self.wf(),
        ensures
            component_views(comps@) == self.spec_components(),
            forall|k: int| 0 <= k < comps@.len() ==> (#[trigger] comps@[k])@.no_duplicates(),
    {
        self.depth_first_search()
    }

    /// Derives the adjacency index of the edge list: one neighbor row per
    /// vertex of `1..=n` (row `0` is unused), where row `u` holds exactly the
    /// vertices adjacent to `u`.
    fn adjacencies(n: u32, edges: &Vec<(u32, u32)>, directed: bool) -> (adj: Vec<Vec<u32>>)
        requires
            n < u32::MAX,
            edges_within(n, edges@),
        ensures
            adj@.len() == n as int + 1,
            forall|u: u32, w: u32|
                1 <= u <= n ==> ((#[trigger] adj@[u as int]@.contains(w)) <==> seq_adjacent(
                    edges@,
                    directed,
                    u,
                    w,
                )),
    {
        let mut adj: Vec<Vec<u32>> = Vec::new();
        let mut i: u32 = 0;
        while i <= n
            invariant
                i <= n + 1,
                n < u32::MAX,
                adj@.len() == i as int,
                forall|j: int| 0 <= j < adj@.len() ==> (#[trigger] adj@[j])@.len() == 0,
            decreases n + 1 - i,
        {
            adj.push(Vec::new());
            i = i + 1;
        }
        let mut k: usize = 0;
        while k < edges.len()
            invariant
                n < u32::MAX,
                edges_within(n, edges@),
                k <= edges@.len(),
                adj@.len() == n as int + 1,
                forall|u: u32, w: u32|
                    1 <= u <= n ==> ((#[trigger] adj@[u as int]@.contains(w)) <==> seq_adjacent(
                        edges@.take(k as int),
                        directed,
                        u,
                        w,
                    )),
            decreases edges@.len() - k,
        {
            let e = edges[k];
            let ghost prefix = edges@.take(k as int);
            Graph::add_neighbor(&mut adj, e.0, e.1);
            if !directed {
                Graph::add_neighbor(&mut adj, e.1, e.0);
            }
            proof {
                assert(edges@.take(k as int + 1) =~= prefix.push(edges@[k as int]));
                assert forall|u: u32, w: u32| 1 <= u <= n implies ((#[trigger] adj@[u as int]@.contains(
                    w,
                )) <==> seq_adjacent(edges@.take(k as int + 1), directed, u, w)) by {
                    assert(prefix.push(e).contains((u, w)) <==> (prefix.contains((u, w)) || (u, w)
                        == e));
                    assert(prefix.push(e).contains((w, u)) <==> (prefix.contains((w, u)) || (w, u)
                        == e));
                }
            }
            k = k + 1;
        }
        proof {
            assert(edges@.take(edges@.len() as int) =~= edges@);
        }
        adj
    }
}

} // verus!
