//! An adjacency-list graph over `usize` vertex identifiers, and the two
//! traversal results it converts into.

use vstd::prelude::*;

use crate::graph::reach::{
    add_edge_adj, built_adj, built_count, connects, count_unmarked, edge, insert_unique,
    lemma_chain_len, lemma_closure_covers, lemma_count_unmarked_full, lemma_count_unmarked_mono,
    lemma_count_unmarked_update, lemma_tree_reachable, neighbors_marked, parent_chain, reachable,
    spanning_inv, wf_adjacency,
};
use crate::graph::{ExampleError, Graph, GraphPath};

verus! {

/// One vertex: its own number and the list of its neighbors, in insertion
/// order.
pub struct Node {
    /// The vertex's own index.
    v: usize,
    /// The vertices joined to this one, oldest edge first.
    list: Vec<usize>,
}

impl Node {
    /// The vertex's own number.
    pub closed spec fn id(self) -> usize {
        self.v
    }

    /// The vertex's neighbor list, in insertion order.
    pub closed spec fn neighbors(self) -> Seq<usize> {
        self.list@
    }

    /// An isolated vertex numbered `v`.
    pub fn new(v: usize) -> (r: Node)
        ensures
            r.id() == v,
            r.neighbors() == Seq::<usize>::empty(),
    {
        Node { v, list: Vec::new() }
    }
}

/// The neighbor lists of a vertex sequence, as the mathematical adjacency.
pub open spec fn adj_of(nodes: Seq<Node>) -> Seq<Seq<usize>> {
    Seq::new(nodes.len(), |i: int| nodes[i].neighbors())
}

/// An undirected graph: a fixed vertex range, a neighbor list per vertex,
/// and a counter of accepted edge insertions.
pub struct SimpleGraph {
    /// The number of vertices.
    v: usize,
    /// The number of accepted edge insertions.
    e: usize,
    /// One node per vertex, in index order.
    list: Vec<Node>,
}

impl SimpleGraph {
    /// A graph of `cap` isolated vertices and no edges.
    pub fn new(cap: usize) -> (r: SimpleGraph)
        ensures
            r.wf(),
            r.edge_count() == 0,
            r.adjacency() == Seq::new(cap as nat, |k: int| Seq::<usize>::empty()),
    {
        let mut list: Vec<Node> = Vec::with_capacity(cap);
        let mut i: usize = 0;
        while i < cap
            invariant
                i <= cap,
                list@.len() == i,
                forall|k: int|
                    0 <= k < i ==> (#[trigger] list@[k]).id() == k && list@[k].neighbors()
                        == Seq::<usize>::empty(),
            decreases cap - i,
        {
            list.push(Node::new(i));
            i = i + 1;
        }
        let r = SimpleGraph { v: cap, e: 0, list };
        proof {
            assert(r.adjacency() =~= Seq::new(cap as nat, |k: int| Seq::<usize>::empty()));
        }
        r
    }

    /// A graph of `cap` isolated vertices with the given edge list already
    /// inserted, in order. Decoding the pairs from their textual or binary
    /// source is an external collaborator's concern; this takes the decoded
    /// index pairs as they come, invalid ones ignored like any other
    /// out-of-range insertion.
    pub fn new_with_reader(cap: usize, edges: &Vec<(usize, usize)>) -> (r: SimpleGraph)
        ensures
            r.wf(),
            r.adjacency() == built_adj(cap as nat, edges@),
            r.edge_count() == built_count(cap as nat, edges@),
    {
        let mut g = SimpleGraph::new(cap);
        proof {
            assert(edges@.subrange(0, 0) =~= Seq::<(usize, usize)>::empty());
        }
        let mut i: usize = 0;
        while i < edges.len()
            invariant
                i <= edges@.len(),
                g.wf(),
                g.adjacency() == built_adj(cap as nat, edges@.subrange(0, i as int)),
                g.edge_count() == built_count(cap as nat, edges@.subrange(0, i as int)),
                g.edge_count() <= i,
            decreases edges@.len() - i,
        {
            let pair = edges[i];
            let ghost pre = edges@.subrange(0, i as int);
            let ghost post = edges@.subrange(0, i as int + 1);
            g.add_edge(pair.0, pair.1);
            proof {
                assert(post.drop_last() =~= pre);
                assert(post.last() == edges@[i as int]);
            }
            i = i + 1;
        }
        proof {
            assert(edges@.subrange(0, edges@.len() as int) =~= edges@);
        }
        g
    }
}

impl Graph for SimpleGraph {
    type NodeItem = usize;

    type DFSItem = SimpleDFSGraphPath;

    type BFSItem = SimpleBFSGraphPath;

    closed spec fn adjacency(&self) -> Seq<Seq<usize>> {
        adj_of(self.list@)
    }

    closed spec fn edge_count(&self) -> nat {
        self.e as nat
    }

    closed spec fn wf(&self) -> bool {
        &&& self.list@.len() == self.v
        &&& wf_adjacency(self.adjacency())
        &&& forall|i: int| 0 <= i < self.list@.len() ==> (#[trigger] self.list@[i]).id() == i
    }

    closed spec fn adj_result(&self, v: usize, ns: Seq<usize>) -> bool {
        ns == self.adjacency()[v as int]
    }

    fn v(&self) -> (r: usize) {
        self.list.len()
    }

    fn e(&self) -> (r: usize) {
        self.e
    }

    fn add_edge(&mut self, v: usize, e: usize) {
        let ghost a0 = self.adjacency();
        if v < self.list.len() && e < self.list.len() {
            let deg = self.list[v].list.len();
            let mut l: usize = 0;
            let mut dup: bool = false;
            while l < deg && !dup
                invariant
                    l <= deg,
                    v < self.list@.len(),
                    deg == self.list@[v as int].neighbors().len(),
                    dup ==> self.list@[v as int].neighbors().contains(e),
                    !dup ==> forall|k: int|
                        0 <= k < l ==> (#[trigger] self.list@[v as int].neighbors()[k]) != e,
                decreases deg - l + (if dup { 0int } else { 1int }),
            {
                if self.list[v].list[l] == e {
                    dup = true;
                } else {
                    l = l + 1;
                }
            }
            proof {
                assert(dup <==> a0[v as int].contains(e)) by {
                    if !dup {
                        assert(l >= deg);
                        if a0[v as int].contains(e) {
                            let k = choose|k: int|
                                0 <= k < a0[v as int].len() && a0[v as int][k] == e;
                            assert(self.list@[v as int].neighbors()[k] != e);
                        }
                    }
                }
            }
            if !dup {
                self.list[v].list.push(e);
            }
            let ghost a1 = self.adjacency();
            proof {
                assert(a1 =~= a0.update(v as int, insert_unique(a0[v as int], e)));
            }
            self.list[e].list.push(v);
            let ghost a2 = self.adjacency();
            proof {
                assert(a2 =~= a1.update(e as int, a1[e as int].push(v)));
                assert(a2 == add_edge_adj(a0, v, e));
            }
            self.e = self.e + 1;
            proof {
                assert(a2[e as int][a2[e as int].len() - 1] == v);
                assert(a2[e as int].contains(v));
                assert(a2[v as int].contains(e)) by {
                    if v == e {
                        assert(a2[v as int].contains(v));
                    } else {
                        assert(a2[v as int] == insert_unique(a0[v as int], e));
                        if !a0[v as int].contains(e) {
                            assert(a2[v as int][a2[v as int].len() - 1] == e);
                        }
                    }
                }
                assert(wf_adjacency(a2)) by {
                    assert forall|u: int, j: int|
                        0 <= u < a2.len() && 0 <= j < a2[u].len() implies (#[trigger] a2[u][j])
                        < a2.len() by {
                        if u == e as int && j == a2[u].len() - 1 {
                        } else if u == v as int && j == a1[u].len() - 1 && !a0[v as int].contains(
                            e,
                        ) {
                        } else {
                            assert(a2[u][j] == a0[u][j]);
                        }
                    }
                }
            }
        }
    }

    fn adj(&self, v: usize) -> (r: Result<Vec<usize>, ExampleError>) {
        if v < self.list.len() {
            let deg = self.list[v].list.len();
            let mut ns: Vec<usize> = Vec::new();
            let mut l: usize = 0;
            while l < deg
                invariant
                    l <= deg,
                    v < self.list@.len(),
                    deg == self.list@[v as int].neighbors().len(),
                    ns@ == self.list@[v as int].neighbors().subrange(0, l as int),
                decreases deg - l,
            {
                ns.push(self.list[v].list[l]);
                proof {
                    assert(ns@ =~= self.list@[v as int].neighbors().subrange(0, l + 1));
                }
                l = l + 1;
            }
            proof {
                assert(ns@ =~= self.adjacency()[v as int]);
            }
            Ok(ns)
        } else {
            Err(ExampleError::OutOfRange)
        }
    }

    fn to_dfs(self, v: usize) -> (r: Result<SimpleDFSGraphPath, ExampleError>) {
        if v < self.list.len() {
            let d = SimpleDFSGraphPath::new(self.list, v);
            Ok(d)
        } else {
            Err(ExampleError::OutOfRange)
        }
    }

    fn to_bfs(self, v: usize) -> (r: Result<SimpleBFSGraphPath, ExampleError>) {
        if v < self.list.len() {
            let d = SimpleBFSGraphPath::new(self.list, v);
            proof {
                assert forall|u: usize, rr: Seq<usize>, q: Seq<usize>|
                    #[trigger] parent_chain(d.parents(), rr, u, v) && #[trigger] connects(
                        d.adjacency(),
                        q,
                        v,
                        u,
                    ) implies rr.len() <= q.len() by {
                    assert(d.marked@[u as int] && q.len() >= d.dist@[u as int] + 1);
                    assert forall|x: int|
                        0 <= x < d.path@.len() && x != v && (#[trigger] d.path@[x]) is Some
                            implies d.dist@[x] == d.dist@[d.path@[x]->0 as int] + 1 by {
                        assert(d.marked@[x]);
                    }
                    lemma_chain_len(d.path@, d.dist@, rr, u, v);
                }
            }
            Ok(d)
        } else {
            Err(ExampleError::OutOfRange)
        }
    }
}

/// The result of a depth-first traversal: the source vertex, the visitation
/// table, one parent pointer per visited vertex, and the adjacency the
/// traversal consumed.
pub struct SimpleDFSGraphPath {
    point: usize,
    marked: Vec<bool>,
    path: Vec<Option<usize>>,
    list: Vec<Node>,
    depth: Ghost<Seq<nat>>,
}

impl SimpleDFSGraphPath {
    /// The discovery depth recorded for each vertex; parents are strictly
    /// shallower than their children, which bounds every walk back through
    /// the parent pointers.
    pub closed spec fn ranks(&self) -> Seq<nat> {
        self.depth@
    }

    /// Consumes the vertex list and runs a depth-first traversal from
    /// `point`, which must be a valid vertex of a well-formed adjacency.
    pub fn new(list: Vec<Node>, point: usize) -> (r: SimpleDFSGraphPath)
        requires
            wf_adjacency(adj_of(list@)),
            point < list@.len(),
        ensures
            r.wf(),
            r.source() == point,
            r.adjacency() == adj_of(list@),
    {
        let ghost a = adj_of(list@);
        let len = list.len();
        let mut marked: Vec<bool> = Vec::new();
        let mut path: Vec<Option<usize>> = Vec::new();
        let mut i: usize = 0;
        while i < len
            invariant
                i <= len,
                marked@.len() == i,
                path@.len() == i,
                forall|k: int| 0 <= k < i ==> !(#[trigger] marked@[k]),
                forall|k: int| 0 <= k < i ==> (#[trigger] path@[k]) is None,
            decreases len - i,
        {
            marked.push(false);
            path.push(None);
            i = i + 1;
        }
        let mut p = SimpleDFSGraphPath {
            point,
            marked,
            path,
            list,
            depth: Ghost(Seq::new(len as nat, |k: int| 0)),
        };
        p.marked[point] = true;
        proof {
            assert(spanning_inv(a, p.marked@, p.path@, p.depth@, point));
        }
        let ghost m_entry = p.marked@;
        p.dfs(point);
        proof {
            let ghost zero = Seq::new(a.len(), |k: int| 0nat);
            assert forall|x: int| 0 <= x < a.len() && p.marked@[x] implies neighbors_marked(
                a,
                p.marked@,
                x,
            ) by {
                if x != point as int {
                    assert(!m_entry[x]);
                }
            }
            assert forall|u: usize| u < a.len() implies ((#[trigger] p.marked@[u as int])
                <==> reachable(a, point, u)) by {
                if p.marked@[u as int] {
                    lemma_tree_reachable(a, p.marked@, p.path@, p.depth@, point, u);
                }
                if reachable(a, point, u) {
                    let q = choose|q: Seq<usize>| connects(a, q, point, u);
                    lemma_closure_covers(a, p.marked@, zero, q);
                }
            }
        }
        p
    }

    /// Visits, depth first, every vertex that an unmarked walk from `point`
    /// can reach, recording the vertex each new vertex was discovered from.
    /// `point` itself must already be marked; on return its neighbors are
    /// all marked, every newly marked vertex has its neighbors marked, and
    /// the parent pointers still form a spanning tree of the marked set.
    #[verifier::loop_isolation(false)]
    pub fn dfs(&mut self, point: usize)
        requires
            wf_adjacency(old(self).adjacency()),
            spanning_inv(
                old(self).adjacency(),
                old(self).visited(),
                old(self).parents(),
                old(self).ranks(),
                old(self).source(),
            ),
            point < old(self).visited().len(),
            old(self).visited()[point as int],
        ensures
            final(self).source() == old(self).source(),
            final(self).adjacency() == old(self).adjacency(),
            spanning_inv(
                final(self).adjacency(),
                final(self).visited(),
                final(self).parents(),
                final(self).ranks(),
                final(self).source(),
            ),
            forall|u: int|
                0 <= u < old(self).visited().len() && old(self).visited()[u]
                    ==> #[trigger] final(self).visited()[u],
            forall|u: int|
                0 <= u < old(self).visited().len() && (#[trigger] final(self).visited()[u])
                    && !old(self).visited()[u]
                    ==> neighbors_marked(final(self).adjacency(), final(self).visited(), u),
            neighbors_marked(final(self).adjacency(), final(self).visited(), point as int),
            count_unmarked(final(self).visited()) <= count_unmarked(old(self).visited()),
        decreases count_unmarked(old(self).visited()),
    {
        let ghost a = self.adjacency();
        let ghost m0 = self.marked@;
        let ghost src = self.point;
        let mut i: usize = 0;
        let deg = self.list[point].list.len();
        proof {
            assert(a[point as int] == self.list@[point as int].neighbors());
        }
        while i < deg
            invariant
                i <= deg,
                self.adjacency() == a,
                self.point == src,
                self.marked@.len() == a.len(),
                deg == a[point as int].len(),
                spanning_inv(a, self.marked@, self.path@, self.depth@, src),
                self.marked@[point as int],
                forall|u: int| 0 <= u < a.len() && m0[u] ==> #[trigger] self.marked@[u],
                forall|u: int|
                    0 <= u < a.len() && (#[trigger] self.marked@[u]) && !m0[u]
                        ==> neighbors_marked(a, self.marked@, u),
                forall|j: int| 0 <= j < i ==> self.marked@[(#[trigger] a[point as int][j]) as int],
                count_unmarked(self.marked@) <= count_unmarked(m0),
            decreases deg - i,
        {
            let w: usize = self.list[point].list[i];
            proof {
                assert(w == a[point as int][i as int]);
                assert(w < a.len());
            }
            if !self.marked[w] {
                let ghost m1 = self.marked@;
                let ghost path1 = self.path@;
                let ghost depth1 = self.depth@;
                self.marked[w] = true;
                self.path[w] = Some(point);
                proof {
                    self.depth@ = self.depth@.update(w as int, self.depth@[point as int] + 1);
                }
                proof {
                    lemma_count_unmarked_update(m1, w as int);
                    assert(edge(a, point, w)) by {
                        assert(a[point as int][i as int] == w);
                    }
                    assert(self.marked@ == m1.update(w as int, true));
                    assert(self.path@ == path1.update(w as int, Some(point)));
                    assert(spanning_inv(a, self.marked@, self.path@, self.depth@, src)) by {
                        assert forall|u: int|
                            0 <= u < a.len() && self.marked@[u] && u != src implies ((
                        #[trigger] self.path@[u]) matches Some(p) && edge(a, p, u as usize)
                            && self.marked@[p as int] && self.depth@[p as int]
                            < self.depth@[u]) by {
                            if u == w as int {
                                assert(self.path@[u] == Some(point));
                                assert(point != w);
                                assert(self.depth@[point as int] == depth1[point as int]);
                                assert(self.depth@[u] == depth1[point as int] + 1);
                            } else {
                                assert(m1[u]);
                                assert((#[trigger] path1[u]) matches Some(p) && edge(
                                    a,
                                    p,
                                    u as usize,
                                ) && m1[p as int] && depth1[p as int] < depth1[u]);
                                let p = path1[u]->0;
                                assert(p != w);
                            }
                        }
                    }
                }
                let ghost m2 = self.marked@;
                self.dfs(w);
                proof {
                    lemma_count_unmarked_mono(m2, self.marked@);
                    assert forall|u: int|
                        0 <= u < a.len() && (#[trigger] self.marked@[u]) && !m0[u]
                            implies neighbors_marked(a, self.marked@, u) by {
                        if m2[u] && !m1[u] {
                            assert(u == w as int);
                            assert(neighbors_marked(a, self.marked@, w as int));
                        } else if m1[u] {
                            assert(neighbors_marked(a, m1, u));
                            assert forall|j: int| 0 <= j < a[u].len() implies self.marked@[(
                            #[trigger] a[u][j]) as int] by {
                                assert(m1[a[u][j] as int]);
                                assert(m2[a[u][j] as int]);
                            }
                        }
                    }
                }
            }
            i = i + 1;
        }
        proof {
            assert(neighbors_marked(a, self.marked@, point as int));
        }
    }
}

impl GraphPath for SimpleDFSGraphPath {
    closed spec fn source(&self) -> usize {
        self.point
    }

    closed spec fn visited(&self) -> Seq<bool> {
        self.marked@
    }

    closed spec fn parents(&self) -> Seq<Option<usize>> {
        self.path@
    }

    closed spec fn adjacency(&self) -> Seq<Seq<usize>> {
        adj_of(self.list@)
    }

    closed spec fn wf(&self) -> bool {
        &&& wf_adjacency(self.adjacency())
        &&& spanning_inv(self.adjacency(), self.marked@, self.path@, self.depth@, self.point)
        &&& forall|u: usize|
            u < self.adjacency().len() ==> ((#[trigger] self.marked@[u as int]) <==> reachable(
                self.adjacency(),
                self.point,
                u,
            ))
    }

    fn has_path_to(&self, to: usize) -> (r: bool) {
        proof {
            if to >= self.marked@.len() && reachable(self.adjacency(), self.point, to) {
                let q = choose|q: Seq<usize>| connects(self.adjacency(), q, self.point, to);
                assert(q.last() == to && q.last() < self.adjacency().len());
            }
        }
        to < self.marked.len() && self.marked[to]
    }

    fn path_to(&self, to: usize) -> (r: Result<Vec<usize>, ExampleError>) {
        if !self.has_path_to(to) {
            Err(ExampleError::NoPath)
        } else {
            let p = reconstruct(
                &self.path,
                self.point,
                to,
                Ghost(self.marked@),
                Ghost(self.adjacency()),
                Ghost(self.depth@),
            );
            proof {
                if to == self.point && p@.len() > 1 {
                    assert(self.path@[p@[0] as int] == Some(p@[1]));
                }
                assert(to == self.point ==> p@ =~= seq![to]);
            }
            Ok(p)
        }
    }
}

/// The result of a breadth-first traversal: the source vertex, the
/// visitation table, one parent pointer per visited vertex, and the
/// adjacency the traversal consumed. Vertices are discovered in
/// non-decreasing distance order, so the parent pointers hold
/// fewest-edge paths back to the source.
pub struct SimpleBFSGraphPath {
    point: usize,
    marked: Vec<bool>,
    path: Vec<Option<usize>>,
    list: Vec<Node>,
    dist: Ghost<Seq<nat>>,
}

impl SimpleBFSGraphPath {
    /// The number of edges of a fewest-edge walk from the source to each
    /// visited vertex, as the traversal discovered it.
    pub closed spec fn dists(&self) -> Seq<nat> {
        self.dist@
    }

    /// Consumes the vertex list and runs a breadth-first traversal from
    /// `point`, which must be a valid vertex of a well-formed adjacency:
    /// a first-in-first-out queue starts with `point` alone, and each
    /// popped vertex marks, records, and enqueues its unmarked neighbors
    /// in insertion order.
    #[verifier::loop_isolation(false)]
    #[verifier::rlimit(60)]
    pub fn new(list: Vec<Node>, point: usize) -> (r: SimpleBFSGraphPath)
        requires
            wf_adjacency(adj_of(list@)),
            point < list@.len(),
        ensures
            r.wf(),
            r.source() == point,
            r.adjacency() == adj_of(list@),
    {
        let ghost a = adj_of(list@);
        let len = list.len();
        let mut marked: Vec<bool> = Vec::new();
        let mut path: Vec<Option<usize>> = Vec::new();
        let mut i: usize = 0;
        while i < len
            invariant
                i <= len,
                marked@.len() == i,
                path@.len() == i,
                forall|k: int| 0 <= k < i ==> !(#[trigger] marked@[k]),
                forall|k: int| 0 <= k < i ==> (#[trigger] path@[k]) is None,
            decreases len - i,
        {
            marked.push(false);
            path.push(None);
            i = i + 1;
        }
        let ghost mfalse = marked@;
        marked[point] = true;
        let ghost dist0 = Seq::new(len as nat, |k: int| 0nat);
        let mut dist: Ghost<Seq<nat>> = Ghost(dist0);
        let mut queue: Vec<usize> = Vec::new();
        queue.push(point);
        let mut head: usize = 0;
        proof {
            lemma_count_unmarked_full(mfalse);
            lemma_count_unmarked_update(mfalse, point as int);
            assert(marked@ == mfalse.update(point as int, true));
            assert(queue@[0] == point);
            assert forall|x: usize| x < len && marked@[x as int] implies queue@.contains(x) by {
                assert(x == point);
            }
        }
        while head < queue.len()
            invariant
                marked@.len() == len,
                path@.len() == len,
                dist@.len() == len,
                head <= queue@.len(),
                spanning_inv(a, marked@, path@, dist@, point),
                dist@[point as int] == 0,
                forall|u: int|
                    0 <= u < len && (#[trigger] marked@[u]) && u != point ==> dist@[u] == dist@[(
                    path@[u]->0) as int] + 1,
                forall|k: int|
                    0 <= k < queue@.len() ==> (#[trigger] queue@[k]) < len
                        && marked@[queue@[k] as int],
                forall|x: usize| x < len && marked@[x as int] ==> queue@.contains(x),
                queue@.len() + count_unmarked(marked@) == len,
                forall|k: int, l: int|
                    0 <= k <= l < queue@.len() ==> dist@[(#[trigger] queue@[k]) as int] <= dist@[(
                    #[trigger] queue@[l]) as int],
                forall|k: int|
                    head < queue@.len() && 0 <= k < queue@.len() ==> dist@[(
                    #[trigger] queue@[k]) as int] <= dist@[queue@[head as int] as int] + 1,
                forall|k: int, jj: int|
                    0 <= k < head && 0 <= jj < a[queue@[k] as int].len() ==> marked@[(
                    #[trigger] a[queue@[k] as int][jj]) as int] && dist@[a[queue@[k] as int][
                    jj] as int] <= dist@[queue@[k] as int] + 1,
            decreases len - head,
        {
            let u: usize = queue[head];
            let deg = list[u].list.len();
            proof {
                assert(a[u as int] == list@[u as int].neighbors());
            }
            let mut j: usize = 0;
            while j < deg
                invariant
                    j <= deg,
                    deg == a[u as int].len(),
                    head < queue@.len(),
                    u == queue@[head as int],
                    marked@[u as int],
                    marked@.len() == len,
                    path@.len() == len,
                    dist@.len() == len,
                    spanning_inv(a, marked@, path@, dist@, point),
                    dist@[point as int] == 0,
                    forall|x: int|
                        0 <= x < len && (#[trigger] marked@[x]) && x != point ==> dist@[x]
                            == dist@[(path@[x]->0) as int] + 1,
                    forall|k: int|
                        0 <= k < queue@.len() ==> (#[trigger] queue@[k]) < len
                            && marked@[queue@[k] as int],
                    forall|x: usize| x < len && marked@[x as int] ==> queue@.contains(x),
                    queue@.len() + count_unmarked(marked@) == len,
                    forall|k: int, l: int|
                        0 <= k <= l < queue@.len() ==> dist@[(#[trigger] queue@[k]) as int]
                            <= dist@[(#[trigger] queue@[l]) as int],
                    forall|k: int|
                        0 <= k < queue@.len() ==> dist@[(#[trigger] queue@[k]) as int] <= dist@[
                            u as int] + 1,
                    forall|k: int, jj: int|
                        0 <= k < head && 0 <= jj < a[queue@[k] as int].len() ==> marked@[(
                        #[trigger] a[queue@[k] as int][jj]) as int] && dist@[a[queue@[k] as int][
                        jj] as int] <= dist@[queue@[k] as int] + 1,
                    forall|jj: int|
                        0 <= jj < j ==> marked@[(#[trigger] a[u as int][jj]) as int] && dist@[a[
                            u as int][jj] as int] <= dist@[u as int] + 1,
                decreases deg - j,
            {
                let w: usize = list[u].list[j];
                proof {
                    assert(w == a[u as int][j as int]);
                    assert(w < len);
                }
                if !marked[w] {
                    let ghost m1 = marked@;
                    let ghost path1 = path@;
                    let ghost dist1 = dist@;
                    let ghost queue1 = queue@;
                    marked[w] = true;
                    path[w] = Some(u);
                    proof {
                        dist@ = dist@.update(w as int, dist@[u as int] + 1);
                    }
                    queue.push(w);
                    proof {
                        lemma_count_unmarked_update(m1, w as int);
                        assert(marked@ == m1.update(w as int, true));
                        assert(path@ == path1.update(w as int, Some(u)));
                        assert(edge(a, u, w)) by {
                            assert(a[u as int][j as int] == w);
                        }
                        assert(w != point);
                        assert forall|k: int| 0 <= k < queue1.len() implies queue1[k] != w by {
                            assert(marked@[queue1[k] as int]);
                        }
                        assert(spanning_inv(a, marked@, path@, dist@, point)) by {
                            assert forall|x: int|
                                0 <= x < a.len() && marked@[x] && x != point implies ((
                            #[trigger] path@[x]) matches Some(p) && edge(a, p, x as usize)
                                && marked@[p as int] && dist@[p as int] < dist@[x]) by {
                                if x == w as int {
                                    assert(path@[x] == Some(u));
                                    assert(u != w);
                                    assert(dist@[u as int] == dist1[u as int]);
                                } else {
                                    assert(m1[x]);
                                    assert((#[trigger] path1[x]) matches Some(p) && edge(
                                        a,
                                        p,
                                        x as usize,
                                    ) && m1[p as int] && dist1[p as int] < dist1[x]);
                                    let p = path1[x]->0;
                                    assert(p != w);
                                }
                            }
                        }
                        assert forall|x: usize| x < len && marked@[x as int] implies
                            queue@.contains(x) by {
                            if x == w {
                                assert(queue@[queue@.len() - 1] == w);
                            } else {
                                assert(m1[x as int]);
                                let k = choose|k: int|
                                    0 <= k < queue1.len() && queue1[k] == x;
                                assert(queue@[k] == x);
                            }
                        }
                    }
                }
                j = j + 1;
            }
            head = head + 1;
            proof {
                assert forall|k: int|
                    head < queue@.len() && 0 <= k < queue@.len() implies dist@[(
                #[trigger] queue@[k]) as int] <= dist@[queue@[head as int] as int] + 1 by {
                    assert(dist@[queue@[k] as int] <= dist@[u as int] + 1);
                    assert(dist@[u as int] <= dist@[queue@[head as int] as int]);
                }
            }
        }
        proof {
            assert forall|x: int| 0 <= x < len && marked@[x] implies (neighbors_marked(
                a,
                marked@,
                x,
            ) && forall|jj: int|
                0 <= jj < a[x].len() ==> dist@[(#[trigger] a[x][jj]) as int] <= dist@[x]
                    + 1) by {
                let k = choose|k: int| 0 <= k < queue@.len() && queue@[k] == x as usize;
                assert(0 <= k < head);
                assert forall|jj: int| 0 <= jj < a[x].len() implies marked@[(
                #[trigger] a[x][jj]) as int] && dist@[a[x][jj] as int] <= dist@[x] + 1 by {
                    let qk = queue@[k];
                    assert(marked@[(a[qk as int][jj]) as int] && dist@[a[qk as int][jj] as int]
                        <= dist@[qk as int] + 1);
                }
            }
            assert forall|u2: usize| u2 < len implies ((#[trigger] marked@[u2 as int])
                <==> reachable(a, point, u2)) by {
                if marked@[u2 as int] {
                    lemma_tree_reachable(a, marked@, path@, dist@, point, u2);
                }
                if reachable(a, point, u2) {
                    let q = choose|q: Seq<usize>| connects(a, q, point, u2);
                    lemma_closure_covers(a, marked@, dist@, q);
                }
            }
            assert forall|u2: usize, q: Seq<usize>| #[trigger] connects(a, q, point, u2)
                implies marked@[u2 as int] && q.len() >= dist@[u2 as int] + 1 by {
                lemma_closure_covers(a, marked@, dist@, q);
            }
        }
        SimpleBFSGraphPath { point, marked, path, list, dist }
    }
}

impl GraphPath for SimpleBFSGraphPath {
    closed spec fn source(&self) -> usize {
        self.point
    }

    closed spec fn visited(&self) -> Seq<bool> {
        self.marked@
    }

    closed spec fn parents(&self) -> Seq<Option<usize>> {
        self.path@
    }

    closed spec fn adjacency(&self) -> Seq<Seq<usize>> {
        adj_of(self.list@)
    }

    closed spec fn wf(&self) -> bool {
        &&& wf_adjacency(self.adjacency())
        &&& spanning_inv(self.adjacency(), self.marked@, self.path@, self.dist@, self.point)
        &&& self.dist@[self.point as int] == 0
        &&& forall|u: int|
            0 <= u < self.adjacency().len() && (#[trigger] self.marked@[u]) && u != self.point
                ==> self.dist@[u] == self.dist@[(self.path@[u]->0) as int] + 1
        &&& forall|u: usize|
            u < self.adjacency().len() ==> ((#[trigger] self.marked@[u as int]) <==> reachable(
                self.adjacency(),
                self.point,
                u,
            ))
        &&& forall|u: usize, q: Seq<usize>|
            #[trigger] connects(self.adjacency(), q, self.point, u) ==> self.marked@[u as int]
                && q.len() >= self.dist@[u as int] + 1
    }

    fn has_path_to(&self, to: usize) -> (r: bool) {
        proof {
            if to >= self.marked@.len() && reachable(self.adjacency(), self.point, to) {
                let q = choose|q: Seq<usize>| connects(self.adjacency(), q, self.point, to);
                assert(q.last() == to && q.last() < self.adjacency().len());
            }
        }
        to < self.marked.len() && self.marked[to]
    }

    fn path_to(&self, to: usize) -> (r: Result<Vec<usize>, ExampleError>) {
        if !self.has_path_to(to) {
            Err(ExampleError::NoPath)
        } else {
            let p = reconstruct(
                &self.path,
                self.point,
                to,
                Ghost(self.marked@),
                Ghost(self.adjacency()),
                Ghost(self.dist@),
            );
            proof {
                if to == self.point && p@.len() > 1 {
                    assert(self.path@[p@[0] as int] == Some(p@[1]));
                }
                assert(to == self.point ==> p@ =~= seq![to]);
            }
            Ok(p)
        }
    }
}

/// Walks the parent pointers of a finished traversal from `to` back to the
/// parentless vertex, which the spanning-tree invariant makes the source,
/// and returns the vertices passed, target first and source last.
fn reconstruct(
    path: &Vec<Option<usize>>,
    source: usize,
    to: usize,
    marked: Ghost<Seq<bool>>,
    adj: Ghost<Seq<Seq<usize>>>,
    rank: Ghost<Seq<nat>>,
) -> (r: Vec<usize>)
    requires
        spanning_inv(adj@, marked@, path@, rank@, source),
        to < adj@.len(),
        marked@[to as int],
    ensures
        parent_chain(path@, r@, to, source),
        forall|i: int|
            0 <= i < r@.len() ==> (#[trigger] r@[i]) < adj@.len() && marked@[r@[i] as int],
        forall|i: int| 0 <= i < r@.len() - 1 ==> #[trigger] edge(adj@, r@[i + 1], r@[i]),
{
    let mut r: Vec<usize> = Vec::new();
    let mut cur: usize = to;
    loop
        invariant
            spanning_inv(adj@, marked@, path@, rank@, source),
            to < adj@.len(),
            marked@[to as int],
            cur < adj@.len(),
            marked@[cur as int],
            r@.len() == 0 ==> cur == to,
            r@.len() > 0 ==> r@[0] == to && path@[r@[r@.len() - 1] as int] == Some(cur),
            forall|i: int|
                0 <= i < r@.len() ==> (#[trigger] r@[i]) < adj@.len() && marked@[r@[i] as int],
            forall|i: int| 0 <= i < r@.len() - 1 ==> path@[(#[trigger] r@[i]) as int] == Some(
                r@[i + 1],
            ),
        ensures
            path@[cur as int] is None,
        decreases rank@[cur as int],
    {
        let pc: Option<usize> = path[cur];
        match pc {
            Some(p) => {
                proof {
                    assert(cur != source);
                    assert((#[trigger] path@[cur as int]) matches Some(pp) && edge(
                        adj@,
                        pp,
                        cur,
                    ) && marked@[pp as int] && rank@[pp as int] < rank@[cur as int]);
                }
                r.push(cur);
                cur = p;
            },
            None => {
                break;
            },
        }
    }
    proof {
        assert(cur == source);
    }
    r.push(cur);
    proof {
        assert(r@[r@.len() - 1] == source);
        assert(r@[0] == to);
        assert forall|i: int| 0 <= i < r@.len() - 1 implies path@[(#[trigger] r@[i]) as int]
            == Some(r@[i + 1]) by {}
        assert forall|i: int| 0 <= i < r@.len() - 1 implies #[trigger] edge(
            adj@,
            r@[i + 1],
            r@[i],
        ) by {
            assert(r@[i] != source);
            assert(marked@[r@[i] as int]);
        }
    }
    r
}

} // verus!
