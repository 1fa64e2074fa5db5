//! The public graph contract: construction and edge insertion, conversion of
//! a graph into a traversal result, and path queries on that result.

pub mod reach;
pub mod safe_simple;

use vstd::prelude::*;

use crate::graph::reach::{add_edge_adj, add_edge_count, connects, edge, parent_chain, reachable};

verus! {

/// The error a graph or traversal query reports to its caller.
#[derive(Debug, Clone, Copy, PartialEq, Eq)]
pub enum ExampleError {
    /// A vertex index argument fell outside `[0, vertex_count)`.
    OutOfRange,
    /// `path_to` was asked for a vertex the traversal never reached.
    NoPath,
}

/// An undirected graph under construction: vertex and edge counts, edge
/// insertion, neighbor lookup, and conversion, by value, into a traversal
/// result anchored at a chosen source vertex.
pub trait Graph: Sized {
    type NodeItem;

    type DFSItem: GraphPath;

    type BFSItem: GraphPath;

    /// The neighbor lists, indexed by vertex; its length is the vertex count.
    spec fn adjacency(&self) -> Seq<Seq<usize>>;

    /// How many edge insertions the graph has accepted.
    spec fn edge_count(&self) -> nat;

    /// The graph's internal invariant.
    spec fn wf(&self) -> bool;

    /// What an `Ok` answer of `adj` holds: `ns` is `v`'s neighbor list.
    spec fn adj_result(&self, v: usize, ns: Seq<Self::NodeItem>) -> bool;

    /// The number of vertices.
    fn v(&self) -> (r: usize)
        ensures
            r == self.adjacency().len(),
    ;

    /// The number of accepted edge insertions.
    fn e(&self) -> (r: usize)
        ensures
            r == self.edge_count(),
    ;

    /// Records the undirected edge `(v, e)`: each endpoint joins the other's
    /// neighbor list (deduplicated on `v`'s side only), and the edge counter
    /// moves up once. An insertion with an endpoint out of range is ignored
    /// whole.
    fn add_edge(&mut self, v: usize, e: usize)
        requires
            old(self).wf(),
            old(self).edge_count() < usize::MAX,
        ensures
            final(self).wf(),
            final(self).adjacency() == add_edge_adj(old(self).adjacency(), v, e),
            final(self).edge_count() == add_edge_count(old(self).adjacency(), old(self).edge_count(), v, e),
            v < old(self).adjacency().len() && e < old(self).adjacency().len()
                ==> final(self).adjacency()[v as int].contains(e)
                && final(self).adjacency()[e as int].contains(v),
    ;

    /// The neighbors of `v`, in insertion order, or `OutOfRange` for a vertex
    /// the graph does not have.
    fn adj(&self, v: usize) -> (r: Result<Vec<Self::NodeItem>, ExampleError>)
        requires
            self.wf(),
        ensures
            r is Ok <==> v < self.adjacency().len(),
            r matches Ok(ns) ==> self.adj_result(v, ns@),
            r matches Err(er) ==> er == ExampleError::OutOfRange,
    ;

    /// Consumes the graph into a depth-first traversal result rooted at `v`,
    /// or `OutOfRange` for a source the graph does not have. The result has
    /// visited exactly the vertices reachable from `v`.
    fn to_dfs(self, v: usize) -> (r: Result<Self::DFSItem, ExampleError>)
        requires
            self.wf(),
        ensures
            r is Ok <==> v < self.adjacency().len(),
            r matches Err(er) ==> er == ExampleError::OutOfRange,
            r matches Ok(d) ==> ({
                &&& d.wf()
                &&& d.source() == v
                &&& d.adjacency() == self.adjacency()
                &&& d.visited().len() == self.adjacency().len()
                &&& d.parents().len() == self.adjacency().len()
                &&& d.parents()[v as int] is None
                &&& forall|u: usize|
                    u < self.adjacency().len() ==> ((#[trigger] d.visited()[u as int])
                        <==> reachable(self.adjacency(), v, u))
            }),
    ;

    /// Consumes the graph into a breadth-first traversal result rooted at
    /// `v`, or `OutOfRange` for a source the graph does not have. Besides
    /// visiting exactly the reachable vertices, its parent pointers hold
    /// shortest paths: a walk back through them from any target is no longer
    /// than any walk from the source to that target.
    fn to_bfs(self, v: usize) -> (r: Result<Self::BFSItem, ExampleError>)
        requires
            self.wf(),
        ensures
            r is Ok <==> v < self.adjacency().len(),
            r matches Err(er) ==> er == ExampleError::OutOfRange,
            r matches Ok(d) ==> ({
                &&& d.wf()
                &&& d.source() == v
                &&& d.adjacency() == self.adjacency()
                &&& d.visited().len() == self.adjacency().len()
                &&& d.parents().len() == self.adjacency().len()
                &&& d.parents()[v as int] is None
                &&& forall|u: usize|
                    u < self.adjacency().len() ==> ((#[trigger] d.visited()[u as int])
                        <==> reachable(self.adjacency(), v, u))
            }),
            r matches Ok(d) ==> (forall|u: usize, rr: Seq<usize>, q: Seq<usize>|
                #[trigger] parent_chain(d.parents(), rr, u, v) && #[trigger] connects(
                    d.adjacency(),
                    q,
                    v,
                    u,
                ) ==> rr.len() <= q.len()),
    ;
}

/// A finished traversal: reachability queries and path reconstruction from
/// the recorded parent pointers.
pub trait GraphPath {
    /// The vertex the traversal started from.
    spec fn source(&self) -> usize;

    /// Which vertices the traversal visited, as a table over the vertex range.
    spec fn visited(&self) -> Seq<bool>;

    /// The vertex each visited vertex was discovered from; the source and
    /// every unvisited vertex have none.
    spec fn parents(&self) -> Seq<Option<usize>>;

    /// The adjacency the traversal ran over, carried over from the graph.
    spec fn adjacency(&self) -> Seq<Seq<usize>>;

    /// The traversal result's internal invariant.
    spec fn wf(&self) -> bool;

    /// Whether the traversal reached `to`: true exactly for the visited
    /// vertices, and so exactly for those reachable from the source; false
    /// for an out-of-range index. A vertex always reaches itself, so the
    /// source always answers true.
    fn has_path_to(&self, to: usize) -> (r: bool)
        requires
            self.wf(),
        ensures
            r == reachable(self.adjacency(), self.source(), to),
            r == (to < self.visited().len() && self.visited()[to as int]),
            to == self.source() ==> r,
    ;

    /// The discovered path, target first and source last, read off the
    /// parent pointers; `NoPath` exactly when the traversal never reached
    /// `to`. Every vertex on the path is visited and consecutive entries are
    /// joined by an edge; for the source itself the path is just the source.
    fn path_to(&self, to: usize) -> (r: Result<Vec<usize>, ExampleError>)
        requires
            self.wf(),
        ensures
            r is Ok <==> reachable(self.adjacency(), self.source(), to),
            r matches Err(er) ==> er == ExampleError::NoPath,
            r matches Ok(p) ==> parent_chain(self.parents(), p@, to, self.source()),
            r matches Ok(p) ==> (forall|i: int|
                0 <= i < p@.len() ==> (#[trigger] p@[i]) < self.visited().len()
                    && self.visited()[p@[i] as int]),
            r matches Ok(p) ==> (forall|i: int|
                0 <= i < p@.len() - 1 ==> #[trigger] edge(self.adjacency(), p@[i + 1], p@[i])),
            to == self.source() ==> (r matches Ok(p) && p@ == seq![to]),
    ;
}

} // verus!
