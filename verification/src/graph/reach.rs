//! The mathematical model of a traversal: paths and reachability over an
//! adjacency sequence, the spanning-tree invariant that parent pointers obey,
//! and the lemmas that connect a finished traversal to reachability.

use vstd::prelude::*;

verus! {

/// Every neighbor entry is a valid vertex index.
pub open spec fn wf_adjacency(adj: Seq<Seq<usize>>) -> bool {
    forall|u: int, j: int|
        0 <= u < adj.len() && 0 <= j < adj[u].len() ==> (#[trigger] adj[u][j]) < adj.len()
}

/// There is an edge recorded from `a` to `b`: `b` stands in `a`'s neighbor list.
pub open spec fn edge(adj: Seq<Seq<usize>>, a: usize, b: usize) -> bool {
    a < adj.len() && b < adj.len() && adj[a as int].contains(b)
}

/// `p` is a walk through the graph: non-empty, within range, and each
/// consecutive pair is joined by a recorded edge.
pub open spec fn is_path(adj: Seq<Seq<usize>>, p: Seq<usize>) -> bool {
    &&& p.len() > 0
    &&& forall|i: int| 0 <= i < p.len() ==> (#[trigger] p[i]) < adj.len()
    &&& forall|i: int| 0 <= i < p.len() - 1 ==> #[trigger] edge(adj, p[i], p[i + 1])
}

/// `p` is a walk that starts at `s` and ends at `t`.
pub open spec fn connects(adj: Seq<Seq<usize>>, p: Seq<usize>, s: usize, t: usize) -> bool {
    is_path(adj, p) && p.first() == s && p.last() == t
}

/// Some walk leads from `s` to `t`.
pub open spec fn reachable(adj: Seq<Seq<usize>>, s: usize, t: usize) -> bool {
    exists|p: Seq<usize>| connects(adj, p, s, t)
}

/// Every neighbor of `u` carries a mark.
pub open spec fn neighbors_marked(adj: Seq<Seq<usize>>, m: Seq<bool>, u: int) -> bool {
    forall|j: int| 0 <= j < adj[u].len() ==> m[(#[trigger] adj[u][j]) as int]
}

/// The parent pointers form a tree of marked vertices rooted at `source`:
/// the source is marked and parentless, every other marked vertex has a
/// marked parent it was discovered from, strictly earlier by `rank`, and
/// unmarked vertices have no parent recorded.
pub open spec fn spanning_inv(
    adj: Seq<Seq<usize>>,
    m: Seq<bool>,
    parent: Seq<Option<usize>>,
    rank: Seq<nat>,
    source: usize,
) -> bool {
    &&& m.len() == adj.len()
    &&& parent.len() == adj.len()
    &&& rank.len() == adj.len()
    &&& source < adj.len()
    &&& m[source as int]
    &&& parent[source as int] is None
    &&& forall|u: int|
        0 <= u < adj.len() && m[u] && u != source ==> ((#[trigger] parent[u]) matches Some(p)
            && edge(adj, p, u as usize) && m[p as int] && rank[p as int] < rank[u])
    &&& forall|u: int| 0 <= u < adj.len() && !m[u] ==> (#[trigger] parent[u]) is None
}

/// `r` walks the parent pointers from `to` back to `source`: it starts at
/// `to`, each element's recorded parent is the next element, and it ends at
/// `source`.
pub open spec fn parent_chain(
    parent: Seq<Option<usize>>,
    r: Seq<usize>,
    to: usize,
    source: usize,
) -> bool {
    &&& r.len() > 0
    &&& r.first() == to
    &&& r.last() == source
    &&& forall|i: int| 0 <= i < r.len() ==> (#[trigger] r[i]) < parent.len()
    &&& forall|i: int| 0 <= i < r.len() - 1 ==> parent[(#[trigger] r[i]) as int] == Some(r[i + 1])
}

/// `l` with `e` appended, unless `e` is already present: the deduplicated
/// side of an edge insertion.
pub open spec fn insert_unique(l: Seq<usize>, e: usize) -> Seq<usize> {
    if l.contains(e) {
        l
    } else {
        l.push(e)
    }
}

/// What one edge insertion does to the adjacency: with both endpoints in
/// range, `e` joins `v`'s list unless already there, and `v` joins `e`'s
/// list unconditionally, in that order; with either endpoint out of range
/// the insertion is ignored whole, so no stray identifier enters a list.
pub open spec fn add_edge_adj(adj: Seq<Seq<usize>>, v: usize, e: usize) -> Seq<Seq<usize>> {
    if v < adj.len() && e < adj.len() {
        let a1 = adj.update(v as int, insert_unique(adj[v as int], e));
        a1.update(e as int, a1[e as int].push(v))
    } else {
        adj
    }
}

/// What one edge insertion does to the edge counter: accepted insertions
/// count once, ignored ones not at all.
pub open spec fn add_edge_count(adj: Seq<Seq<usize>>, c: nat, v: usize, e: usize) -> nat {
    if v < adj.len() && e < adj.len() {
        c + 1
    } else {
        c
    }
}

/// The adjacency of a graph with `cap` fresh vertices after the given edge
/// insertions, in order.
pub open spec fn built_adj(cap: nat, edges: Seq<(usize, usize)>) -> Seq<Seq<usize>>
    decreases edges.len(),
{
    if edges.len() == 0 {
        Seq::new(cap, |i: int| Seq::<usize>::empty())
    } else {
        add_edge_adj(built_adj(cap, edges.drop_last()), edges.last().0, edges.last().1)
    }
}

/// The edge counter of that same graph.
pub open spec fn built_count(cap: nat, edges: Seq<(usize, usize)>) -> nat
    decreases edges.len(),
{
    if edges.len() == 0 {
        0
    } else {
        add_edge_count(
            built_adj(cap, edges.drop_last()),
            built_count(cap, edges.drop_last()),
            edges.last().0,
            edges.last().1,
        )
    }
}

/// How many entries of `m` are still unmarked.
pub open spec fn count_unmarked(m: Seq<bool>) -> nat
    decreases m.len(),
{
    if m.len() == 0 {
        0
    } else {
        count_unmarked(m.drop_last()) + if m.last() {
            0nat
        } else {
            1nat
        }
    }
}

/// Marking one more entry lowers the unmarked count by exactly one.
pub proof fn lemma_count_unmarked_update(m: Seq<bool>, i: int)
    requires
        0 <= i < m.len(),
        !m[i],
    ensures
        count_unmarked(m.update(i, true)) + 1 == count_unmarked(m),
    decreases m.len(),
{
    let m2 = m.update(i, true);
    if i == m.len() - 1 {
        assert(m2.drop_last() =~= m.drop_last());
    } else {
        assert(m2.drop_last() =~= m.drop_last().update(i, true));
        lemma_count_unmarked_update(m.drop_last(), i);
    }
}

/// With nothing marked, every entry counts as unmarked.
pub proof fn lemma_count_unmarked_full(m: Seq<bool>)
    requires
        forall|i: int| 0 <= i < m.len() ==> !(#[trigger] m[i]),
    ensures
        count_unmarked(m) == m.len(),
    decreases m.len(),
{
    if m.len() > 0 {
        lemma_count_unmarked_full(m.drop_last());
    }
}

/// A walk back through parent pointers whose recorded distances step down
/// by exactly one ends after precisely the target's distance: the chain
/// from `to` holds `dist[to] + 1` vertices.
pub proof fn lemma_chain_len(
    parent: Seq<Option<usize>>,
    dist: Seq<nat>,
    r: Seq<usize>,
    to: usize,
    source: usize,
)
    requires
        source < parent.len(),
        dist.len() == parent.len(),
        parent_chain(parent, r, to, source),
        parent[source as int] is None,
        dist[source as int] == 0,
        forall|u: int|
            0 <= u < parent.len() && u != source && (#[trigger] parent[u]) is Some ==> dist[u]
                == dist[parent[u]->0 as int] + 1,
    ensures
        r.len() == dist[to as int] + 1,
    decreases r.len(),
{
    if r.len() == 1 {
        assert(to == source);
    } else {
        assert(parent[to as int] == Some(r[1]));
        assert(to != source);
        let t = r.subrange(1, r.len() as int);
        assert(parent_chain(parent, t, r[1], source)) by {
            assert forall|i: int| 0 <= i < t.len() - 1 implies parent[(#[trigger] t[i]) as int]
                == Some(t[i + 1]) by {
                assert(t[i] == r[i + 1]);
                assert(t[i + 1] == r[i + 2]);
            }
        }
        lemma_chain_len(parent, dist, t, r[1], source);
        assert(dist[to as int] == dist[r[1] as int] + 1);
    }
}

/// A pointwise stronger marking never has more unmarked entries.
pub proof fn lemma_count_unmarked_mono(m1: Seq<bool>, m2: Seq<bool>)
    requires
        m1.len() == m2.len(),
        forall|i: int| 0 <= i < m1.len() && m1[i] ==> m2[i],
    ensures
        count_unmarked(m2) <= count_unmarked(m1),
    decreases m1.len(),
{
    if m1.len() > 0 {
        lemma_count_unmarked_mono(m1.drop_last(), m2.drop_last());
        assert(m1.last() ==> m2.last());
    }
}

/// A vertex trivially reaches itself.
pub proof fn lemma_reachable_self(adj: Seq<Seq<usize>>, s: usize)
    requires
        s < adj.len(),
    ensures
        reachable(adj, s, s),
{
    let p = seq![s];
    assert(connects(adj, p, s, s));
}

/// A walk extends along one more recorded edge.
pub proof fn lemma_reachable_step(adj: Seq<Seq<usize>>, s: usize, u: usize, w: usize)
    requires
        reachable(adj, s, u),
        edge(adj, u, w),
    ensures
        reachable(adj, s, w),
{
    let p = choose|p: Seq<usize>| connects(adj, p, s, u);
    let q = p.push(w);
    assert(q.first() == s);
    assert(q.last() == w);
    assert forall|i: int| 0 <= i < q.len() - 1 implies #[trigger] edge(adj, q[i], q[i + 1]) by {
        if i < p.len() - 1 {
            assert(edge(adj, p[i], p[i + 1]));
        } else {
            assert(q[i] == u && q[i + 1] == w);
        }
    }
    assert(connects(adj, q, s, w));
}

/// Every marked vertex of a spanning tree is reachable from the source:
/// its parent pointers are a walk, found by descending ranks.
pub proof fn lemma_tree_reachable(
    adj: Seq<Seq<usize>>,
    m: Seq<bool>,
    parent: Seq<Option<usize>>,
    rank: Seq<nat>,
    source: usize,
    u: usize,
)
    requires
        spanning_inv(adj, m, parent, rank, source),
        u < adj.len(),
        m[u as int],
    ensures
        reachable(adj, source, u),
    decreases rank[u as int],
{
    if u == source {
        lemma_reachable_self(adj, source);
    } else {
        let p = parent[u as int]->0;
        lemma_tree_reachable(adj, m, parent, rank, source, p);
        lemma_reachable_step(adj, source, p, u);
    }
}

/// If marks are closed under taking neighbors, with discovery bounds that
/// grow by at most one along an edge, then every walk from a marked vertex
/// stays marked and its endpoint's bound is at most the walk's edge count.
pub proof fn lemma_closure_covers(
    adj: Seq<Seq<usize>>,
    m: Seq<bool>,
    dist: Seq<nat>,
    p: Seq<usize>,
)
    requires
        m.len() == adj.len(),
        dist.len() == adj.len(),
        is_path(adj, p),
        m[p.first() as int],
        forall|u: int|
            0 <= u < adj.len() && m[u] ==> #[trigger] neighbors_marked(adj, m, u),
        forall|u: int, j: int|
            0 <= u < adj.len() && m[u] && 0 <= j < adj[u].len()
                ==> dist[(#[trigger] adj[u][j]) as int] <= dist[u] + 1,
    ensures
        m[p.last() as int],
        dist[p.last() as int] <= dist[p.first() as int] + p.len() - 1,
    decreases p.len(),
{
    if p.len() > 1 {
        let q = p.drop_last();
        assert(is_path(adj, q)) by {
            assert forall|i: int| 0 <= i < q.len() - 1 implies #[trigger] edge(adj, q[i], q[i + 1]) by {
                assert(edge(adj, p[i], p[i + 1]));
            }
        }
        lemma_closure_covers(adj, m, dist, q);
        let x = p[p.len() - 2];
        let y = p.last();
        assert(edge(adj, p[p.len() - 2], p[p.len() - 2 + 1]));
        assert(edge(adj, x, y));
        let j = choose|j: int| 0 <= j < adj[x as int].len() && adj[x as int][j] == y;
        assert(neighbors_marked(adj, m, x as int));
        assert(m[y as int]);
        assert(dist[y as int] <= dist[x as int] + 1);
    }
}

/// The law that a traversal's answers do not drift between calls: the walk
/// back through the parent pointers from a fixed target is unique, so two
/// path reconstructions with the same arguments return the same sequence.
pub proof fn lemma_parent_chain_unique(
    parent: Seq<Option<usize>>,
    r1: Seq<usize>,
    r2: Seq<usize>,
    to: usize,
    source: usize,
)
    requires
        source < parent.len(),
        parent[source as int] is None,
        parent_chain(parent, r1, to, source),
        parent_chain(parent, r2, to, source),
    ensures
        r1 == r2,
    decreases r1.len(),
{
    if to == source {
        assert(r1.len() == 1) by {
            if r1.len() > 1 {
                assert(parent[r1[0] as int] == Some(r1[1]));
            }
        }
        assert(r2.len() == 1) by {
            if r2.len() > 1 {
                assert(parent[r2[0] as int] == Some(r2[1]));
            }
        }
        assert(r1 =~= r2);
    } else {
        assert(r1.len() > 1 && r2.len() > 1) by {
            assert(r1.first() == to && r1.last() == source);
            assert(r2.first() == to && r2.last() == source);
        }
        assert(parent[to as int] == Some(r1[1]));
        assert(parent[to as int] == Some(r2[1]));
        let t1 = r1.subrange(1, r1.len() as int);
        let t2 = r2.subrange(1, r2.len() as int);
        assert(parent_chain(parent, t1, r1[1], source)) by {
            assert forall|i: int| 0 <= i < t1.len() - 1 implies parent[(#[trigger] t1[i]) as int]
                == Some(t1[i + 1]) by {
                assert(t1[i] == r1[i + 1]);
                assert(t1[i + 1] == r1[i + 2]);
            }
        }
        assert(parent_chain(parent, t2, r2[1], source)) by {
            assert forall|i: int| 0 <= i < t2.len() - 1 implies parent[(#[trigger] t2[i]) as int]
                == Some(t2[i + 1]) by {
                assert(t2[i] == r2[i + 1]);
                assert(t2[i + 1] == r2[i + 2]);
            }
        }
        lemma_parent_chain_unique(parent, t1, t2, r1[1], source);
        assert(r1 =~= r2) by {
            assert(r1.len() == t1.len() + 1 && r2.len() == t2.len() + 1);
            assert forall|i: int| 0 <= i < r1.len() implies r1[i] == r2[i] by {
                if i == 0 {
                } else {
                    assert(r1[i] == t1[i - 1] && r2[i] == t2[i - 1]);
                }
            }
        }
    }
}

} // verus!
