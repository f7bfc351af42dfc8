//! The mathematical model of a graph: a map from each vertex to the set of
//! its neighbours, and what inserting a vertex or an edge does to it.

use vstd::prelude::*;

verus! {

/// The neighbours of `v` in `g`; a vertex that `g` does not hold has none.
pub open spec fn neighbors<T>(g: Map<T, Set<T>>, v: T) -> Set<T> {
    if g.contains_key(v) {
        g[v]
    } else {
        Set::empty()
    }
}

/// `b` is in the neighbour set of the vertex `a`.
pub open spec fn adjacent<T>(g: Map<T, Set<T>>, a: T, b: T) -> bool {
    g.contains_key(a) && g[a].contains(b)
}

/// Every edge is stored on both of its ends.
pub open spec fn undirected<T>(g: Map<T, Set<T>>) -> bool {
    forall|a: T, b: T| #[trigger] adjacent(g, a, b) ==> adjacent(g, b, a)
}

/// `g` with `v` among its vertices: a vertex already there keeps its
/// neighbours, a new one starts with none.
pub open spec fn with_vertex<T>(g: Map<T, Set<T>>, v: T) -> Map<T, Set<T>> {
    Map::new(|u: T| g.contains_key(u) || u == v, |u: T| neighbors(g, u))
}

/// What the edge between `a` and `b` adds to the neighbours of `v`.
pub open spec fn edge_ends<T>(a: T, b: T, v: T) -> Set<T> {
    Set::new(|w: T| (v == a && w == b) || (v == b && w == a))
}

/// `g` with both `a` and `b` among its vertices and each in the neighbour
/// set of the other.
pub open spec fn with_edge<T>(g: Map<T, Set<T>>, a: T, b: T) -> Map<T, Set<T>> {
    Map::new(
        |v: T| g.contains_key(v) || v == a || v == b,
        |v: T| neighbors(g, v).union(edge_ends(a, b, v)),
    )
}

/// Inserting a vertex a second time changes nothing: the graph after two
/// insertions of `v` is the graph after one, so in particular the neighbour
/// set of `v` is the same.
pub proof fn lemma_add_vertex_idempotent<T>(g: Map<T, Set<T>>, v: T)
    ensures
        with_vertex(with_vertex(g, v), v) == with_vertex(g, v),
        neighbors(with_vertex(with_vertex(g, v), v), v) == neighbors(with_vertex(g, v), v),
{
}

/// Inserting a vertex never changes the neighbours of any vertex, and a
/// vertex that was already there leaves the whole graph as it was.
pub proof fn lemma_add_vertex_keeps_neighbors<T>(g: Map<T, Set<T>>, v: T, u: T)
    ensures
        neighbors(with_vertex(g, v), u) == neighbors(g, u),
        g.contains_key(v) ==> with_vertex(g, v) == g,
        !g.contains_key(v) ==> with_vertex(g, v) == g.insert(v, Set::empty()),
{
}

/// After the edge between `a` and `b` is inserted, `b` is a neighbour of `a`
/// and `a` is a neighbour of `b`, and both are vertices.
pub proof fn lemma_add_edge_symmetric<T>(g: Map<T, Set<T>>, a: T, b: T)
    ensures
        adjacent(with_edge(g, a, b), a, b),
        adjacent(with_edge(g, a, b), b, a),
        neighbors(with_edge(g, a, b), a).contains(b),
        neighbors(with_edge(g, a, b), b).contains(a),
{
}

/// Which pairs are adjacent once the edge between `a` and `b` is inserted:
/// those that were, and the two ends of the new edge, each way.
pub proof fn lemma_add_edge_adjacent<T>(g: Map<T, Set<T>>, a: T, b: T, v: T, w: T)
    ensures
        adjacent(with_edge(g, a, b), v, w) <==> adjacent(g, v, w) || (v == a && w == b) || (v == b
            && w == a),
{
}

/// Inserting an edge keeps a graph undirected.
pub proof fn lemma_add_edge_keeps_undirected<T>(g: Map<T, Set<T>>, a: T, b: T)
    requires
        undirected(g),
    ensures
        undirected(with_edge(g, a, b)),
{
    let h = with_edge(g, a, b);
    assert forall|v: T, w: T| #[trigger] adjacent(h, v, w) implies adjacent(h, w, v) by {
        lemma_add_edge_adjacent(g, a, b, v, w);
        lemma_add_edge_adjacent(g, a, b, w, v);
    }
}

/// Inserting a vertex keeps a graph undirected.
pub proof fn lemma_add_vertex_keeps_undirected<T>(g: Map<T, Set<T>>, v: T)
    requires
        undirected(g),
    ensures
        undirected(with_vertex(g, v)),
{
    let h = with_vertex(g, v);
    assert forall|a: T, b: T| #[trigger] adjacent(h, a, b) implies adjacent(h, b, a) by {
        assert(adjacent(g, a, b));
    }
}

/// Inserting the same edge again, in either direction, changes nothing.
pub proof fn lemma_add_edge_idempotent<T>(g: Map<T, Set<T>>, a: T, b: T)
    ensures
        with_edge(with_edge(g, a, b), a, b) == with_edge(g, a, b),
        with_edge(with_edge(g, a, b), b, a) == with_edge(g, a, b),
{
    assert(with_edge(with_edge(g, a, b), a, b) =~~= with_edge(g, a, b));
    assert(with_edge(with_edge(g, a, b), b, a) =~~= with_edge(g, a, b));
}

} // verus!
