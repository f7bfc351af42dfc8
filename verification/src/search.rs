//! What it means to reach a vertex, how far away it is, and which vertex
//! sequences are depth-first and breadth-first visiting orders.

use crate::adjacency::{adjacent, undirected};
use vstd::prelude::*;

verus! {

/// What one more edge adds to `b`: `b` itself and every neighbour of a
/// vertex in `b`.
pub open spec fn expand<T>(g: Map<T, Set<T>>, b: Set<T>) -> Set<T> {
    Set::new(|v: T| b.contains(v) || exists|u: T| b.contains(u) && #[trigger] adjacent(g, u, v))
}

/// The vertices that can be reached from `s` by following at most `d`
/// edges, built level by level.
pub open spec fn ball<T>(g: Map<T, Set<T>>, s: T, d: nat) -> Set<T>
    decreases d,
{
    if d == 0 {
        set![s]
    } else {
        expand(g, ball(g, s, (d - 1) as nat))
    }
}

/// `v` can be reached from `s` by following at most `d` edges.
pub open spec fn within<T>(g: Map<T, Set<T>>, s: T, v: T, d: nat) -> bool {
    ball(g, s, d).contains(v)
}

/// `v` can be reached from `s` by following edges; `s` reaches itself,
/// whether or not it is a vertex of `g`.
pub open spec fn reachable<T>(g: Map<T, Set<T>>, s: T, v: T) -> bool {
    exists|d: nat| within(g, s, v, d)
}

/// All that can be reached from `s`.
pub open spec fn reachable_set<T>(g: Map<T, Set<T>>, s: T) -> Set<T> {
    Set::new(|v: T| reachable(g, s, v))
}

/// `d` is the least number of edges on a way from `s` to `v`.
pub open spec fn is_distance<T>(g: Map<T, Set<T>>, s: T, v: T, d: nat) -> bool {
    within(g, s, v, d) && forall|e: nat| within(g, s, v, e) ==> d <= e
}

/// The least number of edges on a way from `s` to `v`, for a `v` that can
/// be reached from `s`.
pub open spec fn distance<T>(g: Map<T, Set<T>>, s: T, v: T) -> nat {
    choose|d: nat| is_distance(g, s, v, d)
}

/// Every neighbour of `r[j]` is among the first `k` entries of `r`.
pub open spec fn exhausted<T>(g: Map<T, Set<T>>, r: Seq<T>, j: int, k: int) -> bool {
    forall|w: T| #[trigger] adjacent(g, r[j], w) ==> r.take(k).contains(w)
}

/// `r[k]` is a neighbour of the earlier `r[p]`, and every entry visited
/// after `r[p]` and before `r[k]` had no unvisited neighbour left: the
/// visit went on from the latest vertex that still had one.
pub open spec fn dfs_step<T>(g: Map<T, Set<T>>, r: Seq<T>, k: int, p: int) -> bool {
    &&& 0 <= p < k
    &&& adjacent(g, r[p], r[k])
    &&& forall|j: int| p < j < k ==> exhausted(g, r, j, k)
}

/// `r[k]` is a neighbour of the earlier `r[p]`, and every entry visited
/// before `r[p]` had no unvisited neighbour left: the visit went on from
/// the earliest vertex that still had one.
pub open spec fn bfs_step<T>(g: Map<T, Set<T>>, r: Seq<T>, k: int, p: int) -> bool {
    &&& 0 <= p < k
    &&& adjacent(g, r[p], r[k])
    &&& forall|j: int| 0 <= j < p ==> exhausted(g, r, j, k)
}

/// Some earlier entry of `r` is the one from which a depth-first traversal
/// goes on to `r[k]`.
pub open spec fn has_dfs_source<T>(g: Map<T, Set<T>>, r: Seq<T>, k: int) -> bool {
    exists|p: int| dfs_step(g, r, k, p)
}

/// Some earlier entry of `r` is the one from which a breadth-first traversal
/// goes on to `r[k]`.
pub open spec fn has_bfs_source<T>(g: Map<T, Set<T>>, r: Seq<T>, k: int) -> bool {
    exists|p: int| bfs_step(g, r, k, p)
}

/// `r[k]` is a neighbour of some earlier entry of `r`.
pub open spec fn has_source<T>(g: Map<T, Set<T>>, r: Seq<T>, k: int) -> bool {
    exists|p: int| 0 <= p < k && #[trigger] adjacent(g, r[p], r[k])
}

/// `r` starts at `s`, holds no vertex twice, and leaves out no neighbour of
/// a vertex it holds.
pub open spec fn is_full_visit<T>(g: Map<T, Set<T>>, s: T, r: Seq<T>) -> bool {
    &&& r.len() > 0
    &&& r[0] == s
    &&& r.no_duplicates()
    &&& forall|j: int| 0 <= j < r.len() ==> exhausted(g, r, j, r.len() as int)
}

/// `r` is an order in which a depth-first traversal from `s` can visit the
/// vertices: a full visit in which each vertex but the first is taken from
/// the neighbours of the latest vertex that has an unvisited one.
pub open spec fn is_dfs_order<T>(g: Map<T, Set<T>>, s: T, r: Seq<T>) -> bool {
    &&& is_full_visit(g, s, r)
    &&& forall|k: int| 1 <= k < r.len() ==> #[trigger] has_dfs_source(g, r, k)
}

/// `r` is an order in which a breadth-first traversal from `s` can visit the
/// vertices: a full visit in which each vertex but the first is taken from
/// the neighbours of the earliest vertex that has an unvisited one.
pub open spec fn is_bfs_order<T>(g: Map<T, Set<T>>, s: T, r: Seq<T>) -> bool {
    &&& is_full_visit(g, s, r)
    &&& forall|k: int| 1 <= k < r.len() ==> #[trigger] has_bfs_source(g, r, k)
}

/// Each entry of `r` but the first is a neighbour of an earlier entry.
pub open spec fn is_connected_order<T>(g: Map<T, Set<T>>, r: Seq<T>) -> bool {
    forall|k: int| 1 <= k < r.len() ==> #[trigger] has_source(g, r, k)
}

/// What is within `d` edges is within any larger number of edges.
pub proof fn lemma_within_monotone<T>(g: Map<T, Set<T>>, s: T, v: T, d: nat, e: nat)
    requires
        within(g, s, v, d),
        d <= e,
    ensures
        within(g, s, v, e),
    decreases e,
{
    if d < e {
        lemma_within_monotone(g, s, v, d, (e - 1) as nat);
    }
}

/// One more edge from a vertex within `d` edges leads to a vertex within
/// `d + 1` edges.
pub proof fn lemma_within_step<T>(g: Map<T, Set<T>>, s: T, u: T, v: T, d: nat)
    requires
        within(g, s, u, d),
        adjacent(g, u, v),
    ensures
        within(g, s, v, d + 1),
{
}

/// A vertex within `d` edges is the start, or the neighbour of a vertex
/// within `d - 1` edges.
pub proof fn lemma_within_cases<T>(g: Map<T, Set<T>>, s: T, v: T, d: nat)
    requires
        within(g, s, v, d),
    ensures
        v == s || (d > 0 && exists|u: T|
            within(g, s, u, (d - 1) as nat) && #[trigger] adjacent(g, u, v)),
    decreases d,
{
    if d > 0 && v != s {
        let b = ball(g, s, (d - 1) as nat);
        if b.contains(v) {
            lemma_within_cases(g, s, v, (d - 1) as nat);
            if d - 1 > 0 {
                let u = choose|u: T|
                    within(g, s, u, (d - 2) as nat) && #[trigger] adjacent(g, u, v);
                lemma_within_monotone(g, s, u, (d - 2) as nat, (d - 1) as nat);
            }
        }
    }
}

/// A vertex that can be reached has a distance.
pub proof fn lemma_distance_exists<T>(g: Map<T, Set<T>>, s: T, v: T, d: nat)
    requires
        within(g, s, v, d),
    ensures
        is_distance(g, s, v, distance(g, s, v)),
        distance(g, s, v) <= d,
    decreases d,
{
    if exists|e: nat| e < d && within(g, s, v, e) {
        let e = choose|e: nat| e < d && within(g, s, v, e);
        lemma_distance_exists(g, s, v, e);
    } else {
        assert forall|e: nat| within(g, s, v, e) implies d <= e by {}
        assert(is_distance(g, s, v, d));
    }
}

/// Appending an entry leaves the first `k` entries, and with them every
/// exhausted vertex, as they were.
pub proof fn lemma_exhausted_push<T>(g: Map<T, Set<T>>, r: Seq<T>, x: T, j: int, k: int)
    requires
        0 <= j < r.len(),
        0 <= k <= r.len(),
    ensures
        exhausted(g, r.push(x), j, k) == exhausted(g, r, j, k),
{
    assert(r.push(x).take(k) =~= r.take(k));
    assert(r.push(x)[j] == r[j]);
}

/// A depth-first order takes each entry but the first from the neighbours
/// of an earlier one.
pub proof fn lemma_dfs_order_connected<T>(g: Map<T, Set<T>>, s: T, r: Seq<T>)
    requires
        is_dfs_order(g, s, r),
    ensures
        is_connected_order(g, r),
{
    assert forall|k: int| 1 <= k < r.len() implies #[trigger] has_source(g, r, k) by {
        assert(has_dfs_source(g, r, k));
    }
}

/// A breadth-first order takes each entry but the first from the neighbours
/// of an earlier one.
pub proof fn lemma_bfs_order_connected<T>(g: Map<T, Set<T>>, s: T, r: Seq<T>)
    requires
        is_bfs_order(g, s, r),
    ensures
        is_connected_order(g, r),
{
    assert forall|k: int| 1 <= k < r.len() implies #[trigger] has_source(g, r, k) by {
        assert(has_bfs_source(g, r, k));
    }
}

/// In an order that starts at `s` and takes each later entry from the
/// neighbours of an earlier one, the entry at index `k` is within `k` edges
/// of `s`.
pub proof fn lemma_entry_within_index<T>(g: Map<T, Set<T>>, s: T, r: Seq<T>, k: int)
    requires
        is_connected_order(g, r),
        0 <= k < r.len(),
        r[0] == s,
    ensures
        within(g, s, r[k], k as nat),
        reachable(g, s, r[k]),
    decreases k,
{
    if k > 0 {
        assert(has_source(g, r, k));
        let p = choose|p: int| 0 <= p < k && #[trigger] adjacent(g, r[p], r[k]);
        lemma_entry_within_index(g, s, r, p);
        lemma_within_monotone(g, s, r[p], p as nat, (k - 1) as nat);
        lemma_within_step(g, s, r[p], r[k], (k - 1) as nat);
    }
}

/// A full visit from `s` holds every vertex that can be reached from `s`.
pub proof fn lemma_full_visit_holds_within<T>(g: Map<T, Set<T>>, s: T, r: Seq<T>, v: T, d: nat)
    requires
        is_full_visit(g, s, r),
        within(g, s, v, d),
    ensures
        r.contains(v),
    decreases d,
{
    lemma_within_cases(g, s, v, d);
    if v != s {
        let u = choose|u: T| within(g, s, u, (d - 1) as nat) && #[trigger] adjacent(g, u, v);
        lemma_full_visit_holds_within(g, s, r, u, (d - 1) as nat);
        let j = choose|j: int| 0 <= j < r.len() && r[j] == u;
        assert(exhausted(g, r, j, r.len() as int));
    }
}

/// Visitation completeness: a depth-first or breadth-first order from `s`
/// (any full visit that takes each later entry from the neighbours of an
/// earlier one) holds exactly the vertices that can be reached from `s`,
/// each once, so its length is the size of the reachable set.
pub proof fn lemma_visits_exactly_reachable<T>(g: Map<T, Set<T>>, s: T, r: Seq<T>)
    requires
        is_full_visit(g, s, r),
        is_connected_order(g, r),
    ensures
        forall|v: T| r.contains(v) <==> reachable(g, s, v),
        r.to_set() == reachable_set(g, s),
        reachable_set(g, s).finite(),
        reachable_set(g, s).len() == r.len(),
{
    assert forall|v: T| r.contains(v) <==> reachable(g, s, v) by {
        if r.contains(v) {
            let k = choose|k: int| 0 <= k < r.len() && r[k] == v;
            lemma_entry_within_index(g, s, r, k);
        }
        if reachable(g, s, v) {
            let d = choose|d: nat| within(g, s, v, d);
            lemma_full_visit_holds_within(g, s, r, v, d);
        }
    }
    r.unique_seq_to_set();
    vstd::seq_lib::seq_to_set_is_finite(r);
}

/// In an undirected graph whatever can be reached from a vertex of the
/// graph is a vertex of the graph.
pub proof fn lemma_reachable_is_vertex<T>(g: Map<T, Set<T>>, s: T, v: T, d: nat)
    requires
        undirected(g),
        g.contains_key(s),
        within(g, s, v, d),
    ensures
        g.contains_key(v),
{
    lemma_within_cases(g, s, v, d);
}

/// A traversal of a connected graph from one of its vertices visits every
/// vertex of the graph, each once.
pub proof fn lemma_connected_graph_visited_whole<T>(g: Map<T, Set<T>>, s: T, r: Seq<T>)
    requires
        undirected(g),
        g.contains_key(s),
        forall|v: T| g.contains_key(v) ==> reachable(g, s, v),
        is_full_visit(g, s, r),
        is_connected_order(g, r),
    ensures
        r.no_duplicates(),
        r.to_set() == g.dom(),
        r.len() == g.dom().len(),
{
    lemma_visits_exactly_reachable(g, s, r);
    assert forall|v: T| reachable(g, s, v) implies g.contains_key(v) by {
        let d = choose|d: nat| within(g, s, v, d);
        lemma_reachable_is_vertex(g, s, v, d);
    }
}

/// Where `s` has no neighbour but itself, and so where `s` is no vertex of
/// the graph or a vertex without edges, a traversal from `s` visits `s`
/// and nothing else.
pub proof fn lemma_lone_start<T>(g: Map<T, Set<T>>, s: T, r: Seq<T>)
    requires
        is_full_visit(g, s, r),
        is_connected_order(g, r),
        forall|w: T| adjacent(g, s, w) ==> w == s,
    ensures
        r == seq![s],
{
    assert forall|v: T, d: nat| within(g, s, v, d) implies v == s by {
        lemma_lone_start_within(g, s, v, d);
    }
    if r.len() > 1 {
        lemma_entry_within_index(g, s, r, 1);
    }
}

/// Where `s` has no neighbour but itself, nothing but `s` can be reached
/// from it.
proof fn lemma_lone_start_within<T>(g: Map<T, Set<T>>, s: T, v: T, d: nat)
    requires
        within(g, s, v, d),
        forall|w: T| adjacent(g, s, w) ==> w == s,
    ensures
        v == s,
    decreases d,
{
    lemma_within_cases(g, s, v, d);
    if v != s {
        let u = choose|u: T| within(g, s, u, (d - 1) as nat) && #[trigger] adjacent(g, u, v);
        lemma_lone_start_within(g, s, u, (d - 1) as nat);
    }
}

/// The index of the entry from which a breadth-first order goes on to
/// `r[k]`.
pub open spec fn bfs_source<T>(g: Map<T, Set<T>>, r: Seq<T>, k: int) -> int {
    choose|p: int| bfs_step(g, r, k, p)
}

/// The number of edges that a breadth-first order follows from its first
/// entry to `r[k]`.
pub open spec fn bfs_depth<T>(g: Map<T, Set<T>>, r: Seq<T>, k: int) -> nat
    decreases k,
{
    if k <= 0 {
        0
    } else {
        let p = bfs_source(g, r, k);
        if 0 <= p < k {
            bfs_depth(g, r, p) + 1
        } else {
            0
        }
    }
}

/// In a breadth-first order no entry that has `r[k]` as a neighbour comes
/// before the one from which the order goes on to `r[k]`.
pub proof fn lemma_bfs_source_first<T>(g: Map<T, Set<T>>, s: T, r: Seq<T>, k: int, a: int)
    requires
        is_bfs_order(g, s, r),
        1 <= k < r.len(),
        0 <= a < r.len(),
        adjacent(g, r[a], r[k]),
    ensures
        bfs_step(g, r, k, bfs_source(g, r, k)),
        bfs_source(g, r, k) <= a,
{
    assert(has_bfs_source(g, r, k));
    let p = bfs_source(g, r, k);
    if a < p {
        assert(exhausted(g, r, a, k));
    }
}

/// Along a breadth-first order the number of edges followed never goes
/// down.
pub proof fn lemma_bfs_depth_monotone<T>(g: Map<T, Set<T>>, s: T, r: Seq<T>, a: int, b: int)
    requires
        is_bfs_order(g, s, r),
        0 <= a <= b < r.len(),
    ensures
        bfs_depth(g, r, a) <= bfs_depth(g, r, b),
    decreases b,
{
    if 0 < a < b {
        assert(has_bfs_source(g, r, a));
        assert(has_bfs_source(g, r, b));
        let pa = bfs_source(g, r, a);
        let pb = bfs_source(g, r, b);
        if pb < pa {
            assert(exhausted(g, r, pb, a));
        }
        lemma_bfs_depth_monotone(g, s, r, pa, pb);
    }
}

/// The entry at index `k` of a breadth-first order from `s` is within as
/// many edges of `s` as the order followed to it.
pub proof fn lemma_bfs_depth_within<T>(g: Map<T, Set<T>>, s: T, r: Seq<T>, k: int)
    requires
        is_bfs_order(g, s, r),
        0 <= k < r.len(),
    ensures
        within(g, s, r[k], bfs_depth(g, r, k)),
    decreases k,
{
    if k > 0 {
        assert(has_bfs_source(g, r, k));
        let p = bfs_source(g, r, k);
        lemma_bfs_depth_within(g, s, r, p);
        lemma_within_step(g, s, r[p], r[k], bfs_depth(g, r, p));
    }
}

/// A vertex within `d` edges of `s` stands in a breadth-first order from
/// `s` at an index to which the order followed at most `d` edges.
pub proof fn lemma_bfs_depth_least<T>(g: Map<T, Set<T>>, s: T, r: Seq<T>, v: T, d: nat) -> (k: int)
    requires
        is_bfs_order(g, s, r),
        within(g, s, v, d),
    ensures
        0 <= k < r.len(),
        r[k] == v,
        bfs_depth(g, r, k) <= d,
    decreases d,
{
    lemma_within_cases(g, s, v, d);
    if v == s {
        0
    } else {
        let u = choose|u: T| within(g, s, u, (d - 1) as nat) && #[trigger] adjacent(g, u, v);
        let a = lemma_bfs_depth_least(g, s, r, u, (d - 1) as nat);
        lemma_full_visit_holds_within(g, s, r, v, d);
        let b = choose|b: int| 0 <= b < r.len() && r[b] == v;
        lemma_bfs_source_first(g, s, r, b, a);
        lemma_bfs_depth_monotone(g, s, r, bfs_source(g, r, b), a);
        b
    }
}

/// In a breadth-first order from `s` the number of edges followed to an
/// entry is its distance from `s`.
pub proof fn lemma_bfs_depth_is_distance<T>(g: Map<T, Set<T>>, s: T, r: Seq<T>, k: int)
    requires
        is_bfs_order(g, s, r),
        0 <= k < r.len(),
    ensures
        is_distance(g, s, r[k], bfs_depth(g, r, k)),
        distance(g, s, r[k]) == bfs_depth(g, r, k),
{
    let d = bfs_depth(g, r, k);
    lemma_bfs_depth_within(g, s, r, k);
    assert forall|e: nat| within(g, s, r[k], e) implies d <= e by {
        let i = lemma_bfs_depth_least(g, s, r, r[k], e);
    }
    lemma_distance_exists(g, s, r[k], d);
}

/// Level order: scanned from its first entry to its last, a breadth-first
/// order from `s` never comes to a vertex that is nearer to `s` than one
/// before it.
pub proof fn lemma_bfs_order_by_distance<T>(g: Map<T, Set<T>>, s: T, r: Seq<T>)
    requires
        is_bfs_order(g, s, r),
    ensures
        forall|i: int, j: int|
            0 <= i <= j < r.len() ==> distance(g, s, r[i]) <= distance(g, s, r[j]),
{
    assert forall|i: int, j: int| 0 <= i <= j < r.len() implies distance(g, s, r[i]) <= distance(
        g,
        s,
        r[j],
    ) by {
        lemma_bfs_depth_is_distance(g, s, r, i);
        lemma_bfs_depth_is_distance(g, s, r, j);
        lemma_bfs_depth_monotone(g, s, r, i, j);
    }
}

} // verus!
