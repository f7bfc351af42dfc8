//! The bookkeeping of a traversal in progress: what holds of the visited
//! sequence and of the stack or queue of vertices still to look at, and
//! why each step of the traversal keeps it.

use crate::adjacency::{adjacent, neighbors};
use crate::search::{
    bfs_step, dfs_step, exhausted, has_bfs_source, has_dfs_source, is_bfs_order, is_dfs_order,
    lemma_exhausted_push,
};
use vstd::prelude::*;

verus! {

/// The state of a depth-first traversal from `s` that has visited `r`.
///
/// `plan` is the stack, bottom first: each entry pairs a vertex with the
/// index in `r` of the visited vertex whose neighbour it is (`-1` for the
/// start vertex, which nothing led to). `rest` holds the neighbours of the
/// vertex visited last that are not on the stack yet.
pub open spec fn dfs_state<T>(
    g: Map<T, Set<T>>,
    s: T,
    r: Seq<T>,
    plan: Seq<(int, T)>,
    rest: Set<T>,
) -> bool {
    &&& r.no_duplicates()
    &&& r.len() == 0 ==> plan == seq![(-1int, s)]
    &&& r.len() > 0 ==> r[0] == s
    &&& r.len() > 0 ==> forall|i: int|
        0 <= i < plan.len() ==> 0 <= (#[trigger] plan[i]).0 < r.len() && adjacent(
            g,
            r[plan[i].0],
            plan[i].1,
        )
    &&& forall|i: int, j: int| 0 <= i <= j < plan.len() ==> plan[i].0 <= plan[j].0
    &&& forall|k: int| 1 <= k < r.len() ==> #[trigger] has_dfs_source(g, r, k)
    &&& forall|j: int, w: T|
        0 <= j < r.len() && #[trigger] adjacent(g, r[j], w) ==> r.contains(w) || plan.contains(
            (j, w),
        ) || (j == r.len() - 1 && rest.contains(w))
}

/// Before anything is visited, only the start vertex is on the stack.
pub proof fn lemma_dfs_start<T>(g: Map<T, Set<T>>, s: T)
    ensures
        dfs_state(g, s, Seq::<T>::empty(), seq![(-1int, s)], Set::<T>::empty()),
{
}

/// An entry of `r` found by a depth-first step keeps that step when `r`
/// grows.
proof fn lemma_dfs_source_push<T>(g: Map<T, Set<T>>, r: Seq<T>, x: T, k: int)
    requires
        1 <= k < r.len(),
        has_dfs_source(g, r, k),
    ensures
        has_dfs_source(g, r.push(x), k),
{
    let p = choose|p: int| dfs_step(g, r, k, p);
    let r2 = r.push(x);
    assert forall|j: int| p < j < k implies exhausted(g, r2, j, k) by {
        lemma_exhausted_push(g, r, x, j, k);
    }
    assert(dfs_step(g, r2, k, p));
}

/// Taking a visited vertex off the stack changes nothing else.
pub proof fn lemma_dfs_skip<T>(g: Map<T, Set<T>>, s: T, r: Seq<T>, plan: Seq<(int, T)>)
    requires
        dfs_state(g, s, r, plan, Set::empty()),
        plan.len() > 0,
        r.contains(plan.last().1),
    ensures
        dfs_state(g, s, r, plan.drop_last(), Set::empty()),
{
    let plan2 = plan.drop_last();
    assert forall|j: int, w: T| 0 <= j < r.len() && #[trigger] adjacent(g, r[j], w) implies (
    r.contains(w) || plan2.contains((j, w))) by {
        if !r.contains(w) {
            let i = choose|i: int| 0 <= i < plan.len() && plan[i] == (j, w);
            assert(plan2[i] == (j, w));
        }
    }
}

/// Taking an unvisited vertex off the stack and visiting it is a
/// depth-first step; its neighbours are then still to be put on the stack.
pub proof fn lemma_dfs_visit<T>(g: Map<T, Set<T>>, s: T, r: Seq<T>, plan: Seq<(int, T)>)
    requires
        dfs_state(g, s, r, plan, Set::empty()),
        plan.len() > 0,
        !r.contains(plan.last().1),
    ensures
        dfs_state(g, s, r.push(plan.last().1), plan.drop_last(), neighbors(g, plan.last().1)),
{
    let n = r.len() as int;
    let x = plan.last().1;
    let o = plan.last().0;
    let r2 = r.push(x);
    let plan2 = plan.drop_last();
    let rest = neighbors(g, x);
    assert(r2.take(n) =~= r);
    if n > 0 {
        // Nothing visited after `r[o]` has a neighbour left on the stack:
        // its entries would lie above the entry of `x`.
        assert forall|j: int| o < j < n implies exhausted(g, r2, j, n) by {
            assert forall|w: T| #[trigger] adjacent(g, r2[j], w) implies r2.take(n).contains(w) by {
            }
        }
        assert(dfs_step(g, r2, n, o));
    }
    assert forall|k: int| 1 <= k < r2.len() implies #[trigger] has_dfs_source(g, r2, k) by {
        if k < n {
            lemma_dfs_source_push(g, r, x, k);
        }
    }
    assert forall|j: int, w: T| 0 <= j < r2.len() && #[trigger] adjacent(g, r2[j], w) implies (
    r2.contains(w) || plan2.contains((j, w)) || (j == r2.len() - 1 && rest.contains(w))) by {
        if j < n && !r.contains(w) {
            let i = choose|i: int| 0 <= i < plan.len() && plan[i] == (j, w);
            if i < plan.len() - 1 {
                assert(plan2[i] == (j, w));
            }
        }
    }
}

/// Putting a neighbour of the vertex visited last on the stack.
pub proof fn lemma_dfs_push<T>(
    g: Map<T, Set<T>>,
    s: T,
    r: Seq<T>,
    plan: Seq<(int, T)>,
    rest: Set<T>,
    w: T,
)
    requires
        dfs_state(g, s, r, plan, rest),
        r.len() > 0,
        adjacent(g, r.last(), w),
    ensures
        dfs_state(g, s, r, plan.push((r.len() - 1, w)), rest.remove(w)),
{
    let n = r.len() as int;
    let plan2 = plan.push((n - 1, w));
    let rest2 = rest.remove(w);
    assert forall|j: int, v: T| 0 <= j < r.len() && #[trigger] adjacent(g, r[j], v) implies (
    r.contains(v) || plan2.contains((j, v)) || (j == r.len() - 1 && rest2.contains(v))) by {
        if plan.contains((j, v)) {
            let i = choose|i: int| 0 <= i < plan.len() && plan[i] == (j, v);
            assert(plan2[i] == (j, v));
        } else if j == n - 1 && v == w {
            assert(plan2[plan.len() as int] == (j, v));
        }
    }
}

/// With the stack empty, what was visited is a depth-first order.
pub proof fn lemma_dfs_done<T>(g: Map<T, Set<T>>, s: T, r: Seq<T>)
    requires
        dfs_state(g, s, r, Seq::empty(), Set::empty()),
    ensures
        is_dfs_order(g, s, r),
{
    assert(r.len() > 0) by {
        if r.len() == 0 {
            assert(seq![(-1int, s)].len() == 1);
        }
    }
    assert(r.take(r.len() as int) =~= r);
}

/// The state of a breadth-first traversal from `s`.
///
/// `d` holds the vertices found so far, in the order in which they were
/// found: the visited ones and behind them the queue. The first `h` of them
/// are visited. `rest` holds the neighbours of the vertex visited last that
/// the traversal has not looked at yet.
pub open spec fn bfs_state<T>(g: Map<T, Set<T>>, s: T, d: Seq<T>, h: int, rest: Set<T>) -> bool {
    &&& d.len() > 0
    &&& d[0] == s
    &&& d.no_duplicates()
    &&& 0 <= h <= d.len()
    &&& forall|k: int| 1 <= k < d.len() ==> #[trigger] has_bfs_source(g, d, k)
    &&& forall|j: int, w: T|
        0 <= j < h && #[trigger] adjacent(g, d[j], w) ==> d.contains(w) || (j == h - 1
            && rest.contains(w))
}

/// Before anything is visited, only the start vertex is found.
pub proof fn lemma_bfs_start<T>(g: Map<T, Set<T>>, s: T)
    ensures
        bfs_state(g, s, seq![s], 0, Set::<T>::empty()),
{
}

/// Visiting the vertex at the head of the queue; its neighbours are then
/// still to be looked at.
pub proof fn lemma_bfs_take<T>(g: Map<T, Set<T>>, s: T, d: Seq<T>, h: int)
    requires
        bfs_state(g, s, d, h, Set::empty()),
        h < d.len(),
    ensures
        bfs_state(g, s, d, h + 1, neighbors(g, d[h])),
{
}

/// Looking at a neighbour that was found before changes nothing else.
pub proof fn lemma_bfs_seen<T>(g: Map<T, Set<T>>, s: T, d: Seq<T>, h: int, rest: Set<T>, w: T)
    requires
        bfs_state(g, s, d, h, rest),
        d.contains(w),
    ensures
        bfs_state(g, s, d, h, rest.remove(w)),
{
}

/// Finding a new neighbour of the vertex visited last is a breadth-first
/// step.
pub proof fn lemma_bfs_discover<T>(
    g: Map<T, Set<T>>,
    s: T,
    d: Seq<T>,
    h: int,
    rest: Set<T>,
    w: T,
)
    requires
        bfs_state(g, s, d, h, rest),
        h >= 1,
        adjacent(g, d[h - 1], w),
        !d.contains(w),
    ensures
        bfs_state(g, s, d.push(w), h, rest.remove(w)),
{
    let n = d.len() as int;
    let d2 = d.push(w);
    let rest2 = rest.remove(w);
    assert(d2.take(n) =~= d);
    assert forall|k: int| 1 <= k < d2.len() implies #[trigger] has_bfs_source(g, d2, k) by {
        if k < n {
            assert(has_bfs_source(g, d, k));
            let p = choose|p: int| bfs_step(g, d, k, p);
            assert forall|j: int| 0 <= j < p implies exhausted(g, d2, j, k) by {
                lemma_exhausted_push(g, d, w, j, k);
            }
            assert(bfs_step(g, d2, k, p));
        } else {
            assert(bfs_step(g, d2, n, h - 1));
        }
    }
    assert forall|j: int, v: T| 0 <= j < h && #[trigger] adjacent(g, d2[j], v) implies (
    d2.contains(v) || (j == h - 1 && rest2.contains(v))) by {
        if !d.contains(v) && v == w {
            assert(d2[n] == v);
        }
    }
}

/// With the queue empty, what was visited is a breadth-first order.
pub proof fn lemma_bfs_done<T>(g: Map<T, Set<T>>, s: T, d: Seq<T>)
    requires
        bfs_state(g, s, d, d.len() as int, Set::empty()),
    ensures
        is_bfs_order(g, s, d),
{
    assert(d.take(d.len() as int) =~= d);
}

} // verus!
