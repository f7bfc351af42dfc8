//! The graph itself: an adjacency list held in hash maps and hash sets,
//! with vertex and edge insertion and the two traversals.

use crate::adjacency::{
    adjacent, lemma_add_edge_keeps_undirected, lemma_add_edge_symmetric,
    lemma_add_vertex_keeps_undirected, neighbors, undirected, with_edge, with_vertex,
};
use crate::frontier::{
    bfs_state, dfs_state, lemma_bfs_discover, lemma_bfs_done, lemma_bfs_seen, lemma_bfs_start,
    lemma_bfs_take, lemma_dfs_done, lemma_dfs_push, lemma_dfs_skip, lemma_dfs_start,
    lemma_dfs_visit,
};
use crate::search::{
    distance, is_bfs_order, is_dfs_order, lemma_bfs_order_by_distance,
    lemma_bfs_order_connected, lemma_dfs_order_connected, lemma_lone_start,
    lemma_visits_exactly_reachable, reachable, reachable_set,
};
use std::collections::HashMap;
use std::collections::HashSet;
use std::collections::VecDeque;
use std::hash::Hash;
use vstd::prelude::*;
use vstd::std_specs::hash::obeys_key_model;

verus! {

broadcast use vstd::std_specs::hash::group_hash_axioms;

/// An undirected, unweighted graph over vertices of type `T`.
///
/// Its view is the map from each vertex to the set of its neighbours. A
/// graph is always undirected: whatever is a neighbour of a vertex has that
/// vertex among its own neighbours.
#[derive(Debug)]
pub struct Graph<T> {
    adj_list: HashMap<T, HashSet<T>>,
}

impl<T> View for Graph<T> {
    type V = Map<T, Set<T>>;

    closed spec fn view(&self) -> Map<T, Set<T>> {
        adjacency(self.adj_list@)
    }
}

/// The neighbour sets that the hash sets of an adjacency list stand for.
spec fn adjacency<T>(adj: Map<T, HashSet<T>>) -> Map<T, Set<T>> {
    Map::new(|v: T| adj.contains_key(v), |v: T| adj[v]@)
}

impl<T> Graph<T> {
    /// What holds of every graph: its vertices can key a hash table, and
    /// each edge is stored on both of its ends.
    #[verifier::type_invariant]
    spec fn well_formed(self) -> bool {
        &&& obeys_key_model::<T>()
        &&& undirected(self@)
    }
}

/// All that a traversal from `start` can ever visit.
spec fn universe<T>(g: Map<T, Set<T>>, start: T) -> Set<T> {
    g.dom().insert(start)
}

impl<T: Eq + Hash + Copy> Graph<T> {
    /// The graph without vertices. `T` has to be a type that can key a hash
    /// table: equal values are identical and hash alike.
    pub fn new() -> (g: Self)
        requires
            obeys_key_model::<T>(),
        ensures
            g@ == Map::<T, Set<T>>::empty(),
            undirected(g@),
    {
        Graph { adj_list: HashMap::new() }
    }

    /// Makes `vertex` a vertex of the graph. One that is there already
    /// keeps its neighbours.
    pub fn add_vertex(&mut self, vertex: T)
        ensures
            final(self)@ == with_vertex(old(self)@, vertex),
            old(self)@.contains_key(vertex) ==> final(self)@ == old(self)@,
            undirected(final(self)@),
    {
        proof {
            use_type_invariant(&*self);
            lemma_add_vertex_keeps_undirected(self@, vertex);
        }
        let mut adj = HashMap::new();
        std::mem::swap(&mut adj, &mut self.adj_list);
        adj.entry(vertex).or_insert(HashSet::new());
        assert(adjacency(adj@) =~~= with_vertex(old(self)@, vertex));
        self.adj_list = adj;
        assert(old(self)@.contains_key(vertex) ==> with_vertex(old(self)@, vertex) =~~= old(
            self,
        )@);
    }

    /// Joins `src` and `dest` by an edge, making each a vertex where it is
    /// none yet. An edge that is there already is left as it is.
    pub fn add_edge(&mut self, src: T, dest: T)
        ensures
            final(self)@ == with_edge(old(self)@, src, dest),
            adjacent(final(self)@, src, dest),
            adjacent(final(self)@, dest, src),
            undirected(final(self)@),
    {
        proof {
            use_type_invariant(&*self);
            lemma_add_edge_keeps_undirected(self@, src, dest);
            lemma_add_edge_symmetric(self@, src, dest);
        }
        let mut adj = HashMap::new();
        std::mem::swap(&mut adj, &mut self.adj_list);
        adj.entry(src).or_insert(HashSet::new()).insert(dest);
        adj.entry(dest).or_insert(HashSet::new()).insert(src);
        assert(adjacency(adj@) =~~= with_edge(old(self)@, src, dest));
        self.adj_list = adj;
    }

    /// The vertices that can be reached from `start`, in the order in which
    /// a depth-first traversal visits them. The traversal keeps its own
    /// stack, so its depth is not bounded by the call stack.
    pub fn dfs(&self, start: T) -> (result: Vec<T>)
        ensures
            is_dfs_order(self@, start, result@),
            result@.len() > 0,
            result@[0] == start,
            result@.no_duplicates(),
            forall|v: T| result@.contains(v) <==> reachable(self@, start, v),
            result@.len() == reachable_set(self@, start).len(),
            (forall|w: T| adjacent(self@, start, w) ==> w == start) ==> result@ == seq![start],
            !self@.contains_key(start) ==> result@ == seq![start],
    {
        proof {
            use_type_invariant(self);
        }
        let ghost g = self@;
        let mut visited: HashSet<T> = HashSet::new();
        let mut stack: Vec<T> = vec![start];
        let mut result: Vec<T> = Vec::new();
        let ghost mut plan: Seq<(int, T)> = seq![(-1int, start)];
        proof {
            lemma_dfs_start(g, start);
            assert(g.dom() =~= self.adj_list@.dom());
        }

        loop
            invariant
                obeys_key_model::<T>(),
                g == self@,
                undirected(g),
                visited@ == result@.to_set(),
                visited@.subset_of(universe(g, start)),
                universe(g, start).finite(),
                plan.len() == stack@.len(),
                forall|i: int| 0 <= i < plan.len() ==> (#[trigger] plan[i]).1 == stack@[i],
                dfs_state(g, start, result@, plan, Set::empty()),
            ensures
                is_dfs_order(g, start, result@),
            decreases universe(g, start).len() - visited@.len(), stack@.len(),
        {
            proof {
                vstd::set_lib::lemma_len_subset(visited@, universe(g, start));
            }
            let node = match stack.pop() {
                Some(node) => node,
                None => {
                    proof {
                        lemma_dfs_done(g, start, result@);
                    }
                    break ;
                },
            };
            let ghost plan0 = plan;
            proof {
                plan = plan0.drop_last();
            }
            if visited.insert(node) {
                proof {
                    lemma_dfs_visit(g, start, result@, plan0);
                    result@.lemma_push_to_set_commute(node);
                }
                result.push(node);
                let ghost mut rest: Set<T> = neighbors(g, node);
                proof {
                    vstd::set_lib::lemma_len_subset(visited@, universe(g, start));
                }
                if let Some(neighbors) = self.adj_list.get(&node) {
                    for neighbor in it: neighbors.iter()
                        invariant
                            obeys_key_model::<T>(),
                            g == self@,
                            result@.len() > 0,
                            result@.last() == node,
                            g.contains_key(node),
                            g[node] == neighbors@,
                            it.seq().unref().to_set() == neighbors@,
                            plan.len() == stack@.len(),
                            forall|i: int|
                                0 <= i < plan.len() ==> (#[trigger] plan[i]).1 == stack@[i],
                            dfs_state(g, start, result@, plan, rest),
                            forall|w: T|
                                rest.contains(w) ==> exists|i: int|
                                    it.index() <= i < it.seq().len() && *(#[trigger] it.seq()[i])
                                        == w,
                    {
                        proof {
                            lemma_dfs_push(g, start, result@, plan, rest, *neighbor);
                            plan = plan.push((result@.len() - 1, *neighbor));
                            rest = rest.remove(*neighbor);
                        }
                        stack.push(*neighbor);
                    }
                }
            } else {
                proof {
                    lemma_dfs_skip(g, start, result@, plan0);
                }
            }
        }
        proof {
            lemma_dfs_order_connected(g, start, result@);
            lemma_visits_exactly_reachable(g, start, result@);
            if forall|w: T| adjacent(g, start, w) ==> w == start {
                lemma_lone_start(g, start, result@);
            }
        }
        result
    }

    /// The vertices that can be reached from `start`, in the order in which
    /// a breadth-first traversal visits them: nearer ones first.
    pub fn bfs(&self, start: T) -> (result: Vec<T>)
        ensures
            is_bfs_order(self@, start, result@),
            result@.len() > 0,
            result@[0] == start,
            result@.no_duplicates(),
            forall|v: T| result@.contains(v) <==> reachable(self@, start, v),
            result@.len() == reachable_set(self@, start).len(),
            forall|i: int, j: int|
                0 <= i <= j < result@.len() ==> distance(self@, start, result@[i]) <= distance(
                    self@,
                    start,
                    result@[j],
                ),
            (forall|w: T| adjacent(self@, start, w) ==> w == start) ==> result@ == seq![start],
            !self@.contains_key(start) ==> result@ == seq![start],
    {
        proof {
            use_type_invariant(self);
        }
        let ghost g = self@;
        let mut visited: HashSet<T> = HashSet::new();
        let mut queue: VecDeque<T> = VecDeque::new();
        let mut result: Vec<T> = Vec::new();

        visited.insert(start);
        queue.push_back(start);
        proof {
            lemma_bfs_start(g, start);
            assert(g.dom() =~= self.adj_list@.dom());
        }

        loop
            invariant
                obeys_key_model::<T>(),
                g == self@,
                undirected(g),
                visited@ == (result@ + queue@).to_set(),
                visited@.subset_of(universe(g, start)),
                universe(g, start).finite(),
                bfs_state(g, start, result@ + queue@, result@.len() as int, Set::empty()),
            ensures
                is_bfs_order(g, start, result@),
            decreases universe(g, start).len() - result@.len(),
        {
            let ghost found = result@ + queue@;
            proof {
                vstd::set_lib::lemma_len_subset(visited@, universe(g, start));
                found.unique_seq_to_set();
            }
            let node = match queue.pop_front() {
                Some(node) => node,
                None => {
                    proof {
                        lemma_bfs_done(g, start, result@);
                    }
                    break ;
                },
            };
            proof {
                lemma_bfs_take(g, start, found, result@.len() as int);
            }
            result.push(node);
            let ghost mut rest: Set<T> = neighbors(g, node);
            proof {
                assert(result@ + queue@ =~= found);
            }

            if let Some(neighbors) = self.adj_list.get(&node) {
                for neighbor in it: neighbors.iter()
                    invariant
                        obeys_key_model::<T>(),
                        g == self@,
                        undirected(g),
                        result@.len() > 0,
                        result@.last() == node,
                        g.contains_key(node),
                        g[node] == neighbors@,
                        it.seq().unref().to_set() == neighbors@,
                        visited@ == (result@ + queue@).to_set(),
                        visited@.subset_of(universe(g, start)),
                        bfs_state(g, start, result@ + queue@, result@.len() as int, rest),
                        forall|w: T|
                            rest.contains(w) ==> exists|i: int|
                                it.index() <= i < it.seq().len() && *(#[trigger] it.seq()[i]) == w,
                {
                    let ghost found = result@ + queue@;
                    proof {
                        assert(adjacent(g, node, *neighbor));
                    }
                    if visited.insert(*neighbor) {
                        proof {
                            lemma_bfs_discover(
                                g,
                                start,
                                found,
                                result@.len() as int,
                                rest,
                                *neighbor,
                            );
                            found.lemma_push_to_set_commute(*neighbor);
                        }
                        queue.push_back(*neighbor);
                    } else {
                        proof {
                            lemma_bfs_seen(g, start, found, result@.len() as int, rest, *neighbor);
                        }
                    }
                    proof {
                        rest = rest.remove(*neighbor);
                    }
                }
            }
        }
        proof {
            lemma_bfs_order_connected(g, start, result@);
            lemma_visits_exactly_reachable(g, start, result@);
            lemma_bfs_order_by_distance(g, start, result@);
            if forall|w: T| adjacent(g, start, w) ==> w == start {
                lemma_lone_start(g, start, result@);
            }
        }
        result
    }
}

} // verus!
