use graph_traversal::graph::Graph;
use std::collections::HashMap;
use std::collections::HashSet;

fn build(vertices: &[u32], edges: &[(u32, u32)]) -> Graph<u32> {
    let mut graph: Graph<u32> = Graph::new();
    for v in vertices {
        graph.add_vertex(*v);
    }
    for (a, b) in edges {
        graph.add_edge(*a, *b);
    }
    graph
}

fn adjacency(edges: &[(u32, u32)]) -> HashMap<u32, HashSet<u32>> {
    let mut adj: HashMap<u32, HashSet<u32>> = HashMap::new();
    for (a, b) in edges {
        adj.entry(*a).or_default().insert(*b);
        adj.entry(*b).or_default().insert(*a);
    }
    adj
}

fn adjacent(adj: &HashMap<u32, HashSet<u32>>, a: u32, b: u32) -> bool {
    adj.get(&a).map_or(false, |set| set.contains(&b))
}

/// Every neighbour of `order[j]` is among the first `k` entries.
fn exhausted(adj: &HashMap<u32, HashSet<u32>>, order: &[u32], j: usize, k: usize) -> bool {
    match adj.get(&order[j]) {
        Some(set) => set.iter().all(|w| order[..k].contains(w)),
        None => true,
    }
}

fn is_full_visit(adj: &HashMap<u32, HashSet<u32>>, start: u32, order: &[u32]) -> bool {
    let distinct: HashSet<u32> = order.iter().copied().collect();
    !order.is_empty()
        && order[0] == start
        && distinct.len() == order.len()
        && (0..order.len()).all(|j| exhausted(adj, order, j, order.len()))
}

fn is_dfs_order(adj: &HashMap<u32, HashSet<u32>>, start: u32, order: &[u32]) -> bool {
    is_full_visit(adj, start, order)
        && (1..order.len()).all(|k| {
            (0..k).any(|p| {
                adjacent(adj, order[p], order[k])
                    && (p + 1..k).all(|j| exhausted(adj, order, j, k))
            })
        })
}

fn is_bfs_order(adj: &HashMap<u32, HashSet<u32>>, start: u32, order: &[u32]) -> bool {
    is_full_visit(adj, start, order)
        && (1..order.len()).all(|k| {
            (0..k).any(|p| {
                adjacent(adj, order[p], order[k]) && (0..p).all(|j| exhausted(adj, order, j, k))
            })
        })
}

/// Distances from `start`, found level by level.
fn levels(adj: &HashMap<u32, HashSet<u32>>, start: u32) -> HashMap<u32, usize> {
    let mut dist: HashMap<u32, usize> = HashMap::new();
    dist.insert(start, 0);
    let mut level: Vec<u32> = vec![start];
    let mut depth: usize = 0;
    while !level.is_empty() {
        depth += 1;
        let mut next: Vec<u32> = Vec::new();
        for u in &level {
            if let Some(set) = adj.get(u) {
                for w in set {
                    if !dist.contains_key(w) {
                        dist.insert(*w, depth);
                        next.push(*w);
                    }
                }
            }
        }
        level = next;
    }
    dist
}

fn sorted(order: &[u32]) -> Vec<u32> {
    let mut copy: Vec<u32> = order.to_vec();
    copy.sort();
    copy
}

const HOUSE: [(u32, u32); 5] = [(1, 2), (1, 3), (2, 4), (3, 5), (4, 5)];

#[test]
fn empty_graph_traversals_return_the_start_alone() {
    let graph: Graph<u32> = Graph::new();
    assert_eq!(graph.dfs(7), vec![7]);
    assert_eq!(graph.bfs(7), vec![7]);
}

#[test]
fn single_vertex_without_edges() {
    let graph = build(&[9], &[]);
    assert_eq!(graph.dfs(9), vec![9]);
    assert_eq!(graph.bfs(9), vec![9]);
}

#[test]
fn unknown_start_gives_singleton() {
    let graph = build(&[1, 2, 3, 4, 5], &HOUSE);
    assert_eq!(graph.dfs(42), vec![42]);
    assert_eq!(graph.bfs(42), vec![42]);
}

#[test]
fn add_vertex_twice_keeps_neighbours() {
    let mut graph: Graph<u32> = Graph::new();
    graph.add_vertex(1);
    graph.add_edge(1, 2);
    let once: String = format!("{:?}", graph.bfs(1));
    graph.add_vertex(1);
    graph.add_vertex(1);
    assert_eq!(format!("{:?}", graph.bfs(1)), once);
    assert_eq!(graph.bfs(1), vec![1, 2]);
    assert_eq!(graph.dfs(2), vec![2, 1]);
}

#[test]
fn add_vertex_alone_adds_no_edge() {
    let mut graph: Graph<u32> = Graph::new();
    graph.add_vertex(1);
    graph.add_vertex(2);
    assert_eq!(graph.dfs(1), vec![1]);
    assert_eq!(graph.bfs(2), vec![2]);
}

#[test]
fn add_edge_is_symmetric() {
    let mut graph: Graph<u32> = Graph::new();
    graph.add_edge(10, 20);
    assert_eq!(graph.bfs(10), vec![10, 20]);
    assert_eq!(graph.bfs(20), vec![20, 10]);
    assert_eq!(graph.dfs(10), vec![10, 20]);
    assert_eq!(graph.dfs(20), vec![20, 10]);
}

#[test]
fn add_edge_creates_missing_vertices() {
    let mut graph: Graph<u32> = Graph::new();
    graph.add_vertex(1);
    graph.add_edge(1, 2);
    graph.add_edge(3, 2);
    assert_eq!(graph.bfs(1), vec![1, 2, 3]);
    assert_eq!(graph.dfs(3), vec![3, 2, 1]);
}

#[test]
fn add_edge_twice_changes_nothing() {
    let mut graph: Graph<u32> = Graph::new();
    graph.add_edge(1, 2);
    graph.add_edge(1, 2);
    graph.add_edge(2, 1);
    assert_eq!(graph.dfs(1), vec![1, 2]);
    assert_eq!(graph.bfs(1), vec![1, 2]);
}

#[test]
fn self_loop_is_kept_and_visited_once() {
    let mut graph: Graph<u32> = Graph::new();
    graph.add_edge(4, 4);
    assert_eq!(graph.dfs(4), vec![4]);
    assert_eq!(graph.bfs(4), vec![4]);
    graph.add_edge(4, 5);
    assert_eq!(graph.dfs(4), vec![4, 5]);
    assert_eq!(graph.bfs(5), vec![5, 4]);
}

#[test]
fn house_bfs_goes_level_by_level() {
    let graph = build(&[1, 2, 3, 4, 5], &HOUSE);
    let order: Vec<u32> = graph.bfs(1);
    assert_eq!(order.len(), 5);
    assert_eq!(order[0], 1);
    assert_eq!(sorted(&order[1..3]), vec![2, 3]);
    assert_eq!(sorted(&order[3..5]), vec![4, 5]);
    assert!(is_bfs_order(&adjacency(&HOUSE), 1, &order));
}

#[test]
fn house_dfs_is_a_depth_first_order() {
    let graph = build(&[1, 2, 3, 4, 5], &HOUSE);
    let order: Vec<u32> = graph.dfs(1);
    assert_eq!(order[0], 1);
    assert_eq!(sorted(&order), vec![1, 2, 3, 4, 5]);
    assert!(is_dfs_order(&adjacency(&HOUSE), 1, &order));
    let ways: [Vec<u32>; 2] = [vec![1, 2, 4, 5, 3], vec![1, 3, 5, 4, 2]];
    assert!(ways.contains(&order));
}

#[test]
fn depth_first_check_rejects_level_order() {
    let adj = adjacency(&HOUSE);
    assert!(!is_dfs_order(&adj, 1, &[1, 2, 3, 4, 5]));
    assert!(is_bfs_order(&adj, 1, &[1, 2, 3, 4, 5]));
    assert!(!is_bfs_order(&adj, 1, &[1, 2, 4, 5, 3]));
}

#[test]
fn first_element_is_the_start() {
    let graph = build(&[1, 2, 3, 4, 5], &HOUSE);
    for start in 1..=5u32 {
        assert_eq!(graph.dfs(start)[0], start);
        assert_eq!(graph.bfs(start)[0], start);
    }
}

#[test]
fn connected_graph_is_visited_completely_and_once() {
    let edges: [(u32, u32); 8] =
        [(0, 1), (1, 2), (2, 0), (2, 3), (3, 4), (4, 5), (5, 3), (1, 6)];
    let graph = build(&[], &edges);
    let adj = adjacency(&edges);
    for start in 0..7u32 {
        let depth_first: Vec<u32> = graph.dfs(start);
        let breadth_first: Vec<u32> = graph.bfs(start);
        assert_eq!(sorted(&depth_first), vec![0, 1, 2, 3, 4, 5, 6]);
        assert_eq!(sorted(&breadth_first), vec![0, 1, 2, 3, 4, 5, 6]);
        assert!(is_dfs_order(&adj, start, &depth_first));
        assert!(is_bfs_order(&adj, start, &breadth_first));
    }
}

#[test]
fn only_the_component_of_the_start_is_visited() {
    let edges: [(u32, u32); 3] = [(1, 2), (2, 3), (10, 11)];
    let graph = build(&[20], &edges);
    assert_eq!(sorted(&graph.dfs(1)), vec![1, 2, 3]);
    assert_eq!(sorted(&graph.bfs(3)), vec![1, 2, 3]);
    assert_eq!(sorted(&graph.dfs(11)), vec![10, 11]);
    assert_eq!(graph.bfs(20), vec![20]);
}

#[test]
fn bfs_distance_never_decreases() {
    let edges: [(u32, u32); 10] =
        [(0, 1), (0, 2), (1, 3), (2, 3), (3, 4), (4, 5), (2, 6), (6, 7), (7, 5), (5, 8)];
    let graph = build(&[], &edges);
    let adj = adjacency(&edges);
    for start in 0..9u32 {
        let order: Vec<u32> = graph.bfs(start);
        let dist = levels(&adj, start);
        assert_eq!(order.len(), dist.len());
        for pair in order.windows(2) {
            assert!(dist[&pair[0]] <= dist[&pair[1]]);
        }
        assert_eq!(dist[&order[0]], 0);
    }
}

#[test]
fn bfs_on_a_path_gives_exact_order() {
    let graph = build(&[], &[(1, 2), (2, 3), (3, 4)]);
    assert_eq!(graph.bfs(1), vec![1, 2, 3, 4]);
    assert_eq!(graph.dfs(1), vec![1, 2, 3, 4]);
    assert_eq!(graph.bfs(4), vec![4, 3, 2, 1]);
    let middle: Vec<u32> = graph.bfs(2);
    assert_eq!(middle[0], 2);
    assert_eq!(sorted(&middle[1..3]), vec![1, 3]);
    assert_eq!(middle[3], 4);
}

#[test]
fn dfs_on_a_star_backtracks_to_the_centre() {
    let edges: [(u32, u32); 4] = [(0, 1), (0, 2), (0, 3), (0, 4)];
    let graph = build(&[], &edges);
    let order: Vec<u32> = graph.dfs(1);
    assert_eq!(&order[..2], &[1, 0]);
    assert_eq!(sorted(&order[2..]), vec![2, 3, 4]);
    assert!(is_dfs_order(&adjacency(&edges), 1, &order));
}

#[test]
fn dfs_goes_deep_without_recursion() {
    let mut graph: Graph<u32> = Graph::new();
    let last: u32 = 200_000;
    for v in 0..last {
        graph.add_edge(v, v + 1);
    }
    let order: Vec<u32> = graph.dfs(0);
    let expected: Vec<u32> = (0..=last).collect();
    assert_eq!(order, expected);
    assert_eq!(graph.bfs(0), expected);
}

#[test]
fn traversal_does_not_change_the_graph() {
    let graph = build(&[1, 2, 3, 4, 5], &HOUSE);
    let before: Vec<u32> = sorted(&graph.bfs(1));
    let _ = graph.dfs(3);
    let _ = graph.bfs(5);
    assert_eq!(sorted(&graph.bfs(1)), before);
    assert_eq!(sorted(&graph.dfs(1)), before);
}

#[test]
fn vertices_of_another_type() {
    let mut graph: Graph<char> = Graph::new();
    graph.add_edge('a', 'b');
    graph.add_edge('b', 'c');
    graph.add_vertex('z');
    assert_eq!(graph.bfs('a'), vec!['a', 'b', 'c']);
    assert_eq!(graph.dfs('c'), vec!['c', 'b', 'a']);
    assert_eq!(graph.dfs('z'), vec!['z']);
}

#[test]
fn debug_output_names_the_adjacency_list() {
    let mut graph: Graph<u32> = Graph::new();
    graph.add_edge(1, 1);
    assert_eq!(format!("{:?}", graph), "Graph { adj_list: {1: {1}} }");
}
