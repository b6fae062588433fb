use digraph::adjacency_list_graph::{
    AdjacencyListEdge, AdjacencyListGraph, EdgeDestinationIterator, WeightedEdgeIterator,
};
use digraph::graph::Graph;
use digraph::searchable_graph::SearchableGraph;
use digraph::weighted_graph::{NoWeight, WeightedGraph};

fn collect_forward(mut it: EdgeDestinationIterator) -> Vec<usize> {
    let mut v: Vec<usize> = Vec::new();
    while let Some(d) = it.next() {
        v.push(d);
    }
    v
}

fn collect_backward(mut it: EdgeDestinationIterator) -> Vec<usize> {
    let mut v: Vec<usize> = Vec::new();
    while let Some(d) = it.next_back() {
        v.push(d);
    }
    v
}

fn collect_weighted(mut it: WeightedEdgeIterator<i32>) -> Vec<(usize, i32)> {
    let mut v: Vec<(usize, i32)> = Vec::new();
    while let Some(p) = it.next() {
        v.push(p);
    }
    v
}

fn six_node_graph() -> AdjacencyListGraph<String> {
    let mut graph: AdjacencyListGraph<String> = AdjacencyListGraph::new(vec![
        String::from("node-1"),
        String::from("node-2"),
        String::from("node-3"),
        String::from("node-4"),
        String::from("node-5"),
        String::from("node-6"),
    ]);
    graph.add_connection(0, 1);
    graph.add_connection(0, 2);
    graph.add_connection(0, 3);
    graph.add_connection(1, 2);
    graph.add_connection(1, 3);
    graph.add_connection(1, 4);
    graph.add_connection(2, 3);
    graph
}

#[test]
fn test_getters() {
    let graph = six_node_graph();

    assert!(collect_forward(graph.get_edges(0).unwrap()) == vec![1, 2, 3]);
    assert!(collect_forward(graph.get_edges(1).unwrap()) == vec![2, 3, 4]);

    let (node_0, edges_0) = graph.get(0).unwrap();
    assert_eq!(node_0, &String::from("node-1"));
    assert!(collect_forward(edges_0) == vec![1, 2, 3]);
    let (node_5, edges_5) = graph.get(5).unwrap();
    assert_eq!(node_5, &String::from("node-6"));
    let empty = vec![] as Vec<usize>;
    assert!(collect_forward(edges_5) == empty);
}

#[test]
fn test_dfs_search() {
    let mut graph: AdjacencyListGraph<String> = AdjacencyListGraph::new(vec![
        String::from("node-1"),
        String::from("node-2"),
        String::from("node-3"),
        String::from("node-4"),
    ]);

    graph.add_connection(0, 1);
    graph.add_connection(0, 2);
    graph.add_connection(0, 3);
    graph.add_connection(1, 2);
    graph.add_connection(2, 3);

    let path_dfs = graph.find_path_dfs(0, 3);
    assert_eq!(path_dfs, Some(vec![0, 1, 2, 3]));
}

#[test]
fn test_bfs_search() {
    let mut graph: AdjacencyListGraph<String> = AdjacencyListGraph::new(vec![
        String::from("node-1"),
        String::from("node-2"),
        String::from("node-3"),
        String::from("node-4"),
    ]);
    graph.add_connection(0, 1);
    graph.add_connection(0, 2);
    graph.add_connection(0, 3);
    graph.add_connection(1, 2);
    graph.add_connection(2, 3);
    let path_bfs = graph.find_path_bfs(0, 3);
    assert_eq!(path_bfs, Some(vec![0, 3]));
}

#[test]
fn test_weighted_getters() {
    let mut graph: AdjacencyListGraph<String, i32> = AdjacencyListGraph::new(vec![
        String::from("node-1"),
        String::from("node-2"),
        String::from("node-3"),
        String::from("node-4"),
        String::from("node-5"),
        String::from("node-6"),
    ]);
    graph.add_weighted_connection(0, 1, 1);
    graph.add_weighted_connection(0, 2, 2);
    graph.add_weighted_connection(0, 3, 3);
    graph.add_weighted_connection(1, 2, 4);
    graph.add_weighted_connection(1, 3, 5);
    graph.add_weighted_connection(1, 4, 6);
    graph.add_weighted_connection(2, 3, 7);
    assert!(collect_weighted(graph.get_weighted_edges(0).unwrap()) == vec![(1, 1), (2, 2), (3, 3)]);
    assert!(collect_weighted(graph.get_weighted_edges(1).unwrap()) == vec![(2, 4), (3, 5), (4, 6)]);

    let (node_0, edges_0) = graph.get_weighted(0).unwrap();
    assert_eq!(node_0, &String::from("node-1"));
    assert!(collect_weighted(edges_0) == vec![(1, 1), (2, 2), (3, 3)]);
    let (node_5, edges_5) = graph.get_weighted(5).unwrap();
    assert_eq!(node_5, &String::from("node-6"));
    let empty = vec![] as Vec<(usize, i32)>;
    assert!(collect_weighted(edges_5) == empty);
}

#[test]
fn test_adjacency_list_memory_layout() {
    // The memory size of unweighted edge structs is just the key size.
    let unweighted_edge_size = std::mem::size_of::<AdjacencyListEdge<u16, NoWeight>>();
    assert_eq!(unweighted_edge_size, 2);

    // The memory size of weighted edge structs is just the key size plus the weight size,
    // along with the alignment of the key (key = 2, weight = 4, alignment = 2).
    let weighted_edge_size = std::mem::size_of::<AdjacencyListEdge<u16, f32>>();
    assert_eq!(weighted_edge_size, 8);

    let noweight_size = std::mem::size_of::<NoWeight>();
    assert_eq!(noweight_size, 0);
}

#[test]
fn test_insert_get_value_round_trip() {
    let mut graph: AdjacencyListGraph<String> = AdjacencyListGraph::new(Vec::new());
    let k1 = graph.insert(String::from("alpha"));
    let k2 = graph.insert(String::from("beta"));
    assert_eq!(k1, 0);
    assert_eq!(k2, 1);
    assert_eq!(graph.get_value(k1), Some(&String::from("alpha")));
    assert_eq!(graph.get_value(k2), Some(&String::from("beta")));
}

#[test]
fn test_remove_shifts_keys() {
    let mut graph: AdjacencyListGraph<String> = AdjacencyListGraph::new(vec![
        String::from("node-1"),
        String::from("node-2"),
        String::from("node-3"),
    ]);
    let removed = graph.remove(0);
    assert_eq!(removed, Some(String::from("node-1")));
    // Keys above the removed one shift down: key 0 now addresses "node-2".
    assert_eq!(graph.get_value(0), Some(&String::from("node-2")));
    assert_eq!(graph.get_value(1), Some(&String::from("node-3")));
    assert_eq!(graph.get_value(2), None);
    // Removing the last node leaves its key dangling for real.
    let removed_last = graph.remove(1);
    assert_eq!(removed_last, Some(String::from("node-3")));
    assert_eq!(graph.get_value(1), None);
}

#[test]
fn test_edge_order_forward_and_reverse() {
    let graph = six_node_graph();
    assert_eq!(collect_forward(graph.get_edges(0).unwrap()), vec![1, 2, 3]);
    assert_eq!(collect_backward(graph.get_edges(0).unwrap()), vec![3, 2, 1]);
}

#[test]
fn test_invalid_source_noop() {
    let mut graph: AdjacencyListGraph<String> = AdjacencyListGraph::new(vec![
        String::from("node-1"),
        String::from("node-2"),
        String::from("node-3"),
        String::from("node-4"),
    ]);
    graph.add_connection(0, 1);
    assert!(!graph.add_connection(999, 0));
    assert_eq!(collect_forward(graph.get_edges(0).unwrap()), vec![1]);
    assert_eq!(collect_forward(graph.get_edges(1).unwrap()), vec![] as Vec<usize>);
    assert_eq!(collect_forward(graph.get_edges(2).unwrap()), vec![] as Vec<usize>);
    assert_eq!(collect_forward(graph.get_edges(3).unwrap()), vec![] as Vec<usize>);
    assert!(!graph.add_weighted_connection(999, 0, NoWeight {}));
    assert!(!graph.remove_connection(999, 0));
    assert_eq!(collect_forward(graph.get_edges(0).unwrap()), vec![1]);
}

#[test]
fn test_unreachable_destination_terminates_on_cycles() {
    let mut graph: AdjacencyListGraph<String> = AdjacencyListGraph::new(vec![
        String::from("node-1"),
        String::from("node-2"),
        String::from("node-3"),
        String::from("node-4"),
    ]);
    // A cycle among the first three nodes; node 3 has no incoming edge.
    graph.add_connection(0, 1);
    graph.add_connection(1, 2);
    graph.add_connection(2, 0);
    assert_eq!(graph.find_path_dfs(0, 3), None);
    assert_eq!(graph.find_path_bfs(0, 3), None);
}

#[test]
fn test_dangling_destination_tolerated() {
    let mut graph: AdjacencyListGraph<String> = AdjacencyListGraph::new(vec![
        String::from("node-1"),
        String::from("node-2"),
    ]);
    // Edges may point at keys that do not exist yet.
    assert!(graph.add_connection(0, 99));
    assert!(graph.add_connection(0, 1));
    assert_eq!(collect_forward(graph.get_edges(0).unwrap()), vec![99, 1]);
    assert_eq!(graph.find_path_dfs(0, 1), Some(vec![0, 1]));
    assert_eq!(graph.find_path_bfs(0, 1), Some(vec![0, 1]));
    assert_eq!(graph.find_path_dfs(0, 42), None);
    assert_eq!(graph.find_path_bfs(0, 42), None);
    // A search for the dangling key itself reaches it through the edge.
    assert_eq!(graph.find_path_dfs(0, 99), Some(vec![0, 99]));
}

#[test]
fn test_remove_connection_first_match() {
    let mut graph: AdjacencyListGraph<String> = AdjacencyListGraph::new(vec![
        String::from("node-1"),
        String::from("node-2"),
    ]);
    graph.add_connection(0, 1);
    graph.add_connection(0, 5);
    graph.add_connection(0, 1);
    assert!(graph.remove_connection(0, 1));
    assert_eq!(collect_forward(graph.get_edges(0).unwrap()), vec![5, 1]);
    assert!(graph.remove_connection(0, 1));
    assert_eq!(collect_forward(graph.get_edges(0).unwrap()), vec![5]);
    assert!(!graph.remove_connection(0, 1));
    assert_eq!(collect_forward(graph.get_edges(0).unwrap()), vec![5]);
}

#[test]
fn test_not_found_cases() {
    let mut graph: AdjacencyListGraph<String> = AdjacencyListGraph::new(vec![String::from(
        "node-1",
    )]);
    assert_eq!(graph.get_value(1), None);
    assert!(graph.get(1).is_none());
    assert!(graph.get_edges(1).is_none());
    assert!(graph.get_weighted(1).is_none());
    assert!(graph.get_weighted_edges(1).is_none());
    assert_eq!(graph.remove(1), None);
}

#[test]
fn test_search_source_equals_destination() {
    let graph: AdjacencyListGraph<String> = AdjacencyListGraph::new(vec![
        String::from("node-1"),
        String::from("node-2"),
    ]);
    assert_eq!(graph.find_path_dfs(0, 0), Some(vec![0]));
    assert_eq!(graph.find_path_bfs(0, 0), Some(vec![0]));
}

#[test]
fn test_weighted_unweighted_interchange() {
    let mut unweighted: AdjacencyListGraph<String> = AdjacencyListGraph::new(vec![
        String::from("node-1"),
        String::from("node-2"),
        String::from("node-3"),
    ]);
    let mut weighted: AdjacencyListGraph<String, i32> = AdjacencyListGraph::new(vec![
        String::from("node-1"),
        String::from("node-2"),
        String::from("node-3"),
    ]);
    // The same non-weight-reading operations, side by side.
    assert_eq!(unweighted.add_connection(0, 1), weighted.add_connection(0, 1));
    assert_eq!(unweighted.add_connection(0, 2), weighted.add_connection(0, 2));
    assert_eq!(unweighted.add_connection(1, 2), weighted.add_connection(1, 2));
    assert_eq!(unweighted.add_connection(7, 0), weighted.add_connection(7, 0));
    assert_eq!(unweighted.remove_connection(0, 2), weighted.remove_connection(0, 2));
    for key in 0..3 {
        assert_eq!(unweighted.get_value(key), weighted.get_value(key));
        assert_eq!(
            collect_forward(unweighted.get_edges(key).unwrap()),
            collect_forward(weighted.get_edges(key).unwrap())
        );
    }
    assert_eq!(unweighted.find_path_dfs(0, 2), weighted.find_path_dfs(0, 2));
    assert_eq!(unweighted.find_path_bfs(0, 2), weighted.find_path_bfs(0, 2));
    assert_eq!(unweighted.remove(1), weighted.remove(1));
    assert_eq!(unweighted.get_value(1), weighted.get_value(1));
    // The weighted twin stored the zero sentinel for every edge.
    let pairs = collect_weighted(weighted.get_weighted_edges(0).unwrap());
    assert!(pairs.iter().all(|p| p.1 == 0));
}

#[test]
fn test_weighted_edges_reverse_iteration() {
    let mut graph: AdjacencyListGraph<String, i32> = AdjacencyListGraph::new(vec![
        String::from("node-1"),
        String::from("node-2"),
    ]);
    graph.add_weighted_connection(0, 1, 10);
    graph.add_weighted_connection(0, 0, 20);
    graph.add_weighted_connection(0, 1, 30);
    let mut it = graph.get_weighted_edges(0).unwrap();
    assert_eq!(it.len(), 3);
    assert_eq!(it.next_back(), Some((1, 30)));
    assert_eq!(it.next_back(), Some((0, 20)));
    assert_eq!(it.next(), Some((1, 10)));
    assert_eq!(it.len(), 0);
    assert_eq!(it.next_back(), None);
    assert_eq!(it.next(), None);

    let mut dit = graph.get_edges(0).unwrap();
    assert_eq!(dit.len(), 3);
    assert_eq!(dit.next(), Some(1));
    assert_eq!(dit.next_back(), Some(1));
    assert_eq!(dit.next(), Some(0));
    assert_eq!(dit.next(), None);
}

#[test]
fn test_no_weight_sentinel() {
    let a = NoWeight {};
    let b = NoWeight {};
    assert!(a == b);
    assert_eq!(a.partial_cmp(&b), Some(std::cmp::Ordering::Equal));
    assert!(a.add(b) == a);
    assert!(<NoWeight as digraph::weighted_graph::EdgeWeight>::zero() == a);
    assert!(digraph::weighted_graph::EdgeWeight::is_zero(&a));
    assert!(<i32 as digraph::weighted_graph::EdgeWeight>::zero() == 0);
    assert!(digraph::weighted_graph::EdgeWeight::is_zero(&0i32));
    assert!(!digraph::weighted_graph::EdgeWeight::is_zero(&5i32));
}

#[test]
fn test_linked_node_flatten() {
    let node = digraph::searchable_graph::LinkedNode::new(4usize);
    assert_eq!(node.flatten(), vec![4usize]);
    let cloned = node.clone();
    assert_eq!(cloned.flatten(), vec![4usize]);
}
