use graph_paths::graph::safe_simple::{Node, SimpleDFSGraphPath, SimpleGraph};
use graph_paths::graph::{ExampleError, Graph, GraphPath};

/// The six-vertex example graph with edges (0,1), (1,2), (0,5).
fn example_graph() -> SimpleGraph {
    let mut g = SimpleGraph::new(6);
    g.add_edge(0, 1);
    g.add_edge(1, 2);
    g.add_edge(0, 5);
    g
}

#[test]
fn test_dfs() {
    let mut g = SimpleGraph::new(6);
    g.add_edge(0, 1);
    g.add_edge(1, 2);
    g.add_edge(0, 5);
    let dfs = g.to_dfs(1).unwrap();
    assert!(dfs.has_path_to(5));
    let path = dfs.path_to(5).unwrap();
    assert_eq!(path, vec![5, 0, 1])
}

#[test]
fn counts_after_construction() {
    let g = example_graph();
    assert_eq!(g.v(), 6);
    assert_eq!(g.e(), 3);
}

#[test]
fn add_edge_is_undirected() {
    let mut g = SimpleGraph::new(4);
    g.add_edge(2, 3);
    assert!(g.adj(2).unwrap().contains(&3));
    assert!(g.adj(3).unwrap().contains(&2));
}

#[test]
fn add_edge_deduplicates_one_side_only() {
    let mut g = SimpleGraph::new(2);
    g.add_edge(0, 1);
    g.add_edge(0, 1);
    assert_eq!(g.adj(0).unwrap(), vec![1]);
    assert_eq!(g.adj(1).unwrap(), vec![0, 0]);
    assert_eq!(g.e(), 2);
}

#[test]
fn add_edge_out_of_range_is_ignored() {
    let mut g = SimpleGraph::new(3);
    g.add_edge(0, 7);
    g.add_edge(7, 0);
    assert_eq!(g.e(), 0);
    assert_eq!(g.adj(0).unwrap(), Vec::<usize>::new());
}

#[test]
fn self_loop_is_recorded_twice() {
    let mut g = SimpleGraph::new(3);
    g.add_edge(2, 2);
    assert_eq!(g.adj(2).unwrap(), vec![2, 2]);
    assert_eq!(g.e(), 1);
}

#[test]
fn neighbors_out_of_range_fails() {
    let g = example_graph();
    assert_eq!(g.adj(6), Err(ExampleError::OutOfRange));
}

#[test]
fn conversion_out_of_range_fails() {
    let g = example_graph();
    assert_eq!(g.to_dfs(6).err(), Some(ExampleError::OutOfRange));
    let g = example_graph();
    assert_eq!(g.to_bfs(100).err(), Some(ExampleError::OutOfRange));
}

#[test]
fn source_reaches_itself() {
    let g = example_graph();
    let dfs = g.to_dfs(1).unwrap();
    assert!(dfs.has_path_to(1));
    assert_eq!(dfs.path_to(1).unwrap(), vec![1]);
    let g = example_graph();
    let bfs = g.to_bfs(5).unwrap();
    assert!(bfs.has_path_to(5));
    assert_eq!(bfs.path_to(5).unwrap(), vec![5]);
}

#[test]
fn dfs_finds_the_tree_paths() {
    let g = example_graph();
    let dfs = g.to_dfs(1).unwrap();
    assert_eq!(dfs.path_to(2).unwrap(), vec![2, 1]);
    assert_eq!(dfs.path_to(0).unwrap(), vec![0, 1]);
    assert_eq!(dfs.path_to(5).unwrap(), vec![5, 0, 1]);
}

#[test]
fn bfs_finds_shortest_paths() {
    let g = example_graph();
    let bfs = g.to_bfs(1).unwrap();
    assert_eq!(bfs.path_to(2).unwrap(), vec![2, 1]);
    assert_eq!(bfs.path_to(5).unwrap(), vec![5, 0, 1]);
}

#[test]
fn bfs_breaks_ties_by_insertion_order() {
    let mut g = SimpleGraph::new(4);
    g.add_edge(0, 1);
    g.add_edge(0, 2);
    g.add_edge(1, 3);
    g.add_edge(2, 3);
    let bfs = g.to_bfs(0).unwrap();
    assert_eq!(bfs.path_to(3).unwrap(), vec![3, 1, 0]);
}

#[test]
fn bfs_path_is_no_longer_than_dfs_path() {
    let mut g = SimpleGraph::new(4);
    g.add_edge(0, 1);
    g.add_edge(1, 2);
    g.add_edge(2, 3);
    g.add_edge(0, 3);
    let dfs = g.to_dfs(0).unwrap();
    assert_eq!(dfs.path_to(3).unwrap(), vec![3, 2, 1, 0]);
    let mut g = SimpleGraph::new(4);
    g.add_edge(0, 1);
    g.add_edge(1, 2);
    g.add_edge(2, 3);
    g.add_edge(0, 3);
    let bfs = g.to_bfs(0).unwrap();
    assert_eq!(bfs.path_to(3).unwrap(), vec![3, 0]);
}

#[test]
fn unreachable_vertex_has_no_path() {
    let g = example_graph();
    let dfs = g.to_dfs(1).unwrap();
    assert!(!dfs.has_path_to(3));
    assert_eq!(dfs.path_to(3), Err(ExampleError::NoPath));
    let g = example_graph();
    let bfs = g.to_bfs(1).unwrap();
    assert!(!bfs.has_path_to(3));
    assert_eq!(bfs.path_to(3), Err(ExampleError::NoPath));
}

#[test]
fn out_of_range_target_has_no_path() {
    let g = example_graph();
    let dfs = g.to_dfs(1).unwrap();
    assert!(!dfs.has_path_to(6));
    assert_eq!(dfs.path_to(6), Err(ExampleError::NoPath));
}

#[test]
fn repeated_queries_agree() {
    let g = example_graph();
    let dfs = g.to_dfs(1).unwrap();
    assert_eq!(dfs.has_path_to(5), dfs.has_path_to(5));
    assert_eq!(dfs.path_to(5), dfs.path_to(5));
    let g = example_graph();
    let bfs = g.to_bfs(1).unwrap();
    assert_eq!(bfs.path_to(2), bfs.path_to(2));
    assert_eq!(bfs.path_to(3), bfs.path_to(3));
}

#[test]
fn reader_built_graph_matches_manual_insertion() {
    let edges = vec![(0, 1), (1, 2), (0, 5), (9, 9)];
    let built = SimpleGraph::new_with_reader(6, &edges);
    let manual = example_graph();
    assert_eq!(built.v(), manual.v());
    assert_eq!(built.e(), manual.e());
    for u in 0..6 {
        assert_eq!(built.adj(u).unwrap(), manual.adj(u).unwrap());
    }
}

#[test]
fn empty_graph_rejects_every_query() {
    let g = SimpleGraph::new(0);
    assert_eq!(g.v(), 0);
    assert_eq!(g.adj(0), Err(ExampleError::OutOfRange));
    assert_eq!(g.to_dfs(0).err(), Some(ExampleError::OutOfRange));
}

#[test]
fn single_vertex_traversal() {
    let nodes = vec![Node::new(0)];
    let dfs = SimpleDFSGraphPath::new(nodes, 0);
    assert!(dfs.has_path_to(0));
    assert_eq!(dfs.path_to(0).unwrap(), vec![0]);
    assert!(!dfs.has_path_to(1));
}
