use graph_sampling::bfs::bfs_shortest;
use graph_sampling::graph::{BFSError, Graph};

fn nine_node_graph() -> Graph {
    let mut graph = Graph::new();
    graph.add_edge("0".to_string(), "4".to_string());
    graph.add_edge("1".to_string(), "2".to_string());
    graph.add_edge("1".to_string(), "8".to_string());
    graph.add_edge("2".to_string(), "3".to_string());
    graph.add_edge("3".to_string(), "1".to_string());
    graph.add_edge("3".to_string(), "8".to_string());
    graph.add_edge("4".to_string(), "2".to_string());
    graph.add_edge("5".to_string(), "4".to_string());
    graph.add_edge("6".to_string(), "5".to_string());
    graph.add_edge("7".to_string(), "5".to_string());
    graph.add_edge("7".to_string(), "6".to_string());
    graph.add_edge("8".to_string(), "7".to_string());
    graph
}

fn labels(items: &[&str]) -> Vec<String> {
    items.iter().map(|s| s.to_string()).collect()
}

#[test]
fn test_graph_creation() {
    let graph = Graph::new();
    assert_eq!(graph.get_map().len(), 0);
}

#[test]
fn test_add_edge() {
    let mut graph = Graph::new();
    graph.add_edge("0".to_string(), "4".to_string());
    graph.add_edge("1".to_string(), "2".to_string());
    graph.add_edge("1".to_string(), "8".to_string());
    graph.add_edge("2".to_string(), "3".to_string());
    graph.add_edge("3".to_string(), "1".to_string());
    graph.add_edge("3".to_string(), "8".to_string());
    graph.add_edge("4".to_string(), "2".to_string());
    graph.add_edge("5".to_string(), "4".to_string());
    graph.add_edge("6".to_string(), "5".to_string());
    graph.add_edge("7".to_string(), "5".to_string());
    graph.add_edge("7".to_string(), "6".to_string());
    graph.add_edge("8".to_string(), "7".to_string());

    assert_eq!(graph.get_map().len(), 9);
    assert_eq!(graph.get_map().get("0"), Some(&vec!["4".to_string()]));
    assert_eq!(graph.get_map().get("7"), Some(&vec!["5".to_string(), "6".to_string()]));
    assert_eq!(graph.get_map().get("2"), Some(&vec!["3".to_string()]));
}

#[test]
fn test_bfs_shortest_path() {
    let mut graph = Graph::new();
    graph.add_edge("0".to_string(), "4".to_string());
    graph.add_edge("1".to_string(), "2".to_string());
    graph.add_edge("1".to_string(), "8".to_string());
    graph.add_edge("2".to_string(), "3".to_string());
    graph.add_edge("3".to_string(), "1".to_string());
    graph.add_edge("3".to_string(), "8".to_string());
    graph.add_edge("4".to_string(), "2".to_string());
    graph.add_edge("5".to_string(), "4".to_string());
    graph.add_edge("6".to_string(), "5".to_string());
    graph.add_edge("7".to_string(), "5".to_string());
    graph.add_edge("7".to_string(), "6".to_string());
    graph.add_edge("8".to_string(), "7".to_string());

    assert_eq!(bfs_shortest(graph.get_map(), "2", "6"), Ok(4));
    assert_eq!(bfs_shortest(graph.get_map(), "2", "2"), Ok(0));
    assert_eq!(bfs_shortest(graph.get_map(), "0", "2"), Ok(2));
    assert_eq!(bfs_shortest(graph.get_map(), "1", "4"), Ok(4));
}

#[test]
fn new_graph_has_no_nodes_and_no_neighbours() {
    let graph = Graph::new();
    assert_eq!(graph.node_count(), 0);
    assert!(graph.neighbors_of("0").is_empty());
    assert!(graph.adjacency_list().is_empty());
}

#[test]
fn neighbours_keep_insertion_order() {
    let mut graph = Graph::new();
    graph.add_edge("a".to_string(), "z".to_string());
    graph.add_edge("a".to_string(), "b".to_string());
    graph.add_edge("a".to_string(), "m".to_string());
    assert_eq!(graph.neighbors_of("a"), labels(&["z", "b", "m"]));
}

#[test]
fn duplicate_edges_and_self_loops_are_kept() {
    let mut graph = Graph::new();
    graph.add_edge("a".to_string(), "b".to_string());
    graph.add_edge("a".to_string(), "b".to_string());
    graph.add_edge("a".to_string(), "a".to_string());
    assert_eq!(graph.neighbors_of("a"), labels(&["b", "b", "a"]));
    assert_eq!(graph.node_count(), 1);
}

#[test]
fn node_that_is_only_a_neighbour_has_no_entry() {
    let mut graph = Graph::new();
    graph.add_edge("a".to_string(), "b".to_string());
    assert_eq!(graph.node_count(), 1);
    assert_eq!(graph.get_map().get("b"), None);
    assert!(graph.neighbors_of("b").is_empty());
    assert!(!graph.get_map().contains_key("b"));
    assert!(graph.get_map().contains_key("a"));
}

#[test]
fn node_count_counts_sources_once() {
    let graph = nine_node_graph();
    assert_eq!(graph.node_count(), 9);
}

#[test]
fn adjacency_list_follows_first_appearance() {
    let mut graph = Graph::new();
    graph.add_edge("x".to_string(), "1".to_string());
    graph.add_edge("c".to_string(), "2".to_string());
    graph.add_edge("x".to_string(), "3".to_string());
    graph.add_edge("a".to_string(), "x".to_string());
    let listing = graph.adjacency_list();
    assert_eq!(
        listing,
        vec![
            ("x".to_string(), labels(&["1", "3"])),
            ("c".to_string(), labels(&["2"])),
            ("a".to_string(), labels(&["x"])),
        ]
    );
}

#[test]
fn distance_to_self_is_zero_for_every_node() {
    let graph = nine_node_graph();
    for n in 0..9 {
        let label = n.to_string();
        assert_eq!(bfs_shortest(graph.get_map(), &label, &label), Ok(0));
    }
}

#[test]
fn distance_to_self_is_zero_for_an_isolated_node() {
    let graph = nine_node_graph();
    assert_eq!(bfs_shortest(graph.get_map(), "42", "42"), Ok(0));
    let empty = Graph::new();
    assert_eq!(bfs_shortest(empty.get_map(), "x", "x"), Ok(0));
}

#[test]
fn distance_to_self_ignores_a_self_loop() {
    let mut graph = Graph::new();
    graph.add_edge("a".to_string(), "a".to_string());
    assert_eq!(bfs_shortest(graph.get_map(), "a", "a"), Ok(0));
}

#[test]
fn unreachable_target_is_reported() {
    let mut graph = Graph::new();
    graph.add_edge("a".to_string(), "b".to_string());
    graph.add_edge("c".to_string(), "a".to_string());
    assert_eq!(bfs_shortest(graph.get_map(), "a", "c"), Err(BFSError::NodeNotFound));
    assert_eq!(bfs_shortest(graph.get_map(), "b", "a"), Err(BFSError::NodeNotFound));
    assert_eq!(bfs_shortest(graph.get_map(), "a", "nowhere"), Err(BFSError::NodeNotFound));
    assert_eq!(bfs_shortest(graph.get_map(), "nowhere", "a"), Err(BFSError::NodeNotFound));
}

#[test]
fn directed_distances_need_not_be_symmetric() {
    let mut graph = Graph::new();
    graph.add_edge("a".to_string(), "b".to_string());
    graph.add_edge("b".to_string(), "c".to_string());
    graph.add_edge("c".to_string(), "a".to_string());
    assert_eq!(bfs_shortest(graph.get_map(), "a", "b"), Ok(1));
    assert_eq!(bfs_shortest(graph.get_map(), "b", "a"), Ok(2));
    let nine = nine_node_graph();
    assert_eq!(bfs_shortest(nine.get_map(), "0", "4"), Ok(1));
    assert_eq!(bfs_shortest(nine.get_map(), "4", "0"), Err(BFSError::NodeNotFound));
}

#[test]
fn distances_are_symmetric_where_every_edge_has_its_reverse() {
    let mut graph = Graph::new();
    let edges = [("a", "b"), ("b", "c"), ("c", "d"), ("b", "e"), ("e", "d"), ("d", "f")];
    for (x, y) in edges {
        graph.add_edge(x.to_string(), y.to_string());
        graph.add_edge(y.to_string(), x.to_string());
    }
    let nodes = ["a", "b", "c", "d", "e", "f", "g"];
    for x in nodes {
        for y in nodes {
            assert_eq!(
                bfs_shortest(graph.get_map(), x, y),
                bfs_shortest(graph.get_map(), y, x)
            );
        }
    }
    assert_eq!(bfs_shortest(graph.get_map(), "a", "f"), Ok(4));
}

#[test]
fn shortest_of_several_walks_is_taken() {
    let mut graph = Graph::new();
    graph.add_edge("s".to_string(), "a".to_string());
    graph.add_edge("a".to_string(), "b".to_string());
    graph.add_edge("b".to_string(), "t".to_string());
    graph.add_edge("s".to_string(), "c".to_string());
    graph.add_edge("c".to_string(), "t".to_string());
    graph.add_edge("t".to_string(), "s".to_string());
    assert_eq!(bfs_shortest(graph.get_map(), "s", "t"), Ok(2));
    assert_eq!(bfs_shortest(graph.get_map(), "a", "t"), Ok(2));
    assert_eq!(bfs_shortest(graph.get_map(), "a", "c"), Ok(4));
    assert_eq!(bfs_shortest(graph.get_map(), "t", "b"), Ok(3));
}

#[test]
fn distances_in_the_nine_node_graph() {
    let graph = nine_node_graph();
    let expected: [[Option<usize>; 9]; 9] = [
        [Some(0), Some(4), Some(2), Some(3), Some(1), Some(6), Some(6), Some(5), Some(4)],
        [None, Some(0), Some(1), Some(2), Some(4), Some(3), Some(3), Some(2), Some(1)],
        [None, Some(2), Some(0), Some(1), Some(5), Some(4), Some(4), Some(3), Some(2)],
        [None, Some(1), Some(2), Some(0), Some(4), Some(3), Some(3), Some(2), Some(1)],
        [None, Some(3), Some(1), Some(2), Some(0), Some(5), Some(5), Some(4), Some(3)],
        [None, Some(4), Some(2), Some(3), Some(1), Some(0), Some(6), Some(5), Some(4)],
        [None, Some(5), Some(3), Some(4), Some(2), Some(1), Some(0), Some(6), Some(5)],
        [None, Some(5), Some(3), Some(4), Some(2), Some(1), Some(1), Some(0), Some(5)],
        [None, Some(6), Some(4), Some(5), Some(3), Some(2), Some(2), Some(1), Some(0)],
    ];
    for a in 0..9 {
        for b in 0..9 {
            let got = bfs_shortest(graph.get_map(), &a.to_string(), &b.to_string()).ok();
            assert_eq!(got, expected[a][b], "from {} to {}", a, b);
        }
    }
}
