use llm_wiki_server::graph_algorithms::{CommunityResult, GraphAlgorithms};

fn create_simple_graph() -> GraphAlgorithms {
    let mut graph = GraphAlgorithms::new();
    graph.add_edge("A", "B");
    graph.add_edge("A", "C");
    graph.add_edge("B", "C");
    graph.add_edge("C", "A");
    graph
}

fn create_disconnected_graph() -> GraphAlgorithms {
    let mut graph = GraphAlgorithms::new();
    graph.add_edge("A", "B");
    graph.add_edge("B", "C");
    graph.add_edge("D", "E");
    graph.add_edge("E", "F");
    graph
}

fn create_linear_graph() -> GraphAlgorithms {
    let mut graph = GraphAlgorithms::new();
    graph.add_edge("A", "B");
    graph.add_edge("B", "C");
    graph.add_edge("C", "D");
    graph.add_edge("D", "E");
    graph
}

fn cohesion(c: &CommunityResult) -> f64 {
    c.cohesion.num as f64 / c.cohesion.den as f64
}

#[test]
fn test_shortest_path_basic() {
    let graph = create_linear_graph();

    let path = graph.shortest_path("A", "E");
    assert!(path.is_some());

    let path = path.unwrap();
    assert_eq!(path.length, 4);
    assert_eq!(path.path, vec!["A", "B", "C", "D", "E"]);
}

#[test]
fn test_shortest_path_no_path() {
    let graph = create_disconnected_graph();

    let path = graph.shortest_path("A", "E");
    assert!(path.is_none());
}

#[test]
fn test_shortest_path_same_node() {
    let graph = create_simple_graph();

    let path = graph.shortest_path("A", "A");
    assert!(path.is_some());

    let path = path.unwrap();
    assert_eq!(path.length, 0);
    assert_eq!(path.path, vec!["A"]);
}

#[test]
fn test_shortest_path_direct_edge() {
    let graph = create_simple_graph();

    let path = graph.shortest_path("A", "B");
    assert!(path.is_some());

    let path = path.unwrap();
    assert_eq!(path.length, 1);
    assert_eq!(path.path, vec!["A", "B"]);
}

#[test]
fn test_louvain_communities_basic() {
    let graph = create_disconnected_graph();
    let communities = graph.louvain_communities();

    assert!(communities.len() >= 2);

    let total_nodes: usize = communities.iter().map(|c| c.nodes.len()).sum();
    assert_eq!(total_nodes, 6);

    for community in &communities {
        assert!(cohesion(community) >= 0.0);
        assert!(cohesion(community) <= 1.0);
    }
}

#[test]
fn test_louvain_communities_single_community() {
    let graph = create_simple_graph();
    let communities = graph.louvain_communities();

    assert!(!communities.is_empty());

    let total_nodes: usize = communities.iter().map(|c| c.nodes.len()).sum();
    assert_eq!(total_nodes, 3);
}

#[test]
fn test_louvain_communities_empty_graph() {
    let graph = GraphAlgorithms::new();
    let communities = graph.louvain_communities();
    assert!(communities.is_empty());
}

#[test]
fn test_cohesion_calculation() {
    let mut graph = GraphAlgorithms::new();
    graph.add_edge("A", "B");
    graph.add_edge("B", "C");
    graph.add_edge("C", "A");
    graph.add_edge("A", "C");

    let communities = graph.louvain_communities();
    assert!(!communities.is_empty());

    let cohesion = cohesion(&communities[0]);
    assert!(cohesion > 0.5);
}

#[test]
fn shortest_path_unknown_start_is_none() {
    let graph = create_linear_graph();
    assert!(graph.shortest_path("Z", "A").is_none());
    assert!(graph.shortest_path("A", "Z").is_none());
}

#[test]
fn shortest_path_prefers_fewest_hops() {
    let mut graph = GraphAlgorithms::new();
    graph.add_edge("A", "B");
    graph.add_edge("B", "C");
    graph.add_edge("C", "D");
    graph.add_edge("A", "D");
    let path = graph.shortest_path("A", "D").unwrap();
    assert_eq!(path.path, vec!["A", "D"]);
    assert_eq!(path.length, 1);
}

#[test]
fn louvain_exact_partition_of_cycle() {
    let mut graph = GraphAlgorithms::new();
    graph.add_edge("A", "B");
    graph.add_edge("B", "C");
    graph.add_edge("C", "A");
    graph.add_edge("A", "C");
    let communities = graph.louvain_communities();
    assert_eq!(communities.len(), 1);
    assert_eq!(communities[0].community_id, 1);
    assert_eq!(communities[0].nodes, vec!["A", "B", "C"]);
    assert_eq!(communities[0].cohesion.num, 4);
    assert_eq!(communities[0].cohesion.den, 4);
}

#[test]
fn build_from_edges_matches_add_edge() {
    let mut graph = GraphAlgorithms::new();
    graph.build_from_edges(vec![
        ("A".to_string(), "B".to_string()),
        ("B".to_string(), "C".to_string()),
        ("C".to_string(), "A".to_string()),
    ]);
    assert_eq!(graph.node_count(), 3);
    assert_eq!(graph.node_name(2), "C");
    assert_eq!(graph.neighbors(0), vec![1]);
    assert_eq!(graph.find_node(&"C".to_string()), Some(2));
}

#[test]
fn betweenness_shares_of_a_chain_of_three() {
    let mut g = GraphAlgorithms::new();
    g.add_edge("a", "b");
    g.add_edge("b", "c");
    let shares = g.betweenness_shares().unwrap();
    assert_eq!(shares, vec![vec![], vec![(1, 1)], vec![]]);
}

#[test]
fn betweenness_shares_split_between_equal_paths() {
    let mut g = GraphAlgorithms::new();
    g.add_edge("a", "b");
    g.add_edge("a", "c");
    g.add_edge("b", "d");
    g.add_edge("c", "d");
    g.add_edge("d", "e");
    // a-d and a-e each have two shortest paths, one through b and one through c: b and c
    // get half of each; d lies on both paths of a-e and on b-e and c-e.
    let shares = g.betweenness_shares().unwrap();
    assert_eq!(shares[0], vec![]);
    assert_eq!(shares[1], vec![(1, 2), (1, 2)]);
    assert_eq!(shares[2], vec![(1, 2), (1, 2)]);
    assert_eq!(shares[3], vec![(2, 2), (1, 1), (1, 1)]);
    assert_eq!(shares[4], vec![]);
    let centrality: Vec<f64> = shares.iter().map(|s| s.iter().map(|&(a, b)| a as f64 / b as f64).sum::<f64>() / 12.0).collect();
    for c in &centrality {
        assert!(*c >= 0.0 && *c <= 1.0);
    }
    assert_eq!(centrality[1], 1.0 / 12.0);
}

#[test]
fn betweenness_shares_count_repeated_links_on_both_sides() {
    let mut g = GraphAlgorithms::new();
    g.add_edge("a", "b");
    g.add_edge("a", "b");
    g.add_edge("b", "c");
    assert_eq!(g.betweenness_shares().unwrap(), vec![vec![], vec![(2, 2)], vec![]]);
}

#[test]
fn betweenness_ignores_longer_paths_and_cycles() {
    let mut g = GraphAlgorithms::new();
    g.add_edge("a", "b");
    g.add_edge("b", "c");
    g.add_edge("a", "c");
    g.add_edge("c", "a");
    // a-c is direct; b-a goes through c; c-b goes through a.
    assert_eq!(g.betweenness_shares().unwrap(), vec![vec![(1, 1)], vec![], vec![(1, 1)]]);
}

#[test]
fn degree_counts_links_out_and_in() {
    let mut g = GraphAlgorithms::new();
    g.add_edge("a", "b");
    g.add_edge("a", "c");
    g.add_edge("b", "c");
    g.add_edge("a", "b");
    assert_eq!(g.degree_counts(), vec![(3, 0), (1, 2), (0, 2)]);
}

#[test]
fn test_modularity_gain() {
    let mut graph = GraphAlgorithms::new();
    graph.add_edge("A", "B");
    graph.add_edge("B", "C");

    // Community of each page, by page index: A and B in 0, C in 1.
    let communities = vec![0, 0, 1];

    let gain = graph.modularity_gain("B", 0, 1, &communities);
    assert!(gain > 0); // Moving B to C's community keeps its link to C inside
    assert_eq!(gain, 1);
    assert_eq!(graph.modularity_gain("missing", 0, 1, &communities), 0);
}

#[test]
fn test_build_from_edges() {
    let mut graph = GraphAlgorithms::new();
    let edges = vec![
        ("A".to_string(), "B".to_string()),
        ("B".to_string(), "C".to_string()),
        ("C".to_string(), "A".to_string()),
    ];

    graph.build_from_edges(edges);

    assert_eq!(graph.node_count(), 3);
    assert_eq!(graph.neighbors(0), vec![1]);
    assert_eq!(graph.neighbors(2), vec![0]);
}

#[test]
fn betweenness_of_the_ends_of_a_chain_is_zero() {
    let mut g = GraphAlgorithms::new();
    g.add_edge("A", "B");
    g.add_edge("B", "C");
    g.add_edge("C", "D");
    g.add_edge("D", "E");
    let shares = g.betweenness_shares().unwrap();
    let sums: Vec<usize> = shares.iter().map(|s| s.len()).collect();
    assert_eq!(sums, vec![0, 3, 4, 3, 0]);
    assert!(shares.iter().all(|s| s.iter().all(|&(a, b)| a == 1 && b == 1)));
    // Scaled by the (n - 1)(n - 2) = 12 ordered pairs: C = 4/12, B = D = 3/12.
    let c: f64 = shares[2].iter().map(|&(a, b)| a as f64 / b as f64).sum::<f64>() / 12.0;
    assert_eq!(c, 4.0 / 12.0);
}
