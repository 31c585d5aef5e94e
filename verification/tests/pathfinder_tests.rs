use wikigraph::{PathError, PathFinder};

fn chain() -> PathFinder {
    let mut pf = PathFinder::new();
    pf.add_edge("A".to_string(), "B".to_string());
    pf.add_edge("B".to_string(), "C".to_string());
    pf.add_edge("C".to_string(), "D".to_string());
    pf
}

#[test]
fn chain_yields_three_hop_path() {
    let pf = chain();
    let path = pf.find_shortest_path("A", "D").expect("connected");
    assert_eq!(
        path,
        vec!["A".to_string(), "B".to_string(), "C".to_string(), "D".to_string()]
    );
}

#[test]
fn edges_are_undirected() {
    let pf = chain();
    let path = pf.find_shortest_path("D", "A").expect("connected");
    assert_eq!(path.len(), 4);
    assert_eq!(path[0], "D");
    assert_eq!(path[3], "A");
}

#[test]
fn disconnected_nodes_yield_no_path() {
    let mut pf = chain();
    pf.add_edge("X".to_string(), "Y".to_string());
    assert_eq!(pf.find_shortest_path("A", "X"), Err(PathError::NoPath));
}

#[test]
fn absent_endpoints_are_reported_in_order() {
    let pf = chain();
    assert_eq!(pf.find_shortest_path("Z", "A"), Err(PathError::StartNotFound));
    assert_eq!(pf.find_shortest_path("A", "Z"), Err(PathError::EndNotFound));
    assert_eq!(pf.find_shortest_path("Z", "W"), Err(PathError::StartNotFound));
}

#[test]
fn self_query_returns_single_node_path() {
    let pf = chain();
    assert_eq!(pf.find_shortest_path("B", "B"), Ok(vec!["B".to_string()]));
}

#[test]
fn direct_edge_beats_longer_routes() {
    let mut pf = PathFinder::new();
    pf.add_edge("A".to_string(), "B".to_string());
    pf.add_edge("B".to_string(), "D".to_string());
    pf.add_edge("A".to_string(), "C".to_string());
    pf.add_edge("C".to_string(), "D".to_string());
    pf.add_edge("A".to_string(), "D".to_string());
    let path = pf.find_shortest_path("A", "D").expect("connected");
    assert_eq!(path, vec!["A".to_string(), "D".to_string()]);
}

#[test]
fn connectivity_report_counts_degrees() {
    let mut pf = PathFinder::new();
    pf.add_edge("A".to_string(), "B".to_string());
    pf.add_edge("B".to_string(), "C".to_string());
    let report = pf.analyze_connectivity();
    assert_eq!(report.total_nodes, 3);
    assert_eq!(report.total_edges, 4);
    assert_eq!(report.nodes_with_no_edges, 0);
    assert_eq!(report.max_edges, 2);
    assert_eq!(report.min_edges, 1);
}

#[test]
fn connectivity_report_of_empty_graph() {
    let pf = PathFinder::new();
    let report = pf.analyze_connectivity();
    assert_eq!(report.total_nodes, 0);
    assert_eq!(report.total_edges, 0);
    assert_eq!(report.nodes_with_no_edges, 0);
    assert_eq!(report.max_edges, 0);
    assert_eq!(report.min_edges, usize::MAX);
}

#[test]
fn average_path_length_on_a_pair() {
    let mut pf = PathFinder::new();
    pf.add_edge("A".to_string(), "B".to_string());
    let (total, found) = pf.calculate_average_path_length().expect("one pair");
    assert!(found >= 1 && found <= 10);
    // the only samplable pair is A--B, one hop apart
    assert_eq!(total, found);
}

#[test]
fn average_path_length_on_a_connected_graph_succeeds() {
    let pf = chain();
    let (total, found) = pf.calculate_average_path_length().expect("connected graph");
    assert!(found >= 1 && found <= 10);
    assert!(total >= found);
    assert!(total <= found * 3);
}

#[test]
fn average_path_length_needs_two_nodes() {
    let mut pf = PathFinder::new();
    pf.add_edge("A".to_string(), "A".to_string());
    assert_eq!(
        pf.calculate_average_path_length(),
        Err(PathError::TooFewNodes)
    );
    assert_eq!(
        PathFinder::new().calculate_average_path_length(),
        Err(PathError::TooFewNodes)
    );
}

#[test]
fn average_path_length_without_connected_pairs() {
    // two self-loop islands: every sampled pair is disconnected
    let mut pf = PathFinder::new();
    pf.add_edge("A".to_string(), "A".to_string());
    pf.add_edge("B".to_string(), "B".to_string());
    assert_eq!(
        pf.calculate_average_path_length(),
        Err(PathError::NoSamples)
    );
}

#[test]
fn page_sample_is_distinct_sorted_and_bounded() {
    let pf = chain();
    let sample = pf.get_page_sample(2);
    assert_eq!(sample.len(), 2);
    assert!(sample[0] < sample[1]);
    let all = pf.list_pages();
    assert!(sample.iter().all(|p| all.contains(p)));
    // asking for more than the graph holds lists every page, in order
    assert_eq!(pf.get_page_sample(10), all);
}

#[test]
fn list_pages_sorted_without_duplicates() {
    let mut pf = PathFinder::new();
    pf.add_edge("D".to_string(), "B".to_string());
    pf.add_edge("C".to_string(), "A".to_string());
    pf.add_edge("B".to_string(), "B".to_string());
    assert_eq!(
        pf.list_pages(),
        vec!["A".to_string(), "B".to_string(), "C".to_string(), "D".to_string()]
    );
}

#[test]
fn error_messages_describe_the_failure() {
    assert_eq!(
        PathError::NoPath.message(),
        "no path found between the pages".to_string()
    );
    assert_eq!(
        PathError::StartNotFound.message(),
        "start page not found in graph".to_string()
    );
}
