use wikigraph::{parse_graph_json, ClaimOutcome, Crawler, GraphExporter, PathError, PathFinder};

fn small_graph() -> GraphExporter {
    let mut g = GraphExporter::new();
    g.add_edge("http://s/a".to_string(), "http://s/b".to_string());
    g.add_edge("http://s/b".to_string(), "http://s/a".to_string());
    g.add_edge("http://s/a".to_string(), "http://s/b".to_string());
    g
}

#[test]
fn endpoints_become_nodes_once_and_edges_accumulate() {
    let g = small_graph();
    assert_eq!(g.node_count(), 2);
    assert_eq!(g.edge_count(), 3);
    assert_eq!(
        g.nodes(),
        vec!["http://s/a".to_string(), "http://s/b".to_string()]
    );
}

#[test]
fn json_export_text_is_exact() {
    let g = small_graph();
    assert_eq!(
        g.export_json(),
        "{\"nodes\":[\"http://s/a\",\"http://s/b\"],\
         \"edges\":[[\"http://s/a\",\"http://s/b\"],[\"http://s/b\",\"http://s/a\"],\
         [\"http://s/a\",\"http://s/b\"]]}"
    );
}

#[test]
fn empty_graph_exports_empty_lists() {
    let g = GraphExporter::new();
    assert_eq!(g.export_json(), "{\"nodes\":[],\"edges\":[]}");
}

#[test]
fn dot_export_text_is_exact() {
    let mut g = GraphExporter::new();
    g.add_edge("http://s/a".to_string(), "http://s/b".to_string());
    let expected = "digraph wikipedia {\n  graph [rankdir=LR];\n  node [shape=box, style=rounded];\n  edge [color=gray50];\n  \"http://s/a\" [label=\"a\"];\n  \"http://s/b\" [label=\"b\"];\n  \"http://s/a\" -> \"http://s/b\";\n}\n";
    assert_eq!(g.export_dot(), expected);
}

#[test]
fn json_export_reparses_to_the_same_graph() {
    let g = small_graph();
    let text = g.export_json();
    let (nodes, edges) = parse_graph_json(&text).expect("export reparses");
    assert_eq!(nodes, g.nodes());
    assert_eq!(edges, g.edges());
}

#[test]
fn parse_rejects_malformed_exports() {
    assert!(parse_graph_json("").is_none());
    assert!(parse_graph_json("{\"nodes\":[],\"edges\":[]").is_none());
    assert!(parse_graph_json("{\"nodes\":[\"a\"],\"edges\":[[\"a\"]]}").is_none());
    assert!(parse_graph_json("{\"nodes\":[],\"edges\":[]}trailing").is_none());
}

#[test]
fn reparsed_export_preserves_connected_components() {
    let mut g = GraphExporter::new();
    g.add_edge("A".to_string(), "B".to_string());
    g.add_edge("C".to_string(), "D".to_string());
    let text = g.export_json();
    let rebuilt = PathFinder::load_from_json(&text).expect("export reparses");

    let mut direct = PathFinder::new();
    for (from, to) in g.edges() {
        direct.add_edge(from, to);
    }
    for a in ["A", "B", "C", "D"] {
        for b in ["A", "B", "C", "D"] {
            assert_eq!(
                rebuilt.find_shortest_path(a, b).is_ok(),
                direct.find_shortest_path(a, b).is_ok(),
                "components differ at {} -> {}",
                a,
                b
            );
        }
    }
    assert!(rebuilt.find_shortest_path("A", "B").is_ok());
    assert_eq!(rebuilt.find_shortest_path("A", "C"), Err(PathError::NoPath));
}

#[test]
fn load_from_json_rejects_garbage() {
    assert_eq!(
        PathFinder::load_from_json("nonsense").err(),
        Some(PathError::MalformedExport)
    );
}

#[test]
fn crawler_export_matches_graph_renderings() {
    let mut c = Crawler::new(None).expect("built-in filter compiles");
    let a = "https://en.wikipedia.org/wiki/A".to_string();
    assert_eq!(c.claim(&a, 0, 3), ClaimOutcome::Claimed);
    let links = c.extract_candidates("https://en.wikipedia.org", &vec!["/wiki/B".to_string()]);
    c.record_page(&a, 0, links);
    let (dot, json) = c.export_graph();
    assert_eq!(dot, c.graph().export_dot());
    assert_eq!(json, c.graph().export_json());
    assert!(json.contains("\"edges\":[[\"https://en.wikipedia.org/wiki/A\",\"https://en.wikipedia.org/wiki/B\"]]"));
}
