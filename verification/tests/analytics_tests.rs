use wikigraph::{Analytics, SCALE};

fn edges(list: &[(&str, &str)]) -> Vec<(String, String)> {
    list.iter()
        .map(|(a, b)| (a.to_string(), b.to_string()))
        .collect()
}

#[test]
fn two_node_cycle_converges_to_half_each() {
    let mut a = Analytics::new();
    a.load_from_edges(edges(&[("A", "B"), ("B", "A")]));
    let r = a.calculate_pagerank();
    assert!(r.converged);
    assert_eq!(r.iterations, 0);
    assert_eq!(r.scores.len(), 2);
    assert_eq!(r.scores[0], ("A".to_string(), SCALE / 2));
    assert_eq!(r.scores[1], ("B".to_string(), SCALE / 2));
}

#[test]
fn identical_edge_lists_give_identical_results() {
    let list = [("A", "B"), ("B", "C"), ("C", "A"), ("A", "C")];
    let mut a1 = Analytics::new();
    a1.load_from_edges(edges(&list));
    let r1 = a1.calculate_pagerank();
    let mut a2 = Analytics::new();
    a2.load_from_edges(edges(&list));
    let r2 = a2.calculate_pagerank();
    assert_eq!(r1.scores, r2.scores);
    assert_eq!(r1.iterations, r2.iterations);
    assert_eq!(r1.converged, r2.converged);
}

#[test]
fn empty_graph_converges_immediately() {
    let a = Analytics::new();
    let r = a.calculate_pagerank();
    assert!(r.converged);
    assert_eq!(r.iterations, 0);
    assert!(r.scores.is_empty());
}

#[test]
fn single_link_first_iteration_values() {
    // A -> B from an even split: B gets the base share plus all of A's
    // damped mass; A keeps only the base share
    let mut a = Analytics::new();
    a.load_from_edges(edges(&[("A", "B")]));
    let r = a.calculate_pagerank();
    let base = (SCALE - 85 * SCALE / 100) / 2;
    assert_eq!(r.scores[0].0, "A");
    assert_eq!(r.scores[0].1, base);
    assert!(r.converged);
}

#[test]
fn pages_are_listed_sorted_without_duplicates() {
    let mut a = Analytics::new();
    a.load_from_edges(edges(&[("B", "A"), ("A", "C"), ("B", "C")]));
    assert_eq!(
        a.get_all_pages(),
        vec!["A".to_string(), "B".to_string(), "C".to_string()]
    );
}

#[test]
fn duplicate_edges_split_influence_twice() {
    // A links to B twice and to C once: B receives two thirds of A's
    // damped mass, C one third
    let mut a = Analytics::new();
    a.load_from_edges(edges(&[("A", "B"), ("A", "B"), ("A", "C")]));
    let r = a.calculate_pagerank();
    let b_score = r.scores.iter().find(|p| p.0 == "B").unwrap().1;
    let c_score = r.scores.iter().find(|p| p.0 == "C").unwrap().1;
    assert!(b_score > c_score);
}
