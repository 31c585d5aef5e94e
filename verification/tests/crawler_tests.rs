use wikigraph::{ClaimOutcome, CrawlConfig, CrawlState, Crawler};

fn new_crawler(seed: Option<&str>) -> Crawler {
    Crawler::new(seed.map(|s| s.to_string())).expect("built-in filter compiles")
}

const A: &str = "https://en.wikipedia.org/wiki/A";
const B: &str = "https://en.wikipedia.org/wiki/B";

#[test]
fn url_is_claimed_at_most_once() {
    let mut c = new_crawler(None);
    let url = A.to_string();
    assert_eq!(c.claim(&url, 0, 3), ClaimOutcome::Claimed);
    assert_eq!(c.claim(&url, 0, 3), ClaimOutcome::AlreadyVisited);
    assert_eq!(c.claim(&url, 1, 3), ClaimOutcome::AlreadyVisited);
    assert_eq!(c.get_stats().pages_visited, 1);
}

#[test]
fn entry_beyond_max_depth_is_never_claimed() {
    let mut c = new_crawler(None);
    let url = A.to_string();
    assert_eq!(c.claim(&url, 4, 3), ClaimOutcome::DepthExceeded);
    assert_eq!(c.get_stats().pages_visited, 0);
    assert_eq!(c.claim(&url, 3, 3), ClaimOutcome::Claimed);
}

#[test]
fn filtered_url_is_not_claimed() {
    let mut c = new_crawler(None);
    let url = "https://en.wikipedia.org/wiki/Talk:A".to_string();
    assert_eq!(c.claim(&url, 0, 3), ClaimOutcome::Filtered);
    assert_eq!(c.get_stats().pages_visited, 0);
}

#[test]
fn seed_is_queued_at_depth_zero() {
    let mut c = new_crawler(Some(A));
    assert_eq!(c.next_entry(), Some((A.to_string(), 0)));
    assert_eq!(c.next_entry(), None);
}

#[test]
fn extract_candidates_filters_and_counts() {
    let c = new_crawler(None);
    let hrefs = vec![
        "/wiki/B".to_string(),
        "/wiki/Talk:B".to_string(),
        "/wiki/C".to_string(),
    ];
    let links = c.extract_candidates("https://en.wikipedia.org", &hrefs);
    assert_eq!(
        links.new_urls,
        vec![
            "https://en.wikipedia.org/wiki/B".to_string(),
            "https://en.wikipedia.org/wiki/C".to_string(),
        ]
    );
    assert_eq!(links.links_followed, 2);
    assert_eq!(links.links_ignored, 1);
}

#[test]
fn record_page_queues_and_links_only_unvisited_candidates() {
    let mut c = new_crawler(None);
    let a = A.to_string();
    let b = B.to_string();
    assert_eq!(c.claim(&a, 0, 3), ClaimOutcome::Claimed);
    assert_eq!(c.claim(&b, 0, 3), ClaimOutcome::Claimed);
    let hrefs = vec!["/wiki/B".to_string(), "/wiki/C".to_string()];
    let links = c.extract_candidates("https://en.wikipedia.org", &hrefs);
    c.record_page(&a, 0, links);
    // B was already visited: only C is linked and queued
    let edges = c.graph().edges();
    assert_eq!(
        edges,
        vec![(A.to_string(), "https://en.wikipedia.org/wiki/C".to_string())]
    );
    assert_eq!(
        c.next_entry(),
        Some(("https://en.wikipedia.org/wiki/C".to_string(), 1))
    );
    assert_eq!(c.next_entry(), None);
    assert_eq!(c.get_stats().links_followed, 2);
    assert_eq!(c.get_stats().links_ignored, 0);
}

#[test]
fn repeated_candidate_yields_duplicate_edges() {
    let mut c = new_crawler(None);
    let a = A.to_string();
    assert_eq!(c.claim(&a, 0, 3), ClaimOutcome::Claimed);
    let hrefs = vec!["/wiki/B".to_string(), "/wiki/B".to_string()];
    let links = c.extract_candidates("https://en.wikipedia.org", &hrefs);
    c.record_page(&a, 0, links);
    let edges = c.graph().edges();
    assert_eq!(edges.len(), 2);
    assert_eq!(edges[0], edges[1]);
}

#[test]
fn begin_run_resets_counters() {
    let mut c = new_crawler(None);
    let a = A.to_string();
    c.claim(&a, 0, 3);
    c.begin_run(1234);
    let stats = c.get_stats();
    assert_eq!(stats.pages_visited, 0);
    assert_eq!(stats.start_time, 1234);
}

#[test]
fn default_config_matches_documented_values() {
    let cfg = CrawlConfig::default();
    assert_eq!(cfg.max_depth, 3);
    assert_eq!(cfg.rate_limit_millis, 200);
    assert_eq!(cfg.pool_size, 10);
    assert_eq!(cfg.pages_per_worker, 10);
}

#[test]
fn resume_reproduces_frontier_and_visited() {
    let mut c = new_crawler(Some(A));
    let a = A.to_string();
    assert_eq!(c.claim(&a, 0, 3), ClaimOutcome::Claimed);
    let hrefs = vec!["/wiki/B".to_string(), "/wiki/C".to_string()];
    let links = c.extract_candidates("https://en.wikipedia.org", &hrefs);
    c.record_page(&a, 0, links);
    let state = c.get_state();

    let mut resumed = new_crawler(None);
    resumed.load_state(state);
    let mut again = resumed.get_state();

    let mut c2 = new_crawler(Some(A));
    assert_eq!(c2.claim(&a, 0, 3), ClaimOutcome::Claimed);
    let links2 = c2.extract_candidates(
        "https://en.wikipedia.org",
        &vec!["/wiki/B".to_string(), "/wiki/C".to_string()],
    );
    c2.record_page(&a, 0, links2);
    let mut expected = c2.get_state();

    again.queue.sort();
    expected.queue.sort();
    assert_eq!(again.queue, expected.queue);
    let mut v1 = again.visited;
    let mut v2 = expected.visited;
    v1.sort();
    v2.sort();
    assert_eq!(v1, v2);
}

#[test]
fn state_json_round_trip_is_exact() {
    let state = CrawlState {
        queue: vec![(A.to_string(), 0), (B.to_string(), 12)],
        visited: vec![A.to_string()],
    };
    let text = state.to_json();
    assert_eq!(
        text,
        format!(
            "{{\"queue\":[[\"{}\",0],[\"{}\",12]],\"visited\":[\"{}\"]}}",
            A, B, A
        )
    );
    let back = CrawlState::parse(&text).expect("snapshot reparses");
    assert_eq!(back.queue, vec![(A.to_string(), 0), (B.to_string(), 12)]);
    assert_eq!(back.visited, vec![A.to_string()]);
}

#[test]
fn empty_state_round_trips() {
    let state = CrawlState { queue: vec![], visited: vec![] };
    let text = state.to_json();
    assert_eq!(text, "{\"queue\":[],\"visited\":[]}");
    let back = CrawlState::parse(&text).expect("snapshot reparses");
    assert!(back.queue.is_empty());
    assert!(back.visited.is_empty());
}

#[test]
fn state_parse_rejects_malformed_text() {
    assert!(CrawlState::parse("{}").is_none());
    assert!(CrawlState::parse("{\"queue\":[],\"visited\":[").is_none());
    assert!(CrawlState::parse("{\"queue\":[[\"a\",]],\"visited\":[]}").is_none());
    assert!(CrawlState::parse("{\"queue\":[],\"visited\":[]}extra").is_none());
}

#[test]
fn large_depths_survive_the_snapshot_round_trip() {
    let state = CrawlState {
        queue: vec![
            (A.to_string(), 907),
            (B.to_string(), 1234567),
            (A.to_string(), usize::MAX),
        ],
        visited: vec![],
    };
    let text = state.to_json();
    let back = CrawlState::parse(&text).expect("snapshot reparses");
    assert_eq!(back.queue, state.queue);
}
