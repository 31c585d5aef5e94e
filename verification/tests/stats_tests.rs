use wikigraph::CrawlStats;

#[test]
fn new_stats_start_at_zero_with_given_time() {
    let s = CrawlStats::new(42);
    assert_eq!(s.pages_visited, 0);
    assert_eq!(s.links_followed, 0);
    assert_eq!(s.links_ignored, 0);
    assert_eq!(s.start_time, 42);
}

#[test]
fn counters_saturate_instead_of_wrapping() {
    let mut s = CrawlStats::new(0);
    s.merge_links(u64::MAX, 1);
    s.merge_links(5, u64::MAX);
    assert_eq!(s.links_followed, u64::MAX);
    assert_eq!(s.links_ignored, u64::MAX);
    s.record_page();
    assert_eq!(s.pages_visited, 1);
}

#[test]
fn merge_accumulates_counts() {
    let mut s = CrawlStats::new(7);
    s.merge_links(3, 1);
    s.merge_links(2, 4);
    assert_eq!(s.links_followed, 5);
    assert_eq!(s.links_ignored, 5);
    assert_eq!(s.start_time, 7);
}
