use wikigraph::{FilterConfigError, RulePredicate, URLFilter};

fn example_filter() -> URLFilter {
    URLFilter::new(
        vec!["example.org".to_string()],
        vec!["/wiki/".to_string()],
        vec![
            "Talk:(.*?)".to_string(),
            "User:(.*?)".to_string(),
            "Category:(.*?)".to_string(),
        ],
    )
    .expect("patterns compile")
}

#[test]
fn excluded_pattern_rejects_even_when_domain_and_prefix_pass() {
    let f = example_filter();
    assert!(!f.is_valid_url("https://example.org/wiki/Talk:Subject"));
}

#[test]
fn plain_article_passes_with_no_custom_rules() {
    let f = example_filter();
    assert!(f.is_valid_url("https://example.org/wiki/Subject"));
}

#[test]
fn fragment_is_rejected() {
    let f = example_filter();
    assert!(!f.is_valid_url("https://example.org/wiki/Subject#History"));
}

#[test]
fn unparseable_url_is_rejected() {
    let f = example_filter();
    assert!(!f.is_valid_url("not a url"));
}

#[test]
fn foreign_domain_is_rejected() {
    let f = example_filter();
    assert!(!f.is_valid_url("https://other.example.com/wiki/Subject"));
}

#[test]
fn wrong_path_prefix_is_rejected() {
    let f = example_filter();
    assert!(!f.is_valid_url("https://example.org/blog/Subject"));
}

#[test]
fn custom_rule_is_conjoined() {
    let mut f = example_filter();
    assert!(f.is_valid_url("https://example.org/wiki/January_1"));
    f.add_custom_rule(
        "exclude_dates".to_string(),
        RulePredicate::ForbidSubstring("/wiki/January_".to_string()),
    );
    assert!(!f.is_valid_url("https://example.org/wiki/January_1"));
    assert!(f.is_valid_url("https://example.org/wiki/Subject"));
}

#[test]
fn custom_rule_overwrites_by_name() {
    let mut f = example_filter();
    f.add_custom_rule(
        "rule".to_string(),
        RulePredicate::ForbidSubstring("/wiki/S".to_string()),
    );
    assert!(!f.is_valid_url("https://example.org/wiki/Subject"));
    f.add_custom_rule(
        "rule".to_string(),
        RulePredicate::ForbidSubstring("/wiki/Z".to_string()),
    );
    assert!(f.is_valid_url("https://example.org/wiki/Subject"));
}

#[test]
fn require_prefix_rule_applies_to_whole_url() {
    let mut f = example_filter();
    f.add_custom_rule(
        "https_only".to_string(),
        RulePredicate::RequirePrefix("https://".to_string()),
    );
    assert!(f.is_valid_url("https://example.org/wiki/Subject"));
    assert!(!f.is_valid_url("http://example.org/wiki/Subject"));
}

#[test]
fn malformed_pattern_fails_at_construction() {
    let r = URLFilter::new(
        vec!["example.org".to_string()],
        vec!["/wiki/".to_string()],
        vec!["Talk:(.*?)".to_string(), "(".to_string()],
    );
    assert_eq!(r.err(), Some(FilterConfigError { pattern_index: 1 }));
}

#[test]
fn wiki_default_builds_and_filters() {
    let f = URLFilter::wiki_default().expect("default patterns compile");
    assert!(f.is_valid_url("https://en.wikipedia.org/wiki/Rust_(programming_language)"));
    assert!(!f.is_valid_url("https://en.wikipedia.org/wiki/Talk:Rust"));
    assert!(!f.is_valid_url("https://en.wikipedia.org/wiki/Category:Software"));
    assert!(!f.is_valid_url("https://example.org/wiki/Rust"));
}
