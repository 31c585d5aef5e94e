//! A breadth-first wiki crawler core with verified graph analytics.
//!
//! The crate models the crawl pipeline (URL filtering, frontier and
//! visited-set management, link-graph capture) and the analytics that
//! consume a finished crawl (PageRank scoring and BFS shortest paths).
//! Network transport, HTML parsing and file persistence are left to the
//! caller; the library works on the values they hand in.

mod analytics;
mod codec;
mod crawler;
mod filter;
mod frontier;
mod graph;
mod pathfinder;
mod state;
mod stats;
mod text;
mod visited;

pub use analytics::{
    abs_diff, adj_add_edge, adj_add_name, adj_of, edge_views, initial_scores,
    lemma_pagerank_deterministic, name_id, new_score, next_scores, pagerank_from, pagerank_spec,
    total_diff, AdjModel, Analytics, PageRankResults, CONVERGENCE_THRESHOLD, DAMPING_DEN,
    DAMPING_NUM, MAX_ITERATIONS, SCALE,
};
pub use codec::{
    dec_string, dot_edge_line, dot_edge_lines, dot_node_line, dot_node_lines, dot_text,
    entry_views_u64, graph_json, graph_to_dot, graph_to_json, is_digit, joined_entries,
    joined_pairs, joined_strings, json_entry, json_pair, json_pair_list, json_string,
    json_string_list, last_segment, lemma_graph_json_injective, lemma_state_json_injective,
    pair_views, parse_graph_json, parse_state_json, quote_free, state_json, state_to_json,
};
pub use crawler::{
    accepted_urls, claim_decision, edge_nodes, lemma_depth_bound, lemma_fetch_at_most_once, lemma_second_claim_fails,
    new_edges, new_entries, ClaimOutcome, CrawlConfig, Crawler, PageLinks,
};
pub use filter::{
    regex_match, regex_ok, rule_accepts, url_host_path, FilterConfigError, RulePredicate,
    URLFilter,
};
pub use frontier::{frontier_contents, Frontier};
pub use graph::GraphExporter;
pub use pathfinder::{
    connects, degree_sum, lemma_export_reparse_round_trip, is_id_path, max_degree, min_degree, names_of, path_add_edge,
    path_add_name, path_of, reachable, zero_degree_count, ConnectivityReport, PathError,
    PathFinder, PathModel,
};
pub use state::{entry_views, CrawlState};
pub use stats::{sat_add, CrawlStats};
pub use text::{contains_seq, is_prefix, lex_leq, occurs_at, sort_strings};
