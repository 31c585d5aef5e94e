//! The crawl engine: the per-entry decision pipeline each worker runs.
//!
//! A worker pops an entry, asks `claim` whether to fetch it, performs
//! the fetch outside this library, and hands extracted candidate links
//! back through `extract_candidates` and `record_page`.  The claim step
//! checks membership and inserts in one indivisible call, which is what
//! makes a second fetch of the same URL impossible within a run.

use vstd::prelude::*;
use vstd::multiset::Multiset;
use vstd::string::StringExecFns;
use crate::filter::{FilterConfigError, RulePredicate, URLFilter};
use crate::frontier::{frontier_contents, Frontier};
use crate::graph::GraphExporter;
use crate::state::{entry_views, CrawlState};
use crate::stats::{sat_add, CrawlStats};
use crate::visited::VisitedSet;

verus! {

/// Run parameters with their default values.
#[derive(Clone, Copy, Debug)]
pub struct CrawlConfig {
    /// Entries deeper than this are discarded without a fetch.
    pub max_depth: usize,
    /// Delay applied after each dispatched fetch attempt.
    pub rate_limit_millis: u64,
    /// Number of concurrent workers.
    pub pool_size: usize,
    /// Pages each worker may fetch before it stops.
    pub pages_per_worker: usize,
}

impl Default for CrawlConfig {
    /// The default run parameters.
    fn default() -> (r: CrawlConfig)
        ensures
            r.max_depth == 3,
            r.rate_limit_millis == 200,
            r.pool_size == 10,
            r.pages_per_worker == 10,
    {
        CrawlConfig { max_depth: 3, rate_limit_millis: 200, pool_size: 10, pages_per_worker: 10 }
    }
}

/// What `claim` decided about one popped entry.
#[derive(PartialEq, Eq, Structural, Clone, Copy, Debug)]
pub enum ClaimOutcome {
    /// The entry's depth exceeds the maximum: discard, no fetch.
    DepthExceeded,
    /// The URL filter rejected the URL: discard, no fetch.
    Filtered,
    /// The URL was claimed earlier in this run: discard, no fetch.
    AlreadyVisited,
    /// The URL is claimed now; the caller must fetch it.
    Claimed,
}

/// The decision `claim` makes, as a function of the entry's depth, the
/// configured maximum, the filter's verdict and prior membership in the
/// visited set.
pub open spec fn claim_decision(
    depth: nat,
    max_depth: nat,
    accepted: bool,
    visited: bool,
) -> ClaimOutcome {
    if depth > max_depth {
        ClaimOutcome::DepthExceeded
    } else if !accepted {
        ClaimOutcome::Filtered
    } else if visited {
        ClaimOutcome::AlreadyVisited
    } else {
        ClaimOutcome::Claimed
    }
}

/// Law: a URL that is already in the visited set is never claimed, so
/// no URL is fetched more than once in a run, under any interleaving of
/// workers — each worker's claim is a single indivisible call.
pub proof fn lemma_fetch_at_most_once(depth: nat, max_depth: nat, accepted: bool)
    ensures
        claim_decision(depth, max_depth, accepted, true) != ClaimOutcome::Claimed,
{
}

/// Law: an entry whose recorded depth exceeds the configured maximum is
/// never claimed, so no fetch occurs for it.
pub proof fn lemma_depth_bound(depth: nat, max_depth: nat, accepted: bool, visited: bool)
    requires
        depth > max_depth,
    ensures
        claim_decision(depth, max_depth, accepted, visited) == ClaimOutcome::DepthExceeded,
{
}

/// Law: once a claim of `url` has succeeded, every later claim of the
/// same URL in the run fails, whatever its depth or filter verdict.
/// `claim` puts a claimed URL into the visited set, and every crawl
/// step leaves the visited set intact or grows it, so the premise holds
/// across any interleaving of workers.
pub proof fn lemma_second_claim_fails(
    visited_after_first: Set<Seq<char>>,
    visited_later: Set<Seq<char>>,
    url: Seq<char>,
    depth: nat,
    max_depth: nat,
    accepted: bool,
)
    requires
        visited_after_first.contains(url),
        visited_after_first.subset_of(visited_later),
    ensures
        claim_decision(depth, max_depth, accepted, visited_later.contains(url))
            != ClaimOutcome::Claimed,
{
}

/// One page's extracted links after filtering: the accepted absolute
/// URLs and the accept/reject counts.
pub struct PageLinks {
    /// The accepted candidate URLs, in extraction order.
    pub new_urls: Vec<String>,
    /// How many candidates the filter accepted.
    pub links_followed: u64,
    /// How many candidates the filter rejected.
    pub links_ignored: u64,
}

/// The candidates of `hrefs`, each resolved against `base`, that `f`
/// accepts, in order.
pub open spec fn accepted_urls(f: URLFilter, base: Seq<char>, hrefs: Seq<Seq<char>>) -> Seq<
    Seq<char>,
>
    decreases hrefs.len(),
{
    if hrefs.len() == 0 {
        Seq::empty()
    } else {
        let rest = accepted_urls(f, base, hrefs.drop_last());
        let full = base + hrefs.last();
        if f.spec_accepts(full) {
            rest.push(full)
        } else {
            rest
        }
    }
}

/// The directed edges recorded for candidates not yet visited.
pub open spec fn new_edges(
    visited: Set<Seq<char>>,
    from: Seq<char>,
    urls: Seq<Seq<char>>,
) -> Seq<(Seq<char>, Seq<char>)>
    decreases urls.len(),
{
    if urls.len() == 0 {
        Seq::empty()
    } else {
        let rest = new_edges(visited, from, urls.drop_last());
        if !visited.contains(urls.last()) {
            rest.push((from, urls.last()))
        } else {
            rest
        }
    }
}

/// The frontier entries queued for candidates not yet visited.
pub open spec fn new_entries(
    visited: Set<Seq<char>>,
    urls: Seq<Seq<char>>,
    depth: nat,
) -> Multiset<(Seq<char>, nat)>
    decreases urls.len(),
{
    if urls.len() == 0 {
        Multiset::empty()
    } else {
        let rest = new_entries(visited, urls.drop_last(), depth);
        if !visited.contains(urls.last()) {
            rest.insert((urls.last(), depth))
        } else {
            rest
        }
    }
}

/// The endpoints occurring in `edges`.
pub open spec fn edge_nodes(edges: Seq<(Seq<char>, Seq<char>)>) -> Set<Seq<char>>
    decreases edges.len(),
{
    if edges.len() == 0 {
        Set::empty()
    } else {
        edge_nodes(edges.drop_last()).insert(edges.last().0).insert(edges.last().1)
    }
}

proof fn lemma_new_edges_push(
    visited: Set<Seq<char>>,
    from: Seq<char>,
    urls: Seq<Seq<char>>,
    u: Seq<char>,
)
    ensures
        new_edges(visited, from, urls.push(u)) == if !visited.contains(u) {
            new_edges(visited, from, urls).push((from, u))
        } else {
            new_edges(visited, from, urls)
        },
{
    assert(urls.push(u).drop_last() =~= urls);
}

proof fn lemma_new_entries_push(
    visited: Set<Seq<char>>,
    urls: Seq<Seq<char>>,
    depth: nat,
    u: Seq<char>,
)
    ensures
        new_entries(visited, urls.push(u), depth) == if !visited.contains(u) {
            new_entries(visited, urls, depth).insert((u, depth))
        } else {
            new_entries(visited, urls, depth)
        },
{
    assert(urls.push(u).drop_last() =~= urls);
}

proof fn lemma_edge_nodes_push(edges: Seq<(Seq<char>, Seq<char>)>, e: (Seq<char>, Seq<char>))
    ensures
        edge_nodes(edges.push(e)) == edge_nodes(edges).insert(e.0).insert(e.1),
{
    assert(edges.push(e).drop_last() =~= edges);
    assert(edges.push(e).last() == e);
}

/// The shared crawl state one run works on: frontier, visited set,
/// counters, link graph and URL filter.
///
/// Concurrent workers share one crawler behind a lock and call each
/// step through `&mut self`, so every step — in particular the
/// check-and-claim of `claim` — is one indivisible critical section.
pub struct Crawler {
    frontier: Frontier,
    visited: VisitedSet,
    stats: CrawlStats,
    graph: GraphExporter,
    filter: URLFilter,
}

impl Crawler {
    /// The frontier's contents.
    pub closed spec fn frontier_view(&self) -> Multiset<(Seq<char>, nat)> {
        frontier_contents(self.frontier)
    }

    /// The visited set.
    pub closed spec fn visited_view(&self) -> Set<Seq<char>> {
        self.visited@
    }

    /// The visited URLs in claim order.
    pub closed spec fn visited_seq(&self) -> Seq<Seq<char>> {
        self.visited.seq_view()
    }

    /// The run counters.
    pub closed spec fn stats_view(&self) -> CrawlStats {
        self.stats
    }

    /// The link graph.
    pub closed spec fn graph_view(&self) -> GraphExporter {
        self.graph
    }

    /// The URL filter.
    pub closed spec fn filter_view(&self) -> URLFilter {
        self.filter
    }

    /// The visited-set component.
    pub closed spec fn spec_visited(&self) -> VisitedSet {
        self.visited
    }

    /// The parts' invariants.
    pub open spec fn wf(&self) -> bool {
        &&& self.filter_view().wf()
        &&& self.graph_view().wf()
        &&& self.spec_visited().wf()
    }

    /// A crawler over the reference filter, with `start_url` seeded at
    /// depth zero when given.  It succeeds exactly when the regex
    /// engine accepts all nine built-in exclusion patterns.
    pub fn new(start_url: Option<String>) -> (r: Result<Crawler, FilterConfigError>)
        ensures
            (r is Ok) == (crate::filter::regex_ok(("Wikipedia:(.*?)")@)
                && crate::filter::regex_ok(("Special:(.*?)")@) && crate::filter::regex_ok(
                ("Talk:(.*?)")@,
            ) && crate::filter::regex_ok(("User:(.*?)")@) && crate::filter::regex_ok(
                ("File:(.*?)")@,
            ) && crate::filter::regex_ok(("Template:(.*?)")@) && crate::filter::regex_ok(
                ("Help:(.*?)")@,
            ) && crate::filter::regex_ok(("Category:(.*?)")@) && crate::filter::regex_ok(
                ("Portal:(.*?)")@,
            )),
            match r {
                Ok(c) => {
                    &&& c.wf()
                    &&& c.frontier_view() == match start_url {
                        Some(u) => Multiset::<(Seq<char>, nat)>::empty().insert((u@, 0nat)),
                        None => Multiset::<(Seq<char>, nat)>::empty(),
                    }
                    &&& c.visited_view() == Set::<Seq<char>>::empty()
                    &&& c.visited_seq() == Seq::<Seq<char>>::empty()
                    &&& c.stats_view() == (CrawlStats {
                        pages_visited: 0,
                        links_followed: 0,
                        links_ignored: 0,
                        start_time: 0,
                    })
                    &&& c.graph_view().spec_nodes() == Seq::<Seq<char>>::empty()
                    &&& c.graph_view().spec_edges() == Seq::<(Seq<char>, Seq<char>)>::empty()
                    &&& c.filter_view().spec_domains() =~= seq!["en.wikipedia.org"@]
                    &&& c.filter_view().spec_prefixes() =~= seq!["/wiki/"@]
                    &&& c.filter_view().spec_patterns() =~= seq![
                        "Wikipedia:(.*?)"@,
                        "Special:(.*?)"@,
                        "Talk:(.*?)"@,
                        "User:(.*?)"@,
                        "File:(.*?)"@,
                        "Template:(.*?)"@,
                        "Help:(.*?)"@,
                        "Category:(.*?)"@,
                        "Portal:(.*?)"@,
                    ]
                    &&& c.filter_view().spec_rules() == Seq::<(Seq<char>, RulePredicate)>::empty()
                },
                Err(e) => e.pattern_index < 9,
            },
    {
        let filter = match URLFilter::wiki_default() {
            Ok(f) => f,
            Err(e) => {
                return Err(e);
            },
        };
        let mut frontier = Frontier::new();
        if let Some(url) = start_url {
            frontier.push(url, 0);
        }
        Ok(
            Crawler {
                frontier,
                visited: VisitedSet::new(),
                stats: CrawlStats::new(0),
                graph: GraphExporter::new(),
                filter,
            },
        )
    }

    /// Resets the counters for a run that starts at `now_millis`.
    pub fn begin_run(&mut self, now_millis: u64)
        ensures
            final(self).stats_view() == (CrawlStats {
                pages_visited: 0,
                links_followed: 0,
                links_ignored: 0,
                start_time: now_millis,
            }),
            final(self).frontier_view() == old(self).frontier_view(),
            final(self).visited_seq() == old(self).visited_seq(),
            final(self).graph_view() == old(self).graph_view(),
            final(self).filter_view() == old(self).filter_view(),
            final(self).wf() == old(self).wf(),
    {
        self.stats = CrawlStats::new(now_millis);
    }

    /// Queues a saved run's remaining entries and replaces the visited
    /// set with the saved one.
    pub fn load_state(&mut self, state: CrawlState)
        ensures
            final(self).frontier_view() == old(self).frontier_view().add(
                entry_views(state.queue@).to_multiset(),
            ),
            final(self).visited_view() == Set::new(
                |u: Seq<char>| exists|i: int| 0 <= i < state.visited@.len() && state.visited@[i]@ == u,
            ),
            final(self).stats_view() == old(self).stats_view(),
            final(self).graph_view() == old(self).graph_view(),
            final(self).filter_view() == old(self).filter_view(),
            old(self).wf() ==> final(self).wf(),
    {
        broadcast use vstd::seq_lib::group_to_multiset_ensures;

        let mut queue = state.queue;
        let mut i: usize = 0;
        proof {
            assert(entry_views(queue@.subrange(0, 0)).to_multiset() =~= Multiset::<(
                Seq<char>,
                nat,
            )>::empty()) by {
                assert(entry_views(queue@.subrange(0, 0)) =~= Seq::<(Seq<char>, nat)>::empty());
            };
        }
        while i < queue.len()
            invariant
                i <= queue@.len(),
                self.visited == old(self).visited,
                self.stats == old(self).stats,
                self.graph == old(self).graph,
                self.filter == old(self).filter,
                self.frontier_view() == old(self).frontier_view().add(
                    entry_views(queue@.subrange(0, i as int)).to_multiset(),
                ),
            decreases queue@.len() - i,
        {
            let entry_url = queue[i].0.clone();
            let entry_depth = queue[i].1;
            let ghost pre = entry_views(queue@.subrange(0, i as int));
            self.frontier.push(entry_url, entry_depth);
            i += 1;
            proof {
                broadcast use vstd::seq_lib::group_to_multiset_ensures;

                let e = (queue@[i - 1].0@, queue@[i - 1].1 as nat);
                assert(entry_views(queue@.subrange(0, i as int)) =~= pre.push(e));
                assert(pre.push(e).to_multiset() =~= pre.to_multiset().insert(e));
                assert(self.frontier_view() =~= old(self).frontier_view().add(
                    entry_views(queue@.subrange(0, i as int)).to_multiset(),
                ));
            }
        }
        assert(queue@.subrange(0, queue@.len() as int) =~= queue@);
        self.visited.replace_with(state.visited);
    }

    /// Drains the frontier and snapshots the visited set, producing a
    /// state a later run can resume from.
    pub fn get_state(&mut self) -> (r: CrawlState)
        ensures
            entry_views(r.queue@).to_multiset() == old(self).frontier_view(),
            r.visited.deep_view() == old(self).visited_seq(),
            final(self).frontier_view() == Multiset::<(Seq<char>, nat)>::empty(),
            final(self).visited_seq() == old(self).visited_seq(),
            final(self).stats_view() == old(self).stats_view(),
            final(self).graph_view() == old(self).graph_view(),
            final(self).filter_view() == old(self).filter_view(),
            final(self).wf() == old(self).wf(),
    {
        broadcast use vstd::seq_lib::group_to_multiset_ensures;

        let mut queue: Vec<(String, usize)> = Vec::new();
        proof {
            assert(entry_views(queue@).to_multiset() =~= Multiset::<(Seq<char>, nat)>::empty())
                by {
                assert(entry_views(queue@) =~= Seq::<(Seq<char>, nat)>::empty());
            };
        }
        let mut drained = false;
        while !drained
            invariant
                self.visited == old(self).visited,
                self.stats == old(self).stats,
                self.graph == old(self).graph,
                self.filter == old(self).filter,
                entry_views(queue@).to_multiset().add(self.frontier_view()) == old(
                    self,
                ).frontier_view(),
                drained ==> self.frontier_view() == Multiset::<(Seq<char>, nat)>::empty(),
            decreases self.frontier_view().len() + (if drained { 0int } else { 1int }),
        {
            let ghost pre = entry_views(queue@);
            let ghost pre_frontier = self.frontier_view();
            match self.frontier.pop() {
                Some(entry) => {
                    let ghost e = (entry.0@, entry.1 as nat);
                    queue.push(entry);
                    proof {
                        broadcast use vstd::seq_lib::group_to_multiset_ensures;

                        assert(entry_views(queue@) =~= pre.push(e));
                        assert(pre.push(e).to_multiset() =~= pre.to_multiset().insert(e));
                        assert(entry_views(queue@).to_multiset().add(self.frontier_view())
                            =~= pre.to_multiset().add(pre_frontier));
                    }
                },
                None => {
                    drained = true;
                },
            }
        }
        let visited = self.visited.to_vec();
        CrawlState { queue, visited }
    }

    /// The counters, as of this moment of the run.
    pub fn get_stats(&self) -> (r: CrawlStats)
        ensures
            r == self.stats_view(),
    {
        self.stats
    }

    /// Read access to the link graph.
    pub fn graph(&self) -> (r: &GraphExporter)
        ensures
            *r == self.graph_view(),
    {
        &self.graph
    }

    /// Law: the visited set is exactly the set of elements of the
    /// claim-order sequence, so preserving the sequence preserves the
    /// set, whatever mix of crawl steps ran in between.
    pub proof fn lemma_visited_view_from_seq(&self)
        ensures
            self.visited_view() == Set::new(
                |u: Seq<char>| self.visited_seq().contains(u),
            ),
    {
        assert(self.visited_view() =~= Set::new(
            |u: Seq<char>| self.visited_seq().contains(u),
        ));
    }

    /// The DOT and JSON renderings of the link graph, in that order.
    /// Writing them to disk is the caller's business.
    pub fn export_graph(&self) -> (r: (String, String))
        requires
            self.wf(),
        ensures
            r.0@ == crate::codec::dot_text(
                self.graph_view().spec_nodes(),
                self.graph_view().spec_edges(),
            ),
            r.1@ == crate::codec::graph_json(
                self.graph_view().spec_nodes(),
                self.graph_view().spec_edges(),
            ),
    {
        (self.graph.export_dot(), self.graph.export_json())
    }

    /// Registers a named custom filter rule, overwriting any rule of
    /// the same name.
    pub fn add_custom_url_rule(&mut self, name: String, rule: RulePredicate)
        requires
            old(self).wf(),
        ensures
            final(self).wf(),
            final(self).frontier_view() == old(self).frontier_view(),
            final(self).visited_seq() == old(self).visited_seq(),
            final(self).stats_view() == old(self).stats_view(),
            final(self).graph_view() == old(self).graph_view(),
            final(self).filter_view().spec_domains() == old(self).filter_view().spec_domains(),
            final(self).filter_view().spec_prefixes() == old(self).filter_view().spec_prefixes(),
            final(self).filter_view().spec_patterns() == old(self).filter_view().spec_patterns(),
            (exists|i: int|
                0 <= i < old(self).filter_view().spec_rules().len() && (#[trigger] old(
                    self,
                ).filter_view().spec_rules()[i]).0 == name@) ==> final(self).filter_view().spec_rules()
                == old(self).filter_view().spec_rules().update(
                choose|i: int|
                    0 <= i < old(self).filter_view().spec_rules().len() && (#[trigger] old(
                        self,
                    ).filter_view().spec_rules()[i]).0 == name@,
                (name@, rule),
            ),
            !(exists|i: int|
                0 <= i < old(self).filter_view().spec_rules().len() && (#[trigger] old(
                    self,
                ).filter_view().spec_rules()[i]).0 == name@) ==> final(self).filter_view().spec_rules()
                == old(self).filter_view().spec_rules().push((name@, rule)),
    {
        self.filter.add_custom_rule(name, rule);
    }

    /// Pops one work item, if the frontier has one at this moment.
    pub fn next_entry(&mut self) -> (r: Option<(String, usize)>)
        ensures
            final(self).visited_seq() == old(self).visited_seq(),
            final(self).stats_view() == old(self).stats_view(),
            final(self).graph_view() == old(self).graph_view(),
            final(self).filter_view() == old(self).filter_view(),
            final(self).wf() == old(self).wf(),
            match r {
                None => {
                    &&& old(self).frontier_view() == Multiset::<(Seq<char>, nat)>::empty()
                    &&& final(self).frontier_view() == old(self).frontier_view()
                },
                Some(entry) => {
                    &&& old(self).frontier_view().contains((entry.0@, entry.1 as nat))
                    &&& final(self).frontier_view() == old(self).frontier_view().remove(
                        (entry.0@, entry.1 as nat),
                    )
                },
            },
    {
        self.frontier.pop()
    }

    /// Decides one popped entry: discards it if too deep, rejected by
    /// the filter, or already claimed; otherwise claims it.  The
    /// membership check and the insertion are one indivisible step.
    pub fn claim(&mut self, url: &String, depth: usize, max_depth: usize) -> (r: ClaimOutcome)
        requires
            old(self).wf(),
        ensures
            final(self).wf(),
            r == claim_decision(
                depth as nat,
                max_depth as nat,
                old(self).filter_view().spec_accepts(url@),
                old(self).visited_view().contains(url@),
            ),
            final(self).frontier_view() == old(self).frontier_view(),
            final(self).graph_view() == old(self).graph_view(),
            final(self).filter_view() == old(self).filter_view(),
            r is Claimed ==> {
                &&& final(self).visited_seq() == old(self).visited_seq().push(url@)
                &&& final(self).visited_view() == old(self).visited_view().insert(url@)
                &&& final(self).stats_view() == (CrawlStats {
                    pages_visited: sat_add(old(self).stats_view().pages_visited, 1),
                    ..old(self).stats_view()
                })
            },
            !(r is Claimed) ==> {
                &&& final(self).visited_seq() == old(self).visited_seq()
                &&& final(self).visited_view() == old(self).visited_view()
                &&& final(self).stats_view() == old(self).stats_view()
            },
    {
        if depth > max_depth {
            return ClaimOutcome::DepthExceeded;
        }
        if !self.filter.is_valid_url(url.as_str()) {
            return ClaimOutcome::Filtered;
        }
        let claimed = self.visited.check_and_claim(url.clone());
        if claimed {
            self.stats.record_page();
            ClaimOutcome::Claimed
        } else {
            assert(self.visited@ =~= old(self).visited@);
            ClaimOutcome::AlreadyVisited
        }
    }

    /// Resolves each extracted `href` against `base` and filters it,
    /// returning the accepted URLs and the accept/reject counts.
    pub fn extract_candidates(&self, base: &str, hrefs: &Vec<String>) -> (r: PageLinks)
        requires
            self.wf(),
        ensures
            r.new_urls.deep_view() == accepted_urls(self.filter_view(), base@, hrefs.deep_view()),
            r.links_followed == r.new_urls.deep_view().len(),
            r.links_ignored == hrefs.deep_view().len() - r.new_urls.deep_view().len(),
            r.new_urls.deep_view().len() <= hrefs.deep_view().len(),
    {
        let mut new_urls: Vec<String> = Vec::new();
        let mut i: usize = 0;
        proof {
            assert(hrefs.deep_view().subrange(0, 0) =~= Seq::<Seq<char>>::empty());
            assert(new_urls.deep_view() =~= accepted_urls(
                self.filter_view(),
                base@,
                hrefs.deep_view().subrange(0, 0),
            ));
        }
        while i < hrefs.len()
            invariant
                self.wf(),
                i <= hrefs@.len(),
                hrefs.deep_view().len() == hrefs@.len(),
                new_urls.deep_view() == accepted_urls(
                    self.filter_view(),
                    base@,
                    hrefs.deep_view().subrange(0, i as int),
                ),
                new_urls.deep_view().len() <= i,
            decreases hrefs@.len() - i,
        {
            assert(hrefs.deep_view()[i as int] == hrefs@[i as int]@);
            let mut full = String::from_str(base);
            full.append(hrefs[i].as_str());
            let ghost pre = new_urls.deep_view();
            let accepted = self.filter.is_valid_url(full.as_str());
            if accepted {
                new_urls.push(full);
                assert(new_urls.deep_view() =~= pre.push(base@ + hrefs.deep_view()[i as int]));
            }
            i += 1;
            proof {
                let sub = hrefs.deep_view().subrange(0, i as int);
                assert(sub.drop_last() =~= hrefs.deep_view().subrange(0, i - 1));
                assert(sub.last() == hrefs.deep_view()[i - 1]);
                assert(new_urls.deep_view() =~= accepted_urls(self.filter_view(), base@, sub));
            }
        }
        assert(hrefs.deep_view().subrange(0, hrefs@.len() as int) =~= hrefs.deep_view());
        let followed = new_urls.len() as u64;
        let ignored = (hrefs.len() - new_urls.len()) as u64;
        proof {
            assert(new_urls.deep_view().len() == new_urls@.len());
        }
        PageLinks { new_urls, links_followed: followed, links_ignored: ignored }
    }

    /// Records one successfully fetched page: for each accepted
    /// candidate not yet visited, appends the directed edge and queues
    /// the candidate one hop deeper; then merges the link counters.
    pub fn record_page(&mut self, url: &String, depth: usize, links: PageLinks)
        requires
            old(self).wf(),
            depth < usize::MAX,
        ensures
            final(self).wf(),
            final(self).graph_view().spec_edges() == old(self).graph_view().spec_edges()
                + new_edges(old(self).visited_view(), url@, links.new_urls.deep_view()),
            final(self).graph_view().node_set() == old(self).graph_view().node_set().union(
                edge_nodes(new_edges(old(self).visited_view(), url@, links.new_urls.deep_view())),
            ),
            final(self).frontier_view() == old(self).frontier_view().add(
                new_entries(old(self).visited_view(), links.new_urls.deep_view(), (depth + 1) as nat),
            ),
            final(self).visited_seq() == old(self).visited_seq(),
            final(self).visited_view() == old(self).visited_view(),
            final(self).filter_view() == old(self).filter_view(),
            final(self).stats_view() == (CrawlStats {
                links_followed: sat_add(old(self).stats_view().links_followed, links.links_followed),
                links_ignored: sat_add(old(self).stats_view().links_ignored, links.links_ignored),
                ..old(self).stats_view()
            }),
    {
        let urls = links.new_urls;
        let mut i: usize = 0;
        proof {
            assert(urls.deep_view().subrange(0, 0) =~= Seq::<Seq<char>>::empty());
            assert(new_edges(old(self).visited_view(), url@, urls.deep_view().subrange(0, 0))
                =~= Seq::<(Seq<char>, Seq<char>)>::empty());
            assert(new_entries(old(self).visited_view(), urls.deep_view().subrange(0, 0), (depth + 1) as nat)
                =~= Multiset::<(Seq<char>, nat)>::empty());
            assert(old(self).graph_view().node_set().union(Set::empty())
                =~= old(self).graph_view().node_set());
        }
        while i < urls.len()
            invariant
                self.wf(),
                i <= urls@.len(),
                urls.deep_view().len() == urls@.len(),
                depth < usize::MAX,
                self.visited == old(self).visited,
                self.stats == old(self).stats,
                self.filter == old(self).filter,
                self.graph_view().spec_edges() == old(self).graph_view().spec_edges() + new_edges(
                    old(self).visited_view(),
                    url@,
                    urls.deep_view().subrange(0, i as int),
                ),
                self.graph_view().node_set() == old(self).graph_view().node_set().union(
                    edge_nodes(
                        new_edges(
                            old(self).visited_view(),
                            url@,
                            urls.deep_view().subrange(0, i as int),
                        ),
                    ),
                ),
                self.frontier_view() == old(self).frontier_view().add(
                    new_entries(
                        old(self).visited_view(),
                        urls.deep_view().subrange(0, i as int),
                        (depth + 1) as nat,
                    ),
                ),
            decreases urls@.len() - i,
        {
            assert(urls.deep_view()[i as int] == urls@[i as int]@);
            let ghost pre_edges = self.graph_view().spec_edges();
            let ghost pre_nodes = self.graph_view().node_set();
            let ghost pre_frontier = self.frontier_view();
            let candidate = urls[i].clone();
            if !self.visited.contains(&candidate) {
                self.graph.add_edge(url.clone(), candidate.clone());
                self.frontier.push(candidate, depth + 1);
            }
            i += 1;
            proof {
                let prev = urls.deep_view().subrange(0, i - 1);
                let sub = urls.deep_view().subrange(0, i as int);
                let u = urls.deep_view()[i - 1];
                let vis = old(self).visited_view();
                assert(sub =~= prev.push(u));
                lemma_new_edges_push(vis, url@, prev, u);
                lemma_new_entries_push(vis, prev, (depth + 1) as nat, u);
                assert(self.graph_view().spec_edges() =~= old(self).graph_view().spec_edges()
                    + new_edges(vis, url@, sub));
                if !vis.contains(u) {
                    lemma_edge_nodes_push(new_edges(vis, url@, prev), (url@, u));
                }
                assert(self.graph_view().node_set() =~= old(self).graph_view().node_set().union(
                    edge_nodes(new_edges(vis, url@, sub)),
                ));
                assert(self.frontier_view() =~= old(self).frontier_view().add(
                    new_entries(vis, sub, (depth + 1) as nat),
                ));
            }
        }
        assert(urls.deep_view().subrange(0, urls@.len() as int) =~= urls.deep_view());
        self.stats.merge_links(links.links_followed, links.links_ignored);
    }
}

} // verus!

