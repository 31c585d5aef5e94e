//! BFS shortest paths and connectivity statistics over an undirected
//! view of the crawl graph: every recorded edge is inserted in both
//! directions.

use vstd::prelude::*;
use crate::analytics::{name_id, rows_view};
use crate::text::{lex_leq, sort_strings};
use crate::codec::{graph_json, pair_views, parse_graph_json, quote_free};

verus! {

/// Typed failures of the path finder's queries.
#[derive(PartialEq, Eq, Structural, Clone, Copy, Debug)]
pub enum PathError {
    /// The start page is not a node of the graph.
    StartNotFound,
    /// The end page is not a node of the graph.
    EndNotFound,
    /// Both pages exist but no path connects them.
    NoPath,
    /// The graph has fewer than two nodes, so no pair can be sampled.
    TooFewNodes,
    /// No sampled pair was connected.
    NoSamples,
    /// The text handed to `load_from_json` is not a graph export.
    MalformedExport,
}

impl PathError {
    /// A short description of the failure.
    pub fn message(&self) -> (r: String)
        ensures
            r@ == match self {
                PathError::StartNotFound => ("start page not found in graph")@,
                PathError::EndNotFound => ("end page not found in graph")@,
                PathError::NoPath => ("no path found between the pages")@,
                PathError::TooFewNodes => (
                "graph has too few nodes to calculate average distance")@,
                PathError::NoSamples => ("no paths found between sampled nodes")@,
                PathError::MalformedExport => ("text is not a graph export")@,
            },
    {
        match self {
            PathError::StartNotFound => String::from_str("start page not found in graph"),
            PathError::EndNotFound => String::from_str("end page not found in graph"),
            PathError::NoPath => String::from_str("no path found between the pages"),
            PathError::TooFewNodes => String::from_str(
                "graph has too few nodes to calculate average distance",
            ),
            PathError::NoSamples => String::from_str("no paths found between sampled nodes"),
            PathError::MalformedExport => String::from_str("text is not a graph export"),
        }
    }
}

/// An undirected adjacency model: page names and neighbor ids per page.
pub type PathModel = (Seq<Seq<char>>, Seq<Seq<int>>);

/// Adds `u` as a node if it is new.
pub open spec fn path_add_name(m: PathModel, u: Seq<char>) -> PathModel {
    if m.0.contains(u) {
        m
    } else {
        (m.0.push(u), m.1.push(Seq::empty()))
    }
}

/// Records the edge `from -- to` in both directions.
pub open spec fn path_add_edge(m: PathModel, from: Seq<char>, to: Seq<char>) -> PathModel {
    let m1 = path_add_name(path_add_name(m, from), to);
    let fi = name_id(m1.0, from);
    let ti = name_id(m1.0, to);
    let a1 = m1.1.update(fi, m1.1[fi].push(ti));
    (m1.0, a1.update(ti, a1[ti].push(fi)))
}

/// Folds a whole edge list into the adjacency, in order.
pub open spec fn path_of(m: PathModel, edges: Seq<(Seq<char>, Seq<char>)>) -> PathModel
    decreases edges.len(),
{
    if edges.len() == 0 {
        m
    } else {
        path_add_edge(path_of(m, edges.drop_last()), edges.last().0, edges.last().1)
    }
}


/// A sequence of node ids forming a path in `adj`: nonempty, every id
/// valid, every consecutive pair adjacent.
pub open spec fn is_id_path(adj: Seq<Seq<int>>, p: Seq<int>) -> bool {
    &&& p.len() >= 1
    &&& (forall|k: int| 0 <= k < p.len() ==> 0 <= #[trigger] p[k] < adj.len())
    &&& (forall|k: int| 0 <= k < p.len() - 1 ==> adj[p[k]].contains(#[trigger] p[k + 1]))
}

/// `p` is a path from `s` to `t`.
pub open spec fn connects(adj: Seq<Seq<int>>, p: Seq<int>, s: int, t: int) -> bool {
    is_id_path(adj, p) && p.first() == s && p.last() == t
}

/// Some path leads from `s` to `t`.
pub open spec fn reachable(adj: Seq<Seq<int>>, s: int, t: int) -> bool {
    exists|p: Seq<int>| connects(adj, p, s, t)
}

/// The names of the nodes along an id path.
pub open spec fn names_of(names: Seq<Seq<char>>, p: Seq<int>) -> Seq<Seq<char>> {
    Seq::new(p.len(), |k: int| names[p[k]])
}

/// A distinct sequence of ids below `n` has at most `n` entries.
proof fn lemma_distinct_ids_bound(ids: Seq<int>, n: int)
    requires
        ids.no_duplicates(),
        forall|k: int| 0 <= k < ids.len() ==> 0 <= #[trigger] ids[k] < n,
        n >= 0,
    ensures
        ids.len() <= n,
{
    ids.unique_seq_to_set();
    vstd::set_lib::lemma_int_range(0, n);
    assert(ids.to_set().subset_of(vstd::set_lib::set_int_range(0, n))) by {
        assert(forall|x: int| ids.to_set().contains(x) ==> ids.contains(x));
    };
    vstd::set_lib::lemma_len_subset(ids.to_set(), vstd::set_lib::set_int_range(0, n));
}

/// Once the search has closed (every discovered node's neighbors are
/// discovered, one level at most deeper), any path's end lies within
/// the path's length of its start.
proof fn lemma_bfs_min(adj: Seq<Seq<int>>, dist: Seq<usize>, n: int, q: Seq<int>)
    requires
        adj.len() == n,
        dist.len() == n,
        forall|u: int, j: int|
            0 <= u < n && dist[u] != usize::MAX && 0 <= j < adj[u].len() ==> dist[
                #[trigger] adj[u][j]
            ] != usize::MAX && dist[adj[u][j]] <= dist[u] + 1,
        is_id_path(adj, q),
        dist[q.first()] != usize::MAX,
    ensures
        dist[q.last()] != usize::MAX,
        dist[q.last()] <= dist[q.first()] + q.len() - 1,
    decreases q.len(),
{
    if q.len() > 1 {
        let q2 = q.drop_last();
        assert(is_id_path(adj, q2)) by {
            assert(forall|k: int| 0 <= k < q2.len() ==> q2[k] == q[k]);
        };
        lemma_bfs_min(adj, dist, n, q2);
        let u = q[q.len() - 2];
        let v = q.last();
        assert(adj[q[q.len() - 2]].contains(q[q.len() - 2 + 1]));
        assert(adj[u].contains(v));
        let j = choose|j: int| 0 <= j < adj[u].len() && adj[u][j] == v;
        assert(dist[adj[u][j]] != usize::MAX && dist[adj[u][j]] <= dist[u] + 1);
    }
}


/// The sum of all adjacency-list lengths: each undirected edge counts
/// once from each endpoint.
pub open spec fn degree_sum(adj: Seq<Seq<int>>) -> nat
    decreases adj.len(),
{
    if adj.len() == 0 {
        0
    } else {
        degree_sum(adj.drop_last()) + adj.last().len()
    }
}

/// How many nodes have an empty adjacency list.
pub open spec fn zero_degree_count(adj: Seq<Seq<int>>) -> nat
    decreases adj.len(),
{
    if adj.len() == 0 {
        0
    } else {
        zero_degree_count(adj.drop_last()) + (if adj.last().len() == 0 {
            1nat
        } else {
            0nat
        })
    }
}

/// The largest adjacency-list length, zero on an empty graph.
pub open spec fn max_degree(adj: Seq<Seq<int>>) -> nat
    decreases adj.len(),
{
    if adj.len() == 0 {
        0
    } else {
        let rest = max_degree(adj.drop_last());
        if adj.last().len() > rest {
            adj.last().len()
        } else {
            rest
        }
    }
}

/// The smallest adjacency-list length, `usize::MAX` on an empty graph.
pub open spec fn min_degree(adj: Seq<Seq<int>>) -> nat
    decreases adj.len(),
{
    if adj.len() == 0 {
        usize::MAX as nat
    } else {
        let rest = min_degree(adj.drop_last());
        if adj.last().len() < rest {
            adj.last().len()
        } else {
            rest
        }
    }
}

proof fn lemma_dv(v: &Vec<String>)
    ensures
        v.deep_view().len() == v@.len(),
        forall|i: int| 0 <= i < v@.len() ==> v.deep_view()[i] == v@[i]@,
{
}

/// Descriptive connectivity statistics of the undirected graph.
pub struct ConnectivityReport {
    /// Number of nodes.
    pub total_nodes: usize,
    /// Sum of adjacency-list lengths, stopping at the largest
    /// representable value.
    pub total_edges: u64,
    /// Nodes with no recorded edge.
    pub nodes_with_no_edges: usize,
    /// The largest node degree, zero on an empty graph.
    pub max_edges: usize,
    /// The smallest node degree, the largest representable value on an
    /// empty graph.
    pub min_edges: usize,
}

/// Law: reparsing a graph export rebuilds the adjacency of the exact
/// edge list that was exported.  A successful `load_from_json` of an
/// `export_json` text therefore yields the same adjacency model — and
/// so the same connected components — as inserting the store's own
/// edges directly.
pub proof fn lemma_export_reparse_round_trip(
    stored_nodes: Seq<Seq<char>>,
    stored_edges: Seq<(Seq<char>, Seq<char>)>,
    parsed_nodes: Seq<Seq<char>>,
    parsed_edges: Seq<(Seq<char>, Seq<char>)>,
    rebuilt: PathModel,
)
    requires
        forall|i: int| 0 <= i < stored_nodes.len() ==> quote_free(#[trigger] stored_nodes[i]),
        forall|i: int| 0 <= i < parsed_nodes.len() ==> quote_free(#[trigger] parsed_nodes[i]),
        forall|i: int|
            0 <= i < stored_edges.len() ==> quote_free((#[trigger] stored_edges[i]).0)
                && quote_free(stored_edges[i].1),
        forall|i: int|
            0 <= i < parsed_edges.len() ==> quote_free((#[trigger] parsed_edges[i]).0)
                && quote_free(parsed_edges[i].1),
        graph_json(parsed_nodes, parsed_edges) == graph_json(stored_nodes, stored_edges),
        rebuilt == path_of(
            (Seq::<Seq<char>>::empty(), Seq::<Seq<int>>::empty()),
            parsed_edges,
        ),
    ensures
        parsed_nodes == stored_nodes,
        parsed_edges == stored_edges,
        rebuilt == path_of((Seq::<Seq<char>>::empty(), Seq::<Seq<int>>::empty()), stored_edges),
{
    crate::codec::lemma_graph_json_injective(
        parsed_nodes,
        parsed_edges,
        stored_nodes,
        stored_edges,
    );
}

/// BFS engine over the undirected link graph.
pub struct PathFinder {
    names: Vec<String>,
    adj: Vec<Vec<usize>>,
}

impl PathFinder {
    /// The node names in first-appearance order.
    pub closed spec fn spec_names(&self) -> Seq<Seq<char>> {
        self.names.deep_view()
    }

    /// The neighbor ids per node.
    pub closed spec fn spec_adj(&self) -> Seq<Seq<int>> {
        rows_view(self.adj@)
    }

    /// The whole adjacency model.
    pub open spec fn model(&self) -> PathModel {
        (self.spec_names(), self.spec_adj())
    }

    /// Names are distinct, the lists have equal length, and every
    /// stored id is a valid node index.
    pub open spec fn wf(&self) -> bool {
        &&& self.spec_adj().len() == self.spec_names().len()
        &&& (forall|i: int, j: int|
            0 <= i < j < self.spec_names().len() ==> self.spec_names()[i]
                != self.spec_names()[j])
        &&& (forall|i: int, j: int|
            0 <= i < self.spec_adj().len() && 0 <= j < self.spec_adj()[i].len() ==> 0 <= (
            #[trigger] self.spec_adj()[i][j]) < self.spec_names().len())
    }

    /// An empty graph.
    pub fn new() -> (r: PathFinder)
        ensures
            r.wf(),
            r.model() == (Seq::<Seq<char>>::empty(), Seq::<Seq<int>>::empty()),
    {
        let r = PathFinder { names: Vec::new(), adj: Vec::new() };
        assert(r.spec_names() =~= Seq::<Seq<char>>::empty());
        assert(r.spec_adj() =~= Seq::<Seq<int>>::empty());
        r
    }

    /// The id of `url`, interning it as a new node if needed.
    fn intern(&mut self, url: &String) -> (id: usize)
        requires
            old(self).wf(),
        ensures
            final(self).wf(),
            final(self).model() == path_add_name(old(self).model(), url@),
            id < final(self).spec_names().len(),
            final(self).spec_names()[id as int] == url@,
            id == name_id(final(self).spec_names(), url@),
    {
        let n = self.names.len();
        let mut i: usize = 0;
        while i < n
            invariant
                *self == *old(self),
                self.wf(),
                n == self.names@.len(),
                self.spec_names().len() == self.names@.len(),
                i <= n,
                forall|j: int| 0 <= j < i ==> self.spec_names()[j] != url@,
            decreases n - i,
        {
            assert(self.spec_names()[i as int] == self.names@[i as int]@);
            if self.names[i] == *url {
                assert(self.spec_names().contains(url@));
                proof {
                    let w = choose|k: int|
                        0 <= k < self.spec_names().len() && self.spec_names()[k] == url@;
                    assert(w == i as int);
                }
                return i;
            }
            i += 1;
        }
        assert(!self.spec_names().contains(url@));
        let ghost pre = self.model();
        self.names.push(url.clone());
        self.adj.push(Vec::new());
        proof {
            assert(self.spec_names() =~= pre.0.push(url@));
            assert(self.spec_adj() =~~= pre.1.push(Seq::empty()));
            assert(self.spec_names()[n as int] == url@);
            let w = choose|k: int|
                0 <= k < self.spec_names().len() && self.spec_names()[k] == url@;
            assert(w == n as int);
            assert(self.wf()) by {
                assert(forall|j: int| 0 <= j < pre.0.len() ==> self.spec_names()[j] == pre.0[j]);
            };
        }
        n
    }

    /// Records the undirected edge `from -- to`: both endpoints become
    /// nodes and each joins the other's neighbor list.
    pub fn add_edge(&mut self, from: String, to: String)
        requires
            old(self).wf(),
        ensures
            final(self).wf(),
            final(self).model() == path_add_edge(old(self).model(), from@, to@),
    {
        let ghost pre = self.model();
        let fi = self.intern(&from);
        let ghost m1 = self.model();
        let ti = self.intern(&to);
        let ghost m2 = self.model();
        proof {
            assert(m2 == path_add_name(path_add_name(pre, from@), to@));
            assert(m2.0[fi as int] == from@) by {
                if m1.0.contains(to@) {
                    assert(m2 == m1);
                } else {
                    assert(forall|j: int| 0 <= j < m1.0.len() ==> m2.0[j] == m1.0[j]);
                }
            };
            let w = choose|k: int| 0 <= k < m2.0.len() && m2.0[k] == from@;
            assert(w == fi as int);
            assert(fi as int == name_id(m2.0, from@));
            assert(ti as int == name_id(m2.0, to@));
        }
        self.adj[fi].push(ti);
        let ghost m3 = self.model();
        proof {
            assert(m3.0 == m2.0);
            assert(m3.1 =~~= m2.1.update(fi as int, m2.1[fi as int].push(ti as int)));
        }
        self.adj[ti].push(fi);
        proof {
            assert(self.spec_names() == m3.0);
            assert(self.spec_adj() =~~= m3.1.update(ti as int, m3.1[ti as int].push(fi as int)));
            assert(self.model() == path_add_edge(pre, from@, to@));
            assert(self.wf()) by {
                assert(forall|a: int, b: int|
                    0 <= a < self.spec_adj().len() && 0 <= b < self.spec_adj()[a].len() ==> 0 <= (
                    #[trigger] self.spec_adj()[a][b]) < self.spec_names().len());
            };
        }
    }

    /// Folds a whole edge list into the adjacency, in order.
    pub fn load_from_edges(&mut self, edges: &Vec<(String, String)>)
        requires
            old(self).wf(),
        ensures
            final(self).wf(),
            final(self).model() == path_of(
                old(self).model(),
                Seq::new(edges@.len(), |i: int| (edges@[i].0@, edges@[i].1@)),
            ),
    {
        let ghost eviews = Seq::new(edges@.len(), |i: int| (edges@[i].0@, edges@[i].1@));
        let mut i: usize = 0;
        proof {
            assert(eviews.subrange(0, 0) =~= Seq::<(Seq<char>, Seq<char>)>::empty());
        }
        while i < edges.len()
            invariant
                i <= edges@.len(),
                eviews == Seq::new(edges@.len(), |k: int| (edges@[k].0@, edges@[k].1@)),
                self.wf(),
                self.model() == path_of(old(self).model(), eviews.subrange(0, i as int)),
            decreases edges@.len() - i,
        {
            let from = edges[i].0.clone();
            let to = edges[i].1.clone();
            self.add_edge(from, to);
            i += 1;
            proof {
                let sub = eviews.subrange(0, i as int);
                assert(sub.drop_last() =~= eviews.subrange(0, i - 1));
                assert(sub.last() == eviews[i - 1]);
                assert(self.model() == path_of(old(self).model(), sub));
            }
        }
        assert(eviews.subrange(0, eviews.len() as int) =~= eviews);
    }

    /// All node names, in strictly increasing lexicographic order,
    /// each exactly once.
    pub fn list_pages(&self) -> (r: Vec<String>)
        requires
            self.wf(),
        ensures
            r.deep_view().len() == self.spec_names().len(),
            forall|x: Seq<char>| r.deep_view().contains(x) == self.spec_names().contains(x),
            forall|i: int, j: int|
                0 <= i < j < r.deep_view().len() ==> lex_leq(
                    #[trigger] r.deep_view()[i],
                    #[trigger] r.deep_view()[j],
                ) && r.deep_view()[i] != r.deep_view()[j],
    {
        let mut names: Vec<String> = Vec::new();
        let mut i: usize = 0;
        while i < self.names.len()
            invariant
                i <= self.names@.len(),
                self.spec_names().len() == self.names@.len(),
                names.deep_view() == self.spec_names().subrange(0, i as int),
            decreases self.names@.len() - i,
        {
            assert(self.spec_names()[i as int] == self.names@[i as int]@);
            let item = self.names[i].clone();
            let ghost rpre = names.deep_view();
            names.push(item);
            proof {
                assert(names.deep_view() =~= rpre.push(self.spec_names()[i as int]));
            }
            i += 1;
            assert(names.deep_view() =~= self.spec_names().subrange(0, i as int));
        }
        assert(names.deep_view() =~= self.spec_names());
        sort_strings(names)
    }


    /// The minimum-hop path from `start` to `end`, both inclusive.
    /// Fails with the exact cause: an absent endpoint (checked in that
    /// order) or no connecting path.  A query from a page to itself
    /// returns the one-element path.
    pub fn find_shortest_path(&self, start: &str, end: &str) -> (r: Result<Vec<String>, PathError>)
        requires
            self.wf(),
        ensures
            (r is Ok) == (self.spec_names().contains(start@) && self.spec_names().contains(end@)
                && reachable(
                self.spec_adj(),
                name_id(self.spec_names(), start@),
                name_id(self.spec_names(), end@),
            )),
            match r {
                Err(e) => {
                    &&& ((e == PathError::StartNotFound) <==> !self.spec_names().contains(start@))
                    &&& ((e == PathError::EndNotFound) <==> (self.spec_names().contains(start@)
                        && !self.spec_names().contains(end@)))
                    &&& (e == PathError::StartNotFound || e == PathError::EndNotFound || e
                        == PathError::NoPath)
                },
                Ok(p) => p@.len() >= 1 && p@.len() <= self.spec_names().len() && (start@ != end@
                    ==> p@.len() >= 2) && (exists|q: Seq<int>|
                    {
                        &&& connects(
                            self.spec_adj(),
                            q,
                            name_id(self.spec_names(), start@),
                            name_id(self.spec_names(), end@),
                        )
                        &&& p.deep_view() == names_of(self.spec_names(), q)
                        &&& (forall|q2: Seq<int>|
                            connects(
                                self.spec_adj(),
                                q2,
                                name_id(self.spec_names(), start@),
                                name_id(self.spec_names(), end@),
                            ) ==> q.len() <= q2.len())
                    }),
            },
    {
        let n = self.names.len();
        let ghost adj = self.spec_adj();
        let ghost names = self.spec_names();
        let sid = match self.lookup(start) {
            Some(i) => i,
            None => {
                return Err(PathError::StartNotFound);
            },
        };
        let tid = match self.lookup(end) {
            Some(i) => i,
            None => {
                return Err(PathError::EndNotFound);
            },
        };
        proof {
            let w = choose|k: int| 0 <= k < names.len() && names[k] == start@;
            assert(w == sid as int);
            let w2 = choose|k: int| 0 <= k < names.len() && names[k] == end@;
            assert(w2 == tid as int);
        }
        let mut dist: Vec<usize> = Vec::new();
        let mut pred: Vec<usize> = Vec::new();
        let mut i: usize = 0;
        while i < n
            invariant
                i <= n,
                dist@.len() == i,
                pred@.len() == i,
                forall|v: int| 0 <= v < i ==> dist@[v] == usize::MAX,
            decreases n - i,
        {
            dist.push(usize::MAX);
            pred.push(0);
            i += 1;
        }
        let mut queue: Vec<usize> = Vec::new();
        queue.push(sid);
        dist[sid] = 0;
        proof {
            assert(forall|v: int| 0 <= v < n && dist@[v] != usize::MAX ==> v == sid as int);
            assert(queue@[0] == sid);
        }
        let mut h: usize = 0;
        while h < queue.len()
            invariant
                self.wf(),
                n == self.spec_names().len(),
                adj == self.spec_adj(),
                names == self.spec_names(),
                sid < n,
                tid < n,
                dist@.len() == n,
                pred@.len() == n,
                h <= queue@.len(),
                1 <= queue@.len(),
                queue@[0] == sid,
                dist@[sid as int] == 0,
                forall|k1: int, k2: int|
                    0 <= k1 < k2 < queue@.len() ==> queue@[k1] != queue@[k2],
                forall|k: int| 0 <= k < queue@.len() ==> (#[trigger] queue@[k]) < n,
                forall|k: int|
                    0 <= k < queue@.len() ==> dist@[#[trigger] queue@[k] as int] != usize::MAX,
                forall|k: int|
                    0 <= k < queue@.len() ==> dist@[#[trigger] queue@[k] as int] <= k,
                forall|v: int|
                    0 <= v < n && dist@[v] != usize::MAX ==> exists|k: int|
                        0 <= k < queue@.len() && queue@[k] == v,
                forall|k1: int, k2: int|
                    0 <= k1 <= k2 < queue@.len() ==> dist@[#[trigger] queue@[k1] as int] <= dist@[
                        #[trigger] queue@[k2] as int
                    ],
                h < queue@.len() ==> dist@[queue@[queue@.len() - 1] as int] <= dist@[queue@[h as int] as int]
                    + 1,
                forall|k: int, j: int|
                    0 <= k < h && 0 <= j < adj[queue@[k] as int].len() ==> dist@[
                        #[trigger] adj[queue@[k] as int][j]
                    ] != usize::MAX && dist@[adj[queue@[k] as int][j]] <= dist@[queue@[k] as int]
                        + 1,
                queue@.len() <= n,
                forall|v: int|
                    0 <= v < n && dist@[v] != usize::MAX && v != sid ==> (#[trigger] pred@[v]) < n
                        && dist@[pred@[v] as int] != usize::MAX && dist@[pred@[v] as int] + 1
                        == dist@[v] && adj[pred@[v] as int].contains(v),
            decreases n - h,
        {
            let u = queue[h];
            let ghost pre_h = h;
            h += 1;
            let row_len = self.adj[u].len();
            proof {
                assert(adj[u as int].len() == self.adj@[u as int]@.len());
            }
            let mut k: usize = 0;
            while k < row_len
                invariant
                    self.wf(),
                    n == self.spec_names().len(),
                    adj == self.spec_adj(),
                    names == self.spec_names(),
                    sid < n,
                    u < n,
                    h == pre_h + 1,
                    h <= queue@.len(),
                    queue@[pre_h as int] == u,
                    dist@.len() == n,
                    pred@.len() == n,
                    1 <= queue@.len(),
                    queue@[0] == sid,
                    dist@[sid as int] == 0,
                    row_len == adj[u as int].len(),
                    row_len == self.adj@[u as int]@.len(),
                    k <= row_len,
                    queue@.len() <= n,
                    forall|k1: int, k2: int|
                        0 <= k1 < k2 < queue@.len() ==> queue@[k1] != queue@[k2],
                    forall|k1: int| 0 <= k1 < queue@.len() ==> (#[trigger] queue@[k1]) < n,
                    forall|k1: int|
                        0 <= k1 < queue@.len() ==> dist@[#[trigger] queue@[k1] as int]
                            != usize::MAX,
                    forall|k1: int|
                        0 <= k1 < queue@.len() ==> dist@[#[trigger] queue@[k1] as int] <= k1,
                    forall|v: int|
                        0 <= v < n && dist@[v] != usize::MAX ==> exists|k1: int|
                            0 <= k1 < queue@.len() && queue@[k1] == v,
                    forall|k1: int, k2: int|
                        0 <= k1 <= k2 < queue@.len() ==> dist@[#[trigger] queue@[k1] as int]
                            <= dist@[#[trigger] queue@[k2] as int],
                    dist@[queue@[queue@.len() - 1] as int] <= dist@[u as int] + 1,
                    h < queue@.len() ==> dist@[queue@[queue@.len() - 1] as int] <= dist@[queue@[h as int] as int]
                        + 1,
                    forall|k1: int, j: int|
                        0 <= k1 < pre_h && 0 <= j < adj[queue@[k1] as int].len() ==> dist@[
                            #[trigger] adj[queue@[k1] as int][j]
                        ] != usize::MAX && dist@[adj[queue@[k1] as int][j]] <= dist@[queue@[k1] as int]
                            + 1,
                    forall|j: int|
                        0 <= j < k ==> dist@[#[trigger] adj[u as int][j]] != usize::MAX && dist@[
                            adj[u as int][j]
                        ] <= dist@[u as int] + 1,
                    forall|v: int|
                        0 <= v < n && dist@[v] != usize::MAX && v != sid ==> (#[trigger] pred@[v])
                            < n && dist@[pred@[v] as int] != usize::MAX && dist@[pred@[v] as int]
                            + 1 == dist@[v] && adj[pred@[v] as int].contains(v),
                decreases row_len - k,
            {
                let v = self.adj[u][k];
                proof {
                    assert(adj[u as int][k as int] == self.adj@[u as int]@[k as int] as int);
                    assert(0 <= adj[u as int][k as int] < n);
                }
                if dist[v] == usize::MAX {
                    proof {
                        // v is new, so the queue holds at most n - 1 ids
                        let iq = Seq::new(queue@.len(), |x: int| queue@[x] as int);
                        let iq2 = iq.push(v as int);
                        assert(iq2.no_duplicates()) by {
                            assert forall|a: int, b: int|
                                0 <= a < b < iq2.len() implies iq2[a] != iq2[b] by {
                                if b < iq.len() {
                                    assert(iq2[a] == queue@[a] as int);
                                    assert(iq2[b] == queue@[b] as int);
                                    assert(queue@[a] != queue@[b]);
                                } else {
                                    assert(iq2[b] == v as int);
                                    assert(iq2[a] == queue@[a] as int);
                                    assert(dist@[queue@[a] as int] != usize::MAX);
                                }
                            }
                        };
                        assert(forall|x: int|
                            0 <= x < iq2.len() && x < queue@.len() ==> 0 <= #[trigger] iq2[x] < n);
                        assert(iq2[queue@.len() as int] == v as int);
                        lemma_distinct_ids_bound(iq2, n as int);
                        assert(queue@.len() <= n - 1);
                        assert(dist@[u as int] <= pre_h);
                        assert(dist@[u as int] + 1 < n);
                    }
                    let du = dist[u];
                    dist[v] = du + 1;
                    pred[v] = u;
                    let ghost pre_queue = queue@;
                    queue.push(v);
                    proof {
                        assert(queue@ =~= pre_queue.push(v));
                        assert(forall|k1: int|
                            0 <= k1 < pre_queue.len() ==> queue@[k1] == pre_queue[k1]);
                        assert(queue@[queue@.len() - 1] == v);
                        assert forall|v2: int|
                            0 <= v2 < n && dist@[v2] != usize::MAX implies exists|k1: int|
                            0 <= k1 < queue@.len() && queue@[k1] == v2 by {
                            if v2 == v as int {
                                assert(queue@[queue@.len() - 1] == v);
                            } else {
                                let k1 = choose|k1: int|
                                    0 <= k1 < pre_queue.len() && pre_queue[k1] == v2;
                                assert(queue@[k1] == v2);
                            }
                        }
                    }
                }
                k += 1;
            }
        }
        // the search is closed: every discovered node's neighbors are
        // discovered, one level at most deeper
        assert(forall|u2: int, j: int|
            0 <= u2 < n && dist@[u2] != usize::MAX && 0 <= j < adj[u2].len() ==> dist@[
                #[trigger] adj[u2][j]
            ] != usize::MAX && dist@[adj[u2][j]] <= dist@[u2] + 1) by {
            assert(forall|u2: int|
                0 <= u2 < n && dist@[u2] != usize::MAX ==> exists|k1: int|
                    0 <= k1 < queue@.len() && queue@[k1] == u2);
        };
        if dist[tid] == usize::MAX {
            proof {
                if reachable(adj, sid as int, tid as int) {
                    let q = choose|q: Seq<int>| connects(adj, q, sid as int, tid as int);
                    lemma_bfs_min(adj, dist@, n as int, q);
                }
            }
            return Err(PathError::NoPath);
        }
        // walk the predecessor chain back from the end
        let mut rev_ids: Vec<usize> = Vec::new();
        rev_ids.push(tid);
        let mut cur = tid;
        while cur != sid
            invariant
                n == dist@.len(),
                pred@.len() == n,
                sid < n,
                tid < n,
                cur < n,
                dist@[sid as int] == 0,
                dist@[cur as int] != usize::MAX,
                rev_ids@.len() >= 1,
                rev_ids@[0] == tid,
                rev_ids@[rev_ids@.len() - 1] == cur,
                forall|x: int| 0 <= x < rev_ids@.len() ==> (#[trigger] rev_ids@[x]) < n,
                forall|x: int|
                    0 <= x < rev_ids@.len() ==> dist@[#[trigger] rev_ids@[x] as int] == dist@[tid as int]
                        - x,
                forall|x: int|
                    0 <= x < rev_ids@.len() - 1 ==> adj[rev_ids@[x + 1] as int].contains(
                        #[trigger] rev_ids@[x] as int,
                    ),
                forall|v: int|
                    0 <= v < n && dist@[v] != usize::MAX && v != sid ==> (#[trigger] pred@[v]) < n
                        && dist@[pred@[v] as int] != usize::MAX && dist@[pred@[v] as int] + 1
                        == dist@[v] && adj[pred@[v] as int].contains(v),
            decreases dist@[cur as int],
        {
            cur = pred[cur];
            rev_ids.push(cur);
        }
        let len = rev_ids.len();
        let ghost q = Seq::new(rev_ids@.len(), |x: int| rev_ids@[len - 1 - x] as int);
        proof {
            assert(connects(adj, q, sid as int, tid as int)) by {
                assert(q.first() == rev_ids@[len - 1] as int);
                assert(q.last() == rev_ids@[0] as int);
                assert(forall|x: int|
                    0 <= x < q.len() - 1 ==> adj[#[trigger] q[x]].contains(q[x + 1])) by {
                    assert(forall|x: int|
                        0 <= x < q.len() - 1 ==> (#[trigger] q[x]) == rev_ids@[len - 1 - x] as int
                            && q[x + 1] == rev_ids@[len - 2 - x] as int);
                };
            };
            assert(q.len() == dist@[tid as int] + 1) by {
                assert(dist@[rev_ids@[len - 1] as int] == dist@[tid as int] - (len - 1));
                assert(dist@[sid as int] == 0);
            };
        }
        let mut path: Vec<String> = Vec::new();
        let mut x: usize = 0;
        while x < len
            invariant
                self.wf(),
                names == self.spec_names(),
                len == rev_ids@.len(),
                x <= len,
                n == self.names@.len(),
                n == self.spec_names().len(),
                forall|y: int| 0 <= y < len ==> (#[trigger] rev_ids@[y]) < n,
                q == Seq::new(rev_ids@.len(), |y: int| rev_ids@[len - 1 - y] as int),
                path.deep_view() == names_of(names, q).subrange(0, x as int),
            decreases len - x,
        {
            let id = rev_ids[len - 1 - x];
            assert(self.spec_names()[id as int] == self.names@[id as int]@);
            let ghost ppre = path.deep_view();
            let item = self.names[id].clone();
            path.push(item);
            proof {
                assert(path.deep_view() =~= ppre.push(names[q[x as int]]));
            }
            x += 1;
            assert(path.deep_view() =~= names_of(names, q).subrange(0, x as int));
        }
        assert(path.deep_view() =~= names_of(names, q));
        proof {
            lemma_dv(&path);
            assert(path@.len() >= 1);
            // the path is one longer than the end's level, which is
            // below the node count
            assert(dist@[tid as int] < n) by {
                let k = choose|k: int| 0 <= k < queue@.len() && queue@[k] == tid;
                assert(dist@[queue@[k] as int] <= k);
            };
            assert(path@.len() == q.len());
            assert(path@.len() <= n);
            if start@ != end@ {
                assert(sid != tid);
                assert(q.first() != q.last());
                assert(path@.len() >= 2);
            }
            assert forall|q2: Seq<int>|
                connects(adj, q2, sid as int, tid as int) implies q.len() <= q2.len() by {
                lemma_bfs_min(adj, dist@, n as int, q2);
            }
        }
        Ok(path)
    }


    /// Relies on `rand::random_range` over `0..n`: the result is below
    /// `n`; nothing else is promised of a random draw.
    #[verifier::external_body]
    fn rand_below(n: usize) -> (r: usize)
        requires
            n > 0,
        ensures
            r < n,
    {
        rand::random_range(0..n)
    }

    /// Connectivity statistics: node count, degree sum, zero-degree
    /// count, and the extreme degrees.
    pub fn analyze_connectivity(&self) -> (r: ConnectivityReport)
        requires
            self.wf(),
        ensures
            r.total_nodes == self.spec_names().len(),
            r.total_edges == if degree_sum(self.spec_adj()) > u64::MAX {
                u64::MAX as nat
            } else {
                degree_sum(self.spec_adj())
            },
            r.nodes_with_no_edges == zero_degree_count(self.spec_adj()),
            r.max_edges == max_degree(self.spec_adj()),
            r.min_edges == min_degree(self.spec_adj()),
    {
        let ghost adj = self.spec_adj();
        let n = self.adj.len();
        proof {
            assert(adj.subrange(0, 0) =~= Seq::<Seq<int>>::empty());
        }
        let mut total_edges: u64 = 0;
        let mut zeroes: usize = 0;
        let mut maxd: usize = 0;
        let mut mind: usize = usize::MAX;
        let mut i: usize = 0;
        while i < n
            invariant
                self.wf(),
                adj == self.spec_adj(),
                n == self.adj@.len(),
                adj.len() == n,
                i <= n,
                zeroes <= i,
                total_edges == if degree_sum(adj.subrange(0, i as int)) > u64::MAX {
                    u64::MAX as nat
                } else {
                    degree_sum(adj.subrange(0, i as int))
                },
                zeroes == zero_degree_count(adj.subrange(0, i as int)),
                maxd == max_degree(adj.subrange(0, i as int)),
                mind == min_degree(adj.subrange(0, i as int)),
            decreases n - i,
        {
            let deg = self.adj[i].len();
            proof {
                assert(adj[i as int].len() == self.adj@[i as int]@.len());
            }
            if total_edges <= u64::MAX - (deg as u64) {
                total_edges = total_edges + (deg as u64);
            } else {
                total_edges = u64::MAX;
            }
            if deg == 0 {
                zeroes = zeroes + 1;
            }
            if deg > maxd {
                maxd = deg;
            }
            if deg < mind {
                mind = deg;
            }
            i += 1;
            proof {
                let sub = adj.subrange(0, i as int);
                assert(sub.drop_last() =~= adj.subrange(0, i - 1));
                assert(sub.last() =~= adj[i - 1]);
            }
        }
        assert(adj.subrange(0, n as int) =~= adj);
        ConnectivityReport {
            total_nodes: n,
            total_edges,
            nodes_with_no_edges: zeroes,
            max_edges: maxd,
            min_edges: mind,
        }
    }

    /// Up to `count` distinct node names, chosen by random swaps and
    /// returned in strictly increasing lexicographic order; with
    /// `count >= n` it lists all names.
    pub fn get_page_sample(&self, count: usize) -> (r: Vec<String>)
        requires
            self.wf(),
        ensures
            r.deep_view().len() == if count < self.spec_names().len() {
                count as nat
            } else {
                self.spec_names().len()
            },
            forall|k: int|
                0 <= k < r.deep_view().len() ==> self.spec_names().contains(
                    #[trigger] r.deep_view()[k],
                ),
            forall|k1: int, k2: int|
                0 <= k1 < k2 < r.deep_view().len() ==> lex_leq(
                    #[trigger] r.deep_view()[k1],
                    #[trigger] r.deep_view()[k2],
                ) && r.deep_view()[k1] != r.deep_view()[k2],
    {
        let mut pool = self.list_pages();
        let ghost names = self.spec_names();
        let n = pool.len();
        proof {
            assert(pool.deep_view().len() == names.len());
        }
        let take = if count < n {
            count
        } else {
            n
        };
        let mut r: Vec<String> = Vec::new();
        let mut i: usize = 0;
        while i < take
            invariant
                self.wf(),
                names == self.spec_names(),
                take <= n,
                i <= take,
                pool@.len() + i == n,
                pool.deep_view().len() == pool@.len(),
                r.deep_view().len() == i,
                forall|k: int|
                    0 <= k < pool.deep_view().len() ==> names.contains(
                        #[trigger] pool.deep_view()[k],
                    ),
                forall|k1: int, k2: int|
                    0 <= k1 < k2 < pool.deep_view().len() ==> pool.deep_view()[k1]
                        != pool.deep_view()[k2],
                forall|k: int|
                    0 <= k < r.deep_view().len() ==> names.contains(#[trigger] r.deep_view()[k]),
                forall|k1: int, k2: int|
                    0 <= k1 < k2 < r.deep_view().len() ==> r.deep_view()[k1] != r.deep_view()[k2],
                forall|k1: int, k2: int|
                    0 <= k1 < r.deep_view().len() && 0 <= k2 < pool.deep_view().len()
                        ==> r.deep_view()[k1] != pool.deep_view()[k2],
            decreases take - i,
        {
            let j = Self::rand_below(pool.len());
            let ghost vpre = pool@;
            let ghost dpre = pool.deep_view();
            proof {
                lemma_dv(&pool);
                assert(forall|k: int| 0 <= k < vpre.len() ==> dpre[k] == vpre[k]@);
            }
            let picked = pool.swap_remove(j);
            proof {
                lemma_dv(&pool);
                assert(picked@ == dpre[j as int]);
                assert forall|k: int| 0 <= k < pool.deep_view().len() implies #[trigger] pool.deep_view()[k]
                    == dpre.update(j as int, dpre[dpre.len() - 1]).drop_last()[k] by {
                    assert(pool.deep_view()[k] == pool@[k]@);
                    assert(pool@[k] == vpre.update(j as int, vpre[vpre.len() - 1]).drop_last()[k]);
                    if k == j {
                        assert(pool@[k] == vpre[vpre.len() - 1]);
                    } else {
                        assert(pool@[k] == vpre[k]);
                    }
                }
                assert(pool.deep_view() =~= dpre.update(
                    j as int,
                    dpre[dpre.len() - 1],
                ).drop_last());
            }
            let ghost rpre = r.deep_view();
            r.push(picked);
            proof {
                assert(r.deep_view() =~= rpre.push(dpre[j as int]));
                let dnew = pool.deep_view();
                let removed = dpre.update(j as int, dpre[dpre.len() - 1]).drop_last();
                assert forall|k1: int, k2: int|
                    0 <= k1 < k2 < dnew.len() implies dnew[k1] != dnew[k2] by {
                    if k1 == j {
                        assert(dnew[k1] == dpre[dpre.len() - 1]);
                        assert(dnew[k2] == dpre[k2]);
                    } else if k2 == j {
                        assert(dnew[k2] == dpre[dpre.len() - 1]);
                        assert(dnew[k1] == dpre[k1]);
                    } else {
                        assert(dnew[k1] == dpre[k1]);
                        assert(dnew[k2] == dpre[k2]);
                    }
                }
                assert forall|k: int| 0 <= k < dnew.len() implies names.contains(
                    #[trigger] dnew[k],
                ) by {
                    if k == j {
                        assert(dnew[k] == dpre[dpre.len() - 1]);
                    } else {
                        assert(dnew[k] == dpre[k]);
                    }
                }
                assert forall|k1: int, k2: int|
                    0 <= k1 < r.deep_view().len() && 0 <= k2 < dnew.len() implies r.deep_view()[k1]
                    != dnew[k2] by {
                    if k1 < rpre.len() {
                        assert(r.deep_view()[k1] == rpre[k1]);
                    } else {
                        assert(r.deep_view()[k1] == dpre[j as int]);
                    }
                    if k2 == j {
                        assert(dnew[k2] == dpre[dpre.len() - 1]);
                    } else {
                        assert(dnew[k2] == dpre[k2]);
                    }
                }
            }
            i += 1;
        }
        let ghost picked = r.deep_view();
        let sorted = sort_strings(r);
        proof {
            assert forall|k: int| 0 <= k < sorted.deep_view().len() implies names.contains(
                #[trigger] sorted.deep_view()[k],
            ) by {
                assert(sorted.deep_view().contains(sorted.deep_view()[k]));
                assert(picked.contains(sorted.deep_view()[k]));
                let w = choose|w: int| 0 <= w < picked.len() && picked[w] == sorted.deep_view()[k];
            }
        }
        sorted
    }

    /// Samples random node pairs until ten connected pairs are found or
    /// the attempt budget runs out, returning the total hop count and
    /// the number of connected pairs found.  Each counted pair is
    /// distinct, so every counted path has between one and `n - 1`
    /// hops; on a connected graph with at least two nodes the call
    /// always succeeds.  It fails when the graph has fewer than two
    /// nodes, or when no sampled pair was connected.
    pub fn calculate_average_path_length(&self) -> (r: Result<(u64, u64), PathError>)
        requires
            self.wf(),
        ensures
            (r == Err::<(u64, u64), PathError>(PathError::TooFewNodes)) == (
            self.spec_names().len() <= 1),
            match r {
                Ok((total, found)) => {
                    &&& 1 <= found <= 10
                    &&& found <= total
                    &&& total <= found * (self.spec_names().len() - 1)
                },
                Err(e) => e == PathError::TooFewNodes || e == PathError::NoSamples,
            },
            (self.spec_names().len() >= 2 && (forall|a: int, b: int|
                0 <= a < self.spec_names().len() && 0 <= b < self.spec_names().len()
                    ==> reachable(self.spec_adj(), a, b))) ==> r is Ok,
    {
        let ghost names = self.spec_names();
        let ghost adj = self.spec_adj();
        let ghost all_connected = self.spec_names().len() >= 2 && (forall|a: int, b: int|
            0 <= a < self.spec_names().len() && 0 <= b < self.spec_names().len() ==> reachable(
                self.spec_adj(),
                a,
                b,
            ));
        let n = self.names.len();
        if n <= 1 {
            return Err(PathError::TooFewNodes);
        }
        // cap the attempts at 100 or the number of unordered pairs
        let pair_bound = if n <= 15 {
            assert(n * (n - 1) <= 210) by (nonlinear_arith)
                requires
                    n <= 15,
            ;
            assert(n * (n - 1) >= 2) by (nonlinear_arith)
                requires
                    2 <= n,
            ;
            n * (n - 1) / 2
        } else {
            100
        };
        let sample_size = if pair_bound < 100 {
            pair_bound
        } else {
            100
        };
        assert(sample_size >= 1);
        let mut total: u64 = 0;
        let mut found: u64 = 0;
        let mut attempts: usize = 0;
        while found < 10 && attempts < sample_size
            invariant
                self.wf(),
                names == self.spec_names(),
                adj == self.spec_adj(),
                all_connected == (self.spec_names().len() >= 2 && (forall|a: int, b: int|
                    0 <= a < self.spec_names().len() && 0 <= b < self.spec_names().len()
                        ==> reachable(self.spec_adj(), a, b))),
                n == self.names@.len(),
                n == self.spec_names().len(),
                n >= 2,
                found <= 10,
                attempts <= sample_size,
                found <= total,
                total <= found * (n - 1),
                all_connected ==> (attempts == 0 || found >= 1),
            decreases sample_size - attempts,
        {
            let i = Self::rand_below(n);
            let mut j = Self::rand_below(n - 1);
            if j >= i {
                j = j + 1;
            }
            attempts += 1;
            proof {
                assert(self.spec_names()[i as int] == self.names@[i as int]@);
                assert(self.spec_names()[j as int] == self.names@[j as int]@);
                assert(self.spec_names()[i as int] != self.spec_names()[j as int]);
                if all_connected {
                    // a connected graph makes every sample succeed
                    assert(names.contains(self.names@[i as int]@));
                    assert(names.contains(self.names@[j as int]@));
                    let w1 = choose|k: int|
                        0 <= k < names.len() && names[k] == self.names@[i as int]@;
                    assert(w1 == i as int);
                    let w2 = choose|k: int|
                        0 <= k < names.len() && names[k] == self.names@[j as int]@;
                    assert(w2 == j as int);
                    assert(reachable(adj, i as int, j as int));
                }
            }
            match self.find_shortest_path(self.names[i].as_str(), self.names[j].as_str()) {
                Ok(path) => {
                    proof {
                        assert(path@.len() >= 2);
                        assert(path@.len() <= n);
                    }
                    let hops = (path.len() - 1) as u64;
                    let ghost pre_total = total;
                    let ghost pre_found = found;
                    if total <= u64::MAX - hops {
                        total = total + hops;
                    } else {
                        total = u64::MAX;
                    }
                    found = found + 1;
                    proof {
                        assert(1 <= hops <= n - 1);
                        assert(found * (n - 1) == pre_found * (n - 1) + (n - 1))
                            by (nonlinear_arith)
                            requires
                                found == pre_found + 1,
                        ;
                        assert(pre_total + hops <= found * (n - 1));
                        assert(total <= found * (n - 1));
                        assert(found <= total);
                    }
                },
                Err(_) => {
                    proof {
                        if all_connected {
                            assert(false);
                        }
                    }
                },
            }
        }
        if found == 0 {
            proof {
                if all_connected {
                    assert(attempts >= sample_size);
                    assert(false);
                }
            }
            return Err(PathError::NoSamples);
        }
        Ok((total, found))
    }

    /// Rebuilds a path finder from a JSON graph export: every decoded
    /// edge is inserted in both directions.  Succeeds exactly on the
    /// export text of a graph with quote-free URLs, and then carries
    /// the adjacency of the exact edge list whose encoding is the
    /// input — the connected components of the exported graph.  Only
    /// `export_json`'s own compact rendering is accepted: reformatted
    /// or foreign JSON is refused rather than read loosely.
    pub fn load_from_json(json: &str) -> (r: Result<PathFinder, PathError>)
        ensures
            (r is Ok) == (exists|n: Seq<Seq<char>>, e: Seq<(Seq<char>, Seq<char>)>|
                {
                    &&& (forall|k: int| 0 <= k < n.len() ==> quote_free(#[trigger] n[k]))
                    &&& (forall|k: int|
                        0 <= k < e.len() ==> quote_free((#[trigger] e[k]).0) && quote_free(e[k].1))
                    &&& json@ == graph_json(n, e)
                }),
            match r {
                Ok(pf) => {
                    &&& pf.wf()
                    &&& (forall|n: Seq<Seq<char>>, e: Seq<(Seq<char>, Seq<char>)>|
                        ((forall|k: int| 0 <= k < n.len() ==> quote_free(#[trigger] n[k])) && (
                        forall|k: int|
                            0 <= k < e.len() ==> quote_free((#[trigger] e[k]).0) && quote_free(
                                e[k].1,
                            )) && json@ == graph_json(n, e)) ==> pf.model() == path_of(
                            (Seq::<Seq<char>>::empty(), Seq::<Seq<int>>::empty()),
                            e,
                        ))
                },
                Err(e) => e == PathError::MalformedExport,
            },
    {
        let parsed = parse_graph_json(json);
        match parsed {
            Some((nodes, edges)) => {
                let mut pf = PathFinder::new();
                pf.load_from_edges(&edges);
                proof {
                    assert(pair_views(edges@) =~= Seq::new(
                        edges@.len(),
                        |i: int| (edges@[i].0@, edges@[i].1@),
                    ));
                    assert forall|n: Seq<Seq<char>>, e: Seq<(Seq<char>, Seq<char>)>|
                        ((forall|k: int| 0 <= k < n.len() ==> quote_free(#[trigger] n[k])) && (
                    forall|k: int|
                        0 <= k < e.len() ==> quote_free((#[trigger] e[k]).0) && quote_free(
                            e[k].1,
                        )) && json@ == graph_json(n, e)) implies pf.model() == path_of(
                        (Seq::<Seq<char>>::empty(), Seq::<Seq<int>>::empty()),
                        e,
                    ) by {
                        crate::codec::lemma_graph_json_injective(
                            nodes.deep_view(),
                            pair_views(edges@),
                            n,
                            e,
                        );
                    }
                }
                Ok(pf)
            },
            None => Err(PathError::MalformedExport),
        }
    }

    /// The id of `url`, if it is a node.
    fn lookup(&self, url: &str) -> (r: Option<usize>)
        requires
            self.wf(),
        ensures
            match r {
                Some(id) => id < self.spec_names().len() && self.spec_names()[id as int] == url@
                    && self.spec_names().contains(url@),
                None => !self.spec_names().contains(url@),
            },
    {
        let url_owned = url.to_owned();
        let mut i: usize = 0;
        let n = self.names.len();
        while i < n
            invariant
                self.wf(),
                url_owned@ == url@,
                n == self.names@.len(),
                self.spec_names().len() == self.names@.len(),
                i <= n,
                forall|j: int| 0 <= j < i ==> self.spec_names()[j] != url@,
            decreases n - i,
        {
            assert(self.spec_names()[i as int] == self.names@[i as int]@);
            if self.names[i] == url_owned {
                return Some(i);
            }
            i += 1;
        }
        assert(!self.spec_names().contains(url@));
        None
    }
}

} // verus!
