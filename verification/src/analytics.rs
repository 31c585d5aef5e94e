//! PageRank over the exported edge list.
//!
//! Scores are fixed-point integers scaled by `SCALE` (a score of
//! `SCALE` means 1.0), so every arithmetic step is exact and two runs
//! over the same edge list give identical results.  The damping factor
//! is 85/100 and the convergence threshold is `SCALE / 10^8`.

use vstd::prelude::*;
use crate::text::{lex_leq, sort_strings};

verus! {

/// Fixed-point scale: this value stands for a score of 1.0.
pub const SCALE: u64 = 1_000_000_000_000;

/// Damping factor numerator (the factor is 85/100).
pub const DAMPING_NUM: u64 = 85;

/// Damping factor denominator.
pub const DAMPING_DEN: u64 = 100;

/// Convergence threshold: total absolute change below this ends the
/// iteration.  It is `SCALE` times the fractional threshold 10^-8.
pub const CONVERGENCE_THRESHOLD: u64 = 10_000;

/// Upper bound on the number of iterations.
pub const MAX_ITERATIONS: usize = 100;

/// The index of `u` in `names` (meaningful when `names` contains `u`
/// and holds no duplicates).
pub open spec fn name_id(names: Seq<Seq<char>>, u: Seq<char>) -> int {
    choose|i: int| 0 <= i < names.len() && names[i] == u
}

/// An adjacency model: page names, outbound target ids per page,
/// inbound source ids per page.
pub type AdjModel = (Seq<Seq<char>>, Seq<Seq<int>>, Seq<Seq<int>>);

/// Adds `u` as a page if it is new.
pub open spec fn adj_add_name(m: AdjModel, u: Seq<char>) -> AdjModel {
    if m.0.contains(u) {
        m
    } else {
        (m.0.push(u), m.1.push(Seq::empty()), m.2.push(Seq::empty()))
    }
}

/// Records the edge `from -> to`: both endpoints become pages, `to`
/// joins `from`'s outbound list and `from` joins `to`'s inbound list.
pub open spec fn adj_add_edge(m: AdjModel, from: Seq<char>, to: Seq<char>) -> AdjModel {
    let m1 = adj_add_name(adj_add_name(m, from), to);
    let fi = name_id(m1.0, from);
    let ti = name_id(m1.0, to);
    let m2 = (m1.0, m1.1.update(fi, m1.1[fi].push(ti)), m1.2);
    (m2.0, m2.1, m2.2.update(ti, m2.2[ti].push(fi)))
}

/// Folds a whole edge list into an adjacency model, in order.
pub open spec fn adj_of(m: AdjModel, edges: Seq<(Seq<char>, Seq<char>)>) -> AdjModel
    decreases edges.len(),
{
    if edges.len() == 0 {
        m
    } else {
        adj_add_edge(adj_of(m, edges.drop_last()), edges.last().0, edges.last().1)
    }
}

/// The `(from, to)` pairs of `q`, as character sequences.
pub open spec fn edge_views(q: Seq<(String, String)>) -> Seq<(Seq<char>, Seq<char>)> {
    Seq::new(q.len(), |i: int| (q[i].0@, q[i].1@))
}

/// A source's contribution to one of its targets: damping times its
/// score, split over its recorded outbound edges.  A page with no
/// recorded outbound edge divides by one instead.
pub open spec fn contribution(score: u64, outdeg: nat) -> nat {
    let d: nat = if outdeg == 0 { 1 } else { outdeg };
    ((DAMPING_NUM * score) as nat) / ((DAMPING_DEN as nat) * d)
}

/// The damped sum over the inbound sources `inb` of one page.
pub open spec fn inbound_sum(scores: Seq<u64>, out: Seq<Seq<int>>, inb: Seq<int>) -> nat
    decreases inb.len(),
{
    if inb.len() == 0 {
        0
    } else {
        inbound_sum(scores, out, inb.drop_last()) + contribution(
            scores[inb.last()],
            out[inb.last()].len(),
        )
    }
}

/// The teleport share each page receives per iteration.
pub open spec fn base_score(n: nat) -> nat {
    ((SCALE as nat) - ((DAMPING_NUM as nat) * (SCALE as nat) / (DAMPING_DEN as nat))) as nat / n
}

/// One page's next score: base share plus its damped inbound sum,
/// capped at `SCALE`.  The cap keeps every score within the scale; the
/// true sum never reaches it, since the total mass stays below 1.0.
pub open spec fn new_score(scores: Seq<u64>, out: Seq<Seq<int>>, inb_p: Seq<int>, n: nat) -> u64 {
    let raw = base_score(n) + inbound_sum(scores, out, inb_p);
    if raw > SCALE {
        SCALE
    } else {
        raw as u64
    }
}

/// One Jacobi iteration: every page's next score is computed from the
/// complete prior snapshot.
pub open spec fn next_scores(
    scores: Seq<u64>,
    out: Seq<Seq<int>>,
    inb: Seq<Seq<int>>,
    n: nat,
) -> Seq<u64> {
    Seq::new(scores.len(), |p: int| new_score(scores, out, inb[p], n))
}

/// The absolute difference of two scores.
pub open spec fn abs_diff(a: u64, b: u64) -> nat {
    if a >= b {
        (a - b) as nat
    } else {
        (b - a) as nat
    }
}

/// The total absolute per-page change between two snapshots.
pub open spec fn total_diff(a: Seq<u64>, b: Seq<u64>) -> nat
    decreases a.len(),
{
    if a.len() == 0 {
        0
    } else {
        total_diff(a.drop_last(), b.drop_last()) + abs_diff(a.last(), b.last())
    }
}

/// Runs the iteration to its end: stops converged when the total
/// change falls below the threshold, reporting the prior snapshot as
/// the final one, or unconverged after `remaining` further iterations.
pub open spec fn pagerank_from(
    out: Seq<Seq<int>>,
    inb: Seq<Seq<int>>,
    scores: Seq<u64>,
    done: nat,
    remaining: nat,
    n: nat,
) -> (Seq<u64>, nat, bool)
    decreases remaining,
{
    if remaining == 0 {
        (scores, done, false)
    } else {
        let next = next_scores(scores, out, inb, n);
        if total_diff(scores, next) < CONVERGENCE_THRESHOLD {
            (scores, done, true)
        } else {
            pagerank_from(out, inb, next, done + 1, (remaining - 1) as nat, n)
        }
    }
}

/// Every page's initial score: an even split of the whole mass.
pub open spec fn initial_scores(n: nat) -> Seq<u64> {
    Seq::new(n, |i: int| (SCALE as nat / n) as u64)
}

/// The full PageRank result over an adjacency model.
pub open spec fn pagerank_spec(m: AdjModel) -> (Seq<u64>, nat, bool) {
    let n = m.0.len();
    if n == 0 {
        (Seq::empty(), 0, true)
    } else {
        pagerank_from(m.1, m.2, initial_scores(n), 0, MAX_ITERATIONS as nat, n)
    }
}

/// Law: PageRank is a pure function of the adjacency model, so two
/// runs over the same edge list yield identical scores, iteration
/// counts and convergence flags.
pub proof fn lemma_pagerank_deterministic(m1: AdjModel, m2: AdjModel)
    requires
        m1 == m2,
    ensures
        pagerank_spec(m1) == pagerank_spec(m2),
{
}

/// PageRank scores for every page, with the iteration count and
/// whether the run converged.
pub struct PageRankResults {
    /// Page name and fixed-point score, in the model's page order.
    pub scores: Vec<(String, u64)>,
    /// Iterations run before stopping.
    pub iterations: usize,
    /// Whether the total change fell below the threshold.
    pub converged: bool,
}

/// Outbound and inbound adjacency built from an edge list, with pages
/// interned in first-appearance order.
pub struct Analytics {
    names: Vec<String>,
    outbound: Vec<Vec<usize>>,
    inbound: Vec<Vec<usize>>,
}

/// The rows of `rows`, as sequences of mathematical integers.
pub open spec fn rows_view(rows: Seq<Vec<usize>>) -> Seq<Seq<int>> {
    Seq::new(rows.len(), |i: int| Seq::new(rows[i]@.len(), |j: int| rows[i]@[j] as int))
}

impl Analytics {
    /// The page names in first-appearance order.
    pub closed spec fn spec_names(&self) -> Seq<Seq<char>> {
        self.names.deep_view()
    }

    /// The outbound target ids per page.
    pub closed spec fn spec_out(&self) -> Seq<Seq<int>> {
        rows_view(self.outbound@)
    }

    /// The inbound source ids per page.
    pub closed spec fn spec_in(&self) -> Seq<Seq<int>> {
        rows_view(self.inbound@)
    }

    /// The whole adjacency model.
    pub open spec fn model(&self) -> AdjModel {
        (self.spec_names(), self.spec_out(), self.spec_in())
    }

    /// Names are distinct, the three lists have equal length, and every
    /// stored id is a valid page index.
    pub open spec fn wf(&self) -> bool {
        &&& self.spec_out().len() == self.spec_names().len()
        &&& self.spec_in().len() == self.spec_names().len()
        &&& (forall|i: int, j: int|
            0 <= i < j < self.spec_names().len() ==> self.spec_names()[i]
                != self.spec_names()[j])
        &&& (forall|i: int, j: int|
            0 <= i < self.spec_out().len() && 0 <= j < self.spec_out()[i].len() ==> 0 <= (
            #[trigger] self.spec_out()[i][j]) < self.spec_names().len())
        &&& (forall|i: int, j: int|
            0 <= i < self.spec_in().len() && 0 <= j < self.spec_in()[i].len() ==> 0 <= (
            #[trigger] self.spec_in()[i][j]) < self.spec_names().len())
    }

    /// An empty adjacency.
    pub fn new() -> (r: Analytics)
        ensures
            r.wf(),
            r.model() == (
                Seq::<Seq<char>>::empty(),
                Seq::<Seq<int>>::empty(),
                Seq::<Seq<int>>::empty(),
            ),
    {
        let r = Analytics { names: Vec::new(), outbound: Vec::new(), inbound: Vec::new() };
        assert(r.spec_names() =~= Seq::<Seq<char>>::empty());
        assert(r.spec_out() =~= Seq::<Seq<int>>::empty());
        assert(r.spec_in() =~= Seq::<Seq<int>>::empty());
        r
    }

    /// The id of `url`, interning it as a new page if needed.
    fn intern(&mut self, url: &String) -> (id: usize)
        requires
            old(self).wf(),
        ensures
            final(self).wf(),
            final(self).model() == adj_add_name(old(self).model(), url@),
            id < final(self).spec_names().len(),
            final(self).spec_names()[id as int] == url@,
            id == name_id(final(self).spec_names(), url@),
            final(self).spec_names().contains(url@),
    {
        let n = self.names.len();
        let mut i: usize = 0;
        while i < n
            invariant
                *self == *old(self),
                self.wf(),
                n == self.names@.len(),
                self.spec_names().len() == self.names@.len(),
                i <= n,
                forall|j: int| 0 <= j < i ==> self.spec_names()[j] != url@,
            decreases n - i,
        {
            assert(self.spec_names()[i as int] == self.names@[i as int]@);
            if self.names[i] == *url {
                assert(self.spec_names().contains(url@));
                assert(adj_add_name(old(self).model(), url@) == old(self).model());
                proof {
                    let w = choose|k: int|
                        0 <= k < self.spec_names().len() && self.spec_names()[k] == url@;
                    assert(w == i as int);
                }
                return i;
            }
            i += 1;
        }
        assert(!self.spec_names().contains(url@));
        let ghost pre = self.model();
        self.names.push(url.clone());
        self.outbound.push(Vec::new());
        self.inbound.push(Vec::new());
        proof {
            assert(self.spec_names() =~= pre.0.push(url@));
            assert(self.spec_out() =~~= pre.1.push(Seq::empty()));
            assert(self.spec_in() =~~= pre.2.push(Seq::empty()));
            assert(self.spec_names()[n as int] == url@);
            let w = choose|k: int|
                0 <= k < self.spec_names().len() && self.spec_names()[k] == url@;
            assert(w == n as int);
            assert(self.wf()) by {
                assert(forall|j: int| 0 <= j < pre.0.len() ==> self.spec_names()[j] == pre.0[j]);
            };
        }
        n
    }

    /// Folds `edges` into the adjacency, in order: each edge interns
    /// its endpoints and extends the outbound and inbound lists.
    pub fn load_from_edges(&mut self, edges: Vec<(String, String)>)
        requires
            old(self).wf(),
        ensures
            final(self).wf(),
            final(self).model() == adj_of(old(self).model(), edge_views(edges@)),
    {
        let mut i: usize = 0;
        proof {
            assert(edge_views(edges@).subrange(0, 0) =~= Seq::<(Seq<char>, Seq<char>)>::empty());
        }
        while i < edges.len()
            invariant
                i <= edges@.len(),
                self.wf(),
                self.model() == adj_of(old(self).model(), edge_views(edges@).subrange(0, i as int)),
            decreases edges@.len() - i,
        {
            let ghost pre = self.model();
            let fi = self.intern(&edges[i].0);
            let ghost m1 = self.model();
            let ti = self.intern(&edges[i].1);
            let ghost m2 = self.model();
            proof {
                assert(m2 == adj_add_name(adj_add_name(pre, edges@[i as int].0@), edges@[i as int].1@));
                // `from` keeps its index after `to` is interned
                assert(m2.0[fi as int] == edges@[i as int].0@) by {
                    if m1.0.contains(edges@[i as int].1@) {
                        assert(m2 == m1);
                    } else {
                        assert(forall|j: int| 0 <= j < m1.0.len() ==> m2.0[j] == m1.0[j]);
                    }
                };
                let w = choose|k: int| 0 <= k < m2.0.len() && m2.0[k] == edges@[i as int].0@;
                assert(w == fi as int);
                assert(fi as int == name_id(m2.0, edges@[i as int].0@));
                assert(ti as int == name_id(m2.0, edges@[i as int].1@));
            }
            self.outbound[fi].push(ti);
            let ghost m3 = self.model();
            proof {
                assert(m3.0 == m2.0);
                assert(m3.2 =~~= m2.2);
                assert(m3.1 =~~= m2.1.update(fi as int, m2.1[fi as int].push(ti as int)));
            }
            self.inbound[ti].push(fi);
            proof {
                assert(self.spec_names() == m3.0);
                assert(self.spec_out() =~~= m3.1);
                assert(self.spec_in() =~~= m3.2.update(ti as int, m3.2[ti as int].push(fi as int)));
                assert(self.model() == adj_add_edge(pre, edges@[i as int].0@, edges@[i as int].1@));
                assert(self.wf()) by {
                    assert(forall|a: int, b: int|
                        0 <= a < self.spec_out().len() && 0 <= b < self.spec_out()[a].len()
                            ==> 0 <= (#[trigger] self.spec_out()[a][b]) < self.spec_names().len());
                    assert(forall|a: int, b: int|
                        0 <= a < self.spec_in().len() && 0 <= b < self.spec_in()[a].len() ==> 0 <= (
                        #[trigger] self.spec_in()[a][b]) < self.spec_names().len());
                };
            }
            i += 1;
            proof {
                let sub = edge_views(edges@).subrange(0, i as int);
                assert(sub.drop_last() =~= edge_views(edges@).subrange(0, i - 1));
                assert(sub.last() == (edges@[i - 1].0@, edges@[i - 1].1@));
                assert(self.model() == adj_of(old(self).model(), sub));
            }
        }
        assert(edge_views(edges@).subrange(0, edges@.len() as int) =~= edge_views(edges@));
    }

    /// Every page that appears as an edge endpoint, in strictly
    /// increasing lexicographic order, each exactly once.
    pub fn get_all_pages(&self) -> (r: Vec<String>)
        requires
            self.wf(),
        ensures
            r.deep_view().len() == self.spec_names().len(),
            forall|x: Seq<char>| r.deep_view().contains(x) == self.spec_names().contains(x),
            forall|i: int, j: int|
                0 <= i < j < r.deep_view().len() ==> lex_leq(
                    #[trigger] r.deep_view()[i],
                    #[trigger] r.deep_view()[j],
                ) && r.deep_view()[i] != r.deep_view()[j],
    {
        let mut names: Vec<String> = Vec::new();
        let mut i: usize = 0;
        while i < self.names.len()
            invariant
                i <= self.names@.len(),
                self.spec_names().len() == self.names@.len(),
                names.deep_view() == self.spec_names().subrange(0, i as int),
            decreases self.names@.len() - i,
        {
            assert(self.spec_names()[i as int] == self.names@[i as int]@);
            let item = self.names[i].clone();
            let ghost rpre = names.deep_view();
            names.push(item);
            proof {
                assert(names.deep_view() =~= rpre.push(self.spec_names()[i as int]));
            }
            i += 1;
            assert(names.deep_view() =~= self.spec_names().subrange(0, i as int));
        }
        assert(names.deep_view() =~= self.spec_names());
        sort_strings(names)
    }

    /// Runs PageRank to convergence or to the iteration cap.  The
    /// result is a pure function of the adjacency model, so two runs
    /// over the same edge list give identical scores and counts.
    pub fn calculate_pagerank(&self) -> (r: PageRankResults)
        requires
            self.wf(),
        ensures
            ({
                let (s, iters, conv) = pagerank_spec(self.model());
                &&& r.iterations == iters
                &&& r.converged == conv
                &&& r.scores@.len() == self.spec_names().len()
                &&& (forall|i: int|
                    0 <= i < r.scores@.len() ==> (#[trigger] r.scores@[i]).0@
                        == self.spec_names()[i] && r.scores@[i].1 == s[i])
            }),
    {
        let n = self.names.len();
        if n == 0 {
            return PageRankResults { scores: Vec::new(), iterations: 0, converged: true };
        }
        let ghost out = self.spec_out();
        let ghost inb = self.spec_in();
        let ghost target = pagerank_spec(self.model());

        let init: u64 = SCALE / (n as u64);
        let mut scores: Vec<u64> = Vec::new();
        let mut p: usize = 0;
        while p < n
            invariant
                p <= n,
                init == SCALE as nat / n as nat,
                scores@ == initial_scores(n as nat).subrange(0, p as int),
            decreases n - p,
        {
            scores.push(init);
            p += 1;
            assert(scores@ =~= initial_scores(n as nat).subrange(0, p as int));
        }
        assert(scores@ =~= initial_scores(n as nat));

        let mut iterations: usize = 0;
        let mut converged = false;
        while iterations < MAX_ITERATIONS && !converged
            invariant
                1 <= n,
                self.wf(),
                n == self.spec_names().len(),
                out == self.spec_out(),
                inb == self.spec_in(),
                target == pagerank_spec(self.model()),
                iterations <= MAX_ITERATIONS,
                scores@.len() == n,
                forall|q: int| 0 <= q < n ==> scores@[q] <= SCALE,
                !converged ==> target == pagerank_from(
                    out,
                    inb,
                    scores@,
                    iterations as nat,
                    (MAX_ITERATIONS - iterations) as nat,
                    n as nat,
                ),
                converged ==> target == (scores@, iterations as nat, true),
                converged ==> iterations < MAX_ITERATIONS,
            decreases MAX_ITERATIONS - iterations + (if converged { 0int } else { 1int }),
        {
            let base: u64 = (SCALE - (DAMPING_NUM * SCALE / DAMPING_DEN)) / (n as u64);
            assert(base == base_score(n as nat));
            let mut next: Vec<u64> = Vec::new();
            let mut diff_acc: u128 = 0;
            let ghost snap = scores@;
            let mut p: usize = 0;
            assert(total_diff(snap.subrange(0, 0), next@) == 0);
            while p < n
                invariant
                    self.wf(),
                    n == self.spec_names().len(),
                    out == self.spec_out(),
                    inb == self.spec_in(),
                    p <= n,
                    base == base_score(n as nat),
                    snap == scores@,
                    scores@.len() == n,
                    forall|q: int| 0 <= q < n ==> scores@[q] <= SCALE,
                    next@.len() == p,
                    forall|q: int|
                        0 <= q < p ==> next@[q] == new_score(snap, out, inb[q], n as nat),
                    forall|q: int| 0 <= q < p ==> next@[q] <= SCALE,
                    diff_acc == total_diff(snap.subrange(0, p as int), next@),
                    diff_acc <= (p as int) * (SCALE as int),
                decreases n - p,
            {
                let inrow_len = self.inbound[p].len();
                let mut sum: u128 = 0;
                let mut k: usize = 0;
                proof {
                    assert(inb[p as int] =~= Seq::new(
                        self.inbound@[p as int]@.len(),
                        |j: int| self.inbound@[p as int]@[j] as int,
                    ));
                    assert(inbound_sum(snap, out, inb[p as int].subrange(0, 0)) == 0);
                }
                while k < inrow_len
                    invariant
                        self.wf(),
                        n == self.spec_names().len(),
                        out == self.spec_out(),
                        inb == self.spec_in(),
                        p < n,
                        snap == scores@,
                        scores@.len() == n,
                        forall|q: int| 0 <= q < n ==> scores@[q] <= SCALE,
                        inrow_len == inb[p as int].len(),
                        inrow_len == self.inbound@[p as int]@.len(),
                        k <= inrow_len,
                        sum == inbound_sum(snap, out, inb[p as int].subrange(0, k as int)),
                        sum <= (k as int) * (SCALE as int),
                    decreases inrow_len - k,
                {
                    let s_id = self.inbound[p][k];
                    proof {
                        assert(inb[p as int][k as int] == self.inbound@[p as int]@[k as int] as int);
                        assert(0 <= inb[p as int][k as int] < n);
                    }
                    let outdeg = self.outbound[s_id].len();
                    proof {
                        assert(out[s_id as int].len() == self.outbound@[s_id as int]@.len());
                    }
                    let d: u64 = if outdeg == 0 {
                        1
                    } else {
                        outdeg as u64
                    };
                    let score_s = scores[s_id];
                    let term: u128 = ((DAMPING_NUM as u128) * (score_s as u128)) / (
                    (DAMPING_DEN as u128) * (d as u128));
                    proof {
                        assert(term == contribution(snap[s_id as int], out[s_id as int].len()));
                        assert(term <= SCALE) by {
                            let a = (DAMPING_NUM as int) * (score_s as int);
                            let b = (DAMPING_DEN as int) * (d as int);
                            assert((DAMPING_NUM as int) * (score_s as int) <= (DAMPING_NUM as int)
                                * (SCALE as int)) by (nonlinear_arith)
                                requires
                                    score_s <= SCALE,
                                    DAMPING_NUM == 85,
                            ;
                            assert((DAMPING_DEN as int) * (d as int) >= 100) by (nonlinear_arith)
                                requires
                                    d >= 1,
                                    DAMPING_DEN == 100,
                            ;
                            vstd::arithmetic::div_mod::lemma_div_is_ordered(
                                a,
                                (DAMPING_NUM as int) * (SCALE as int),
                                b,
                            );
                            vstd::arithmetic::div_mod::lemma_div_is_ordered_by_denominator(
                                (DAMPING_NUM as int) * (SCALE as int),
                                100,
                                b,
                            );
                            assert((DAMPING_NUM as int) * (SCALE as int) / 100 <= SCALE);
                        };
                    }
                    let ghost pre_sum = sum;
                    sum = sum + term;
                    k += 1;
                    proof {
                        let sub = inb[p as int].subrange(0, k as int);
                        assert(sub.drop_last() =~= inb[p as int].subrange(0, k - 1));
                        assert(sub.last() == inb[p as int][k - 1]);
                        assert(sum == inbound_sum(snap, out, sub));
                        assert(sum <= (k as int) * (SCALE as int)) by (nonlinear_arith)
                            requires
                                pre_sum <= ((k - 1) as int) * (SCALE as int),
                                term <= SCALE,
                                sum == pre_sum + term,
                                k >= 1,
                        ;
                    }
                }
                assert(inb[p as int].subrange(0, inrow_len as int) =~= inb[p as int]);
                let raw: u128 = (base as u128) + sum;
                let next_p: u64 = if raw > (SCALE as u128) {
                    SCALE
                } else {
                    raw as u64
                };
                assert(next_p == new_score(snap, out, inb[p as int], n as nat));
                let old_p = scores[p];
                let step: u64 = if next_p >= old_p {
                    next_p - old_p
                } else {
                    old_p - next_p
                };
                assert(step == abs_diff(snap[p as int], next_p));
                let ghost pre_diff = diff_acc;
                let ghost pre_next = next@;
                diff_acc = diff_acc + (step as u128);
                next.push(next_p);
                p += 1;
                proof {
                    let sub = snap.subrange(0, p as int);
                    assert(sub.drop_last() =~= snap.subrange(0, p - 1));
                    assert(sub.last() == snap[p - 1]);
                    assert(next@.drop_last() =~= pre_next);
                    assert(total_diff(sub, next@) == total_diff(
                        sub.drop_last(),
                        next@.drop_last(),
                    ) + abs_diff(sub.last(), next@.last()));
                    assert(diff_acc == total_diff(sub, next@)) by {
                        assert(sub.drop_last() =~= snap.subrange(0, p - 1));
                        assert(total_diff(sub.drop_last(), next@.drop_last()) == pre_diff);
                    };
                    assert(step <= SCALE);
                    assert(diff_acc <= (p as int) * (SCALE as int)) by (nonlinear_arith)
                        requires
                            pre_diff <= ((p - 1) as int) * (SCALE as int),
                            step <= SCALE,
                            diff_acc == pre_diff + step,
                            p >= 1,
                    ;
                }
            }
            assert(snap.subrange(0, n as int) =~= snap);
            assert(next@ =~= next_scores(snap, out, inb, n as nat));
            let ghost rem = (MAX_ITERATIONS - iterations) as nat;
            assert(pagerank_from(out, inb, snap, iterations as nat, rem, n as nat) == target);
            if diff_acc < (CONVERGENCE_THRESHOLD as u128) {
                converged = true;
                assert(total_diff(snap, next@) < CONVERGENCE_THRESHOLD);
                assert(target == (scores@, iterations as nat, true));
            } else {
                scores = next;
                iterations += 1;
                proof {
                    assert(total_diff(snap, scores@) >= CONVERGENCE_THRESHOLD);
                    assert(target == pagerank_from(
                        out,
                        inb,
                        scores@,
                        iterations as nat,
                        (MAX_ITERATIONS - iterations) as nat,
                        n as nat,
                    ));
                }
            }
        }
        let ghost spec_result = pagerank_spec(self.model());
        proof {
            if !converged {
                assert(iterations == MAX_ITERATIONS);
                assert(spec_result == (scores@, iterations as nat, false));
            } else {
                assert(spec_result == (scores@, iterations as nat, true));
            }
        }
        let mut out_scores: Vec<(String, u64)> = Vec::new();
        let mut i: usize = 0;
        while i < n
            invariant
                n == self.spec_names().len(),
                n == self.names@.len(),
                scores@.len() == n,
                i <= n,
                out_scores@.len() == i,
                forall|q: int|
                    0 <= q < i ==> (#[trigger] out_scores@[q]).0@ == self.spec_names()[q]
                        && out_scores@[q].1 == scores@[q],
            decreases n - i,
        {
            assert(self.spec_names()[i as int] == self.names@[i as int]@);
            let name = self.names[i].clone();
            let sc = scores[i];
            out_scores.push((name, sc));
            i += 1;
        }
        PageRankResults { scores: out_scores, iterations, converged }
    }
}

} // verus!
