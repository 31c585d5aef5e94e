//! The link-graph store: the set of URLs seen as edge endpoints and the
//! ordered sequence of directed edges, duplicates preserved.

use vstd::prelude::*;
use crate::codec::{dot_text, graph_json, graph_to_dot, graph_to_json, pair_views};

verus! {

/// Accumulator for the directed link graph of one crawl.
pub struct GraphExporter {
    nodes: Vec<String>,
    edges: Vec<(String, String)>,
}

impl GraphExporter {
    /// The node URLs in first-seen order.
    pub closed spec fn spec_nodes(&self) -> Seq<Seq<char>> {
        self.nodes.deep_view()
    }

    /// The directed edges in insertion order.
    pub closed spec fn spec_edges(&self) -> Seq<(Seq<char>, Seq<char>)> {
        Seq::new(self.edges@.len(), |i: int| (self.edges@[i].0@, self.edges@[i].1@))
    }

    /// The node set.
    pub open spec fn node_set(&self) -> Set<Seq<char>> {
        Set::new(|u: Seq<char>| self.spec_nodes().contains(u))
    }

    /// No node is recorded twice, and every edge endpoint is a node.
    pub open spec fn wf(&self) -> bool {
        &&& (forall|i: int, j: int|
            0 <= i < j < self.spec_nodes().len() ==> self.spec_nodes()[i] != self.spec_nodes()[j])
        &&& (forall|i: int|
            0 <= i < self.spec_edges().len() ==> self.node_set().contains(
                (#[trigger] self.spec_edges()[i]).0,
            ) && self.node_set().contains(self.spec_edges()[i].1))
    }

    /// An empty graph.
    pub fn new() -> (r: GraphExporter)
        ensures
            r.wf(),
            r.spec_nodes() == Seq::<Seq<char>>::empty(),
            r.spec_edges() == Seq::<(Seq<char>, Seq<char>)>::empty(),
    {
        let r = GraphExporter { nodes: Vec::new(), edges: Vec::new() };
        assert(r.spec_nodes() =~= Seq::<Seq<char>>::empty());
        assert(r.spec_edges() =~= Seq::<(Seq<char>, Seq<char>)>::empty());
        r
    }

    /// Inserts `url` into the node list if it is not there yet.
    fn insert_node(&mut self, url: String)
        requires
            old(self).wf(),
        ensures
            final(self).wf(),
            final(self).spec_edges() == old(self).spec_edges(),
            final(self).node_set() == old(self).node_set().insert(url@),
    {
        let ghost pre = self.spec_nodes();
        let mut i: usize = 0;
        while i < self.nodes.len()
            invariant
                *self == *old(self),
                self.wf(),
                i <= self.nodes@.len(),
                self.spec_nodes().len() == self.nodes@.len(),
                forall|j: int| 0 <= j < i ==> self.spec_nodes()[j] != url@,
            decreases self.nodes@.len() - i,
        {
            assert(self.spec_nodes()[i as int] == self.nodes@[i as int]@);
            if self.nodes[i] == url {
                assert(self.node_set() =~= old(self).node_set().insert(url@));
                return;
            }
            i += 1;
        }
        self.nodes.push(url);
        assert(self.spec_nodes() =~= pre.push(url@));
        assert(final(self).node_set() =~= old(self).node_set().insert(url@)) by {
            assert(forall|j: int| 0 <= j < pre.len() ==> self.spec_nodes()[j] == pre[j]);
            assert(self.spec_nodes()[pre.len() as int] == url@);
        };
        assert(self.wf()) by {
            assert(forall|j: int| 0 <= j < pre.len() ==> self.spec_nodes()[j] == pre[j]);
            assert(self.spec_edges() =~= old(self).spec_edges());
            assert(forall|i2: int|
                0 <= i2 < self.spec_edges().len() ==> old(self).node_set().contains(
                    (#[trigger] self.spec_edges()[i2]).0,
                ) && old(self).node_set().contains(self.spec_edges()[i2].1));
        };
    }

    /// Records the directed edge `from -> to`, inserting both endpoints
    /// into the node set and appending the pair to the edge sequence;
    /// repeated edges accumulate.
    pub fn add_edge(&mut self, from: String, to: String)
        requires
            old(self).wf(),
        ensures
            final(self).wf(),
            final(self).spec_edges() == old(self).spec_edges().push((from@, to@)),
            final(self).node_set() == old(self).node_set().insert(from@).insert(to@),
    {
        self.insert_node(from.clone());
        self.insert_node(to.clone());
        let ghost pre_edges = self.spec_edges();
        self.edges.push((from, to));
        assert(self.spec_edges() =~= pre_edges.push((from@, to@)));
        assert(self.wf()) by {
            assert(forall|j: int| 0 <= j < pre_edges.len() ==> self.spec_edges()[j] == pre_edges[j]);
            assert(self.spec_edges()[pre_edges.len() as int] == (from@, to@));
            assert(self.node_set().contains(from@));
            assert(self.node_set().contains(to@));
        };
    }

    /// The number of recorded edges.
    pub fn edge_count(&self) -> (r: usize)
        ensures
            r == self.spec_edges().len(),
    {
        self.edges.len()
    }

    /// The number of distinct nodes.
    pub fn node_count(&self) -> (r: usize)
        ensures
            r == self.spec_nodes().len(),
    {
        self.nodes.len()
    }

    /// A copy of the node list, in first-seen order.
    pub fn nodes(&self) -> (r: Vec<String>)
        ensures
            r.deep_view() == self.spec_nodes(),
    {
        let mut r: Vec<String> = Vec::new();
        let mut i: usize = 0;
        while i < self.nodes.len()
            invariant
                i <= self.nodes@.len(),
                self.spec_nodes().len() == self.nodes@.len(),
                r.deep_view() == self.spec_nodes().subrange(0, i as int),
            decreases self.nodes@.len() - i,
        {
            assert(self.spec_nodes()[i as int] == self.nodes@[i as int]@);
            let ghost rpre = r.deep_view();
            let item = self.nodes[i].clone();
            r.push(item);
            proof {
                assert(r.deep_view() =~= rpre.push(self.spec_nodes()[i as int]));
            }
            i += 1;
            assert(r.deep_view() =~= self.spec_nodes().subrange(0, i as int));
        }
        assert(r.deep_view() =~= self.spec_nodes());
        r
    }

    /// The DOT rendering of the graph: a left-to-right layout, one
    /// labelled node statement per node and one edge statement per
    /// recorded edge, duplicates included.  Node names are written
    /// unescaped, as display text.
    pub fn export_dot(&self) -> (r: String)
        ensures
            r@ == dot_text(self.spec_nodes(), self.spec_edges()),
    {
        let nodes = self.nodes();
        let edges = self.edges();
        let out = graph_to_dot(&nodes, &edges);
        proof {
            assert(pair_views(edges@) =~= self.spec_edges());
        }
        out
    }

    /// The JSON rendering of the graph: the node list, then the edge
    /// list, duplicates included.  URLs are written unescaped — a URL
    /// cannot contain a quote — so text holding a quoted URL would not
    /// reparse.
    pub fn export_json(&self) -> (r: String)
        ensures
            r@ == graph_json(self.spec_nodes(), self.spec_edges()),
    {
        let nodes = self.nodes();
        let edges = self.edges();
        let out = graph_to_json(&nodes, &edges);
        proof {
            assert(pair_views(edges@) =~= self.spec_edges());
        }
        out
    }

    /// A copy of the edge list, in insertion order.
    pub fn edges(&self) -> (r: Vec<(String, String)>)
        ensures
            r@.len() == self.spec_edges().len(),
            forall|i: int|
                0 <= i < r@.len() ==> ((#[trigger] r@[i]).0@, r@[i].1@) == self.spec_edges()[i],
    {
        let mut r: Vec<(String, String)> = Vec::new();
        let mut i: usize = 0;
        while i < self.edges.len()
            invariant
                i <= self.edges@.len(),
                self.spec_edges().len() == self.edges@.len(),
                r@.len() == i,
                forall|j: int|
                    0 <= j < i ==> ((#[trigger] r@[j]).0@, r@[j].1@) == self.spec_edges()[j],
            decreases self.edges@.len() - i,
        {
            assert(self.spec_edges()[i as int] == (self.edges@[i as int].0@, self.edges@[i as int].1@));
            let from = self.edges[i].0.clone();
            let to = self.edges[i].1.clone();
            r.push((from, to));
            i += 1;
        }
        r
    }
}

} // verus!
