//! Index-addressed form of a graph.
//!
//! Compaction assigns every key of a `NodeMap` its position as vertex id and
//! resolves each outgoing edge to a vertex index. An edge whose target is not
//! a key of the graph is an expected case — an external link — and becomes an
//! explicit `Edge::External`, never an error.

use vstd::prelude::*;
use vstd::string::*;

use crate::graph::{Node, NodeMap, clone_strings};
use crate::url::str_eq;

verus! {

/// One outgoing edge: another vertex of the graph, or a link that leaves the
/// graph's vertex set.
#[derive(Clone, Copy)]
pub enum Edge {
    Resolved(usize),
    External,
}

/// A graph in index-addressed form: `nodes[i]`, `adj[i]` and `urls[i]` all
/// describe vertex `i`, and `reverse_url_map` sends `urls[i]` back to `i`.
pub struct OptimizedGraph {
    pub nodes: Vec<Node>,
    pub adj: Vec<Vec<Edge>>,
    pub urls: Vec<String>,
    pub reverse_url_map: Vec<(String, usize)>,
}

impl OptimizedGraph {
    /// The three vertex arrays share one length, URLs are unique and agree
    /// with their nodes, the reverse map is the exact inverse of `urls`, and
    /// every resolved edge points at a real vertex.
    pub open spec fn wf(self) -> bool {
        &&& self.adj@.len() == self.nodes@.len()
        &&& self.urls@.len() == self.nodes@.len()
        &&& self.reverse_url_map@.len() == self.nodes@.len()
        &&& forall|i: int, j: int| 0 <= i < j < self.urls@.len()
            ==> self.urls@[i]@ != self.urls@[j]@
        &&& forall|i: int| 0 <= i < self.urls@.len()
            ==> (#[trigger] self.nodes@[i]).url@ == self.urls@[i]@
        &&& forall|i: int| 0 <= i < self.reverse_url_map@.len()
            ==> (#[trigger] self.reverse_url_map@[i]).0@ == self.urls@[i]@
                && self.reverse_url_map@[i].1 == i
        &&& forall|i: int, e: int| 0 <= i < self.adj@.len() && 0 <= e < self.adj@[i].len()
            ==> ((#[trigger] self.adj@[i][e]) matches Edge::Resolved(t)
                ==> t < self.nodes@.len())
    }

    /// The graph has a vertex keyed by `u`.
    pub open spec fn contains_url(self, u: Seq<char>) -> bool {
        exists|i: int| 0 <= i < self.urls@.len() && (#[trigger] self.urls@[i])@ == u
    }

    /// The index of the vertex keyed by `u`; meaningful only when
    /// `contains_url(u)`.
    pub open spec fn url_index_spec(self, u: Seq<char>) -> int {
        choose|i: int| 0 <= i < self.urls@.len() && (#[trigger] self.urls@[i])@ == u
    }

    /// In a well-formed graph, the index of the `i`th URL is `i`.
    pub proof fn lemma_url_index_of(self, i: int)
        requires
            self.wf(),
            0 <= i < self.urls@.len(),
        ensures
            self.contains_url(self.urls@[i]@),
            self.url_index_spec(self.urls@[i]@) == i,
    {
        assert(self.contains_url(self.urls@[i]@)) by {
            assert(self.urls@[i]@ == self.urls@[i]@);
        }
        let j = self.url_index_spec(self.urls@[i]@);
        if i < j {
            assert(self.urls@[i]@ != self.urls@[j]@);
        }
        if j < i {
            assert(self.urls@[j]@ != self.urls@[i]@);
        }
    }

    /// Assembles a graph from its three vertex arrays, building the reverse
    /// URL map as the inverse of `urls`.
    pub fn new(nodes: Vec<Node>, adj: Vec<Vec<Edge>>, urls: Vec<String>) -> (r: Self)
        requires
            adj@.len() == nodes@.len(),
            urls@.len() == nodes@.len(),
            forall|i: int, j: int| 0 <= i < j < urls@.len() ==> urls@[i]@ != urls@[j]@,
            forall|i: int| 0 <= i < urls@.len()
                ==> (#[trigger] nodes@[i]).url@ == urls@[i]@,
            forall|i: int, e: int| 0 <= i < adj@.len() && 0 <= e < adj@[i].len()
                ==> ((#[trigger] adj@[i][e]) matches Edge::Resolved(t)
                    ==> t < nodes@.len()),
        ensures
            r.wf(),
            r.nodes@ == nodes@,
            r.adj@ == adj@,
            r.urls@ == urls@,
    {
        let n = urls.len();
        let mut reverse_url_map: Vec<(String, usize)> = Vec::new();
        let mut i: usize = 0;
        while i < n
            invariant
                i <= n,
                n == urls@.len(),
                reverse_url_map@.len() == i,
                forall|k: int| 0 <= k < i
                    ==> (#[trigger] reverse_url_map@[k]).0@ == urls@[k]@
                        && reverse_url_map@[k].1 == k,
            decreases n - i,
        {
            reverse_url_map.push((urls[i].clone(), i));
            i += 1;
        }
        OptimizedGraph { nodes, adj, urls, reverse_url_map }
    }

    /// Looks a canonical key up in the reverse URL map.
    pub fn url_index(&self, url: &str) -> (r: Option<usize>)
        requires
            self.wf(),
        ensures
            match r {
                Some(v) => v < self.urls@.len() && self.urls@[v as int]@ == url@
                    && self.contains_url(url@) && self.url_index_spec(url@) == v,
                None => !self.contains_url(url@),
            },
    {
        let n = self.reverse_url_map.len();
        let mut i: usize = 0;
        while i < n
            invariant
                self.wf(),
                i <= n,
                n == self.reverse_url_map@.len(),
                forall|k: int| 0 <= k < i ==> (#[trigger] self.urls@[k])@ != url@,
            decreases n - i,
        {
            if str_eq(self.reverse_url_map[i].0.as_str(), url) {
                proof {
                    self.lemma_url_index_of(i as int);
                }
                return Some(self.reverse_url_map[i].1);
            }
            i += 1;
        }
        None
    }

    /// Law: compaction round-trips — looking the `i`th URL up in the reverse
    /// URL map gives back `i`, and the three vertex arrays share one length.
    pub proof fn lemma_compact_round_trip(self, i: int)
        requires
            self.wf(),
            0 <= i < self.urls@.len(),
        ensures
            self.reverse_url_map@[i].0@ == self.urls@[i]@,
            self.reverse_url_map@[i].1 == i,
            self.nodes@.len() == self.adj@.len(),
            self.urls@.len() == self.nodes@.len(),
            self.url_index_spec(self.urls@[i]@) == i,
    {
        self.lemma_url_index_of(i);
    }

    /// Compacts a string-keyed graph: key order becomes vertex order, and
    /// each outgoing URL is resolved to the index of its vertex, or to
    /// `Edge::External` when it points outside the graph.
    pub fn convert_graph_to_ids(graph: &NodeMap) -> (r: Self)
        requires
            graph.wf(),
        ensures
            r.wf(),
            r.urls@.len() == graph.keys@.len(),
            forall|i: int| 0 <= i < graph.keys@.len()
                ==> (#[trigger] r.urls@[i])@ == graph.keys@[i]@,
            forall|i: int| 0 <= i < graph.vals@.len() ==> {
                &&& (#[trigger] r.nodes@[i]).id == graph.vals@[i].id
                &&& r.nodes@[i].score == graph.vals@[i].score
                &&& r.nodes@[i].best_depth == graph.vals@[i].best_depth
                &&& r.nodes@[i].individual_pages == graph.vals@[i].individual_pages
                &&& r.nodes@[i].url@ == graph.vals@[i].url@
                &&& r.nodes@[i].out@.len() == graph.vals@[i].out@.len()
                &&& forall|e: int| 0 <= e < graph.vals@[i].out@.len()
                    ==> (#[trigger] r.nodes@[i].out@[e])@ == graph.vals@[i].out@[e]@
            },
            forall|i: int| 0 <= i < graph.vals@.len()
                ==> (#[trigger] r.adj@[i]).len() == graph.vals@[i].out@.len(),
            forall|i: int, e: int| 0 <= i < graph.vals@.len()
                && 0 <= e < graph.vals@[i].out@.len()
                ==> match #[trigger] r.adj@[i][e] {
                    Edge::Resolved(t) => t < graph.keys@.len()
                        && graph.keys@[t as int]@ == graph.vals@[i].out@[e]@,
                    Edge::External => !graph.contains_key(graph.vals@[i].out@[e]@),
                },
    {
        let n = graph.len();
        let mut nodes: Vec<Node> = Vec::new();
        let mut adj: Vec<Vec<Edge>> = Vec::new();
        let mut urls: Vec<String> = Vec::new();
        let mut i: usize = 0;
        while i < n
            invariant
                graph.wf(),
                i <= n,
                n == graph.keys@.len(),
                nodes@.len() == i,
                adj@.len() == i,
                urls@.len() == i,
                forall|k: int| 0 <= k < i ==> (#[trigger] urls@[k])@ == graph.keys@[k]@,
                forall|k: int| 0 <= k < i ==> {
                    &&& (#[trigger] nodes@[k]).id == graph.vals@[k].id
                    &&& nodes@[k].score == graph.vals@[k].score
                    &&& nodes@[k].best_depth == graph.vals@[k].best_depth
                    &&& nodes@[k].individual_pages == graph.vals@[k].individual_pages
                    &&& nodes@[k].url@ == graph.vals@[k].url@
                    &&& nodes@[k].out@.len() == graph.vals@[k].out@.len()
                    &&& forall|e: int| 0 <= e < graph.vals@[k].out@.len()
                        ==> (#[trigger] nodes@[k].out@[e])@ == graph.vals@[k].out@[e]@
                },
                forall|k: int| 0 <= k < i
                    ==> (#[trigger] adj@[k]).len() == graph.vals@[k].out@.len(),
                forall|k: int, e: int| 0 <= k < i && 0 <= e < graph.vals@[k].out@.len()
                    ==> match #[trigger] adj@[k][e] {
                        Edge::Resolved(t) => t < graph.keys@.len()
                            && graph.keys@[t as int]@ == graph.vals@[k].out@[e]@,
                        Edge::External => !graph.contains_key(graph.vals@[k].out@[e]@),
                    },
            decreases n - i,
        {
            let node = &graph.vals[i];
            let mut adj_list: Vec<Edge> = Vec::new();
            let m = node.out.len();
            let mut e: usize = 0;
            while e < m
                invariant
                    graph.wf(),
                    i < graph.vals@.len(),
                    e <= m,
                    m == graph.vals@[i as int].out@.len(),
                    adj_list@.len() == e,
                    forall|k: int| 0 <= k < e
                        ==> match #[trigger] adj_list@[k] {
                            Edge::Resolved(t) => t < graph.keys@.len()
                                && graph.keys@[t as int]@
                                    == graph.vals@[i as int].out@[k]@,
                            Edge::External => !graph.contains_key(
                                graph.vals@[i as int].out@[k]@),
                        },
                decreases m - e,
            {
                match graph.key_index(graph.vals[i].out[e].as_str()) {
                    Some(t) => {
                        adj_list.push(Edge::Resolved(t));
                    },
                    None => {
                        adj_list.push(Edge::External);
                    },
                }
                e += 1;
            }
            urls.push(graph.keys[i].clone());
            adj.push(adj_list);
            nodes.push(Node {
                id: node.id,
                out: clone_strings(&node.out),
                url: node.url.clone(),
                score: node.score,
                best_depth: node.best_depth,
                individual_pages: node.individual_pages,
            });
            i += 1;
        }
        Self::new(nodes, adj, urls)
    }
}

} // verus!
