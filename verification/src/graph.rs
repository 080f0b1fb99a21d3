//! The graph: a fixed set of nodes and, for each node, its adjacency list.

use vstd::prelude::*;

verus! {

/// What a graph holds, as mathematics: for each node, in insertion order, the
/// pairs `(neighbor, weight)` of the edges that touch it.
pub type Adjacency = Seq<Seq<(usize, usize)>>;

/// Every neighbor named in `adj` is a node of `adj`.
pub open spec fn in_range(adj: Adjacency) -> bool {
    forall|u: int, i: int|
        0 <= u < adj.len() && 0 <= i < adj[u].len() ==> (#[trigger] adj[u][i]).0 < adj.len()
}

/// Every edge is recorded at both of its ends: where `u` lists `(v, w)`, `v`
/// lists `(u, w)`.
pub open spec fn symmetric(adj: Adjacency) -> bool {
    forall|u: int, i: int|
        0 <= u < adj.len() && 0 <= i < adj[u].len() ==> adj[(#[trigger] adj[u][i]).0 as int].contains(
            (u as usize, adj[u][i].1),
        )
}

/// The adjacency lists of an undirected graph whose node indices fit in `usize`.
pub open spec fn valid(adj: Adjacency) -> bool {
    &&& adj.len() <= usize::MAX
    &&& in_range(adj)
    &&& symmetric(adj)
}

/// `nodes` nodes without any edge.
pub open spec fn edgeless(nodes: nat) -> Adjacency {
    Seq::new(nodes, |u: int| Seq::<(usize, usize)>::empty())
}

/// `adj` with one more edge of weight `weight` between `src` and `dst`: `src`
/// gains the entry `(dst, weight)` first, then `dst` the entry `(src, weight)`,
/// so a self-loop is listed twice at its node.
pub open spec fn linked(adj: Adjacency, src: usize, dst: usize, weight: usize) -> Adjacency {
    let half = adj.update(src as int, adj[src as int].push((dst, weight)));
    half.update(dst as int, half[dst as int].push((src, weight)))
}

/// Adding an edge between two nodes of a valid graph keeps it valid.
pub proof fn lemma_linked_valid(adj: Adjacency, src: usize, dst: usize, weight: usize)
    requires
        valid(adj),
        src < adj.len(),
        dst < adj.len(),
    ensures
        valid(linked(adj, src, dst, weight)),
        linked(adj, src, dst, weight).len() == adj.len(),
{
    let half = adj.update(src as int, adj[src as int].push((dst, weight)));
    let full = linked(adj, src, dst, weight);
    assert forall|u: int, i: int| 0 <= u < full.len() && 0 <= i < full[u].len() implies (
    #[trigger] full[u][i]).0 < full.len() && full[full[u][i].0 as int].contains(
        (u as usize, full[u][i].1),
    ) by {
        let (v, w) = full[u][i];
        if i < adj[u].len() {
            // an entry that was there before: so was its counterpart
            assert(full[u][i] == adj[u][i]);
            let j = choose|j: int| 0 <= j < adj[v as int].len() && adj[v as int][j] == (u as usize, w);
            assert(full[v as int][j] == (u as usize, w));
        } else if u == src && i == adj[u].len() {
            // the entry `(dst, weight)` at `src`: its counterpart is the last entry at `dst`
            assert(full[u][i] == (dst, weight));
            assert(full[dst as int][full[dst as int].len() - 1] == (src, weight));
        } else {
            // the entry `(src, weight)` at `dst`
            assert(u == dst);
            assert(full[u][i] == (src, weight));
            assert(full[src as int][adj[src as int].len() as int] == (dst, weight));
        }
    }
}

/// Adjacency-list representation of a weighted undirected graph.
pub struct Graph {
    nodes: usize,
    edges: Vec<Vec<(usize, usize)>>,
}

impl View for Graph {
    type V = Adjacency;

    closed spec fn view(&self) -> Adjacency {
        Seq::new(self.edges@.len(), |u: int| self.edges@[u]@)
    }
}

impl Graph {
    /// The stored node count is the number of adjacency lists.
    pub closed spec fn counted(&self) -> bool {
        self.nodes == self.edges@.len()
    }

    /// The representation invariant: every constructor establishes it and
    /// every method keeps it.
    pub open spec fn wf(&self) -> bool {
        &&& self.counted()
        &&& valid(self@)
    }

    /// Creates a graph of `nodes` nodes and no edges.
    pub fn new(nodes: usize) -> (graph: Graph)
        ensures
            graph.wf(),
            graph@ == edgeless(nodes as nat),
    {
        let mut edges: Vec<Vec<(usize, usize)>> = Vec::new();
        let mut u: usize = 0;
        while u < nodes
            invariant
                u <= nodes,
                edges@.len() == u,
                forall|v: int| 0 <= v < u ==> (#[trigger] edges@[v])@ == Seq::<(usize, usize)>::empty(),
            decreases nodes - u,
        {
            edges.push(Vec::new());
            u += 1;
        }
        let graph = Graph { nodes, edges };
        assert(graph@ =~= edgeless(nodes as nat));
        graph
    }

    /// The number of nodes.
    pub fn len(&self) -> (nodes: usize)
        requires
            self.wf(),
        ensures
            nodes == self@.len(),
    {
        self.nodes
    }

    /// Whether the graph has no node at all.
    pub fn is_empty(&self) -> (empty: bool)
        requires
            self.wf(),
        ensures
            empty == (self@.len() == 0),
    {
        self.nodes == 0
    }

    /// Adds an undirected edge of weight `weight` between `src` and `dst`.
    pub fn link(&mut self, src: usize, dst: usize, weight: usize)
        requires
            old(self).wf(),
            src < old(self)@.len(),
            dst < old(self)@.len(),
        ensures
            final(self).wf(),
            final(self)@ == linked(old(self)@, src, dst, weight),
    {
        self.edges[src].push((dst, weight));
        self.edges[dst].push((src, weight));
        proof {
            lemma_linked_valid(old(self)@, src, dst, weight);
            assert(self@ =~= linked(old(self)@, src, dst, weight));
        }
    }

    /// The edges that touch `src`, each as `(neighbor, weight)`, in insertion
    /// order.
    pub fn peers(&self, src: usize) -> (list: &[(usize, usize)])
        requires
            self.wf(),
            src < self@.len(),
        ensures
            list@ == self@[src as int],
    {
        self.edges[src].as_slice()
    }
}

} // verus!
