//! Which nodes a traversal reaches: exactly those that a path of edges joins
//! to the source.

use crate::graph::{valid, Adjacency};
use crate::walk::{blank, distances, lemma_pushed_covers, lemma_pushed_source, pushed, Walk};
use vstd::prelude::*;

verus! {

/// `a` lists an edge to `b`.
pub open spec fn adjacent(adj: Adjacency, a: usize, b: usize) -> bool {
    a < adj.len() && exists|i: int| 0 <= i < adj[a as int].len() && (#[trigger] adj[a as int][i]).0 == b
}

/// `path` starts at a node of the graph and follows an edge at every step.
pub open spec fn is_path(adj: Adjacency, path: Seq<usize>) -> bool {
    &&& path.len() > 0
    &&& path[0] < adj.len()
    &&& forall|k: int| 0 <= k < path.len() - 1 ==> adjacent(adj, #[trigger] path[k], path[k + 1])
}

/// A path of edges leads from `a` to `b`. Every node is connected to itself.
pub open spec fn connected(adj: Adjacency, a: usize, b: usize) -> bool {
    exists|path: Seq<usize>| is_path(adj, path) && path[0] == a && #[trigger] path.last() == b
}

/// A path to `a` and an edge from `a` to `b` make a path to `b`.
pub proof fn lemma_connected_extend(adj: Adjacency, src: usize, a: usize, b: usize)
    requires
        connected(adj, src, a),
        adjacent(adj, a, b),
    ensures
        connected(adj, src, b),
{
    let path = choose|path: Seq<usize>| is_path(adj, path) && path[0] == src && #[trigger] path.last() == a;
    let longer = path.push(b);
    assert forall|k: int| 0 <= k < longer.len() - 1 implies adjacent(
        adj,
        #[trigger] longer[k],
        longer[k + 1],
    ) by {
        if k < path.len() - 1 {
            assert(adjacent(adj, path[k], path[k + 1]));
        }
    }
    assert(is_path(adj, longer) && longer[0] == src && longer.last() == b);
}

/// In an undirected graph a path can be walked backwards.
pub proof fn lemma_connected_symmetric(adj: Adjacency, a: usize, b: usize)
    requires
        valid(adj),
        connected(adj, a, b),
    ensures
        connected(adj, b, a),
{
    let path = choose|path: Seq<usize>| is_path(adj, path) && path[0] == a && #[trigger] path.last() == b;
    lemma_path_in_range(adj, path, path.len() - 1);
    let back = Seq::new(path.len(), |k: int| path[path.len() - 1 - k]);
    assert forall|k: int| 0 <= k < back.len() - 1 implies adjacent(
        adj,
        #[trigger] back[k],
        back[k + 1],
    ) by {
        let j = path.len() - 2 - k;
        assert(adjacent(adj, path[j], path[j + 1]));
        let i = choose|i: int|
            0 <= i < adj[path[j] as int].len() && (#[trigger] adj[path[j] as int][i]).0 == path[j
                + 1];
        let weight = adj[path[j] as int][i].1;
        // the edge is listed at its other end as well
        let there = adj[path[j + 1] as int];
        assert(there.contains((path[j], weight)));
        let m = choose|m: int| 0 <= m < there.len() && there[m] == (path[j], weight);
        assert(there[m].0 == path[j]);
        lemma_path_in_range(adj, path, j + 1);
    }
    assert(is_path(adj, back) && back[0] == b && back.last() == a);
}

/// Every node on a path is a node of the graph.
pub proof fn lemma_path_in_range(adj: Adjacency, path: Seq<usize>, k: int)
    requires
        valid(adj),
        is_path(adj, path),
        0 <= k < path.len(),
    ensures
        path[k] < adj.len(),
    decreases k,
{
    if k > 0 {
        lemma_path_in_range(adj, path, k - 1);
        assert(adjacent(adj, path[k - 1], path[k]));
    }
}

/// `node` waits in the frontier.
pub open spec fn waiting(walk: Walk, node: usize) -> bool {
    exists|k: int| 0 <= k < walk.frontier.len() && (#[trigger] walk.frontier[k]).0 == node
}

/// `node` has been expanded: it has a best cost, and each of its neighbors has
/// been seen or waits.
pub open spec fn expanded(adj: Adjacency, walk: Walk, node: usize) -> bool {
    &&& walk.best[node as int] is Some
    &&& forall|i: int|
        0 <= i < adj[node as int].len() ==> walk.seen.contains(
            (#[trigger] adj[node as int][i]).0,
        ) || waiting(walk, adj[node as int][i].0)
}

/// What holds of every state of a traversal from `src`: only nodes connected
/// to `src` wait or have a best cost, and every node that was seen waits or
/// has been expanded.
pub open spec fn tracks(adj: Adjacency, src: usize, walk: Walk) -> bool {
    &&& walk.best.len() == adj.len()
    &&& walk.seen.contains(src)
    &&& forall|k: int|
        0 <= k < walk.frontier.len() ==> connected(adj, src, (#[trigger] walk.frontier[k]).0)
    &&& forall|v: int|
        0 <= v < walk.best.len() && (#[trigger] walk.best[v]) is Some ==> connected(
            adj,
            src,
            v as usize,
        )
    &&& forall|a: usize| #[trigger]
        walk.seen.contains(a) ==> a < adj.len() && connected(adj, src, a) && (waiting(walk, a)
            || expanded(adj, walk, a))
}

/// A node connected to `src` is a node of the graph.
pub proof fn lemma_connected_in_range(adj: Adjacency, src: usize, node: usize)
    requires
        valid(adj),
        connected(adj, src, node),
    ensures
        node < adj.len(),
{
    let path = choose|path: Seq<usize>| is_path(adj, path) && path[0] == src && #[trigger] path.last() == node;
    lemma_path_in_range(adj, path, path.len() - 1);
}

/// A node that waits before a step is the one that the step pops, or still
/// waits after it.
proof fn lemma_still_waiting(adj: Adjacency, walk: Walk, node: usize)
    requires
        waiting(walk, node),
    ensures
        walk.frontier[0].0 == node || waiting(walk.advance(adj), node),
{
    let k = choose|k: int| 0 <= k < walk.frontier.len() && (#[trigger] walk.frontier[k]).0 == node;
    if k > 0 {
        let next = walk.advance(adj);
        assert(next.frontier[k - 1] == walk.frontier[k]);
    }
}

/// A step keeps `tracks`.
pub proof fn lemma_advance_tracks(adj: Adjacency, src: usize, walk: Walk)
    requires
        valid(adj),
        tracks(adj, src, walk),
        walk.frontier.len() > 0,
    ensures
        tracks(adj, src, walk.advance(adj)),
{
    let next = walk.advance(adj);
    let (node, cost) = walk.frontier[0];
    let rest = walk.frontier.skip(1);
    let new = pushed(adj[node as int], next.seen, cost);
    assert(connected(adj, src, node));
    lemma_connected_in_range(adj, src, node);
    assert forall|k: int| 0 <= k < next.frontier.len() implies connected(
        adj,
        src,
        (#[trigger] next.frontier[k]).0,
    ) by {
        if k < rest.len() {
            assert(next.frontier[k] == walk.frontier[k + 1]);
        } else {
            let i = lemma_pushed_source(adj[node as int], next.seen, cost, k - rest.len());
            assert(next.frontier[k] == new[k - rest.len()]);
            assert(adj[node as int][i].0 == next.frontier[k].0);
            lemma_connected_extend(adj, src, node, next.frontier[k].0);
        }
    }
    assert forall|a: usize| #[trigger] next.seen.contains(a) implies a < adj.len() && connected(
        adj,
        src,
        a,
    ) && (waiting(next, a) || expanded(adj, next, a)) by {
        if a == node {
            assert forall|i: int| 0 <= i < adj[a as int].len() implies next.seen.contains(
                (#[trigger] adj[a as int][i]).0,
            ) || waiting(next, adj[a as int][i].0) by {
                let peer = adj[a as int][i].0;
                if !next.seen.contains(peer) {
                    let k = lemma_pushed_covers(adj[node as int], next.seen, cost, i);
                    assert(next.frontier[rest.len() + k] == new[k]);
                }
            }
            assert(expanded(adj, next, a));
        } else {
            assert(walk.seen.contains(a));
            if waiting(walk, a) {
                lemma_still_waiting(adj, walk, a);
            } else {
                assert(expanded(adj, walk, a));
                assert forall|i: int| 0 <= i < adj[a as int].len() implies next.seen.contains(
                    (#[trigger] adj[a as int][i]).0,
                ) || waiting(next, adj[a as int][i].0) by {
                    let peer = adj[a as int][i].0;
                    if !walk.seen.contains(peer) {
                        lemma_still_waiting(adj, walk, peer);
                    }
                }
                assert(expanded(adj, next, a));
            }
        }
    }
}

/// The state in which a traversal ends has `tracks`, where the state it
/// started from had it.
pub proof fn lemma_settle_tracks(adj: Adjacency, src: usize, walk: Walk)
    requires
        valid(adj),
        tracks(adj, src, walk),
    ensures
        tracks(adj, src, walk.settle(adj)),
        walk.settle(adj).frontier.len() == 0,
    decreases walk.energy(adj),
{
    if walk.frontier.len() > 0 {
        walk.lemma_advance_lowers(adj);
        lemma_advance_tracks(adj, src, walk);
        lemma_settle_tracks(adj, src, walk.advance(adj));
    }
}

/// Once nothing waits, every node at the end of a path from `src` has been
/// seen.
proof fn lemma_path_seen(adj: Adjacency, src: usize, walk: Walk, path: Seq<usize>, k: int)
    requires
        valid(adj),
        tracks(adj, src, walk),
        walk.frontier.len() == 0,
        is_path(adj, path),
        path[0] == src,
        0 <= k < path.len(),
    ensures
        walk.seen.contains(path[k]),
    decreases k,
{
    if k > 0 {
        lemma_path_seen(adj, src, walk, path, k - 1);
        let a = path[k - 1];
        assert(adjacent(adj, a, path[k]));
        assert(walk.seen.contains(a));
        assert(!waiting(walk, a));
        assert(expanded(adj, walk, a));
        let i = choose|i: int| 0 <= i < adj[a as int].len() && (#[trigger] adj[a as int][i]).0 == path[k];
        assert(!waiting(walk, adj[a as int][i].0));
    }
}

/// The traversal from `src` reaches exactly the nodes that are connected to
/// `src`.
pub proof fn lemma_reached_iff_connected(adj: Adjacency, src: usize, node: usize)
    requires
        valid(adj),
        src < adj.len(),
        node < adj.len(),
    ensures
        distances(adj, src)[node as int] is Some <==> connected(adj, src, node),
{
    let start = Walk::start(src, blank(adj.len()));
    let trivial = seq![src];
    assert(is_path(adj, trivial) && trivial[0] == src && trivial.last() == src);
    assert(connected(adj, src, src));
    assert(start.frontier[0].0 == src);
    assert(waiting(start, src));
    assert(tracks(adj, src, start));
    lemma_settle_tracks(adj, src, start);
    let end = start.settle(adj);
    if connected(adj, src, node) {
        let path = choose|path: Seq<usize>|
            is_path(adj, path) && path[0] == src && #[trigger] path.last() == node;
        lemma_path_seen(adj, src, end, path, path.len() - 1);
        assert(end.seen.contains(node));
        assert(!waiting(end, node));
        assert(expanded(adj, end, node));
    }
}

/// Reachability is symmetric: the traversal from `a` reaches `b` exactly
/// where the traversal from `b` reaches `a`. The two distances may differ.
pub proof fn lemma_reach_symmetric(adj: Adjacency, a: usize, b: usize)
    requires
        valid(adj),
        a < adj.len(),
        b < adj.len(),
    ensures
        distances(adj, a)[b as int] is Some <==> distances(adj, b)[a as int] is Some,
{
    lemma_reached_iff_connected(adj, a, b);
    lemma_reached_iff_connected(adj, b, a);
    if connected(adj, a, b) {
        lemma_connected_symmetric(adj, a, b);
    }
    if connected(adj, b, a) {
        lemma_connected_symmetric(adj, b, a);
    }
}

} // verus!
