//! Costs that fit stay clear of the mark of an unreached node.
//!
//! An edge is listed at both of its ends. A frontier entry that came over an
//! edge of weight `w` will, when it is expanded, add `w` to its cost once more
//! for the way back. So where every cost that a traversal computes fits in
//! `usize`, every cost at which it reaches a node is below `usize::MAX`, and a
//! stored distance of `usize::MAX` can only mean that the node was not reached.

use crate::graph::{valid, Adjacency};
use crate::walk::{blank, distances, fits, lemma_pushed_source, Walk};
use vstd::prelude::*;

verus! {

/// In a traversal that fits, expanding any entry that waits will fit.
pub proof fn lemma_fits_entry(adj: Adjacency, walk: Walk, k: int)
    requires
        walk.fits(adj),
        0 <= k < walk.frontier.len(),
    ensures
        forall|i: int|
            0 <= i < adj[walk.frontier[k].0 as int].len() ==> walk.frontier[k].1 + (
            #[trigger] adj[walk.frontier[k].0 as int][i]).1 <= usize::MAX,
    decreases k,
{
    if k > 0 {
        let next = walk.advance(adj);
        assert(next.frontier[k - 1] == walk.frontier[k]);
        lemma_fits_entry(adj, next, k - 1);
    }
}

/// The traversal fits from here on, and every cost that waits or stands as a
/// best cost is below `usize::MAX`.
pub open spec fn low(adj: Adjacency, walk: Walk) -> bool {
    &&& walk.fits(adj)
    &&& forall|k: int|
        0 <= k < walk.frontier.len() ==> (#[trigger] walk.frontier[k]).0 < adj.len()
            && walk.frontier[k].1 < usize::MAX
    &&& forall|v: int|
        0 <= v < walk.best.len() ==> (#[trigger] walk.best[v] matches Some(cost) ==> cost
            < usize::MAX)
}

/// A step keeps `low`.
pub proof fn lemma_advance_low(adj: Adjacency, walk: Walk)
    requires
        valid(adj),
        low(adj, walk),
        walk.frontier.len() > 0,
    ensures
        low(adj, walk.advance(adj)),
{
    let next = walk.advance(adj);
    let (node, cost) = walk.frontier[0];
    let rest = walk.frontier.skip(1);
    assert(walk.frontier[0].1 < usize::MAX);
    assert forall|k: int| 0 <= k < next.frontier.len() implies (#[trigger] next.frontier[k]).0
        < adj.len() && next.frontier[k].1 < usize::MAX by {
        if k < rest.len() {
            assert(next.frontier[k] == walk.frontier[k + 1]);
        } else {
            let i = lemma_pushed_source(adj[node as int], next.seen, cost, k - rest.len());
            let (peer, weight) = adj[node as int][i];
            assert(next.frontier[k] == (peer, (cost + weight) as nat));
            // the way back from `peer` to `node` has the same weight
            assert(adj[peer as int].contains((node, weight)));
            let m = choose|m: int|
                0 <= m < adj[peer as int].len() && adj[peer as int][m] == (node, weight);
            lemma_fits_entry(adj, next, k);
            assert(adj[next.frontier[k].0 as int][m] == (node, weight));
            assert(next.frontier[k].1 + weight <= usize::MAX);
        }
    }
}

/// The state in which a traversal ends has `low`, where the state it started
/// from had it.
pub proof fn lemma_settle_low(adj: Adjacency, walk: Walk)
    requires
        valid(adj),
        low(adj, walk),
    ensures
        low(adj, walk.settle(adj)),
    decreases walk.energy(adj),
{
    if walk.frontier.len() > 0 {
        walk.lemma_advance_lowers(adj);
        lemma_advance_low(adj, walk);
        lemma_settle_low(adj, walk.advance(adj));
    }
}

/// Where a traversal from `src` fits, every distance that it finds is below
/// `usize::MAX`.
pub proof fn lemma_fits_below(adj: Adjacency, src: usize)
    requires
        valid(adj),
        src < adj.len(),
        fits(adj, src),
    ensures
        forall|v: int|
            0 <= v < adj.len() ==> (#[trigger] distances(adj, src)[v] matches Some(cost) ==> cost
                < usize::MAX),
{
    let start = Walk::start(src, blank(adj.len()));
    assert(low(adj, start));
    lemma_settle_low(adj, start);
    start.lemma_settle_len(adj);
}

} // verus!
