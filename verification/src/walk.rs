//! The traversal as mathematics: its state, one step of it, and where it ends.
//!
//! The traversal is a first-in, first-out expansion. It pops the oldest
//! frontier entry `(node, cost)`, marks `node` seen, lowers the best cost of
//! `node` to `cost` where that is less, and pushes `(next, cost + weight)` for
//! every adjacency entry `(next, weight)` of `node` whose `next` has not been
//! seen. A node is marked seen when it is popped, not when it is pushed, so a
//! node may wait in the frontier several times, each time at the cost of
//! another path, and the least of them is the one that stays.
//!
//! While it expands `node`, the traversal offers each `cost + weight` as one
//! more candidate for the best cost of `node` itself, not of the neighbor. No
//! weight is negative, so none of these candidates is less than `cost`, and
//! what stays for `node` is the lesser of `cost` and what was known
//! (`lemma_record_again`). A neighbor gets its best cost when it is popped.
//!
//! The entries are popped in the order in which they were pushed, whatever
//! they cost. What the traversal finds is therefore the least cost among the
//! paths that it walks, which need not be the least cost among all paths.

use crate::energy::{
    lemma_load_concat, lemma_load_empty, lemma_load_first, lemma_load_monotone, lemma_load_push,
    lemma_pushed_unfold, lemma_worth_positive, load, worth_pushed,
};
use crate::graph::Adjacency;
use vstd::prelude::*;

verus! {

/// The state of a traversal.
pub struct Walk {
    /// The nodes that have been popped, and the source.
    pub seen: Set<usize>,
    /// The entries `(node, cost so far)` that wait to be popped, oldest first.
    pub frontier: Seq<(usize, nat)>,
    /// For each node the least cost at which it was popped, if it was.
    pub best: Seq<Option<nat>>,
}

/// The lesser of a best cost so far, if there is one, and a new cost.
pub open spec fn lower(best: Option<nat>, cost: nat) -> nat {
    match best {
        Some(known) => if known <= cost {
            known
        } else {
            cost
        },
        None => cost,
    }
}

/// `best` with `cost` recorded as a candidate for `node`: the lesser of it and
/// what was known stays. A node that `best` has no place for changes nothing.
pub open spec fn record(best: Seq<Option<nat>>, node: usize, cost: nat) -> Seq<Option<nat>> {
    if node < best.len() {
        best.update(node as int, Some(lower(best[node as int], cost)))
    } else {
        best
    }
}

/// A candidate that is no less than one recorded before changes nothing.
pub proof fn lemma_record_again(best: Seq<Option<nat>>, node: usize, cost: nat, more: nat)
    requires
        cost <= more,
    ensures
        record(record(best, node, cost), node, more) == record(best, node, cost),
{
    assert(record(record(best, node, cost), node, more) =~= record(best, node, cost));
}

/// The entries that expanding a node at cost `cost` pushes: one for each of its
/// `peers` outside `seen`, in the order of `peers`, at `cost` plus the weight
/// of the edge.
pub open spec fn pushed(peers: Seq<(usize, usize)>, seen: Set<usize>, cost: nat) -> Seq<
    (usize, nat),
>
    decreases peers.len(),
{
    if peers.len() == 0 {
        Seq::empty()
    } else {
        let before = pushed(peers.drop_last(), seen, cost);
        let (next, weight) = peers.last();
        if seen.contains(next) {
            before
        } else {
            before.push((next, (cost + weight) as nat))
        }
    }
}

/// The entries pushed for `peers` are worth what `worth_pushed` says.
pub proof fn lemma_load_pushed(
    adj: Adjacency,
    seen: Set<usize>,
    peers: Seq<(usize, usize)>,
    cost: nat,
)
    ensures
        load(adj, seen, pushed(peers, seen, cost)) == worth_pushed(adj, seen, peers),
    decreases peers.len(),
{
    lemma_pushed_unfold(adj, seen, peers);
    if peers.len() == 0 {
        lemma_load_empty(adj, seen);
    } else {
        lemma_load_pushed(adj, seen, peers.drop_last(), cost);
        let (next, weight) = peers.last();
        if !seen.contains(next) {
            lemma_load_push(
                adj,
                seen,
                pushed(peers.drop_last(), seen, cost),
                (next, (cost + weight) as nat),
            );
        }
    }
}

/// Every entry pushed for `peers` stands for one of them that is outside
/// `seen`, at `cost` plus the weight of its edge.
pub proof fn lemma_pushed_source(
    peers: Seq<(usize, usize)>,
    seen: Set<usize>,
    cost: nat,
    k: int,
) -> (i: int)
    requires
        0 <= k < pushed(peers, seen, cost).len(),
    ensures
        0 <= i < peers.len(),
        !seen.contains(peers[i].0),
        pushed(peers, seen, cost)[k] == (peers[i].0, (cost + peers[i].1) as nat),
    decreases peers.len(),
{
    let before = pushed(peers.drop_last(), seen, cost);
    if k < before.len() {
        lemma_pushed_source(peers.drop_last(), seen, cost, k)
    } else {
        peers.len() - 1
    }
}

/// Every one of `peers` that is outside `seen` has an entry pushed for it.
pub proof fn lemma_pushed_covers(
    peers: Seq<(usize, usize)>,
    seen: Set<usize>,
    cost: nat,
    i: int,
) -> (k: int)
    requires
        0 <= i < peers.len(),
        !seen.contains(peers[i].0),
    ensures
        0 <= k < pushed(peers, seen, cost).len(),
        pushed(peers, seen, cost)[k] == (peers[i].0, (cost + peers[i].1) as nat),
    decreases peers.len(),
{
    let before = pushed(peers.drop_last(), seen, cost);
    if i < peers.len() - 1 {
        lemma_pushed_covers(peers.drop_last(), seen, cost, i)
    } else {
        before.len() as int
    }
}

impl Walk {
    /// The state before the first step of a traversal from `src`: the source
    /// is seen and waits at cost 0, and `best` holds what is known already.
    pub open spec fn start(src: usize, best: Seq<Option<nat>>) -> Walk {
        Walk { seen: set![src], frontier: seq![(src, 0nat)], best }
    }

    /// The state after popping and expanding the oldest frontier entry.
    pub open spec fn advance(self, adj: Adjacency) -> Walk
        recommends
            self.frontier.len() > 0,
    {
        let (node, cost) = self.frontier[0];
        let seen = self.seen.insert(node);
        Walk {
            seen,
            frontier: self.frontier.skip(1) + pushed(adj[node as int], seen, cost),
            best: record(self.best, node, cost),
        }
    }

    /// The number of steps that the traversal can still take, at most.
    pub open spec fn energy(self, adj: Adjacency) -> nat {
        load(adj, self.seen, self.frontier)
    }

    /// Every step lowers the energy, so the traversal ends.
    pub proof fn lemma_advance_lowers(self, adj: Adjacency)
        requires
            self.frontier.len() > 0,
        ensures
            self.advance(adj).energy(adj) < self.energy(adj),
    {
        let (node, cost) = self.frontier[0];
        let seen = self.seen.insert(node);
        let rest = self.frontier.skip(1);
        let new = pushed(adj[node as int], seen, cost);
        lemma_load_first(adj, self.seen, self.frontier);
        lemma_worth_positive(adj, self.seen, node);
        lemma_load_monotone(adj, self.seen, seen, rest);
        lemma_load_concat(adj, seen, rest, new);
        lemma_load_pushed(adj, seen, adj[node as int], cost);
    }

    /// The state in which the traversal ends: the one reached by advancing
    /// until the frontier is empty.
    pub open spec fn settle(self, adj: Adjacency) -> Walk
        decreases self.energy(adj),
    {
        if self.frontier.len() == 0 {
            self
        } else {
            proof {
                self.lemma_advance_lowers(adj);
            }
            self.advance(adj).settle(adj)
        }
    }

    /// Whether expanding the oldest frontier entry stays within `usize`: the
    /// cost of the entry plus the weight of each edge at its node, whether or
    /// not the neighbor has been seen.
    pub open spec fn head_fits(self, adj: Adjacency) -> bool
        recommends
            self.frontier.len() > 0,
    {
        let (node, cost) = self.frontier[0];
        forall|i: int|
            0 <= i < adj[node as int].len() ==> cost + (#[trigger] adj[node as int][i]).1
                <= usize::MAX
    }

    /// Whether every cost that the traversal computes from here on stays
    /// within `usize`.
    pub open spec fn fits(self, adj: Adjacency) -> bool
        decreases self.energy(adj),
    {
        if self.frontier.len() == 0 {
            true
        } else {
            proof {
                self.lemma_advance_lowers(adj);
            }
            self.head_fits(adj) && self.advance(adj).fits(adj)
        }
    }

    /// The traversal keeps one best cost for each node.
    pub proof fn lemma_settle_len(self, adj: Adjacency)
        ensures
            self.settle(adj).best.len() == self.best.len(),
        decreases self.energy(adj),
    {
        if self.frontier.len() > 0 {
            self.lemma_advance_lowers(adj);
            self.advance(adj).lemma_settle_len(adj);
        }
    }

    /// A best cost of zero stays.
    pub proof fn lemma_settle_zero(self, adj: Adjacency, node: int)
        requires
            0 <= node < self.best.len(),
            self.best[node] == Some(0nat),
        ensures
            self.settle(adj).best[node] == Some(0nat),
        decreases self.energy(adj),
    {
        if self.frontier.len() > 0 {
            self.lemma_advance_lowers(adj);
            self.advance(adj).lemma_settle_zero(adj, node);
        }
    }
}

/// No node reached yet, for `nodes` nodes.
pub open spec fn blank(nodes: nat) -> Seq<Option<nat>> {
    Seq::new(nodes, |v: int| None::<nat>)
}

/// The distance vector of a traversal from `src`: for each node the least cost
/// at which the traversal reaches it, or `None` where it never does.
pub open spec fn distances(adj: Adjacency, src: usize) -> Seq<Option<nat>> {
    Walk::start(src, blank(adj.len())).settle(adj).best
}

/// Whether every cost that a traversal from `src` computes stays within
/// `usize`.
pub open spec fn fits(adj: Adjacency, src: usize) -> bool {
    Walk::start(src, blank(adj.len())).fits(adj)
}

/// A traversal yields one entry for each node, and the source is at distance
/// zero from itself.
pub proof fn lemma_source_zero(adj: Adjacency, src: usize)
    requires
        src < adj.len(),
    ensures
        distances(adj, src).len() == adj.len(),
        distances(adj, src)[src as int] == Some(0nat),
{
    let start = Walk::start(src, blank(adj.len()));
    start.lemma_settle_len(adj);
    start.lemma_advance_lowers(adj);
    start.advance(adj).lemma_settle_zero(adj, src as int);
}

} // verus!
