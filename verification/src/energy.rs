//! Why the traversal ends: a measure on its state that every step lowers.
//!
//! A frontier entry for node `v` is worth one step for itself, plus the worth
//! of every entry that expanding `v` would push: one per adjacency entry of `v`
//! whose neighbor has not been seen by then. Expanding `v` marks it seen, so
//! the entries it pushes are worth strictly less than `v` was, and marking a
//! node seen never makes a waiting entry worth more.

use crate::graph::Adjacency;
use vstd::prelude::*;
use vstd::set_lib::lemma_set_subset_finite;

verus! {

/// The node indices that `seen` does not hold.
pub open spec fn unseen(seen: Set<usize>) -> Set<usize> {
    Set::new(|u: usize| !seen.contains(u))
}

/// The node indices below `bound`.
pub open spec fn below(bound: nat) -> Set<usize> {
    Set::new(|u: usize| u < bound)
}

/// There are `bound` node indices below `bound`, as far as `usize` goes.
pub proof fn lemma_below_len(bound: nat)
    requires
        bound <= usize::MAX + 1,
    ensures
        below(bound).finite(),
        below(bound).len() == bound,
    decreases bound,
{
    if bound == 0 {
        assert(below(bound) =~= Set::<usize>::empty());
    } else {
        let prev = (bound - 1) as nat;
        lemma_below_len(prev);
        assert(below(bound) =~= below(prev).insert(prev as usize));
    }
}

/// There are only finitely many node indices, seen or not.
pub proof fn lemma_unseen_finite(seen: Set<usize>)
    ensures
        unseen(seen).finite(),
{
    let all = below((usize::MAX + 1) as nat);
    lemma_below_len((usize::MAX + 1) as nat);
    assert(unseen(seen).subset_of(all));
    lemma_set_subset_finite(all, unseen(seen));
}

/// Marking a new node seen leaves one node fewer unseen.
pub proof fn lemma_unseen_shrinks(seen: Set<usize>, node: usize)
    requires
        !seen.contains(node),
    ensures
        unseen(seen.insert(node)).len() < unseen(seen).len(),
{
    lemma_unseen_finite(seen);
    assert(unseen(seen.insert(node)) =~= unseen(seen).remove(node));
    assert(unseen(seen).contains(node));
}

/// The number of steps that a frontier entry for `node` can still cause, itself
/// included, when `seen` is the set of nodes seen so far.
pub closed spec fn worth(adj: Adjacency, seen: Set<usize>, node: usize) -> nat
    decreases unseen(seen.insert(node)).len(), 1nat, 0nat,
{
    1 + worth_pushed(adj, seen.insert(node), adj[node as int])
}

/// The worth of the entries pushed for `peers` when `seen` is the set of nodes
/// seen so far: one entry for each peer outside `seen`.
pub closed spec fn worth_pushed(adj: Adjacency, seen: Set<usize>, peers: Seq<(usize, usize)>) -> nat
    decreases unseen(seen).len(), 0nat, peers.len(),
{
    if peers.len() == 0 {
        0
    } else {
        let rest = worth_pushed(adj, seen, peers.drop_last());
        let next = peers.last().0;
        if seen.contains(next) {
            rest
        } else {
            proof {
                lemma_unseen_shrinks(seen, next);
            }
            rest + worth(adj, seen, next)
        }
    }
}

/// The worth of a whole frontier.
pub closed spec fn load(adj: Adjacency, seen: Set<usize>, frontier: Seq<(usize, nat)>) -> nat
    decreases frontier.len(),
{
    if frontier.len() == 0 {
        0
    } else {
        load(adj, seen, frontier.drop_last()) + worth(adj, seen, frontier.last().0)
    }
}

/// An entry is worth at least its own step.
pub proof fn lemma_worth_positive(adj: Adjacency, seen: Set<usize>, node: usize)
    ensures
        worth(adj, seen, node) == 1 + worth_pushed(adj, seen.insert(node), adj[node as int]),
{
}

/// The more nodes are seen, the less an entry is worth.
pub proof fn lemma_worth_monotone(adj: Adjacency, small: Set<usize>, large: Set<usize>, node: usize)
    requires
        small.subset_of(large),
    ensures
        worth(adj, large, node) <= worth(adj, small, node),
    decreases unseen(small.insert(node)).len(), 1nat, 0nat,
{
    lemma_pushed_monotone(adj, small.insert(node), large.insert(node), adj[node as int]);
}

/// The more nodes are seen, the less the entries pushed for `peers` are worth.
pub proof fn lemma_pushed_monotone(
    adj: Adjacency,
    small: Set<usize>,
    large: Set<usize>,
    peers: Seq<(usize, usize)>,
)
    requires
        small.subset_of(large),
    ensures
        worth_pushed(adj, large, peers) <= worth_pushed(adj, small, peers),
    decreases unseen(small).len(), 0nat, peers.len(),
{
    if peers.len() > 0 {
        lemma_pushed_monotone(adj, small, large, peers.drop_last());
        let next = peers.last().0;
        if !large.contains(next) {
            lemma_unseen_shrinks(small, next);
            lemma_worth_monotone(adj, small, large, next);
        }
    }
}

/// The more nodes are seen, the less a frontier is worth.
pub proof fn lemma_load_monotone(
    adj: Adjacency,
    small: Set<usize>,
    large: Set<usize>,
    frontier: Seq<(usize, nat)>,
)
    requires
        small.subset_of(large),
    ensures
        load(adj, large, frontier) <= load(adj, small, frontier),
    decreases frontier.len(),
{
    if frontier.len() > 0 {
        lemma_load_monotone(adj, small, large, frontier.drop_last());
        lemma_worth_monotone(adj, small, large, frontier.last().0);
    }
}

/// The worth of two frontiers, one after the other, is the sum of their worths.
pub proof fn lemma_load_concat(
    adj: Adjacency,
    seen: Set<usize>,
    front: Seq<(usize, nat)>,
    back: Seq<(usize, nat)>,
)
    ensures
        load(adj, seen, front + back) == load(adj, seen, front) + load(adj, seen, back),
    decreases back.len(),
{
    if back.len() == 0 {
        assert(front + back =~= front);
    } else {
        lemma_load_concat(adj, seen, front, back.drop_last());
        assert((front + back).drop_last() =~= front + back.drop_last());
    }
}

/// A frontier is worth its first entry plus the rest.
pub proof fn lemma_load_first(adj: Adjacency, seen: Set<usize>, frontier: Seq<(usize, nat)>)
    requires
        frontier.len() > 0,
    ensures
        load(adj, seen, frontier) == worth(adj, seen, frontier[0].0) + load(
            adj,
            seen,
            frontier.skip(1),
        ),
{
    let first = seq![frontier[0]];
    assert(frontier =~= first + frontier.skip(1));
    lemma_load_concat(adj, seen, first, frontier.skip(1));
    assert(first.drop_last() =~= Seq::<(usize, nat)>::empty());
    assert(load(adj, seen, first) == load(adj, seen, first.drop_last()) + worth(
        adj,
        seen,
        first.last().0,
    ));
}

/// Pushing one entry adds its worth.
pub proof fn lemma_load_push(
    adj: Adjacency,
    seen: Set<usize>,
    frontier: Seq<(usize, nat)>,
    entry: (usize, nat),
)
    ensures
        load(adj, seen, frontier.push(entry)) == load(adj, seen, frontier) + worth(
            adj,
            seen,
            entry.0,
        ),
{
    assert(frontier.push(entry).drop_last() =~= frontier);
}

/// What `worth_pushed` is on an empty list and on a list with one more peer.
pub proof fn lemma_pushed_unfold(adj: Adjacency, seen: Set<usize>, peers: Seq<(usize, usize)>)
    ensures
        peers.len() == 0 ==> worth_pushed(adj, seen, peers) == 0,
        peers.len() > 0 && seen.contains(peers.last().0) ==> worth_pushed(adj, seen, peers)
            == worth_pushed(adj, seen, peers.drop_last()),
        peers.len() > 0 && !seen.contains(peers.last().0) ==> worth_pushed(adj, seen, peers)
            == worth_pushed(adj, seen, peers.drop_last()) + worth(adj, seen, peers.last().0),
{
}

/// An empty frontier is worth nothing.
pub proof fn lemma_load_empty(adj: Adjacency, seen: Set<usize>)
    ensures
        load(adj, seen, Seq::<(usize, nat)>::empty()) == 0,
{
}

} // verus!
