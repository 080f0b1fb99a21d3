//! A bound that is enough for every traversal of a graph to fit.
//!
//! An entry is pushed for a node only while the node has not been seen, and
//! every node that the entry came over had been seen by then. So an entry that
//! is pushed when `k` nodes have been seen costs at most `k` times the
//! heaviest weight, and expanding it adds one weight more. In a graph of `n`
//! nodes whose weights are at most `cap`, no cost that a traversal computes
//! exceeds `n * cap`.

use crate::energy::{below, lemma_below_len};
use crate::graph::{linked, valid, Adjacency};
use crate::walk::{blank, fits, lemma_pushed_source, Walk};
use vstd::arithmetic::mul::lemma_mul_inequality;
use vstd::prelude::*;
use vstd::set_lib::lemma_len_subset;

verus! {

/// No edge of `adj` weighs more than `cap`.
pub open spec fn capped(adj: Adjacency, cap: nat) -> bool {
    forall|u: int, i: int|
        0 <= u < adj.len() && 0 <= i < adj[u].len() ==> (#[trigger] adj[u][i]).1 <= cap
}

/// An edge that weighs no more than `cap` keeps a graph capped.
pub proof fn lemma_linked_capped(adj: Adjacency, src: usize, dst: usize, weight: usize, cap: nat)
    requires
        capped(adj, cap),
        src < adj.len(),
        dst < adj.len(),
        weight <= cap,
    ensures
        capped(linked(adj, src, dst, weight), cap),
{
    let full = linked(adj, src, dst, weight);
    assert forall|u: int, i: int| 0 <= u < full.len() && 0 <= i < full[u].len() implies (
    #[trigger] full[u][i]).1 <= cap by {
        if i < adj[u].len() {
            assert(full[u][i] == adj[u][i]);
        }
    }
}

/// Each frontier entry with the set of nodes that had been seen when it was
/// pushed: the entry's node is not among them, and its cost is at most `cap`
/// for each of them.
pub open spec fn tagged(adj: Adjacency, cap: nat, walk: Walk, tags: Seq<Set<usize>>) -> bool {
    &&& tags.len() == walk.frontier.len()
    &&& walk.seen.subset_of(below(adj.len()))
    &&& forall|k: int|
        0 <= k < walk.frontier.len() ==> (#[trigger] walk.frontier[k]).0 < adj.len()
    &&& forall|k: int|
        0 <= k < walk.frontier.len() ==> {
            &&& (#[trigger] tags[k]).subset_of(walk.seen)
            &&& !tags[k].contains(walk.frontier[k].0)
            &&& walk.frontier[k].1 <= tags[k].len() * cap
        }
}

/// The tags after a step: those of the entries that still wait, then the
/// nodes seen by now for each entry that the step pushed.
pub open spec fn retagged(adj: Adjacency, walk: Walk, tags: Seq<Set<usize>>) -> Seq<Set<usize>> {
    let next = walk.advance(adj);
    tags.skip(1) + Seq::new(
        (next.frontier.len() - (walk.frontier.len() - 1)) as nat,
        |k: int| next.seen,
    )
}

/// A tag leaves room for the node of its entry.
proof fn lemma_tag_small(adj: Adjacency, seen: Set<usize>, tag: Set<usize>, node: usize)
    requires
        adj.len() <= usize::MAX,
        seen.subset_of(below(adj.len())),
        tag.subset_of(seen),
        node < adj.len(),
        !tag.contains(node),
    ensures
        tag.finite(),
        tag.len() + 1 <= adj.len(),
{
    lemma_below_len(adj.len());
    let room = below(adj.len()).remove(node);
    assert(tag.subset_of(room));
    lemma_len_subset(tag, room);
}

/// Expanding a tagged entry fits, and a step keeps the frontier tagged.
pub proof fn lemma_advance_tagged(adj: Adjacency, cap: nat, walk: Walk, tags: Seq<Set<usize>>)
    requires
        valid(adj),
        capped(adj, cap),
        adj.len() * cap <= usize::MAX,
        tagged(adj, cap, walk, tags),
        walk.frontier.len() > 0,
    ensures
        walk.head_fits(adj),
        tagged(adj, cap, walk.advance(adj), retagged(adj, walk, tags)),
{
    let next = walk.advance(adj);
    let fresh = retagged(adj, walk, tags);
    let (node, cost) = walk.frontier[0];
    let rest = walk.frontier.skip(1);
    let tag = tags[0];
    lemma_below_len(adj.len());
    lemma_tag_small(adj, walk.seen, tag, node);
    lemma_mul_inequality(tag.len() as int + 1, adj.len() as int, cap as int);
    assert((tag.len() + 1) * cap == tag.len() * cap + cap) by (nonlinear_arith);
    assert forall|i: int| 0 <= i < adj[node as int].len() implies cost + (
    #[trigger] adj[node as int][i]).1 <= usize::MAX by {
        assert(adj[node as int][i].1 <= cap);
    }
    // the nodes seen after the step are one more than the tag held
    assert(next.seen.subset_of(below(adj.len())));
    lemma_len_subset(next.seen, below(adj.len()));
    assert(tag.insert(node).subset_of(next.seen));
    lemma_len_subset(tag.insert(node), next.seen);
    lemma_mul_inequality(tag.len() as int + 1, next.seen.len() as int, cap as int);
    assert forall|k: int| 0 <= k < next.frontier.len() implies (#[trigger] next.frontier[k]).0
        < adj.len() by {
        if k < rest.len() {
            assert(next.frontier[k] == walk.frontier[k + 1]);
        } else {
            let i = lemma_pushed_source(adj[node as int], next.seen, cost, k - rest.len());
            assert(next.frontier[k].0 == adj[node as int][i].0);
        }
    }
    assert forall|k: int| 0 <= k < next.frontier.len() implies {
        &&& (#[trigger] fresh[k]).subset_of(next.seen)
        &&& !fresh[k].contains(next.frontier[k].0)
        &&& next.frontier[k].1 <= fresh[k].len() * cap
    } by {
        if k < rest.len() {
            assert(next.frontier[k] == walk.frontier[k + 1]);
            assert(fresh[k] == tags[k + 1]);
        } else {
            let i = lemma_pushed_source(adj[node as int], next.seen, cost, k - rest.len());
            assert(fresh[k] == next.seen);
            assert(adj[node as int][i].1 <= cap);
        }
    }
}

/// A traversal whose frontier is tagged fits.
pub proof fn lemma_tagged_fits(adj: Adjacency, cap: nat, walk: Walk, tags: Seq<Set<usize>>)
    requires
        valid(adj),
        capped(adj, cap),
        adj.len() * cap <= usize::MAX,
        tagged(adj, cap, walk, tags),
    ensures
        walk.fits(adj),
    decreases walk.energy(adj),
{
    if walk.frontier.len() > 0 {
        walk.lemma_advance_lowers(adj);
        lemma_advance_tagged(adj, cap, walk, tags);
        lemma_tagged_fits(adj, cap, walk.advance(adj), retagged(adj, walk, tags));
    }
}

/// In a graph of `n` nodes whose edges weigh at most `cap`, with `n * cap`
/// within `usize`, every cost that a traversal computes fits.
pub proof fn lemma_capped_fits(adj: Adjacency, cap: nat, src: usize)
    requires
        valid(adj),
        capped(adj, cap),
        adj.len() * cap <= usize::MAX,
        src < adj.len(),
    ensures
        fits(adj, src),
{
    let start = Walk::start(src, blank(adj.len()));
    let tags = seq![Set::<usize>::empty()];
    assert(tagged(adj, cap, start, tags));
    lemma_tagged_fits(adj, cap, start, tags);
}

} // verus!
