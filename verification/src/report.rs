//! The report: for every node, how far the traversal from it gets and how many
//! other nodes it reaches.

use crate::graph::{Adjacency, Graph};
use crate::traverse::{encode, try_dijkstra, UNREACHED};
use crate::walk::{blank, distances, fits, lemma_source_zero, Walk};
use vstd::prelude::*;

verus! {

/// Whether a stored cost stands for a node that was reached and is not the
/// source: neither the mark of an unreached node nor zero.
pub open spec fn counts(cost: usize) -> bool {
    0 < cost && cost < UNREACHED
}

/// The costs that count, in their order.
pub open spec fn kept(costs: Seq<usize>) -> Seq<usize> {
    costs.filter(|cost: usize| counts(cost))
}

/// The greatest of `costs`, or 0 where there is none.
pub open spec fn peak(costs: Seq<usize>) -> usize
    decreases costs.len(),
{
    if costs.len() == 0 {
        0
    } else {
        let before = peak(costs.drop_last());
        if costs.last() > before {
            costs.last()
        } else {
            before
        }
    }
}

/// What a distance vector comes to: the greatest cost that counts, or 0 where
/// none does, and the number of costs that count.
pub open spec fn summary(costs: Seq<usize>) -> (usize, usize) {
    (peak(kept(costs)), kept(costs).len() as usize)
}

/// The report of node `src`: the summary of the distances from it.
pub open spec fn report(adj: Adjacency, src: usize) -> (usize, usize) {
    summary(encode(distances(adj, src)))
}

/// The reports of all nodes, in node order.
pub open spec fn reports(adj: Adjacency) -> Seq<(usize, usize)> {
    Seq::new(adj.len(), |src: int| report(adj, src as usize))
}

/// `peak` is an upper bound of the costs, and one of them unless there is
/// none.
pub proof fn lemma_peak(costs: Seq<usize>)
    ensures
        forall|i: int| 0 <= i < costs.len() ==> costs[i] <= peak(costs),
        costs.len() > 0 ==> costs.contains(peak(costs)),
        costs.len() == 0 ==> peak(costs) == 0,
    decreases costs.len(),
{
    if costs.len() > 0 {
        let before = costs.drop_last();
        lemma_peak(before);
        assert forall|i: int| 0 <= i < costs.len() implies costs[i] <= peak(costs) by {
            if i < before.len() {
                assert(before[i] == costs[i]);
            }
        }
        if costs.last() > peak(before) || before.len() == 0 {
            assert(costs[costs.len() - 1] == costs.last());
        } else {
            let j = choose|j: int| 0 <= j < before.len() && before[j] == peak(before);
            assert(costs[j] == peak(before));
        }
    }
}

/// A cost that does not count makes the costs that count fewer than all.
pub proof fn lemma_kept_skips(costs: Seq<usize>, i: int)
    requires
        0 <= i < costs.len(),
        !counts(costs[i]),
    ensures
        kept(costs).len() < costs.len(),
    decreases costs.len(),
{
    reveal(Seq::filter);
    let before = costs.drop_last();
    if i < before.len() {
        assert(before[i] == costs[i]);
        lemma_kept_skips(before, i);
    } else {
        before.lemma_filter_len(|cost: usize| counts(cost));
    }
}

/// Where no cost counts, none is kept.
pub proof fn lemma_kept_none(costs: Seq<usize>)
    requires
        forall|i: int| 0 <= i < costs.len() ==> !counts(#[trigger] costs[i]),
    ensures
        kept(costs).len() == 0,
    decreases costs.len(),
{
    reveal(Seq::filter);
    if costs.len() > 0 {
        let before = costs.drop_last();
        assert forall|i: int| 0 <= i < before.len() implies !counts(#[trigger] before[i]) by {
            assert(before[i] == costs[i]);
        }
        lemma_kept_none(before);
    }
}

/// Every cost that is kept counts.
pub proof fn lemma_kept_counts(costs: Seq<usize>)
    ensures
        forall|i: int| 0 <= i < kept(costs).len() ==> counts(#[trigger] kept(costs)[i]),
    decreases costs.len(),
{
    reveal(Seq::filter);
    if costs.len() > 0 {
        lemma_kept_counts(costs.drop_last());
    }
}

/// What holds of the summary of any distance vector: the count is the number
/// of costs kept, the greatest distance is below the mark of an unreached
/// node, and it is 0 exactly where nothing is counted.
pub proof fn lemma_summary(costs: Seq<usize>)
    requires
        costs.len() <= usize::MAX,
    ensures
        summary(costs).1 == kept(costs).len(),
        summary(costs).1 <= costs.len(),
        summary(costs).0 < UNREACHED,
        summary(costs).0 == 0 <==> summary(costs).1 == 0,
{
    costs.lemma_filter_len(|cost: usize| counts(cost));
    lemma_kept_counts(costs);
    lemma_peak(kept(costs));
    if kept(costs).len() > 0 {
        let i = choose|i: int| 0 <= i < kept(costs).len() && kept(costs)[i] == peak(kept(costs));
        assert(counts(kept(costs)[i]));
    }
}

/// What holds of the report of any node of any graph: the node reaches fewer
/// nodes than the graph has, since it does not count itself; the greatest
/// distance is below the mark of an unreached node; and it is 0 exactly where
/// no node is counted.
pub proof fn lemma_report_bounds(adj: Adjacency, src: usize)
    requires
        adj.len() <= usize::MAX,
        src < adj.len(),
    ensures
        report(adj, src).1 == kept(encode(distances(adj, src))).len(),
        report(adj, src).1 <= adj.len() - 1,
        report(adj, src).0 < UNREACHED,
        report(adj, src).0 == 0 <==> report(adj, src).1 == 0,
{
    lemma_source_zero(adj, src);
    let costs = encode(distances(adj, src));
    assert(costs[src as int] == 0);
    lemma_kept_skips(costs, src as int);
    lemma_summary(costs);
}

/// A node without edges reaches no other node, whatever the rest of the graph
/// holds: its traversal fits, and its report is `(0, 0)`.
pub proof fn lemma_isolated(adj: Adjacency, src: usize)
    requires
        src < adj.len(),
        adj[src as int].len() == 0,
    ensures
        fits(adj, src),
        distances(adj, src) == blank(adj.len()).update(src as int, Some(0nat)),
        report(adj, src) == (0usize, 0usize),
{
    let start = Walk::start(src, blank(adj.len()));
    let next = start.advance(adj);
    assert(next.frontier =~= Seq::<(usize, nat)>::empty());
    start.lemma_advance_lowers(adj);
    assert(start.settle(adj) == next.settle(adj));
    assert(next.settle(adj) == next);
    assert(start.head_fits(adj));
    assert(next.fits(adj));
    assert(distances(adj, src) =~= blank(adj.len()).update(src as int, Some(0nat)));
    let costs = encode(distances(adj, src));
    assert forall|i: int| 0 <= i < costs.len() implies !counts(#[trigger] costs[i]) by {
        if i != src {
            assert(distances(adj, src)[i] is None);
        }
    }
    lemma_kept_none(costs);
    assert(kept(costs) =~= Seq::<usize>::empty());
}

/// What holds of the reports of any graph, node by node.
pub open spec fn bounded(adj: Adjacency, pairs: Seq<(usize, usize)>) -> bool {
    forall|src: int|
        0 <= src < pairs.len() ==> {
            &&& (#[trigger] pairs[src]).1 <= adj.len() - 1
            &&& pairs[src].0 < UNREACHED
            &&& (pairs[src].0 == 0 <==> pairs[src].1 == 0)
            &&& (adj[src].len() == 0 ==> pairs[src] == (0usize, 0usize))
        }
}

/// The reports of every graph are bounded.
pub proof fn lemma_reports(adj: Adjacency)
    requires
        adj.len() <= usize::MAX,
    ensures
        bounded(adj, reports(adj)),
{
    let pairs = reports(adj);
    assert forall|src: int| 0 <= src < pairs.len() implies {
        &&& (#[trigger] pairs[src]).1 <= adj.len() - 1
        &&& pairs[src].0 < UNREACHED
        &&& (pairs[src].0 == 0 <==> pairs[src].1 == 0)
        &&& (adj[src].len() == 0 ==> pairs[src] == (0usize, 0usize))
    } by {
        lemma_report_bounds(adj, src as usize);
        if adj[src].len() == 0 {
            lemma_isolated(adj, src as usize);
        }
    }
}

/// Reduces a distance vector to its summary: the greatest cost that counts,
/// or 0 where none does, and the number of costs that count.
pub fn summarize(distances: Vec<usize>) -> (pair: (usize, usize))
    ensures
        pair == summary(distances@),
        pair.1 == kept(distances@).len(),
        pair.1 <= distances@.len(),
        pair.0 < UNREACHED,
        pair.0 == 0 <==> pair.1 == 0,
{
    let mut costs: Vec<usize> = Vec::new();
    let mut i: usize = 0;
    while i < distances.len()
        invariant
            i <= distances@.len(),
            costs@ == kept(distances@.take(i as int)),
        decreases distances@.len() - i,
    {
        let cost = distances[i];
        proof {
            reveal(Seq::filter);
            assert(distances@.take(i as int + 1).drop_last() =~= distances@.take(i as int));
        }
        if cost < UNREACHED && cost > 0 {
            costs.push(cost);
        }
        i += 1;
    }
    assert(distances@.take(i as int) =~= distances@);
    let mut time: usize = 0;
    let mut j: usize = 0;
    while j < costs.len()
        invariant
            j <= costs@.len(),
            time == peak(costs@.take(j as int)),
        decreases costs@.len() - j,
    {
        proof {
            assert(costs@.take(j as int + 1).drop_last() =~= costs@.take(j as int));
        }
        if costs[j] > time {
            time = costs[j];
        }
        j += 1;
    }
    proof {
        assert(costs@.take(j as int) =~= costs@);
        lemma_summary(distances@);
    }
    (time, costs.len())
}

/// The report of every node, or `None` where a cost that one of the
/// traversals computes does not fit in `usize`. For each node, in node order:
/// the greatest distance from it to a node that it reaches, or 0 where it
/// reaches no other node, and the number of nodes that it reaches, itself not
/// counted.
pub fn try_flow(graph: &Graph) -> (out: Option<Vec<(usize, usize)>>)
    requires
        graph.wf(),
    ensures
        out is Some <==> forall|src: usize| src < graph@.len() ==> fits(graph@, src),
        out matches Some(pairs) ==> {
            &&& pairs@ == reports(graph@)
            &&& forall|src: int|
                0 <= src < pairs@.len() ==> {
                    &&& (#[trigger] pairs@[src]).1 <= graph@.len() - 1
                    &&& pairs@[src].0 < UNREACHED
                    &&& (pairs@[src].0 == 0 <==> pairs@[src].1 == 0)
                    &&& (graph@[src].len() == 0 ==> pairs@[src] == (0usize, 0usize))
                }
        },
{
    let mut pairs: Vec<(usize, usize)> = Vec::new();
    let mut src: usize = 0;
    while src < graph.len()
        invariant
            graph.wf(),
            forall|node: usize| node < src ==> fits(graph@, node),
            src <= graph@.len(),
            pairs@ == reports(graph@).take(src as int),
        decreases graph@.len() - src,
    {
        match try_dijkstra(graph, src) {
            Some(costs) => {
                pairs.push(summarize(costs));
            },
            None => {
                return None;
            },
        }
        proof {
            assert(pairs@ =~= reports(graph@).take(src as int + 1));
        }
        src += 1;
    }
    proof {
        assert(reports(graph@).take(src as int) =~= reports(graph@));
        lemma_reports(graph@);
    }
    Some(pairs)
}

/// For each node, in node order: the greatest distance from it to a node that
/// it reaches, or 0 where it reaches no other node, and the number of nodes
/// that it reaches, itself not counted.
pub fn flow(graph: &Graph) -> (out: Vec<(usize, usize)>)
    requires
        graph.wf(),
        forall|src: usize| src < graph@.len() ==> fits(graph@, src),
    ensures
        out@ == reports(graph@),
        forall|src: int|
            0 <= src < out@.len() ==> {
                &&& (#[trigger] out@[src]).1 <= graph@.len() - 1
                &&& out@[src].0 < UNREACHED
                &&& (out@[src].0 == 0 <==> out@[src].1 == 0)
                &&& (graph@[src].len() == 0 ==> out@[src] == (0usize, 0usize))
            },
{
    try_flow(graph).unwrap()
}

} // verus!
