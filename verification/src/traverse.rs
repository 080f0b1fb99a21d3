//! The traversal engine: distances from one source node.

use crate::graph::Graph;
use crate::limits::lemma_fits_below;
use crate::reach::{connected, lemma_reached_iff_connected};
use crate::walk::{blank, distances, fits, lemma_source_zero, pushed, Walk};
use std::collections::{HashSet, VecDeque};
use vstd::prelude::*;

verus! {

broadcast use vstd::std_specs::hash::group_hash_axioms;

/// The cost that marks a node as not reached.
pub const UNREACHED: usize = usize::MAX;

/// A distance vector as it is stored: a cost for a node that was reached,
/// `UNREACHED` for one that was not.
pub open spec fn encode(best: Seq<Option<nat>>) -> Seq<usize> {
    Seq::new(
        best.len(),
        |v: int|
            match best[v] {
                Some(cost) => cost as usize,
                None => UNREACHED,
            },
    )
}

/// What a stored distance vector says of each node.
pub open spec fn decode(costs: Seq<usize>) -> Seq<Option<nat>> {
    Seq::new(
        costs.len(),
        |v: int|
            if costs[v] == UNREACHED {
                None
            } else {
                Some(costs[v] as nat)
            },
    )
}

/// A frontier as it is stored, with its costs as mathematical numbers.
pub open spec fn lift(frontier: Seq<(usize, usize)>) -> Seq<(usize, nat)> {
    Seq::new(frontier.len(), |i: int| (frontier[i].0, frontier[i].1 as nat))
}

/// Every cost in `best` can be stored.
pub open spec fn storable(best: Seq<Option<nat>>) -> bool {
    forall|v: int| 0 <= v < best.len() ==> (#[trigger] best[v] matches Some(cost) ==> cost <= usize::MAX)
}

/// Records `cost` as a candidate for the best cost of `node`: the lesser of
/// the two stays.
pub fn hit(acc: &mut Vec<usize>, node: usize, cost: usize)
    requires
        node < old(acc)@.len(),
    ensures
        final(acc)@ == old(acc)@.update(
            node as int,
            if old(acc)@[node as int] <= cost {
                old(acc)@[node as int]
            } else {
                cost
            },
        ),
{
    if cost < acc[node] {
        acc[node] = cost;
    }
    assert(acc@ =~= old(acc)@.update(
        node as int,
        if old(acc)@[node as int] <= cost {
            old(acc)@[node as int]
        } else {
            cost
        },
    ));
}

/// Runs the first-in, first-out expansion from `src` over the costs in `acc`
/// and returns them lowered to what the traversal found, or `None` where a
/// cost that the traversal computes does not fit in `usize`.
pub fn bfs(graph: &Graph, src: usize, acc: Vec<usize>) -> (out: Option<Vec<usize>>)
    requires
        graph.wf(),
        src < graph@.len(),
        acc@.len() == graph@.len(),
    ensures
        out is Some <==> Walk::start(src, decode(acc@)).fits(graph@),
        out matches Some(costs) ==> costs@ == encode(
            Walk::start(src, decode(acc@)).settle(graph@).best,
        ),
{
    let mut best = acc;
    let mut seen: HashSet<usize> = HashSet::with_capacity(graph.len());
    seen.insert(src);
    let mut frontier: VecDeque<(usize, usize)> = VecDeque::new();
    frontier.push_back((src, 0));

    let ghost origin = Walk::start(src, decode(best@));
    let ghost mut walk = origin;
    proof {
        assert(seen@ =~= walk.seen);
        assert(lift(frontier@) =~= walk.frontier);
        assert(best@ =~= encode(walk.best));
    }
    loop
        invariant
            graph.wf(),
            seen@ == walk.seen,
            lift(frontier@) == walk.frontier,
            best@ == encode(walk.best),
            origin == Walk::start(src, decode(acc@)),
            walk.best.len() == graph@.len(),
            storable(walk.best),
            forall|k: int| 0 <= k < frontier@.len() ==> (#[trigger] frontier@[k]).0 < graph@.len(),
            walk.settle(graph@) == origin.settle(graph@),
            walk.fits(graph@) == origin.fits(graph@),
        ensures
            frontier@.len() == 0,
        decreases walk.energy(graph@),
    {
        let entry = frontier.pop_front();
        if entry.is_none() {
            break ;
        }
        let (node, cost) = entry.unwrap();
        let ghost next_walk = walk.advance(graph@);
        let ghost rest = walk.frontier.skip(1);
        proof {
            assert(walk.frontier[0] == (node, cost as nat));
            assert(lift(frontier@) =~= rest);
            walk.lemma_advance_lowers(graph@);
        }
        seen.insert(node);
        hit(&mut best, node, cost);
        proof {
            assert(best@ =~= encode(next_walk.best));
        }
        let peers = graph.peers(node);
        let mut i: usize = 0;
        while i < peers.len()
            invariant
                graph.wf(),
                node < graph@.len(),
                peers@ == graph@[node as int],
                i <= peers@.len(),
                walk.frontier.len() > 0,
                walk.frontier[0] == (node, cost as nat),
                walk.fits(graph@) == origin.fits(graph@),
                next_walk == walk.advance(graph@),
                rest == walk.frontier.skip(1),
                seen@ == next_walk.seen,
                best@ == encode(next_walk.best),
                origin == Walk::start(src, decode(acc@)),
                next_walk.best[node as int] matches Some(known) && known <= cost,
                next_walk.best.len() == graph@.len(),
                storable(next_walk.best),
                lift(frontier@) == rest + pushed(peers@.take(i as int), seen@, cost as nat),
                forall|j: int| 0 <= j < i ==> cost + (#[trigger] peers@[j]).1 <= usize::MAX,
                forall|k: int|
                    0 <= k < frontier@.len() ==> (#[trigger] frontier@[k]).0 < graph@.len(),
            decreases peers@.len() - i,
        {
            let (next, weight) = peers[i];
            let extended = match cost.checked_add(weight) {
                Some(sum) => sum,
                None => {
                    proof {
                        assert(cost + graph@[node as int][i as int].1 > usize::MAX);
                        assert(!walk.head_fits(graph@));
                    }
                    return None;
                },
            };
            hit(&mut best, node, extended);
            proof {
                assert(best@ =~= encode(next_walk.best));
            }
            let ghost waiting = frontier@;
            if !seen.contains(&next) {
                frontier.push_back((next, extended));
            }
            proof {
                let upto = peers@.take(i as int + 1);
                let sofar = pushed(peers@.take(i as int), seen@, cost as nat);
                assert(upto.drop_last() =~= peers@.take(i as int));
                assert(upto.last() == (next, weight));
                if seen@.contains(next) {
                    assert(pushed(upto, seen@, cost as nat) == sofar);
                } else {
                    assert(pushed(upto, seen@, cost as nat) == sofar.push(
                        (next, (cost + weight) as nat),
                    ));
                    assert(lift(waiting.push((next, extended))) =~= lift(waiting).push(
                        (next, extended as nat),
                    ));
                    assert((rest + sofar).push((next, extended as nat)) =~= rest + sofar.push(
                        (next, extended as nat),
                    ));
                }
            }
            i += 1;
        }
        proof {
            assert(peers@.take(i as int) =~= peers@);
            assert(walk.head_fits(graph@));
            walk = next_walk;
        }
    }
    proof {
        assert(walk.frontier =~= Seq::<(usize, nat)>::empty());
    }
    Some(best)
}

/// The distances from `src`, or `None` where a cost that the traversal
/// computes does not fit in `usize`. For each node the distance is the least
/// cost at which the traversal reaches it, 0 for `src` itself, `UNREACHED` for
/// a node that the traversal does not reach. The nodes reached are those that
/// a path of edges joins to `src`.
pub fn try_dijkstra(graph: &Graph, src: usize) -> (out: Option<Vec<usize>>)
    requires
        graph.wf(),
        src < graph@.len(),
    ensures
        out is Some <==> fits(graph@, src),
        out matches Some(costs) ==> {
            &&& costs@ == encode(distances(graph@, src))
            &&& decode(costs@) == distances(graph@, src)
            &&& costs@.len() == graph@.len()
            &&& costs@[src as int] == 0
            &&& forall|node: usize|
                node < graph@.len() ==> (#[trigger] costs@[node as int] != UNREACHED
                    <==> connected(graph@, src, node))
        },
{
    let acc = vec![UNREACHED; graph.len()];
    proof {
        assert(decode(acc@) =~= blank(graph@.len()));
    }
    let out = bfs(graph, src, acc);
    proof {
        if out is Some {
            let costs = out->Some_0;
            lemma_source_zero(graph@, src);
            lemma_fits_below(graph@, src);
            assert(decode(costs@) =~= distances(graph@, src));
            assert forall|node: usize| node < graph@.len() implies (
            #[trigger] costs@[node as int] != UNREACHED <==> connected(graph@, src, node)) by {
                lemma_reached_iff_connected(graph@, src, node);
            }
        }
    }
    out
}

/// The distances from `src`: for each node the least cost at which the
/// traversal reaches it, 0 for `src` itself, `UNREACHED` for a node that the
/// traversal does not reach. The nodes reached are those that a path of edges
/// joins to `src`.
pub fn dijkstra(graph: &Graph, src: usize) -> (costs: Vec<usize>)
    requires
        graph.wf(),
        src < graph@.len(),
        fits(graph@, src),
    ensures
        costs@ == encode(distances(graph@, src)),
        decode(costs@) == distances(graph@, src),
        costs@.len() == graph@.len(),
        costs@[src as int] == 0,
        forall|node: usize|
            node < graph@.len() ==> (#[trigger] costs@[node as int] != UNREACHED <==> connected(
                graph@,
                src,
                node,
            )),
{
    try_dijkstra(graph, src).unwrap()
}

} // verus!
