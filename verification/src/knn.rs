//! Greedy best-first search for the k nearest neighbors: the frontier of candidates,
//! kept in the order of their distances, and what holds of it.

use crate::graph::{
    lemma_distinct_bounded, lemma_distinct_full, lemma_holds_all, lemma_push_contains, symmetric,
};
use crate::greedy::{greedy_end, lemma_greedy_end, local_minimum};
use crate::index::Hrc;
use crate::metric::{Distance, dists_to, MetricPoint, ranks_of, stored};
use crate::reach::{
    connected, lemma_closed_holds_reachable, lemma_reachable_chain, lemma_reachable_in_bounds,
    lemma_reachable_step, lemma_reachable_symmetric, reachable,
};
use vstd::prelude::*;

verus! {

/// A node found by the search, with its distance to the query and whether its own
/// neighbors were looked at already.
#[derive(Debug)]
pub struct Candidate<D> {
    pub node: usize,
    pub distance: D,
    pub searched: bool,
}

/// What a k-nearest-neighbor search from `from` for at most `num` nodes may return:
/// distinct nodes reachable from `from`, nearest first, such that every neighbor of
/// a returned node is returned too or, the result being full, is no closer than the
/// farthest returned node. The same holds of the node at which the greedy descent
/// from `from` ends; it comes first where it is the only one asked for or has
/// distance zero.
pub open spec fn is_knn(
    adj: Seq<Seq<usize>>,
    ranks: Seq<u64>,
    from: usize,
    num: usize,
    ids: Seq<usize>,
) -> bool {
    let seed = greedy_end(adj, ranks, from);
    &&& ids.len() <= num
    &&& num > 0 ==> ids.len() > 0
    &&& ids.no_duplicates()
    &&& forall|i: int| 0 <= i < ids.len() ==> (#[trigger] ids[i]) < adj.len() && reachable(adj, from, ids[i])
    &&& forall|i: int, j: int|
        0 <= i < j < ids.len() ==> ranks[(#[trigger] ids[i]) as int] <= ranks[(#[trigger] ids[j]) as int]
    &&& forall|i: int, m: usize|
        0 <= i < ids.len() && #[trigger] adj[(#[trigger] ids[i]) as int].contains(m) ==> ids.contains(m) || (
        ids.len() == num && ranks[m as int] >= ranks[ids.last() as int])
    &&& num > 0 ==> ids.contains(seed) || (ids.len() == num && ranks[seed as int] >= ranks[ids.last() as int])
    &&& (num == 1 || (num > 0 && ranks[seed as int] == 0)) ==> ids[0] == seed
}

/// A search that was not cut short by `num`, or that returned as many nodes as the
/// graph has, returned every node that is reachable from `from`.
pub proof fn lemma_knn_covers(
    adj: Seq<Seq<usize>>,
    ranks: Seq<u64>,
    from: usize,
    num: usize,
    ids: Seq<usize>,
    x: usize,
)
    requires
        symmetric(adj),
        from < adj.len(),
        is_knn(adj, ranks, from, num, ids),
        num > 0,
        ids.len() < num || ids.len() >= adj.len(),
        reachable(adj, from, x),
    ensures
        ids.contains(x),
{
    lemma_reachable_in_bounds(adj, from, x);
    if ids.len() >= adj.len() {
        lemma_distinct_full(ids, adj.len(), x);
    } else {
        let seed = greedy_end(adj, ranks, from);
        let inside = Set::new(|n: usize| ids.contains(n));
        assert forall|n: usize, m: usize|
            n < adj.len() && inside.contains(n) && #[trigger] adj[n as int].contains(m) implies inside.contains(
            m,
        ) by {
            let i = choose|i: int| 0 <= i < ids.len() && ids[i] == n;
            assert(adj[ids[i] as int].contains(m));
        }
        assert(ids.contains(seed));
        let i = choose|i: int| 0 <= i < ids.len() && ids[i] == seed;
        assert(reachable(adj, from, ids[i]));
        lemma_reachable_symmetric(adj, from, seed);
        lemma_reachable_chain(adj, seed, from, x);
        lemma_closed_holds_reachable(adj, inside, seed, x);
    }
}

/// In a connected graph a search that was not cut short by `num` returned every node.
pub proof fn lemma_knn_all(adj: Seq<Seq<usize>>, ranks: Seq<u64>, from: usize, num: usize, ids: Seq<usize>)
    requires
        symmetric(adj),
        connected(adj),
        from < adj.len(),
        adj.len() <= usize::MAX,
        is_knn(adj, ranks, from, num, ids),
        num > 0,
        ids.len() < num,
    ensures
        ids.len() >= adj.len(),
{
    assert forall|x: usize| x < adj.len() implies ids.contains(x) by {
        assert(reachable(adj, from, x));
        lemma_knn_covers(adj, ranks, from, num, ids, x);
    }
    lemma_holds_all(ids, adj.len());
}

/// The nodes other than `node` that the search for the `num` nearest neighbors of
/// the key of `node` finds, nearest first.
pub open spec fn neighborhood_of<K: MetricPoint, D: Distance>(
    adj: Seq<Seq<usize>>,
    keys: Seq<K>,
    node: usize,
    num: usize,
) -> Seq<usize> {
    let ids = ids_of(knn_found(adj, dists_to::<K, D>(keys, keys[node as int]), node, num));
    if ids.len() == 0 {
        ids
    } else {
        ids.subrange(1, ids.len() as int)
    }
}

/// The nodes of a frontier with their distances, in its order.
pub open spec fn pairs_of<D>(bests: Seq<Candidate<D>>) -> Seq<(usize, D)> {
    Seq::new(bests.len(), |i: int| (bests[i].node, bests[i].distance))
}

/// The nodes of a frontier, in its order.
pub open spec fn ids_of<D>(bests: Seq<Candidate<D>>) -> Seq<usize> {
    Seq::new(bests.len(), |i: int| bests[i].node)
}

/// Whether a frontier holds a node.
pub open spec fn holds<D>(bests: Seq<Candidate<D>>, node: usize) -> bool {
    exists|i: int| 0 <= i < bests.len() && (#[trigger] bests[i]).node == node
}

/// Whether a frontier is in the order of its distances.
pub open spec fn in_order<D: Distance>(bests: Seq<Candidate<D>>) -> bool {
    forall|i: int, j: int|
        0 <= i < j < bests.len() ==> (#[trigger] bests[i]).distance.rank() <= (#[trigger] bests[j]).distance.rank()
}

/// The number of candidates that are no farther than `rank`.
pub open spec fn count_within<D: Distance>(bests: Seq<Candidate<D>>, rank: u64) -> int
    decreases bests.len(),
{
    if bests.len() == 0 {
        0
    } else {
        count_within(bests.drop_last(), rank) + if bests.last().distance.rank() <= rank {
            1int
        } else {
            0int
        }
    }
}

/// The frontier with a candidate put behind all those that are no farther than it.
pub open spec fn placed<D: Distance>(bests: Seq<Candidate<D>>, candidate: Candidate<D>) -> Seq<
    Candidate<D>,
> {
    bests.insert(count_within(bests, candidate.distance.rank()), candidate)
}

/// The frontier after a candidate was offered to it: the candidate is put in while
/// fewer than `num` are held, takes the place of the farthest if it is closer than
/// that, and is turned away otherwise.
pub open spec fn offered<D: Distance>(
    bests: Seq<Candidate<D>>,
    num: usize,
    candidate: Candidate<D>,
) -> Seq<Candidate<D>> {
    if bests.len() < num {
        placed(bests, candidate)
    } else if candidate.distance.rank() < bests.last().distance.rank() {
        placed(bests.drop_last(), candidate)
    } else {
        bests
    }
}

/// The place of the first candidate whose neighbors were not looked at yet, or the
/// length of the frontier if there is none.
pub open spec fn first_unsearched<D>(bests: Seq<Candidate<D>>) -> int
    decreases bests.len(),
{
    if bests.len() == 0 {
        0
    } else if !bests[0].searched {
        0
    } else {
        1 + first_unsearched(bests.subrange(1, bests.len() as int))
    }
}

/// The frontier after the nodes of `edges` were offered to it in turn, each with its
/// distance from `dists`, but for those that it held already.
pub open spec fn offered_all<D: Distance>(
    edges: Seq<usize>,
    dists: Seq<D>,
    num: usize,
    bests: Seq<Candidate<D>>,
) -> Seq<Candidate<D>>
    decreases edges.len(),
{
    if edges.len() == 0 {
        bests
    } else {
        let before = offered_all(edges.drop_last(), dists, num, bests);
        let neighbor = edges.last();
        if holds(before, neighbor) {
            before
        } else {
            offered(
                before,
                num,
                Candidate { node: neighbor, distance: dists[neighbor as int], searched: false },
            )
        }
    }
}

/// The frontier after the search went on from `bests` for at most `rounds` rounds:
/// in each round the first unsearched candidate is marked as searched and its
/// neighbors are offered, until every candidate is searched.
pub open spec fn searched_out<D: Distance>(
    adj: Seq<Seq<usize>>,
    dists: Seq<D>,
    num: usize,
    bests: Seq<Candidate<D>>,
    rounds: nat,
) -> Seq<Candidate<D>>
    decreases rounds,
{
    let pick = first_unsearched(bests);
    if rounds == 0 || pick >= bests.len() {
        bests
    } else {
        let marked = bests.update(
            pick,
            Candidate { node: bests[pick].node, distance: bests[pick].distance, searched: true },
        );
        searched_out(
            adj,
            dists,
            num,
            offered_all(adj[bests[pick].node as int], dists, num, marked),
            (rounds - 1) as nat,
        )
    }
}

/// What the greedy best-first search from `from` for the `num` nearest neighbors
/// finds: it begins at the end of the greedy descent from `from` and goes on until
/// every candidate is searched. No search takes more rounds than the graph has nodes.
#[verifier::opaque]
pub open spec fn knn_found<D: Distance>(
    adj: Seq<Seq<usize>>,
    dists: Seq<D>,
    from: usize,
    num: usize,
) -> Seq<Candidate<D>> {
    if num == 0 {
        Seq::empty()
    } else {
        let seed = greedy_end(adj, ranks_of(dists), from);
        searched_out(
            adj,
            dists,
            num,
            seq![Candidate { node: seed, distance: dists[seed as int], searched: false }],
            adj.len(),
        )
    }
}

/// The first unsearched candidate is the one before which all are searched.
pub(crate) proof fn lemma_first_unsearched<D>(bests: Seq<Candidate<D>>, pick: int)
    requires
        0 <= pick <= bests.len(),
        forall|i: int| 0 <= i < pick ==> (#[trigger] bests[i]).searched,
        pick < bests.len() ==> !bests[pick].searched,
    ensures
        first_unsearched(bests) == pick,
    decreases pick,
{
    if pick > 0 {
        let rest = bests.subrange(1, bests.len() as int);
        assert(bests[0].searched);
        assert forall|i: int| 0 <= i < pick - 1 implies (#[trigger] rest[i]).searched by {
            assert(rest[i] == bests[i + 1]);
        }
        lemma_first_unsearched(rest, pick - 1);
    }
}

/// Every candidate is a node of the graph and carries that node's rank.
pub open spec fn valid_entries<D: Distance>(
    adj: Seq<Seq<usize>>,
    ranks: Seq<u64>,
    bests: Seq<Candidate<D>>,
) -> bool {
    forall|i: int|
        0 <= i < bests.len() ==> (#[trigger] bests[i]).node < adj.len() && bests[i].distance.rank()
            == ranks[bests[i].node as int]
}

/// No node is held twice.
pub open spec fn distinct_nodes<D>(bests: Seq<Candidate<D>>) -> bool {
    forall|i: int, j: int|
        0 <= i < bests.len() && 0 <= j < bests.len() && i != j ==> (#[trigger] bests[i]).node != (
        #[trigger] bests[j]).node
}

/// The nodes offered so far are reachable from `from`, and each of them is held or,
/// the frontier being full, no closer than the farthest that is held.
pub open spec fn seen_kept<D: Distance>(
    adj: Seq<Seq<usize>>,
    ranks: Seq<u64>,
    from: usize,
    num: usize,
    bests: Seq<Candidate<D>>,
    seen: Set<usize>,
) -> bool {
    &&& forall|i: int| 0 <= i < bests.len() ==> seen.contains((#[trigger] bests[i]).node)
    &&& forall|x: usize| #[trigger] seen.contains(x) ==> x < adj.len() && reachable(adj, from, x)
    &&& forall|x: usize| #[trigger]
        seen.contains(x) ==> holds(bests, x) || (bests.len() == num && ranks[x as int]
            >= bests.last().distance.rank())
}

/// The nodes whose neighbors were looked at are listed once each, were offered, and
/// are not held as unsearched.
pub open spec fn expanded_kept<D>(
    bests: Seq<Candidate<D>>,
    seen: Set<usize>,
    expanded: Seq<usize>,
) -> bool {
    &&& expanded.no_duplicates()
    &&& forall|k: int| 0 <= k < expanded.len() ==> seen.contains(#[trigger] expanded[k])
    &&& forall|i: int|
        0 <= i < bests.len() && !(#[trigger] bests[i]).searched ==> !expanded.contains(bests[i].node)
}

/// The node at which the search began is a local minimum, and it comes first where
/// it has rank zero or is the only node asked for.
pub open spec fn seed_kept<D>(
    adj: Seq<Seq<usize>>,
    ranks: Seq<u64>,
    num: usize,
    seed: usize,
    bests: Seq<Candidate<D>>,
    seen: Set<usize>,
) -> bool {
    &&& seen.contains(seed)
    &&& local_minimum(adj, ranks, seed)
    &&& (ranks[seed as int] == 0 || num == 1) ==> bests.len() > 0 && bests[0].node == seed
}

/// What holds of the frontier between two steps of the search for `num` neighbors
/// that began at `seed`, where `seen` are the nodes that were offered so far and
/// `expanded` those whose neighbors were looked at.
pub open spec fn frontier<D: Distance>(
    adj: Seq<Seq<usize>>,
    ranks: Seq<u64>,
    from: usize,
    num: usize,
    seed: usize,
    bests: Seq<Candidate<D>>,
    seen: Set<usize>,
    expanded: Seq<usize>,
) -> bool {
    &&& 1 <= bests.len() <= num
    &&& valid_entries(adj, ranks, bests)
    &&& in_order(bests)
    &&& distinct_nodes(bests)
    &&& seen_kept(adj, ranks, from, num, bests, seen)
    &&& expanded_kept(bests, seen, expanded)
    &&& seed_kept(adj, ranks, num, seed, bests, seen)
}

/// Every neighbor of a searched candidate other than `current` was offered.
pub open spec fn searched_closed<D>(
    adj: Seq<Seq<usize>>,
    bests: Seq<Candidate<D>>,
    seen: Set<usize>,
    current: int,
) -> bool {
    forall|i: int, m: usize|
        0 <= i < bests.len() && (#[trigger] bests[i]).searched && bests[i].node != current
            && #[trigger] adj[bests[i].node as int].contains(m) ==> seen.contains(m)
}

/// In an ordered frontier the candidates no farther than `rank` come first.
pub(crate) proof fn lemma_count_within<D: Distance>(bests: Seq<Candidate<D>>, rank: u64)
    requires
        in_order(bests),
    ensures
        0 <= count_within(bests, rank) <= bests.len(),
        forall|i: int|
            0 <= i < count_within(bests, rank) ==> (#[trigger] bests[i]).distance.rank() <= rank,
        forall|i: int|
            count_within(bests, rank) <= i < bests.len() ==> (#[trigger] bests[i]).distance.rank() > rank,
    decreases bests.len(),
{
    if bests.len() > 0 {
        let front = bests.drop_last();
        assert forall|i: int, j: int| 0 <= i < j < front.len() implies (#[trigger] front[i]).distance.rank() <= (
        #[trigger] front[j]).distance.rank() by {
            assert(front[i] == bests[i] && front[j] == bests[j]);
        }
        lemma_count_within(front, rank);
        let count = count_within(front, rank);
        assert forall|i: int| 0 <= i < count_within(bests, rank) implies (#[trigger] bests[i]).distance.rank()
            <= rank by {
            if i < front.len() {
                assert(front[i] == bests[i]);
                if i >= count {
                    assert(front[i].distance.rank() > rank);
                    assert(bests[i].distance.rank() <= bests[bests.len() - 1].distance.rank());
                }
            }
        }
        assert forall|i: int| count_within(bests, rank) <= i < bests.len() implies (
        #[trigger] bests[i]).distance.rank() > rank by {
            if i < front.len() {
                assert(front[i] == bests[i]);
            }
        }
    }
}

/// The place that splits an ordered frontier at `rank` is the number of candidates
/// no farther than `rank`.
pub(crate) proof fn lemma_split_is_count<D: Distance>(bests: Seq<Candidate<D>>, rank: u64, at: int)
    requires
        in_order(bests),
        0 <= at <= bests.len(),
        forall|i: int| 0 <= i < at ==> (#[trigger] bests[i]).distance.rank() <= rank,
        forall|i: int| at <= i < bests.len() ==> (#[trigger] bests[i]).distance.rank() > rank,
    ensures
        at == count_within(bests, rank),
{
    lemma_count_within(bests, rank);
    let count = count_within(bests, rank);
    if at < count {
        assert(bests[at].distance.rank() > rank);
    }
    if count < at {
        assert(bests[count].distance.rank() <= rank);
    }
}

/// What an ordered frontier is after a candidate was placed in it.
pub(crate) proof fn lemma_placed<D: Distance>(bests: Seq<Candidate<D>>, candidate: Candidate<D>)
    requires
        in_order(bests),
    ensures
        placed(bests, candidate).len() == bests.len() + 1,
        in_order(placed(bests, candidate)),
        0 <= count_within(bests, candidate.distance.rank()) <= bests.len(),
        forall|i: int|
            0 <= i < bests.len() + 1 ==> #[trigger] placed(bests, candidate)[i] == (if i < count_within(
                bests,
                candidate.distance.rank(),
            ) {
                bests[i]
            } else if i == count_within(bests, candidate.distance.rank()) {
                candidate
            } else {
                bests[i - 1]
            }),
        forall|x: usize| holds(placed(bests, candidate), x) <==> holds(bests, x) || x == candidate.node,
        bests.len() > 0 ==> placed(bests, candidate).last().distance.rank() == (if bests.last().distance.rank()
            <= candidate.distance.rank() {
            candidate.distance.rank()
        } else {
            bests.last().distance.rank()
        }),
        bests.len() == 0 ==> placed(bests, candidate).last() == candidate,
        bests.len() > 0 && bests[0].distance.rank() <= candidate.distance.rank() ==> placed(
            bests,
            candidate,
        )[0] == bests[0],
{
    let rank = candidate.distance.rank();
    lemma_count_within(bests, rank);
    let at = count_within(bests, rank);
    let after = placed(bests, candidate);
    bests.insert_ensures(at, candidate);
    assert forall|i: int| 0 <= i < bests.len() + 1 implies #[trigger] after[i] == (if i < at {
        bests[i]
    } else if i == at {
        candidate
    } else {
        bests[i - 1]
    }) by {}
    assert forall|i: int, j: int| 0 <= i < j < after.len() implies (#[trigger] after[i]).distance.rank() <= (
    #[trigger] after[j]).distance.rank() by {
        if i < at {
            assert(after[i] == bests[i]);
        } else if i > at {
            assert(after[i] == bests[i - 1]);
        }
        if j < at {
            assert(after[j] == bests[j]);
        } else if j > at {
            assert(after[j] == bests[j - 1]);
        }
    }
    assert forall|x: usize| holds(after, x) <==> holds(bests, x) || x == candidate.node by {
        if holds(bests, x) {
            let i = choose|i: int| 0 <= i < bests.len() && (#[trigger] bests[i]).node == x;
            if i < at {
                assert(after[i].node == x);
            } else {
                assert(after[i + 1] == bests[i]);
            }
        }
        if x == candidate.node {
            assert(after[at].node == x);
        }
        if holds(after, x) {
            let i = choose|i: int| 0 <= i < after.len() && (#[trigger] after[i]).node == x;
            if i < at {
                assert(bests[i].node == x);
            } else if i > at {
                assert(bests[i - 1].node == x);
            }
        }
    }
    if bests.len() > 0 {
        if at == bests.len() {
            assert(after[at] == candidate);
        } else {
            assert(after[bests.len() as int] == bests[bests.len() - 1]);
        }
        if bests[0].distance.rank() <= rank {
            if at == 0 {
                assert(bests[0].distance.rank() > rank);
            }
        }
    }
}

/// Leaving out the farthest candidate keeps the order, the validity and the
/// distinctness of a frontier.
pub(crate) proof fn lemma_front<D: Distance>(adj: Seq<Seq<usize>>, ranks: Seq<u64>, bests: Seq<Candidate<D>>)
    requires
        bests.len() > 0,
        valid_entries(adj, ranks, bests),
        in_order(bests),
        distinct_nodes(bests),
    ensures
        valid_entries(adj, ranks, bests.drop_last()),
        in_order(bests.drop_last()),
        distinct_nodes(bests.drop_last()),
        !holds(bests.drop_last(), bests.last().node),
        forall|x: usize| holds(bests, x) <==> holds(bests.drop_last(), x) || x == bests.last().node,
{
    let front = bests.drop_last();
    assert forall|i: int| 0 <= i < front.len() implies (#[trigger] front[i]) == bests[i] by {}
    assert forall|i: int, j: int| 0 <= i < j < front.len() implies (#[trigger] front[i]).distance.rank() <= (
    #[trigger] front[j]).distance.rank() by {
        assert(front[i] == bests[i] && front[j] == bests[j]);
    }
    assert forall|i: int, j: int| 0 <= i < front.len() && 0 <= j < front.len() && i != j implies (
    #[trigger] front[i]).node != (#[trigger] front[j]).node by {
        assert(front[i] == bests[i] && front[j] == bests[j]);
    }
    assert forall|i: int| 0 <= i < front.len() implies (#[trigger] front[i]).node < adj.len()
        && front[i].distance.rank() == ranks[front[i].node as int] by {
        assert(front[i] == bests[i]);
    }
    if holds(front, bests.last().node) {
        let i = choose|i: int| 0 <= i < front.len() && (#[trigger] front[i]).node == bests.last().node;
        assert(front[i] == bests[i]);
        assert(bests[i].node != bests[bests.len() - 1].node);
    }
    assert forall|x: usize| holds(bests, x) <==> holds(front, x) || x == bests.last().node by {
        if holds(bests, x) {
            let i = choose|i: int| 0 <= i < bests.len() && (#[trigger] bests[i]).node == x;
            if i < front.len() {
                assert(front[i].node == x);
            }
        }
        if holds(front, x) {
            let i = choose|i: int| 0 <= i < front.len() && (#[trigger] front[i]).node == x;
            assert(bests[i].node == x);
        }
        if x == bests.last().node {
            assert(bests[bests.len() - 1].node == x);
        }
    }
}

/// Placing a node that is not held keeps the validity and the distinctness of a
/// frontier, and its searched candidates are those that were there before.
pub(crate) proof fn lemma_placed_entries<D: Distance>(
    adj: Seq<Seq<usize>>,
    ranks: Seq<u64>,
    bests: Seq<Candidate<D>>,
    candidate: Candidate<D>,
)
    requires
        valid_entries(adj, ranks, bests),
        in_order(bests),
        distinct_nodes(bests),
        candidate.node < adj.len(),
        candidate.distance.rank() == ranks[candidate.node as int],
        !holds(bests, candidate.node),
    ensures
        valid_entries(adj, ranks, placed(bests, candidate)),
        distinct_nodes(placed(bests, candidate)),
        forall|i: int|
            0 <= i < placed(bests, candidate).len() ==> (#[trigger] placed(bests, candidate)[i]) == candidate
                || exists|k: int| 0 <= k < bests.len() && bests[k] == placed(bests, candidate)[i],
{
    lemma_placed(bests, candidate);
    let at = count_within(bests, candidate.distance.rank());
    let after = placed(bests, candidate);
    assert forall|i: int| 0 <= i < after.len() implies (#[trigger] after[i]) == candidate || exists|k: int|
        0 <= k < bests.len() && bests[k] == after[i] by {
        if i < at {
            assert(bests[i] == after[i]);
        } else if i > at {
            assert(bests[i - 1] == after[i]);
        }
    }
    assert forall|i: int| 0 <= i < after.len() implies (#[trigger] after[i]).node < adj.len()
        && after[i].distance.rank() == ranks[after[i].node as int] by {
        if i < at {
            assert(bests[i] == after[i]);
        } else if i > at {
            assert(bests[i - 1] == after[i]);
        }
    }
    assert forall|i: int, j: int| 0 <= i < after.len() && 0 <= j < after.len() && i != j implies (
    #[trigger] after[i]).node != (#[trigger] after[j]).node by {
        let k = if i < at {
            i
        } else {
            i - 1
        };
        let l = if j < at {
            j
        } else {
            j - 1
        };
        if i == at {
            assert(after[j] == bests[l]);
        } else if j == at {
            assert(after[i] == bests[k]);
        } else {
            assert(after[i] == bests[k] && after[j] == bests[l]);
        }
    }
}

/// Offering a neighbor of the candidate that is being searched to a frontier with
/// room for it keeps what holds of the frontier.
proof fn lemma_offered_room<D: Distance>(
    adj: Seq<Seq<usize>>,
    ranks: Seq<u64>,
    from: usize,
    num: usize,
    seed: usize,
    bests: Seq<Candidate<D>>,
    seen: Set<usize>,
    expanded: Seq<usize>,
    current: usize,
    candidate: Candidate<D>,
)
    requires
        frontier(adj, ranks, from, num, seed, bests, seen, expanded),
        searched_closed(adj, bests, seen, current as int),
        seen.contains(current),
        adj[current as int].contains(candidate.node),
        candidate.node < adj.len(),
        candidate.distance.rank() == ranks[candidate.node as int],
        !candidate.searched,
        !holds(bests, candidate.node),
        bests.len() < num,
    ensures
        frontier(
            adj,
            ranks,
            from,
            num,
            seed,
            placed(bests, candidate),
            seen.insert(candidate.node),
            expanded,
        ),
        searched_closed(adj, placed(bests, candidate), seen.insert(candidate.node), current as int),
{
    let after = placed(bests, candidate);
    let seen_after = seen.insert(candidate.node);
    lemma_reachable_step(adj, from, current, candidate.node);
    lemma_placed(bests, candidate);
    lemma_placed_entries(adj, ranks, bests, candidate);
    assert(!seen.contains(candidate.node));
    assert(seen_kept(adj, ranks, from, num, after, seen_after)) by {
        assert forall|i: int| 0 <= i < after.len() implies seen_after.contains((#[trigger] after[i]).node) by {
            if after[i] != candidate {
                let k = choose|k: int| 0 <= k < bests.len() && bests[k] == after[i];
                assert(seen.contains(bests[k].node));
            }
        }
        assert forall|x: usize| #[trigger] seen_after.contains(x) implies holds(after, x) || (after.len()
            == num && ranks[x as int] >= after.last().distance.rank()) by {
            if x != candidate.node {
                assert(seen.contains(x));
            }
        }
    }
    assert(expanded_kept(after, seen_after, expanded)) by {
        assert forall|i: int| 0 <= i < after.len() && !(#[trigger] after[i]).searched implies !expanded.contains(
            after[i].node,
        ) by {
            if after[i] != candidate {
                let k = choose|k: int| 0 <= k < bests.len() && bests[k] == after[i];
                assert(!bests[k].searched);
            } else if expanded.contains(candidate.node) {
                let k = choose|k: int| 0 <= k < expanded.len() && expanded[k] == candidate.node;
                assert(seen.contains(expanded[k]));
            }
        }
        assert forall|k: int| 0 <= k < expanded.len() implies seen_after.contains(#[trigger] expanded[k]) by {
            assert(seen.contains(expanded[k]));
        }
    }
    assert(seed_kept(adj, ranks, num, seed, after, seen_after)) by {
        if ranks[seed as int] == 0 {
            assert(bests[0].distance.rank() == ranks[bests[0].node as int]);
        }
    }
    assert(searched_closed(adj, after, seen_after, current as int)) by {
        assert forall|i: int, m: usize|
            0 <= i < after.len() && (#[trigger] after[i]).searched && after[i].node != current
                && #[trigger] adj[after[i].node as int].contains(m) implies seen_after.contains(m) by {
            let k = choose|k: int| 0 <= k < bests.len() && bests[k] == after[i];
            assert(bests[k].searched);
            assert(seen.contains(m));
        }
    }
}

/// Offering a neighbor of the candidate that is being searched to a full frontier
/// whose farthest candidate is farther keeps what holds of the frontier.
proof fn lemma_offered_closer<D: Distance>(
    adj: Seq<Seq<usize>>,
    ranks: Seq<u64>,
    from: usize,
    num: usize,
    seed: usize,
    bests: Seq<Candidate<D>>,
    seen: Set<usize>,
    expanded: Seq<usize>,
    current: usize,
    candidate: Candidate<D>,
)
    requires
        frontier(adj, ranks, from, num, seed, bests, seen, expanded),
        searched_closed(adj, bests, seen, current as int),
        seen.contains(current),
        num == 1 ==> current == seed,
        adj[current as int].contains(candidate.node),
        candidate.node < adj.len(),
        candidate.distance.rank() == ranks[candidate.node as int],
        !candidate.searched,
        !holds(bests, candidate.node),
        bests.len() == num,
        candidate.distance.rank() < bests.last().distance.rank(),
    ensures
        frontier(
            adj,
            ranks,
            from,
            num,
            seed,
            placed(bests.drop_last(), candidate),
            seen.insert(candidate.node),
            expanded,
        ),
        searched_closed(
            adj,
            placed(bests.drop_last(), candidate),
            seen.insert(candidate.node),
            current as int,
        ),
{
    let front = bests.drop_last();
    let after = placed(front, candidate);
    let seen_after = seen.insert(candidate.node);
    let worst = bests.last();
    lemma_reachable_step(adj, from, current, candidate.node);
    lemma_front(adj, ranks, bests);
    lemma_placed(front, candidate);
    lemma_placed_entries(adj, ranks, front, candidate);
    assert(!seen.contains(candidate.node));
    assert(bests[bests.len() - 1].distance.rank() == ranks[worst.node as int]);
    assert(front.len() > 0) by {
        if front.len() == 0 {
            assert(bests[0] == worst);
            if num == 1 {
                assert(bests[0].node == seed);
                assert(ranks[candidate.node as int] >= ranks[seed as int]);
            }
        }
    }
    assert(front[0] == bests[0]);
    assert(front.last() == bests[bests.len() - 2]);
    assert(bests[bests.len() - 2].distance.rank() <= bests[bests.len() - 1].distance.rank());
    assert(after.last().distance.rank() <= worst.distance.rank());
    assert(seen_kept(adj, ranks, from, num, after, seen_after)) by {
        assert forall|i: int| 0 <= i < after.len() implies seen_after.contains((#[trigger] after[i]).node) by {
            if after[i] != candidate {
                let k = choose|k: int| 0 <= k < front.len() && front[k] == after[i];
                assert(front[k] == bests[k]);
                assert(seen.contains(bests[k].node));
            }
        }
        assert forall|x: usize| #[trigger] seen_after.contains(x) implies holds(after, x) || (after.len()
            == num && ranks[x as int] >= after.last().distance.rank()) by {
            if x != candidate.node {
                assert(seen.contains(x));
            }
        }
    }
    assert(expanded_kept(after, seen_after, expanded)) by {
        assert forall|i: int| 0 <= i < after.len() && !(#[trigger] after[i]).searched implies !expanded.contains(
            after[i].node,
        ) by {
            if after[i] != candidate {
                let k = choose|k: int| 0 <= k < front.len() && front[k] == after[i];
                assert(front[k] == bests[k]);
                assert(!bests[k].searched);
            } else if expanded.contains(candidate.node) {
                let k = choose|k: int| 0 <= k < expanded.len() && expanded[k] == candidate.node;
                assert(seen.contains(expanded[k]));
            }
        }
        assert forall|k: int| 0 <= k < expanded.len() implies seen_after.contains(#[trigger] expanded[k]) by {
            assert(seen.contains(expanded[k]));
        }
    }
    assert(seed_kept(adj, ranks, num, seed, after, seen_after)) by {
        if ranks[seed as int] == 0 {
            assert(bests[0].distance.rank() == ranks[bests[0].node as int]);
        }
    }
    assert(searched_closed(adj, after, seen_after, current as int)) by {
        assert forall|i: int, m: usize|
            0 <= i < after.len() && (#[trigger] after[i]).searched && after[i].node != current
                && #[trigger] adj[after[i].node as int].contains(m) implies seen_after.contains(m) by {
            let k = choose|k: int| 0 <= k < front.len() && front[k] == after[i];
            assert(front[k] == bests[k]);
            assert(bests[k].searched);
            assert(seen.contains(m));
        }
    }
}

/// Offering a neighbor of the candidate that is being searched keeps what holds of
/// the frontier.
pub(crate) proof fn lemma_offered<D: Distance>(
    adj: Seq<Seq<usize>>,
    ranks: Seq<u64>,
    from: usize,
    num: usize,
    seed: usize,
    bests: Seq<Candidate<D>>,
    seen: Set<usize>,
    expanded: Seq<usize>,
    current: usize,
    candidate: Candidate<D>,
)
    requires
        frontier(adj, ranks, from, num, seed, bests, seen, expanded),
        searched_closed(adj, bests, seen, current as int),
        seen.contains(current),
        num == 1 ==> current == seed,
        adj[current as int].contains(candidate.node),
        candidate.node < adj.len(),
        candidate.distance.rank() == ranks[candidate.node as int],
        !candidate.searched,
        !holds(bests, candidate.node),
    ensures
        frontier(
            adj,
            ranks,
            from,
            num,
            seed,
            offered(bests, num, candidate),
            seen.insert(candidate.node),
            expanded,
        ),
        searched_closed(adj, offered(bests, num, candidate), seen.insert(candidate.node), current as int),
{
    let seen_after = seen.insert(candidate.node);
    if bests.len() < num {
        lemma_offered_room(adj, ranks, from, num, seed, bests, seen, expanded, current, candidate);
    } else if candidate.distance.rank() < bests.last().distance.rank() {
        lemma_offered_closer(adj, ranks, from, num, seed, bests, seen, expanded, current, candidate);
    } else {
        lemma_reachable_step(adj, from, current, candidate.node);
        assert(seen_kept(adj, ranks, from, num, bests, seen_after)) by {
            assert forall|x: usize| #[trigger] seen_after.contains(x) implies holds(bests, x) || (bests.len()
                == num && ranks[x as int] >= bests.last().distance.rank()) by {
                if x != candidate.node {
                    assert(seen.contains(x));
                }
            }
        }
        assert(expanded_kept(bests, seen_after, expanded)) by {
            assert forall|k: int| 0 <= k < expanded.len() implies seen_after.contains(#[trigger] expanded[k]) by {
                assert(seen.contains(expanded[k]));
            }
        }
    }
}

/// Marking an unsearched candidate as the one being searched keeps what holds of
/// the frontier.
pub(crate) proof fn lemma_marked<D: Distance>(
    adj: Seq<Seq<usize>>,
    ranks: Seq<u64>,
    from: usize,
    num: usize,
    seed: usize,
    bests: Seq<Candidate<D>>,
    after: Seq<Candidate<D>>,
    seen: Set<usize>,
    expanded: Seq<usize>,
    pick: int,
)
    requires
        frontier(adj, ranks, from, num, seed, bests, seen, expanded),
        searched_closed(adj, bests, seen, -1),
        0 <= pick < bests.len(),
        !bests[pick].searched,
        after.len() == bests.len(),
        forall|i: int| 0 <= i < bests.len() && i != pick ==> after[i] == bests[i],
        after[pick].node == bests[pick].node,
        after[pick].distance == bests[pick].distance,
        after[pick].searched,
    ensures
        frontier(adj, ranks, from, num, seed, after, seen, expanded.push(bests[pick].node)),
        searched_closed(adj, after, seen, bests[pick].node as int),
        seen.contains(bests[pick].node),
        expanded.push(bests[pick].node).len() <= adj.len(),
        num == 1 ==> bests[pick].node == seed,
{
    let current = bests[pick].node;
    let grown = expanded.push(current);
    assert forall|i: int| 0 <= i < bests.len() implies (#[trigger] after[i]).node == bests[i].node
        && after[i].distance == bests[i].distance by {}
    assert(in_order(after)) by {
        assert forall|i: int, j: int| 0 <= i < j < after.len() implies (#[trigger] after[i]).distance.rank() <= (
        #[trigger] after[j]).distance.rank() by {
            assert(bests[i].distance.rank() <= bests[j].distance.rank());
        }
    }
    assert(valid_entries(adj, ranks, after)) by {
        assert forall|i: int| 0 <= i < after.len() implies (#[trigger] after[i]).node < adj.len()
            && after[i].distance.rank() == ranks[after[i].node as int] by {
            assert(bests[i].node < adj.len());
        }
    }
    assert(distinct_nodes(after)) by {
        assert forall|i: int, j: int| 0 <= i < after.len() && 0 <= j < after.len() && i != j implies (
        #[trigger] after[i]).node != (#[trigger] after[j]).node by {
            assert(bests[i].node != bests[j].node);
        }
    }
    assert forall|x: usize| holds(bests, x) implies holds(after, x) by {
        let i = choose|i: int| 0 <= i < bests.len() && (#[trigger] bests[i]).node == x;
        assert(after[i].node == x);
    }
    assert(seen_kept(adj, ranks, from, num, after, seen)) by {
        assert forall|i: int| 0 <= i < after.len() implies seen.contains((#[trigger] after[i]).node) by {
            assert(seen.contains(bests[i].node));
        }
        assert(after.last().distance == bests.last().distance);
    }
    assert(seen.contains(bests[pick].node));
    assert(!expanded.contains(current));
    assert(expanded_kept(after, seen, grown)) by {
        assert forall|i: int, j: int| 0 <= i < grown.len() && 0 <= j < grown.len() && i != j implies grown[i]
            != grown[j] by {
            if i < expanded.len() {
                assert(expanded.contains(expanded[i]));
            }
            if j < expanded.len() {
                assert(expanded.contains(expanded[j]));
            }
        }
        assert forall|i: int| 0 <= i < after.len() && !(#[trigger] after[i]).searched implies !grown.contains(
            after[i].node,
        ) by {
            assert(after[i] == bests[i]);
            assert(bests[i].node != bests[pick].node);
            lemma_push_contains(expanded, current, after[i].node);
        }
    }
    assert(seed_kept(adj, ranks, num, seed, after, seen)) by {
        assert(after[0].node == bests[0].node);
    }
    assert(searched_closed(adj, after, seen, current as int)) by {
        assert forall|i: int, m: usize|
            0 <= i < after.len() && (#[trigger] after[i]).searched && after[i].node != current
                && #[trigger] adj[after[i].node as int].contains(m) implies seen.contains(m) by {
            assert(after[i] == bests[i]);
        }
    }
    assert forall|k: int| 0 <= k < grown.len() implies grown[k] < adj.len() by {
        assert(seen.contains(grown[k]));
    }
    lemma_distinct_bounded(grown, adj.len());
    if num == 1 {
        assert(bests[0].node == seed);
    }
}

/// When every candidate is searched, the frontier is the result of the search.
pub(crate) proof fn lemma_searched<D: Distance>(
    adj: Seq<Seq<usize>>,
    ranks: Seq<u64>,
    from: usize,
    num: usize,
    bests: Seq<Candidate<D>>,
    seen: Set<usize>,
    expanded: Seq<usize>,
)
    requires
        frontier(adj, ranks, from, num, greedy_end(adj, ranks, from), bests, seen, expanded),
        searched_closed(adj, bests, seen, -1),
        forall|i: int| 0 <= i < bests.len() ==> (#[trigger] bests[i]).searched,
    ensures
        is_knn(adj, ranks, from, num, ids_of(bests)),
{
    let ids = ids_of(bests);
    let seed = greedy_end(adj, ranks, from);
    assert forall|x: usize| holds(bests, x) implies ids.contains(x) by {
        let i = choose|i: int| 0 <= i < bests.len() && (#[trigger] bests[i]).node == x;
        assert(ids[i] == x);
    }
    assert(bests.last().distance.rank() == ranks[ids.last() as int]) by {
        assert(bests[bests.len() - 1].node == ids[ids.len() - 1]);
    }
    assert forall|i: int, j: int| 0 <= i < ids.len() && 0 <= j < ids.len() && i != j implies ids[i] != ids[j] by {
        assert(bests[i].node != bests[j].node);
    }
    assert forall|i: int| 0 <= i < ids.len() implies (#[trigger] ids[i]) < adj.len() && reachable(
        adj,
        from,
        ids[i],
    ) by {
        assert(seen.contains(bests[i].node));
    }
    assert forall|i: int, j: int| 0 <= i < j < ids.len() implies ranks[(#[trigger] ids[i]) as int] <= ranks[(
    #[trigger] ids[j]) as int] by {
        assert(bests[i].distance.rank() <= bests[j].distance.rank());
    }
    assert forall|i: int, m: usize|
        0 <= i < ids.len() && #[trigger] adj[(#[trigger] ids[i]) as int].contains(m) implies ids.contains(m) || (
    ids.len() == num && ranks[m as int] >= ranks[ids.last() as int]) by {
        assert(bests[i].searched);
        assert(adj[bests[i].node as int].contains(m));
        assert(seen.contains(m));
    }
    assert(seen.contains(seed));
    assert(ids[0] == bests[0].node);
}

/// Whether a frontier holds a node.
pub(crate) fn held<D>(bests: &Vec<Candidate<D>>, node: usize) -> (found: bool)
    ensures
        found == holds(bests@, node),
{
    let mut index: usize = 0;
    while index < bests.len()
        invariant
            index <= bests.len(),
            forall|i: int| 0 <= i < index ==> (#[trigger] bests@[i]).node != node,
        decreases bests.len() - index,
    {
        if bests[index].node == node {
            return true;
        }
        index += 1;
    }
    false
}

/// The number of candidates of an ordered frontier that are no farther than
/// `distance`, found by bisection.
pub(crate) fn split_point<D: Distance>(bests: &Vec<Candidate<D>>, distance: D) -> (at: usize)
    requires
        in_order(bests@),
    ensures
        at == count_within(bests@, distance.rank()),
        at <= bests.len(),
{
    let key = distance.widen();
    let mut low: usize = 0;
    let mut high: usize = bests.len();
    while low < high
        invariant
            in_order(bests@),
            key == distance.rank(),
            low <= high <= bests.len(),
            forall|i: int| 0 <= i < low ==> (#[trigger] bests@[i]).distance.rank() <= key,
            forall|i: int| high <= i < bests.len() ==> (#[trigger] bests@[i]).distance.rank() > key,
        decreases high - low,
    {
        let middle = low + (high - low) / 2;
        if bests[middle].distance.widen() <= key {
            proof {
                assert forall|i: int| 0 <= i < middle + 1 implies (#[trigger] bests@[i]).distance.rank() <= key by {
                    if i < middle {
                        assert(bests@[i].distance.rank() <= bests@[middle as int].distance.rank());
                    }
                }
            }
            low = middle + 1;
        } else {
            proof {
                assert forall|i: int| middle <= i < bests.len() implies (#[trigger] bests@[i]).distance.rank()
                    > key by {
                    if i > middle {
                        assert(bests@[middle as int].distance.rank() <= bests@[i].distance.rank());
                    }
                }
            }
            high = middle;
        }
    }
    proof {
        lemma_split_is_count(bests@, key, low as int);
    }
    low
}

/// Offers a candidate to an ordered frontier that holds at most `num` candidates.
pub(crate) fn offer<D: Distance>(bests: &mut Vec<Candidate<D>>, num: usize, candidate: Candidate<D>)
    requires
        in_order(old(bests)@),
        1 <= old(bests).len() <= num,
    ensures
        final(bests)@ == offered(old(bests)@, num, candidate),
{
    if bests.len() < num {
        let at = split_point(bests, candidate.distance);
        bests.insert(at, candidate);
    } else if candidate.distance.widen() < bests[bests.len() - 1].distance.widen() {
        bests.pop();
        proof {
            let front = old(bests)@.drop_last();
            assert(bests@ == front);
            assert forall|i: int, j: int| 0 <= i < j < front.len() implies (
            #[trigger] front[i]).distance.rank() <= (#[trigger] front[j]).distance.rank() by {
                assert(front[i] == old(bests)@[i] && front[j] == old(bests)@[j]);
            }
        }
        let at = split_point(bests, candidate.distance);
        bests.insert(at, candidate);
    }
}

/// Every candidate carries the kept distance from `query` to its key.
pub open spec fn exact_distances<K: MetricPoint, D: Distance>(
    keys: Seq<K>,
    query: K,
    bests: Seq<Candidate<D>>,
) -> bool {
    forall|i: int|
        0 <= i < bests.len() ==> (#[trigger] bests[i]).distance == stored::<K, D>(
            query,
            keys[bests[i].node as int],
        )
}

/// An offer puts no candidate but the offered one into the frontier.
pub(crate) proof fn lemma_offered_exact<K: MetricPoint, D: Distance>(
    keys: Seq<K>,
    query: K,
    bests: Seq<Candidate<D>>,
    num: usize,
    candidate: Candidate<D>,
)
    requires
        in_order(bests),
        bests.len() > 0,
        exact_distances(keys, query, bests),
        candidate.distance == stored::<K, D>(query, keys[candidate.node as int]),
    ensures
        exact_distances(keys, query, offered(bests, num, candidate)),
{
    let after = offered(bests, num, candidate);
    if bests.len() < num {
        lemma_placed(bests, candidate);
        let at = count_within(bests, candidate.distance.rank());
        assert forall|i: int| 0 <= i < after.len() implies (#[trigger] after[i]).distance == stored::<K, D>(
            query,
            keys[after[i].node as int],
        ) by {
            if i < at {
                assert(after[i] == bests[i]);
            } else if i > at {
                assert(after[i] == bests[i - 1]);
            }
        }
    } else if candidate.distance.rank() < bests.last().distance.rank() {
        let front = bests.drop_last();
        assert forall|i: int, j: int| 0 <= i < j < front.len() implies (#[trigger] front[i]).distance.rank() <= (
        #[trigger] front[j]).distance.rank() by {
            assert(front[i] == bests[i] && front[j] == bests[j]);
        }
        lemma_placed(front, candidate);
        let at = count_within(front, candidate.distance.rank());
        assert forall|i: int| 0 <= i < after.len() implies (#[trigger] after[i]).distance == stored::<K, D>(
            query,
            keys[after[i].node as int],
        ) by {
            if i < at {
                assert(after[i] == front[i]);
                assert(front[i] == bests[i]);
            } else if i > at {
                assert(after[i] == front[i - 1]);
                assert(front[i - 1] == bests[i - 1]);
            }
        }
    }
}

impl<K: MetricPoint, V, D: Distance> Hrc<K, V, D> {
    /// Finds the nearest neighbors of `query` greedily, starting from `from`, whose
    /// distance to `query` is `from_distance`.
    pub(crate) fn knn_from(
        &self,
        layer: usize,
        from: usize,
        from_distance: D,
        query: &K,
        num: usize,
    ) -> (bests: Vec<Candidate<D>>)
        requires
            self.sound(),
            layer == 0,
            from < self@.len(),
            from_distance == stored::<K, D>(*query, self@.keys[from as int]),
        ensures
            bests@ == knn_found(self@.adjacency, dists_to::<K, D>(self@.keys, *query), from, num),
            is_knn(self@.adjacency, self.ranks(*query), from, num, ids_of(bests@)),
            exact_distances(self@.keys, *query, bests@),
            forall|i: int| 0 <= i < bests.len() ==> (#[trigger] bests@[i]).searched,
    {
        proof {
            reveal(knn_found);
        }
        if num == 0 {
            let bests: Vec<Candidate<D>> = Vec::new();
            proof {
                assert(ids_of(bests@) =~= Seq::<usize>::empty());
                assert(bests@ =~= Seq::<Candidate<D>>::empty());
            }
            return bests;
        }
        let ghost adj = self@.adjacency;
        let ghost ranks = self.ranks(*query);
        let ghost dists = dists_to::<K, D>(self@.keys, *query);
        let ghost answer = knn_found(adj, dists, from, num);
        proof {
            assert(ranks =~= ranks_of(dists));
        }
        let (seed, seed_distance) = self.greedy_from(layer, from, from_distance, query);
        let mut bests: Vec<Candidate<D>> = Vec::new();
        bests.push(Candidate { node: seed, distance: seed_distance, searched: false });
        let ghost mut seen: Set<usize> = Set::<usize>::empty().insert(seed);
        let ghost mut expanded: Seq<usize> = Seq::<usize>::empty();
        proof {
            lemma_greedy_end(adj, ranks, from);
            assert(holds(bests@, seed)) by {
                assert(bests@[0].node == seed);
            }
            assert(bests@ =~= seq![Candidate { node: seed, distance: dists[seed as int], searched: false }]);
        }
        loop
            invariant
                self.sound(),
                layer == 0,
                num >= 1,
                adj == self@.adjacency,
                ranks == self.ranks(*query),
                dists == dists_to::<K, D>(self@.keys, *query),
                answer == knn_found(adj, dists, from, num),
                answer == searched_out(adj, dists, num, bests@, (adj.len() - expanded.len()) as nat),
                seed == greedy_end(adj, ranks, from),
                frontier(adj, ranks, from, num, seed, bests@, seen, expanded),
                searched_closed(adj, bests@, seen, -1),
                exact_distances(self@.keys, *query, bests@),
                expanded.len() <= adj.len(),
            decreases adj.len() - expanded.len(),
        {
            let mut pick: usize = 0;
            while pick < bests.len() && bests[pick].searched
                invariant
                    pick <= bests.len(),
                    forall|i: int| 0 <= i < pick ==> (#[trigger] bests@[i]).searched,
                decreases bests.len() - pick,
            {
                pick += 1;
            }
            proof {
                lemma_first_unsearched(bests@, pick as int);
            }
            if pick == bests.len() {
                proof {
                    lemma_searched(adj, ranks, from, num, bests@, seen, expanded);
                    assert(searched_out(adj, dists, num, bests@, (adj.len() - expanded.len()) as nat) == bests@);
                }
                return bests;
            }
            let current = bests[pick].node;
            let ghost before = bests@;
            bests[pick].searched = true;
            let ghost marked = bests@;
            proof {
                lemma_marked(adj, ranks, from, num, seed, before, bests@, seen, expanded, pick as int);
                expanded = expanded.push(current);
                assert(marked =~= before.update(
                    pick as int,
                    Candidate {
                        node: before[pick as int].node,
                        distance: before[pick as int].distance,
                        searched: true,
                    },
                ));
                assert(adj[current as int].take(0) =~= Seq::<usize>::empty());
            }
            let degree = self.degree(layer, current);
            let mut edge: usize = 0;
            while edge < degree
                invariant
                    self.sound(),
                    layer == 0,
                    adj == self@.adjacency,
                    ranks == self.ranks(*query),
                    current < self@.len(),
                    degree == adj[current as int].len(),
                    edge <= degree,
                    frontier(adj, ranks, from, num, seed, bests@, seen, expanded),
                    searched_closed(adj, bests@, seen, current as int),
                    exact_distances(self@.keys, *query, bests@),
                    seen.contains(current),
                    num == 1 ==> current == seed,
                    forall|j: int| 0 <= j < edge ==> seen.contains(#[trigger] adj[current as int][j]),
                    dists == dists_to::<K, D>(self@.keys, *query),
                    bests@ == offered_all(adj[current as int].take(edge as int), dists, num, marked),
                decreases degree - edge,
            {
                let neighbor = self.neighbor(layer, current, edge);
                proof {
                    assert(adj[current as int].take(edge as int + 1).drop_last() =~= adj[current as int].take(
                        edge as int,
                    ));
                }
                if !held(&bests, neighbor) {
                    let distance: D = self.stored_distance(query, neighbor);
                    let candidate = Candidate { node: neighbor, distance, searched: false };
                    proof {
                        lemma_offered(adj, ranks, from, num, seed, bests@, seen, expanded, current, candidate);
                        lemma_offered_exact(self@.keys, *query, bests@, num, candidate);
                        seen = seen.insert(neighbor);
                    }
                    offer(&mut bests, num, candidate);
                }
                edge += 1;
            }
            proof {
                assert(adj[current as int].take(degree as int) =~= adj[current as int]);
                assert forall|i: int, m: usize|
                    0 <= i < bests.len() && (#[trigger] bests@[i]).searched && #[trigger] adj[bests@[i].node as int].contains(
                        m,
                    ) implies seen.contains(m) by {
                    if bests@[i].node == current {
                        let j = choose|j: int| 0 <= j < adj[current as int].len() && adj[current as int][j] == m;
                        assert(seen.contains(adj[current as int][j]));
                    }
                }
            }
        }
    }
    /// Finds the knn greedily from a starting node `from`.
    ///
    /// Returns `(node, distance)` pairs, nearest first.
    pub fn search_knn_from(&self, layer: usize, from: usize, query: &K, num: usize) -> (found: Vec<
        (usize, D),
    >)
        requires
            self.wf(),
            layer == 0,
            from < self@.len(),
        ensures
            found@ == pairs_of(
                knn_found(self@.adjacency, dists_to::<K, D>(self@.keys, *query), from, num),
            ),
            is_knn(self@.adjacency, self.ranks(*query), from, num, found@.map_values(|e: (usize, D)| e.0)),
            forall|i: int|
                0 <= i < found.len() ==> (#[trigger] found@[i]).1 == stored::<K, D>(
                    *query,
                    self@.keys[found@[i].0 as int],
                ),
    {
        let from_distance: D = self.stored_distance(query, from);
        let bests = self.knn_from(layer, from, from_distance, query, num);
        let mut found: Vec<(usize, D)> = Vec::new();
        let mut index: usize = 0;
        while index < bests.len()
            invariant
                index <= bests.len(),
                found.len() == index,
                forall|i: int|
                    0 <= i < index ==> (#[trigger] found@[i]) == (bests@[i].node, bests@[i].distance),
            decreases bests.len() - index,
        {
            found.push((bests[index].node, bests[index].distance));
            index += 1;
        }
        proof {
            assert(found@ =~= pairs_of(bests@));
            assert(found@.map_values(|e: (usize, D)| e.0) =~= ids_of(bests@));
            assert forall|i: int| 0 <= i < found.len() implies (#[trigger] found@[i]).1 == stored::<K, D>(
                *query,
                self@.keys[found@[i].0 as int],
            ) by {
                assert(found@[i] == (bests@[i].node, bests@[i].distance));
            }
        }
        found
    }

    /// The nodes other than `node` that a search for the `num` nearest neighbors of
    /// the key of `node` finds, nearest first.
    pub(crate) fn neighborhood(&self, layer: usize, node: usize, num: usize) -> (others: Vec<usize>)
        requires
            self.sound(),
            layer == 0,
            node < self@.len(),
        ensures
            others@ == neighborhood_of::<K, D>(self@.adjacency, self@.keys, node, num),
            num == 0 ==> others@.len() == 0,
            num > 0 ==> is_knn(
                self@.adjacency,
                self.ranks(self@.keys[node as int]),
                node,
                num,
                seq![node] + others@,
            ),
    {
        let zero: D = D::narrow(0);
        proof {
            self@.keys[node as int].lemma_dist_self();
            D::lemma_zero();
            self.lemma_own_rank(node);
        }
        let bests = self.knn_from(layer, node, zero, &self.nodes[node].key, num);
        let mut others: Vec<usize> = Vec::new();
        let mut index: usize = 1;
        while index < bests.len()
            invariant
                1 <= index,
                bests.len() > 0 ==> index <= bests.len(),
                bests.len() > 0 ==> others.len() == index - 1,
                bests.len() == 0 ==> others.len() == 0,
                forall|i: int| 1 <= i < index ==> others@[i - 1] == (#[trigger] bests@[i]).node,
            decreases bests.len() - index,
        {
            others.push(bests[index].node);
            index += 1;
        }
        proof {
            let ids = ids_of(bests@);
            if num > 0 {
                assert(ids[0] == node);
                assert(seq![node] + others@ =~= ids);
                assert(others@ =~= ids.subrange(1, ids.len() as int));
            } else {
                assert(others@ =~= ids);
            }
        }
        others
    }

    /// Finds the knn of `node` greedily. The node itself is the first result.
    pub fn search_knn_of(&self, layer: usize, node: usize, num: usize) -> (found: Vec<(usize, D)>)
        requires
            self.wf(),
            layer == 0,
            node < self@.len(),
        ensures
            found@ == pairs_of(
                knn_found(
                    self@.adjacency,
                    dists_to::<K, D>(self@.keys, self@.keys[node as int]),
                    node,
                    num,
                ),
            ),
            is_knn(
                self@.adjacency,
                self.ranks(self@.keys[node as int]),
                node,
                num,
                found@.map_values(|e: (usize, D)| e.0),
            ),
            forall|i: int|
                0 <= i < found.len() ==> (#[trigger] found@[i]).1 == stored::<K, D>(
                    self@.keys[node as int],
                    self@.keys[found@[i].0 as int],
                ),
            num > 0 ==> found.len() > 0 && found@[0] == (node, D::narrowed(0)),
    {
        proof {
            self@.keys[node as int].lemma_dist_self();
            D::lemma_zero();
            self.lemma_own_rank(node);
        }
        let found = self.search_knn_from(layer, node, &self.nodes[node].key, num);
        proof {
            if num > 0 {
                let ids = found@.map_values(|e: (usize, D)| e.0);
                assert(ids[0] == node);
            }
        }
        found
    }

    /// A node has rank zero towards its own key, and so is where its own greedy
    /// descent ends.
    pub proof fn lemma_own_rank(&self, node: usize)
        requires
            self.sound(),
            node < self@.len(),
        ensures
            self.ranks(self@.keys[node as int])[node as int] == 0,
            stored::<K, D>(self@.keys[node as int], self@.keys[node as int]) == D::narrowed(0),
            greedy_end(self@.adjacency, self.ranks(self@.keys[node as int]), node) == node,
    {
        self@.keys[node as int].lemma_dist_self();
        D::lemma_zero();
        lemma_greedy_end(self@.adjacency, self.ranks(self@.keys[node as int]), node);
    }
}

} // verus!
