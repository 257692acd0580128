//! Taking a node out of the graph and connecting it anew through its former
//! neighbors.

use crate::detach::{detached, detached_upto, lemma_detached, lemma_detached_upto, lemma_detour};
use crate::graph::{extends, lemma_push_contains, lemma_with_edge, simple, with_edge};
use crate::local::with_edge_dedup;
use crate::greedy::{
    greedy_end, lemma_bottom_stays, lemma_greedy_end, lemma_greedy_same_above, lemma_greedy_through,
    lemma_greedy_zero_kept,
};
use crate::index::{Hrc, HrcView};
use crate::metric::{Distance, MetricPoint, ranks_to, stored};
use crate::reach::{
    connected, lemma_extends_chain, lemma_extends_self, lemma_reachable_chain,
    lemma_reachable_extends, lemma_reachable_self, lemma_reachable_step, lemma_reachable_symmetric,
    reachable,
};
use vstd::prelude::*;
use vstd::seq_lib::{to_multiset_contains, to_multiset_len};

verus! {

/// `slice::sort_unstable_by_key` with the distance as the key: the same entries, in
/// the order of their distances. The order among entries of equal distance is open.
#[verifier::external_body]
pub(crate) fn sort_by_distance<D: Distance>(neighbors: &mut Vec<(usize, D)>)
    ensures
        final(neighbors)@.to_multiset() == old(neighbors)@.to_multiset(),
        forall|i: int, j: int|
            0 <= i < j < final(neighbors)@.len() ==> (#[trigger] final(neighbors)@[i]).1.rank() <= (
            #[trigger] final(neighbors)@[j]).1.rank(),
{
    neighbors.sort_unstable_by_key(|entry| entry.1.widen());
}

/// The neighbors of `node` with their kept distances to it, in the order of its edge
/// list.
pub open spec fn neighbors_with_distances<K: MetricPoint, D: Distance>(
    adj: Seq<Seq<usize>>,
    keys: Seq<K>,
    node: usize,
) -> Seq<(usize, D)> {
    Seq::new(
        adj[node as int].len(),
        |i: int| (adj[node as int][i], stored::<K, D>(keys[node as int], keys[adj[node as int][i] as int])),
    )
}

/// Whether `order` holds the entries of `former`, by ascending distance.
pub open spec fn sorted_from<D: Distance>(former: Seq<(usize, D)>, order: Seq<(usize, D)>) -> bool {
    &&& order.to_multiset() == former.to_multiset()
    &&& forall|i: int, j: int|
        0 <= i < j < order.len() ==> (#[trigger] order[i]).1.rank() <= (#[trigger] order[j]).1.rank()
}

/// The graph after the node `node`, which was taken out, was connected anew through
/// the first `count` of its former neighbors in `order`: where the greedy descent
/// from a former neighbor towards `node` ends at another node, that node is linked
/// to `node`. `ranks` are the ranks towards the key of `node`.
pub open spec fn reconnected<D: Distance>(
    adj: Seq<Seq<usize>>,
    ranks: Seq<u64>,
    node: usize,
    order: Seq<(usize, D)>,
    count: nat,
) -> Seq<Seq<usize>>
    decreases count,
{
    if count == 0 {
        adj
    } else {
        let before = reconnected(adj, ranks, node, order, (count - 1) as nat);
        let end = greedy_end(before, ranks, order[count - 1].0);
        if end != node {
            with_edge_dedup(before, end, node)
        } else {
            before
        }
    }
}

/// Whether `after` is what the reinsertion of `node` makes of the graph `adj`: the
/// node is taken out and connected anew through its former neighbors by ascending
/// distance. The order among former neighbors of equal distance is open.
pub open spec fn reinserted<K: MetricPoint, D: Distance>(
    adj: Seq<Seq<usize>>,
    keys: Seq<K>,
    node: usize,
    after: Seq<Seq<usize>>,
) -> bool {
    if adj.len() == 1 {
        after == adj
    } else {
        exists|order: Seq<(usize, D)>| #[trigger]
            sorted_from(neighbors_with_distances::<K, D>(adj, keys, node), order) && after == reconnected(
                detached(adj, node),
                ranks_to::<K, D>(keys, keys[node as int]),
                node,
                order,
                order.len(),
            )
    }
}

impl<K: MetricPoint, V, D: Distance> Hrc<K, V, D> {
    /// Disconnects a node from the graph: removes the edge to it from each of its
    /// neighbors and empties its own edge list.
    ///
    /// Returns the former neighbors with their distances to the node.
    pub(crate) fn disconnect(&mut self, layer: usize, node: usize) -> (neighbors: Vec<(usize, D)>)
        requires
            old(self).sound(),
            layer == 0,
            node < old(self)@.len(),
        ensures
            final(self).sound(),
            final(self)@ == (HrcView {
                adjacency: detached(old(self)@.adjacency, node),
                edges: (old(self)@.edges - old(self)@.adjacency[node as int].len()) as usize,
                ..old(self)@
            }),
            old(self)@.edges >= old(self)@.adjacency[node as int].len(),
            neighbors@.len() == old(self)@.adjacency[node as int].len(),
            forall|i: int|
                0 <= i < neighbors@.len() ==> #[trigger] neighbors@[i] == (
                    old(self)@.adjacency[node as int][i],
                    stored::<K, D>(
                        old(self)@.keys[node as int],
                        old(self)@.keys[old(self)@.adjacency[node as int][i] as int],
                    ),
                ),
            neighbors@ == neighbors_with_distances::<K, D>(old(self)@.adjacency, old(self)@.keys, node),
    {
        let ghost adj = self@.adjacency;
        let ghost edges = adj[node as int];
        let mut neighbors: Vec<(usize, D)> = Vec::new();
        let degree = self.degree(layer, node);
        proof {
            lemma_detached(adj, node);
            lemma_detached_upto(adj, node, 0);
            assert(detached_upto(adj, node, 0) =~= adj);
        }
        self.edges = self.edges - degree;
        let mut index: usize = 0;
        while index < degree
            invariant
                self.shaped(),
                layer == 0,
                simple(adj),
                adj.len() <= usize::MAX,
                adj == old(self)@.adjacency,
                edges == adj[node as int],
                node < adj.len(),
                degree == edges.len(),
                index <= degree,
                self@ == (HrcView {
                    adjacency: detached_upto(adj, node, index as int),
                    edges: (old(self)@.edges - degree) as usize,
                    ..old(self)@
                }),
                self.most_edges == old(self).most_edges,
                neighbors@.len() == index,
                forall|i: int|
                    0 <= i < index ==> #[trigger] neighbors@[i] == (
                        edges[i],
                        stored::<K, D>(old(self)@.keys[node as int], old(self)@.keys[edges[i] as int]),
                    ),
            decreases degree - index,
        {
            proof {
                assert(detached_upto(adj, node, index as int)[node as int] == edges);
                assert(edges.contains(edges[index as int]));
                lemma_detached_upto(adj, node, index as int);
            }
            let neighbor = self.neighbor(layer, node, index);
            let distance: D = self.stored_distance(&self.nodes[node].key, neighbor);
            self.remove_edge(layer, neighbor, node);
            neighbors.push((neighbor, distance));
            index += 1;
        }
        self.clear_edges(layer, node);
        proof {
            assert(neighbors@ =~= neighbors_with_distances::<K, D>(old(self)@.adjacency, old(self)@.keys, node));
            assert forall|n: int| 0 <= n < self@.adjacency.len() implies (#[trigger] self@.adjacency[n]).len()
                <= self.most_edges by {
                crate::detach::lemma_without(adj[n], node);
                assert(adj[n].len() <= old(self).most_edges);
            }
        }
        neighbors
    }

    /// Removes a node from the graph and then reinserts it with the minimum number of
    /// edges on a particular layer: from each former neighbor, nearest first, a
    /// greedy descent towards the node is made to end at the node.
    pub fn reinsert(&mut self, layer: usize, node: usize)
        requires
            old(self).wf(),
            layer == 0,
            node < old(self)@.len(),
        ensures
            final(self).wf(),
            final(self)@.rewired_from(old(self)@),
            old(self)@.len() == 1 ==> final(self)@ == old(self)@,
            extends(detached(old(self)@.adjacency, node), final(self)@.adjacency),
            forall|i: int|
                0 <= i < old(self)@.adjacency[node as int].len() ==> old(self).ranks(
                    old(self)@.keys[node as int],
                )[greedy_end(
                    final(self)@.adjacency,
                    old(self).ranks(old(self)@.keys[node as int]),
                    #[trigger] old(self)@.adjacency[node as int][i],
                ) as int] == 0,
            reinserted::<K, D>(old(self)@.adjacency, old(self)@.keys, node, final(self)@.adjacency),
    {
        let ghost ranks = self.ranks(self@.keys[node as int]);
        proof {
            self.lemma_own_rank(node);
        }
        let ghost adj = self@.adjacency;
        let ghost out = detached(adj, node);
        let ghost len = self@.len();
        // This wont work if we only have 1 node.
        if self.len() == 1 {
            proof {
                lemma_detached(adj, node);
                assert(adj[0].len() == 0) by {
                    if adj[0].len() > 0 {
                        assert(adj[0].contains(adj[0][0]));
                    }
                }
                assert(adj[0] =~= Seq::<usize>::empty());
                assert(out =~= adj);
                lemma_extends_self(adj);
            }
            return ;
        }
        // Disconnect the node.
        let mut neighbors = self.disconnect(layer, node);
        let ghost former = neighbors@;
        // Sort the neighbors to minimize the number we insert.
        sort_by_distance(&mut neighbors);
        proof {
            to_multiset_len(former);
            to_multiset_len(neighbors@);
            assert forall|i: int| 0 <= i < neighbors@.len() implies former.contains(#[trigger] neighbors@[i]) by {
                assert(neighbors@.contains(neighbors@[i]));
                to_multiset_contains(neighbors@, neighbors@[i]);
                to_multiset_contains(former, neighbors@[i]);
            }
            assert forall|i: int| 0 <= i < former.len() implies neighbors@.contains(#[trigger] former[i]) by {
                assert(former.contains(former[i]));
                to_multiset_contains(neighbors@, former[i]);
                to_multiset_contains(former, former[i]);
            }
            lemma_extends_self(out);
        }
        let mut index: usize = 0;
        // Make sure each neighbor can connect greedily to prevent disconnected graphs.
        while index < neighbors.len()
            invariant
                self.sound(),
                self@.rewired_from(old(self)@),
                layer == 0,
                len == self@.len(),
                node < len,
                extends(out, self@.adjacency),
                index <= neighbors.len(),
                forall|i: int| 0 <= i < neighbors@.len() ==> former.contains(#[trigger] neighbors@[i]),
                former.len() == adj[node as int].len(),
                forall|i: int|
                    0 <= i < former.len() ==> #[trigger] former[i] == (
                        adj[node as int][i],
                        stored::<K, D>(self@.keys[node as int], self@.keys[adj[node as int][i] as int]),
                    ),
                simple(adj),
                adj.len() == len,
                forall|k: int| 0 <= k < index ==> reachable(self@.adjacency, (#[trigger] neighbors@[k]).0, node),
                ranks == self.ranks(self@.keys[node as int]),
                ranks[node as int] == 0,
                forall|k: int|
                    0 <= k < index ==> ranks[greedy_end(self@.adjacency, ranks, (#[trigger] neighbors@[k]).0) as int]
                        == 0,
                self@.adjacency == reconnected(out, ranks, node, neighbors@, index as nat),
            decreases neighbors.len() - index,
        {
            let ghost before = self@.adjacency;
            let (neighbor, distance) = neighbors[index];
            proof {
                let i = choose|i: int| 0 <= i < former.len() && former[i] == neighbors@[index as int];
                assert(adj[node as int].contains(adj[node as int][i]));
            }
            let (nn, _) = self.greedy_from(layer, neighbor, distance, &self.nodes[node].key);
            proof {
                lemma_greedy_end(before, self.ranks(self@.keys[node as int]), neighbor);
            }
            if nn != node {
                proof {
                    if !before[nn as int].contains(node) {
                        lemma_with_edge(before, nn, node);
                        lemma_extends_chain(out, before, with_edge(before, nn, node));
                        lemma_push_contains(before[nn as int], node, node);
                    }
                }
                self.add_edge_dedup(layer, nn, node);
            }
            proof {
                let after = self@.adjacency;
                assert forall|k: int| 0 <= k < index + 1 implies ranks[greedy_end(
                    after,
                    ranks,
                    (#[trigger] neighbors@[k]).0,
                ) as int] == 0 by {
                    let j = choose|j: int| 0 <= j < former.len() && former[j] == neighbors@[k];
                    assert(adj[node as int].contains(adj[node as int][j]));
                    if k < index {
                        if after != before {
                            lemma_greedy_zero_kept(before, ranks, neighbors@[k].0, nn, node);
                        }
                    } else if nn == node {
                    } else if before[nn as int].contains(node) {
                        assert(ranks[nn as int] == 0);
                    } else {
                        assert forall|u: int|
                            0 <= u < before.len() && ranks[u] > ranks[greedy_end(before, ranks, neighbor) as int] implies #[trigger] after[u]
                            == before[u] by {}
                        lemma_greedy_same_above(before, after, ranks, neighbor);
                        if ranks[nn as int] == 0 {
                            lemma_bottom_stays(after, ranks, nn);
                        } else {
                            assert forall|i: int| 0 <= i < after[nn as int].len() - 1 implies ranks[#[trigger] after[nn as int][i] as int]
                                > ranks[node as int] by {
                                assert(after[nn as int][i] == before[nn as int][i]);
                                assert(before[nn as int].contains(before[nn as int][i]));
                            }
                            lemma_greedy_through(after, ranks, nn, node);
                            lemma_bottom_stays(after, ranks, node);
                        }
                    }
                }
                assert forall|k: int| 0 <= k < index + 1 implies reachable(after, (#[trigger] neighbors@[k]).0, node) by {
                    if k < index {
                        assert(reachable(before, neighbors@[k].0, node));
                        lemma_reachable_extends(before, after, neighbors@[k].0, node);
                    } else {
                        lemma_reachable_extends(before, after, neighbor, nn);
                        if nn != node {
                            lemma_reachable_step(after, neighbor, nn, node);
                        }
                    }
                }
            }
            index += 1;
        }
        proof {
            assert(sorted_from(neighbors_with_distances::<K, D>(adj, self@.keys, node), neighbors@));
            let after = self@.adjacency;
            assert forall|i: int| 0 <= i < adj[node as int].len() implies ranks[greedy_end(
                after,
                ranks,
                #[trigger] adj[node as int][i],
            ) as int] == 0 by {
                assert(former[i].0 == adj[node as int][i]);
                assert(neighbors@.contains(former[i]));
                let k = choose|k: int| 0 <= k < neighbors@.len() && neighbors@[k] == former[i];
                assert(ranks[greedy_end(after, ranks, neighbors@[k].0) as int] == 0);
            }
            assert forall|x: usize| x < len implies reachable(after, node, x) by {
                if x == node {
                    lemma_reachable_self(after, node);
                } else {
                    let m = lemma_detour(adj, node, x);
                    let i = choose|i: int| 0 <= i < adj[node as int].len() && adj[node as int][i] == m;
                    assert(former[i].0 == m);
                    assert(neighbors@.contains(former[i]));
                    let k = choose|k: int| 0 <= k < neighbors@.len() && neighbors@[k] == former[i];
                    assert(reachable(after, neighbors@[k].0, node));
                    lemma_reachable_symmetric(after, m, node);
                    lemma_reachable_extends(out, after, m, x);
                    lemma_reachable_chain(after, node, m, x);
                }
            }
            assert forall|a: usize, b: usize| a < after.len() && b < after.len() implies #[trigger] reachable(
                after,
                a,
                b,
            ) by {
                lemma_reachable_symmetric(after, node, a);
                lemma_reachable_chain(after, a, node, b);
            }
        }
    }
}

} // verus!
