//! What holds of every index that the operations of this library produce.

use crate::cycle::is_cycle_order;
use crate::graph::degree_sum;
use crate::greedy::{greedy_end, lemma_greedy_end};
use crate::index::Hrc;
use crate::knn::is_knn;
use crate::local::steps_toward;
use crate::metric::{Distance, MetricPoint, stored};
use vstd::prelude::*;

verus! {

impl<K, V, D> Hrc<K, V, D> {
    /// Adjacency is symmetric: a neighbor of a node has that node as a neighbor.
    pub proof fn lemma_neighbors_mutual(&self, layer: usize, n: usize, m: usize)
        requires
            self.wf(),
            layer == 0,
            n < self@.len(),
            self@.adjacency[n as int].contains(m),
        ensures
            m < self@.len(),
            self@.adjacency[m as int].contains(n),
    {
    }

    /// No edge list holds a neighbor twice, and none holds its own node.
    pub proof fn lemma_neighbors_distinct(&self, layer: usize, n: usize)
        requires
            self.wf(),
            layer == 0,
            n < self@.len(),
        ensures
            self@.adjacency[n as int].no_duplicates(),
            !self@.adjacency[n as int].contains(n),
    {
    }

    /// The `next` links form exactly one cycle through all the nodes.
    pub proof fn lemma_single_cycle(&self)
        requires
            self.wf(),
        ensures
            exists|order: Seq<usize>| #[trigger] is_cycle_order(self@.next, order) && order.len() == self@.len(),
            self@.len() > 0 ==> self@.freshest < self@.len(),
    {
        if self@.len() == 0 {
            assert(is_cycle_order(self@.next, Seq::<usize>::empty()));
        } else {
            let order = choose|order: Seq<usize>| #[trigger]
                is_cycle_order(self@.next, order) && order.last() == self@.freshest;
            assert(order[order.len() - 1] < self@.next.len());
        }
    }

    /// The edge count is half the sum of the lengths of all edge lists.
    pub proof fn lemma_edges_counted(&self)
        requires
            self.wf(),
        ensures
            2 * self@.edges == degree_sum(self@.adjacency),
    {
    }

    /// The header of the edge list of a node names that node, and so leads to the
    /// node's own key.
    pub proof fn lemma_header_coherent(&self, layer: usize, n: usize)
        requires
            self.wf(),
            layer == 0,
            n < self@.len(),
        ensures
            self.header_node(layer, n) == n,
            self.header_key(layer, n) == self@.keys[n as int],
    {
        assert(self.nodes@[n as int].shaped(n as int));
    }
}

/// A k-nearest-neighbor result lists at most `num` nodes, each of them once, by
/// ascending distance.
pub proof fn lemma_knn_ordered(
    adj: Seq<Seq<usize>>,
    ranks: Seq<u64>,
    from: usize,
    num: usize,
    ids: Seq<usize>,
    i: int,
    j: int,
)
    requires
        is_knn(adj, ranks, from, num, ids),
        0 <= i < j < ids.len(),
    ensures
        ids.len() <= num,
        ids[i] != ids[j],
        ranks[ids[i] as int] <= ranks[ids[j] as int],
{
}

impl<K: MetricPoint, V, D: Distance> Hrc<K, V, D> {
    /// Where a greedy path from `from` to `to` exists, the greedy search from `from`
    /// for the key of `to` ends at distance zero: at `to`, or at a neighbor of `to`
    /// with the same key.
    pub proof fn lemma_path_found(&self, from: usize, to: usize)
        requires
            self.wf(),
            from < self@.len(),
            to < self@.len(),
            self.greedy_path(from, to),
        ensures
            ({
                let end = greedy_end(self@.adjacency, self.ranks(self@.keys[to as int]), from);
                &&& end < self@.len()
                &&& stored::<K, D>(self@.keys[to as int], self@.keys[end as int]).rank() == 0
                &&& end == to || self@.adjacency[end as int].contains(to)
            }),
    {
        lemma_greedy_end(self@.adjacency, self.ranks(self@.keys[to as int]), from);
    }

    /// Where from every node a step towards `to` exists, the greedy search from any
    /// node for the key of `to` ends at distance zero.
    pub proof fn lemma_steps_found(&self, from: usize, to: usize)
        requires
            self.wf(),
            from < self@.len(),
            to < self@.len(),
            forall|node: usize|
                node < self@.len() ==> #[trigger] steps_toward(
                    self@.adjacency,
                    self.ranks(self@.keys[to as int]),
                    node,
                    to,
                ),
        ensures
            ({
                let end = greedy_end(self@.adjacency, self.ranks(self@.keys[to as int]), from);
                &&& end < self@.len()
                &&& stored::<K, D>(self@.keys[to as int], self@.keys[end as int]).rank() == 0
            }),
    {
        let ranks = self.ranks(self@.keys[to as int]);
        let end = greedy_end(self@.adjacency, ranks, from);
        lemma_greedy_end(self@.adjacency, ranks, from);
        self.lemma_own_rank(to);
        assert(steps_toward(self@.adjacency, ranks, end, to));
    }
}

} // verus!
