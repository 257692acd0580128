//! Local optimization: links a node to its nearest neighbors until one of them is
//! closer to a target than the node itself.

use crate::graph::{
    degree_sum, extends, lemma_distinct_missing, lemma_push_contains, lemma_push_distinct,
    lemma_with_edge, with_edge,
};
use crate::greedy::{descents_kept, lemma_descents_kept, lemma_descents_kept_chain, local_minimum};
use crate::index::Hrc;
use crate::knn::{is_knn, lemma_knn_all, neighborhood_of};
use crate::metric::{Distance, MetricPoint, ranks_to};
use crate::optimize::{doubled, first_below, optimal_k_of, twice};
use crate::reach::{
    connected, lemma_connected_extends, lemma_extends_chain, lemma_extends_self,
    lemma_prefix_contains,
};
use crate::search::Target;
use vstd::pervasive::unreached;
use vstd::prelude::*;

verus! {

/// A list of distinct nodes of a graph of `len` nodes, none of them `node`.
pub open spec fn others_of(len: nat, node: usize, others: Seq<usize>) -> bool {
    &&& others.no_duplicates()
    &&& forall|i: int| 0 <= i < others.len() ==> (#[trigger] others[i]) < len && others[i] != node
}

/// Every node of `neighbors` is a neighbor of `node`.
pub open spec fn neighbors_in(adj: Seq<Seq<usize>>, node: usize, neighbors: Seq<usize>) -> bool {
    forall|i: int| 0 <= i < neighbors.len() ==> adj[node as int].contains(#[trigger] neighbors[i])
}

/// From `node` a step towards `target` exists: `node` is the target, or has the
/// target's key and is its neighbor, or has a neighbor that is closer to the
/// target's key than itself. `ranks` are the ranks towards the key of `target`.
pub open spec fn steps_toward(adj: Seq<Seq<usize>>, ranks: Seq<u64>, node: usize, target: usize) -> bool {
    ||| node == target
    ||| ranks[node as int] == 0 && adj[node as int].contains(target)
    ||| !local_minimum(adj, ranks, node)
}

/// A step towards a target stays when edge lists grow.
pub(crate) proof fn lemma_steps_extends(
    old_adj: Seq<Seq<usize>>,
    new_adj: Seq<Seq<usize>>,
    ranks: Seq<u64>,
    node: usize,
    target: usize,
)
    requires
        extends(old_adj, new_adj),
        node < old_adj.len(),
        steps_toward(old_adj, ranks, node, target),
    ensures
        steps_toward(new_adj, ranks, node, target),
{
    assert(old_adj[node as int].is_prefix_of(new_adj[node as int]));
    if node != target {
        if ranks[node as int] == 0 && old_adj[node as int].contains(target) {
            lemma_prefix_contains(old_adj[node as int], new_adj[node as int], target);
        } else {
            let m = choose|m: usize| #[trigger]
                old_adj[node as int].contains(m) && !(ranks[m as int] >= ranks[node as int]);
            lemma_prefix_contains(old_adj[node as int], new_adj[node as int], m);
        }
    }
}

/// The graph after `node` was optimized towards one target key: unless a neighbor of
/// `node` is closer to the target than `node` itself, the first node of `knn` that
/// is closer is linked to `node`. `ranks` are the ranks towards the target.
pub open spec fn keyed_once(adj: Seq<Seq<usize>>, ranks: Seq<u64>, node: usize, knn: Seq<usize>) -> Seq<
    Seq<usize>,
> {
    if !local_minimum(adj, ranks, node) {
        adj
    } else {
        match first_below(knn, ranks, ranks[node as int]) {
            Some(nn) => with_edge(adj, nn, node),
            None => adj,
        }
    }
}

/// The graph after `node` was optimized towards the first `count` of `targets`, in
/// turn.
pub open spec fn keyed<K: MetricPoint, D: Distance>(
    adj: Seq<Seq<usize>>,
    keys: Seq<K>,
    node: usize,
    knn: Seq<usize>,
    targets: Seq<K>,
    count: nat,
) -> Seq<Seq<usize>>
    decreases count,
{
    if count == 0 {
        adj
    } else {
        keyed_once(
            keyed::<K, D>(adj, keys, node, knn, targets, (count - 1) as nat),
            ranks_to::<K, D>(keys, targets[count - 1]),
            node,
            knn,
        )
    }
}

/// The graph after `node` was optimized towards each of `targets` with its default
/// neighborhood. Nothing is done where the node is the only one.
pub open spec fn keys_optimized<K: MetricPoint, D: Distance>(
    adj: Seq<Seq<usize>>,
    keys: Seq<K>,
    node: usize,
    targets: Seq<K>,
) -> Seq<Seq<usize>> {
    if adj.len() == 1 {
        adj
    } else {
        keyed::<K, D>(
            adj,
            keys,
            node,
            neighborhood_of::<K, D>(
                adj,
                keys,
                node,
                optimal_k_of((degree_sum(adj) / 2) as nat, adj.len()) as usize,
            ),
            targets,
            targets.len(),
        )
    }
}

/// The graph after each of the first `count` nodes was optimized towards each key
/// of `data`, in turn.
pub open spec fn trained<K: MetricPoint, D: Distance>(
    adj: Seq<Seq<usize>>,
    keys: Seq<K>,
    data: Seq<K>,
    count: nat,
) -> Seq<Seq<usize>>
    decreases count,
{
    if count == 0 {
        adj
    } else {
        keys_optimized::<K, D>(
            trained::<K, D>(adj, keys, data, (count - 1) as nat),
            keys,
            (count - 1) as usize,
            data,
        )
    }
}

/// The graph with the edge between `a` and `b`, which is added unless it is there.
pub open spec fn with_edge_dedup(adj: Seq<Seq<usize>>, a: usize, b: usize) -> Seq<Seq<usize>> {
    if adj[a as int].contains(b) {
        adj
    } else {
        with_edge(adj, a, b)
    }
}

/// The graph and the known neighbors after `node` was linked to the nodes of `knn`
/// in turn, up to the first that is closer to the target than `node`, and whether
/// there was one. A node that gets its edge to `node` by this is known.
pub open spec fn walked(
    adj: Seq<Seq<usize>>,
    neighbors: Seq<usize>,
    ranks: Seq<u64>,
    node: usize,
    knn: Seq<usize>,
) -> (Seq<Seq<usize>>, Seq<usize>, bool)
    decreases knn.len(),
{
    if knn.len() == 0 {
        (adj, neighbors, false)
    } else {
        let nn = knn[0];
        let linked = with_edge_dedup(adj, nn, node);
        let known = if adj[nn as int].contains(node) {
            neighbors
        } else {
            neighbors.push(nn)
        };
        if ranks[nn as int] < ranks[node as int] {
            (linked, known, true)
        } else {
            walked(linked, known, ranks, node, knn.subrange(1, knn.len() as int))
        }
    }
}

/// The state of the optimization of one node: the graph, the known neighbors of
/// the node, its neighborhood, and whether the neighborhood was searched anew.
pub struct Local {
    pub adj: Seq<Seq<usize>>,
    pub neighbors: Seq<usize>,
    pub knn: Seq<usize>,
    pub regrown: bool,
}

/// The state after `node` was linked to the nodes of its neighborhood until one of
/// them was closer to the target than `node`, where a neighborhood without such a
/// node gives way to one searched with twice the quality and one. `len` is the
/// number of nodes.
pub open spec fn regrowing<K: MetricPoint, D: Distance>(
    state: Local,
    keys: Seq<K>,
    ranks: Seq<u64>,
    node: usize,
    len: nat,
) -> Local
    decreases
            (if state.knn.len() < len {
                len - state.knn.len()
            } else {
                0
            }),
{
    let (linked, known, reached) = walked(state.adj, state.neighbors, ranks, node, state.knn);
    if reached {
        Local { adj: linked, neighbors: known, ..state }
    } else {
        let larger = neighborhood_of::<K, D>(linked, keys, node, twice((state.knn.len() + 1) as usize));
        let next = Local { adj: linked, neighbors: known, knn: larger, regrown: true };
        if larger.len() > state.knn.len() && state.knn.len() < len {
            regrowing::<K, D>(next, keys, ranks, node, len)
        } else {
            next
        }
    }
}

/// The state after a step from `node` towards `target` was made to exist: a node
/// with the key of the target is linked to the target; a node that has a known
/// neighbor closer to the target is left as it is; any other node is linked to its
/// neighborhood until one of it is closer to the target.
#[verifier::opaque]
pub open spec fn broken_through<K: MetricPoint, D: Distance>(
    state: Local,
    keys: Seq<K>,
    node: usize,
    target: usize,
) -> Local {
    let ranks = ranks_to::<K, D>(keys, keys[target as int]);
    if ranks[node as int] == 0 {
        Local { adj: with_edge_dedup(state.adj, node, target), regrown: false, ..state }
    } else if first_below(state.neighbors, ranks, ranks[node as int]).is_some() {
        Local { regrown: false, ..state }
    } else {
        regrowing::<K, D>(Local { regrown: false, ..state }, keys, ranks, node, state.adj.len())
    }
}

/// The state after a step from `node` towards `target` was made to exist, if they
/// are two nodes.
pub open spec fn toward_node<K: MetricPoint, D: Distance>(
    state: Local,
    keys: Seq<K>,
    node: usize,
    target: usize,
) -> Local {
    if node == target {
        Local { regrown: false, ..state }
    } else {
        broken_through::<K, D>(Local { regrown: false, ..state }, keys, node, target)
    }
}

/// The state after steps from `node` towards each of the first `count` nodes of the
/// graph were made to exist, in turn.
pub open spec fn against_all<K: MetricPoint, D: Distance>(
    state: Local,
    keys: Seq<K>,
    node: usize,
    count: nat,
) -> Local
    decreases count,
{
    if count == 0 {
        state
    } else {
        toward_node::<K, D>(
            against_all::<K, D>(state, keys, node, (count - 1) as nat),
            keys,
            node,
            (count - 1) as usize,
        )
    }
}

/// The state after steps from `node` towards each of the first `count` nodes of its
/// neighborhood were made to exist, in turn.
pub open spec fn against_knn<K: MetricPoint, D: Distance>(
    state: Local,
    keys: Seq<K>,
    node: usize,
    count: nat,
) -> Local
    decreases count,
{
    if count == 0 {
        state
    } else {
        let before = against_knn::<K, D>(state, keys, node, (count - 1) as nat);
        broken_through::<K, D>(Local { regrown: false, ..before }, keys, node, state.knn[count - 1])
    }
}

/// The graph after `node` was optimized against its default neighborhood.
pub open spec fn neighborhood_optimized<K: MetricPoint, D: Distance>(
    adj: Seq<Seq<usize>>,
    keys: Seq<K>,
    node: usize,
) -> Seq<Seq<usize>> {
    let knn = neighborhood_of::<K, D>(
        adj,
        keys,
        node,
        optimal_k_of((degree_sum(adj) / 2) as nat, adj.len()) as usize,
    );
    against_knn::<K, D>(
        Local { adj, neighbors: adj[node as int], knn, regrown: false },
        keys,
        node,
        knn.len(),
    ).adj
}

/// The graph after `node` was optimized against every node, beginning with its
/// default neighborhood.
pub open spec fn everything_optimized<K: MetricPoint, D: Distance>(
    adj: Seq<Seq<usize>>,
    keys: Seq<K>,
    node: usize,
) -> Seq<Seq<usize>> {
    let knn = neighborhood_of::<K, D>(
        adj,
        keys,
        node,
        optimal_k_of((degree_sum(adj) / 2) as nat, adj.len()) as usize,
    );
    against_all::<K, D>(
        Local { adj, neighbors: adj[node as int], knn, regrown: false },
        keys,
        node,
        adj.len(),
    ).adj
}

/// A node that is no local minimum stays none when edge lists grow.
pub(crate) proof fn lemma_minimum_extends(
    old_adj: Seq<Seq<usize>>,
    new_adj: Seq<Seq<usize>>,
    ranks: Seq<u64>,
    node: usize,
)
    requires
        extends(old_adj, new_adj),
        node < old_adj.len(),
        !local_minimum(old_adj, ranks, node),
    ensures
        !local_minimum(new_adj, ranks, node),
{
    assert(old_adj[node as int].is_prefix_of(new_adj[node as int]));
    let m = choose|m: usize| #[trigger]
        old_adj[node as int].contains(m) && !(ranks[m as int] >= ranks[node as int]);
    lemma_prefix_contains(old_adj[node as int], new_adj[node as int], m);
}

/// A list of all but one of the other nodes holds each of them.
pub(crate) proof fn lemma_others_full(len: nat, node: usize, others: Seq<usize>, x: usize)
    requires
        others_of(len, node, others),
        node < len,
        others.len() + 1 >= len,
        x < len,
        x != node,
    ensures
        others.contains(x),
{
    if !others.contains(x) {
        let longer = others.push(x);
        lemma_push_distinct(others, x);
        assert forall|i: int| 0 <= i < longer.len() implies longer[i] < len by {
            if i < others.len() {
                assert(others[i] < len);
            }
        }
        if longer.contains(node) {
            lemma_push_contains(others, x, node);
            let i = choose|i: int| 0 <= i < others.len() && others[i] == node;
            assert(others[i] != node);
        }
        lemma_distinct_missing(longer, len, node);
    }
}

/// A list of other nodes is shorter than the graph.
pub(crate) proof fn lemma_others_bound(len: nat, node: usize, others: Seq<usize>)
    requires
        others_of(len, node, others),
        node < len,
    ensures
        others.len() < len,
{
    if others.contains(node) {
        let i = choose|i: int| 0 <= i < others.len() && others[i] == node;
        assert(others[i] != node);
    }
    lemma_distinct_missing(others, len, node);
}

/// What a search around `node` found besides the node itself is a list of other nodes.
pub(crate) proof fn lemma_knn_others(
    adj: Seq<Seq<usize>>,
    ranks: Seq<u64>,
    node: usize,
    num: usize,
    others: Seq<usize>,
)
    requires
        num > 0,
        is_knn(adj, ranks, node, num, seq![node] + others),
    ensures
        others_of(adj.len(), node, others),
{
    let ids = seq![node] + others;
    assert forall|i: int| 0 <= i < others.len() implies (#[trigger] others[i]) < adj.len() && others[i]
        != node by {
        assert(ids[i + 1] == others[i]);
        assert(ids[0] == node);
    }
    assert forall|i: int, j: int| 0 <= i < others.len() && 0 <= j < others.len() && i != j implies others[i]
        != others[j] by {
        assert(ids[i + 1] == others[i]);
        assert(ids[j + 1] == others[j]);
    }
}

impl<K: MetricPoint, V, D: Distance> Hrc<K, V, D> {
    /// Whether one of `neighbors` is closer to the target than `bound`.
    pub(crate) fn any_closer(&self, target: &Target<K>, neighbors: &Vec<usize>, bound: D) -> (closer: bool)
        requires
            self.target_ok(*target),
            forall|i: int| 0 <= i < neighbors.len() ==> neighbors@[i] < self@.len(),
        ensures
            closer == exists|i: int|
                0 <= i < neighbors.len() && self.ranks(self.target_key(*target))[#[trigger] neighbors@[i] as int]
                    < bound.rank(),
            closer == first_below(neighbors@, self.ranks(self.target_key(*target)), bound.rank()).is_some(),
    {
        match self.first_closer(target, neighbors, bound) {
            Some((node, _)) => {
                proof {
                    let i = choose|i: int| 0 <= i < neighbors.len() && neighbors@[i] == node;
                    assert(self.ranks(self.target_key(*target))[neighbors@[i] as int] < bound.rank());
                }
                true
            },
            None => false,
        }
    }

    /// Links `node` to the nodes of `knn`, nearest first, until one of them is closer
    /// to the target than `node`, whose distance to the target is `to_beat`. Returns
    /// whether one was.
    pub(crate) fn link_until_closer(
        &mut self,
        layer: usize,
        node: usize,
        target_node: usize,
        to_beat: D,
        knn: &Vec<usize>,
        neighbors: &mut Vec<usize>,
    ) -> (reached: bool)
        requires
            old(self).wf(),
            layer == 0,
            node < old(self)@.len(),
            target_node < old(self)@.len(),
            to_beat.rank() == old(self).ranks(old(self)@.keys[target_node as int])[node as int],
            others_of(old(self)@.len(), node, knn@),
            neighbors_in(old(self)@.adjacency, node, old(neighbors)@),
        ensures
            final(self).wf(),
            final(self)@.grown_from(old(self)@),
            neighbors_in(final(self)@.adjacency, node, final(neighbors)@),
            reached ==> !local_minimum(
                final(self)@.adjacency,
                old(self).ranks(old(self)@.keys[target_node as int]),
                node,
            ),
            !reached ==> forall|j: int|
                0 <= j < knn.len() ==> old(self).ranks(old(self)@.keys[target_node as int])[#[trigger] knn@[j] as int]
                    >= to_beat.rank(),
            (final(self)@.adjacency, final(neighbors)@, reached) == walked(
                old(self)@.adjacency,
                old(neighbors)@,
                old(self).ranks(old(self)@.keys[target_node as int]),
                node,
                knn@,
            ),
            descents_kept(
                old(self)@.adjacency,
                final(self)@.adjacency,
                old(self).ranks(old(self)@.keys[node as int]),
            ),
    {
        let ghost ranks = self.ranks(self@.keys[target_node as int]);
        let ghost own = self.ranks(self@.keys[node as int]);
        let ghost len = self@.len();
        let ghost answer = walked(self@.adjacency, neighbors@, ranks, node, knn@);
        let target = Target::Node(target_node);
        proof {
            assert(knn@.subrange(0, knn@.len() as int) =~= knn@);
            self.lemma_own_rank(node);
        }
        proof {
            lemma_extends_self(self@.adjacency);
        }
        let mut index: usize = 0;
        // Go through the nearest neighbors in order from best to worst.
        while index < knn.len()
            invariant
                self.wf(),
                self@.grown_from(old(self)@),
                layer == 0,
                len == self@.len(),
                node < len,
                target_node < len,
                ranks == self.ranks(self@.keys[target_node as int]),
                to_beat.rank() == ranks[node as int],
                others_of(len, node, knn@),
                neighbors_in(self@.adjacency, node, neighbors@),
                target == Target::<K>::Node(target_node),
                index <= knn.len(),
                forall|j: int| 0 <= j < index ==> ranks[#[trigger] knn@[j] as int] >= to_beat.rank(),
                answer == walked(old(self)@.adjacency, old(neighbors)@, ranks, node, knn@),
                answer == walked(
                    self@.adjacency,
                    neighbors@,
                    ranks,
                    node,
                    knn@.subrange(index as int, knn@.len() as int),
                ),
                own == self.ranks(self@.keys[node as int]),
                own[node as int] == 0,
                descents_kept(old(self)@.adjacency, self@.adjacency, own),
            decreases knn.len() - index,
        {
            let nn = knn[index];
            proof {
                let rest = knn@.subrange(index as int, knn@.len() as int);
                assert(rest[0] == nn);
                assert(rest.subrange(1, rest.len() as int) =~= knn@.subrange(index as int + 1, knn@.len() as int));
            }
            // Compute the distance to the target from the nn.
            let nn_distance: D = self.target_distance(&target, nn);
            // Add the node as a neighbor (closer or not).
            let ghost before = self@.adjacency;
            proof {
                if before[nn as int].contains(node) {
                    assert(before[node as int].contains(nn));
                } else {
                    lemma_with_edge(before, nn, node);
                    lemma_connected_extends(before, with_edge(before, nn, node));
                    lemma_extends_chain(old(self)@.adjacency, before, with_edge(before, nn, node));
                    assert forall|i: int| 0 <= i < neighbors@.len() implies with_edge(before, nn, node)[node as int].contains(
                        #[trigger] neighbors@[i],
                    ) by {
                        lemma_push_contains(before[node as int], nn, neighbors@[i]);
                    }
                    lemma_push_contains(before[node as int], nn, nn);
                    lemma_descents_kept(before, own, nn, node);
                    lemma_descents_kept_chain(
                        old(self)@.adjacency,
                        before,
                        with_edge(before, nn, node),
                        own,
                    );
                }
            }
            if self.add_edge_dedup(layer, nn, node) {
                neighbors.push(nn);
            }
            // Check if this node is closer to the target than `node`.
            if nn_distance.widen() < to_beat.widen() {
                // The greedy path now exists, so exit.
                proof {
                    assert(self@.adjacency[node as int].contains(nn));
                    assert(answer == (self@.adjacency, neighbors@, true));
                }
                return true;
            }
            index += 1;
        }
        proof {
            assert(knn@.subrange(knn@.len() as int, knn@.len() as int).len() == 0);
        }
        false
    }

    /// Makes a step from `node` towards `target_node` exist: links `node` to the
    /// nodes of `knn`, nearest first, until one of them is closer to the target than
    /// `node`, and looks for a larger `knn` around `node` where none of them is.
    /// Returns whether `knn` was replaced.
    pub(crate) fn break_through(
        &mut self,
        layer: usize,
        node: usize,
        target_node: usize,
        knn: &mut Vec<usize>,
        neighbors: &mut Vec<usize>,
    ) -> (regrown: bool)
        requires
            old(self).wf(),
            layer == 0,
            node < old(self)@.len(),
            target_node < old(self)@.len(),
            node != target_node,
            others_of(old(self)@.len(), node, old(knn)@),
            neighbors_in(old(self)@.adjacency, node, old(neighbors)@),
        ensures
            final(self).wf(),
            final(self)@.grown_from(old(self)@),
            others_of(old(self)@.len(), node, final(knn)@),
            neighbors_in(final(self)@.adjacency, node, final(neighbors)@),
            steps_toward(
                final(self)@.adjacency,
                old(self).ranks(old(self)@.keys[target_node as int]),
                node,
                target_node,
            ),
            !regrown ==> final(knn)@ == old(knn)@,
            old(knn)@.contains(target_node) ==> !regrown,
            descents_kept(
                old(self)@.adjacency,
                final(self)@.adjacency,
                old(self).ranks(old(self)@.keys[node as int]),
            ),
            (Local {
                adj: final(self)@.adjacency,
                neighbors: final(neighbors)@,
                knn: final(knn)@,
                regrown,
            }) == broken_through::<K, D>(
                Local {
                    adj: old(self)@.adjacency,
                    neighbors: old(neighbors)@,
                    knn: old(knn)@,
                    regrown: false,
                },
                old(self)@.keys,
                node,
                target_node,
            ),
    {
        let ghost ranks = self.ranks(self@.keys[target_node as int]);
        let ghost len = self@.len();
        let ghost given = Local {
            adj: self@.adjacency,
            neighbors: neighbors@,
            knn: knn@,
            regrown: false,
        };
        let ghost answer = broken_through::<K, D>(given, self@.keys, node, target_node);
        let ghost own = self.ranks(self@.keys[node as int]);
        proof {
            reveal(broken_through);
            self.lemma_own_rank(node);
        }
        let target = Target::Node(target_node);
        let zero: D = D::narrow(0);
        proof {
            self.lemma_own_rank(target_node);
            D::lemma_zero();
            lemma_extends_self(self@.adjacency);
        }
        // Get this node's distance.
        let to_beat: D = D::narrow(self.nodes[node].key.distance(&self.nodes[target_node].key));
        proof {
            self@.keys[node as int].lemma_dist_symmetric(&self@.keys[target_node as int]);
            assert(to_beat.rank() == ranks[node as int]);
        }
        // Check if the node is colocated.
        if to_beat.widen() == zero.widen() {
            // In this case, add an edge (with dedup) between them to make sure there is a path.
            proof {
                let before = self@.adjacency;
                if !before[node as int].contains(target_node) {
                    lemma_with_edge(before, node, target_node);
                    lemma_descents_kept(before, own, node, target_node);
                    lemma_connected_extends(before, with_edge(before, node, target_node));
                    assert(with_edge(before, node, target_node)[node as int].contains(target_node)) by {
                        lemma_push_contains(before[node as int], target_node, target_node);
                    }
                    assert forall|i: int| 0 <= i < neighbors@.len() implies with_edge(
                        before,
                        node,
                        target_node,
                    )[node as int].contains(#[trigger] neighbors@[i]) by {
                        lemma_push_contains(before[node as int], target_node, neighbors@[i]);
                    }
                }
            }
            self.add_edge_dedup(layer, node, target_node);
            return false;
        }
        proof {
            assert forall|i: int| 0 <= i < neighbors.len() implies neighbors@[i] < self@.len() by {
                assert(self@.adjacency[node as int].contains(neighbors@[i]));
            }
        }
        if self.any_closer(&target, neighbors, to_beat) {
            // If any are better, then no optimization needed.
            proof {
                let i = choose|i: int| 0 <= i < neighbors.len() && ranks[#[trigger] neighbors@[i] as int] < to_beat.rank();
                assert(self@.adjacency[node as int].contains(neighbors@[i]));
            }
            return false;
        }
        // Otherwise, lets find the closest neighbor to `node` that is closer to `target` than `node` is.
        let mut regrown = false;
        loop
            invariant
                self.wf(),
                self@.grown_from(old(self)@),
                layer == 0,
                len == self@.len(),
                len == old(self)@.len(),
                node < len,
                target_node < len,
                node != target_node,
                ranks == self.ranks(self@.keys[target_node as int]),
                ranks[target_node as int] == 0,
                to_beat.rank() == ranks[node as int],
                to_beat.rank() > 0,
                others_of(len, node, knn@),
                neighbors_in(self@.adjacency, node, neighbors@),
                !regrown ==> knn@ == old(knn)@,
                regrown ==> !old(knn)@.contains(target_node),
                own == self.ranks(self@.keys[node as int]),
                descents_kept(old(self)@.adjacency, self@.adjacency, own),
                answer == broken_through::<K, D>(given, old(self)@.keys, node, target_node),
                given == (Local {
                    adj: old(self)@.adjacency,
                    neighbors: old(neighbors)@,
                    knn: old(knn)@,
                    regrown: false,
                }),
                answer == regrowing::<K, D>(
                    Local { adj: self@.adjacency, neighbors: neighbors@, knn: knn@, regrown },
                    self@.keys,
                    ranks,
                    node,
                    len,
                ),
            decreases len - knn.len(),
        {
            let ghost before = self@.adjacency;
            let ghost state = Local { adj: self@.adjacency, neighbors: neighbors@, knn: knn@, regrown };
            if self.link_until_closer(layer, node, target_node, to_beat, knn, neighbors) {
                proof {
                    lemma_extends_chain(old(self)@.adjacency, before, self@.adjacency);
                    lemma_descents_kept_chain(old(self)@.adjacency, before, self@.adjacency, own);
                    assert(answer == Local { adj: self@.adjacency, neighbors: neighbors@, ..state });
                }
                return regrown;
            }
            proof {
                lemma_extends_chain(old(self)@.adjacency, before, self@.adjacency);
                lemma_descents_kept_chain(old(self)@.adjacency, before, self@.adjacency, own);
                lemma_others_bound(len, node, knn@);
            }
            self.regrow(layer, node, target_node, to_beat, knn);
            regrown = true;
            proof {
                lemma_others_bound(len, node, knn@);
            }
        }
    }

    /// Replaces a neighborhood of `node` none of which is closer to the target than
    /// `node` by one that is searched with twice the quality and one. In a connected
    /// graph that one is larger.
    pub(crate) fn regrow(&self, layer: usize, node: usize, target_node: usize, to_beat: D, knn: &mut Vec<usize>)
        requires
            self.wf(),
            layer == 0,
            node < self@.len(),
            target_node < self@.len(),
            node != target_node,
            others_of(self@.len(), node, old(knn)@),
            self.ranks(self@.keys[target_node as int])[target_node as int] < to_beat.rank(),
            forall|j: int|
                0 <= j < old(knn)@.len() ==> self.ranks(self@.keys[target_node as int])[#[trigger] old(knn)@[j] as int]
                    >= to_beat.rank(),
        ensures
            others_of(self@.len(), node, final(knn)@),
            final(knn)@ == neighborhood_of::<K, D>(
                self@.adjacency,
                self@.keys,
                node,
                twice((old(knn)@.len() + 1) as usize),
            ),
            final(knn)@.len() > old(knn)@.len(),
            old(knn)@.len() + 1 < self@.len(),
            !old(knn)@.contains(target_node),
    {
        let ghost len = self@.len();
        let ghost ranks = self.ranks(self@.keys[target_node as int]);
        let before_len = knn.len();
        proof {
            lemma_others_bound(len, node, knn@);
            if knn@.contains(target_node) {
                let j = choose|j: int| 0 <= j < knn@.len() && knn@[j] == target_node;
                assert(ranks[knn@[j] as int] >= to_beat.rank());
            }
            if before_len + 1 >= len {
                lemma_others_full(len, node, knn@, target_node);
            }
        }
        // Every other node was tried: one of them is the target.
        if before_len == self.len() - 1 {
            unreached::<()>()
        }
        // Double the knn space.
        let num = doubled(knn.len() + 1);
        let larger = self.neighborhood(layer, node, num);
        proof {
            let own = self.ranks(self@.keys[node as int]);
            let ids = seq![node] + larger@;
            lemma_knn_others(self@.adjacency, own, node, num, larger@);
            if ids.len() < num {
                lemma_knn_all(self@.adjacency, own, node, num, ids);
            }
            assert(larger@.len() > before_len);
        }
        *knn = larger;
        // The graph is connected: the larger search found more.
        if before_len == knn.len() {
            unreached::<()>()
        }
    }

    /// Makes a step from `node` towards the node `target_node` exist. Returns whether
    /// `knn` was replaced.
    pub(crate) fn optimize_local_target_node(
        &mut self,
        layer: usize,
        node: usize,
        target_node: usize,
        knn: &mut Vec<usize>,
        neighbors: &mut Vec<usize>,
    ) -> (regrown: bool)
        requires
            old(self).wf(),
            layer == 0,
            node < old(self)@.len(),
            target_node < old(self)@.len(),
            others_of(old(self)@.len(), node, old(knn)@),
            neighbors_in(old(self)@.adjacency, node, old(neighbors)@),
        ensures
            final(self).wf(),
            final(self)@.grown_from(old(self)@),
            others_of(old(self)@.len(), node, final(knn)@),
            neighbors_in(final(self)@.adjacency, node, final(neighbors)@),
            steps_toward(
                final(self)@.adjacency,
                old(self).ranks(old(self)@.keys[target_node as int]),
                node,
                target_node,
            ),
            (Local {
                adj: final(self)@.adjacency,
                neighbors: final(neighbors)@,
                knn: final(knn)@,
                regrown,
            }) == toward_node::<K, D>(
                Local {
                    adj: old(self)@.adjacency,
                    neighbors: old(neighbors)@,
                    knn: old(knn)@,
                    regrown: false,
                },
                old(self)@.keys,
                node,
                target_node,
            ),
    {
        // Make sure they arent the same node.
        if node == target_node {
            proof {
                lemma_extends_self(self@.adjacency);
            }
            return false;
        }
        self.break_through(layer, node, target_node, knn, neighbors)
    }

    /// Makes a step from `node` towards each node of `knn` exist, in the order of
    /// `knn`.
    pub(crate) fn optimize_local_target_neighborhood(
        &mut self,
        layer: usize,
        node: usize,
        knn: &mut Vec<usize>,
        neighbors: &mut Vec<usize>,
    )
        requires
            old(self).wf(),
            layer == 0,
            node < old(self)@.len(),
            others_of(old(self)@.len(), node, old(knn)@),
            neighbors_in(old(self)@.adjacency, node, old(neighbors)@),
        ensures
            final(self).wf(),
            final(self)@.grown_from(old(self)@),
            final(knn)@ == old(knn)@,
            neighbors_in(final(self)@.adjacency, node, final(neighbors)@),
            forall|j: int|
                0 <= j < old(knn)@.len() ==> steps_toward(
                    final(self)@.adjacency,
                    old(self).ranks(old(self)@.keys[#[trigger] old(knn)@[j] as int]),
                    node,
                    old(knn)@[j],
                ),
            descents_kept(
                old(self)@.adjacency,
                final(self)@.adjacency,
                old(self).ranks(old(self)@.keys[node as int]),
            ),
            (Local {
                adj: final(self)@.adjacency,
                neighbors: final(neighbors)@,
                knn: final(knn)@,
                regrown: false,
            }) == against_knn::<K, D>(
                Local {
                    adj: old(self)@.adjacency,
                    neighbors: old(neighbors)@,
                    knn: old(knn)@,
                    regrown: false,
                },
                old(self)@.keys,
                node,
                old(knn)@.len(),
            ),
    {
        let ghost len = self@.len();
        let ghost given = Local {
            adj: self@.adjacency,
            neighbors: neighbors@,
            knn: knn@,
            regrown: false,
        };
        proof {
            lemma_extends_self(self@.adjacency);
        }
        let mut knn_index: usize = 0;
        while knn_index < knn.len()
            invariant
                self.wf(),
                self@.grown_from(old(self)@),
                layer == 0,
                len == self@.len(),
                node < len,
                knn@ == old(knn)@,
                others_of(len, node, knn@),
                neighbors_in(self@.adjacency, node, neighbors@),
                knn_index <= knn.len(),
                given == (Local {
                    adj: old(self)@.adjacency,
                    neighbors: old(neighbors)@,
                    knn: old(knn)@,
                    regrown: false,
                }),
                (Local { adj: self@.adjacency, neighbors: neighbors@, knn: knn@, regrown: false })
                    == against_knn::<K, D>(given, self@.keys, node, knn_index as nat),
                descents_kept(
                    old(self)@.adjacency,
                    self@.adjacency,
                    old(self).ranks(old(self)@.keys[node as int]),
                ),
                forall|j: int|
                    0 <= j < knn_index ==> steps_toward(
                        self@.adjacency,
                        self.ranks(self@.keys[#[trigger] knn@[j] as int]),
                        node,
                        knn@[j],
                    ),
            decreases knn.len() - knn_index,
        {
            let target_node = knn[knn_index];
            let ghost before = self@.adjacency;
            let ghost targets = knn@;
            proof {
                assert(knn@.contains(knn@[knn_index as int]));
            }
            let regrown = self.break_through(layer, node, target_node, knn, neighbors);
            proof {
                lemma_extends_chain(old(self)@.adjacency, before, self@.adjacency);
                lemma_descents_kept_chain(
                    old(self)@.adjacency,
                    before,
                    self@.adjacency,
                    old(self).ranks(old(self)@.keys[node as int]),
                );
                assert forall|j: int| 0 <= j < knn_index implies steps_toward(
                    self@.adjacency,
                    self.ranks(self@.keys[#[trigger] knn@[j] as int]),
                    node,
                    knn@[j],
                ) by {
                    lemma_steps_extends(
                        before,
                        self@.adjacency,
                        self.ranks(self@.keys[knn@[j] as int]),
                        node,
                        knn@[j],
                    );
                }
            }
            if regrown {
                // The search began anew with a larger neighborhood.
                knn_index = 1;
            } else {
                knn_index += 1;
            }
        }
    }

    /// Optimizes a node by discovering local minima, and then breaking through all
    /// the local minima to the closest neighbor which is closer to the target.
    ///
    /// Runs this against its neighborhood: the nearest nodes that a search around
    /// the node finds.
    pub fn optimize_against_neighborhood(&mut self, layer: usize, node: usize)
        requires
            old(self).wf(),
            layer == 0,
            node < old(self)@.len(),
        ensures
            final(self).wf(),
            final(self)@.grown_from(old(self)@),
            exists|others: Seq<usize>| #[trigger]
                is_knn(
                    old(self)@.adjacency,
                    old(self).ranks(old(self)@.keys[node as int]),
                    node,
                    optimal_k_of(old(self)@.edges as nat, old(self)@.len()) as usize,
                    seq![node] + others,
                ) && forall|j: int|
                    0 <= j < others.len() ==> steps_toward(
                        final(self)@.adjacency,
                        old(self).ranks(old(self)@.keys[#[trigger] others[j] as int]),
                        node,
                        others[j],
                    ),
            final(self)@.adjacency == neighborhood_optimized::<K, D>(
                old(self)@.adjacency,
                old(self)@.keys,
                node,
            ),
    {
        let num = self.optimal_k();
        let mut knn = self.neighborhood(layer, node, num);
        let mut neighbors = self.neighbors_of(layer, node);
        let ghost others = knn@;
        proof {
            lemma_knn_others(self@.adjacency, self.ranks(self@.keys[node as int]), node, num, knn@);
            assert(self@.edges == degree_sum(self@.adjacency) / 2);
        }
        self.optimize_local_target_neighborhood(layer, node, &mut knn, &mut neighbors);
        proof {
            assert(is_knn(
                old(self)@.adjacency,
                old(self).ranks(old(self)@.keys[node as int]),
                node,
                optimal_k_of(old(self)@.edges as nat, old(self)@.len()) as usize,
                seq![node] + others,
            ));
        }
    }

    /// Optimizes a node by discovering local minima, and then breaking through all
    /// the local minima to the closest neighbor which is closer to the target.
    ///
    /// Runs this against every other graph node.
    pub fn optimize_against_everything(&mut self, layer: usize, node: usize)
        requires
            old(self).wf(),
            layer == 0,
            node < old(self)@.len(),
        ensures
            final(self).wf(),
            final(self)@.grown_from(old(self)@),
            forall|target: usize|
                target < old(self)@.len() ==> #[trigger] steps_toward(
                    final(self)@.adjacency,
                    old(self).ranks(old(self)@.keys[target as int]),
                    node,
                    target,
                ),
            final(self)@.adjacency == everything_optimized::<K, D>(
                old(self)@.adjacency,
                old(self)@.keys,
                node,
            ),
    {
        let num = self.optimal_k();
        let mut knn = self.neighborhood(layer, node, num);
        let mut neighbors = self.neighbors_of(layer, node);
        let ghost given = Local {
            adj: self@.adjacency,
            neighbors: neighbors@,
            knn: knn@,
            regrown: false,
        };
        let mut regrown = false;
        proof {
            assert(self@.edges == degree_sum(self@.adjacency) / 2);
            lemma_knn_others(self@.adjacency, self.ranks(self@.keys[node as int]), node, num, knn@);
            lemma_extends_self(self@.adjacency);
        }
        let len = self.len();
        let mut target: usize = 0;
        while target < len
            invariant
                self.wf(),
                self@.grown_from(old(self)@),
                layer == 0,
                len == self@.len(),
                node < len,
                target <= len,
                others_of(len as nat, node, knn@),
                neighbors_in(self@.adjacency, node, neighbors@),
                given.adj == old(self)@.adjacency,
                (Local { adj: self@.adjacency, neighbors: neighbors@, knn: knn@, regrown })
                    == against_all::<K, D>(given, self@.keys, node, target as nat),
                forall|t: usize|
                    t < target ==> #[trigger] steps_toward(
                        self@.adjacency,
                        old(self).ranks(old(self)@.keys[t as int]),
                        node,
                        t,
                    ),
            decreases len - target,
        {
            let ghost before = self@.adjacency;
            regrown = self.optimize_local_target_node(layer, node, target, &mut knn, &mut neighbors);
            proof {
                lemma_extends_chain(old(self)@.adjacency, before, self@.adjacency);
                assert forall|t: usize| t < target implies #[trigger] steps_toward(
                    self@.adjacency,
                    old(self).ranks(old(self)@.keys[t as int]),
                    node,
                    t,
                ) by {
                    assert(steps_toward(before, old(self).ranks(old(self)@.keys[t as int]), node, t));
                    lemma_steps_extends(
                        before,
                        self@.adjacency,
                        old(self).ranks(old(self)@.keys[t as int]),
                        node,
                        t,
                    );
                }
                assert(steps_toward(
                    self@.adjacency,
                    old(self).ranks(old(self)@.keys[target as int]),
                    node,
                    target,
                ));
            }
            target += 1;
        }
    }

    /// Links `node` to the first node of `knn` that is closer to `target_key` than
    /// `node`, unless `node` has a neighbor that is closer already. `neighbors` is the
    /// edge list of `node`. Returns the node that was linked.
    pub(crate) fn optimize_local_target_key(
        &mut self,
        layer: usize,
        node: usize,
        target_key: &K,
        knn: &Vec<usize>,
        neighbors: &mut Vec<usize>,
    ) -> (linked: Option<usize>)
        requires
            old(self).wf(),
            layer == 0,
            node < old(self)@.len(),
            others_of(old(self)@.len(), node, knn@),
            old(neighbors)@ == old(self)@.adjacency[node as int],
        ensures
            final(self).wf(),
            final(self)@.grown_from(old(self)@),
            final(neighbors)@ == final(self)@.adjacency[node as int],
            match linked {
                Some(nn) => {
                    &&& knn@.contains(nn)
                    &&& old(self).ranks(*target_key)[nn as int] < old(self).ranks(*target_key)[node as int]
                    &&& local_minimum(old(self)@.adjacency, old(self).ranks(*target_key), node)
                    &&& final(self)@.adjacency == with_edge(old(self)@.adjacency, nn, node)
                    &&& final(self)@.edges == old(self)@.edges + 1
                },
                None => {
                    &&& final(self)@ == old(self)@
                    &&& (!local_minimum(old(self)@.adjacency, old(self).ranks(*target_key), node) || forall|
                        j: int,
                    |
                        0 <= j < knn.len() ==> old(self).ranks(*target_key)[#[trigger] knn@[j] as int]
                            >= old(self).ranks(*target_key)[node as int])
                },
            },
            final(self)@.adjacency == keyed_once(
                old(self)@.adjacency,
                old(self).ranks(*target_key),
                node,
                knn@,
            ),
    {
        let ghost ranks = self.ranks(*target_key);
        let ghost adj = self@.adjacency;
        let target = Target::Key(target_key);
        proof {
            lemma_extends_self(adj);
            assert forall|i: int| 0 <= i < neighbors.len() implies neighbors@[i] < self@.len() by {
                assert(adj[node as int].contains(neighbors@[i]));
            }
        }
        // Get this node's distance.
        let this_distance: D = D::narrow(self.nodes[node].key.distance(target_key));
        proof {
            self@.keys[node as int].lemma_dist_symmetric(target_key);
        }
        // Get all this node's neighbor's distances, and see if any of them are better.
        if self.any_closer(&target, neighbors, this_distance) {
            // If any of them are better, no optimization is needed.
            proof {
                let i = choose|i: int| 0 <= i < neighbors.len() && ranks[#[trigger] neighbors@[i] as int] < this_distance.rank();
                assert(adj[node as int].contains(neighbors@[i]));
            }
            return None;
        }
        proof {
            assert forall|m: usize| #[trigger] adj[node as int].contains(m) implies ranks[m as int] >= ranks[node as int] by {
                let i = choose|i: int| 0 <= i < adj[node as int].len() && adj[node as int][i] == m;
                assert(neighbors@[i] == m);
            }
        }
        // Go through the nearest neighbors in order from best to worst.
        match self.first_closer(&target, knn, this_distance) {
            Some((nn, _)) => {
                // In this case, a greedy search to this node would get closer to the target,
                // so add an edge to this node.
                proof {
                    let i = choose|i: int| 0 <= i < knn@.len() && knn@[i] == nn;
                    assert(knn@[i] != node);
                    if adj[nn as int].contains(node) {
                        assert(adj[node as int].contains(nn));
                    }
                    lemma_with_edge(adj, nn, node);
                    lemma_connected_extends(adj, with_edge(adj, nn, node));
                }
                neighbors.push(nn);
                self.add_edge(layer, nn, node);
                // The greedy path now exists, so exit.
                Some(nn)
            },
            None => None,
        }
    }

    /// Optimizes a node by discovering local minima, and then breaking through all
    /// the local minima to the closest neighbor which is closer to the target.
    ///
    /// For each of `targets` in turn, the node is linked to the nearest node of its
    /// neighborhood that is closer to the target, unless a neighbor of the node is
    /// closer already.
    pub fn optimize_local_target_keys(&mut self, layer: usize, node: usize, targets: &[K])
        requires
            old(self).wf(),
            layer == 0,
            node < old(self)@.len(),
        ensures
            final(self).wf(),
            final(self)@.grown_from(old(self)@),
            old(self)@.len() == 1 ==> final(self)@ == old(self)@,
            final(self)@.adjacency == keys_optimized::<K, D>(
                old(self)@.adjacency,
                old(self)@.keys,
                node,
                targets@,
            ),
            old(self)@.len() > 1 ==> exists|others: Seq<usize>| #[trigger]
                is_knn(
                    old(self)@.adjacency,
                    old(self).ranks(old(self)@.keys[node as int]),
                    node,
                    optimal_k_of(old(self)@.edges as nat, old(self)@.len()) as usize,
                    seq![node] + others,
                ) && forall|t: int|
                    0 <= t < targets@.len() ==> !local_minimum(
                        final(self)@.adjacency,
                        old(self).ranks(#[trigger] targets@[t]),
                        node,
                    ) || forall|j: int|
                        0 <= j < others.len() ==> old(self).ranks(targets@[t])[#[trigger] others[j] as int]
                            >= old(self).ranks(targets@[t])[node as int],
    {
        proof {
            lemma_extends_self(self@.adjacency);
        }
        if self.len() == 1 {
            return ;
        }
        let num = self.optimal_k();
        let knn = self.neighborhood(layer, node, num);
        let mut neighbors = self.neighbors_of(layer, node);
        let ghost others = knn@;
        let ghost len = self@.len();
        proof {
            lemma_knn_others(self@.adjacency, self.ranks(self@.keys[node as int]), node, num, knn@);
            assert(self@.edges == degree_sum(self@.adjacency) / 2);
        }
        let mut index: usize = 0;
        while index < targets.len()
            invariant
                self.wf(),
                self@.grown_from(old(self)@),
                layer == 0,
                len == self@.len(),
                node < len,
                knn@ == others,
                others_of(len, node, knn@),
                neighbors@ == self@.adjacency[node as int],
                index <= targets.len(),
                self@.adjacency == keyed::<K, D>(
                    old(self)@.adjacency,
                    old(self)@.keys,
                    node,
                    others,
                    targets@,
                    index as nat,
                ),
                forall|t: int|
                    0 <= t < index ==> !local_minimum(
                        self@.adjacency,
                        old(self).ranks(#[trigger] targets@[t]),
                        node,
                    ) || forall|j: int|
                        0 <= j < others.len() ==> old(self).ranks(targets@[t])[#[trigger] others[j] as int]
                            >= old(self).ranks(targets@[t])[node as int],
            decreases targets.len() - index,
        {
            let ghost before = self@.adjacency;
            let linked = self.optimize_local_target_key(layer, node, &targets[index], &knn, &mut neighbors);
            proof {
                lemma_extends_chain(old(self)@.adjacency, before, self@.adjacency);
                let ranks = old(self).ranks(targets@[index as int]);
                if linked.is_some() {
                    let nn = linked.unwrap();
                    lemma_push_contains(before[node as int], nn, nn);
                    lemma_with_edge(before, nn, node);
                    assert(self@.adjacency[node as int].contains(nn));
                }
                assert forall|t: int| 0 <= t < index implies !local_minimum(
                    self@.adjacency,
                    old(self).ranks(#[trigger] targets@[t]),
                    node,
                ) || forall|j: int|
                    0 <= j < others.len() ==> old(self).ranks(targets@[t])[#[trigger] others[j] as int]
                        >= old(self).ranks(targets@[t])[node as int] by {
                    if !local_minimum(before, old(self).ranks(targets@[t]), node) {
                        lemma_minimum_extends(before, self@.adjacency, old(self).ranks(targets@[t]), node);
                    }
                }
                if !local_minimum(before, ranks, node) {
                    lemma_minimum_extends(before, self@.adjacency, ranks, node);
                }
            }
            index += 1;
        }
        proof {
            assert(is_knn(
                old(self)@.adjacency,
                old(self).ranks(old(self)@.keys[node as int]),
                node,
                optimal_k_of(old(self)@.edges as nat, old(self)@.len()) as usize,
                seq![node] + others,
            ));
        }
    }

    /// Trains by linking every node, for each key of `data`, to the nearest node of
    /// its neighborhood that is closer to the key, unless a neighbor of the node is
    /// closer already.
    pub fn train(&mut self, data: &[K])
        requires
            old(self).wf(),
        ensures
            final(self).wf(),
            final(self)@.grown_from(old(self)@),
            final(self)@.adjacency == trained::<K, D>(
                old(self)@.adjacency,
                old(self)@.keys,
                data@,
                old(self)@.len(),
            ),
    {
        proof {
            lemma_extends_self(self@.adjacency);
        }
        let len = self.len();
        let mut node: usize = 0;
        while node < len
            invariant
                self.wf(),
                self@.grown_from(old(self)@),
                len == self@.len(),
                node <= len,
                self@.adjacency == trained::<K, D>(
                    old(self)@.adjacency,
                    old(self)@.keys,
                    data@,
                    node as nat,
                ),
            decreases len - node,
        {
            let ghost before = self@.adjacency;
            self.optimize_local_target_keys(0, node, data);
            proof {
                lemma_extends_chain(old(self)@.adjacency, before, self@.adjacency);
            }
            node += 1;
        }
    }
}

} // verus!
