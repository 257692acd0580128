//! Insertion of new nodes and the freshening of stale ones.

use crate::cycle::{hop, lemma_advance, lemma_hops, lemma_splice, spliced};
use crate::greedy::{greedy_end, lemma_greedy_same_above, lemma_zero_neighbor};
use crate::edge_list::edge_list_new;
use crate::graph::{degree_sum, extends, lemma_degree_sum_push, lemma_with_edge, simple, with_edge};
use crate::index::{has_room, Hrc, HrcNode, HrcView};
use crate::knn::{ids_of, is_knn, knn_found, neighborhood_of};
use crate::reinsert::reinserted;
use crate::local::{against_knn, everything_optimized, lemma_steps_extends, Local, steps_toward};
use crate::metric::{Distance, dists_to, MetricPoint, ranks_to};
use crate::optimize::optimal_k_of;
use crate::reach::{
    connected, is_path, lemma_reachable_chain, lemma_reachable_isolated, lemma_reachable_self,
    lemma_reachable_step, lemma_reachable_symmetric, reachable,
};
use vstd::prelude::*;

verus! {

/// A simple graph with one more node, which has no edges, is simple.
pub(crate) proof fn lemma_with_node(adj: Seq<Seq<usize>>)
    requires
        simple(adj),
    ensures
        simple(adj.push(Seq::<usize>::empty())),
        degree_sum(adj.push(Seq::<usize>::empty())) == degree_sum(adj),
{
    let more = adj.push(Seq::<usize>::empty());
    lemma_degree_sum_push(adj, Seq::<usize>::empty());
    assert forall|n: int, m: usize| 0 <= n < more.len() && #[trigger] more[n].contains(m) implies m < more.len()
        && more[m as int].contains(n as usize) by {
        assert(n < adj.len());
        assert(adj[n].contains(m));
    }
    assert forall|n: int| 0 <= n < more.len() implies (#[trigger] more[n]).no_duplicates() && !more[n].contains(
        n as usize,
    ) by {
        if n < adj.len() {
            assert(more[n] == adj[n]);
        }
    }
}

/// What is reachable in a graph stays reachable when a node is added.
pub(crate) proof fn lemma_reachable_with_node(adj: Seq<Seq<usize>>, from: usize, to: usize)
    requires
        reachable(adj, from, to),
    ensures
        reachable(adj.push(Seq::<usize>::empty()), from, to),
{
    let more = adj.push(Seq::<usize>::empty());
    let path = choose|path: Seq<usize>| #[trigger]
        is_path(adj, path) && path[0] == from && path.last() == to;
    assert forall|i: int| 0 <= i < path.len() - 1 implies more[(#[trigger] path[i]) as int].contains(
        path[i + 1],
    ) by {
        assert(path[i] < adj.len());
        assert(adj[path[i] as int].contains(path[i + 1]));
    }
    assert forall|i: int| 0 <= i < path.len() implies (#[trigger] path[i]) < more.len() by {
        assert(path[i] < adj.len());
    }
    assert(is_path(more, path));
}

/// A connected graph with one more node that is linked to one of its nodes is
/// connected.
pub(crate) proof fn lemma_attached(adj: Seq<Seq<usize>>, to: usize)
    requires
        simple(adj),
        connected(adj),
        to < adj.len(),
        adj.len() < usize::MAX,
    ensures
        connected(with_edge(adj.push(Seq::<usize>::empty()), to, adj.len() as usize)),
        simple(with_edge(adj.push(Seq::<usize>::empty()), to, adj.len() as usize)),
{
    let node = adj.len() as usize;
    let more = adj.push(Seq::<usize>::empty());
    lemma_with_node(adj);
    assert(!more[to as int].contains(node)) by {
        if more[to as int].contains(node) {
            assert(more[node as int].contains(to));
        }
    }
    lemma_with_edge(more, to, node);
    let linked = with_edge(more, to, node);
    assert forall|x: usize| x < linked.len() implies reachable(linked, to, x) by {
        if x < adj.len() {
            assert(reachable(adj, to, x));
            lemma_reachable_with_node(adj, to, x);
            crate::reach::lemma_reachable_extends(more, linked, to, x);
        } else {
            lemma_reachable_self(linked, to);
            assert(linked[to as int].last() == node);
            lemma_reachable_step(linked, to, to, node);
        }
    }
    assert forall|a: usize, b: usize| a < linked.len() && b < linked.len() implies #[trigger] reachable(
        linked,
        a,
        b,
    ) by {
        lemma_reachable_symmetric(linked, to, a);
        lemma_reachable_chain(linked, a, to, b);
    }
}

/// The graph after a node with `key` was inserted into a graph that has nodes, not
/// counting the freshening that may follow: the new node is linked to the nearest
/// node that the search from node 0 for its default neighborhood finds, and steps
/// from it towards each node of that neighborhood are made to exist.
pub open spec fn inserted<K: MetricPoint, D: Distance>(
    adj: Seq<Seq<usize>>,
    keys: Seq<K>,
    key: K,
) -> Seq<Seq<usize>> {
    let node = adj.len() as usize;
    let more = adj.push(Seq::<usize>::empty());
    let all = keys.push(key);
    let knn = ids_of(
        knn_found(
            more,
            dists_to::<K, D>(all, key),
            0,
            optimal_k_of((degree_sum(adj) / 2) as nat, more.len()) as usize,
        ),
    );
    against_knn::<K, D>(
        Local { adj: with_edge(more, knn[0], node), neighbors: seq![knn[0]], knn, regrown: false },
        all,
        node,
        knn.len(),
    ).adj
}

/// Whether `after` is what the freshening of `node` makes of the graph `adj`: the
/// node is reinserted, its default neighborhood is searched, the node is reinserted
/// once more, and steps from it towards each node of that neighborhood are made to
/// exist.
pub open spec fn freshened<K: MetricPoint, D: Distance>(
    adj: Seq<Seq<usize>>,
    keys: Seq<K>,
    node: usize,
    after: Seq<Seq<usize>>,
) -> bool {
    exists|first: Seq<Seq<usize>>, second: Seq<Seq<usize>>|
        #![trigger reinserted::<K, D>(adj, keys, node, first), reinserted::<K, D>(first, keys, node, second)]
        reinserted::<K, D>(adj, keys, node, first) && reinserted::<K, D>(first, keys, node, second) && after
            == freshened_with::<K, D>(first, second, keys, node)
}

/// The graph after steps from `node` were made to exist towards each node of the
/// default neighborhood that it had in the graph `first`, in the graph `second`.
pub open spec fn freshened_with<K: MetricPoint, D: Distance>(
    first: Seq<Seq<usize>>,
    second: Seq<Seq<usize>>,
    keys: Seq<K>,
    node: usize,
) -> Seq<Seq<usize>> {
    let knn = neighborhood_of::<K, D>(
        first,
        keys,
        node,
        optimal_k_of((degree_sum(first) / 2) as nat, first.len()) as usize,
    );
    against_knn::<K, D>(
        Local { adj: second, neighbors: second[node as int], knn, regrown: false },
        keys,
        node,
        knn.len(),
    ).adj
}

/// Whether `chain` lists the graphs that the freshening of the first `count` of
/// `nodes`, in turn, makes of its first graph.
pub open spec fn freshening_chain<K: MetricPoint, D: Distance>(
    keys: Seq<K>,
    nodes: Seq<usize>,
    count: nat,
    chain: Seq<Seq<Seq<usize>>>,
) -> bool {
    &&& chain.len() == count + 1
    &&& forall|i: int|
        0 <= i < count ==> freshened::<K, D>(#[trigger] chain[i], keys, nodes[i], chain[i + 1])
}

/// Whether `after` is what the freshening of the first `count` of `nodes`, in turn,
/// makes of the graph `adj`.
pub open spec fn freshened_all<K: MetricPoint, D: Distance>(
    adj: Seq<Seq<usize>>,
    keys: Seq<K>,
    nodes: Seq<usize>,
    count: nat,
    after: Seq<Seq<usize>>,
) -> bool {
    exists|chain: Seq<Seq<Seq<usize>>>| #[trigger]
        freshening_chain::<K, D>(keys, nodes, count, chain) && chain[0] == adj && chain[count as int]
            == after
}

/// The freshening of no node leaves the graph as it is.
pub(crate) proof fn lemma_freshened_none<K: MetricPoint, D: Distance>(
    adj: Seq<Seq<usize>>,
    keys: Seq<K>,
    nodes: Seq<usize>,
)
    ensures
        freshened_all::<K, D>(adj, keys, nodes, 0, adj),
{
    let chain = seq![adj];
    assert(freshening_chain::<K, D>(keys, nodes, 0, chain));
    assert(chain[0] == adj);
}

/// One more node that is freshened goes on from what the freshening of the nodes
/// before it made.
pub(crate) proof fn lemma_freshened_next<K: MetricPoint, D: Distance>(
    adj: Seq<Seq<usize>>,
    keys: Seq<K>,
    nodes: Seq<usize>,
    count: nat,
    mid: Seq<Seq<usize>>,
    after: Seq<Seq<usize>>,
)
    requires
        count > 0,
        freshened_all::<K, D>(adj, keys, nodes, (count - 1) as nat, mid),
        freshened::<K, D>(mid, keys, nodes[count - 1], after),
    ensures
        freshened_all::<K, D>(adj, keys, nodes, count, after),
{
    let before = choose|chain: Seq<Seq<Seq<usize>>>| #[trigger]
        freshening_chain::<K, D>(keys, nodes, (count - 1) as nat, chain) && chain[0] == adj && chain[count
            - 1] == mid;
    let chain = before.push(after);
    assert forall|i: int| 0 <= i < count implies freshened::<K, D>(
        #[trigger] chain[i],
        keys,
        nodes[i],
        chain[i + 1],
    ) by {
        if i < count - 1 {
            assert(freshened::<K, D>(before[i], keys, nodes[i], before[i + 1]));
        }
    }
    assert(freshening_chain::<K, D>(keys, nodes, count, chain));
    assert(chain[0] == adj && chain[count as int] == after);
}

/// The `count` nodes that follow `freshest` in the freshening order.
pub open spec fn stalest(next: Seq<usize>, freshest: usize, count: nat) -> Seq<usize> {
    Seq::new(count, |i: int| hop(next, freshest, (i + 1) as nat))
}

/// Whether `chain` lists the graphs that the reinsertion of each of the first `count`
/// nodes, in turn, makes of its first graph.
pub open spec fn reinsertion_chain<K: MetricPoint, D: Distance>(
    keys: Seq<K>,
    count: nat,
    chain: Seq<Seq<Seq<usize>>>,
) -> bool {
    &&& chain.len() == count + 1
    &&& forall|i: int|
        0 <= i < count ==> reinserted::<K, D>(#[trigger] chain[i], keys, i as usize, chain[i + 1])
}

/// Whether `after` is what the reinsertion of each of the first `count` nodes, in
/// turn, makes of the graph `adj`.
pub open spec fn reinserted_all<K: MetricPoint, D: Distance>(
    adj: Seq<Seq<usize>>,
    keys: Seq<K>,
    count: nat,
    after: Seq<Seq<usize>>,
) -> bool {
    exists|chain: Seq<Seq<Seq<usize>>>| #[trigger]
        reinsertion_chain::<K, D>(keys, count, chain) && chain[0] == adj && chain[count as int] == after
}

/// The graph after each of the first `count` nodes was optimized against every
/// node, in turn.
pub open spec fn everything_optimized_all<K: MetricPoint, D: Distance>(
    adj: Seq<Seq<usize>>,
    keys: Seq<K>,
    count: nat,
) -> Seq<Seq<usize>>
    decreases count,
{
    if count == 0 {
        adj
    } else {
        everything_optimized::<K, D>(
            everything_optimized_all::<K, D>(adj, keys, (count - 1) as nat),
            keys,
            (count - 1) as usize,
        )
    }
}

/// The reinsertion of no node leaves the graph as it is.
pub(crate) proof fn lemma_reinserted_none<K: MetricPoint, D: Distance>(adj: Seq<Seq<usize>>, keys: Seq<K>)
    ensures
        reinserted_all::<K, D>(adj, keys, 0, adj),
{
    let chain = seq![adj];
    assert(reinsertion_chain::<K, D>(keys, 0, chain));
    assert(chain[0] == adj);
}

/// One more node that is reinserted goes on from what the reinsertion of the nodes
/// before it made.
pub(crate) proof fn lemma_reinserted_next<K: MetricPoint, D: Distance>(
    adj: Seq<Seq<usize>>,
    keys: Seq<K>,
    count: nat,
    mid: Seq<Seq<usize>>,
    after: Seq<Seq<usize>>,
)
    requires
        0 < count <= usize::MAX,
        reinserted_all::<K, D>(adj, keys, (count - 1) as nat, mid),
        reinserted::<K, D>(mid, keys, (count - 1) as usize, after),
    ensures
        reinserted_all::<K, D>(adj, keys, count, after),
{
    let before = choose|chain: Seq<Seq<Seq<usize>>>| #[trigger]
        reinsertion_chain::<K, D>(keys, (count - 1) as nat, chain) && chain[0] == adj && chain[count - 1]
            == mid;
    let chain = before.push(after);
    assert forall|i: int| 0 <= i < count implies reinserted::<K, D>(
        #[trigger] chain[i],
        keys,
        i as usize,
        chain[i + 1],
    ) by {
        if i < count - 1 {
            assert(reinserted::<K, D>(before[i], keys, i as usize, before[i + 1]));
        }
    }
    assert(reinsertion_chain::<K, D>(keys, count, chain));
    assert(chain[0] == adj && chain[count as int] == after);
}

/// Whether in the graph `after` the greedy descent towards `key` ends at distance
/// zero from the node that was found nearest to `key` when the node with that key
/// was inserted, and from every node from which the descent ended at that nearest
/// node before.
pub open spec fn recalled_from_nearest<K: MetricPoint, D: Distance>(
    adj: Seq<Seq<usize>>,
    keys: Seq<K>,
    key: K,
    after: Seq<Seq<usize>>,
) -> bool {
    let more = adj.push(Seq::<usize>::empty());
    let all = keys.push(key);
    let ranks = ranks_to::<K, D>(all, key);
    let nearest = knn_found(
        more,
        dists_to::<K, D>(all, key),
        0,
        optimal_k_of((degree_sum(adj) / 2) as nat, more.len()) as usize,
    )[0].node;
    &&& ranks[greedy_end(after, ranks, nearest) as int] == 0
    &&& forall|from: usize|
        from < more.len() && greedy_end(more, ranks, from) == nearest ==> ranks[(#[trigger] greedy_end(
            after,
            ranks,
            from,
        )) as int] == 0
}

impl<K: MetricPoint, V, D: Distance> Hrc<K, V, D> {
    /// Appends a node without edges and splices it into the freshening order behind
    /// the freshest node, as the new freshest.
    pub(crate) fn push_node(&mut self, key: K, value: V) -> (node: usize)
        requires
            old(self).sound(),
            has_room(old(self)@.len()),
        ensures
            final(self).sound(),
            node == old(self)@.len(),
            final(self)@ == (HrcView {
                keys: old(self)@.keys.push(key),
                values: old(self)@.values.push(value),
                adjacency: old(self)@.adjacency.push(Seq::<usize>::empty()),
                next: spliced(old(self)@.next, old(self)@.freshest),
                freshest: node,
                ..old(self)@
            }),
    {
        let node = self.nodes.len();
        proof {
            let len = self@.len();
            assert(len + 1 <= (len + 1) * (len + 1)) by (nonlinear_arith);
            lemma_with_node(self@.adjacency);
            lemma_splice(self@.next, self@.freshest);
            if len > 0 {
                lemma_advance(self@.next, self@.freshest);
            }
        }
        // The current freshest node's `next` is the stalest node. If this is the only node, its
        // next is itself.
        let next = if node == 0 {
            0
        } else {
            self.nodes[self.freshest].next
        };
        let mut layers: Vec<header_vec::HeaderVec<usize, usize>> = Vec::new();
        layers.push(edge_list_new(node));
        self.nodes.push(HrcNode { key, value, layers, next });
        // The previous freshest node is now freshened right before this node.
        let freshest = self.freshest;
        self.nodes[freshest].next = node;
        // This is now the freshest node.
        self.freshest = node;
        proof {
            assert(self@.keys =~= old(self)@.keys.push(key));
            assert(self@.values =~= old(self)@.values.push(value));
            assert(self@.adjacency =~= old(self)@.adjacency.push(Seq::<usize>::empty()));
            assert(self@.next =~= spliced(old(self)@.next, old(self)@.freshest));
        }
        node
    }

    /// Gives the next `freshens` nodes of the freshening order, stalest first, and
    /// marks the last of them as the freshest node.
    pub fn freshen_nodes(&mut self, freshens: usize) -> (nodes: Vec<usize>)
        requires
            old(self).wf(),
            old(self)@.len() > 0 || freshens == 0,
        ensures
            final(self).wf(),
            final(self)@ == (HrcView {
                freshest: hop(old(self)@.next, old(self)@.freshest, freshens as nat),
                ..old(self)@
            }),
            nodes@.len() == freshens,
            forall|i: int|
                0 <= i < freshens ==> #[trigger] nodes@[i] == hop(
                    old(self)@.next,
                    old(self)@.freshest,
                    (i + 1) as nat,
                ) && nodes@[i] < old(self)@.len(),
    {
        let mut nodes: Vec<usize> = Vec::new();
        // The freshest node's next is the stalest node.
        let mut node = self.freshest;
        let mut count: usize = 0;
        proof {
            if self@.len() > 0 {
                lemma_hops(self@.next, self@.freshest, 0);
            }
        }
        while count < freshens
            invariant
                self.wf(),
                self@ == old(self)@,
                self@.len() > 0 || freshens == 0,
                count <= freshens,
                node == hop(self@.next, self@.freshest, count as nat),
                self@.len() > 0 ==> node < self@.len(),
                nodes@.len() == count,
                forall|i: int|
                    0 <= i < count ==> #[trigger] nodes@[i] == hop(self@.next, self@.freshest, (i + 1) as nat)
                        && nodes@[i] < self@.len(),
            decreases freshens - count,
        {
            proof {
                lemma_hops(self@.next, self@.freshest, (count + 1) as nat);
            }
            node = self.nodes[node].next;
            nodes.push(node);
            count += 1;
        }
        proof {
            if self@.len() > 0 {
                lemma_hops(self@.next, self@.freshest, freshens as nat);
            }
        }
        // The linked list through the nodes remains the same, we only move the freshest forward.
        self.freshest = node;
        proof {
            assert(self@.keys =~= old(self)@.keys);
            assert(self@.values =~= old(self)@.values);
            assert(self@.next =~= old(self)@.next);
            assert(self@.adjacency =~= old(self)@.adjacency);
        }
        nodes
    }

    /// Connects each of the `freshens` stalest nodes anew and optimizes it against
    /// its neighborhood, freshening them.
    pub(crate) fn freshen_neighborhood(&mut self, layer: usize, freshens: usize)
        requires
            old(self).wf(),
            layer == 0,
            old(self)@.len() > 0 || freshens == 0,
        ensures
            final(self).wf(),
            final(self)@.rewired_from(
                HrcView {
                    freshest: hop(old(self)@.next, old(self)@.freshest, freshens as nat),
                    ..old(self)@
                },
            ),
            freshens == 0 ==> final(self)@ == old(self)@,
            freshened_all::<K, D>(
                old(self)@.adjacency,
                old(self)@.keys,
                stalest(old(self)@.next, old(self)@.freshest, freshens as nat),
                freshens as nat,
                final(self)@.adjacency,
            ),
    {
        let nodes = self.freshen_nodes(freshens);
        let ghost start = self@;
        let mut index: usize = 0;
        proof {
            assert(nodes@ =~= stalest(old(self)@.next, old(self)@.freshest, freshens as nat));
            lemma_freshened_none::<K, D>(start.adjacency, start.keys, nodes@);
        }
        while index < nodes.len()
            invariant
                self.wf(),
                layer == 0,
                self@.rewired_from(start),
                index <= nodes.len(),
                index == 0 ==> self@ == start,
                forall|i: int| 0 <= i < nodes@.len() ==> #[trigger] nodes@[i] < start.keys.len(),
                freshened_all::<K, D>(start.adjacency, start.keys, nodes@, index as nat, self@.adjacency),
            decreases nodes.len() - index,
        {
            let node = nodes[index];
            let ghost before = self@.adjacency;
            self.reinsert(layer, node);
            let ghost first = self@.adjacency;
            let num = self.optimal_k();
            let mut knn = self.neighborhood(layer, node, num);
            proof {
                crate::local::lemma_knn_others(
                    self@.adjacency,
                    self.ranks(self@.keys[node as int]),
                    node,
                    num,
                    knn@,
                );
                assert(self@.edges == degree_sum(first) / 2);
            }
            self.reinsert(layer, node);
            let ghost second = self@.adjacency;
            let mut neighbors = self.neighbors_of(layer, node);
            self.optimize_local_target_neighborhood(layer, node, &mut knn, &mut neighbors);
            proof {
                assert(reinserted::<K, D>(before, start.keys, node, first));
                assert(reinserted::<K, D>(first, start.keys, node, second));
                assert(self@.adjacency == freshened_with::<K, D>(first, second, start.keys, node));
                assert(freshened::<K, D>(before, start.keys, node, self@.adjacency));
                let count = (index + 1) as nat;
                assert((count - 1) as nat == index as nat);
                assert(freshened_all::<K, D>(start.adjacency, start.keys, nodes@, (count - 1) as nat, before));
                lemma_freshened_next::<K, D>(
                    start.adjacency,
                    start.keys,
                    nodes@,
                    count,
                    before,
                    self@.adjacency,
                );
            }
            index += 1;
        }
    }

    /// Insert a (key, value) pair.
    ///
    /// The new node is linked to the nearest node that a search from node 0 finds,
    /// and optimized against the neighborhood that the search found. After that the
    /// `freshens` stalest nodes are freshened. Returns the id of the new node.
    pub fn insert(&mut self, layer: usize, key: K, value: V, freshens: usize) -> (node: usize)
        requires
            old(self).wf(),
            layer == 0,
            has_room(old(self)@.len()),
        ensures
            final(self).wf(),
            node == old(self)@.len(),
            final(self)@.keys == old(self)@.keys.push(key),
            final(self)@.values == old(self)@.values.push(value),
            final(self)@.next == spliced(old(self)@.next, old(self)@.freshest),
            final(self)@.max_cluster_len == old(self)@.max_cluster_len,
            node == 0 ==> final(self)@.freshest == 0 && final(self)@.edges == 0
                && final(self)@.adjacency == seq![Seq::<usize>::empty()],
            node > 0 ==> final(self)@.freshest == hop(final(self)@.next, node, freshens as nat),
            node > 0 && freshens == 0 ==> final(self)@.adjacency == inserted::<K, D>(
                old(self)@.adjacency,
                old(self)@.keys,
                key,
            ),
            node > 0 && freshens == 0 ==> recalled_from_nearest::<K, D>(
                old(self)@.adjacency,
                old(self)@.keys,
                key,
                final(self)@.adjacency,
            ),
            node > 0 ==> freshened_all::<K, D>(
                inserted::<K, D>(old(self)@.adjacency, old(self)@.keys, key),
                old(self)@.keys.push(key),
                stalest(final(self)@.next, node, freshens as nat),
                freshens as nat,
                final(self)@.adjacency,
            ),
            node > 0 && freshens == 0 ==> exists|ids: Seq<usize>| #[trigger]
                is_knn(
                    old(self)@.adjacency.push(Seq::<usize>::empty()),
                    ranks_to::<K, D>(old(self)@.keys.push(key), key),
                    0,
                    optimal_k_of(old(self)@.edges as nat, old(self)@.len() + 1) as usize,
                    ids,
                ) && ids.len() > 0 && extends(
                    with_edge(old(self)@.adjacency.push(Seq::<usize>::empty()), ids[0], node),
                    final(self)@.adjacency,
                ) && forall|j: int|
                    0 <= j < ids.len() ==> steps_toward(
                        final(self)@.adjacency,
                        ranks_to::<K, D>(
                            old(self)@.keys.push(key),
                            old(self)@.keys.push(key)[#[trigger] ids[j] as int],
                        ),
                        node,
                        ids[j],
                    ),
    {
        // Add the node (it will be added this way regardless).
        let node = self.push_node(key, value);
        if node == 0 {
            proof {
                let adj = self@.adjacency;
                assert(adj =~= seq![Seq::<usize>::empty()]);
                assert forall|a: usize, b: usize| a < adj.len() && b < adj.len() implies #[trigger] reachable(
                    adj,
                    a,
                    b,
                ) by {
                    lemma_reachable_self(adj, a);
                }
                assert(degree_sum(adj) == 0) by {
                    assert(adj.drop_last() =~= Seq::<Seq<usize>>::empty());
                    assert(degree_sum(adj.drop_last()) == 0);
                }
            }
            return 0;
        }
        let ghost before = old(self)@.adjacency;
        let ghost more = self@.adjacency;
        proof {
            assert(more.drop_last() =~= before);
        }
        // Find nearest neighbors via greedy search from node 0.
        let num = self.optimal_k();
        let from_distance: D = self.stored_distance(&self.nodes[node].key, 0);
        let bests = self.knn_from(layer, 0, from_distance, &self.nodes[node].key, num);
        let mut knn: Vec<usize> = Vec::new();
        let mut index: usize = 0;
        while index < bests.len()
            invariant
                index <= bests.len(),
                knn@.len() == index,
                forall|i: int| 0 <= i < index ==> #[trigger] knn@[i] == bests@[i].node,
            decreases bests.len() - index,
        {
            knn.push(bests[index].node);
            index += 1;
        }
        proof {
            assert(knn@ =~= ids_of(bests@));
            assert(self@.edges == degree_sum(before) / 2) by {
                lemma_with_node(before);
            }
            assert forall|i: int| 0 <= i < knn@.len() implies (#[trigger] knn@[i]) != node by {
                if knn@[i] == node {
                    assert(reachable(more, 0, knn@[i]));
                    lemma_reachable_symmetric(more, 0, node);
                    lemma_reachable_isolated(more, node, 0);
                }
            }
            lemma_attached(before, knn@[0]);
        }
        // Add edge to nearest neighbor.
        let nearest = knn[0];
        let ghost ids = knn@;
        let ghost keys = self@.keys;
        self.add_edge(layer, nearest, node);
        let mut neighbors: Vec<usize> = Vec::new();
        neighbors.push(nearest);
        let ghost linked = self@.adjacency;
        let ghost own = self.ranks(self@.keys[node as int]);
        proof {
            assert(self@.adjacency[node as int].last() == nearest);
            assert(neighbors@ =~= seq![ids[0]]);
            self.lemma_own_rank(node);
            assert(linked[nearest as int].last() == node);
            lemma_zero_neighbor(linked, own, nearest, node);
            assert forall|from: usize|
                from < more.len() && greedy_end(more, own, from) == nearest implies own[(#[trigger] greedy_end(
                linked,
                own,
                from,
            )) as int] == 0 by {
                assert forall|u: int|
                    0 <= u < more.len() && own[u] > own[greedy_end(more, own, from) as int] implies #[trigger] linked[u]
                    == more[u] by {}
                lemma_greedy_same_above(more, linked, own, from);
            }
        }
        // Optimize its edges using the neighborhood.
        self.optimize_local_target_neighborhood(layer, node, &mut knn, &mut neighbors);
        proof {
            assert forall|j: int| 0 <= j < ids.len() implies steps_toward(
                self@.adjacency,
                ranks_to::<K, D>(keys, keys[#[trigger] ids[j] as int]),
                node,
                ids[j],
            ) by {}
        }
        let ghost optimized = self@.adjacency;
        self.freshen_neighborhood(layer, freshens);
        proof {
            if freshens == 0 {
                assert(ids[0] == bests@[0].node);
                assert(own[greedy_end(optimized, own, nearest) as int] == 0);
                assert forall|from: usize|
                    from < more.len() && greedy_end(more, own, from) == nearest implies own[(#[trigger] greedy_end(
                    optimized,
                    own,
                    from,
                )) as int] == 0 by {
                    assert(own[greedy_end(linked, own, from) as int] == 0);
                }
                assert(keys == old(self)@.keys.push(key));
                assert(keys[node as int] == key);
                assert(more == old(self)@.adjacency.push(Seq::<usize>::empty()));
                assert(is_knn(
                    more,
                    ranks_to::<K, D>(keys, key),
                    0,
                    optimal_k_of(old(self)@.edges as nat, old(self)@.len() + 1) as usize,
                    ids,
                ));
                assert(extends(with_edge(more, ids[0], node), self@.adjacency));
                assert forall|j: int| 0 <= j < ids.len() implies steps_toward(
                    self@.adjacency,
                    ranks_to::<K, D>(keys, keys[#[trigger] ids[j] as int]),
                    node,
                    ids[j],
                ) by {
                    assert(steps_toward(optimized, ranks_to::<K, D>(keys, keys[ids[j] as int]), node, ids[j]));
                }
            }
        }
        node
    }

    /// Connects every node anew, and then optimizes every node against every other
    /// node, so that from each node a step towards each other node exists.
    ///
    /// This is expensive.
    pub fn optimize_everything(&mut self, layer: usize)
        requires
            old(self).wf(),
            layer == 0,
        ensures
            final(self).wf(),
            final(self)@.rewired_from(old(self)@),
            forall|node: usize, target: usize|
                node < old(self)@.len() && target < old(self)@.len() ==> #[trigger] steps_toward(
                    final(self)@.adjacency,
                    old(self).ranks(old(self)@.keys[target as int]),
                    node,
                    target,
                ),
            exists|mid: Seq<Seq<usize>>| #[trigger]
                reinserted_all::<K, D>(old(self)@.adjacency, old(self)@.keys, old(self)@.len(), mid)
                    && final(self)@.adjacency == everything_optimized_all::<K, D>(
                    mid,
                    old(self)@.keys,
                    old(self)@.len(),
                ),
    {
        let len = self.len();
        let mut node: usize = 0;
        proof {
            lemma_reinserted_none::<K, D>(self@.adjacency, self@.keys);
        }
        while node < len
            invariant
                self.wf(),
                layer == 0,
                self@.rewired_from(old(self)@),
                len == self@.len(),
                node <= len,
                reinserted_all::<K, D>(old(self)@.adjacency, old(self)@.keys, node as nat, self@.adjacency),
            decreases len - node,
        {
            let ghost before = self@.adjacency;
            self.reinsert(layer, node);
            proof {
                let count = (node + 1) as nat;
                assert((count - 1) as nat == node as nat);
                assert((count - 1) as usize == node);
                assert(reinserted_all::<K, D>(old(self)@.adjacency, old(self)@.keys, (count - 1) as nat, before));
                assert(reinserted::<K, D>(before, old(self)@.keys, (count - 1) as usize, self@.adjacency));
                lemma_reinserted_next::<K, D>(
                    old(self)@.adjacency,
                    old(self)@.keys,
                    count,
                    before,
                    self@.adjacency,
                );
            }
            node += 1;
        }
        let ghost mid = self@.adjacency;
        node = 0;
        while node < len
            invariant
                self.wf(),
                layer == 0,
                self@.rewired_from(old(self)@),
                len == self@.len(),
                node <= len,
                self@.adjacency == everything_optimized_all::<K, D>(mid, old(self)@.keys, node as nat),
                forall|n: usize, t: usize|
                    n < node && t < len ==> #[trigger] steps_toward(
                        self@.adjacency,
                        old(self).ranks(old(self)@.keys[t as int]),
                        n,
                        t,
                    ),
            decreases len - node,
        {
            let ghost before = self@.adjacency;
            let ghost given = *self;
            self.optimize_against_everything(layer, node);
            proof {
                assert forall|n: usize, t: usize| n < node + 1 && t < len implies #[trigger] steps_toward(
                    self@.adjacency,
                    old(self).ranks(old(self)@.keys[t as int]),
                    n,
                    t,
                ) by {
                    assert(given.ranks(given@.keys[t as int]) == old(self).ranks(old(self)@.keys[t as int]));
                    if n == node {
                        assert(steps_toward(self@.adjacency, given.ranks(given@.keys[t as int]), node, t));
                    }
                    if n < node {
                        assert(steps_toward(before, old(self).ranks(old(self)@.keys[t as int]), n, t));
                        lemma_steps_extends(
                            before,
                            self@.adjacency,
                            old(self).ranks(old(self)@.keys[t as int]),
                            n,
                            t,
                        );
                    }
                }
            }
            node += 1;
        }
    }
}

impl<K: MetricPoint + Clone, V, D: Distance> Hrc<K, V, D> {
    /// Gives the keys of the next `num_stale` nodes of the freshening order, stalest
    /// first, and marks the last of these nodes as the freshest node.
    pub fn freshen_keys(&mut self, num_stale: usize) -> (keys: Vec<K>)
        requires
            old(self).wf(),
            old(self)@.len() > 0 || num_stale == 0,
        ensures
            final(self).wf(),
            final(self)@ == (HrcView {
                freshest: hop(old(self)@.next, old(self)@.freshest, num_stale as nat),
                ..old(self)@
            }),
            keys@.len() == num_stale,
            forall|i: int|
                0 <= i < num_stale ==> cloned(
                    old(self)@.keys[hop(old(self)@.next, old(self)@.freshest, (i + 1) as nat) as int],
                    #[trigger] keys@[i],
                ),
    {
        let nodes = self.freshen_nodes(num_stale);
        let mut keys: Vec<K> = Vec::new();
        let mut index: usize = 0;
        while index < nodes.len()
            invariant
                self@.keys == old(self)@.keys,
                index <= nodes.len(),
                nodes@.len() == num_stale,
                keys@.len() == index,
                forall|i: int|
                    0 <= i < num_stale ==> #[trigger] nodes@[i] == hop(
                        old(self)@.next,
                        old(self)@.freshest,
                        (i + 1) as nat,
                    ) && nodes@[i] < old(self)@.len(),
                forall|i: int|
                    0 <= i < index ==> cloned(
                        old(self)@.keys[hop(old(self)@.next, old(self)@.freshest, (i + 1) as nat) as int],
                        #[trigger] keys@[i],
                    ),
            decreases nodes.len() - index,
        {
            let node = nodes[index];
            keys.push(self.nodes[node].key.clone());
            index += 1;
        }
        keys
    }
}

} // verus!
