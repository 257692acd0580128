//! The node store of the index and the model its contracts speak of.

use crate::cycle::freshness_cycle;
use crate::edge_list::{
    edge_list_get, edge_list_header, edge_list_len, edge_list_owner, edge_list_push,
    edge_list_retain, edge_list_targets, without,
};
use crate::graph::{degree_sum, extends, lemma_degree_sum_bound, lemma_with_edge, simple, with_edge};
use crate::reach::connected;
use core::marker::PhantomData;
use header_vec::HeaderVec;
use vstd::math::max as spec_max;
use vstd::prelude::*;

verus! {

/// One entry of the index.
#[derive(Debug)]
pub(crate) struct HrcNode<K, V> {
    pub(crate) key: K,
    pub(crate) value: V,
    /// The edge list of each layer on which this node exists.
    pub(crate) layers: Vec<HeaderVec<usize, usize>>,
    /// The next node in the freshening order.
    pub(crate) next: usize,
}

/// Collection for retrieving entries based on key proximity in a metric space.
///
/// The type parameter `D` is the unsigned integer type in which distances are kept.
#[derive(Debug)]
pub struct Hrc<K, V, D = u64> {
    pub(crate) nodes: Vec<HrcNode<K, V>>,
    /// The node which has been inserted or freshened most recently.
    pub(crate) freshest: usize,
    /// The number of undirected edges in the graph.
    pub(crate) edges: usize,
    /// The highest number of edges that any node had after gaining one.
    pub(crate) most_edges: usize,
    /// Clusters with more items than this are split apart.
    pub(crate) max_cluster_len: usize,
    pub(crate) _phantom: PhantomData<D>,
}

/// What an index holds, as mathematical sequences indexed by node id.
pub struct HrcView<K, V> {
    pub keys: Seq<K>,
    pub values: Seq<V>,
    /// The neighbors of each node on the base layer, in the order they were added.
    pub adjacency: Seq<Seq<usize>>,
    /// The successor of each node in the freshening order.
    pub next: Seq<usize>,
    pub freshest: usize,
    pub edges: usize,
    pub max_cluster_len: usize,
}

/// Whether an index of `len` nodes has room for one more: the edge count of a
/// complete graph on all of them fits the machine word.
pub open spec fn has_room(len: nat) -> bool {
    (len + 1) * (len + 1) <= usize::MAX
}

/// An index of fewer than 65535 nodes has room for one more on every machine.
pub proof fn lemma_has_room(len: nat)
    requires
        len < 0xffff,
    ensures
        has_room(len),
{
    assert((len + 1) * (len + 1) <= 0xffff * 0xffff) by (nonlinear_arith)
        requires
            len + 1 <= 0xffff,
    ;
}

impl<K, V> HrcNode<K, V> {
    pub(crate) open spec fn targets(self) -> Seq<usize> {
        edge_list_targets(self.layers@[0])
    }

    pub(crate) open spec fn shaped(self, id: int) -> bool {
        &&& self.layers@.len() == 1
        &&& edge_list_owner(self.layers@[0]) == id
    }
}

impl<K, V> HrcView<K, V> {
    /// The number of nodes.
    pub open spec fn len(self) -> nat {
        self.keys.len()
    }

    /// The sequences agree in length, the graph is simple, each undirected edge is
    /// counted once, the freshening order is one cycle, and the edge count of a
    /// complete graph on these nodes fits the machine word.
    pub open spec fn sound(self) -> bool {
        &&& self.values.len() == self.keys.len()
        &&& self.adjacency.len() == self.keys.len()
        &&& self.next.len() == self.keys.len()
        &&& simple(self.adjacency)
        &&& 2 * self.edges == degree_sum(self.adjacency)
        &&& freshness_cycle(self.next, self.freshest)
        &&& self.keys.len() <= usize::MAX
        &&& self.keys.len() * self.keys.len() <= usize::MAX
    }

    /// Whether this state came from `old` by adding edges only: the keys, the values
    /// and the freshening order are those of `old`, and every edge list begins with
    /// what it was in `old`.
    pub open spec fn grown_from(self, old: HrcView<K, V>) -> bool {
        &&& self.keys == old.keys
        &&& self.values == old.values
        &&& self.next == old.next
        &&& self.freshest == old.freshest
        &&& self.max_cluster_len == old.max_cluster_len
        &&& extends(old.adjacency, self.adjacency)
    }

    /// Whether this state came from `old` by changing edges only: the keys, the
    /// values and the freshening order are those of `old`.
    pub open spec fn rewired_from(self, old: HrcView<K, V>) -> bool {
        &&& self.keys == old.keys
        &&& self.values == old.values
        &&& self.next == old.next
        &&& self.freshest == old.freshest
        &&& self.max_cluster_len == old.max_cluster_len
        &&& self.adjacency.len() == old.adjacency.len()
    }
}

impl<K, V, D> View for Hrc<K, V, D> {
    type V = HrcView<K, V>;

    open(crate) spec fn view(&self) -> HrcView<K, V> {
        HrcView {
            keys: Seq::new(self.nodes@.len(), |i: int| self.nodes@[i].key),
            values: Seq::new(self.nodes@.len(), |i: int| self.nodes@[i].value),
            adjacency: Seq::new(self.nodes@.len(), |i: int| self.nodes@[i].targets()),
            next: Seq::new(self.nodes@.len(), |i: int| self.nodes@[i].next),
            freshest: self.freshest,
            edges: self.edges,
            max_cluster_len: self.max_cluster_len,
        }
    }
}

impl<K, V, D> Hrc<K, V, D> {
    /// Every node has exactly one edge list, whose header names the node.
    pub open(crate) spec fn shaped(&self) -> bool {
        forall|i: int| 0 <= i < self.nodes@.len() ==> (#[trigger] self.nodes@[i]).shaped(i)
    }

    /// What holds of the index at every step, also while a node is taken out of the
    /// graph to be connected anew.
    pub open spec fn sound(&self) -> bool {
        &&& self.shaped()
        &&& self.degrees_observed()
        &&& self@.sound()
    }

    /// No node has more neighbors than the highest number of edges that was
    /// observed.
    pub open(crate) spec fn degrees_observed(&self) -> bool {
        forall|n: int| 0 <= n < self@.adjacency.len() ==> (#[trigger] self@.adjacency[n]).len() <= self.most_edges
    }

    /// The state that every operation keeps: the index is sound and its graph is
    /// connected.
    pub open spec fn wf(&self) -> bool {
        &&& self.sound()
        &&& connected(self@.adjacency)
    }

    /// The node id held in the header of the edge list of `node` on `layer`.
    pub open(crate) spec fn header_node(&self, layer: usize, node: usize) -> usize {
        edge_list_owner(self.nodes@[node as int].layers@[layer as int])
    }

    /// The key to which the header of the edge list of `node` on `layer` leads.
    pub open(crate) spec fn header_key(&self, layer: usize, node: usize) -> K {
        self@.keys[self.header_node(layer, node) as int]
    }

    /// Creates a new index. It is empty and begins with default settings.
    pub fn new() -> (hrc: Self)
        ensures
            hrc.wf(),
            hrc@.len() == 0,
            hrc@.edges == 0,
            hrc@.freshest == 0,
            hrc@.max_cluster_len == 1024,
    {
        let hrc = Self {
            nodes: Vec::new(),
            freshest: 0,
            edges: 0,
            most_edges: 0,
            max_cluster_len: 1024,
            _phantom: PhantomData,
        };
        proof {
            assert(hrc@.adjacency =~= Seq::<Seq<usize>>::empty());
            assert(hrc.degrees_observed());
        }
        hrc
    }

    /// Sets the max number of items allowed in a cluster before it is split apart.
    pub fn max_cluster_len(self, max_cluster_len: usize) -> (hrc: Self)
        ensures
            hrc@ == (HrcView { max_cluster_len, ..self@ }),
            self.wf() ==> hrc.wf(),
    {
        let hrc = Self { max_cluster_len, ..self };
        proof {
            assert(hrc.nodes@ == self.nodes@);
        }
        hrc
    }

    /// Get the (key, value) pair of a node.
    pub fn get(&self, node: usize) -> (entry: Option<(&K, &V)>)
        ensures
            node < self@.len() ==> entry == Some((&self@.keys[node as int], &self@.values[node as int])),
            node >= self@.len() ==> entry.is_none(),
    {
        if node < self.nodes.len() {
            Some((&self.nodes[node].key, &self.nodes[node].value))
        } else {
            None
        }
    }

    /// Get the key of a node.
    pub fn get_key(&self, node: usize) -> (key: Option<&K>)
        ensures
            node < self@.len() ==> key == Some(&self@.keys[node as int]),
            node >= self@.len() ==> key.is_none(),
    {
        if node < self.nodes.len() {
            Some(&self.nodes[node].key)
        } else {
            None
        }
    }

    /// Get the value of a node.
    pub fn get_value(&self, node: usize) -> (value: Option<&V>)
        ensures
            node < self@.len() ==> value == Some(&self@.values[node as int]),
            node >= self@.len() ==> value.is_none(),
    {
        if node < self.nodes.len() {
            Some(&self.nodes[node].value)
        } else {
            None
        }
    }

    /// Checks if the graph is empty.
    pub fn is_empty(&self) -> (empty: bool)
        ensures
            empty == (self@.len() == 0),
    {
        self.nodes.len() == 0
    }

    /// Returns the number of (key, value) pairs added to the graph.
    pub fn len(&self) -> (len: usize)
        ensures
            len == self@.len(),
    {
        self.nodes.len()
    }

    /// Whether the index has room for one more node.
    pub fn has_room(&self) -> (room: bool)
        ensures
            room == has_room(self@.len()),
    {
        match self.nodes.len().checked_add(1) {
            Some(more) => more.checked_mul(more).is_some(),
            None => {
                proof {
                    let len = self@.len();
                    assert((len + 1) * (len + 1) >= len + 1) by (nonlinear_arith);
                }
                false
            },
        }
    }

    /// Returns the number of edges in the graph.
    pub fn edges(&self) -> (edges: usize)
        ensures
            edges == self@.edges,
    {
        self.edges
    }

    /// The number of neighbors of `node`.
    pub(crate) fn degree(&self, layer: usize, node: usize) -> (degree: usize)
        requires
            self.shaped(),
            layer == 0,
            node < self@.len(),
        ensures
            degree == self@.adjacency[node as int].len(),
    {
        edge_list_len(&self.nodes[node].layers[layer])
    }

    /// The neighbor of `node` at position `index` of its edge list.
    pub(crate) fn neighbor(&self, layer: usize, node: usize, index: usize) -> (neighbor: usize)
        requires
            self.shaped(),
            layer == 0,
            node < self@.len(),
            index < self@.adjacency[node as int].len(),
        ensures
            neighbor == self@.adjacency[node as int][index as int],
            self@.adjacency[node as int].contains(neighbor),
    {
        edge_list_get(&self.nodes[node].layers[layer], index)
    }

    /// The node that the header of the edge list of `node` names: the node itself.
    pub(crate) fn node_of(&self, layer: usize, node: usize) -> (id: usize)
        requires
            self.shaped(),
            layer == 0,
            node < self@.len(),
        ensures
            id == node,
    {
        edge_list_header(&self.nodes[node].layers[layer])
    }

    /// Whether `to` is a neighbor of `from`.
    pub(crate) fn has_edge(&self, layer: usize, from: usize, to: usize) -> (found: bool)
        requires
            self.shaped(),
            layer == 0,
            from < self@.len(),
        ensures
            found == self@.adjacency[from as int].contains(to),
    {
        let degree = self.degree(layer, from);
        let mut index: usize = 0;
        while index < degree
            invariant
                self.shaped(),
                layer == 0,
                from < self@.len(),
                degree == self@.adjacency[from as int].len(),
                index <= degree,
                forall|i: int| 0 <= i < index ==> self@.adjacency[from as int][i] != to,
            decreases degree - index,
        {
            if self.neighbor(layer, from, index) == to {
                return true;
            }
            index += 1;
        }
        false
    }

    /// Appends `to` to the edge list of `from`.
    pub(crate) fn push_edge(&mut self, layer: usize, from: usize, to: usize)
        requires
            old(self).shaped(),
            layer == 0,
            from < old(self)@.len(),
        ensures
            final(self).shaped(),
            final(self).most_edges == old(self).most_edges,
            final(self)@ == (HrcView {
                adjacency: old(self)@.adjacency.update(
                    from as int,
                    old(self)@.adjacency[from as int].push(to),
                ),
                ..old(self)@
            }),
    {
        edge_list_push(&mut self.nodes[from].layers[layer], to);
        proof {
            assert(self@.keys =~= old(self)@.keys);
            assert(self@.values =~= old(self)@.values);
            assert(self@.next =~= old(self)@.next);
            assert(self@.adjacency =~= old(self)@.adjacency.update(
                from as int,
                old(self)@.adjacency[from as int].push(to),
            ));
        }
    }

    /// Removes `to` from the edge list of `from`.
    pub(crate) fn remove_edge(&mut self, layer: usize, from: usize, to: usize)
        requires
            old(self).shaped(),
            layer == 0,
            from < old(self)@.len(),
        ensures
            final(self).shaped(),
            final(self).most_edges == old(self).most_edges,
            final(self)@ == (HrcView {
                adjacency: old(self)@.adjacency.update(
                    from as int,
                    without(old(self)@.adjacency[from as int], to),
                ),
                ..old(self)@
            }),
    {
        edge_list_retain(&mut self.nodes[from].layers[layer], Some(to));
        proof {
            assert(self@.keys =~= old(self)@.keys);
            assert(self@.values =~= old(self)@.values);
            assert(self@.next =~= old(self)@.next);
            assert(self@.adjacency =~= old(self)@.adjacency.update(
                from as int,
                without(old(self)@.adjacency[from as int], to),
            ));
        }
    }

    /// Empties the edge list of `node`.
    pub(crate) fn clear_edges(&mut self, layer: usize, node: usize)
        requires
            old(self).shaped(),
            layer == 0,
            node < old(self)@.len(),
        ensures
            final(self).shaped(),
            final(self).most_edges == old(self).most_edges,
            final(self)@ == (HrcView {
                adjacency: old(self)@.adjacency.update(node as int, Seq::<usize>::empty()),
                ..old(self)@
            }),
    {
        edge_list_retain(&mut self.nodes[node].layers[layer], None);
        proof {
            assert(self@.keys =~= old(self)@.keys);
            assert(self@.values =~= old(self)@.values);
            assert(self@.next =~= old(self)@.next);
            assert(self@.adjacency =~= old(self)@.adjacency.update(
                node as int,
                Seq::<usize>::empty(),
            ));
        }
    }

    /// Adds the undirected edge between `a` and `b`, which are distinct and not yet
    /// neighbors.
    pub(crate) fn add_edge(&mut self, layer: usize, a: usize, b: usize)
        requires
            old(self).sound(),
            layer == 0,
            a < old(self)@.len(),
            b < old(self)@.len(),
            a != b,
            !old(self)@.adjacency[a as int].contains(b),
        ensures
            final(self).sound(),
            final(self)@ == (HrcView {
                adjacency: with_edge(old(self)@.adjacency, a, b),
                edges: (old(self)@.edges + 1) as usize,
                ..old(self)@
            }),
            final(self)@.edges == old(self)@.edges + 1,
            final(self).most_edges == spec_max(
                old(self).most_edges as int,
                spec_max(
                    old(self)@.adjacency[a as int].len() as int + 1,
                    old(self)@.adjacency[b as int].len() as int + 1,
                ),
            ),
    {
        proof {
            lemma_with_edge(self@.adjacency, a, b);
            lemma_degree_sum_bound(with_edge(self@.adjacency, a, b));
        }
        self.push_edge(layer, a, b);
        self.push_edge(layer, b, a);
        self.edges += 1;
        let a_len = self.degree(layer, a);
        let b_len = self.degree(layer, b);
        let larger = if a_len > b_len {
            a_len
        } else {
            b_len
        };
        if larger > self.most_edges {
            self.most_edges = larger;
        }
    }

    /// Adds the undirected edge between the distinct nodes `a` and `b` unless they
    /// are neighbors already. Returns whether it was added.
    pub(crate) fn add_edge_dedup(&mut self, layer: usize, a: usize, b: usize) -> (added: bool)
        requires
            old(self).sound(),
            layer == 0,
            a < old(self)@.len(),
            b < old(self)@.len(),
            a != b,
        ensures
            final(self).sound(),
            added == !old(self)@.adjacency[a as int].contains(b),
            !added ==> final(self)@ == old(self)@,
            added ==> final(self)@ == (HrcView {
                adjacency: with_edge(old(self)@.adjacency, a, b),
                edges: (old(self)@.edges + 1) as usize,
                ..old(self)@
            }),
    {
        if !self.has_edge(layer, a, b) {
            self.add_edge(layer, a, b);
            true
        } else {
            false
        }
    }
}

impl<K, V, D> Default for Hrc<K, V, D> {
    fn default() -> (hrc: Self)
        ensures
            hrc.wf(),
            hrc@.len() == 0,
            hrc@.edges == 0,
            hrc@.max_cluster_len == 1024,
    {
        Self::new()
    }
}

} // verus!
