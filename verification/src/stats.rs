//! What the index reports about its graph: the adjacency itself, and how many nodes
//! have how many edges.

use crate::index::Hrc;
use vstd::prelude::*;

verus! {

/// The number of nodes that have `degree` neighbors.
pub open spec fn count_degree(adj: Seq<Seq<usize>>, degree: usize) -> nat
    decreases adj.len(),
{
    if adj.len() == 0 {
        0
    } else {
        count_degree(adj.drop_last(), degree) + if adj.last().len() == degree {
            1nat
        } else {
            0nat
        }
    }
}

/// A histogram of the degrees of a graph: pairs of a degree and the number of nodes
/// that have it, for every degree that some node has, by ascending degree.
pub open spec fn is_histogram(adj: Seq<Seq<usize>>, histogram: Seq<(usize, usize)>) -> bool {
    &&& forall|i: int, j: int|
        0 <= i < j < histogram.len() ==> (#[trigger] histogram[i]).0 < (#[trigger] histogram[j]).0
    &&& forall|i: int|
        0 <= i < histogram.len() ==> (#[trigger] histogram[i]).1 == count_degree(adj, histogram[i].0)
            && histogram[i].1 > 0
    &&& forall|n: int|
        0 <= n < adj.len() ==> exists|i: int|
            0 <= i < histogram.len() && (#[trigger] histogram[i]).0 == (#[trigger] adj[n]).len()
}

/// No more nodes have a degree than there are nodes.
pub(crate) proof fn lemma_count_degree_bound(adj: Seq<Seq<usize>>, degree: usize)
    ensures
        count_degree(adj, degree) <= adj.len(),
    decreases adj.len(),
{
    if adj.len() > 0 {
        lemma_count_degree_bound(adj.drop_last(), degree);
    }
}

/// The place of `degree` in a histogram, or the place at which it belongs.
pub(crate) fn find_degree(histogram: &Vec<(usize, usize)>, degree: usize) -> (place: Result<usize, usize>)
    requires
        forall|i: int, j: int|
            0 <= i < j < histogram.len() ==> (#[trigger] histogram@[i]).0 < (#[trigger] histogram@[j]).0,
    ensures
        match place {
            Ok(at) => at < histogram.len() && histogram@[at as int].0 == degree,
            Err(at) => at <= histogram.len() && (forall|i: int|
                0 <= i < at ==> (#[trigger] histogram@[i]).0 < degree) && (forall|i: int|
                at <= i < histogram.len() ==> (#[trigger] histogram@[i]).0 > degree),
        },
{
    let mut low: usize = 0;
    let mut high: usize = histogram.len();
    while low < high
        invariant
            forall|i: int, j: int|
                0 <= i < j < histogram.len() ==> (#[trigger] histogram@[i]).0 < (#[trigger] histogram@[j]).0,
            low <= high <= histogram.len(),
            forall|i: int| 0 <= i < low ==> (#[trigger] histogram@[i]).0 < degree,
            forall|i: int| high <= i < histogram.len() ==> (#[trigger] histogram@[i]).0 > degree,
        decreases high - low,
    {
        let middle = low + (high - low) / 2;
        let found = histogram[middle].0;
        if found == degree {
            return Ok(middle);
        } else if found < degree {
            proof {
                assert forall|i: int| 0 <= i < middle + 1 implies (#[trigger] histogram@[i]).0 < degree by {
                    if i < middle {
                        assert(histogram@[i].0 < histogram@[middle as int].0);
                    }
                }
            }
            low = middle + 1;
        } else {
            proof {
                assert forall|i: int| middle <= i < histogram.len() implies (#[trigger] histogram@[i]).0
                    > degree by {
                    if i > middle {
                        assert(histogram@[middle as int].0 < histogram@[i].0);
                    }
                }
            }
            high = middle;
        }
    }
    Err(low)
}

/// Counting one more node keeps a histogram a histogram.
pub(crate) proof fn lemma_histogram_counts(
    adj: Seq<Seq<usize>>,
    list: Seq<usize>,
    before: Seq<(usize, usize)>,
    after: Seq<(usize, usize)>,
    at: int,
)
    requires
        is_histogram(adj, before),
        list.len() <= usize::MAX,
        0 <= at < before.len(),
        before[at].0 == list.len(),
        after.len() == before.len(),
        after[at] == (before[at].0, (before[at].1 + 1) as usize),
        before[at].1 < usize::MAX,
        forall|i: int| 0 <= i < before.len() && i != at ==> after[i] == before[i],
    ensures
        is_histogram(adj.push(list), after),
{
    let more = adj.push(list);
    assert(more.drop_last() =~= adj);
    assert forall|i: int| 0 <= i < after.len() implies (#[trigger] after[i]).0 == before[i].0 by {}
    assert forall|i: int, j: int| 0 <= i < j < after.len() implies (#[trigger] after[i]).0 < (
    #[trigger] after[j]).0 by {
        assert(before[i].0 < before[j].0);
    }
    assert forall|i: int| 0 <= i < after.len() implies (#[trigger] after[i]).1 == count_degree(
        more,
        after[i].0,
    ) && after[i].1 > 0 by {
        assert(before[i].1 == count_degree(adj, before[i].0));
        if i != at {
            if i < at {
                assert(before[i].0 < before[at].0);
            } else {
                assert(before[at].0 < before[i].0);
            }
        }
    }
    assert forall|n: int| 0 <= n < more.len() implies exists|i: int|
        0 <= i < after.len() && (#[trigger] after[i]).0 == (#[trigger] more[n]).len() by {
        if n < adj.len() {
            assert(more[n] == adj[n]);
            let i = choose|i: int| 0 <= i < before.len() && (#[trigger] before[i]).0 == adj[n].len();
            assert(after[i].0 == adj[n].len());
        } else {
            assert(after[at].0 == list.len());
        }
    }
}

/// A histogram of a graph lacks the degrees that no node has.
pub(crate) proof fn lemma_count_degree_none(adj: Seq<Seq<usize>>, histogram: Seq<(usize, usize)>, degree: usize)
    requires
        is_histogram(adj, histogram),
        forall|i: int| 0 <= i < histogram.len() ==> (#[trigger] histogram[i]).0 != degree,
    ensures
        count_degree(adj, degree) == 0,
{
    lemma_count_degree_absent(adj, degree);
    if exists|n: int| 0 <= n < adj.len() && (#[trigger] adj[n]).len() == degree {
        let n = choose|n: int| 0 <= n < adj.len() && (#[trigger] adj[n]).len() == degree;
        let i = choose|i: int| 0 <= i < histogram.len() && (#[trigger] histogram[i]).0 == adj[n].len();
        assert(histogram[i].0 != degree);
    }
}

/// A degree that no node has is counted zero times.
proof fn lemma_count_degree_absent(adj: Seq<Seq<usize>>, degree: usize)
    ensures
        (forall|n: int| 0 <= n < adj.len() ==> (#[trigger] adj[n]).len() != degree) ==> count_degree(
            adj,
            degree,
        ) == 0,
    decreases adj.len(),
{
    if adj.len() > 0 {
        lemma_count_degree_absent(adj.drop_last(), degree);
        if forall|n: int| 0 <= n < adj.len() ==> (#[trigger] adj[n]).len() != degree {
            assert forall|n: int| 0 <= n < adj.drop_last().len() implies (#[trigger] adj.drop_last()[n]).len()
                != degree by {
                assert(adj.drop_last()[n] == adj[n]);
            }
            assert(adj[adj.len() - 1].len() != degree);
        }
    }
}

/// Putting a degree that no node had yet in its place, for one more node, keeps a
/// histogram a histogram.
pub(crate) proof fn lemma_histogram_inserts(
    adj: Seq<Seq<usize>>,
    list: Seq<usize>,
    before: Seq<(usize, usize)>,
    at: int,
)
    requires
        is_histogram(adj, before),
        list.len() <= usize::MAX,
        0 <= at <= before.len(),
        forall|i: int| 0 <= i < at ==> (#[trigger] before[i]).0 < list.len(),
        forall|i: int| at <= i < before.len() ==> (#[trigger] before[i]).0 > list.len(),
    ensures
        is_histogram(adj.push(list), before.insert(at, (list.len() as usize, 1usize))),
{
    let more = adj.push(list);
    let degree = list.len() as usize;
    let after = before.insert(at, (degree, 1usize));
    before.insert_ensures(at, (degree, 1usize));
    assert(more.drop_last() =~= adj);
    lemma_count_degree_none(adj, before, degree);
    assert forall|i: int| 0 <= i < after.len() implies #[trigger] after[i] == (if i < at {
        before[i]
    } else if i == at {
        (degree, 1usize)
    } else {
        before[i - 1]
    }) by {}
    assert forall|i: int, j: int| 0 <= i < j < after.len() implies (#[trigger] after[i]).0 < (
    #[trigger] after[j]).0 by {
        if i < at && j > at {
            assert(before[i].0 < degree);
            assert(before[j - 1].0 > degree);
        } else if i < at && j < at {
            assert(before[i].0 < before[j].0);
        } else if i > at {
            assert(before[i - 1].0 < before[j - 1].0);
        } else if i < at {
            assert(before[i].0 < degree);
        } else {
            assert(before[j - 1].0 > degree);
        }
    }
    assert forall|i: int| 0 <= i < after.len() implies (#[trigger] after[i]).1 == count_degree(
        more,
        after[i].0,
    ) && after[i].1 > 0 by {
        if i < at {
            assert(before[i].1 == count_degree(adj, before[i].0));
            assert(before[i].0 < degree);
        } else if i > at {
            assert(before[i - 1].1 == count_degree(adj, before[i - 1].0));
            assert(before[i - 1].0 > degree);
        }
    }
    assert forall|n: int| 0 <= n < more.len() implies exists|i: int|
        0 <= i < after.len() && (#[trigger] after[i]).0 == (#[trigger] more[n]).len() by {
        if n < adj.len() {
            assert(more[n] == adj[n]);
            let i = choose|i: int| 0 <= i < before.len() && (#[trigger] before[i]).0 == adj[n].len();
            if i < at {
                assert(after[i].0 == adj[n].len());
            } else {
                assert(after[i + 1] == before[i]);
            }
        } else {
            assert(after[at].0 == list.len());
        }
    }
}

impl<K, V, D> Hrc<K, V, D> {
    /// A copy of the edge list of `node`.
    pub(crate) fn neighbors_of(&self, layer: usize, node: usize) -> (neighbors: Vec<usize>)
        requires
            self.shaped(),
            layer == 0,
            node < self@.len(),
        ensures
            neighbors@ == self@.adjacency[node as int],
    {
        let degree = self.degree(layer, node);
        let mut neighbors: Vec<usize> = Vec::new();
        let mut index: usize = 0;
        while index < degree
            invariant
                self.shaped(),
                layer == 0,
                node < self@.len(),
                degree == self@.adjacency[node as int].len(),
                index <= degree,
                neighbors@ == self@.adjacency[node as int].take(index as int),
            decreases degree - index,
        {
            neighbors.push(self.neighbor(layer, node, index));
            proof {
                assert(self@.adjacency[node as int].take(index as int + 1) =~= self@.adjacency[node as int].take(
                    index as int,
                ).push(self@.adjacency[node as int][index as int]));
            }
            index += 1;
        }
        proof {
            assert(self@.adjacency[node as int].take(degree as int) =~= self@.adjacency[node as int]);
        }
        neighbors
    }

    /// The adjacency of the base layer: for each node the ids of its neighbors, in
    /// the order in which the edges were added.
    pub fn simple_representation(&self) -> (lists: Vec<Vec<usize>>)
        requires
            self.wf(),
        ensures
            lists@.len() == self@.len(),
            forall|n: int| 0 <= n < lists@.len() ==> (#[trigger] lists@[n])@ == self@.adjacency[n],
    {
        let mut lists: Vec<Vec<usize>> = Vec::new();
        let mut node: usize = 0;
        while node < self.nodes.len()
            invariant
                self.wf(),
                node <= self@.len(),
                lists@.len() == node,
                forall|n: int| 0 <= n < node ==> (#[trigger] lists@[n])@ == self@.adjacency[n],
            decreases self@.len() - node,
        {
            let degree = self.degree(0, node);
            let mut list: Vec<usize> = Vec::new();
            let mut index: usize = 0;
            while index < degree
                invariant
                    self.wf(),
                    node < self@.len(),
                    degree == self@.adjacency[node as int].len(),
                    index <= degree,
                    list@ == self@.adjacency[node as int].take(index as int),
                decreases degree - index,
            {
                // The header of the neighbor's edge list names the neighbor.
                let neighbor = self.neighbor(0, node, index);
                list.push(self.node_of(0, neighbor));
                proof {
                    assert(self@.adjacency[node as int].take(index as int + 1) =~= self@.adjacency[node as int].take(
                        index as int,
                    ).push(self@.adjacency[node as int][index as int]));
                }
                index += 1;
            }
            proof {
                assert(self@.adjacency[node as int].take(degree as int) =~= self@.adjacency[node as int]);
            }
            lists.push(list);
            node += 1;
        }
        lists
    }

    /// The histogram of the degrees on `layer`: `(degree, count)` pairs by ascending
    /// degree, over the nodes that exist on that layer.
    pub(crate) fn layer_histogram(&self, layer: usize) -> (histogram: Vec<(usize, usize)>)
        requires
            self.shaped(),
        ensures
            layer == 0 ==> is_histogram(self@.adjacency, histogram@),
            layer > 0 ==> histogram@.len() == 0,
            histogram@.len() == 0 <==> layer > 0 || self@.len() == 0,
    {
        let mut histogram: Vec<(usize, usize)> = Vec::new();
        let mut node: usize = 0;
        proof {
            assert(self@.adjacency.take(0) =~= Seq::<Seq<usize>>::empty());
        }
        while node < self.nodes.len()
            invariant
                self.shaped(),
                node <= self@.len(),
                layer == 0 ==> is_histogram(self@.adjacency.take(node as int), histogram@),
                layer > 0 ==> histogram@.len() == 0,
                layer == 0 && node > 0 ==> histogram@.len() > 0,
                node == 0 ==> histogram@.len() == 0,
            decreases self@.len() - node,
        {
            if self.nodes[node].layers.len() > layer {
                let edges = self.degree(layer, node);
                let ghost seen = self@.adjacency.take(node as int);
                let ghost list = self@.adjacency[node as int];
                proof {
                    assert(self@.adjacency.take(node as int + 1) =~= seen.push(list));
                }
                match find_degree(&histogram, edges) {
                    Ok(pos) => {
                        let ghost before = histogram@;
                        proof {
                            lemma_count_degree_bound(seen, edges);
                        }
                        let count = histogram[pos].1;
                        histogram[pos] = (edges, count + 1);
                        proof {
                            lemma_histogram_counts(seen, list, before, histogram@, pos as int);
                        }
                    },
                    Err(pos) => {
                        proof {
                            lemma_histogram_inserts(seen, list, histogram@, pos as int);
                        }
                        histogram.insert(pos, (edges, 1));
                    },
                }
            }
            node += 1;
        }
        proof {
            assert(self@.adjacency.take(self@.len() as int) =~= self@.adjacency);
        }
        histogram
    }

    /// Per-layer histograms of `(degree, count)` pairs sorted by degree ascending,
    /// one inner vector per layer until a layer is empty.
    pub fn histogram(&self) -> (histograms: Vec<Vec<(usize, usize)>>)
        requires
            self.wf(),
        ensures
            self@.len() == 0 ==> histograms@.len() == 0,
            self@.len() > 0 ==> histograms@.len() == 1 && is_histogram(self@.adjacency, histograms@[0]@),
    {
        let mut histograms: Vec<Vec<(usize, usize)>> = Vec::new();
        let mut layer: usize = 0;
        loop
            invariant
                self.shaped(),
                layer <= 1,
                histograms@.len() == layer,
                layer == 1 ==> self@.len() > 0 && is_histogram(self@.adjacency, histograms@[0]@),
            decreases 2 - layer,
        {
            let histogram = self.layer_histogram(layer);
            if histogram.len() == 0 {
                return histograms;
            } else {
                histograms.push(histogram);
            }
            layer += 1;
        }
    }
}

} // verus!
