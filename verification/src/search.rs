//! Greedy nearest-neighbor search, the distance between nodes, and the best of the
//! distances from a set of keys.

use crate::greedy::{closest_neighbor, first_min, greedy_end, ranks_along};
use crate::index::Hrc;
use crate::metric::{Distance, MetricPoint, ranks_to, stored};
use vstd::prelude::*;

verus! {

/// The smallest of `bound` and the elements of `ranks`.
pub open spec fn least(bound: u64, ranks: Seq<u64>) -> u64
    decreases ranks.len(),
{
    if ranks.len() == 0 {
        bound
    } else if ranks.last() < least(bound, ranks.drop_last()) {
        ranks.last()
    } else {
        least(bound, ranks.drop_last())
    }
}

/// How often `rank` occurs in `ranks`.
pub open spec fn occurrences(ranks: Seq<u64>, rank: u64) -> nat
    decreases ranks.len(),
{
    if ranks.len() == 0 {
        0
    } else {
        occurrences(ranks.drop_last(), rank) + if ranks.last() == rank {
            1nat
        } else {
            0nat
        }
    }
}

/// The kept distances from each of `keys` to `target`, by their place in the order
/// of `u64`.
pub open spec fn ranks_from<K: MetricPoint, D: Distance>(keys: Seq<K>, target: K) -> Seq<u64> {
    Seq::new(keys.len(), |i: int| stored::<K, D>(keys[i], target).rank())
}

/// No element is below the least, and nothing below the least occurs.
pub(crate) proof fn lemma_least(bound: u64, ranks: Seq<u64>, rank: u64)
    ensures
        least(bound, ranks) <= bound,
        rank < least(bound, ranks) ==> occurrences(ranks, rank) == 0,
        least(bound, ranks) < bound ==> occurrences(ranks, least(bound, ranks)) >= 1,
    decreases ranks.len(),
{
    if ranks.len() > 0 {
        lemma_least(bound, ranks.drop_last(), rank);
        lemma_least(bound, ranks.drop_last(), least(bound, ranks));
    }
}

/// What a search or an optimization aims at: a key from outside, or the key of a
/// node of the index.
pub(crate) enum Target<'a, K> {
    Key(&'a K),
    Node(usize),
}

impl<K: MetricPoint, V, D: Distance> Hrc<K, V, D> {
    /// The kept distance of every node to `query`, by its place in the order of `u64`.
    pub open spec fn ranks(&self, query: K) -> Seq<u64> {
        ranks_to::<K, D>(self@.keys, query)
    }

    /// The key that a target stands for.
    pub(crate) open spec fn target_key(&self, target: Target<K>) -> K {
        match target {
            Target::Key(key) => *key,
            Target::Node(node) => self@.keys[node as int],
        }
    }

    /// Whether a target names a key that exists.
    pub(crate) open spec fn target_ok(&self, target: Target<K>) -> bool {
        match target {
            Target::Key(_) => true,
            Target::Node(node) => node < self@.len(),
        }
    }

    /// The key that a target stands for.
    pub(crate) fn key_of<'a>(&'a self, target: &'a Target<'a, K>) -> (key: &'a K)
        requires
            self.target_ok(*target),
        ensures
            *key == self.target_key(*target),
    {
        match target {
            Target::Key(key) => key,
            Target::Node(node) => &self.nodes[*node].key,
        }
    }

    /// The distance from `query` to the key of `node`, as it is kept.
    pub(crate) fn stored_distance(&self, query: &K, node: usize) -> (d: D)
        requires
            node < self@.len(),
        ensures
            d == stored::<K, D>(*query, self@.keys[node as int]),
            d.rank() == self.ranks(*query)[node as int],
    {
        D::narrow(query.distance(&self.nodes[node].key))
    }

    /// The neighbor of `node` that is closest to `query`, the first of them in the
    /// edge list, with its distance.
    pub(crate) fn nearest_neighbor(&self, layer: usize, node: usize, query: &K) -> (best: Option<
        (usize, D),
    >)
        requires
            self.sound(),
            layer == 0,
            node < self@.len(),
        ensures
            match best {
                Some((m, d)) => closest_neighbor(self@.adjacency, self.ranks(*query), node) == Some(m)
                    && m < self@.len() && d == stored::<K, D>(*query, self@.keys[m as int])
                    && d.rank() == self.ranks(*query)[m as int],
                None => closest_neighbor(self@.adjacency, self.ranks(*query), node).is_none(),
            },
    {
        let degree = self.degree(layer, node);
        if degree == 0 {
            return None;
        }
        let ghost edges = self@.adjacency[node as int];
        let ghost along = ranks_along(edges, self.ranks(*query));
        let mut best = self.neighbor(layer, node, 0);
        let mut best_distance: D = self.stored_distance(query, best);
        let mut index: usize = 1;
        let ghost mut position: int = 0;
        proof {
            assert(along.take(1).len() == 1);
        }
        while index < degree
            invariant
                self.sound(),
                layer == 0,
                node < self@.len(),
                edges == self@.adjacency[node as int],
                along == ranks_along(edges, self.ranks(*query)),
                degree == edges.len(),
                1 <= index <= degree,
                position == first_min(along.take(index as int)),
                0 <= position < index,
                best == edges[position],
                best < self@.len(),
                best_distance == stored::<K, D>(*query, self@.keys[best as int]),
                best_distance.rank() == along[position],
            decreases degree - index,
        {
            let candidate = self.neighbor(layer, node, index);
            let distance: D = self.stored_distance(query, candidate);
            proof {
                let longer = along.take(index as int + 1);
                assert(longer.drop_last() =~= along.take(index as int));
                assert(longer.last() == along[index as int]);
                assert(longer[position] == along[position]);
            }
            if distance.widen() < best_distance.widen() {
                best = candidate;
                best_distance = distance;
                proof {
                    position = index as int;
                }
            }
            index += 1;
        }
        proof {
            assert(along.take(degree as int) =~= along);
        }
        Some((best, best_distance))
    }

    /// Descends greedily from `from`, whose distance to `query` is `from_distance`.
    pub(crate) fn greedy_from(&self, layer: usize, from: usize, from_distance: D, query: &K) -> (found: (
        usize,
        D,
    ))
        requires
            self.sound(),
            layer == 0,
            from < self@.len(),
            from_distance == stored::<K, D>(*query, self@.keys[from as int]),
        ensures
            found.0 == greedy_end(self@.adjacency, self.ranks(*query), from),
            found.0 < self@.len(),
            found.1.rank() == self.ranks(*query)[found.0 as int],
            found.1 == stored::<K, D>(*query, self@.keys[found.0 as int]),
    {
        let mut best = from;
        let mut best_distance = from_distance;
        loop
            invariant
                self.sound(),
                layer == 0,
                best < self@.len(),
                best_distance.rank() == self.ranks(*query)[best as int],
                greedy_end(self@.adjacency, self.ranks(*query), best) == greedy_end(
                    self@.adjacency,
                    self.ranks(*query),
                    from,
                ),
                best_distance == stored::<K, D>(*query, self@.keys[best as int]),
            decreases best_distance.rank(),
        {
            match self.nearest_neighbor(layer, best, query) {
                Some((neighbor, distance)) => {
                    if distance.widen() < best_distance.widen() {
                        best = neighbor;
                        best_distance = distance;
                    } else {
                        return (best, best_distance);
                    }
                },
                None => {
                    return (best, best_distance);
                },
            }
        }
    }

    /// Finds the nearest neighbor to the query key starting from the `from` node using
    /// greedy search.
    ///
    /// Returns `(node, distance)`.
    pub fn search_from(&self, layer: usize, from: usize, query: &K) -> (found: (usize, D))
        requires
            self.wf(),
            layer == 0,
            from < self@.len(),
        ensures
            found.0 == greedy_end(self@.adjacency, self.ranks(*query), from),
            found.0 < self@.len(),
            found.1 == stored::<K, D>(*query, self@.keys[found.0 as int]),
    {
        let from_distance: D = self.stored_distance(query, from);
        self.greedy_from(layer, from, from_distance, query)
    }

    /// Searches for the nearest neighbor greedily, starting from node 0.
    ///
    /// Returns `(node, distance)`, or nothing if the index is empty.
    pub fn search(&self, layer: usize, query: &K) -> (found: Option<(usize, D)>)
        requires
            self.wf(),
            layer == 0 || self@.len() == 0,
        ensures
            self@.len() == 0 ==> found.is_none(),
            self@.len() > 0 ==> found.is_some() && found.unwrap().0 == greedy_end(
                self@.adjacency,
                self.ranks(*query),
                0,
            ) && found.unwrap().0 < self@.len() && found.unwrap().1 == stored::<K, D>(
                *query,
                self@.keys[found.unwrap().0 as int],
            ),
    {
        if self.is_empty() {
            None
        } else {
            Some(self.search_from(layer, 0, query))
        }
    }

    /// Determines if there is a best key in searching to a target that is better
    /// than a threshold distance. If there is, it returns `None`. However, if there
    /// isn't, it returns the best `Some(distance)`.
    ///
    /// `Some(distance)` comes in two cases. If nothing is better than `to_beat`,
    /// then `to_beat` is returned. If something is better than `to_beat`, but two
    /// or more keys have that best distance, then that distance is returned.
    pub fn find_non_better_or_non_unqiue_best_distance(to_beat: D, target: &K, keys: &[K]) -> (best: Option<
        D,
    >)
        ensures
            best.is_some() <==> least(to_beat.rank(), ranks_from::<K, D>(keys@, *target)) == to_beat.rank()
                || occurrences(
                ranks_from::<K, D>(keys@, *target),
                least(to_beat.rank(), ranks_from::<K, D>(keys@, *target)),
            ) >= 2,
            best.is_some() ==> best.unwrap().rank() == least(
                to_beat.rank(),
                ranks_from::<K, D>(keys@, *target),
            ),
            best.is_some() && least(to_beat.rank(), ranks_from::<K, D>(keys@, *target)) == to_beat.rank()
                ==> best.unwrap() == to_beat,
            best.is_some() && least(to_beat.rank(), ranks_from::<K, D>(keys@, *target)) < to_beat.rank()
                ==> exists|i: int|
                0 <= i < keys@.len() && best.unwrap() == stored::<K, D>(#[trigger] keys@[i], *target),
    {
        let ghost ranks = ranks_from::<K, D>(keys@, *target);
        let ghost bound = to_beat.rank();
        let given = to_beat;
        let mut to_beat = to_beat;
        // Duplicate is set to true initially so that if nothing better is found, the initial distance
        // is returned.
        let mut duplicate = true;
        let mut index: usize = 0;
        proof {
            assert(ranks.take(0) =~= Seq::<u64>::empty());
        }
        while index < keys.len()
            invariant
                index <= keys.len(),
                ranks == ranks_from::<K, D>(keys@, *target),
                ranks.len() == keys@.len(),
                to_beat.rank() == least(bound, ranks.take(index as int)),
                to_beat.rank() == bound ==> to_beat == given,
                to_beat.rank() < bound ==> exists|i: int|
                    0 <= i < index && to_beat == stored::<K, D>(#[trigger] keys@[i], *target),
                duplicate <==> to_beat.rank() == bound || occurrences(ranks.take(index as int), to_beat.rank())
                    >= 2,
            decreases keys.len() - index,
        {
            let distance: D = D::narrow(keys[index].distance(target));
            proof {
                let shorter = ranks.take(index as int);
                let longer = ranks.take(index as int + 1);
                assert(longer.drop_last() =~= shorter);
                assert(longer.last() == distance.rank());
                lemma_least(bound, shorter, distance.rank());
                lemma_least(bound, shorter, to_beat.rank());
            }
            let ghost before = to_beat;
            if distance.widen() < to_beat.widen() {
                duplicate = false;
                to_beat = distance;
            } else if distance.widen() == to_beat.widen() {
                duplicate = true;
            }
            proof {
                if to_beat.rank() < bound {
                    if to_beat == before {
                        let i = choose|i: int|
                            0 <= i < index && before == stored::<K, D>(#[trigger] keys@[i], *target);
                        assert(to_beat == stored::<K, D>(keys@[i], *target));
                    } else {
                        assert(to_beat == stored::<K, D>(keys@[index as int], *target));
                    }
                }
            }
            index += 1;
        }
        proof {
            assert(ranks.take(keys@.len() as int) =~= ranks);
        }
        if duplicate {
            Some(to_beat)
        } else {
            None
        }
    }

    /// Computes the distance between two nodes.
    pub fn distance(&self, a: usize, b: usize) -> (d: D)
        requires
            a < self@.len(),
            b < self@.len(),
        ensures
            d == stored::<K, D>(self@.keys[a as int], self@.keys[b as int]),
    {
        D::narrow(self.nodes[a].key.distance(&self.nodes[b].key))
    }
}

} // verus!
