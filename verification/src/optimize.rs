//! Optimization: shortcut edges that make a strictly descending path exist from a
//! node towards a target.

use crate::graph::{
    degree_sum, extends, lemma_degree_sum_bound, lemma_degree_sum_least, lemma_distinct_bounded,
    lemma_with_edge, with_edge,
};
use crate::greedy::{
    global_minimum, greedy_end, lemma_bottom_stays, lemma_greedy_end, lemma_greedy_same_above,
    lemma_shortcut, local_minimum,
};
use crate::index::Hrc;
use crate::knn::{lemma_knn_covers, neighborhood_of};
use crate::metric::{Distance, MetricPoint, ranks_to, stored};
use crate::reach::{
    connected, lemma_connected_degree, lemma_connected_extends, lemma_extends_chain,
    lemma_extends_self, lemma_reachable_isolated, reachable,
};
use crate::search::Target;
use vstd::pervasive::unreached;
use vstd::prelude::*;

verus! {

/// Twice `n`, or the largest value where that does not fit.
pub(crate) fn doubled(n: usize) -> (twice: usize)
    ensures
        twice == self::twice(n),
{
    if n > usize::MAX / 2 {
        usize::MAX
    } else {
        n * 2
    }
}

/// Three times `n`, or the largest value where that does not fit.
pub(crate) fn tripled(n: usize) -> (thrice: usize)
    ensures
        thrice == if 3 * n <= usize::MAX {
            3 * n
        } else {
            usize::MAX as int
        },
{
    if n > usize::MAX / 3 {
        usize::MAX
    } else {
        n * 3
    }
}

/// Twice `n`, or the largest value where that does not fit.
pub open spec fn twice(n: usize) -> usize {
    if 2 * n <= usize::MAX {
        (2 * n) as usize
    } else {
        usize::MAX
    }
}

/// The first of `others` whose rank is below `bound`.
pub open spec fn first_below(others: Seq<usize>, ranks: Seq<u64>, bound: u64) -> Option<usize>
    decreases others.len(),
{
    if others.len() == 0 {
        None
    } else if ranks[others[0] as int] < bound {
        Some(others[0])
    } else {
        first_below(others.subrange(1, others.len() as int), ranks, bound)
    }
}

/// The node that breaks through the local minimum `pos`: the nearest node of the
/// neighborhood of `pos` that is closer to the target than `pos`, where the
/// neighborhood is searched with `quality` and then with ever twice that, until such
/// a node is found or the quality has reached the number of nodes.
pub open spec fn swept<K: MetricPoint, D: Distance>(
    adj: Seq<Seq<usize>>,
    keys: Seq<K>,
    ranks: Seq<u64>,
    pos: usize,
    quality: usize,
) -> Option<usize>
    decreases
            (if quality < adj.len() {
                adj.len() - quality
            } else {
                0
            }),
{
    let found = first_below(neighborhood_of::<K, D>(adj, keys, pos, quality), ranks, ranks[pos as int]);
    if found.is_some() || quality >= adj.len() || twice(quality) <= quality {
        found
    } else {
        swept::<K, D>(adj, keys, ranks, pos, twice(quality))
    }
}

/// The graph and the node at which the optimization towards a target ends that has
/// come to the local minimum `pos`: within `min` of the target, at a node without
/// edges or where no node breaks through, that is `pos`; else the node that breaks
/// through is linked to `pos`, and the optimization goes on from the end of the
/// greedy descent from that node. `ranks` are the ranks towards the target.
#[verifier::opaque]
pub open spec fn descended<K: MetricPoint, D: Distance>(
    adj: Seq<Seq<usize>>,
    keys: Seq<K>,
    ranks: Seq<u64>,
    min: u64,
    pos: usize,
) -> (Seq<Seq<usize>>, usize)
    decreases ranks[pos as int],
{
    if ranks[pos as int] <= min || adj[pos as int].len() == 0 {
        (adj, pos)
    } else {
        match swept::<K, D>(adj, keys, ranks, pos, twice(adj[pos as int].len() as usize)) {
            None => (adj, pos),
            Some(closer) => {
                let linked = with_edge(adj, closer, pos);
                let end = greedy_end(linked, ranks, closer);
                if ranks[end as int] < ranks[pos as int] {
                    descended::<K, D>(linked, keys, ranks, min, end)
                } else {
                    (linked, end)
                }
            },
        }
    }
}

/// The graph after the connection from `from` to `to` was optimized: the
/// optimization towards the key of `to` is run from the end of the greedy descent
/// from `from`, and where it ends at another node than `to`, that node is linked
/// to `to`.
#[verifier::opaque]
pub open spec fn connected_from<K: MetricPoint, D: Distance>(
    adj: Seq<Seq<usize>>,
    keys: Seq<K>,
    from: usize,
    to: usize,
) -> Seq<Seq<usize>> {
    if from == to {
        adj
    } else {
        let ranks = ranks_to::<K, D>(keys, keys[to as int]);
        let (grown, found) = descended::<K, D>(
            adj,
            keys,
            ranks,
            D::narrowed(0).rank(),
            greedy_end(adj, ranks, from),
        );
        if found != to && !grown[found as int].contains(to) {
            with_edge(grown, found, to)
        } else {
            grown
        }
    }
}

/// The graph after the connections between `node` and each of the `count` nodes
/// from `start` on were optimized in both directions, in turn.
pub open spec fn connected_range<K: MetricPoint, D: Distance>(
    adj: Seq<Seq<usize>>,
    keys: Seq<K>,
    node: usize,
    start: usize,
    count: nat,
) -> Seq<Seq<usize>>
    decreases count,
{
    if count == 0 {
        adj
    } else {
        let before = connected_range::<K, D>(adj, keys, node, start, (count - 1) as nat);
        let other = (start + count - 1) as usize;
        connected_from::<K, D>(connected_from::<K, D>(before, keys, node, other), keys, other, node)
    }
}

/// The size of neighborhood that searches use by default: three times the number
/// of edges and one, by the number of nodes.
pub open spec fn optimal_k_of(edges: nat, len: nat) -> nat {
    let thrice: int = if 3 * (edges + 1) <= usize::MAX {
        3 * (edges as int + 1)
    } else {
        usize::MAX as int
    };
    (thrice / (if len == 0 {
        1
    } else {
        len as int
    })) as nat
}

/// Whether a graph is connected, or is so but for its last node, which has no edges
/// yet.
pub open spec fn connected_but_last(adj: Seq<Seq<usize>>) -> bool {
    ||| connected(adj)
    ||| adj.len() >= 1 && connected(adj.drop_last()) && adj.last().len() == 0
}

/// In a graph that is connected, at least but for a last node without edges, the
/// default size of neighborhood is at least one.
pub proof fn lemma_optimal_k(adj: Seq<Seq<usize>>, edges: nat)
    requires
        connected_but_last(adj),
        2 * edges == degree_sum(adj),
        adj.len() <= usize::MAX,
    ensures
        optimal_k_of(edges, adj.len()) >= 1,
{
    let len = adj.len();
    if connected(adj) {
        if len >= 2 {
            assert forall|n: int| 0 <= n < adj.len() implies (#[trigger] adj[n]).len() >= 1 by {
                lemma_connected_degree(adj, n as usize);
            }
            lemma_degree_sum_least(adj);
        }
    } else {
        let front = adj.drop_last();
        if front.len() >= 2 {
            assert forall|n: int| 0 <= n < front.len() implies (#[trigger] front[n]).len() >= 1 by {
                lemma_connected_degree(front, n as usize);
            }
            lemma_degree_sum_least(front);
        }
    }
    let thrice: int = if 3 * (edges + 1) <= usize::MAX {
        3 * (edges as int + 1)
    } else {
        usize::MAX as int
    };
    let by: int = if len == 0 {
        1
    } else {
        len as int
    };
    assert(thrice >= by);
    assert(thrice / by >= 1) by (nonlinear_arith)
        requires
            thrice >= by,
            by >= 1,
    ;
}

impl<K: MetricPoint, V, D: Distance> Hrc<K, V, D> {
    /// The size of neighborhood that searches use by default.
    pub(crate) fn optimal_k(&self) -> (k: usize)
        requires
            self.sound(),
            connected_but_last(self@.adjacency),
        ensures
            k == optimal_k_of(self@.edges as nat, self@.len()),
            k >= 1,
    {
        proof {
            lemma_degree_sum_bound(self@.adjacency);
            lemma_optimal_k(self@.adjacency, self@.edges as nat);
        }
        let len = if self.nodes.len() == 0 {
            1
        } else {
            self.nodes.len()
        };
        tripled(self.edges + 1) / len
    }

    /// The distance from the key of a target to the key of `node`, as it is kept.
    pub(crate) fn target_distance(&self, target: &Target<K>, node: usize) -> (d: D)
        requires
            self.target_ok(*target),
            node < self@.len(),
        ensures
            d == stored::<K, D>(self.target_key(*target), self@.keys[node as int]),
            d.rank() == self.ranks(self.target_key(*target))[node as int],
    {
        let query = self.key_of(target);
        self.stored_distance(query, node)
    }

    /// The first of `others` that is closer to the target than `bound`.
    pub(crate) fn first_closer(&self, target: &Target<K>, others: &Vec<usize>, bound: D) -> (found: Option<
        (usize, D),
    >)
        requires
            self.target_ok(*target),
            forall|i: int| 0 <= i < others.len() ==> others@[i] < self@.len(),
        ensures
            match found {
                Some((node, d)) => others@.contains(node) && node < self@.len() && d == stored::<K, D>(
                    self.target_key(*target),
                    self@.keys[node as int],
                ) && d.rank() < bound.rank() && d.rank() == self.ranks(self.target_key(*target))[node as int],
                None => forall|i: int|
                    0 <= i < others.len() ==> self.ranks(self.target_key(*target))[#[trigger] others@[i] as int]
                        >= bound.rank(),
            },
            first_below(others@, self.ranks(self.target_key(*target)), bound.rank()) == match found {
                Some((node, _)) => Some(node),
                None => None,
            },
    {
        let ghost ranks = self.ranks(self.target_key(*target));
        let mut index: usize = 0;
        proof {
            assert(others@.subrange(0, others@.len() as int) =~= others@);
        }
        while index < others.len()
            invariant
                self.target_ok(*target),
                index <= others.len(),
                ranks == self.ranks(self.target_key(*target)),
                forall|i: int| 0 <= i < others.len() ==> others@[i] < self@.len(),
                forall|i: int|
                    0 <= i < index ==> self.ranks(self.target_key(*target))[#[trigger] others@[i] as int]
                        >= bound.rank(),
                first_below(others@, ranks, bound.rank()) == first_below(
                    others@.subrange(index as int, others@.len() as int),
                    ranks,
                    bound.rank(),
                ),
            decreases others.len() - index,
        {
            let node = others[index];
            let distance: D = self.target_distance(target, node);
            proof {
                let rest = others@.subrange(index as int, others@.len() as int);
                assert(rest[0] == node);
                assert(rest.subrange(1, rest.len() as int) =~= others@.subrange(
                    index as int + 1,
                    others@.len() as int,
                ));
            }
            if distance.widen() < bound.widen() {
                return Some((node, distance));
            }
            index += 1;
        }
        None
    }

    /// Breaks through the local minimum `pos`: looks through ever larger
    /// neighborhoods of `pos` for the nearest node that is closer to the target,
    /// links it to `pos` and descends from it. Returns that node, where the descent
    /// ended and the distance there, or nothing if no node at all is closer.
    pub(crate) fn breach(&mut self, layer: usize, pos: usize, pos_distance: D, target: &Target<K>) -> (next: Option<
        (usize, usize, D),
    >)
        requires
            old(self).wf(),
            layer == 0,
            pos < old(self)@.len(),
            old(self).target_ok(*target),
            pos_distance == stored::<K, D>(old(self).target_key(*target), old(self)@.keys[pos as int]),
            local_minimum(old(self)@.adjacency, old(self).ranks(old(self).target_key(*target)), pos),
            old(self)@.adjacency[pos as int].len() > 0,
        ensures
            final(self).wf(),
            final(self)@.grown_from(old(self)@),
            swept::<K, D>(
                old(self)@.adjacency,
                old(self)@.keys,
                old(self).ranks(old(self).target_key(*target)),
                pos,
                twice(old(self)@.adjacency[pos as int].len() as usize),
            ) == match next {
                None => None,
                Some((closer, _, _)) => Some(closer),
            },
            match next {
                None => final(self)@ == old(self)@ && global_minimum(
                    old(self).ranks(old(self).target_key(*target)),
                    pos,
                ),
                Some((closer, end, distance)) => {
                    let ranks = old(self).ranks(old(self).target_key(*target));
                    &&& closer < old(self)@.len()
                    &&& ranks[closer as int] < ranks[pos as int]
                    &&& !old(self)@.adjacency[closer as int].contains(pos)
                    &&& final(self)@.adjacency == with_edge(old(self)@.adjacency, closer, pos)
                    &&& final(self)@.edges == old(self)@.edges + 1
                    &&& end == greedy_end(final(self)@.adjacency, ranks, closer)
                    &&& end < old(self)@.len()
                    &&& distance == stored::<K, D>(old(self).target_key(*target), old(self)@.keys[end as int])
                },
            },
    {
        let ghost adj = self@.adjacency;
        let ghost ranks = self.ranks(self.target_key(*target));
        let degree = self.degree(layer, pos);
        let mut quality = doubled(degree);
        let mut found: Option<(usize, D)> = None;
        let mut last = false;
        let ghost answer = swept::<K, D>(adj, self@.keys, ranks, pos, quality);
        while found.is_none() && !last
            invariant
                self.wf(),
                self@ == old(self)@,
                found.is_none() && !last ==> answer == swept::<K, D>(adj, self@.keys, ranks, pos, quality),
                answer == swept::<K, D>(adj, self@.keys, ranks, pos, twice(adj[pos as int].len() as usize)),
                found.is_none() && last ==> answer.is_none(),
                found.is_some() ==> answer == Some(found.unwrap().0),
                layer == 0,
                pos < self@.len(),
                self.target_ok(*target),
                adj == self@.adjacency,
                ranks == self.ranks(self.target_key(*target)),
                quality >= 1,
                last ==> found.is_some() || global_minimum(ranks, pos),
                match found {
                    Some((node, d)) => node < self@.len() && node != pos && d == stored::<K, D>(
                        self.target_key(*target),
                        self@.keys[node as int],
                    ) && d.rank() < pos_distance.rank() && d.rank() == ranks[node as int],
                    None => true,
                },
                pos_distance.rank() == ranks[pos as int],
            decreases
                    (if found.is_some() || last {
                        0
                    } else if quality < self@.len() {
                        self@.len() - quality + 1
                    } else {
                        1
                    }),
        {
            let others = self.neighborhood(layer, pos, quality);
            let ghost ids = seq![pos] + others@;
            proof {
                assert forall|i: int| 0 <= i < others.len() implies others@[i] < self@.len() by {
                    assert(ids[i + 1] == others@[i]);
                }
            }
            found = self.first_closer(target, &others, pos_distance);
            if found.is_none() {
                if quality >= self.len() {
                    last = true;
                    proof {
                        let own = self.ranks(self@.keys[pos as int]);
                        assert forall|i: int| 0 <= i < ids.len() implies ids[i] < adj.len() by {}
                        lemma_distinct_bounded(ids, adj.len());
                        assert forall|x: int| 0 <= x < ranks.len() implies #[trigger] ranks[x] >= ranks[pos as int] by {
                            assert(reachable(adj, pos, x as usize));
                            lemma_knn_covers(adj, own, pos, quality, ids, x as usize);
                            let i = choose|i: int| 0 <= i < ids.len() && ids[i] == x as usize;
                            if i > 0 {
                                assert(others@[i - 1] == x as usize);
                            }
                        }
                    }
                } else {
                    proof {
                        assert(twice(quality) > quality);
                    }
                    quality = doubled(quality);
                }
            }
        }
        match found {
            None => None,
            Some((closer, distance)) => {
                proof {
                    if adj[closer as int].contains(pos) {
                        assert(adj[pos as int].contains(closer));
                    }
                    lemma_with_edge(adj, closer, pos);
                    lemma_connected_extends(adj, with_edge(adj, closer, pos));
                }
                self.add_edge(layer, closer, pos);
                let query = self.key_of(target);
                let (end, end_distance) = self.greedy_from(layer, closer, distance, query);
                Some((closer, end, end_distance))
            },
        }
    }

    /// Makes a greedy path exist from `from` towards the target, adding an edge at
    /// each local minimum on the way until a node within `min_distance` is reached
    /// or no node at all is closer.
    pub(crate) fn descend_to(
        &mut self,
        layer: usize,
        from: usize,
        from_distance: D,
        min_distance: D,
        target: &Target<K>,
    ) -> (found: (usize, D))
        requires
            old(self).wf(),
            layer == 0,
            from < old(self)@.len(),
            old(self).target_ok(*target),
            from_distance == stored::<K, D>(old(self).target_key(*target), old(self)@.keys[from as int]),
        ensures
            final(self).wf(),
            final(self)@.grown_from(old(self)@),
            found.0 < old(self)@.len(),
            found.0 == greedy_end(
                final(self)@.adjacency,
                old(self).ranks(old(self).target_key(*target)),
                from,
            ),
            found.1 == stored::<K, D>(old(self).target_key(*target), old(self)@.keys[found.0 as int]),
            found.1.rank() <= min_distance.rank() || global_minimum(
                old(self).ranks(old(self).target_key(*target)),
                found.0,
            ),
            old(self).ranks(old(self).target_key(*target))[greedy_end(
                old(self)@.adjacency,
                old(self).ranks(old(self).target_key(*target)),
                from,
            ) as int] <= min_distance.rank() ==> final(self)@ == old(self)@,
            (final(self)@.adjacency, found.0) == descended::<K, D>(
                old(self)@.adjacency,
                old(self)@.keys,
                old(self).ranks(old(self).target_key(*target)),
                min_distance.rank(),
                greedy_end(
                    old(self)@.adjacency,
                    old(self).ranks(old(self).target_key(*target)),
                    from,
                ),
            ),
    {
        let ghost ranks = self.ranks(self.target_key(*target));
        let ghost first_end = greedy_end(self@.adjacency, ranks, from);
        let ghost answer = descended::<K, D>(self@.adjacency, self@.keys, ranks, min_distance.rank(), first_end);
        proof {
            reveal_with_fuel(descended, 2);
        }
        let query = self.key_of(target);
        let (mut pos, mut pos_distance) = self.greedy_from(layer, from, from_distance, query);
        proof {
            lemma_extends_self(self@.adjacency);
        }
        loop
            invariant
                self.wf(),
                self@.grown_from(old(self)@),
                layer == 0,
                from < self@.len(),
                self.target_ok(*target),
                ranks == self.ranks(self.target_key(*target)),
                ranks == old(self).ranks(old(self).target_key(*target)),
                self.target_key(*target) == old(self).target_key(*target),
                pos < self@.len(),
                pos == greedy_end(self@.adjacency, ranks, from),
                pos_distance == stored::<K, D>(self.target_key(*target), self@.keys[pos as int]),
                pos_distance.rank() == ranks[pos as int],
                first_end == greedy_end(old(self)@.adjacency, ranks, from),
                self@ == old(self)@ || ranks[first_end as int] > min_distance.rank(),
                answer == descended::<K, D>(self@.adjacency, self@.keys, ranks, min_distance.rank(), pos),
                answer == descended::<K, D>(
                    old(self)@.adjacency,
                    old(self)@.keys,
                    ranks,
                    min_distance.rank(),
                    first_end,
                ),
            decreases pos_distance.rank(),
        {
            proof {
                reveal_with_fuel(descended, 2);
            }
            let degree = self.degree(layer, pos);
            if pos_distance.widen() <= min_distance.widen() || degree == 0 {
                proof {
                    if degree == 0 {
                        assert forall|x: int| 0 <= x < ranks.len() implies #[trigger] ranks[x] >= ranks[pos as int] by {
                            assert(reachable(self@.adjacency, pos, x as usize));
                            lemma_reachable_isolated(self@.adjacency, pos, x as usize);
                        }
                    }
                }
                return (pos, pos_distance);
            }
            let ghost before = self@.adjacency;
            proof {
                lemma_greedy_end(before, ranks, from);
            }
            match self.breach(layer, pos, pos_distance, target) {
                None => {
                    return (pos, pos_distance);
                },
                Some((closer, end, distance)) => {
                    proof {
                        lemma_shortcut(before, ranks, from, closer);
                        lemma_greedy_end(self@.adjacency, ranks, closer);
                        lemma_extends_chain(old(self)@.adjacency, before, self@.adjacency);
                    }
                    pos = end;
                    pos_distance = distance;
                },
            }
        }
    }

    /// Ensures that the optimal greedy path exists towards a specific key from a
    /// specific node.
    ///
    /// Will terminate when a distance equal to or better than `min_distance` is
    /// reached, or at a node than which no node is closer to the key.
    ///
    /// Returns the termination node and its distance.
    pub fn optimize_target_directed(&mut self, layer: usize, from: usize, min_distance: D, target: &K) -> (found: (
        usize,
        D,
    ))
        requires
            old(self).wf(),
            layer == 0,
            from < old(self)@.len(),
        ensures
            final(self).wf(),
            final(self)@.grown_from(old(self)@),
            found.0 < old(self)@.len(),
            found.0 == greedy_end(final(self)@.adjacency, old(self).ranks(*target), from),
            found.1 == stored::<K, D>(*target, old(self)@.keys[found.0 as int]),
            found.1.rank() <= min_distance.rank() || global_minimum(old(self).ranks(*target), found.0),
            old(self).ranks(*target)[greedy_end(old(self)@.adjacency, old(self).ranks(*target), from) as int]
                <= min_distance.rank() ==> final(self)@ == old(self)@,
            (final(self)@.adjacency, found.0) == descended::<K, D>(
                old(self)@.adjacency,
                old(self)@.keys,
                old(self).ranks(*target),
                min_distance.rank(),
                greedy_end(old(self)@.adjacency, old(self).ranks(*target), from),
            ),
    {
        let from_distance: D = D::narrow(self.nodes[from].key.distance(target));
        proof {
            self@.keys[from as int].lemma_dist_symmetric(target);
        }
        self.descend_to(layer, from, from_distance, min_distance, &Target::Key(target))
    }

    /// Whether the greedy descent from `from` towards the key of `to` ends at `to`, or
    /// at a neighbor of `to` that has the same key.
    pub open spec fn greedy_path(&self, from: usize, to: usize) -> bool {
        let ranks = self.ranks(self@.keys[to as int]);
        let end = greedy_end(self@.adjacency, ranks, from);
        ranks[end as int] == 0 && (end == to || self@.adjacency[end as int].contains(to))
    }

    /// Optimizes the connection from `from` to `to`, so that the greedy descent from
    /// `from` towards the key of `to` arrives at `to` or at a neighbor of `to` with
    /// the same key.
    pub fn optimize_connection_directed(&mut self, layer: usize, from: usize, to: usize)
        requires
            old(self).wf(),
            layer == 0,
            from < old(self)@.len(),
            to < old(self)@.len(),
        ensures
            final(self).wf(),
            final(self)@.grown_from(old(self)@),
            final(self).greedy_path(from, to),
            old(self).greedy_path(from, to) ==> final(self)@ == old(self)@,
            final(self)@.adjacency == connected_from::<K, D>(old(self)@.adjacency, old(self)@.keys, from, to),
    {
        let ghost ranks = self.ranks(self@.keys[to as int]);
        proof {
            reveal(connected_from);
            self.lemma_own_rank(to);
            self.lemma_own_rank(from);
            D::lemma_zero();
        }
        if from == to {
            proof {
                lemma_extends_self(self@.adjacency);
            }
            return ;
        }
        let zero: D = D::narrow(0);
        let from_distance: D = D::narrow(self.nodes[from].key.distance(&self.nodes[to].key));
        proof {
            self@.keys[from as int].lemma_dist_symmetric(&self@.keys[to as int]);
        }
        let (found, distance) = self.descend_to(layer, from, from_distance, zero, &Target::Node(to));
        proof {
            assert(ranks == self.ranks(self@.keys[to as int]));
            assert(ranks[to as int] == 0);
            assert(ranks[found as int] == 0);
        }
        // Check if we didnt find the target node.
        if found != to {
            // Check if we just found a colocated node.
            if distance.widen() == zero.widen() {
                // In that case just make sure they are connected.
                let ghost before = self@.adjacency;
                proof {
                    if !before[found as int].contains(to) {
                        lemma_with_edge(before, found, to);
                        lemma_connected_extends(before, with_edge(before, found, to));
                        lemma_extends_chain(old(self)@.adjacency, before, with_edge(before, found, to));
                        let after = with_edge(before, found, to);
                        assert forall|u: int|
                            0 <= u < before.len() && ranks[u] > ranks[greedy_end(before, ranks, from) as int] implies #[trigger] after[u]
                            == before[u] by {}
                        lemma_greedy_same_above(before, after, ranks, from);
                        lemma_bottom_stays(after, ranks, found);
                        assert(after[found as int].last() == to);
                    }
                }
                self.add_edge_dedup(layer, found, to);
            } else {
                unreached::<()>()
            }
        }
    }

    /// Optimizes the connection between two nodes to ensure the optimal greedy search
    /// path is available in both directions.
    pub fn optimize_connection(&mut self, layer: usize, a: usize, b: usize)
        requires
            old(self).wf(),
            layer == 0,
            a < old(self)@.len(),
            b < old(self)@.len(),
        ensures
            final(self).wf(),
            final(self)@.grown_from(old(self)@),
            final(self).greedy_path(b, a),
            old(self).greedy_path(a, b) && old(self).greedy_path(b, a) ==> final(self)@ == old(self)@,
            final(self)@.adjacency == connected_from::<K, D>(
                connected_from::<K, D>(old(self)@.adjacency, old(self)@.keys, a, b),
                old(self)@.keys,
                b,
                a,
            ),
    {
        self.optimize_connection_directed(layer, a, b);
        let ghost between = self@.adjacency;
        self.optimize_connection_directed(layer, b, a);
        proof {
            lemma_extends_chain(old(self)@.adjacency, between, self@.adjacency);
        }
    }

    /// This optimizes the node's connection to the `quality` most recently added
    /// nodes.
    pub fn optimize_recents(&mut self, layer: usize, node: usize, quality: usize)
        requires
            old(self).wf(),
            layer == 0,
            node < old(self)@.len(),
        ensures
            final(self).wf(),
            final(self)@.grown_from(old(self)@),
            quality > 0 ==> final(self).greedy_path((old(self)@.len() - 1) as usize, node),
            final(self)@.adjacency == connected_range::<K, D>(
                old(self)@.adjacency,
                old(self)@.keys,
                node,
                (old(self)@.len() - vstd::math::min(quality as int, old(self)@.len() as int)) as usize,
                vstd::math::min(quality as int, old(self)@.len() as int) as nat,
            ),
    {
        let len = self.len();
        let count = if quality < len {
            quality
        } else {
            len
        };
        let mut other = len - count;
        proof {
            lemma_extends_self(self@.adjacency);
        }
        while other < len
            invariant
                self.wf(),
                self@.grown_from(old(self)@),
                layer == 0,
                len == self@.len(),
                node < len,
                count <= len,
                len - count <= other <= len,
                other > len - count ==> self.greedy_path((other - 1) as usize, node),
                self@.adjacency == connected_range::<K, D>(
                    old(self)@.adjacency,
                    old(self)@.keys,
                    node,
                    (len - count) as usize,
                    (other - (len - count)) as nat,
                ),
            decreases len - other,
        {
            let ghost before = self@.adjacency;
            self.optimize_connection(layer, node, other);
            proof {
                lemma_extends_chain(old(self)@.adjacency, before, self@.adjacency);
                let start = (len - count) as usize;
                let done = (other - (len - count)) as nat;
                assert(((done + 1) - 1) as nat == done);
                assert((start + (done + 1) - 1) as usize == other);
                assert(self@.adjacency == connected_range::<K, D>(
                    old(self)@.adjacency,
                    old(self)@.keys,
                    node,
                    start,
                    done + 1,
                ));
            }
            other += 1;
        }
    }
}

} // verus!
