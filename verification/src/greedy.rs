//! Greedy descent: from a node, move to the neighbor closest to the query as long as
//! that neighbor is strictly closer than the node itself.

use crate::graph::{in_bounds, lemma_with_edge, simple, with_edge};
use crate::reach::{lemma_reachable_chain, lemma_reachable_self, lemma_reachable_step, reachable};
use vstd::prelude::*;

verus! {

/// The position of the first smallest element of a sequence.
pub open spec fn first_min(s: Seq<u64>) -> int
    decreases s.len(),
{
    if s.len() <= 1 {
        0
    } else {
        let before = first_min(s.drop_last());
        if s.last() < s[before] {
            s.len() - 1
        } else {
            before
        }
    }
}

/// The ranks of the nodes that an edge list names, in its order.
pub open spec fn ranks_along(edges: Seq<usize>, ranks: Seq<u64>) -> Seq<u64> {
    Seq::new(edges.len(), |i: int| ranks[edges[i] as int])
}

/// The neighbor of `node` with the smallest rank, the first of them in the edge
/// list, if the node has a neighbor at all.
pub open spec fn closest_neighbor(adj: Seq<Seq<usize>>, ranks: Seq<u64>, node: usize) -> Option<usize> {
    let edges = adj[node as int];
    if edges.len() == 0 {
        None
    } else {
        Some(edges[first_min(ranks_along(edges, ranks))])
    }
}

/// Whether no neighbor of `node` has a smaller rank than the node.
pub open spec fn local_minimum(adj: Seq<Seq<usize>>, ranks: Seq<u64>, node: usize) -> bool {
    forall|m: usize| #[trigger] adj[node as int].contains(m) ==> ranks[m as int] >= ranks[node as int]
}

/// Whether no node at all has a smaller rank than `node`.
pub open spec fn global_minimum(ranks: Seq<u64>, node: usize) -> bool {
    forall|x: int| 0 <= x < ranks.len() ==> #[trigger] ranks[x] >= ranks[node as int]
}

/// The node at which the greedy descent from `node` stops.
pub open spec fn greedy_end(adj: Seq<Seq<usize>>, ranks: Seq<u64>, node: usize) -> usize
    decreases ranks[node as int],
{
    match closest_neighbor(adj, ranks, node) {
        Some(m) => if ranks[m as int] < ranks[node as int] {
            greedy_end(adj, ranks, m)
        } else {
            node
        },
        None => node,
    }
}

/// The first smallest element is no larger than any element, and smaller than
/// those before it.
pub proof fn lemma_first_min(s: Seq<u64>)
    requires
        s.len() > 0,
    ensures
        0 <= first_min(s) < s.len(),
        forall|j: int| 0 <= j < s.len() ==> s[first_min(s)] <= #[trigger] s[j],
        forall|j: int| 0 <= j < first_min(s) ==> s[first_min(s)] < #[trigger] s[j],
    decreases s.len(),
{
    if s.len() > 1 {
        lemma_first_min(s.drop_last());
        assert forall|j: int| 0 <= j < s.len() implies s[first_min(s)] <= #[trigger] s[j] by {
            if j < s.len() - 1 {
                assert(s.drop_last()[j] == s[j]);
            }
        }
        assert forall|j: int| 0 <= j < first_min(s) implies s[first_min(s)] < #[trigger] s[j] by {
            if j < s.len() - 1 {
                assert(s.drop_last()[j] == s[j]);
            }
        }
    }
}

/// The closest neighbor is a neighbor, and no neighbor has a smaller rank.
pub proof fn lemma_closest_neighbor(adj: Seq<Seq<usize>>, ranks: Seq<u64>, node: usize)
    requires
        node < adj.len(),
        adj[node as int].len() > 0,
    ensures
        closest_neighbor(adj, ranks, node).is_some(),
        adj[node as int].contains(closest_neighbor(adj, ranks, node).unwrap()),
        forall|m: usize| #[trigger]
            adj[node as int].contains(m) ==> ranks[closest_neighbor(adj, ranks, node).unwrap() as int]
                <= ranks[m as int],
{
    let edges = adj[node as int];
    let along = ranks_along(edges, ranks);
    lemma_first_min(along);
    let best = edges[first_min(along)];
    assert forall|m: usize| #[trigger] edges.contains(m) implies ranks[best as int] <= ranks[m as int] by {
        let i = choose|i: int| 0 <= i < edges.len() && edges[i] == m;
        assert(along[i] == ranks[m as int]);
    }
}

/// The greedy descent ends at a node of the graph that is reachable from the start,
/// whose rank is not above the start's, and none of whose neighbors is closer.
pub proof fn lemma_greedy_end(adj: Seq<Seq<usize>>, ranks: Seq<u64>, node: usize)
    requires
        in_bounds(adj),
        node < adj.len(),
    ensures
        greedy_end(adj, ranks, node) < adj.len(),
        ranks[greedy_end(adj, ranks, node) as int] <= ranks[node as int],
        local_minimum(adj, ranks, greedy_end(adj, ranks, node)),
        reachable(adj, node, greedy_end(adj, ranks, node)),
        greedy_end(adj, ranks, greedy_end(adj, ranks, node)) == greedy_end(adj, ranks, node),
        ranks[greedy_end(adj, ranks, node) as int] == ranks[node as int] ==> greedy_end(
            adj,
            ranks,
            node,
        ) == node,
    decreases ranks[node as int],
{
    if adj[node as int].len() > 0 {
        lemma_closest_neighbor(adj, ranks, node);
        let m = closest_neighbor(adj, ranks, node).unwrap();
        if ranks[m as int] < ranks[node as int] {
            lemma_greedy_end(adj, ranks, m);
            lemma_reachable_self(adj, node);
            lemma_reachable_step(adj, node, node, m);
            lemma_reachable_chain(adj, node, m, greedy_end(adj, ranks, m));
        } else {
            lemma_reachable_self(adj, node);
        }
    } else {
        lemma_reachable_self(adj, node);
        assert forall|m: usize| #[trigger] adj[node as int].contains(m) implies ranks[m as int]
            >= ranks[node as int] by {
            let i = choose|i: int| 0 <= i < adj[node as int].len() && adj[node as int][i] == m;
        }
    }
}

/// Where the edge lists of all nodes farther from the query than the end of a greedy
/// descent are left as they were, the descent still passes through that end.
pub proof fn lemma_greedy_same_above(
    adj: Seq<Seq<usize>>,
    changed: Seq<Seq<usize>>,
    ranks: Seq<u64>,
    from: usize,
)
    requires
        in_bounds(adj),
        from < adj.len(),
        changed.len() == adj.len(),
        forall|u: int|
            0 <= u < adj.len() && ranks[u] > ranks[greedy_end(adj, ranks, from) as int] ==> #[trigger] changed[u]
                == adj[u],
    ensures
        greedy_end(changed, ranks, from) == greedy_end(changed, ranks, greedy_end(adj, ranks, from)),
    decreases ranks[from as int],
{
    let end = greedy_end(adj, ranks, from);
    lemma_greedy_end(adj, ranks, from);
    if end != from {
        lemma_closest_neighbor(adj, ranks, from);
        let m = closest_neighbor(adj, ranks, from).unwrap();
        assert(changed[from as int] == adj[from as int]);
        lemma_greedy_same_above(adj, changed, ranks, m);
    }
}

/// A node whose edge list gained a neighbor closer to the query than all it had
/// descends to that neighbor.
pub proof fn lemma_greedy_through(adj: Seq<Seq<usize>>, ranks: Seq<u64>, node: usize, closer: usize)
    requires
        node < adj.len(),
        adj[node as int].len() > 0,
        adj[node as int].last() == closer,
        ranks[closer as int] < ranks[node as int],
        forall|i: int| 0 <= i < adj[node as int].len() - 1 ==> ranks[#[trigger] adj[node as int][i] as int] > ranks[closer as int],
    ensures
        greedy_end(adj, ranks, node) == greedy_end(adj, ranks, closer),
{
    let edges = adj[node as int];
    let along = ranks_along(edges, ranks);
    lemma_first_min(along);
    let at = first_min(along);
    if at < edges.len() - 1 {
        assert(along[at] == ranks[edges[at] as int]);
        assert(along[edges.len() - 1] == ranks[closer as int]);
    }
}

/// Adding an edge from the end of a greedy descent to a node that is closer to the
/// query makes the descent go on through that node.
pub proof fn lemma_shortcut(adj: Seq<Seq<usize>>, ranks: Seq<u64>, from: usize, closer: usize)
    requires
        simple(adj),
        from < adj.len(),
        closer < adj.len(),
        ranks[closer as int] < ranks[greedy_end(adj, ranks, from) as int],
    ensures
        !adj[closer as int].contains(greedy_end(adj, ranks, from)),
        greedy_end(with_edge(adj, closer, greedy_end(adj, ranks, from)), ranks, from) == greedy_end(
            with_edge(adj, closer, greedy_end(adj, ranks, from)),
            ranks,
            closer,
        ),
{
    let end = greedy_end(adj, ranks, from);
    lemma_greedy_end(adj, ranks, from);
    if adj[closer as int].contains(end) {
        assert(adj[end as int].contains(closer));
    }
    lemma_with_edge(adj, closer, end);
    let changed = with_edge(adj, closer, end);
    lemma_greedy_same_above(adj, changed, ranks, from);
    assert forall|i: int| 0 <= i < changed[end as int].len() - 1 implies ranks[#[trigger] changed[end as int][i] as int]
        > ranks[closer as int] by {
        assert(changed[end as int][i] == adj[end as int][i]);
        assert(adj[end as int].contains(adj[end as int][i]));
    }
    lemma_greedy_through(changed, ranks, end, closer);
}

/// The first smallest element of a sequence with one more element is that element,
/// if it is smaller than all before it, and else is what it was.
pub proof fn lemma_first_min_push(s: Seq<u64>, last: u64)
    requires
        s.len() > 0,
    ensures
        first_min(s.push(last)) == if last < s[first_min(s)] {
            s.len() as int
        } else {
            first_min(s)
        },
{
    assert(s.push(last).drop_last() =~= s);
    lemma_first_min(s);
}

/// A greedy descent that ends at rank zero still does so after an edge to a node of
/// rank zero was added.
pub proof fn lemma_greedy_zero_kept(
    adj: Seq<Seq<usize>>,
    ranks: Seq<u64>,
    from: usize,
    a: usize,
    bottom: usize,
)
    requires
        simple(adj),
        from < adj.len(),
        a < adj.len(),
        bottom < adj.len(),
        a != bottom,
        !adj[a as int].contains(bottom),
        ranks[bottom as int] == 0,
        ranks[greedy_end(adj, ranks, from) as int] == 0,
    ensures
        ranks[greedy_end(with_edge(adj, a, bottom), ranks, from) as int] == 0,
    decreases ranks[from as int],
{
    let changed = with_edge(adj, a, bottom);
    lemma_with_edge(adj, a, bottom);
    if ranks[from as int] != 0 {
        lemma_greedy_end(adj, ranks, from);
        lemma_closest_neighbor(adj, ranks, from);
        let m = closest_neighbor(adj, ranks, from).unwrap();
        if from == a {
            let along = ranks_along(adj[a as int], ranks);
            assert(ranks_along(changed[a as int], ranks) =~= along.push(ranks[bottom as int]));
            lemma_first_min_push(along, ranks[bottom as int]);
            lemma_first_min(along);
            if ranks[bottom as int] < along[first_min(along)] {
                assert(changed[a as int][adj[a as int].len() as int] == bottom);
                assert(closest_neighbor(changed, ranks, from) == Some(bottom));
                lemma_bottom_stays(changed, ranks, bottom);
                assert(greedy_end(changed, ranks, from) == greedy_end(changed, ranks, bottom));
            } else {
                assert(changed[a as int][first_min(along)] == m);
                assert(closest_neighbor(changed, ranks, from) == Some(m));
                lemma_greedy_zero_kept(adj, ranks, m, a, bottom);
                assert(greedy_end(changed, ranks, from) == greedy_end(changed, ranks, m));
            }
        } else {
            assert(from != bottom);
            assert(changed[from as int] == adj[from as int]);
            assert(closest_neighbor(changed, ranks, from) == Some(m));
            lemma_greedy_zero_kept(adj, ranks, m, a, bottom);
            assert(greedy_end(changed, ranks, from) == greedy_end(changed, ranks, m));
        }
    } else {
        lemma_bottom_stays(changed, ranks, from);
    }
}

/// Whether every greedy descent that ended at rank zero in `old_adj` ends at rank
/// zero in `new_adj`.
pub open spec fn descents_kept(old_adj: Seq<Seq<usize>>, new_adj: Seq<Seq<usize>>, ranks: Seq<u64>) -> bool {
    forall|from: usize|
        from < old_adj.len() && ranks[greedy_end(old_adj, ranks, from) as int] == 0 ==> ranks[(
        #[trigger] greedy_end(new_adj, ranks, from)) as int] == 0
}

/// Greedy descents that ended at rank zero still do so after an edge to a node of
/// rank zero was added.
pub proof fn lemma_descents_kept(adj: Seq<Seq<usize>>, ranks: Seq<u64>, a: usize, bottom: usize)
    requires
        simple(adj),
        a < adj.len(),
        bottom < adj.len(),
        a != bottom,
        !adj[a as int].contains(bottom),
        ranks[bottom as int] == 0,
    ensures
        descents_kept(adj, with_edge(adj, a, bottom), ranks),
{
    assert forall|from: usize|
        from < adj.len() && ranks[greedy_end(adj, ranks, from) as int] == 0 implies ranks[(
    #[trigger] greedy_end(with_edge(adj, a, bottom), ranks, from)) as int] == 0 by {
        lemma_greedy_zero_kept(adj, ranks, from, a, bottom);
    }
}

/// Keeping the descents that end at rank zero is transitive.
pub proof fn lemma_descents_kept_chain(
    first: Seq<Seq<usize>>,
    second: Seq<Seq<usize>>,
    third: Seq<Seq<usize>>,
    ranks: Seq<u64>,
)
    requires
        first.len() == second.len(),
        descents_kept(first, second, ranks),
        descents_kept(second, third, ranks),
    ensures
        descents_kept(first, third, ranks),
{
    assert forall|from: usize|
        from < first.len() && ranks[greedy_end(first, ranks, from) as int] == 0 implies ranks[(
    #[trigger] greedy_end(third, ranks, from)) as int] == 0 by {
        assert(ranks[greedy_end(second, ranks, from) as int] == 0);
    }
}

/// The greedy descent from a node that has a neighbor of rank zero ends at rank zero.
pub proof fn lemma_zero_neighbor(adj: Seq<Seq<usize>>, ranks: Seq<u64>, node: usize, bottom: usize)
    requires
        in_bounds(adj),
        node < adj.len(),
        adj[node as int].contains(bottom),
        ranks[bottom as int] == 0,
    ensures
        ranks[greedy_end(adj, ranks, node) as int] == 0,
{
    if ranks[node as int] != 0 {
        lemma_closest_neighbor(adj, ranks, node);
        let m = closest_neighbor(adj, ranks, node).unwrap();
        assert(ranks[m as int] <= ranks[bottom as int]);
        assert(adj[node as int].contains(m));
        lemma_bottom_stays(adj, ranks, m);
        assert(greedy_end(adj, ranks, node) == greedy_end(adj, ranks, m));
    } else {
        lemma_bottom_stays(adj, ranks, node);
    }
}

/// A node of rank zero is where its own greedy descent ends.
pub proof fn lemma_bottom_stays(adj: Seq<Seq<usize>>, ranks: Seq<u64>, node: usize)
    requires
        node < adj.len(),
        ranks[node as int] == 0,
    ensures
        greedy_end(adj, ranks, node) == node,
{
}

} // verus!
