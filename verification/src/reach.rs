//! Paths and reachability in the adjacency model.

use crate::graph::{extends, symmetric};
use vstd::prelude::*;

verus! {

/// A non-empty walk along edges of the graph.
pub open spec fn is_path(adj: Seq<Seq<usize>>, path: Seq<usize>) -> bool {
    &&& path.len() > 0
    &&& forall|i: int| 0 <= i < path.len() ==> (#[trigger] path[i]) < adj.len()
    &&& forall|i: int|
        0 <= i < path.len() - 1 ==> adj[(#[trigger] path[i]) as int].contains(path[i + 1])
}

/// Some walk leads from `from` to `to`.
pub open spec fn reachable(adj: Seq<Seq<usize>>, from: usize, to: usize) -> bool {
    exists|path: Seq<usize>| #[trigger] is_path(adj, path) && path[0] == from && path.last() == to
}

/// Every node is reachable from every node.
pub open spec fn connected(adj: Seq<Seq<usize>>) -> bool {
    forall|a: usize, b: usize| a < adj.len() && b < adj.len() ==> #[trigger] reachable(adj, a, b)
}

/// With every node it holds, `inside` holds the node's neighbors.
pub open spec fn closed_under_edges(adj: Seq<Seq<usize>>, inside: Set<usize>) -> bool {
    forall|n: usize, m: usize|
        n < adj.len() && inside.contains(n) && #[trigger] adj[n as int].contains(m) ==> inside.contains(m)
}

pub proof fn lemma_reachable_self(adj: Seq<Seq<usize>>, node: usize)
    requires
        node < adj.len(),
    ensures
        reachable(adj, node, node),
{
    assert(is_path(adj, seq![node]));
}

pub proof fn lemma_reachable_step(adj: Seq<Seq<usize>>, from: usize, via: usize, to: usize)
    requires
        reachable(adj, from, via),
        adj[via as int].contains(to),
        to < adj.len(),
    ensures
        reachable(adj, from, to),
{
    let path = choose|path: Seq<usize>| #[trigger]
        is_path(adj, path) && path[0] == from && path.last() == via;
    let longer = path.push(to);
    assert forall|i: int| 0 <= i < longer.len() - 1 implies adj[(#[trigger] longer[i]) as int].contains(
        longer[i + 1],
    ) by {
        if i < path.len() - 1 {
            assert(adj[path[i] as int].contains(path[i + 1]));
        }
    }
    assert forall|i: int| 0 <= i < longer.len() implies (#[trigger] longer[i]) < adj.len() by {
        if i < path.len() {
            assert(path[i] < adj.len());
        }
    }
    assert(is_path(adj, longer));
    assert(longer[0] == from && longer.last() == to);
}

pub proof fn lemma_reachable_in_bounds(adj: Seq<Seq<usize>>, from: usize, to: usize)
    requires
        reachable(adj, from, to),
    ensures
        from < adj.len(),
        to < adj.len(),
{
    let path = choose|path: Seq<usize>| #[trigger]
        is_path(adj, path) && path[0] == from && path.last() == to;
    assert(path[0] < adj.len());
    assert(path[path.len() - 1] < adj.len());
}

pub proof fn lemma_reachable_chain(adj: Seq<Seq<usize>>, from: usize, via: usize, to: usize)
    requires
        reachable(adj, from, via),
        reachable(adj, via, to),
    ensures
        reachable(adj, from, to),
{
    let first = choose|path: Seq<usize>| #[trigger]
        is_path(adj, path) && path[0] == from && path.last() == via;
    let second = choose|path: Seq<usize>| #[trigger]
        is_path(adj, path) && path[0] == via && path.last() == to;
    lemma_path_suffix(adj, from, first, second, second.len() as int);
}

/// A walk from `from` can be continued along any beginning of a walk that starts
/// where it ends.
proof fn lemma_path_suffix(
    adj: Seq<Seq<usize>>,
    from: usize,
    first: Seq<usize>,
    second: Seq<usize>,
    upto: int,
)
    requires
        is_path(adj, first),
        is_path(adj, second),
        first[0] == from,
        first.last() == second[0],
        1 <= upto <= second.len(),
    ensures
        reachable(adj, from, second[upto - 1]),
    decreases upto,
{
    if upto == 1 {
        assert(is_path(adj, first) && first[0] == from && first.last() == second[0]);
    } else {
        lemma_path_suffix(adj, from, first, second, upto - 1);
        assert(adj[second[upto - 2] as int].contains(second[upto - 2 + 1]));
        assert(second[upto - 1] < adj.len());
        lemma_reachable_step(adj, from, second[upto - 2], second[upto - 1]);
    }
}

/// In a symmetric graph walks can be walked backwards.
pub proof fn lemma_reachable_symmetric(adj: Seq<Seq<usize>>, from: usize, to: usize)
    requires
        symmetric(adj),
        reachable(adj, from, to),
    ensures
        reachable(adj, to, from),
{
    let path = choose|path: Seq<usize>| #[trigger]
        is_path(adj, path) && path[0] == from && path.last() == to;
    lemma_path_back(adj, path, 0);
}

proof fn lemma_path_back(adj: Seq<Seq<usize>>, path: Seq<usize>, start: int)
    requires
        symmetric(adj),
        is_path(adj, path),
        0 <= start < path.len(),
    ensures
        reachable(adj, path.last(), path[start]),
    decreases path.len() - start,
{
    if start == path.len() - 1 {
        assert(path[start] < adj.len());
        lemma_reachable_self(adj, path[start]);
    } else {
        lemma_path_back(adj, path, start + 1);
        assert(path[start] < adj.len());
        assert(adj[path[start] as int].contains(path[start + 1]));
        lemma_reachable_step(adj, path.last(), path[start + 1], path[start]);
    }
}

/// Walks stay walks when edge lists grow.
pub proof fn lemma_reachable_extends(
    old_adj: Seq<Seq<usize>>,
    new_adj: Seq<Seq<usize>>,
    from: usize,
    to: usize,
)
    requires
        extends(old_adj, new_adj),
        reachable(old_adj, from, to),
    ensures
        reachable(new_adj, from, to),
{
    let path = choose|path: Seq<usize>| #[trigger]
        is_path(old_adj, path) && path[0] == from && path.last() == to;
    assert forall|i: int| 0 <= i < path.len() - 1 implies new_adj[(#[trigger] path[i]) as int].contains(
        path[i + 1],
    ) by {
        assert(path[i] < old_adj.len());
        assert(old_adj[path[i] as int].contains(path[i + 1]));
        lemma_prefix_contains(old_adj[path[i] as int], new_adj[path[i] as int], path[i + 1]);
    }
    assert forall|i: int| 0 <= i < path.len() implies (#[trigger] path[i]) < new_adj.len() by {
        assert(path[i] < old_adj.len());
    }
    assert(is_path(new_adj, path));
}

/// What the beginning of a sequence holds, the sequence holds.
pub proof fn lemma_prefix_contains(shorter: Seq<usize>, longer: Seq<usize>, x: usize)
    requires
        shorter.is_prefix_of(longer),
        shorter.contains(x),
    ensures
        longer.contains(x),
{
    let i = choose|i: int| 0 <= i < shorter.len() && shorter[i] == x;
    assert(longer[i] == x);
}

/// A set that is closed under edges holds whatever is reachable from its members.
pub proof fn lemma_closed_holds_reachable(
    adj: Seq<Seq<usize>>,
    inside: Set<usize>,
    from: usize,
    to: usize,
)
    requires
        closed_under_edges(adj, inside),
        inside.contains(from),
        reachable(adj, from, to),
    ensures
        inside.contains(to),
{
    let path = choose|path: Seq<usize>| #[trigger]
        is_path(adj, path) && path[0] == from && path.last() == to;
    lemma_closed_holds_path(adj, inside, path, path.len() - 1);
}

proof fn lemma_closed_holds_path(adj: Seq<Seq<usize>>, inside: Set<usize>, path: Seq<usize>, upto: int)
    requires
        closed_under_edges(adj, inside),
        is_path(adj, path),
        inside.contains(path[0]),
        0 <= upto < path.len(),
    ensures
        inside.contains(path[upto]),
    decreases upto,
{
    if upto > 0 {
        lemma_closed_holds_path(adj, inside, path, upto - 1);
        assert(path[upto - 1] < adj.len());
        assert(adj[path[upto - 1] as int].contains(path[upto - 1 + 1]));
    }
}

/// From a node without edges only the node itself is reachable.
pub proof fn lemma_reachable_isolated(adj: Seq<Seq<usize>>, node: usize, to: usize)
    requires
        node < adj.len(),
        adj[node as int].len() == 0,
        reachable(adj, node, to),
    ensures
        to == node,
{
    let path = choose|path: Seq<usize>| #[trigger]
        is_path(adj, path) && path[0] == node && path.last() == to;
    if path.len() > 1 {
        assert(adj[path[0int] as int].contains(path[0int + 1]));
    }
}

/// In a connected graph of two or more nodes every node has a neighbor.
pub proof fn lemma_connected_degree(adj: Seq<Seq<usize>>, node: usize)
    requires
        connected(adj),
        adj.len() >= 2,
        node < adj.len(),
    ensures
        adj[node as int].len() >= 1,
{
    let other: usize = if node == 0 {
        1
    } else {
        0
    };
    assert(reachable(adj, node, other));
    if adj[node as int].len() == 0 {
        lemma_reachable_isolated(adj, node, other);
    }
}

/// A connected graph stays connected when edge lists grow.
pub proof fn lemma_connected_extends(old_adj: Seq<Seq<usize>>, new_adj: Seq<Seq<usize>>)
    requires
        connected(old_adj),
        extends(old_adj, new_adj),
    ensures
        connected(new_adj),
{
    assert forall|a: usize, b: usize| a < new_adj.len() && b < new_adj.len() implies #[trigger] reachable(
        new_adj,
        a,
        b,
    ) by {
        assert(reachable(old_adj, a, b));
        lemma_reachable_extends(old_adj, new_adj, a, b);
    }
}

/// Every graph extends itself.
pub proof fn lemma_extends_self(adj: Seq<Seq<usize>>)
    ensures
        extends(adj, adj),
{
    assert forall|n: int| 0 <= n < adj.len() implies (#[trigger] adj[n]).is_prefix_of(adj[n]) by {}
}

/// Growing is transitive.
pub proof fn lemma_extends_chain(first: Seq<Seq<usize>>, second: Seq<Seq<usize>>, third: Seq<Seq<usize>>)
    requires
        extends(first, second),
        extends(second, third),
    ensures
        extends(first, third),
{
    assert forall|n: int| 0 <= n < first.len() implies (#[trigger] first[n]).is_prefix_of(third[n]) by {
        assert(first[n].is_prefix_of(second[n]));
        assert(second[n].is_prefix_of(third[n]));
        assert(first[n] =~= third[n].subrange(0, first[n].len() as int));
    }
}

} // verus!
