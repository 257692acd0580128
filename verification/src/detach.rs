//! Taking a node out of the graph: what is left when its edges are removed on both
//! sides.

use crate::edge_list::without;
use crate::graph::{degree_sum, lemma_degree_sum_update, simple};
use crate::reach::{
    connected, is_path, lemma_reachable_chain, lemma_reachable_self, lemma_reachable_step,
    reachable,
};
use vstd::prelude::*;

verus! {

/// The graph without the edges from and to `node`.
pub open spec fn detached(adj: Seq<Seq<usize>>, node: usize) -> Seq<Seq<usize>> {
    Seq::new(
        adj.len(),
        |u: int|
            if u == node {
                Seq::<usize>::empty()
            } else {
                without(adj[u], node)
            },
    )
}

/// The graph without the edges to `node` from the first `count` neighbors of `node`.
pub open spec fn detached_upto(adj: Seq<Seq<usize>>, node: usize, count: int) -> Seq<Seq<usize>> {
    Seq::new(
        adj.len(),
        |u: int|
            if u != node && adj[node as int].take(count).contains(u as usize) {
                without(adj[u], node)
            } else {
                adj[u]
            },
    )
}

/// What an edge list without the edges to a target holds.
pub(crate) proof fn lemma_without(edges: Seq<usize>, target: usize)
    ensures
        forall|x: usize| #[trigger] without(edges, target).contains(x) <==> edges.contains(x) && x != target,
        edges.no_duplicates() ==> without(edges, target).no_duplicates(),
        !edges.contains(target) ==> without(edges, target) == edges,
        edges.no_duplicates() && edges.contains(target) ==> without(edges, target).len() == edges.len() - 1,
        without(edges, target).len() <= edges.len(),
    decreases edges.len(),
{
    reveal(Seq::filter);
    let kept = without(edges, target);
    if edges.len() > 0 {
        let front = edges.drop_last();
        let last = edges.last();
        lemma_without(front, target);
        let kept_front = without(front, target);
        assert forall|x: usize| #[trigger] kept.contains(x) <==> edges.contains(x) && x != target by {
            if kept.contains(x) {
                let i = choose|i: int| 0 <= i < kept.len() && kept[i] == x;
                if last != target && i == kept.len() - 1 {
                    assert(edges[edges.len() - 1] == x);
                } else {
                    assert(kept_front[i] == x);
                    assert(kept_front.contains(x));
                    let j = choose|j: int| 0 <= j < front.len() && front[j] == x;
                    assert(edges[j] == x);
                }
            }
            if edges.contains(x) && x != target {
                let j = choose|j: int| 0 <= j < edges.len() && edges[j] == x;
                if j == edges.len() - 1 {
                    assert(kept[kept.len() - 1] == x);
                } else {
                    assert(front[j] == x);
                    assert(kept_front.contains(x));
                    let i = choose|i: int| 0 <= i < kept_front.len() && kept_front[i] == x;
                    assert(kept[i] == x);
                }
            }
        }
        if edges.no_duplicates() {
            assert(front.no_duplicates());
            assert(!front.contains(last)) by {
                if front.contains(last) {
                    let j = choose|j: int| 0 <= j < front.len() && front[j] == last;
                    assert(edges[j] == edges[edges.len() - 1]);
                }
            }
            assert forall|i: int, j: int| 0 <= i < kept.len() && 0 <= j < kept.len() && i != j implies kept[i]
                != kept[j] by {
                if last != target {
                    if i == kept.len() - 1 {
                        assert(kept_front[j] == kept[j]);
                        assert(kept_front.contains(kept[j]));
                    } else if j == kept.len() - 1 {
                        assert(kept_front[i] == kept[i]);
                        assert(kept_front.contains(kept[i]));
                    } else {
                        assert(kept_front[i] == kept[i] && kept_front[j] == kept[j]);
                    }
                }
            }
            if edges.contains(target) {
                if last == target {
                    assert(!front.contains(target));
                } else {
                    let j = choose|j: int| 0 <= j < edges.len() && edges[j] == target;
                    assert(front[j] == target);
                }
            }
        }
        if !edges.contains(target) {
            assert(!front.contains(target)) by {
                if front.contains(target) {
                    let j = choose|j: int| 0 <= j < front.len() && front[j] == target;
                    assert(edges[j] == target);
                }
            }
            assert(last != target) by {
                assert(edges[edges.len() - 1] == last);
            }
            assert(kept =~= edges);
        }
    }
}

/// Each of the first `count` neighbors of `node` that lost its edge to `node` makes
/// one directed edge less.
pub(crate) proof fn lemma_detached_upto(adj: Seq<Seq<usize>>, node: usize, count: int)
    requires
        simple(adj),
        adj.len() <= usize::MAX,
        node < adj.len(),
        0 <= count <= adj[node as int].len(),
    ensures
        degree_sum(detached_upto(adj, node, count)) == degree_sum(adj) - count,
        count < adj[node as int].len() ==> detached_upto(adj, node, count + 1) == detached_upto(
            adj,
            node,
            count,
        ).update(
            adj[node as int][count] as int,
            without(detached_upto(adj, node, count)[adj[node as int][count] as int], node),
        ),
    decreases count,
{
    let edges = adj[node as int];
    if count == 0 {
        assert(detached_upto(adj, node, 0) =~= adj);
    } else {
        lemma_detached_upto(adj, node, count - 1);
    }
    if count < edges.len() {
        let neighbor = edges[count];
        assert(edges.contains(neighbor));
        let before = detached_upto(adj, node, count);
        let after = detached_upto(adj, node, count + 1);
        assert(!edges.take(count).contains(neighbor)) by {
            let shorter = edges.take(count);
            if shorter.contains(neighbor) {
                let j = choose|j: int| 0 <= j < shorter.len() && shorter[j] == neighbor;
                assert(edges[j] == edges[count]);
            }
        }
        assert(after =~= before.update(neighbor as int, without(before[neighbor as int], node))) by {
            assert forall|u: int| 0 <= u < adj.len() implies after[u] == before.update(
                neighbor as int,
                without(before[neighbor as int], node),
            )[u] by {
                let shorter = edges.take(count);
                let longer = edges.take(count + 1);
                if u != neighbor {
                    if longer.contains(u as usize) {
                        let j = choose|j: int| 0 <= j < longer.len() && longer[j] == u as usize;
                        assert(shorter[j] == u as usize);
                    }
                    if shorter.contains(u as usize) {
                        let j = choose|j: int| 0 <= j < shorter.len() && shorter[j] == u as usize;
                        assert(longer[j] == u as usize);
                    }
                } else {
                    assert(longer[count] == neighbor);
                }
            }
        }
    }
    if count > 0 {
        let neighbor = edges[count - 1];
        assert(edges.contains(neighbor));
        let before = detached_upto(adj, node, count - 1);
        assert(!edges.take(count - 1).contains(neighbor)) by {
            let shorter = edges.take(count - 1);
            if shorter.contains(neighbor) {
                let j = choose|j: int| 0 <= j < shorter.len() && shorter[j] == neighbor;
                assert(edges[j] == edges[count - 1]);
            }
        }
        assert(before[neighbor as int] == adj[neighbor as int]);
        assert(adj[neighbor as int].contains(node));
        lemma_without(adj[neighbor as int], node);
        lemma_degree_sum_update(before, neighbor as int, without(before[neighbor as int], node));
    }
}

/// Taking a node out of a simple graph leaves a simple graph, with two directed
/// edges less for each neighbor that the node had.
pub(crate) proof fn lemma_detached(adj: Seq<Seq<usize>>, node: usize)
    requires
        simple(adj),
        adj.len() <= usize::MAX,
        node < adj.len(),
    ensures
        simple(detached(adj, node)),
        degree_sum(detached(adj, node)) + 2 * adj[node as int].len() == degree_sum(adj),
        detached(adj, node) == detached_upto(adj, node, adj[node as int].len() as int).update(
            node as int,
            Seq::<usize>::empty(),
        ),
{
    let edges = adj[node as int];
    let all = detached_upto(adj, node, edges.len() as int);
    let out = detached(adj, node);
    lemma_detached_upto(adj, node, edges.len() as int);
    assert(edges.take(edges.len() as int) =~= edges);
    assert(out =~= all.update(node as int, Seq::<usize>::empty())) by {
        assert forall|u: int| 0 <= u < adj.len() implies out[u] == all.update(node as int, Seq::<usize>::empty())[u] by {
            if u != node {
                lemma_without(adj[u], node);
                if !edges.contains(u as usize) {
                    if adj[u].contains(node) {
                        assert(adj[node as int].contains(u as usize));
                    }
                }
            }
        }
    }
    assert(all[node as int] == edges);
    lemma_degree_sum_update(all, node as int, Seq::<usize>::empty());
    assert forall|u: int| 0 <= u < adj.len() implies (forall|x: usize| #[trigger]
        out[u].contains(x) <==> u != node && adj[u].contains(x) && x != node) && (#[trigger] out[u]).no_duplicates() by {
        lemma_without(adj[u], node);
    }
    assert forall|n: int, m: usize| 0 <= n < out.len() && #[trigger] out[n].contains(m) implies m < out.len()
        && out[m as int].contains(n as usize) by {
        assert(adj[n].contains(m));
        assert(adj[m as int].contains(n as usize));
    }
    assert forall|n: int| 0 <= n < out.len() implies !(#[trigger] out[n]).contains(n as usize) by {
        if out[n].contains(n as usize) {
            assert(adj[n].contains(n as usize));
        }
    }
}

/// The end of a walk that avoids `node` from some place on is reachable from that
/// place without the edges of `node`.
proof fn lemma_walk_avoiding(adj: Seq<Seq<usize>>, node: usize, path: Seq<usize>, start: int)
    requires
        simple(adj),
        adj.len() <= usize::MAX,
        node < adj.len(),
        is_path(adj, path),
        0 <= start < path.len(),
        forall|k: int| start <= k < path.len() ==> path[k] != node,
    ensures
        reachable(detached(adj, node), path[start], path.last()),
    decreases path.len() - start,
{
    let out = detached(adj, node);
    assert(path[start] < adj.len());
    if start == path.len() - 1 {
        lemma_reachable_self(out, path[start]);
    } else {
        lemma_walk_avoiding(adj, node, path, start + 1);
        assert(adj[path[start] as int].contains(path[start + 1]));
        lemma_without(adj[path[start] as int], node);
        assert(out[path[start] as int].contains(path[start + 1]));
        assert(path[start + 1] < adj.len());
        lemma_reachable_self(out, path[start]);
        lemma_reachable_step(out, path[start], path[start], path[start + 1]);
        lemma_reachable_chain(out, path[start], path[start + 1], path.last());
    }
}

/// A walk from `node` to another node leaves `node` for the last time to a neighbor
/// from which its end is reachable without the edges of `node`.
proof fn lemma_last_leave(adj: Seq<Seq<usize>>, node: usize, path: Seq<usize>, at: int) -> (neighbor: usize)
    requires
        simple(adj),
        adj.len() <= usize::MAX,
        node < adj.len(),
        is_path(adj, path),
        0 <= at < path.len(),
        path[at] == node,
        path.last() != node,
    ensures
        adj[node as int].contains(neighbor),
        reachable(detached(adj, node), neighbor, path.last()),
    decreases path.len() - at,
{
    if exists|k: int| at < k < path.len() && path[k] == node {
        let k = choose|k: int| at < k < path.len() && path[k] == node;
        lemma_last_leave(adj, node, path, k)
    } else {
        assert(adj[path[at] as int].contains(path[at + 1]));
        lemma_walk_avoiding(adj, node, path, at + 1);
        path[at + 1]
    }
}

/// In a connected graph every other node is reachable from a neighbor of `node`
/// without the edges of `node`.
pub(crate) proof fn lemma_detour(adj: Seq<Seq<usize>>, node: usize, to: usize) -> (neighbor: usize)
    requires
        simple(adj),
        connected(adj),
        adj.len() <= usize::MAX,
        node < adj.len(),
        to < adj.len(),
        to != node,
    ensures
        adj[node as int].contains(neighbor),
        reachable(detached(adj, node), neighbor, to),
{
    assert(reachable(adj, node, to));
    let path = choose|path: Seq<usize>| #[trigger]
        is_path(adj, path) && path[0] == node && path.last() == to;
    lemma_last_leave(adj, node, path, 0)
}

} // verus!
