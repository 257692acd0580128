//! The adjacency model: each node's neighbors as a sequence of node ids, and what
//! it means for such a graph to be well formed.

use vstd::prelude::*;

verus! {

/// Every edge leads to a node of the graph.
pub open spec fn in_bounds(adj: Seq<Seq<usize>>) -> bool {
    forall|n: int, m: usize|
        0 <= n < adj.len() && #[trigger] adj[n].contains(m) ==> m < adj.len()
}

/// No edge list holds a neighbor twice.
pub open spec fn no_duplicate_edges(adj: Seq<Seq<usize>>) -> bool {
    forall|n: int| 0 <= n < adj.len() ==> (#[trigger] adj[n]).no_duplicates()
}

/// No node is its own neighbor.
pub open spec fn no_self_loops(adj: Seq<Seq<usize>>) -> bool {
    forall|n: int| 0 <= n < adj.len() ==> !(#[trigger] adj[n]).contains(n as usize)
}

/// Whenever `m` is a neighbor of `n`, `n` is a neighbor of `m`.
pub open spec fn symmetric(adj: Seq<Seq<usize>>) -> bool {
    forall|n: int, m: usize|
        0 <= n < adj.len() && #[trigger] adj[n].contains(m) ==> m < adj.len() && adj[m as int].contains(
            n as usize,
        )
}

/// A simple undirected graph.
pub open spec fn simple(adj: Seq<Seq<usize>>) -> bool {
    &&& in_bounds(adj)
    &&& no_duplicate_edges(adj)
    &&& no_self_loops(adj)
    &&& symmetric(adj)
}

/// The number of directed edges: the sum of the lengths of all edge lists.
pub open spec fn degree_sum(adj: Seq<Seq<usize>>) -> nat
    decreases adj.len(),
{
    if adj.len() == 0 {
        0
    } else {
        degree_sum(adj.drop_last()) + adj.last().len()
    }
}

/// `adj` with the undirected edge between `a` and `b` appended to both edge lists.
pub open spec fn with_edge(adj: Seq<Seq<usize>>, a: usize, b: usize) -> Seq<Seq<usize>> {
    let first = adj.update(a as int, adj[a as int].push(b));
    first.update(b as int, first[b as int].push(a))
}

/// Every edge list of `old_adj` is the beginning of the same node's list in `new_adj`.
pub open spec fn extends(old_adj: Seq<Seq<usize>>, new_adj: Seq<Seq<usize>>) -> bool {
    &&& old_adj.len() == new_adj.len()
    &&& forall|n: int| 0 <= n < old_adj.len() ==> (#[trigger] old_adj[n]).is_prefix_of(new_adj[n])
}

pub proof fn lemma_degree_sum_update(adj: Seq<Seq<usize>>, i: int, list: Seq<usize>)
    requires
        0 <= i < adj.len(),
    ensures
        degree_sum(adj.update(i, list)) == degree_sum(adj) - adj[i].len() + list.len(),
    decreases adj.len(),
{
    let updated = adj.update(i, list);
    if i == adj.len() - 1 {
        assert(updated.drop_last() =~= adj.drop_last());
    } else {
        assert(updated.drop_last() =~= adj.drop_last().update(i, list));
        lemma_degree_sum_update(adj.drop_last(), i, list);
    }
}

pub proof fn lemma_degree_sum_push(adj: Seq<Seq<usize>>, list: Seq<usize>)
    ensures
        degree_sum(adj.push(list)) == degree_sum(adj) + list.len(),
{
    assert(adj.push(list).drop_last() =~= adj);
}

/// A duplicate-free sequence of ids below `bound` has at most `bound` elements.
pub proof fn lemma_distinct_bounded(s: Seq<usize>, bound: nat)
    requires
        s.no_duplicates(),
        forall|i: int| 0 <= i < s.len() ==> s[i] < bound,
    ensures
        s.len() <= bound,
    decreases bound,
{
    if bound == 0 {
        if s.len() > 0 {
            assert(s[0] < bound);
        }
    } else {
        let top = (bound - 1) as usize;
        if s.contains(top) {
            let j = choose|j: int| 0 <= j < s.len() && s[j] == top;
            let rest = s.remove(j);
            assert forall|i: int| 0 <= i < rest.len() implies rest[i] < bound - 1 by {
                if i < j {
                    assert(rest[i] == s[i]);
                } else {
                    assert(rest[i] == s[i + 1]);
                }
            }
            assert(rest.no_duplicates());
            lemma_distinct_bounded(rest, (bound - 1) as nat);
        } else {
            assert forall|i: int| 0 <= i < s.len() implies s[i] < bound - 1 by {
                assert(s.contains(s[i]));
            }
            lemma_distinct_bounded(s, (bound - 1) as nat);
        }
    }
}

/// A duplicate-free sequence of ids below `bound` that misses one of them is shorter
/// than `bound`.
pub proof fn lemma_distinct_missing(s: Seq<usize>, bound: nat, missing: usize)
    requires
        s.no_duplicates(),
        forall|i: int| 0 <= i < s.len() ==> s[i] < bound,
        missing < bound,
        !s.contains(missing),
    ensures
        s.len() < bound,
{
    let longer = s.push(missing);
    assert forall|i: int, j: int| 0 <= i < longer.len() && 0 <= j < longer.len() && i != j implies longer[i] != longer[j] by {
        if i < s.len() {
            assert(s.contains(s[i]));
        }
        if j < s.len() {
            assert(s.contains(s[j]));
        }
    }
    lemma_distinct_bounded(longer, bound);
}

/// A duplicate-free sequence of as many ids below `bound` as there are holds each.
pub proof fn lemma_distinct_full(s: Seq<usize>, bound: nat, x: usize)
    requires
        s.no_duplicates(),
        forall|i: int| 0 <= i < s.len() ==> s[i] < bound,
        s.len() >= bound,
        x < bound,
    ensures
        s.contains(x),
{
    if !s.contains(x) {
        lemma_distinct_missing(s, bound, x);
    }
}

/// A sequence that holds every id below `bound` has at least `bound` elements.
pub proof fn lemma_holds_all(s: Seq<usize>, bound: nat)
    requires
        bound <= usize::MAX,
        forall|x: usize| x < bound ==> s.contains(x),
    ensures
        s.len() >= bound,
    decreases bound,
{
    if bound > 0 {
        let top = (bound - 1) as usize;
        assert(s.contains(top));
        let j = choose|j: int| 0 <= j < s.len() && s[j] == top;
        let rest = s.remove(j);
        s.remove_ensures(j);
        assert forall|x: usize| x < bound - 1 implies rest.contains(x) by {
            assert(s.contains(x));
            let i = choose|i: int| 0 <= i < s.len() && s[i] == x;
            if i < j {
                assert(rest[i] == x);
            } else {
                assert(i > j);
                assert(rest[i - 1] == s[i]);
            }
        }
        lemma_holds_all(rest, (bound - 1) as nat);
    }
}

/// In a simple graph no node has more neighbors than there are other nodes.
pub proof fn lemma_degree_bound(adj: Seq<Seq<usize>>, n: int)
    requires
        simple(adj),
        0 <= n < adj.len(),
    ensures
        adj[n].len() < adj.len(),
{
    assert forall|i: int| 0 <= i < adj[n].len() implies adj[n][i] < adj.len() by {
        assert(adj[n].contains(adj[n][i]));
    }
    lemma_distinct_missing(adj[n], adj.len(), n as usize);
}

/// The directed edges of a simple graph number at most `len * (len - 1)`.
pub proof fn lemma_degree_sum_bound(adj: Seq<Seq<usize>>)
    requires
        simple(adj),
    ensures
        degree_sum(adj) <= adj.len() * adj.len(),
{
    assert forall|n: int| 0 <= n < adj.len() implies (#[trigger] adj[n]).len() <= adj.len() by {
        lemma_degree_bound(adj, n);
    }
    lemma_degree_sum_lists(adj, adj.len());
}

proof fn lemma_degree_sum_lists(adj: Seq<Seq<usize>>, most: nat)
    requires
        forall|n: int| 0 <= n < adj.len() ==> (#[trigger] adj[n]).len() <= most,
    ensures
        degree_sum(adj) <= adj.len() * most,
    decreases adj.len(),
{
    if adj.len() > 0 {
        lemma_degree_sum_lists(adj.drop_last(), most);
        assert((adj.len() - 1) * most + most == adj.len() * most) by (nonlinear_arith);
    }
}

/// Where every node has a neighbor, there are at least as many directed edges as
/// nodes.
pub proof fn lemma_degree_sum_least(adj: Seq<Seq<usize>>)
    requires
        forall|n: int| 0 <= n < adj.len() ==> (#[trigger] adj[n]).len() >= 1,
    ensures
        degree_sum(adj) >= adj.len(),
    decreases adj.len(),
{
    if adj.len() > 0 {
        assert forall|n: int| 0 <= n < adj.drop_last().len() implies (#[trigger] adj.drop_last()[n]).len() >= 1 by {
            assert(adj.drop_last()[n] == adj[n]);
        }
        lemma_degree_sum_least(adj.drop_last());
        assert(adj[adj.len() - 1].len() >= 1);
    }
}

/// Adding an edge between two distinct nodes that are not yet neighbors keeps a
/// simple graph simple and adds two directed edges.
pub proof fn lemma_with_edge(adj: Seq<Seq<usize>>, a: usize, b: usize)
    requires
        simple(adj),
        a < adj.len(),
        b < adj.len(),
        a != b,
        !adj[a as int].contains(b),
    ensures
        simple(with_edge(adj, a, b)),
        degree_sum(with_edge(adj, a, b)) == degree_sum(adj) + 2,
        extends(adj, with_edge(adj, a, b)),
        with_edge(adj, a, b)[a as int] == adj[a as int].push(b),
        with_edge(adj, a, b)[b as int] == adj[b as int].push(a),
        !adj[b as int].contains(a),
{
    let first = adj.update(a as int, adj[a as int].push(b));
    let both = with_edge(adj, a, b);
    lemma_degree_sum_update(adj, a as int, adj[a as int].push(b));
    lemma_degree_sum_update(first, b as int, first[b as int].push(a));
    assert forall|n: int, m: usize| 0 <= n < both.len() && #[trigger] both[n].contains(m) implies m < both.len()
        && both[m as int].contains(n as usize) by {
        lemma_push_contains(adj[a as int], b, m);
        lemma_push_contains(adj[b as int], a, m);
        if n == a && m == b {
            assert(both[b as int].last() == a);
        } else if n == b && m == a {
            assert(both[a as int].last() == b);
        } else {
            assert(adj[n].contains(m));
            lemma_push_contains(adj[a as int], b, n as usize);
            lemma_push_contains(adj[b as int], a, n as usize);
        }
    }
    assert forall|n: int| 0 <= n < both.len() implies (#[trigger] both[n]).no_duplicates() && !both[n].contains(
        n as usize,
    ) by {
        lemma_push_contains(adj[a as int], b, n as usize);
        lemma_push_contains(adj[b as int], a, n as usize);
        lemma_push_distinct(adj[a as int], b);
        lemma_push_distinct(adj[b as int], a);
    }
    assert forall|n: int| 0 <= n < adj.len() implies (#[trigger] adj[n]).is_prefix_of(both[n]) by {
        assert(adj[n] =~= both[n].subrange(0, adj[n].len() as int));
    }
}

/// What a sequence holds after one more element was appended.
pub proof fn lemma_push_contains(s: Seq<usize>, added: usize, x: usize)
    ensures
        s.push(added).contains(x) <==> s.contains(x) || x == added,
{
    let longer = s.push(added);
    if s.contains(x) {
        let i = choose|i: int| 0 <= i < s.len() && s[i] == x;
        assert(longer[i] == x);
    }
    if x == added {
        assert(longer[s.len() as int] == x);
    }
    if longer.contains(x) {
        let i = choose|i: int| 0 <= i < longer.len() && longer[i] == x;
        if i < s.len() {
            assert(s[i] == x);
        }
    }
}

/// Appending an element that a duplicate-free sequence lacks keeps it duplicate-free.
pub proof fn lemma_push_distinct(s: Seq<usize>, added: usize)
    requires
        s.no_duplicates(),
        !s.contains(added),
    ensures
        s.push(added).no_duplicates(),
{
    let longer = s.push(added);
    assert forall|i: int, j: int| 0 <= i < longer.len() && 0 <= j < longer.len() && i != j implies longer[i] != longer[j] by {
        if i < s.len() {
            assert(s.contains(s[i]));
        }
        if j < s.len() {
            assert(s.contains(s[j]));
        }
    }
}

} // verus!
