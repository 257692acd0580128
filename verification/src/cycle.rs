//! The freshening order: a circular singly-linked list through all nodes, from the
//! stalest node to the freshest.

use vstd::prelude::*;

verus! {

/// The position that follows `i` on a cycle of `len` positions.
pub open spec fn following(i: int, len: int) -> int {
    if i + 1 == len {
        0
    } else {
        i + 1
    }
}

/// `order` lists every node exactly once, and `next` leads from each node of `order`
/// to the one that follows it, and from the last back to the first.
pub open spec fn is_cycle_order(next: Seq<usize>, order: Seq<usize>) -> bool {
    &&& order.len() == next.len()
    &&& order.no_duplicates()
    &&& forall|i: int| 0 <= i < order.len() ==> (#[trigger] order[i]) < next.len()
    &&& forall|i: int|
        0 <= i < order.len() ==> next[(#[trigger] order[i]) as int] == order[following(
            i,
            order.len() as int,
        )]
}

/// The `next` links form a single cycle through all nodes, and `freshest` is one of
/// them. The empty index has no links, and its `freshest` is 0.
pub open spec fn freshness_cycle(next: Seq<usize>, freshest: usize) -> bool {
    if next.len() == 0 {
        freshest == 0
    } else {
        exists|order: Seq<usize>| #[trigger] is_cycle_order(next, order) && order.last() == freshest
    }
}

/// The node reached from `from` after following `next` `count` times.
pub open spec fn hop(next: Seq<usize>, from: usize, count: nat) -> usize
    decreases count,
{
    if count == 0 {
        from
    } else {
        next[hop(next, from, (count - 1) as nat) as int]
    }
}

/// The links after a node was spliced in behind the freshest one.
pub open spec fn spliced(next: Seq<usize>, freshest: usize) -> Seq<usize> {
    if next.len() == 0 {
        seq![0usize]
    } else {
        next.update(freshest as int, next.len() as usize).push(next[freshest as int])
    }
}

/// Splicing a new node in behind the freshest one keeps the cycle, and the new node
/// is then the freshest.
pub proof fn lemma_splice(next: Seq<usize>, freshest: usize)
    requires
        freshness_cycle(next, freshest),
        next.len() < usize::MAX,
    ensures
        freshness_cycle(spliced(next, freshest), next.len() as usize),
{
    let node = next.len() as usize;
    let after = spliced(next, freshest);
    if next.len() == 0 {
        let order = seq![0usize];
        assert(is_cycle_order(after, order));
        assert(order.last() == node);
    } else {
        let before = choose|order: Seq<usize>| #[trigger]
            is_cycle_order(next, order) && order.last() == freshest;
        let order = before.push(node);
        assert forall|i: int, j: int| 0 <= i < order.len() && 0 <= j < order.len() && i != j implies order[i] != order[j] by {
            if i < before.len() {
                assert(before[i] < next.len());
            }
            if j < before.len() {
                assert(before[j] < next.len());
            }
        }
        assert forall|i: int| 0 <= i < order.len() implies after[(#[trigger] order[i]) as int] == order[following(
            i,
            order.len() as int,
        )] by {
            if i < before.len() {
                assert(before[i] < next.len());
                if i == before.len() - 1 {
                } else {
                    assert(before[i] != before[before.len() - 1]);
                    assert(next[before[i] as int] == before[following(i, before.len() as int)]);
                }
            } else {
                assert(next[before[before.len() - 1] as int] == before[following(
                    before.len() - 1,
                    before.len() as int,
                )]);
            }
        }
        assert forall|i: int| 0 <= i < order.len() implies (#[trigger] order[i]) < after.len() by {
            if i < before.len() {
                assert(before[i] < next.len());
            }
        }
        assert(is_cycle_order(after, order));
        assert(order.last() == node);
    }
}

/// The node after the freshest one can take its place: the cycle stays.
pub proof fn lemma_advance(next: Seq<usize>, freshest: usize)
    requires
        freshness_cycle(next, freshest),
        next.len() > 0,
    ensures
        freshest < next.len(),
        next[freshest as int] < next.len(),
        freshness_cycle(next, next[freshest as int]),
{
    let before = choose|order: Seq<usize>| #[trigger]
        is_cycle_order(next, order) && order.last() == freshest;
    let len = before.len() as int;
    assert(before[len - 1] < next.len());
    assert(next[before[len - 1] as int] == before[following(len - 1, len)]);
    let order = before.subrange(1, len).push(before[0]);
    assert(before[0] < next.len());
    assert forall|i: int, j: int| 0 <= i < order.len() && 0 <= j < order.len() && i != j implies order[i] != order[j] by {
        let bi = if i == len - 1 {
            0
        } else {
            i + 1
        };
        let bj = if j == len - 1 {
            0
        } else {
            j + 1
        };
        assert(order[i] == before[bi]);
        assert(order[j] == before[bj]);
    }
    assert forall|i: int| 0 <= i < order.len() implies (#[trigger] order[i]) < next.len() && next[order[i] as int]
        == order[following(i, len)] by {
        let bi = if i == len - 1 {
            0
        } else {
            i + 1
        };
        assert(order[i] == before[bi]);
        assert(before[bi] < next.len());
        assert(next[before[bi] as int] == before[following(bi, len)]);
    }
    assert(is_cycle_order(next, order));
    assert(order.last() == next[freshest as int]);
}

/// Following the links any number of times from the freshest node leads to a node
/// that can take its place.
pub proof fn lemma_hops(next: Seq<usize>, freshest: usize, count: nat)
    requires
        freshness_cycle(next, freshest),
        next.len() > 0,
    ensures
        hop(next, freshest, count) < next.len(),
        freshness_cycle(next, hop(next, freshest, count)),
    decreases count,
{
    if count == 0 {
        lemma_advance(next, freshest);
    } else {
        lemma_hops(next, freshest, (count - 1) as nat);
        lemma_advance(next, hop(next, freshest, (count - 1) as nat));
    }
}

} // verus!
