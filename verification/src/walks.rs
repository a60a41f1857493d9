//! Walks in an undirected graph with weighted edges, as plain mathematics.
//!
//! An edge is a triple `(a, b, length)`: it joins the nodes `a` and `b` in
//! both directions. A walk is a sequence of nodes in which each is linked to
//! the next.

use vstd::prelude::*;

verus! {

/// Positions as plain numbers.
pub open spec fn as_nats(positions: Seq<usize>) -> Seq<nat> {
    Seq::new(positions.len(), |i: int| positions[i] as nat)
}

/// The edge `e` joins `a` and `b`, in either direction.
pub open spec fn joins(e: (nat, nat, nat), a: nat, b: nat) -> bool {
    (e.0 == a && e.1 == b) || (e.0 == b && e.1 == a)
}

/// Some edge joins `a` and `b`.
pub open spec fn linked(edges: Seq<(nat, nat, nat)>, a: nat, b: nat) -> bool {
    exists|k: int| 0 <= k < edges.len() && joins(#[trigger] edges[k], a, b)
}

/// The length of the shortest edge that joins `a` and `b`; zero where none
/// does.
pub open spec fn hop(edges: Seq<(nat, nat, nat)>, a: nat, b: nat) -> nat
    decreases edges.len(),
{
    if edges.len() == 0 {
        0
    } else {
        let rest = edges.drop_last();
        let e = edges.last();
        if !joins(e, a, b) {
            hop(rest, a, b)
        } else if linked(rest, a, b) && hop(rest, a, b) <= e.2 {
            hop(rest, a, b)
        } else {
            e.2
        }
    }
}

/// `walk` is a non-empty sequence of nodes below `nodes`, each linked to the
/// next.
pub open spec fn is_walk(edges: Seq<(nat, nat, nat)>, nodes: nat, walk: Seq<nat>) -> bool {
    &&& walk.len() >= 1
    &&& forall|i: int| 0 <= i < walk.len() ==> #[trigger] walk[i] < nodes
    &&& forall|i: int| 0 <= i < walk.len() - 1 ==> linked(edges, #[trigger] walk[i], walk[i + 1])
}

/// `walk` begins at `from` and ends at `to`.
pub open spec fn runs_between(walk: Seq<nat>, from: nat, to: nat) -> bool {
    walk.len() >= 1 && walk[0] == from && walk.last() == to
}

/// The sum of the hops along `walk`.
pub open spec fn walk_length(edges: Seq<(nat, nat, nat)>, walk: Seq<nat>) -> nat
    decreases walk.len(),
{
    if walk.len() <= 1 {
        0
    } else {
        walk_length(edges, walk.drop_last()) + hop(edges, walk[walk.len() - 2], walk.last())
    }
}

/// Some walk leads from `from` to `to`.
pub open spec fn reachable(edges: Seq<(nat, nat, nat)>, nodes: nat, from: nat, to: nat) -> bool {
    exists|walk: Seq<nat>| #[trigger] is_walk(edges, nodes, walk) && runs_between(walk, from, to)
}

/// `walk` leads from `from` to `to`, `cost` is its length, and no walk between
/// the two is shorter.
pub open spec fn is_shortest(
    edges: Seq<(nat, nat, nat)>,
    nodes: nat,
    from: nat,
    to: nat,
    cost: nat,
    walk: Seq<nat>,
) -> bool {
    &&& is_walk(edges, nodes, walk)
    &&& runs_between(walk, from, to)
    &&& cost == walk_length(edges, walk)
    &&& forall|other: Seq<nat>| #[trigger]
        is_walk(edges, nodes, other) && runs_between(other, from, to) ==> cost <= walk_length(
            edges,
            other,
        )
}

/// The estimate of the remaining cost is zero at the goal and never drops by
/// more than an edge's length along that edge.
pub open spec fn consistent(edges: Seq<(nat, nat, nat)>, estimate: Seq<nat>, goal: nat) -> bool {
    &&& 0 <= goal < estimate.len()
    &&& estimate[goal as int] == 0
    &&& forall|k: int|
        0 <= k < edges.len() ==> {
            let e = #[trigger] edges[k];
            &&& e.0 < estimate.len()
            &&& e.1 < estimate.len()
            &&& estimate[e.0 as int] <= e.2 + estimate[e.1 as int]
            &&& estimate[e.1 as int] <= e.2 + estimate[e.0 as int]
        }
}

/// Where every edge that joins `a` and `b` has the length `length`, and one
/// does, the hop between them is `length`.
pub proof fn lemma_hop_uniform(edges: Seq<(nat, nat, nat)>, a: nat, b: nat, length: nat)
    requires
        linked(edges, a, b),
        forall|k: int|
            0 <= k < edges.len() && joins(#[trigger] edges[k], a, b) ==> edges[k].2 == length,
    ensures
        hop(edges, a, b) == length,
    decreases edges.len(),
{
    let rest = edges.drop_last();
    let e = edges.last();
    assert forall|k: int| 0 <= k < rest.len() && joins(#[trigger] rest[k], a, b) implies rest[k].2
        == length by {
        assert(rest[k] == edges[k]);
    }
    if linked(rest, a, b) {
        lemma_hop_uniform(rest, a, b, length);
    } else {
        let k = choose|k: int| 0 <= k < edges.len() && joins(#[trigger] edges[k], a, b);
        if k < rest.len() {
            assert(rest[k] == edges[k]);
            assert(false);
        }
        lemma_hop_skips(rest, a, b);
    }
}

/// Where no edge joins `a` and `b`, the hop between them is zero.
pub proof fn lemma_hop_skips(edges: Seq<(nat, nat, nat)>, a: nat, b: nat)
    requires
        !linked(edges, a, b),
    ensures
        hop(edges, a, b) == 0,
    decreases edges.len(),
{
    if edges.len() > 0 {
        let rest = edges.drop_last();
        assert(!joins(edges[edges.len() - 1], a, b));
        assert forall|k: int| 0 <= k < rest.len() implies !joins(#[trigger] rest[k], a, b) by {
            assert(rest[k] == edges[k]);
        }
        lemma_hop_skips(rest, a, b);
    }
}

/// Being linked does not depend on the direction.
pub proof fn lemma_linked_symmetric(edges: Seq<(nat, nat, nat)>, a: nat, b: nat)
    requires
        linked(edges, a, b),
    ensures
        linked(edges, b, a),
{
    let k = choose|k: int| 0 <= k < edges.len() && joins(#[trigger] edges[k], a, b);
    assert(joins(edges[k], b, a));
}

/// A walk read backwards is a walk.
pub proof fn lemma_reverse_is_walk(edges: Seq<(nat, nat, nat)>, nodes: nat, walk: Seq<nat>)
    requires
        is_walk(edges, nodes, walk),
    ensures
        is_walk(edges, nodes, walk.reverse()),
        runs_between(walk.reverse(), walk.last(), walk[0]),
{
    let back = walk.reverse();
    assert forall|i: int| 0 <= i < back.len() - 1 implies linked(
        edges,
        #[trigger] back[i],
        back[i + 1],
    ) by {
        let j = walk.len() - 2 - i;
        assert(back[i] == walk[j + 1]);
        assert(back[i + 1] == walk[j]);
        assert(linked(edges, walk[j], walk[j + 1]));
        lemma_linked_symmetric(edges, walk[j], walk[j + 1]);
    }
    assert forall|i: int| 0 <= i < back.len() implies #[trigger] back[i] < nodes by {
        assert(back[i] == walk[walk.len() - 1 - i]);
    }
}

} // verus!
