//! The station registry: the stations of a survey, one for each position.
//!
//! Stations are told apart by their position. Where the records hold two
//! stations at one position, the later one takes the place of the earlier.

use crate::data::Node;
use crate::network::{first_at, is_first_at, lemma_first_at};
use vstd::prelude::*;

verus! {

/// No two stations of `nodes` stand at the same position.
pub open spec fn distinct_coords(nodes: Seq<Node>) -> bool {
    forall|i: int, j: int|
        0 <= i < j < nodes.len() ==> (#[trigger] nodes[i]).coords != (#[trigger] nodes[j]).coords
}

/// The registry after `node` has been entered: in the place of the station
/// at its position, or at the end where there is none.
pub open spec fn entered(registry: Seq<Node>, node: Node) -> Seq<Node> {
    match first_at(registry, node.coords) {
        Some(at) => registry.update(at, node),
        None => registry.push(node),
    }
}

/// The registry of the stations `nodes`, entered in their order.
pub open spec fn registered(nodes: Seq<Node>) -> Seq<Node>
    decreases nodes.len(),
{
    if nodes.len() == 0 {
        Seq::empty()
    } else {
        entered(registered(nodes.drop_last()), nodes.last())
    }
}

/// Entering a station keeps the positions distinct.
pub proof fn lemma_entered_distinct(registry: Seq<Node>, node: Node)
    requires
        distinct_coords(registry),
    ensures
        distinct_coords(entered(registry, node)),
{
    let after = entered(registry, node);
    match first_at(registry, node.coords) {
        Some(at) => {
            assert(is_first_at(registry, node.coords, at));
            assert forall|i: int, j: int| 0 <= i < j < after.len() implies (#[trigger] after[i]).coords
                != (#[trigger] after[j]).coords by {
                if i == at {
                    assert(registry[at].coords != registry[j].coords);
                } else if j == at {
                    assert(registry[i].coords != registry[at].coords);
                } else {
                    assert(registry[i].coords != registry[j].coords);
                }
            }
        },
        None => {
            assert forall|i: int, j: int| 0 <= i < j < after.len() implies (#[trigger] after[i]).coords
                != (#[trigger] after[j]).coords by {
                if j == registry.len() {
                    if registry[i].coords == node.coords {
                        lemma_some_at(registry, node.coords, i);
                    }
                } else {
                    assert(registry[i].coords != registry[j].coords);
                }
            }
        },
    }
}

/// Where a station stands at `coords`, a first one does.
pub proof fn lemma_some_at(nodes: Seq<Node>, coords: crate::data::Point, at: int)
    requires
        0 <= at < nodes.len(),
        nodes[at].coords == coords,
    ensures
        first_at(nodes, coords) is Some,
    decreases at,
{
    if forall|j: int| 0 <= j < at ==> (#[trigger] nodes[j]).coords != coords {
        lemma_first_at(nodes, coords, at);
    } else {
        let j = choose|j: int| 0 <= j < at && (#[trigger] nodes[j]).coords == coords;
        lemma_some_at(nodes, coords, j);
    }
}

/// In a registry the positions are distinct.
pub proof fn lemma_registered_distinct(nodes: Seq<Node>)
    ensures
        distinct_coords(registered(nodes)),
    decreases nodes.len(),
{
    if nodes.len() > 0 {
        lemma_registered_distinct(nodes.drop_last());
        lemma_entered_distinct(registered(nodes.drop_last()), nodes.last());
    }
}

/// Of the stations that the records hold at one position, the registry holds
/// the last, and it is the one found at that position.
pub proof fn law_later_record_wins(nodes: Seq<Node>, k: int)
    requires
        0 <= k < nodes.len(),
        forall|j: int| k < j < nodes.len() ==> (#[trigger] nodes[j]).coords != nodes[k].coords,
    ensures
        first_at(registered(nodes), nodes[k].coords) matches Some(at) && registered(nodes)[at]
            == nodes[k],
    decreases nodes.len(),
{
    let before = registered(nodes.drop_last());
    let node = nodes.last();
    let after = registered(nodes);
    let coords = nodes[k].coords;
    if k == nodes.len() - 1 {
        match first_at(before, node.coords) {
            Some(at) => {
                assert(is_first_at(before, node.coords, at));
                assert forall|j: int| 0 <= j < at implies (#[trigger] after[j]).coords != coords by {
                    assert(after[j] == before[j]);
                }
                lemma_first_at(after, coords, at);
            },
            None => {
                assert forall|j: int| 0 <= j < before.len() implies (#[trigger] after[j]).coords
                    != coords by {
                    assert(after[j] == before[j]);
                    if before[j].coords == coords {
                        lemma_some_at(before, coords, j);
                    }
                }
                lemma_first_at(after, coords, before.len() as int);
            },
        }
    } else {
        let init = nodes.drop_last();
        assert(init[k] == nodes[k]);
        assert forall|j: int| k < j < init.len() implies (#[trigger] init[j]).coords != init[k].coords by {
            assert(init[j] == nodes[j]);
        }
        law_later_record_wins(init, k);
        let at = first_at(before, coords)->0;
        assert(is_first_at(before, coords, at));
        assert(node.coords != coords);
        match first_at(before, node.coords) {
            Some(place) => {
                assert(is_first_at(before, node.coords, place));
                assert(place != at);
                assert forall|j: int| 0 <= j < at implies (#[trigger] after[j]).coords != coords by {
                    if j != place {
                        assert(after[j] == before[j]);
                    }
                }
            },
            None => {
                assert forall|j: int| 0 <= j < at implies (#[trigger] after[j]).coords != coords by {
                    assert(after[j] == before[j]);
                }
            },
        }
        assert(after[at] == before[at]);
        lemma_first_at(after, coords, at);
    }
}

/// The registry of `nodes`: each station entered in its order, a station at
/// a position already taken in the place of the one that was there.
pub fn register(nodes: Vec<Node>) -> (registry: Vec<Node>)
    ensures
        registry@ == registered(nodes@),
        distinct_coords(registry@),
{
    let mut registry: Vec<Node> = Vec::new();
    let mut i: usize = 0;
    assert(nodes@.take(0) =~= Seq::<Node>::empty());
    while i < nodes.len()
        invariant
            0 <= i <= nodes.len(),
            registry@ == registered(nodes@.take(i as int)),
        decreases nodes.len() - i,
    {
        proof {
            let upto = nodes@.take(i + 1);
            assert(upto.drop_last() =~= nodes@.take(i as int));
            assert(upto.last() == nodes@[i as int]);
        }
        let node = nodes[i].clone();
        match Node::get_by_coords(&registry, &node.coords) {
            Some(at) => {
                registry.set(at, node);
            },
            None => {
                registry.push(node);
            },
        }
        i = i + 1;
    }
    proof {
        assert(nodes@.take(nodes.len() as int) =~= nodes@);
        lemma_registered_distinct(nodes@);
    }
    registry
}

} // verus!
