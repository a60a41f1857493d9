//! Laws of the library: what holds of every station list, every network and
//! every request.

use crate::command::{
    is_first_conflict, lemma_first_conflict_unique, positions_of, unresolved_failure, verdict,
    Request,
};
use crate::data::{Leg, Node};
use crate::failure::FailureView;
use crate::network::NetworkView;
use crate::resolve::{
    exact_matches, exact_upto, labels_of, lemma_exact_step, resolution, resolved, Resolution,
};
use crate::routes::joined;
use crate::walks::runs_between;
use vstd::prelude::*;

verus! {

/// The exact matches of a label that one station alone bears are that
/// station's position and nothing else.
proof fn lemma_only_exact(labels: Seq<Seq<char>>, at: int, upto: int)
    requires
        0 <= at < labels.len(),
        0 <= upto <= labels.len(),
        forall|j: int| 0 <= j < labels.len() && j != at ==> labels[j] != labels[at],
    ensures
        exact_upto(labels, labels[at], upto) == if upto <= at {
            Seq::<int>::empty()
        } else {
            seq![at]
        },
    decreases upto,
{
    if upto > 0 {
        lemma_only_exact(labels, at, upto - 1);
        lemma_exact_step(labels, labels[at], upto - 1);
        if upto - 1 == at {
            assert(Seq::<int>::empty().push(at) =~= seq![at]);
        }
    } else {
        lemma_exact_step(labels, labels[at], 0);
    }
}

/// A full label that one station alone bears resolves to that station,
/// whatever other labels contain it.
pub proof fn law_full_label_resolves(labels: Seq<Seq<char>>, at: int)
    requires
        0 <= at < labels.len(),
        forall|j: int| 0 <= j < labels.len() && j != at ==> labels[j] != labels[at],
    ensures
        resolution(labels, labels[at]) == Resolution::Found(at),
        resolved(labels, labels[at]) == Some(at),
{
    lemma_only_exact(labels, at, labels.len() as int);
    assert(exact_matches(labels, labels[at]) == seq![at]);
}

/// The shortest route from a station to itself is that station alone, at no
/// cost.
pub proof fn law_route_to_itself(net: NetworkView, at: nat)
    requires
        net.sound(),
        at < net.stations.len(),
        !net.avoided[at as int],
    ensures
        net.is_shortest_route(at, at, 0, seq![at]),
        net.least(at, at) == 0,
{
    let alone = seq![at];
    assert(net.is_route(alone));
    assert(net.route_length(alone) == 0);
    net.lemma_least(at, at, 0, alone);
}

/// The shortest routes between two stations cost the same in both
/// directions.
pub proof fn law_cost_symmetric(
    net: NetworkView,
    a: nat,
    b: nat,
    there_cost: nat,
    there: Seq<nat>,
    back_cost: nat,
    back: Seq<nat>,
)
    requires
        net.is_shortest_route(a, b, there_cost, there),
        net.is_shortest_route(b, a, back_cost, back),
    ensures
        there_cost == back_cost,
{
    net.lemma_reverse_is_route(there);
    net.lemma_route_length_reverse(there);
    net.lemma_reverse_is_route(back);
    net.lemma_route_length_reverse(back);
    assert(net.is_route(back.reverse()) && runs_between(back.reverse(), a, b));
    assert(net.is_route(there.reverse()) && runs_between(there.reverse(), b, a));
}

/// Two stations are joined by a route in one direction exactly when they are
/// in the other.
pub proof fn law_connected_symmetric(net: NetworkView, a: nat, b: nat)
    ensures
        net.connected(a, b) == net.connected(b, a),
{
    if net.connected(a, b) {
        let walk = choose|walk: Seq<nat>| #[trigger] net.is_route(walk) && runs_between(walk, a, b);
        net.lemma_reverse_is_route(walk);
        assert(net.is_route(walk.reverse()) && runs_between(walk.reverse(), b, a));
    }
    if net.connected(b, a) {
        let walk = choose|walk: Seq<nat>| #[trigger] net.is_route(walk) && runs_between(walk, b, a);
        net.lemma_reverse_is_route(walk);
        assert(net.is_route(walk.reverse()) && runs_between(walk.reverse(), a, b));
    }
}

/// No route is shorter than the straight line between its ends.
pub proof fn law_route_at_least_straight(net: NetworkView, from: nat, to: nat, walk: Seq<nat>)
    requires
        runs_between(walk, from, to),
    ensures
        net.route_length(walk) >= net.span(from, to),
{
    net.lemma_route_at_least_straight(walk);
}

/// The route through a start and an end without via points is the segment
/// found between the two.
pub proof fn law_direct_route(net: NetworkView, start: nat, end: nat)
    ensures
        net.composed(seq![start, end]) == match net.segment(start, end) {
            Some((_, walk)) => Some(walk),
            None => None,
        },
{
    let points = seq![start, end];
    assert(points.drop_last() =~= seq![start]);
    assert(net.composed(seq![start]) == Some(Seq::<nat>::empty()));
    assert(points[points.len() - 2] == start);
    assert(points.last() == end);
    match net.segment(start, end) {
        Some((_, walk)) => {
            assert(joined(Seq::<nat>::empty(), walk) == walk);
        },
        None => {},
    }
}

/// The route through one via point is the two segments found, joined at the
/// via point, which is kept once.
pub proof fn law_route_through(net: NetworkView, start: nat, by: nat, end: nat)
    ensures
        net.composed(seq![start, by, end]) == match (net.segment(start, by), net.segment(by, end)) {
            (Some((_, first)), Some((_, second))) => Some(joined(first, second)),
            _ => None,
        },
{
    let points = seq![start, by, end];
    assert(points.drop_last() =~= seq![start, by]);
    assert(points[points.len() - 2] == by);
    assert(points.last() == end);
    law_direct_route(net, start, by);
}

/// A request that asks to avoid its start, its end or one of its via points
/// fails, and names the first such station.
pub proof fn law_avoided_waypoint_fails(stations: Seq<Node>, legs: Seq<Leg>, request: Request, at: int)
    requires
        resolved(labels_of(stations), request.start) is Some,
        resolved(labels_of(stations), request.end) is Some,
        unresolved_failure(labels_of(stations), request.avoid) is None,
        unresolved_failure(labels_of(stations), request.via) is None,
        is_first_conflict(
            positions_of(labels_of(stations), request.avoid),
            resolved(labels_of(stations), request.start)->0 as usize,
            resolved(labels_of(stations), request.end)->0 as usize,
            positions_of(labels_of(stations), request.via),
            at,
        ),
    ensures
        verdict(stations, legs, request) == Err::<Seq<nat>, FailureView>(
            FailureView::ExcludedStationIsEndpoint {
                label: stations[positions_of(labels_of(stations), request.avoid)[at] as int].label@,
            },
        ),
{
    let labels = labels_of(stations);
    let avoid = positions_of(labels, request.avoid);
    let via = positions_of(labels, request.via);
    let start = resolved(labels, request.start)->0 as usize;
    let end = resolved(labels, request.end)->0 as usize;
    let chosen = choose|at: int| is_first_conflict(avoid, start, end, via, at);
    lemma_first_conflict_unique(avoid, start, end, via, at, chosen);
}

} // verus!
