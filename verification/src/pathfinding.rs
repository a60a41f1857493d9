//! Shortest routes: one search between two stations, and the route through a
//! list of waypoints.

use crate::mesh::{estimate_view, mesh_astar, outcome_view};
use crate::network::{Network, NetworkView};
use crate::routes::joined;
use crate::walks::{as_nats, is_walk, reachable, runs_between};
use vstd::prelude::*;

verus! {

/// A route as plain numbers.
pub open spec fn path_view(path: Option<Vec<usize>>) -> Option<Seq<nat>> {
    match path {
        Some(walk) => Some(as_nats(walk@)),
        None => None,
    }
}

/// The shortest route from the station at `start` to the station at `end`,
/// with its length in nanometres; `None` where no route joins them.
pub fn pathfind(data: &Network, start: usize, end: usize) -> (found: Option<(u128, Vec<usize>)>)
    requires
        data.wf(),
        start < data@.stations.len(),
        end < data@.stations.len(),
    ensures
        outcome_view(found) == data@.segment(start as nat, end as nat),
        match outcome_view(found) {
            Some((cost, walk)) => data@.is_shortest_route(start as nat, end as nat, cost, walk)
                && cost >= data@.span(start as nat, end as nat),
            None => !data@.connected(start as nat, end as nat),
        },
        start == end && !data@.avoided[start as int] ==> outcome_view(found) == Some(
            (0nat, seq![start as nat]),
        ),
{
    proof {
        data.lemma_wf_sound();
    }
    if data.is_avoided(start) || data.is_avoided(end) {
        assert forall|walk: Seq<nat>| #[trigger]
            data@.is_route(walk) implies !runs_between(walk, start as nat, end as nat) by {
            if runs_between(walk, start as nat, end as nat) {
                assert(!data@.avoided[walk[0] as int]);
                assert(!data@.avoided[walk[walk.len() - 1] as int]);
            }
        }
        return None;
    }
    let stations = data.stations();
    let mut estimate: Vec<u64> = Vec::new();
    let mut i: usize = 0;
    while i < stations.len()
        invariant
            0 <= i <= stations.len(),
            stations@ == data@.stations,
            end < stations@.len(),
            estimate@.len() == i,
            forall|j: int| 0 <= j < i ==> estimate@[j] == data@.span(j as nat, end as nat),
        decreases stations.len() - i,
    {
        estimate.push(stations[i].distance(&stations[end]));
        i = i + 1;
    }
    proof {
        assert(estimate_view(estimate@) =~= data@.estimates(end as nat));
        data@.lemma_estimates_consistent(end as nat);
    }
    let found = mesh_astar(data.mesh(), start, end, &estimate);
    proof {
        let net = data@;
        let n = net.stations.len();
        match outcome_view(found) {
            Some((cost, walk)) => {
                net.lemma_walk_is_route(walk);
                net.lemma_walk_length_is_route_length(walk);
                net.lemma_route_at_least_straight(walk);
                assert forall|other: Seq<nat>| #[trigger]
                    net.is_route(other) && runs_between(
                        other,
                        start as nat,
                        end as nat,
                    ) implies cost <= net.route_length(other) by {
                    net.lemma_walk_length_is_route_length(other);
                    assert(is_walk(net.links, n, other));
                }
            },
            None => {
                assert forall|walk: Seq<nat>| #[trigger]
                    net.is_route(walk) implies !runs_between(walk, start as nat, end as nat) by {
                    if runs_between(walk, start as nat, end as nat) {
                        assert(is_walk(net.links, n, walk));
                        assert(reachable(net.links, n, start as nat, end as nat));
                    }
                }
            },
        }
    }
    found
}

/// `at` is the position in `waypoints` of the first waypoint from which no
/// route leads to the next.
pub open spec fn is_first_gap(net: NetworkView, waypoints: Seq<nat>, at: int) -> bool {
    &&& 0 <= at < waypoints.len() - 1
    &&& !net.connected(waypoints[at], waypoints[at + 1])
    &&& forall|j: int| 0 <= j < at ==> net.connected(#[trigger] waypoints[j], waypoints[j + 1])
}

/// Puts `segment` at the end of `path`. The segment begins with the station
/// on which the path ends: that station is kept once.
pub fn join_segment(path: &mut Vec<usize>, segment: Vec<usize>)
    ensures
        as_nats(final(path)@) == joined(as_nats(old(path)@), as_nats(segment@)),
{
    let ghost tail = as_nats(segment@);
    let mut segment = segment;
    path.pop();
    path.append(&mut segment);
    assert(as_nats(path@) =~= joined(as_nats(old(path)@), tail));
}

/// The route through the stations `route` in their order: the shortest
/// routes between consecutive waypoints, joined at the waypoints. `None`
/// where no route joins two consecutive waypoints.
pub fn pathfind_route(data: &Network, route: Vec<usize>) -> (path: Option<Vec<usize>>)
    requires
        data.wf(),
        route.len() >= 2,
        forall|i: int| 0 <= i < route.len() ==> route[i] < data@.stations.len(),
    ensures
        path_view(path) == data@.composed(as_nats(route@)),
        match path_view(path) {
            Some(walk) => {
                &&& data@.is_route(walk)
                &&& runs_between(walk, route[0] as nat, route[route.len() - 1] as nat)
                &&& data@.route_length(walk) == data@.least_along(as_nats(route@))
            },
            None => exists|i: int| #[trigger] is_first_gap(data@, as_nats(route@), i),
        },
{
    let mut path: Vec<usize> = Vec::new();
    let mut i: usize = 0;
    let ghost net = data@;
    let ghost points = as_nats(route@);
    proof {
        assert(points.take(1).drop_last() =~= Seq::<nat>::empty());
        assert(as_nats(path@) =~= Seq::<nat>::empty());
        assert(net.least_along(points.take(1)) == 0);
        assert(net.composed(points.take(1)) == Some(Seq::<nat>::empty()));
        assert(net.route_length(Seq::<nat>::empty()) == 0);
    }
    while i < route.len() - 1
        invariant
            0 <= i <= route.len() - 1,
            route.len() >= 2,
            data.wf(),
            net == data@,
            points == as_nats(route@),
            forall|j: int| 0 <= j < route.len() ==> route[j] < net.stations.len(),
            net.composed(points.take(i + 1)) == Some(as_nats(path@)),
            net.route_length(as_nats(path@)) == net.least_along(points.take(i + 1)),
            i == 0 ==> path@.len() == 0,
            forall|j: int| 0 <= j < i ==> net.connected(#[trigger] points[j], points[j + 1]),
            i > 0 ==> net.is_route(as_nats(path@)) && runs_between(
                as_nats(path@),
                route[0] as nat,
                route[i as int] as nat,
            ),
        decreases route.len() - 1 - i,
    {
        let from = route[i];
        let to = route[i + 1];
        proof {
            assert(points[i as int] == from as nat);
            assert(points[i + 1] == to as nat);
        }
        match pathfind(data, from, to) {
            Some((cost, sub_path)) => {
                let ghost head = as_nats(path@);
                let ghost tail = as_nats(sub_path@);
                proof {
                    lemma_composed_step(net, points, i as int, head, cost as nat, tail);
                    assert(net.is_route(tail) && runs_between(tail, from as nat, to as nat));
                }
                join_segment(&mut path, sub_path);
                i = i + 1;
            },
            None => {
                proof {
                    lemma_composed_gap(net, points, i as int);
                    lemma_composed_stays_none(net, points, i + 2);
                    assert(is_first_gap(net, points, i as int));
                }
                return None;
            },
        }
    }
    proof {
        assert(points.take(route.len() as int) =~= points);
    }
    Some(path)
}

/// One more segment found: the route so far and the segment, joined, are the
/// route through one more waypoint.
proof fn lemma_composed_step(
    net: NetworkView,
    points: Seq<nat>,
    i: int,
    head: Seq<nat>,
    cost: nat,
    tail: Seq<nat>,
)
    requires
        0 <= i,
        i + 1 < points.len(),
        net.composed(points.take(i + 1)) == Some(head),
        net.route_length(head) == net.least_along(points.take(i + 1)),
        i == 0 ==> head.len() == 0,
        i > 0 ==> net.is_route(head) && runs_between(head, points[0], points[i]),
        net.segment(points[i], points[i + 1]) == Some((cost, tail)),
        net.is_shortest_route(points[i], points[i + 1], cost, tail),
    ensures
        net.composed(points.take(i + 2)) == Some(joined(head, tail)),
        net.route_length(joined(head, tail)) == net.least_along(points.take(i + 2)),
        net.is_route(joined(head, tail)),
        runs_between(joined(head, tail), points[0], points[i + 1]),
{
    let upto = points.take(i + 2);
    assert(upto.drop_last() =~= points.take(i + 1));
    assert(upto.last() == points[i + 1]);
    assert(upto[upto.len() - 2] == points[i]);
    net.lemma_least(points[i], points[i + 1], cost, tail);
    if i > 0 {
        net.lemma_join_is_route(head, tail);
        net.lemma_route_length_join(head, tail);
    } else {
        assert(net.route_length(head) == 0);
    }
}

/// A segment is missing: there is no route through the waypoints up to its
/// end, and its ends are not connected.
proof fn lemma_composed_gap(net: NetworkView, points: Seq<nat>, i: int)
    requires
        0 <= i,
        i + 1 < points.len(),
        net.segment(points[i], points[i + 1]) is None,
    ensures
        net.composed(points.take(i + 2)) is None,
{
    let upto = points.take(i + 2);
    assert(upto.drop_last() =~= points.take(i + 1));
    assert(upto.last() == points[i + 1]);
    assert(upto[upto.len() - 2] == points[i]);
}

/// Once a segment is missing, no further waypoint brings the route back.
proof fn lemma_composed_stays_none(net: NetworkView, points: Seq<nat>, upto: int)
    requires
        0 <= upto <= points.len(),
        net.composed(points.take(upto)) is None,
    ensures
        net.composed(points) is None,
    decreases points.len() - upto,
{
    if upto < points.len() {
        let next = points.take(upto + 1);
        assert(next.drop_last() =~= points.take(upto));
        assert(next.len() >= 2) by {
            if next.len() < 2 {
                assert(points.take(upto).len() < 2);
            }
        }
        lemma_composed_stays_none(net, points, upto + 1);
    } else {
        assert(points.take(upto) =~= points);
    }
}

} // verus!
