//! Routes through a network: walks that keep clear of avoided stations,
//! measured by the straight-line separation of consecutive stations.

use crate::mesh::astar_outcome;
use crate::network::NetworkView;
use crate::walks::{
    consistent, is_walk, joins, lemma_hop_uniform, lemma_reverse_is_walk, linked, runs_between,
    walk_length,
};
use vstd::prelude::*;

verus! {

/// Two pieces of a route put together: the second begins with the station on
/// which the first ends, which is kept once.
pub open spec fn joined(head: Seq<nat>, tail: Seq<nat>) -> Seq<nat> {
    if head.len() == 0 {
        tail
    } else {
        head.drop_last() + tail
    }
}

impl NetworkView {
    /// The separation of the stations at `a` and `b`.
    pub open spec fn span(self, a: nat, b: nat) -> nat {
        self.stations[a as int].coords.separation(self.stations[b as int].coords)
    }

    /// The sum of the separations of consecutive stations along `walk`.
    pub open spec fn route_length(self, walk: Seq<nat>) -> nat
        decreases walk.len(),
    {
        if walk.len() <= 1 {
            0
        } else {
            self.route_length(walk.drop_last()) + self.span(walk[walk.len() - 2], walk.last())
        }
    }

    /// `walk` follows the links of the network and meets no avoided station.
    pub open spec fn is_route(self, walk: Seq<nat>) -> bool {
        &&& is_walk(self.links, self.stations.len(), walk)
        &&& forall|i: int| 0 <= i < walk.len() ==> !self.avoided[#[trigger] walk[i] as int]
    }

    /// Some route leads from `from` to `to`.
    pub open spec fn connected(self, from: nat, to: nat) -> bool {
        exists|walk: Seq<nat>| #[trigger] self.is_route(walk) && runs_between(walk, from, to)
    }

    /// `walk` is a route from `from` to `to`, `cost` is its length, and no
    /// route between the two is shorter.
    pub open spec fn is_shortest_route(self, from: nat, to: nat, cost: nat, walk: Seq<nat>) -> bool {
        &&& self.is_route(walk)
        &&& runs_between(walk, from, to)
        &&& cost == self.route_length(walk)
        &&& forall|other: Seq<nat>| #[trigger]
            self.is_route(other) && runs_between(other, from, to) ==> cost <= self.route_length(
                other,
            )
    }

    /// For each station, its separation from the station at `goal`.
    pub open spec fn estimates(self, goal: nat) -> Seq<nat> {
        Seq::new(self.stations.len(), |i: int| self.span(i as nat, goal))
    }

    /// What the search finds between `from` and `to`: nothing where one of
    /// them is avoided, and otherwise the outcome of the A* search with the
    /// separation from `to` as the estimate.
    pub open spec fn segment(self, from: nat, to: nat) -> Option<(nat, Seq<nat>)> {
        if self.avoided[from as int] || self.avoided[to as int] {
            None
        } else {
            astar_outcome(self.links, self.stations.len(), from, to, self.estimates(to))
        }
    }

    /// Some shortest route from `from` to `to` has the length `cost`.
    pub open spec fn shortest_is(self, from: nat, to: nat, cost: nat) -> bool {
        exists|walk: Seq<nat>| #[trigger] self.is_shortest_route(from, to, cost, walk)
    }

    /// The least length of a route from `from` to `to`.
    pub open spec fn least(self, from: nat, to: nat) -> nat {
        choose|cost: nat| self.shortest_is(from, to, cost)
    }

    /// The sum of the least lengths between consecutive waypoints.
    pub open spec fn least_along(self, waypoints: Seq<nat>) -> nat
        decreases waypoints.len(),
    {
        if waypoints.len() <= 1 {
            0
        } else {
            self.least_along(waypoints.drop_last()) + self.least(
                waypoints[waypoints.len() - 2],
                waypoints.last(),
            )
        }
    }

    /// The route through `waypoints` in their order: the segments found
    /// between consecutive waypoints, joined at the waypoints; nothing where a
    /// segment is missing.
    pub open spec fn composed(self, waypoints: Seq<nat>) -> Option<Seq<nat>>
        decreases waypoints.len(),
    {
        if waypoints.len() < 2 {
            Some(Seq::empty())
        } else {
            match self.composed(waypoints.drop_last()) {
                None => None,
                Some(head) => match self.segment(
                    waypoints[waypoints.len() - 2],
                    waypoints.last(),
                ) {
                    None => None,
                    Some((_, tail)) => Some(joined(head, tail)),
                },
            }
        }
    }

    /// The cost of a shortest route is the least length between its ends.
    pub proof fn lemma_least(self, from: nat, to: nat, cost: nat, walk: Seq<nat>)
        requires
            self.is_shortest_route(from, to, cost, walk),
        ensures
            self.least(from, to) == cost,
    {
        assert(self.shortest_is(from, to, cost));
        let chosen = self.least(from, to);
        assert(self.shortest_is(from, to, chosen));
        let other = choose|other: Seq<nat>| #[trigger]
            self.is_shortest_route(from, to, chosen, other);
        assert(self.is_shortest_route(from, to, chosen, other));
    }

    /// Two routes, the second beginning where the first ends, joined at that
    /// station, make a route.
    pub proof fn lemma_join_is_route(self, first: Seq<nat>, second: Seq<nat>)
        requires
            self.is_route(first),
            self.is_route(second),
            first.last() == second[0],
        ensures
            self.is_route(first.drop_last() + second),
            runs_between(first.drop_last() + second, first[0], second.last()),
    {
        let whole = first.drop_last() + second;
        let cut = first.len() - 1;
        assert forall|i: int| 0 <= i < whole.len() implies #[trigger] whole[i]
            < self.stations.len() && !self.avoided[whole[i] as int] by {
            if i < cut {
                assert(whole[i] == first[i]);
            } else {
                assert(whole[i] == second[i - cut]);
            }
        }
        assert forall|i: int| 0 <= i < whole.len() - 1 implies linked(
            self.links,
            #[trigger] whole[i],
            whole[i + 1],
        ) by {
            if i + 1 < cut {
                assert(whole[i] == first[i] && whole[i + 1] == first[i + 1]);
            } else if i < cut {
                assert(whole[i] == first[i]);
                assert(whole[i + 1] == second[0]);
                assert(first[i + 1] == second[0]);
            } else {
                assert(whole[i] == second[i - cut] && whole[i + 1] == second[i - cut + 1]);
            }
        }
    }

    /// In a sound network the hop between two linked stations is their
    /// separation.
    pub proof fn lemma_hop_is_span(self, a: nat, b: nat)
        requires
            self.sound(),
            linked(self.links, a, b),
        ensures
            crate::walks::hop(self.links, a, b) == self.span(a, b),
    {
        assert forall|k: int|
            0 <= k < self.links.len() && joins(#[trigger] self.links[k], a, b) implies self.links[k].2
            == self.span(a, b) by {
            assert(self.link_sound(self.links[k]));
            self.stations[a as int].coords.lemma_separation_symmetric(
                self.stations[b as int].coords,
            );
        }
        lemma_hop_uniform(self.links, a, b, self.span(a, b));
    }

    /// In a sound network a walk is as long as the separations along it.
    pub proof fn lemma_walk_length_is_route_length(self, walk: Seq<nat>)
        requires
            self.sound(),
            is_walk(self.links, self.stations.len(), walk),
        ensures
            walk_length(self.links, walk) == self.route_length(walk),
        decreases walk.len(),
    {
        if walk.len() > 1 {
            let shorter = walk.drop_last();
            assert forall|i: int| 0 <= i < shorter.len() - 1 implies linked(
                self.links,
                #[trigger] shorter[i],
                shorter[i + 1],
            ) by {
                assert(shorter[i] == walk[i]);
                assert(shorter[i + 1] == walk[i + 1]);
            }
            assert forall|i: int| 0 <= i < shorter.len() implies #[trigger] shorter[i]
                < self.stations.len() by {
                assert(shorter[i] == walk[i]);
            }
            self.lemma_walk_length_is_route_length(shorter);
            let i = walk.len() - 2;
            assert(linked(self.links, walk[i], walk[i + 1]));
            self.lemma_hop_is_span(walk[i], walk.last());
        }
    }

    /// In a sound network a walk that begins at a station that is not
    /// avoided meets no avoided station: every further station is touched by
    /// a link.
    pub proof fn lemma_walk_is_route(self, walk: Seq<nat>)
        requires
            self.sound(),
            is_walk(self.links, self.stations.len(), walk),
            !self.avoided[walk[0] as int],
        ensures
            self.is_route(walk),
    {
        assert forall|i: int| 0 <= i < walk.len() implies !self.avoided[#[trigger] walk[i] as int] by {
            if i > 0 {
                assert(linked(self.links, walk[i - 1], walk[i - 1 + 1]));
                let k = choose|k: int|
                    0 <= k < self.links.len() && joins(
                        #[trigger] self.links[k],
                        walk[i - 1],
                        walk[i],
                    );
                assert(self.link_sound(self.links[k]));
            }
        }
    }

    /// The separation from a goal is a consistent estimate of the remaining
    /// cost, by the triangle inequality.
    pub proof fn lemma_estimates_consistent(self, goal: nat)
        requires
            self.sound(),
            goal < self.stations.len(),
        ensures
            consistent(self.links, self.estimates(goal), goal),
    {
        let target = self.stations[goal as int].coords;
        target.lemma_separation_zero(target);
        assert forall|k: int| 0 <= k < self.links.len() implies {
            let e = #[trigger] self.links[k];
            &&& e.0 < self.estimates(goal).len()
            &&& e.1 < self.estimates(goal).len()
            &&& self.estimates(goal)[e.0 as int] <= e.2 + self.estimates(goal)[e.1 as int]
            &&& self.estimates(goal)[e.1 as int] <= e.2 + self.estimates(goal)[e.0 as int]
        } by {
            let e = self.links[k];
            assert(self.link_sound(e));
            let p = self.stations[e.0 as int].coords;
            let q = self.stations[e.1 as int].coords;
            p.lemma_separation_triangle(q, target);
            q.lemma_separation_triangle(p, target);
            p.lemma_separation_symmetric(q);
        }
    }

    /// No walk is shorter than the straight line between its ends.
    pub proof fn lemma_route_at_least_straight(self, walk: Seq<nat>)
        requires
            walk.len() >= 1,
        ensures
            self.route_length(walk) >= self.span(walk[0], walk.last()),
        decreases walk.len(),
    {
        if walk.len() == 1 {
            let p = self.stations[walk[0] as int].coords;
            p.lemma_separation_zero(p);
        } else {
            let shorter = walk.drop_last();
            self.lemma_route_at_least_straight(shorter);
            assert(shorter[0] == walk[0]);
            assert(shorter.last() == walk[walk.len() - 2]);
            let p = self.stations[walk[0] as int].coords;
            let q = self.stations[walk[walk.len() - 2] as int].coords;
            let r = self.stations[walk.last() as int].coords;
            p.lemma_separation_triangle(q, r);
        }
    }

    /// Putting a station in front of a walk adds the separation from it to
    /// the walk's first station.
    pub proof fn lemma_route_length_prepend(self, first: nat, walk: Seq<nat>)
        requires
            walk.len() >= 1,
        ensures
            self.route_length(seq![first] + walk) == self.span(first, walk[0]) + self.route_length(
                walk,
            ),
        decreases walk.len(),
    {
        let whole = seq![first] + walk;
        if walk.len() == 1 {
            assert(whole.drop_last() =~= seq![first]);
            assert(self.route_length(seq![first]) == 0);
            assert(whole[whole.len() - 2] == first);
            assert(whole.last() == walk[0]);
        } else {
            let shorter = walk.drop_last();
            assert(whole.drop_last() =~= seq![first] + shorter);
            self.lemma_route_length_prepend(first, shorter);
            assert(whole[whole.len() - 2] == walk[walk.len() - 2]);
            assert(whole.last() == walk.last());
            assert(shorter[0] == walk[0]);
        }
    }

    /// Two walks, the second beginning where the first ends, joined at that
    /// station: the lengths add up.
    pub proof fn lemma_route_length_join(self, first: Seq<nat>, second: Seq<nat>)
        requires
            first.len() >= 1,
            second.len() >= 1,
            first.last() == second[0],
        ensures
            self.route_length(first.drop_last() + second) == self.route_length(first)
                + self.route_length(second),
        decreases second.len(),
    {
        let whole = first.drop_last() + second;
        if second.len() == 1 {
            assert(whole =~= first);
        } else {
            let shorter = second.drop_last();
            assert(shorter[0] == second[0]);
            self.lemma_route_length_join(first, shorter);
            assert(whole.drop_last() =~= first.drop_last() + shorter);
            assert(whole.last() == second.last());
            assert(whole[whole.len() - 2] == second[second.len() - 2]);
        }
    }

    /// A walk read backwards is as long as the walk.
    pub proof fn lemma_route_length_reverse(self, walk: Seq<nat>)
        requires
            walk.len() >= 1,
        ensures
            self.route_length(walk.reverse()) == self.route_length(walk),
        decreases walk.len(),
    {
        if walk.len() > 1 {
            let shorter = walk.drop_last();
            self.lemma_route_length_reverse(shorter);
            assert(walk.reverse() =~= seq![walk.last()] + shorter.reverse());
            self.lemma_route_length_prepend(walk.last(), shorter.reverse());
            assert(shorter.reverse()[0] == walk[walk.len() - 2]);
            let p = self.stations[walk.last() as int].coords;
            let q = self.stations[walk[walk.len() - 2] as int].coords;
            p.lemma_separation_symmetric(q);
        } else {
            assert(walk.reverse() =~= walk);
        }
    }

    /// A route read backwards is a route.
    pub proof fn lemma_reverse_is_route(self, walk: Seq<nat>)
        requires
            self.is_route(walk),
        ensures
            self.is_route(walk.reverse()),
            runs_between(walk.reverse(), walk.last(), walk[0]),
    {
        lemma_reverse_is_walk(self.links, self.stations.len(), walk);
        let back = walk.reverse();
        assert forall|i: int| 0 <= i < back.len() implies !self.avoided[#[trigger] back[i] as int] by {
            assert(back[i] == walk[walk.len() - 1 - i]);
        }
    }
}

} // verus!
