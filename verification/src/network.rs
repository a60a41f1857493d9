//! The survey network: stations held by position in a list, and the legs
//! that join them.
//!
//! A station is known by its position in the list for as long as the network
//! lives. Avoiding a station leaves it in the list and takes away every leg
//! that touches it.

use crate::data::{Leg, Node, Point};
use crate::mesh::{mesh_add_edge, mesh_add_node, mesh_edges, mesh_new, mesh_nodes};
use vstd::prelude::*;

verus! {

/// `at` is the position of the first station of `nodes` that stands at
/// `coords`.
pub open spec fn is_first_at(nodes: Seq<Node>, coords: Point, at: int) -> bool {
    &&& 0 <= at < nodes.len()
    &&& nodes[at].coords == coords
    &&& forall|j: int| 0 <= j < at ==> (#[trigger] nodes[j]).coords != coords
}

/// The position of the first station of `nodes` that stands at `coords`.
pub open spec fn first_at(nodes: Seq<Node>, coords: Point) -> Option<int> {
    if exists|at: int| is_first_at(nodes, coords, at) {
        Some(choose|at: int| is_first_at(nodes, coords, at))
    } else {
        None
    }
}

/// The first station at `coords` is the one that `first_at` finds.
pub proof fn lemma_first_at(nodes: Seq<Node>, coords: Point, at: int)
    requires
        is_first_at(nodes, coords, at),
    ensures
        first_at(nodes, coords) == Some(at),
{
    let chosen = choose|at: int| is_first_at(nodes, coords, at);
    assert(is_first_at(nodes, coords, chosen));
    if chosen < at {
        assert(nodes[chosen].coords != coords);
    } else if at < chosen {
        assert(nodes[at].coords != coords);
    }
}

/// Where no station stands at `coords`, `first_at` finds none.
pub proof fn lemma_first_at_none(nodes: Seq<Node>, coords: Point)
    requires
        forall|j: int| 0 <= j < nodes.len() ==> (#[trigger] nodes[j]).coords != coords,
    ensures
        first_at(nodes, coords) is None,
{
}

/// The link that a leg between `from` and `to` makes among `nodes`: it joins
/// the first station at each end and is as long as the two are apart. A leg
/// with an end at which no station stands makes none.
pub open spec fn link_of(nodes: Seq<Node>, from: Point, to: Point) -> Option<(nat, nat, nat)> {
    match (first_at(nodes, from), first_at(nodes, to)) {
        (Some(a), Some(b)) => Some((a as nat, b as nat, from.separation(to))),
        _ => None,
    }
}

/// The links that `legs` make among `nodes`, in the order of the legs.
pub open spec fn links_of(nodes: Seq<Node>, legs: Seq<Leg>) -> Seq<(nat, nat, nat)> {
    legs.filter_map(|leg: Leg| link_of(nodes, leg.from_coords, leg.to_coords))
}

/// The far end and the length of the link `e` as seen from the station `at`,
/// where `e` touches it.
pub open spec fn far_end(e: (nat, nat, nat), at: nat) -> Option<(nat, nat)> {
    if e.0 == at {
        Some((e.1, e.2))
    } else if e.1 == at {
        Some((e.0, e.2))
    } else {
        None
    }
}

/// The stations that follow the station `at` along one link, each with the
/// length of that link, in the order of the links.
pub open spec fn successors_of(links: Seq<(nat, nat, nat)>, at: nat) -> Seq<(nat, nat)> {
    links.filter_map(|e: (nat, nat, nat)| far_end(e, at))
}

/// The position `at` is among `targets`.
pub open spec fn is_target(targets: Seq<usize>, at: int) -> bool {
    exists|k: int| 0 <= k < targets.len() && #[trigger] targets[k] == at
}

/// Whether `at` is one of `positions`.
pub fn holds_position(positions: &Vec<usize>, at: usize) -> (held: bool)
    ensures
        held == is_target(positions@, at as int),
{
    let mut k: usize = 0;
    while k < positions.len()
        invariant
            0 <= k <= positions.len(),
            forall|j: int| 0 <= j < k ==> positions@[j] != at,
        decreases positions.len() - k,
    {
        if positions[k] == at {
            return true;
        }
        k = k + 1;
    }
    false
}

/// A network as plain data.
pub struct NetworkView {
    /// The stations, each known by its position.
    pub stations: Seq<Node>,
    /// The links `(a, b, length)` between station positions.
    pub links: Seq<(nat, nat, nat)>,
    /// For each station, whether routes must avoid it.
    pub avoided: Seq<bool>,
}

impl NetworkView {
    /// The link `e` joins two stations of the network that are not avoided,
    /// and its length is their separation.
    pub open spec fn link_sound(self, e: (nat, nat, nat)) -> bool {
        &&& e.0 < self.stations.len()
        &&& e.1 < self.stations.len()
        &&& !self.avoided[e.0 as int]
        &&& !self.avoided[e.1 as int]
        &&& e.2 == self.stations[e.0 as int].coords.separation(self.stations[e.1 as int].coords)
    }

    /// The link that a leg between `from` and `to` adds to this network: the
    /// link it makes among the stations, unless that touches an avoided
    /// station.
    pub open spec fn usable_link(self, from: Point, to: Point) -> Option<(nat, nat, nat)> {
        match link_of(self.stations, from, to) {
            Some(e) => if self.avoided[e.0 as int] || self.avoided[e.1 as int] {
                None
            } else {
                Some(e)
            },
            None => None,
        }
    }

    /// The links after a leg between `from` and `to` has been attached.
    pub open spec fn links_with(self, from: Point, to: Point) -> Seq<(nat, nat, nat)> {
        match self.usable_link(from, to) {
            Some(e) => self.links.push(e),
            None => self.links,
        }
    }

    /// The flags after the stations at the positions `targets` have been
    /// marked as avoided.
    pub open spec fn avoided_with(self, targets: Seq<usize>) -> Seq<bool> {
        Seq::new(self.stations.len(), |i: int| self.avoided[i] || is_target(targets, i))
    }

    /// The links that touch none of the stations flagged in `avoided`.
    pub open spec fn links_clear_of(self, avoided: Seq<bool>) -> Seq<(nat, nat, nat)> {
        self.links.filter(|e: (nat, nat, nat)| !avoided[e.0 as int] && !avoided[e.1 as int])
    }

    /// Every link is sound and every station has its flag.
    pub open spec fn sound(self) -> bool {
        &&& self.avoided.len() == self.stations.len()
        &&& forall|k: int| 0 <= k < self.links.len() ==> self.link_sound(#[trigger] self.links[k])
    }
}

/// The survey network.
pub struct Network {
    stations: Vec<Node>,
    links: Vec<(usize, usize, u64)>,
    avoided: Vec<bool>,
    mesh: petgraph::graph::Graph<(), u128, petgraph::Undirected, usize>,
}

/// Links as plain numbers.
pub open spec fn links_view(links: Seq<(usize, usize, u64)>) -> Seq<(nat, nat, nat)> {
    Seq::new(links.len(), |k: int| (links[k].0 as nat, links[k].1 as nat, links[k].2 as nat))
}

impl View for Network {
    type V = NetworkView;

    closed spec fn view(&self) -> NetworkView {
        NetworkView {
            stations: self.stations@,
            links: links_view(self.links@),
            avoided: self.avoided@,
        }
    }
}

impl Network {
    /// The network is sound and its search mesh holds exactly its stations
    /// and links.
    pub closed spec fn wf(&self) -> bool {
        &&& self@.sound()
        &&& mesh_nodes(&self.mesh) == self.stations@.len()
        &&& mesh_edges(&self.mesh) == self@.links
    }

    /// A well-formed network is sound.
    pub proof fn lemma_wf_sound(&self)
        requires
            self.wf(),
        ensures
            self@.sound(),
    {
    }

    /// A network of `nodes` without any link.
    pub fn new(nodes: Vec<Node>) -> (net: Network)
        ensures
            net.wf(),
            net@.stations == nodes@,
            net@.links == Seq::<(nat, nat, nat)>::empty(),
            net@.avoided == Seq::new(nodes@.len(), |i: int| false),
    {
        let mut mesh = mesh_new();
        let mut avoided: Vec<bool> = Vec::new();
        let mut i: usize = 0;
        while i < nodes.len()
            invariant
                0 <= i <= nodes.len(),
                mesh_nodes(&mesh) == i,
                mesh_edges(&mesh) == Seq::<(nat, nat, nat)>::empty(),
                avoided@ == Seq::new(i as nat, |i: int| false),
            decreases nodes.len() - i,
        {
            mesh_add_node(&mut mesh);
            avoided.push(false);
            i = i + 1;
            assert(avoided@ =~= Seq::new(i as nat, |i: int| false));
        }
        let links: Vec<(usize, usize, u64)> = Vec::new();
        assert(links_view(links@) =~= Seq::<(nat, nat, nat)>::empty());
        Network { stations: nodes, links, avoided, mesh }
    }

    /// The number of stations.
    pub fn len(&self) -> (n: usize)
        ensures
            n == self@.stations.len(),
    {
        self.stations.len()
    }

    /// The stations, each at its position.
    pub fn stations(&self) -> (nodes: &Vec<Node>)
        ensures
            nodes@ == self@.stations,
    {
        &self.stations
    }

    /// The links `(a, b, length)` between station positions, in the order in
    /// which they were attached.
    pub fn links(&self) -> (links: &Vec<(usize, usize, u64)>)
        ensures
            links_view(links@) == self@.links,
    {
        &self.links
    }

    /// The search mesh, which holds the stations and links of the network.
    pub(crate) fn mesh(&self) -> (g: &petgraph::graph::Graph<(), u128, petgraph::Undirected, usize>)
        requires
            self.wf(),
        ensures
            mesh_nodes(g) == self@.stations.len(),
            mesh_edges(g) == self@.links,
            forall|k: int| 0 <= k < self@.links.len() ==> (#[trigger] self@.links[k]).2 <= u64::MAX,
    {
        &self.mesh
    }

    /// Whether routes must avoid the station at `at`.
    pub fn is_avoided(&self, at: usize) -> (flag: bool)
        requires
            self.wf(),
            at < self@.stations.len(),
        ensures
            flag == self@.avoided[at as int],
    {
        self.avoided[at]
    }

    /// Attaches a leg between the positions `from` and `to`: a link between
    /// the first station at each, as long as the two are apart. Nothing is
    /// attached where no station stands at one of the ends, or where one of
    /// the two stations is avoided. Returns whether a link was attached.
    pub fn connect(&mut self, from: &Point, to: &Point) -> (added: bool)
        requires
            old(self).wf(),
        ensures
            final(self).wf(),
            final(self)@.stations == old(self)@.stations,
            final(self)@.avoided == old(self)@.avoided,
            final(self)@.links == old(self)@.links_with(*from, *to),
            added == old(self)@.usable_link(*from, *to).is_some(),
    {
        let a = Node::get_by_coords(&self.stations, from);
        let b = Node::get_by_coords(&self.stations, to);
        match (a, b) {
            (Some(a), Some(b)) => {
                if self.avoided[a] || self.avoided[b] {
                    false
                } else {
                    let length = from.distance(to);
                    let ghost before = links_view(self.links@);
                    self.links.push((a, b, length));
                    mesh_add_edge(&mut self.mesh, a, b, length);
                    proof {
                        let e = (a as nat, b as nat, length as nat);
                        assert(links_view(self.links@) =~= before.push(e));
                        assert(self@.link_sound(e));
                        assert forall|k: int| 0 <= k < self@.links.len() implies self@.link_sound(
                            #[trigger] self@.links[k],
                        ) by {
                            if k < before.len() {
                                assert(self@.links[k] == before[k]);
                                assert(old(self)@.link_sound(before[k]));
                            }
                        }
                    }
                    true
                }
            },
            _ => false,
        }
    }

    /// The network without the stations at the positions `targets`: the
    /// stations keep their positions, the targets are marked as avoided, and
    /// every link that touches an avoided station is gone.
    pub fn exclude(&self, targets: &Vec<usize>) -> (net: Network)
        requires
            self.wf(),
            forall|k: int| 0 <= k < targets.len() ==> targets[k] < self@.stations.len(),
        ensures
            net.wf(),
            net@.stations == self@.stations,
            net@.avoided == self@.avoided_with(targets@),
            net@.links == self@.links_clear_of(self@.avoided_with(targets@)),
    {
        let stations = self.stations.clone();
        assert(stations@ =~= self.stations@);
        let mut avoided = self.avoided.clone();
        assert(avoided@ =~= self.avoided@);
        let mut t: usize = 0;
        while t < targets.len()
            invariant
                0 <= t <= targets.len(),
                avoided@.len() == self.stations@.len(),
                self.avoided@.len() == self.stations@.len(),
                forall|k: int| 0 <= k < targets.len() ==> targets[k] < self.stations@.len(),
                forall|i: int|
                    0 <= i < avoided@.len() ==> avoided@[i] == (self.avoided@[i] || is_target(
                        targets@.take(t as int),
                        i,
                    )),
            decreases targets.len() - t,
        {
            let target = targets[t];
            avoided.set(target, true);
            proof {
                let upto = targets@.take(t + 1);
                let before = targets@.take(t as int);
                assert(upto =~= before.push(target));
                assert forall|i: int| 0 <= i < avoided@.len() implies avoided@[i] == (
                self.avoided@[i] || is_target(upto, i)) by {
                    if i == target {
                        assert(upto[t as int] == i);
                    } else if is_target(before, i) {
                        let w = choose|w: int| 0 <= w < before.len() && before[w] == i;
                        assert(upto[w] == i);
                    } else if is_target(upto, i) {
                        let w = choose|w: int| 0 <= w < upto.len() && upto[w] == i;
                        assert(before[w] == i);
                    }
                }
            }
            t = t + 1;
        }
        assert(targets@.take(targets.len() as int) =~= targets@);
        assert(avoided@ =~= self@.avoided_with(targets@));
        let mut mesh = mesh_new();
        let mut n: usize = 0;
        while n < stations.len()
            invariant
                0 <= n <= stations.len(),
                mesh_nodes(&mesh) == n,
                mesh_edges(&mesh) == Seq::<(nat, nat, nat)>::empty(),
            decreases stations.len() - n,
        {
            mesh_add_node(&mut mesh);
            n = n + 1;
        }
        let mut links: Vec<(usize, usize, u64)> = Vec::new();
        let ghost plain = links_view(self.links@);
        let ghost keep = |e: (nat, nat, nat)| !avoided@[e.0 as int] && !avoided@[e.1 as int];
        let mut k: usize = 0;
        proof {
            reveal(Seq::filter);
            assert(plain.take(0) =~= Seq::<(nat, nat, nat)>::empty());
            assert(links_view(links@) =~= Seq::<(nat, nat, nat)>::empty());
        }
        while k < self.links.len()
            invariant
                0 <= k <= self.links.len(),
                self.wf(),
                plain == links_view(self.links@),
                keep == |e: (nat, nat, nat)| !avoided@[e.0 as int] && !avoided@[e.1 as int],
                avoided@.len() == self.stations@.len(),
                stations@.len() == self.stations@.len(),
                mesh_nodes(&mesh) == stations@.len(),
                mesh_edges(&mesh) == links_view(links@),
                links_view(links@) == plain.take(k as int).filter(keep),
            decreases self.links.len() - k,
        {
            let link = self.links[k];
            proof {
                reveal(Seq::filter);
                let upto = plain.take(k + 1);
                assert(upto.drop_last() =~= plain.take(k as int));
                assert(upto.last() == plain[k as int]);
                assert(self@.link_sound(self@.links[k as int]));
            }
            if !avoided[link.0] && !avoided[link.1] {
                let ghost before = links_view(links@);
                links.push(link);
                mesh_add_edge(&mut mesh, link.0, link.1, link.2);
                assert(links_view(links@) =~= before.push(plain[k as int]));
            }
            k = k + 1;
        }
        assert(plain.take(self.links.len() as int) =~= plain);
        let net = Network { stations, links, avoided, mesh };
        proof {
            assert forall|j: int| 0 <= j < net@.links.len() implies net@.link_sound(
                #[trigger] net@.links[j],
            ) by {
                let e = net@.links[j];
                plain.lemma_filter_pred(keep, j);
                plain.lemma_filter_contains_rev(keep, e);
                let w = choose|w: int| 0 <= w < plain.len() && plain[w] == e;
                assert(self@.link_sound(self@.links[w]));
            }
        }
        net
    }
}

} // verus!
