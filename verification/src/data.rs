//! Survey records: file headers, positions, stations and legs.

use crate::failure::Failure;
use crate::measure::{
    lemma_minkowski, lemma_root_up_from, lemma_root_up_is_root, lemma_root_up_least,
    lemma_scaled_norm, norm2, root_up, root_up_of,
};
use crate::names::{is_first_mark, lemma_first_mark_unique, short_of, text_split_once, LEVEL_MARK};
use crate::network::{
    first_at, holds_position, is_first_at, is_target, lemma_first_at, lemma_first_at_none,
    links_of, links_view, successors_of, Network,
};
use crate::resolve::{
    get_station_by_label, is_first_unresolved, is_named, kept_upto, labels_of, lemma_kept_bounds,
    lemma_kept_step, named_upto, resolution, resolution_failure, resolve_all, resolved,
    Resolution,
};
use vstd::prelude::*;

verus! {

/// Lengths are whole nanometres; positions are whole centimetres.
pub const NM_PER_CM: u64 = 10_000_000;

/// The header block of a survey file.
#[derive(Debug)]
pub struct Headers {
    pub title: String,
    pub date: String,
    pub date_numeric: u64,
    pub cs: Option<String>,
    pub version: u8,
    pub extended_elev: bool,
    pub separator: char,
}

impl Headers {
    /// The headers with the given parts.
    pub fn new(
        title: String,
        date: String,
        date_numeric: u64,
        cs: Option<String>,
        version: u8,
        extended_elev: bool,
        separator: char,
    ) -> (headers: Self)
        ensures
            headers.title == title,
            headers.date == date,
            headers.date_numeric == date_numeric,
            headers.cs == cs,
            headers.version == version,
            headers.extended_elev == extended_elev,
            headers.separator == separator,
    {
        Self { title, date, date_numeric, cs, version, extended_elev, separator }
    }
}

/// Absolute difference of two coordinates.
fn axis_gap(a: i32, b: i32) -> (gap: u64)
    ensures
        gap == if a >= b {
            a - b
        } else {
            b - a
        },
        gap <= 0xffff_ffff,
{
    let wide: i64 = a as i64 - b as i64;
    if wide < 0 {
        (-wide) as u64
    } else {
        wide as u64
    }
}

/// A position in space, in whole centimetres along each axis.
#[derive(Debug, Clone, Copy, PartialEq, Eq, Structural, Hash)]
pub struct Point {
    pub x: i32,
    pub y: i32,
    pub z: i32,
}

impl Point {
    /// Square of the straight-line separation of two points, in square
    /// centimetres.
    pub open spec fn gap2(self, other: Point) -> nat {
        norm2(self.x - other.x, self.y - other.y, self.z - other.z)
    }

    /// Straight-line separation of two points in nanometres, rounded up to a
    /// whole nanometre.
    pub open spec fn separation(self, other: Point) -> nat {
        root_up(self.gap2(other) * (NM_PER_CM as nat) * (NM_PER_CM as nat))
    }

    /// Separation does not depend on the direction of travel.
    pub proof fn lemma_separation_symmetric(self, other: Point)
        ensures
            self.separation(other) == other.separation(self),
    {
        let dx = self.x - other.x;
        let dy = self.y - other.y;
        let dz = self.z - other.z;
        assert(dx * dx == (-dx) * (-dx)) by (nonlinear_arith);
        assert(dy * dy == (-dy) * (-dy)) by (nonlinear_arith);
        assert(dz * dz == (-dz) * (-dz)) by (nonlinear_arith);
        assert(self.gap2(other) == other.gap2(self));
    }

    /// Two points are zero apart exactly when they are the same point.
    pub proof fn lemma_separation_zero(self, other: Point)
        ensures
            self.separation(other) == 0 <==> self == other,
    {
        let dx = self.x - other.x;
        let dy = self.y - other.y;
        let dz = self.z - other.z;
        let scaled = self.gap2(other) * (NM_PER_CM as nat) * (NM_PER_CM as nat);
        lemma_root_up_is_root(scaled);
        assert(dx * dx >= 0 && dy * dy >= 0 && dz * dz >= 0) by (nonlinear_arith);
        if self == other {
            assert(dx * dx == 0 && dy * dy == 0 && dz * dz == 0) by (nonlinear_arith)
                requires
                    dx == 0 && dy == 0 && dz == 0,
            ;
            assert(self.gap2(other) == 0);
            assert(scaled == 0) by (nonlinear_arith)
                requires
                    scaled == self.gap2(other) * (NM_PER_CM as nat) * (NM_PER_CM as nat),
                    self.gap2(other) == 0,
            ;
            lemma_root_up_from(scaled, 0);
        } else {
            assert(dx * dx + dy * dy + dz * dz > 0) by (nonlinear_arith)
                requires
                    dx != 0 || dy != 0 || dz != 0,
            ;
            assert(scaled > 0) by (nonlinear_arith)
                requires
                    scaled == self.gap2(other) * (NM_PER_CM as nat) * (NM_PER_CM as nat),
                    self.gap2(other) > 0,
                    NM_PER_CM == 10_000_000,
            ;
        }
    }

    /// The triangle inequality: going by way of `via` is never shorter than
    /// going straight.
    pub proof fn lemma_separation_triangle(self, via: Point, other: Point)
        ensures
            self.separation(other) <= self.separation(via) + via.separation(other),
    {
        let s = NM_PER_CM as nat;
        let first = self.separation(via);
        let second = via.separation(other);
        lemma_root_up_is_root(self.gap2(via) * s * s);
        lemma_root_up_is_root(via.gap2(other) * s * s);
        lemma_scaled_norm(self.x - via.x, self.y - via.y, self.z - via.z, s);
        lemma_scaled_norm(via.x - other.x, via.y - other.y, via.z - other.z, s);
        lemma_scaled_norm(self.x - other.x, self.y - other.y, self.z - other.z, s);
        lemma_minkowski(
            s * (self.x - via.x),
            s * (self.y - via.y),
            s * (self.z - via.z),
            s * (via.x - other.x),
            s * (via.y - other.y),
            s * (via.z - other.z),
            first,
            second,
        );
        assert(s * (self.x - via.x) + s * (via.x - other.x) == s * (self.x - other.x))
            by (nonlinear_arith);
        assert(s * (self.y - via.y) + s * (via.y - other.y) == s * (self.y - other.y))
            by (nonlinear_arith);
        assert(s * (self.z - via.z) + s * (via.z - other.z) == s * (self.z - other.z))
            by (nonlinear_arith);
        lemma_root_up_least(self.gap2(other) * s * s, first + second);
    }

    /// The point at `x`, `y` and `z` centimetres.
    pub fn new(x: i32, y: i32, z: i32) -> (p: Self)
        ensures
            p == (Point { x, y, z }),
    {
        Self { x, y, z }
    }

    /// Straight-line distance to `other` in nanometres, rounded up.
    pub fn distance(&self, other: &Point) -> (d: u64)
        ensures
            d == self.separation(*other),
    {
        let dx: u64 = axis_gap(self.x, other.x);
        let dy: u64 = axis_gap(self.y, other.y);
        let dz: u64 = axis_gap(self.z, other.z);
        assert(dx * dx <= 0xffff_ffff * 0xffff_ffff) by (nonlinear_arith)
            requires
                dx <= 0xffff_ffff,
        ;
        assert(dy * dy <= 0xffff_ffff * 0xffff_ffff) by (nonlinear_arith)
            requires
                dy <= 0xffff_ffff,
        ;
        assert(dz * dz <= 0xffff_ffff * 0xffff_ffff) by (nonlinear_arith)
            requires
                dz <= 0xffff_ffff,
        ;
        let sum: u128 = (dx * dx) as u128 + (dy * dy) as u128 + (dz * dz) as u128;
        proof {
            let ex = self.x - other.x;
            let ey = self.y - other.y;
            let ez = self.z - other.z;
            assert(dx * dx == ex * ex) by (nonlinear_arith)
                requires
                    dx == ex || dx == -ex,
            ;
            assert(dy * dy == ey * ey) by (nonlinear_arith)
                requires
                    dy == ey || dy == -ey,
            ;
            assert(dz * dz == ez * ez) by (nonlinear_arith)
                requires
                    dz == ez || dz == -ez,
            ;
            assert(sum == self.gap2(*other));
        }
        let scale: u128 = (NM_PER_CM as u128) * (NM_PER_CM as u128);
        assert(sum * scale <= 0x2_0000_0000_0000_0000_0000_0000_0000) by (nonlinear_arith)
            requires
                sum <= 3 * (0xffff_ffff * 0xffff_ffff),
                scale == 100_000_000_000_000,
        ;
        assert(sum * scale == self.gap2(*other) * (NM_PER_CM as nat) * (NM_PER_CM as nat))
            by (nonlinear_arith)
            requires
                sum == self.gap2(*other),
                scale == (NM_PER_CM as nat) * (NM_PER_CM as nat),
        ;
        root_up_of(sum * scale)
    }
}

/// Two points are less than 2^57 nanometres apart.
pub proof fn lemma_separation_bound(p: Point, q: Point)
    ensures
        p.separation(q) <= 0x200_0000_0000_0000,
{
    let dx = p.x - q.x;
    let dy = p.y - q.y;
    let dz = p.z - q.z;
    assert(0 <= dx * dx <= 0xffff_ffff * 0xffff_ffff) by (nonlinear_arith)
        requires
            -0xffff_ffff <= dx <= 0xffff_ffff,
    ;
    assert(0 <= dy * dy <= 0xffff_ffff * 0xffff_ffff) by (nonlinear_arith)
        requires
            -0xffff_ffff <= dy <= 0xffff_ffff,
    ;
    assert(0 <= dz * dz <= 0xffff_ffff * 0xffff_ffff) by (nonlinear_arith)
        requires
            -0xffff_ffff <= dz <= 0xffff_ffff,
    ;
    let scaled = p.gap2(q) * (NM_PER_CM as nat) * (NM_PER_CM as nat);
    assert(scaled <= 0x200_0000_0000_0000 * 0x200_0000_0000_0000) by (nonlinear_arith)
        requires
            scaled == p.gap2(q) * (NM_PER_CM as nat) * (NM_PER_CM as nat),
            p.gap2(q) <= 3 * (0xffff_ffff * 0xffff_ffff),
            NM_PER_CM == 10_000_000,
    ;
    lemma_root_up_least(scaled, 0x200_0000_0000_0000);
}

/// A survey station: a labelled position with its attribute flags.
#[derive(Debug)]
pub struct Node {
    pub coords: Point,
    pub label: String,
    pub underground: bool,
    pub surface: bool,
    pub entrance: bool,
    pub exported: bool,
    pub fixed: bool,
    pub anon: bool,
    pub wall: bool,
}

impl Clone for Node {
    fn clone(&self) -> (copy: Self)
        ensures
            copy == *self,
    {
        Node {
            coords: self.coords,
            label: self.label.clone(),
            underground: self.underground,
            surface: self.surface,
            entrance: self.entrance,
            exported: self.exported,
            fixed: self.fixed,
            anon: self.anon,
            wall: self.wall,
        }
    }
}

/// Two stations are the same station when they stand at the same position.
impl PartialEq for Node {
    fn eq(&self, other: &Self) -> (same: bool) {
        self.coords == other.coords
    }
}

impl vstd::std_specs::cmp::PartialEqSpecImpl for Node {
    open spec fn obeys_eq_spec() -> bool {
        true
    }

    open spec fn eq_spec(&self, other: &Self) -> bool {
        self.coords == other.coords
    }
}

impl Eq for Node {

}

impl Node {
    /// A station at `coords` with every flag cleared.
    pub fn new(coords: Point, label: String) -> (node: Self)
        ensures
            node == (Node {
                coords,
                label,
                underground: false,
                surface: false,
                entrance: false,
                exported: false,
                fixed: false,
                anon: false,
                wall: false,
            }),
    {
        Self {
            coords,
            label,
            underground: false,
            surface: false,
            entrance: false,
            exported: false,
            fixed: false,
            anon: false,
            wall: false,
        }
    }

    /// The label without its leading level, for display.
    pub fn short_name(&self) -> (short: String)
        ensures
            short@ == short_of(self.label@),
    {
        match text_split_once(self.label.as_str(), LEVEL_MARK) {
            Some((_, suffix)) => {
                proof {
                    let at = choose|at: int|
                        is_first_mark(self.label@, LEVEL_MARK, at) && suffix@ == self.label@.skip(
                            at + 1,
                        );
                    let chosen = choose|at: int| is_first_mark(self.label@, LEVEL_MARK, at);
                    lemma_first_mark_unique(self.label@, LEVEL_MARK, at, chosen);
                }
                suffix
            },
            None => self.label.clone(),
        }
    }

    /// The position of the first station of `nodes` that stands at `coords`.
    pub fn get_by_coords(nodes: &Vec<Node>, coords: &Point) -> (found: Option<usize>)
        ensures
            match found {
                Some(at) => first_at(nodes@, *coords) == Some(at as int) && is_first_at(
                    nodes@,
                    *coords,
                    at as int,
                ),
                None => first_at(nodes@, *coords) is None,
            },
    {
        let mut i: usize = 0;
        while i < nodes.len()
            invariant
                0 <= i <= nodes.len(),
                forall|j: int| 0 <= j < i ==> (#[trigger] nodes@[j]).coords != *coords,
            decreases nodes.len() - i,
        {
            if nodes[i].coords == *coords {
                proof {
                    lemma_first_at(nodes@, *coords, i as int);
                }
                return Some(i);
            }
            i = i + 1;
        }
        proof {
            lemma_first_at_none(nodes@, *coords);
        }
        None
    }

    /// The station that `query` names: the one whose full label it is, or
    /// otherwise the only one whose label contains it.
    pub fn get_by_name<'a>(nodes: &'a Vec<Node>, query: &str) -> (found: Result<&'a Node, Failure>)
        ensures
            match resolution(labels_of(nodes@), query@) {
                Resolution::Found(at) => 0 <= at < nodes.len() && found == Ok::<&Node, Failure>(
                    &nodes@[at],
                ),
                _ => found is Err && Some(found->Err_0@) == resolution_failure(
                    labels_of(nodes@),
                    query@,
                ),
            },
    {
        match get_station_by_label(nodes, query) {
            Ok(at) => Ok(&nodes[at]),
            Err(failure) => Err(failure),
        }
    }

    /// Takes out of `nodes` the stations that the queries `exclude` name.
    /// Returns the stations that remain and the short names of those taken
    /// out, both in the order of `nodes`. Fails with the failure of the first
    /// query that does not resolve.
    pub fn exclude_nodes(nodes: &Vec<Node>, exclude: &Vec<String>) -> (parted: Result<
        (Vec<Node>, Vec<String>),
        Failure,
    >)
        ensures
            match parted {
                Ok((remaining, names)) => {
                    let labels = labels_of(nodes@);
                    let kept = kept_upto(labels, exclude.deep_view(), nodes@.len() as int);
                    let named = named_upto(labels, exclude.deep_view(), nodes@.len() as int);
                    &&& forall|k: int|
                        0 <= k < exclude@.len() ==> resolved(labels, #[trigger] exclude@[k]@)
                            is Some
                    &&& remaining@.len() == kept.len()
                    &&& forall|k: int|
                        0 <= k < kept.len() ==> 0 <= kept[k] < nodes@.len() && #[trigger] remaining@[k]
                            == nodes@[kept[k]]
                    &&& names@.len() == named.len()
                    &&& forall|k: int|
                        0 <= k < named.len() ==> 0 <= named[k] < nodes@.len() && (
                        #[trigger] names@[k])@ == short_of(nodes@[named[k]].label@)
                },
                Err(failure) => exists|at: int|
                    is_first_unresolved(labels_of(nodes@), exclude.deep_view(), at) && Some(
                        failure@,
                    ) == #[trigger] resolution_failure(labels_of(nodes@), exclude@[at]@),
            },
    {
        let targets = match resolve_all(nodes, exclude) {
            Ok(targets) => targets,
            Err(failure) => {
                return Err(failure);
            },
        };
        let ghost labels = labels_of(nodes@);
        let ghost queries = exclude.deep_view();
        proof {
            assert forall|at: int| is_named(labels, queries, at) == is_target(targets@, at) by {
                if is_named(labels, queries, at) {
                    let k = choose|k: int|
                        0 <= k < queries.len() && resolved(labels, #[trigger] queries[k]) == Some(
                            at,
                        );
                    assert(queries[k] == exclude@[k]@);
                    assert(targets@[k] == at);
                }
                if is_target(targets@, at) {
                    let k = choose|k: int| 0 <= k < targets@.len() && #[trigger] targets@[k] == at;
                    assert(queries[k] == exclude@[k]@);
                    assert(resolved(labels, queries[k]) == Some(at));
                }
            }
            lemma_kept_step(labels, queries, 0);
        }
        let mut remaining: Vec<Node> = Vec::new();
        let mut names: Vec<String> = Vec::new();
        let mut i: usize = 0;
        while i < nodes.len()
            invariant
                0 <= i <= nodes.len(),
                labels == labels_of(nodes@),
                queries == exclude.deep_view(),
                forall|at: int| is_named(labels, queries, at) == is_target(targets@, at),
                remaining@.len() == kept_upto(labels, queries, i as int).len(),
                forall|k: int|
                    0 <= k < remaining@.len() ==> #[trigger] remaining@[k] == nodes@[kept_upto(
                        labels,
                        queries,
                        i as int,
                    )[k]],
                names@.len() == named_upto(labels, queries, i as int).len(),
                forall|k: int|
                    0 <= k < names@.len() ==> (#[trigger] names@[k])@ == short_of(
                        nodes@[named_upto(labels, queries, i as int)[k]].label@,
                    ),
            decreases nodes.len() - i,
        {
            proof {
                lemma_kept_step(labels, queries, i as int);
            }
            let ghost kept = kept_upto(labels, queries, i as int);
            let ghost named = named_upto(labels, queries, i as int);
            let ghost kept_next = kept_upto(labels, queries, i + 1);
            let ghost named_next = named_upto(labels, queries, i + 1);
            let ghost old_remaining = remaining@;
            let ghost old_names = names@;
            if holds_position(&targets, i) {
                names.push(nodes[i].short_name());
                proof {
                    assert(named_next == named.push(i as int));
                    assert(kept_next == kept);
                    assert forall|k: int| 0 <= k < names@.len() implies (#[trigger] names@[k])@
                        == short_of(nodes@[named_next[k]].label@) by {
                        if k < old_names.len() {
                            assert(names@[k] == old_names[k]);
                            assert(named_next[k] == named[k]);
                        }
                    }
                }
            } else {
                remaining.push(nodes[i].clone());
                proof {
                    assert(kept_next == kept.push(i as int));
                    assert(named_next == named);
                    assert forall|k: int| 0 <= k < remaining@.len() implies #[trigger] remaining@[k]
                        == nodes@[kept_next[k]] by {
                        if k < old_remaining.len() {
                            assert(remaining@[k] == old_remaining[k]);
                            assert(kept_next[k] == kept[k]);
                        }
                    }
                }
            }
            i = i + 1;
        }
        proof {
            lemma_kept_bounds(labels, queries, nodes@.len() as int);
            assert forall|k: int| 0 <= k < exclude@.len() implies resolved(
                labels,
                #[trigger] exclude@[k]@,
            ) is Some by {}
        }
        Ok((remaining, names))
    }

    /// Builds the network of `nodes` joined by `legs`. Each leg links the
    /// first station at its one end with the first station at its other end;
    /// a leg with an end at which no station stands is left out.
    pub fn attach_legs(nodes: Vec<Node>, legs: &Vec<Leg>) -> (net: Network)
        ensures
            net.wf(),
            net@.stations == nodes@,
            net@.avoided == Seq::new(nodes@.len(), |i: int| false),
            net@.links == links_of(nodes@, legs@),
    {
        let ghost stations = nodes@;
        let mut net = Network::new(nodes);
        let mut i: usize = 0;
        assert(legs@.take(0) =~= Seq::<Leg>::empty());
        while i < legs.len()
            invariant
                0 <= i <= legs.len(),
                net.wf(),
                net@.stations == stations,
                net@.avoided == Seq::new(stations.len(), |i: int| false),
                net@.links == links_of(stations, legs@.take(i as int)),
            decreases legs.len() - i,
        {
            proof {
                let upto = legs@.take(i + 1);
                assert(upto.drop_last() =~= legs@.take(i as int));
                assert(upto.last() == legs@[i as int]);
                net.lemma_wf_sound();
            }
            net.connect(&legs[i].from_coords, &legs[i].to_coords);
            i = i + 1;
        }
        assert(legs@.take(legs.len() as int) =~= legs@);
        net
    }

    /// Attaches to `net` a leg from this station's position to `coords`, and
    /// returns whether a link was made.
    pub fn add_successor(&self, net: &mut Network, coords: &Point) -> (added: bool)
        requires
            old(net).wf(),
        ensures
            final(net).wf(),
            final(net)@.stations == old(net)@.stations,
            final(net)@.avoided == old(net)@.avoided,
            final(net)@.links == old(net)@.links_with(self.coords, *coords),
            added == old(net)@.usable_link(self.coords, *coords).is_some(),
    {
        net.connect(&self.coords, coords)
    }

    /// The stations one link away from the first station of `net` at this
    /// station's position, each with the length of the link, in the order of
    /// the links. Empty where `net` has no station there.
    pub fn get_successors(&self, net: &Network) -> (successors: Vec<(usize, u64)>)
        ensures
            Seq::new(
                successors@.len(),
                |k: int| (successors@[k].0 as nat, successors@[k].1 as nat),
            ) == match first_at(net@.stations, self.coords) {
                Some(at) => successors_of(net@.links, at as nat),
                None => Seq::<(nat, nat)>::empty(),
            },
    {
        let mut successors: Vec<(usize, u64)> = Vec::new();
        match Node::get_by_coords(net.stations(), &self.coords) {
            Some(at) => {
                let links = net.links();
                let ghost plain = links_view(links@);
                let mut k: usize = 0;
                assert(plain.take(0) =~= Seq::<(nat, nat, nat)>::empty());
                while k < links.len()
                    invariant
                        0 <= k <= links.len(),
                        plain == links_view(links@),
                        Seq::new(
                            successors@.len(),
                            |j: int| (successors@[j].0 as nat, successors@[j].1 as nat),
                        ) == successors_of(plain.take(k as int), at as nat),
                    decreases links.len() - k,
                {
                    proof {
                        let upto = plain.take(k + 1);
                        assert(upto.drop_last() =~= plain.take(k as int));
                        assert(upto.last() == plain[k as int]);
                    }
                    let ghost before = Seq::new(
                        successors@.len(),
                        |j: int| (successors@[j].0 as nat, successors@[j].1 as nat),
                    );
                    let link = links[k];
                    if link.0 == at {
                        successors.push((link.1, link.2));
                        assert(Seq::new(
                            successors@.len(),
                            |j: int| (successors@[j].0 as nat, successors@[j].1 as nat),
                        ) =~= before + seq![(link.1 as nat, link.2 as nat)]);
                    } else if link.1 == at {
                        successors.push((link.0, link.2));
                        assert(Seq::new(
                            successors@.len(),
                            |j: int| (successors@[j].0 as nat, successors@[j].1 as nat),
                        ) =~= before + seq![(link.0 as nat, link.2 as nat)]);
                    }
                    k = k + 1;
                }
                assert(plain.take(links.len() as int) =~= plain);
            },
            None => {
                assert(Seq::new(
                    successors@.len(),
                    |k: int| (successors@[k].0 as nat, successors@[k].1 as nat),
                ) =~= Seq::<(nat, nat)>::empty());
            },
        }
        successors
    }

    /// Straight-line distance between two stations in nanometres, rounded up.
    pub fn distance(&self, other: &Node) -> (d: u64)
        ensures
            d == self.coords.separation(other.coords),
    {
        self.coords.distance(&other.coords)
    }
}

/// A surveyed connection between two positions.
#[derive(Debug)]
pub struct Leg {
    pub from_coords: Point,
    pub to_coords: Point,
    pub label: Option<String>,
}

impl Leg {
    /// The leg between `from_coords` and `to_coords`.
    pub fn new(from_coords: Point, to_coords: Point, label: Option<String>) -> (leg: Self)
        ensures
            leg == (Leg { from_coords, to_coords, label }),
    {
        Self { from_coords, to_coords, label }
    }
}

} // verus!
