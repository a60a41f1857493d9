//! A route request from its arguments to its result.
//!
//! The stations are registered, the queries resolved against the whole
//! registry, the stations to avoid taken out of the network, and the route
//! composed through the via points in their order.

use crate::data::{Leg, Node};
use crate::failure::{Failure, FailureView};
use crate::network::{holds_position, is_target, links_of, NetworkView};
use crate::output::{facts_of, line_at, CommandOutput, Format};
use crate::pathfinding::pathfind_route;
use crate::registry::{register, registered};
use crate::resolve::{
    get_station_by_label, is_first_unresolved, labels_of, resolution_failure, resolve_all,
    resolved,
};
use crate::walks::as_nats;
use vstd::prelude::*;

verus! {

/// The arguments of a request.
#[derive(Debug)]
pub struct Args {
    /// The survey file to process.
    pub file: String,
    /// The station to start from.
    pub start: Option<String>,
    /// The station to end at.
    pub end: Option<String>,
    /// Stations that the route must pass, in this order.
    pub via: Vec<String>,
    /// Stations that the route must not pass.
    pub avoid: Vec<String>,
    /// How the result is shown.
    pub format: Format,
    /// Whether the lines of the route are left out.
    pub no_path: bool,
    /// Whether the survey is to be analysed instead of a route found.
    pub analyse: bool,
}

/// The route found for a request.
pub struct Report {
    /// The result as it is shown.
    pub output: CommandOutput,
    /// The stations of the route, in their order.
    pub route: Vec<Node>,
    /// The labels of the stations that were avoided.
    pub avoided: Vec<String>,
    /// The labels of the via points.
    pub via: Vec<String>,
}

/// What a request comes to.
pub enum Outcome {
    /// An analysis was asked for; none is made.
    Analysis,
    /// A route was found.
    Route(Report),
}

/// The failure of the first of `queries` that does not resolve.
pub open spec fn unresolved_failure(labels: Seq<Seq<char>>, queries: Seq<Seq<char>>) -> Option<
    FailureView,
> {
    if exists|at: int| is_first_unresolved(labels, queries, at) {
        resolution_failure(
            labels,
            queries[choose|at: int| is_first_unresolved(labels, queries, at)],
        )
    } else {
        None
    }
}

/// The first unresolved query stands at one position only.
pub proof fn lemma_unresolved_failure(labels: Seq<Seq<char>>, queries: Seq<Seq<char>>, at: int)
    requires
        is_first_unresolved(labels, queries, at),
    ensures
        unresolved_failure(labels, queries) == resolution_failure(labels, queries[at]),
        unresolved_failure(labels, queries) is Some,
{
    let chosen = choose|at: int| is_first_unresolved(labels, queries, at);
    assert(is_first_unresolved(labels, queries, chosen));
    if chosen < at {
        assert(resolved(labels, queries[chosen]) is Some);
    } else if at < chosen {
        assert(resolved(labels, queries[at]) is Some);
    }
}

/// The positions to which `queries` resolve.
pub open spec fn positions_of(labels: Seq<Seq<char>>, queries: Seq<Seq<char>>) -> Seq<usize> {
    Seq::new(queries.len(), |k: int| resolved(labels, queries[k])->0 as usize)
}

/// The station at `at` is the start, the end or a via point.
pub open spec fn is_waypoint(start: usize, end: usize, via: Seq<usize>, at: usize) -> bool {
    at == start || at == end || is_target(via, at as int)
}

/// `at` is the position in `avoid` of the first station that is also a
/// waypoint.
pub open spec fn is_first_conflict(
    avoid: Seq<usize>,
    start: usize,
    end: usize,
    via: Seq<usize>,
    at: int,
) -> bool {
    &&& 0 <= at < avoid.len()
    &&& is_waypoint(start, end, via, avoid[at])
    &&& forall|j: int| 0 <= j < at ==> !is_waypoint(start, end, via, #[trigger] avoid[j])
}

/// The waypoints of a route in their order: the start, the via points, the
/// end.
pub open spec fn waypoints(start: usize, via: Seq<usize>, end: usize) -> Seq<usize> {
    seq![start] + via + seq![end]
}

/// The network in which a route is searched: the stations joined by the
/// legs, without the stations to avoid.
pub open spec fn searched(stations: Seq<Node>, legs: Seq<Leg>, avoid: Seq<usize>) -> NetworkView {
    let whole = NetworkView {
        stations,
        links: links_of(stations, legs),
        avoided: Seq::new(stations.len(), |i: int| false),
    };
    NetworkView {
        stations,
        links: whole.links_clear_of(whole.avoided_with(avoid)),
        avoided: whole.avoided_with(avoid),
    }
}

/// The queries of a request as plain texts.
pub struct Request {
    pub start: Seq<char>,
    pub end: Seq<char>,
    pub via: Seq<Seq<char>>,
    pub avoid: Seq<Seq<char>>,
}

/// What the request comes to among `stations` joined by `legs`: the
/// positions of the stations of the route, or the failure.
///
/// The start is resolved first, then the end, the stations to avoid and the
/// via points, each against all the stations. A station to avoid that is also
/// a waypoint fails the request. The route is then composed in the network
/// without the stations to avoid.
pub open spec fn verdict(stations: Seq<Node>, legs: Seq<Leg>, request: Request) -> Result<
    Seq<nat>,
    FailureView,
> {
    let labels = labels_of(stations);
    if resolved(labels, request.start) is None {
        Err(resolution_failure(labels, request.start)->0)
    } else if resolved(labels, request.end) is None {
        Err(resolution_failure(labels, request.end)->0)
    } else if unresolved_failure(labels, request.avoid) is Some {
        Err(unresolved_failure(labels, request.avoid)->0)
    } else if unresolved_failure(labels, request.via) is Some {
        Err(unresolved_failure(labels, request.via)->0)
    } else {
        let start = resolved(labels, request.start)->0 as usize;
        let end = resolved(labels, request.end)->0 as usize;
        let avoid = positions_of(labels, request.avoid);
        let via = positions_of(labels, request.via);
        if exists|at: int| is_first_conflict(avoid, start, end, via, at) {
            let at = choose|at: int| is_first_conflict(avoid, start, end, via, at);
            Err(FailureView::ExcludedStationIsEndpoint { label: stations[avoid[at] as int].label@ })
        } else {
            match searched(stations, legs, avoid).composed(as_nats(waypoints(start, via, end))) {
                Some(walk) => Ok(walk),
                None => Err(
                    FailureView::NoRouteFound {
                        from: stations[start as int].label@,
                        to: stations[end as int].label@,
                    },
                ),
            }
        }
    }
}

/// The stations of `nodes` at the positions `walk`.
pub open spec fn stations_along(nodes: Seq<Node>, walk: Seq<nat>) -> Seq<Node> {
    Seq::new(walk.len(), |i: int| nodes[walk[i] as int])
}

/// The labels of the stations of `nodes` at `positions`.
pub open spec fn labels_along(nodes: Seq<Node>, positions: Seq<usize>) -> Seq<Seq<char>> {
    Seq::new(positions.len(), |i: int| nodes[positions[i] as int].label@)
}

/// The position in `avoid` of the first station that is also the start, the
/// end or one of `via`.
pub fn find_conflict(avoid: &Vec<usize>, start: usize, end: usize, via: &Vec<usize>) -> (hit:
    Option<usize>)
    ensures
        match hit {
            Some(at) => is_first_conflict(avoid@, start, end, via@, at as int),
            None => forall|at: int| !is_first_conflict(avoid@, start, end, via@, at),
        },
{
    let mut k: usize = 0;
    while k < avoid.len()
        invariant
            0 <= k <= avoid.len(),
            forall|j: int| 0 <= j < k ==> !is_waypoint(start, end, via@, #[trigger] avoid@[j]),
        decreases avoid.len() - k,
    {
        let at = avoid[k];
        if at == start || at == end || holds_position(via, at) {
            return Some(k);
        }
        k = k + 1;
    }
    None
}

/// The stations of `nodes` at the positions `walk`, in the order of `walk`.
pub fn stations_at(nodes: &Vec<Node>, walk: &Vec<usize>) -> (along: Vec<Node>)
    requires
        forall|i: int| 0 <= i < walk.len() ==> walk[i] < nodes.len(),
    ensures
        along@ == stations_along(nodes@, as_nats(walk@)),
{
    let mut along: Vec<Node> = Vec::new();
    let mut i: usize = 0;
    while i < walk.len()
        invariant
            0 <= i <= walk.len(),
            forall|i: int| 0 <= i < walk.len() ==> walk[i] < nodes.len(),
            along@ == stations_along(nodes@, as_nats(walk@).take(i as int)),
        decreases walk.len() - i,
    {
        let ghost before = along@;
        along.push(nodes[walk[i]].clone());
        assert(along@ =~= stations_along(nodes@, as_nats(walk@).take(i + 1)));
        i = i + 1;
    }
    assert(as_nats(walk@).take(walk.len() as int) =~= as_nats(walk@));
    along
}

/// The labels of the stations of `nodes` at `positions`, in the order of
/// `positions`.
pub fn labels_at(nodes: &Vec<Node>, positions: &Vec<usize>) -> (labels: Vec<String>)
    requires
        forall|i: int| 0 <= i < positions.len() ==> positions[i] < nodes.len(),
    ensures
        labels.deep_view() == labels_along(nodes@, positions@),
{
    let mut labels: Vec<String> = Vec::new();
    let mut i: usize = 0;
    assert(labels.deep_view() =~= labels_along(nodes@, positions@.take(0)));
    while i < positions.len()
        invariant
            0 <= i <= positions.len(),
            forall|i: int| 0 <= i < positions.len() ==> positions[i] < nodes.len(),
            labels.deep_view() == labels_along(nodes@, positions@.take(i as int)),
        decreases positions.len() - i,
    {
        let ghost before = labels.deep_view();
        labels.push(nodes[positions[i]].label.clone());
        assert(labels.deep_view() =~= before.push(nodes@[positions@[i as int] as int].label@));
        assert(labels.deep_view() =~= labels_along(nodes@, positions@.take(i + 1)));
        i = i + 1;
    }
    assert(positions@.take(positions.len() as int) =~= positions@);
    labels
}

/// The queries of `args`.
pub open spec fn request_of(args: Args) -> Request {
    Request {
        start: args.start->0@,
        end: args.end->0@,
        via: args.via.deep_view(),
        avoid: args.avoid.deep_view(),
    }
}

/// The first conflict stands at one position only.
pub proof fn lemma_first_conflict_unique(
    avoid: Seq<usize>,
    start: usize,
    end: usize,
    via: Seq<usize>,
    a: int,
    b: int,
)
    requires
        is_first_conflict(avoid, start, end, via, a),
        is_first_conflict(avoid, start, end, via, b),
    ensures
        a == b,
{
    if a < b {
        assert(!is_waypoint(start, end, via, avoid[a]));
    } else if b < a {
        assert(!is_waypoint(start, end, via, avoid[b]));
    }
}

/// Where every query resolves, the positions found are the positions of the
/// queries and no query is the first unresolved one.
pub proof fn lemma_all_resolved(nodes: Seq<Node>, queries: Seq<Seq<char>>, positions: Seq<usize>)
    requires
        positions.len() == queries.len(),
        forall|k: int|
            0 <= k < queries.len() ==> resolved(labels_of(nodes), #[trigger] queries[k]) == Some(
                positions[k] as int,
            ),
    ensures
        positions == positions_of(labels_of(nodes), queries),
        unresolved_failure(labels_of(nodes), queries) is None,
{
    assert(positions =~= positions_of(labels_of(nodes), queries));
    assert forall|at: int| !is_first_unresolved(labels_of(nodes), queries, at) by {
        if 0 <= at < queries.len() {
            assert(resolved(labels_of(nodes), queries[at]) is Some);
        }
    }
}

/// Answers a route request among the stations `nodes` joined by `legs`.
///
/// Where an analysis is asked for, none is made. Otherwise the stations are
/// registered and the request comes to what `verdict` says: the route through
/// the waypoints with what is shown of it, or the failure.
pub fn run(args: &Args, nodes: Vec<Node>, legs: &Vec<Leg>) -> (found: Result<Outcome, Failure>)
    requires
        args.analyse || (args.start is Some && args.end is Some),
    ensures
        args.analyse ==> found matches Ok(Outcome::Analysis),
        !args.analyse ==> match verdict(registered(nodes@), legs@, request_of(*args)) {
            Ok(walk) => found matches Ok(Outcome::Route(report)) && {
                let stations = registered(nodes@);
                let labels = labels_of(stations);
                let avoid = positions_of(labels, args.avoid.deep_view());
                let via = positions_of(labels, args.via.deep_view());
                &&& report.route@ == stations_along(stations, walk)
                &&& walk.len() >= 1
                &&& report.output@.path == Seq::new(
                    walk.len(),
                    |i: int| line_at(report.route@, i),
                )
                &&& report.output@.metadata == facts_of(report.route@)
                &&& report.output@.format == args.format
                &&& report.output@.print_path == !args.no_path
                &&& report.output@.print_metadata
                &&& report.avoided.deep_view() == labels_along(stations, avoid)
                &&& report.via.deep_view() == labels_along(stations, via)
                &&& forall|i: int, k: int|
                    0 <= i < walk.len() && 0 <= k < avoid.len() ==> #[trigger] walk[i]
                        != #[trigger] avoid[k]
            },
            Err(failure) => found matches Err(raised) && raised@ == failure,
        },
{
    if args.analyse {
        return Ok(Outcome::Analysis);
    }
    let stations = register(nodes);
    let ghost registry = stations@;
    let ghost labels = labels_of(registry);
    let ghost request = request_of(*args);
    let start_query = args.start.as_ref().unwrap();
    let end_query = args.end.as_ref().unwrap();
    let start = match get_station_by_label(&stations, start_query.as_str()) {
        Ok(at) => at,
        Err(failure) => {
            return Err(failure);
        },
    };
    let end = match get_station_by_label(&stations, end_query.as_str()) {
        Ok(at) => at,
        Err(failure) => {
            return Err(failure);
        },
    };
    let avoid = match resolve_all(&stations, &args.avoid) {
        Ok(positions) => positions,
        Err(failure) => {
            proof {
                let at = choose|at: int|
                    is_first_unresolved(labels, args.avoid.deep_view(), at) && Some(failure@)
                        == #[trigger] resolution_failure(labels, args.avoid@[at]@);
                assert(args.avoid.deep_view()[at] == args.avoid@[at]@);
                lemma_unresolved_failure(labels, request.avoid, at);
            }
            return Err(failure);
        },
    };
    proof {
        assert forall|k: int| 0 <= k < request.avoid.len() implies resolved(
            labels,
            #[trigger] request.avoid[k],
        ) == Some(avoid@[k] as int) by {
            assert(request.avoid[k] == args.avoid@[k]@);
        }
        lemma_all_resolved(registry, request.avoid, avoid@);
    }
    let passing = match resolve_all(&stations, &args.via) {
        Ok(positions) => positions,
        Err(failure) => {
            proof {
                let at = choose|at: int|
                    is_first_unresolved(labels, args.via.deep_view(), at) && Some(failure@)
                        == #[trigger] resolution_failure(labels, args.via@[at]@);
                assert(args.via.deep_view()[at] == args.via@[at]@);
                lemma_unresolved_failure(labels, request.via, at);
            }
            return Err(failure);
        },
    };
    proof {
        assert forall|k: int| 0 <= k < request.via.len() implies resolved(
            labels,
            #[trigger] request.via[k],
        ) == Some(passing@[k] as int) by {
            assert(request.via[k] == args.via@[k]@);
        }
        lemma_all_resolved(registry, request.via, passing@);
    }
    match find_conflict(&avoid, start, end, &passing) {
        Some(at) => {
            proof {
                let chosen = choose|at: int| is_first_conflict(avoid@, start, end, passing@, at);
                lemma_first_conflict_unique(avoid@, start, end, passing@, at as int, chosen);
            }
            return Err(
                Failure::ExcludedStationIsEndpoint { label: stations[avoid[at]].label.clone() },
            );
        },
        None => {},
    }
    let whole = Node::attach_legs(stations, legs);
    let network = whole.exclude(&avoid);
    let ghost net = network@;
    proof {
        assert(whole@.avoided == Seq::new(registry.len(), |i: int| false));
        assert(net.stations == searched(registry, legs@, avoid@).stations);
        assert(net.links == searched(registry, legs@, avoid@).links);
        assert(net.avoided == searched(registry, legs@, avoid@).avoided);
        assert(net == searched(registry, legs@, avoid@));
    }
    let mut route: Vec<usize> = Vec::new();
    route.push(start);
    let mut v: usize = 0;
    while v < passing.len()
        invariant
            0 <= v <= passing.len(),
            route@ == seq![start] + passing@.take(v as int),
        decreases passing.len() - v,
    {
        route.push(passing[v]);
        assert(route@ =~= seq![start] + passing@.take(v + 1));
        v = v + 1;
    }
    route.push(end);
    proof {
        assert(passing@.take(passing.len() as int) =~= passing@);
        assert(route@ =~= waypoints(start, passing@, end));
        assert forall|i: int| 0 <= i < route.len() implies route[i] < net.stations.len() by {
            if 0 < i < route.len() - 1 {
                assert(route[i] == passing@[i - 1]);
            }
        }
    }
    let path = match pathfind_route(&network, route) {
        Some(path) => path,
        None => {
            let stations = network.stations();
            return Err(
                Failure::NoRouteFound {
                    from: stations[start].label.clone(),
                    to: stations[end].label.clone(),
                },
            );
        },
    };
    let ghost walk = as_nats(path@);
    let stations = network.stations();
    proof {
        assert(net.is_route(walk));
        assert forall|i: int| 0 <= i < path.len() implies path[i] < stations.len() by {
            assert(walk[i] < net.stations.len());
        }
        assert forall|i: int, k: int| 0 <= i < walk.len() && 0 <= k < avoid@.len() implies #[trigger] walk[i]
            != #[trigger] avoid@[k] by {
            assert(!net.avoided[walk[i] as int]);
            assert(is_target(avoid@, avoid@[k] as int));
        }
    }
    let along = stations_at(stations, &path);
    let mut output = CommandOutput::new(args.format, &along);
    output.set_print_path(!args.no_path);
    let avoided = labels_at(stations, &avoid);
    let via_labels = labels_at(stations, &passing);
    Ok(Outcome::Route(Report { output, route: along, avoided, via: via_labels }))
}

} // verus!
