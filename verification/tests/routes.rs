use survex_dist::data::{Leg, Node, Point};
use survex_dist::mesh::{estimate_at, is_goal};
use survex_dist::network::Network;
use survex_dist::pathfinding::{join_segment, pathfind, pathfind_route};

const METRE: u128 = 1_000_000_000;

fn station(label: &str, x: i32, y: i32, z: i32) -> Node {
    Node::new(Point::new(x, y, z), String::from(label))
}

fn leg(from: (i32, i32, i32), to: (i32, i32, i32)) -> Leg {
    Leg::new(Point::new(from.0, from.1, from.2), Point::new(to.0, to.1, to.2), None)
}

/// A(0,0,0), B(1,0,0), C(2,0,0) in metres, joined A-B and B-C.
fn line() -> Network {
    let nodes = vec![station("A", 0, 0, 0), station("B", 100, 0, 0), station("C", 200, 0, 0)];
    let legs = vec![leg((0, 0, 0), (100, 0, 0)), leg((100, 0, 0), (200, 0, 0))];
    Node::attach_legs(nodes, &legs)
}

/// A square with one long way round and a short cut:
///
/// ```text
/// 0 --- 1 --- 2
/// |           |
/// 3 --------- 4     5 (alone)
/// ```
fn square() -> Network {
    let nodes = vec![
        station("s.0", 0, 0, 0),
        station("s.1", 100, 0, 0),
        station("s.2", 200, 0, 0),
        station("s.3", 0, -100, 0),
        station("s.4", 200, -100, 0),
        station("s.5", 900, 900, 900),
    ];
    let legs = vec![
        leg((0, 0, 0), (100, 0, 0)),
        leg((100, 0, 0), (200, 0, 0)),
        leg((0, 0, 0), (0, -100, 0)),
        leg((0, -100, 0), (200, -100, 0)),
        leg((200, -100, 0), (200, 0, 0)),
        leg((200, 0, 0), (555, 555, 555)),
    ];
    Node::attach_legs(nodes, &legs)
}

#[test]
fn shortest_path_along_a_line() {
    let net = line();
    assert_eq!(pathfind(&net, 0, 2), Some((2 * METRE, vec![0, 1, 2])));
    assert_eq!(pathfind(&net, 2, 0), Some((2 * METRE, vec![2, 1, 0])));
    assert_eq!(pathfind(&net, 0, 1), Some((METRE, vec![0, 1])));
}

#[test]
fn a_station_is_at_no_distance_from_itself() {
    let net = line();
    for at in 0..3 {
        assert_eq!(pathfind(&net, at, at), Some((0, vec![at])));
    }
    let net = square();
    assert_eq!(pathfind(&net, 5, 5), Some((0, vec![5])));
}

#[test]
fn no_route_between_stations_that_are_not_joined() {
    let nodes = vec![station("1.1", 0, 0, 0), station("1.2", 100, 0, 0), station("2.1", 0, 500, 0)];
    let legs = vec![leg((0, 0, 0), (100, 0, 0))];
    let net = Node::attach_legs(nodes, &legs);
    assert_eq!(pathfind(&net, 0, 2), None);
    assert_eq!(pathfind_route(&net, vec![0, 2]), None);
    assert_eq!(pathfind_route(&net, vec![0, 1, 2]), None);
}

#[test]
fn an_avoided_station_is_on_no_route() {
    let net = line().exclude(&vec![1]);
    assert_eq!(pathfind(&net, 0, 2), None);
    assert!(net.is_avoided(1));
    assert!(!net.is_avoided(0));
    assert_eq!(net.len(), 3);
    assert!(net.links().is_empty());

    let square = square();
    assert_eq!(square.links().len(), 5);
    let around = square.exclude(&vec![1]);
    assert_eq!(around.links().len(), 3);
    assert_eq!(pathfind(&around, 0, 2), Some((4 * METRE, vec![0, 3, 4, 2])));
    // The network that was filtered is unchanged.
    assert_eq!(pathfind(&square, 0, 2), Some((2 * METRE, vec![0, 1, 2])));
    // An avoided station is no end of any route, not even of the one to itself.
    assert_eq!(pathfind(&around, 1, 1), None);
    assert_eq!(pathfind(&around, 1, 2), None);
    assert_eq!(pathfind(&around, 0, 1), None);
}

#[test]
fn a_route_passes_its_via_points_in_order() {
    let net = line();
    let direct = pathfind(&net, 0, 2).unwrap().1;
    assert_eq!(pathfind_route(&net, vec![0, 1, 2]), Some(direct));
    assert_eq!(pathfind_route(&net, vec![0, 1, 2]), Some(vec![0, 1, 2]));

    let square = square();
    assert_eq!(pathfind_route(&square, vec![0, 2]), Some(vec![0, 1, 2]));
    assert_eq!(pathfind_route(&square, vec![0, 4, 2]), Some(vec![0, 3, 4, 2]));
    // A route may come back on itself at a via point.
    assert_eq!(pathfind_route(&square, vec![0, 2, 1]), Some(vec![0, 1, 2, 1]));
    assert_eq!(pathfind_route(&square, vec![1, 1]), Some(vec![1]));
    assert_eq!(pathfind_route(&square, vec![1, 1, 1]), Some(vec![1]));
    assert_eq!(pathfind_route(&square, vec![0, 5]), None);
    assert_eq!(pathfind_route(&square, vec![0, 1, 5, 2]), None);
}

#[test]
fn composing_without_via_points_is_one_search() {
    let net = square();
    for from in 0..6 {
        for to in 0..6 {
            let single = pathfind(&net, from, to).map(|found| found.1);
            assert_eq!(pathfind_route(&net, vec![from, to]), single);
        }
    }
}

#[test]
fn cost_is_the_same_in_both_directions_and_at_least_the_straight_line() {
    let net = square();
    let stations = net.stations().clone();
    for from in 0..6 {
        for to in 0..6 {
            let there = pathfind(&net, from, to);
            let back = pathfind(&net, to, from);
            assert_eq!(there.is_some(), back.is_some());
            if let (Some((cost, walk)), Some((cost_back, _))) = (there, back) {
                assert_eq!(cost, cost_back);
                assert!(cost >= stations[from].distance(&stations[to]) as u128);
                let mut along: u128 = 0;
                for pair in walk.windows(2) {
                    along += stations[pair[0]].distance(&stations[pair[1]]) as u128;
                }
                assert_eq!(cost, along);
                assert_eq!(walk[0], from);
                assert_eq!(walk[walk.len() - 1], to);
            }
        }
    }
}

#[test]
fn the_search_takes_the_shorter_of_two_ways() {
    // 0 -> 2 directly is 5 m; by way of 1 it is 3 m + 4 m.
    let nodes = vec![station("a", 0, 0, 0), station("b", 300, 0, 0), station("c", 300, 400, 0)];
    let legs = vec![
        leg((0, 0, 0), (300, 0, 0)),
        leg((300, 0, 0), (300, 400, 0)),
        leg((300, 400, 0), (0, 0, 0)),
    ];
    let net = Node::attach_legs(nodes, &legs);
    assert_eq!(pathfind(&net, 0, 2), Some((5 * METRE, vec![0, 2])));
    assert_eq!(pathfind(&net, 2, 0), Some((5 * METRE, vec![2, 0])));
    assert_eq!(pathfind_route(&net, vec![0, 1, 2]), Some(vec![0, 1, 2]));
}

#[test]
fn legs_without_a_station_at_an_end_are_left_out() {
    let net = square();
    let links = net.links().clone();
    assert_eq!(
        links,
        vec![
            (0, 1, 1_000_000_000),
            (1, 2, 1_000_000_000),
            (0, 3, 1_000_000_000),
            (3, 4, 2_000_000_000),
            (4, 2, 1_000_000_000),
        ]
    );
    let empty = Node::attach_legs(Vec::new(), &vec![leg((0, 0, 0), (1, 1, 1))]);
    assert_eq!(empty.len(), 0);
    assert!(empty.links().is_empty());
}

#[test]
fn a_leg_joins_the_first_station_at_each_end() {
    let nodes = vec![station("a", 0, 0, 0), station("a2", 0, 0, 0), station("b", 100, 0, 0)];
    let net = Node::attach_legs(nodes, &vec![leg((100, 0, 0), (0, 0, 0))]);
    assert_eq!(net.links().clone(), vec![(2, 0, 1_000_000_000)]);
    assert_eq!(pathfind(&net, 1, 2), None);
    assert_eq!(pathfind(&net, 2, 0), Some((METRE, vec![2, 0])));
}

#[test]
fn successors_follow_the_links() {
    let net = square();
    let stations = net.stations().clone();
    assert_eq!(
        stations[0].get_successors(&net),
        vec![(1, 1_000_000_000), (3, 1_000_000_000)]
    );
    assert_eq!(
        stations[2].get_successors(&net),
        vec![(1, 1_000_000_000), (4, 1_000_000_000)]
    );
    assert_eq!(stations[5].get_successors(&net), Vec::<(usize, u64)>::new());
    let stranger = station("x", 7, 7, 7);
    assert_eq!(stranger.get_successors(&net), Vec::<(usize, u64)>::new());
}

#[test]
fn add_successor_attaches_one_leg() {
    let nodes = vec![station("a", 0, 0, 0), station("b", 0, 0, 100), station("c", 0, 0, 300)];
    let mut net = Network::new(nodes);
    assert!(net.links().is_empty());
    let a = net.stations()[0].clone();
    let c = net.stations()[2].clone();
    assert!(a.add_successor(&mut net, &Point::new(0, 0, 100)));
    assert!(!a.add_successor(&mut net, &Point::new(5, 5, 5)));
    assert!(c.add_successor(&mut net, &Point::new(0, 0, 100)));
    assert!(c.add_successor(&mut net, &Point::new(0, 0, 300)));
    assert_eq!(
        net.links().clone(),
        vec![(0, 1, 1_000_000_000), (2, 1, 2_000_000_000), (2, 2, 0)]
    );
    assert_eq!(pathfind(&net, 0, 2), Some((3 * METRE, vec![0, 1, 2])));
    assert!(net.connect(&Point::new(0, 0, 0), &Point::new(0, 0, 300)));
    assert_eq!(pathfind(&net, 0, 2), Some((3 * METRE, vec![0, 2])));

    let filtered = net.exclude(&vec![1]);
    let mut filtered = filtered;
    assert!(!filtered.connect(&Point::new(0, 0, 0), &Point::new(0, 0, 100)));
    assert_eq!(filtered.links().len(), 2);
}

#[test]
fn excluding_twice_adds_up() {
    let net = square();
    let first = net.exclude(&vec![1]);
    let second = first.exclude(&vec![3, 3]);
    assert!(second.is_avoided(1));
    assert!(second.is_avoided(3));
    assert!(!second.is_avoided(4));
    assert_eq!(second.links().clone(), vec![(4, 2, 1_000_000_000)]);
    assert_eq!(pathfind(&second, 0, 2), None);
    assert_eq!(pathfind(&second, 4, 2), Some((METRE, vec![4, 2])));
    let same = net.exclude(&Vec::new());
    assert_eq!(same.links().len(), 5);
}

#[test]
fn segments_are_joined_at_the_station_they_share() {
    let mut path: Vec<usize> = Vec::new();
    join_segment(&mut path, vec![4, 7, 9]);
    assert_eq!(path, vec![4, 7, 9]);
    join_segment(&mut path, vec![9, 2]);
    assert_eq!(path, vec![4, 7, 9, 2]);
    join_segment(&mut path, vec![2]);
    assert_eq!(path, vec![4, 7, 9, 2]);
    join_segment(&mut path, vec![2, 7, 4]);
    assert_eq!(path, vec![4, 7, 9, 2, 7, 4]);
}

#[test]
fn the_goal_and_the_estimates_of_a_search() {
    assert!(is_goal(3, 3));
    assert!(!is_goal(3, 4));
    let estimate: Vec<u64> = vec![5, 0, u64::MAX];
    assert_eq!(estimate_at(&estimate, 0), 5);
    assert_eq!(estimate_at(&estimate, 1), 0);
    assert_eq!(estimate_at(&estimate, 2), u64::MAX as u128);
}
