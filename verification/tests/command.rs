use survex_dist::command::{find_conflict, labels_at, run, stations_at, Args, Outcome, Report};
use survex_dist::data::{Leg, Node, Point};
use survex_dist::failure::Failure;
use survex_dist::output::Format;

fn station(label: &str, x: i32, y: i32, z: i32) -> Node {
    Node::new(Point::new(x, y, z), String::from(label))
}

fn leg(from: (i32, i32, i32), to: (i32, i32, i32)) -> Leg {
    Leg::new(Point::new(from.0, from.1, from.2), Point::new(to.0, to.1, to.2), None)
}

fn survey() -> (Vec<Node>, Vec<Leg>) {
    let nodes = vec![
        station("cave.entrance", 0, 0, 0),
        station("cave.main.1", 100, 0, 0),
        station("cave.main.2", 200, 0, 0),
        station("cave.side.1", 0, -100, 0),
        station("cave.side.2", 200, -100, 0),
        station("other.1", 5000, 5000, 0),
    ];
    let legs = vec![
        leg((0, 0, 0), (100, 0, 0)),
        leg((100, 0, 0), (200, 0, 0)),
        leg((0, 0, 0), (0, -100, 0)),
        leg((0, -100, 0), (200, -100, 0)),
        leg((200, -100, 0), (200, 0, 0)),
    ];
    (nodes, legs)
}

fn args(start: &str, end: &str, via: &[&str], avoid: &[&str]) -> Args {
    Args {
        file: String::from("survey.3d"),
        start: Some(String::from(start)),
        end: Some(String::from(end)),
        via: via.iter().map(|s| String::from(*s)).collect(),
        avoid: avoid.iter().map(|s| String::from(*s)).collect(),
        format: Format::Text,
        no_path: false,
        analyse: false,
    }
}

fn route(args: &Args) -> Result<Report, Failure> {
    let (nodes, legs) = survey();
    match run(args, nodes, &legs) {
        Ok(Outcome::Route(report)) => Ok(report),
        Ok(Outcome::Analysis) => panic!("no analysis was asked for"),
        Err(failure) => Err(failure),
    }
}

fn labels(report: &Report) -> Vec<&str> {
    report.route.iter().map(|n| n.label.as_str()).collect()
}

#[test]
fn a_request_without_via_points() {
    let report = route(&args("entrance", "main.2", &[], &[])).unwrap();
    assert_eq!(labels(&report), vec!["cave.entrance", "cave.main.1", "cave.main.2"]);
    assert!(report.avoided.is_empty());
    assert!(report.via.is_empty());
    assert_eq!(report.output.path().len(), 3);
    assert!(matches!(report.output.format(), Format::Text));
}

#[test]
fn a_request_with_a_via_point() {
    let report = route(&args("entrance", "main.2", &["side.2"], &[])).unwrap();
    assert_eq!(
        labels(&report),
        vec!["cave.entrance", "cave.side.1", "cave.side.2", "cave.main.2"]
    );
    assert_eq!(report.via, vec![String::from("cave.side.2")]);
}

#[test]
fn a_request_with_a_station_to_avoid() {
    let report = route(&args("entrance", "main.2", &[], &["main.1"])).unwrap();
    assert_eq!(
        labels(&report),
        vec!["cave.entrance", "cave.side.1", "cave.side.2", "cave.main.2"]
    );
    assert_eq!(report.avoided, vec![String::from("cave.main.1")]);
    let facts = report.output.metadata();
    assert_eq!(facts[3].name, "Path distance");
    assert_eq!(facts[3].value, "4.00m");
    assert_eq!(facts[4].name, "Straight line distance");
    assert_eq!(facts[4].value, "2.00m");
}

#[test]
fn avoiding_a_waypoint_fails() {
    for avoid in ["entrance", "main.2", "side.1"] {
        match route(&args("entrance", "main.2", &["side.1"], &["main.1", avoid])) {
            Err(Failure::ExcludedStationIsEndpoint { label }) => {
                assert!(label.ends_with(avoid));
            }
            other => panic!("unexpected: {:?}", other.map(|r| r.via)),
        }
    }
    match route(&args("entrance", "main.2", &[], &["cave.main.2", "cave.entrance"])) {
        Err(Failure::ExcludedStationIsEndpoint { label }) => assert_eq!(label, "cave.main.2"),
        other => panic!("unexpected: {:?}", other.map(|r| r.via)),
    }
}

#[test]
fn failures_come_in_the_order_of_the_steps() {
    assert!(matches!(
        route(&args("nowhere", "cave", &["cave"], &["cave"])),
        Err(Failure::StationNotFound { .. })
    ));
    match route(&args("entrance", "main", &["nowhere"], &["nowhere too"])) {
        Err(Failure::AmbiguousStation { query, matches, more }) => {
            assert_eq!(query, "main");
            assert_eq!(matches, vec![String::from("cave.main.1"), String::from("cave.main.2")]);
            assert_eq!(more, 0);
        }
        other => panic!("unexpected: {:?}", other.map(|r| r.via)),
    }
    match route(&args("entrance", "main.2", &["nowhere"], &["nowhere too"])) {
        Err(Failure::StationNotFound { query }) => assert_eq!(query, "nowhere too"),
        other => panic!("unexpected: {:?}", other.map(|r| r.via)),
    }
    match route(&args("entrance", "main.2", &["nowhere"], &["main.1"])) {
        Err(Failure::StationNotFound { query }) => assert_eq!(query, "nowhere"),
        other => panic!("unexpected: {:?}", other.map(|r| r.via)),
    }
}

#[test]
fn no_route_names_the_start_and_the_end() {
    match route(&args("entrance", "other", &[], &[])) {
        Err(Failure::NoRouteFound { from, to }) => {
            assert_eq!(from, "cave.entrance");
            assert_eq!(to, "other.1");
        }
        other => panic!("unexpected: {:?}", other.map(|r| r.via)),
    }
    assert!(matches!(
        route(&args("entrance", "main.2", &[], &["main.1", "side.1"])),
        Err(Failure::NoRouteFound { .. })
    ));
    assert!(matches!(
        route(&args("entrance", "main.2", &["other"], &[])),
        Err(Failure::NoRouteFound { .. })
    ));
}

#[test]
fn queries_are_resolved_against_all_the_stations() {
    // "main" is ambiguous although one of its two matches is avoided.
    assert!(matches!(
        route(&args("entrance", "main", &[], &["main.1"])),
        Err(Failure::AmbiguousStation { .. })
    ));
}

#[test]
fn the_start_may_be_the_end() {
    let report = route(&args("side.1", "side.1", &[], &[])).unwrap();
    assert_eq!(labels(&report), vec!["cave.side.1"]);
    let facts = report.output.metadata();
    assert_eq!(facts[2].value, "1");
    assert_eq!(facts[3].value, "0.00m");
}

#[test]
fn an_analysis_makes_no_route() {
    let (nodes, legs) = survey();
    let request = Args {
        file: String::from("survey.3d"),
        start: None,
        end: None,
        via: Vec::new(),
        avoid: Vec::new(),
        format: Format::Table,
        no_path: false,
        analyse: true,
    };
    assert!(matches!(run(&request, nodes, &legs), Ok(Outcome::Analysis)));
}

#[test]
fn no_path_hides_the_lines_of_the_route() {
    let mut request = args("entrance", "main.1", &[], &[]);
    request.no_path = true;
    let report = route(&request).unwrap();
    let blocks = report.output.print();
    let shown: Vec<String> = blocks.iter().map(|b| format!("{:?}", b)).collect();
    assert_eq!(shown.len(), 7);
    assert_eq!(shown[0], "Line(\"\\n\")");
    assert_eq!(shown[1], "Line(\"Path metadata\\n-------------\\n\")");
    assert_eq!(shown[2], "Line(\"Start station: cave.entrance\")");
}

#[test]
fn later_records_replace_earlier_ones_at_the_same_position() {
    let (mut nodes, legs) = survey();
    nodes.push(station("cave.renamed", 100, 0, 0));
    let report = match run(&args("entrance", "main.2", &[], &[]), nodes, &legs) {
        Ok(Outcome::Route(report)) => report,
        _ => panic!("a route was expected"),
    };
    assert_eq!(labels(&report), vec!["cave.entrance", "cave.renamed", "cave.main.2"]);
}

#[test]
fn conflicts_are_found_in_the_order_of_the_stations_to_avoid() {
    assert_eq!(find_conflict(&vec![4, 7, 2, 9], 9, 1, &vec![2, 3]), Some(2));
    assert_eq!(find_conflict(&vec![4, 7, 1], 9, 1, &vec![2, 3]), Some(2));
    assert_eq!(find_conflict(&vec![3], 9, 1, &vec![2, 3]), Some(0));
    assert_eq!(find_conflict(&vec![4, 7], 9, 1, &vec![2, 3]), None);
    assert_eq!(find_conflict(&Vec::new(), 9, 1, &vec![2, 3]), None);
}

#[test]
fn stations_and_labels_are_taken_in_the_order_asked() {
    let (nodes, _) = survey();
    let along = stations_at(&nodes, &vec![2, 0, 2]);
    let names: Vec<&str> = along.iter().map(|n| n.label.as_str()).collect();
    assert_eq!(names, vec!["cave.main.2", "cave.entrance", "cave.main.2"]);
    assert_eq!(
        labels_at(&nodes, &vec![5, 1]),
        vec![String::from("other.1"), String::from("cave.main.1")]
    );
}
