use survex_dist::data::{Node, Point};
use survex_dist::failure::Failure;
use survex_dist::registry::register;
use survex_dist::resolve::{get_station_by_label, resolve_all};

fn stations(labels: &[&str]) -> Vec<Node> {
    let mut nodes = Vec::new();
    for (i, label) in labels.iter().enumerate() {
        nodes.push(Node::new(Point::new(i as i32 * 100, 0, 0), String::from(*label)));
    }
    nodes
}

#[test]
fn a_query_that_occurs_in_no_label_is_not_found() {
    let nodes = stations(&["nottsii.entrance", "nottsii.mainstreamway.1"]);
    match get_station_by_label(&nodes, "node-does-not-exist-1") {
        Err(Failure::StationNotFound { query }) => assert_eq!(query, "node-does-not-exist-1"),
        other => panic!("unexpected: {:?}", other),
    }
}

#[test]
fn an_ambiguous_query_lists_the_labels_that_match() {
    let nodes = stations(&[
        "nottsii.entrance",
        "nottsii.countlazloall.brunokranskiesboxheadconnection.50",
        "nottsii.countlazloall.brunokranskiesboxheadconnection.5",
    ]);
    assert_eq!(get_station_by_label(&nodes, "nottsii.entrance").unwrap(), 0);
    match get_station_by_label(&nodes, "boxheadconnection.5") {
        Err(Failure::AmbiguousStation { query, matches, more }) => {
            assert_eq!(query, "boxheadconnection.5");
            assert_eq!(
                matches,
                vec![
                    String::from("nottsii.countlazloall.brunokranskiesboxheadconnection.50"),
                    String::from("nottsii.countlazloall.brunokranskiesboxheadconnection.5"),
                ]
            );
            assert_eq!(more, 0);
        }
        other => panic!("unexpected: {:?}", other),
    }
}

#[test]
fn a_part_of_one_label_resolves_to_its_station() {
    let nodes = stations(&[
        "nottsii.entrance",
        "nottsii.countlazloall.brunokranskiesboxheadconnection.50",
    ]);
    assert_eq!(get_station_by_label(&nodes, "nottsii.ent").unwrap(), 0);
    assert_eq!(get_station_by_label(&nodes, "boxheadconnection.50").unwrap(), 1);
}

#[test]
fn ambiguous_partial_and_exact_full_label() {
    let nodes = stations(&["siteA.B", "siteB.B"]);
    match get_station_by_label(&nodes, "B") {
        Err(Failure::AmbiguousStation { query, matches, more }) => {
            assert_eq!(query, "B");
            assert_eq!(matches, vec![String::from("siteA.B"), String::from("siteB.B")]);
            assert_eq!(more, 0);
        }
        other => panic!("unexpected: {:?}", other),
    }
    assert_eq!(get_station_by_label(&nodes, "siteA.B").unwrap(), 0);
    assert_eq!(get_station_by_label(&nodes, "siteB.B").unwrap(), 1);
}

#[test]
fn exact_label_wins_over_partial_matches() {
    let nodes = stations(&["cave.10", "cave.1", "cave.100"]);
    assert_eq!(get_station_by_label(&nodes, "cave.1").unwrap(), 1);
    assert_eq!(get_station_by_label(&nodes, "cave.10").unwrap(), 0);
    assert_eq!(get_station_by_label(&nodes, "cave.100").unwrap(), 2);
    assert_eq!(get_station_by_label(&nodes, "100").unwrap(), 2);
    assert!(matches!(
        get_station_by_label(&nodes, "cave"),
        Err(Failure::AmbiguousStation { .. })
    ));
}

#[test]
fn a_label_borne_twice_does_not_settle_the_query() {
    let nodes = stations(&["a.x", "a.x", "a.xy"]);
    match get_station_by_label(&nodes, "a.x") {
        Err(Failure::AmbiguousStation { matches, more, .. }) => {
            assert_eq!(matches.len(), 3);
            assert_eq!(more, 0);
        }
        other => panic!("unexpected: {:?}", other),
    }
    assert_eq!(get_station_by_label(&nodes, "a.xy").unwrap(), 2);
}

#[test]
fn the_empty_query_occurs_in_every_label() {
    let one = stations(&["only"]);
    assert_eq!(get_station_by_label(&one, "").unwrap(), 0);
    let two = stations(&["a", "b"]);
    assert!(matches!(get_station_by_label(&two, ""), Err(Failure::AmbiguousStation { .. })));
    let none: Vec<Node> = Vec::new();
    assert!(matches!(get_station_by_label(&none, ""), Err(Failure::StationNotFound { .. })));
}

#[test]
fn the_list_of_matches_is_capped_at_twenty() {
    let labels: Vec<String> = (0..25).map(|i| format!("s.{}", i)).collect();
    let refs: Vec<&str> = labels.iter().map(|s| s.as_str()).collect();
    let nodes = stations(&refs);
    match get_station_by_label(&nodes, "s.") {
        Err(Failure::AmbiguousStation { matches, more, .. }) => {
            assert_eq!(matches.len(), 20);
            assert_eq!(more, 5);
            assert_eq!(matches[0], "s.0");
            assert_eq!(matches[19], "s.19");
        }
        other => panic!("unexpected: {:?}", other),
    }
    let exactly: Vec<&str> = refs[..20].to_vec();
    match get_station_by_label(&stations(&exactly), "s.") {
        Err(Failure::AmbiguousStation { matches, more, .. }) => {
            assert_eq!(matches.len(), 20);
            assert_eq!(more, 0);
        }
        other => panic!("unexpected: {:?}", other),
    }
}

#[test]
fn get_by_name_returns_the_station() {
    let nodes = stations(&["siteA.B", "siteB.C"]);
    assert_eq!(Node::get_by_name(&nodes, "C").unwrap().label, "siteB.C");
    assert_eq!(Node::get_by_name(&nodes, "siteA.B").unwrap().coords, Point::new(0, 0, 0));
    assert!(matches!(Node::get_by_name(&nodes, "site"), Err(Failure::AmbiguousStation { .. })));
    assert!(matches!(Node::get_by_name(&nodes, "zzz"), Err(Failure::StationNotFound { .. })));
}

#[test]
fn get_by_coords_finds_the_first_station() {
    let mut nodes = stations(&["a", "b", "c"]);
    nodes.push(Node::new(Point::new(100, 0, 0), String::from("b again")));
    assert_eq!(Node::get_by_coords(&nodes, &Point::new(100, 0, 0)), Some(1));
    assert_eq!(Node::get_by_coords(&nodes, &Point::new(200, 0, 0)), Some(2));
    assert_eq!(Node::get_by_coords(&nodes, &Point::new(1, 0, 0)), None);
}

#[test]
fn resolve_all_keeps_the_order_and_reports_the_first_failure() {
    let nodes = stations(&["x.a", "x.b", "x.c"]);
    let queries = vec![String::from("c"), String::from("a")];
    assert_eq!(resolve_all(&nodes, &queries).unwrap(), vec![2, 0]);
    let failing = vec![String::from("a"), String::from("q"), String::from("x")];
    match resolve_all(&nodes, &failing) {
        Err(Failure::StationNotFound { query }) => assert_eq!(query, "q"),
        other => panic!("unexpected: {:?}", other),
    }
    assert_eq!(resolve_all(&nodes, &Vec::new()).unwrap(), Vec::<usize>::new());
}

#[test]
fn exclude_nodes_parts_the_stations() {
    let nodes = stations(&["site.a", "site.b", "site.c", "site.d"]);
    let (remaining, names) =
        Node::exclude_nodes(&nodes, &vec![String::from("site.c"), String::from("a")]).unwrap();
    let labels: Vec<&str> = remaining.iter().map(|n| n.label.as_str()).collect();
    assert_eq!(labels, vec!["site.b", "site.d"]);
    assert_eq!(names, vec![String::from("a"), String::from("c")]);
    let (all, none) = Node::exclude_nodes(&nodes, &Vec::new()).unwrap();
    assert_eq!(all.len(), 4);
    assert!(none.is_empty());
    assert!(matches!(
        Node::exclude_nodes(&nodes, &vec![String::from("site")]),
        Err(Failure::AmbiguousStation { .. })
    ));
    assert!(matches!(
        Node::exclude_nodes(&nodes, &vec![String::from("b"), String::from("nowhere")]),
        Err(Failure::StationNotFound { .. })
    ));
}

#[test]
fn the_registry_keeps_one_station_for_each_position() {
    let mut nodes = stations(&["a", "b", "c"]);
    nodes.push(Node::new(Point::new(100, 0, 0), String::from("b later")));
    nodes.push(Node::new(Point::new(900, 0, 0), String::from("d")));
    nodes.push(Node::new(Point::new(100, 0, 0), String::from("b last")));
    let registry = register(nodes);
    let labels: Vec<&str> = registry.iter().map(|n| n.label.as_str()).collect();
    assert_eq!(labels, vec!["a", "b last", "c", "d"]);
    assert!(register(Vec::new()).is_empty());
}
