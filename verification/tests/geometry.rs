use survex_dist::data::{Leg, Node, Point};
use survex_dist::measure::root_up_of;

#[test]
fn test_point_distance() {
    // One metre is a hundred units of position and 1e9 units of length.
    let p1 = Point::new(0, 0, 0);
    let p2 = Point::new(100, 100, 100);
    assert_eq!(p1.distance(&p2), 1_732_050_808);
    assert_eq!(p2.distance(&p1), 1_732_050_808);
    assert!((p1.distance(&p2) as f64 / 1e9 - 1.7320508075688772).abs() < 1e-9);
    assert!((p2.distance(&p1) as f64 / 1e9 - 1.7320508075688772).abs() < 1e-9);

    let p3 = Point::new(0, 0, 0);
    let p4 = Point::new(0, 0, 0);
    assert_eq!(p3.distance(&p4), 0);
    assert_eq!(p4.distance(&p3), 0);

    let p5 = Point::new(0, 0, 0);
    let p6 = Point::new(0, 0, 100);
    assert_eq!(p5.distance(&p6), 1_000_000_000);

    let p7 = Point::new(0, 0, 0);
    let p8 = Point::new(0, 100, 0);
    assert_eq!(p7.distance(&p8), 1_000_000_000);

    let p9 = Point::new(0, 0, 0);
    let p10 = Point::new(100, 0, 0);
    assert_eq!(p9.distance(&p10), 1_000_000_000);
}

#[test]
fn root_up_rounds_up() {
    assert_eq!(root_up_of(0), 0);
    assert_eq!(root_up_of(1), 1);
    assert_eq!(root_up_of(2), 2);
    assert_eq!(root_up_of(4), 2);
    assert_eq!(root_up_of(5), 3);
    assert_eq!(root_up_of(9), 3);
    assert_eq!(root_up_of(10), 4);
    assert_eq!(root_up_of(1 << 113), 101904826760412362);
}

#[test]
fn distance_is_rounded_up_to_a_whole_unit() {
    // 1 cm along two axes: sqrt(2) cm = 14142135.62... nm.
    let a = Point::new(0, 0, 0);
    let b = Point::new(1, 1, 0);
    assert_eq!(a.distance(&b), 14_142_136);
    // A 3-4-5 triangle is exact.
    let c = Point::new(300, 400, 0);
    assert_eq!(a.distance(&c), 5_000_000_000);
}

#[test]
fn distance_at_the_ends_of_the_range() {
    let low = Point::new(i32::MIN, i32::MIN, i32::MIN);
    let high = Point::new(i32::MAX, i32::MAX, i32::MAX);
    let d = low.distance(&high);
    assert_eq!(d, high.distance(&low));
    // sqrt(3) * (2^32 - 1) cm in nanometres, rounded up.
    let exact = 3f64.sqrt() * 4294967295f64 * 1e7;
    assert!((d as f64 - exact).abs() / exact < 1e-12);
}

#[test]
fn triangle_inequality_on_samples() {
    let points = [
        Point::new(0, 0, 0),
        Point::new(1, 0, 0),
        Point::new(1, 1, 1),
        Point::new(-250, 37, 9000),
        Point::new(123456, -654321, 42),
    ];
    for p in points.iter() {
        for q in points.iter() {
            for r in points.iter() {
                assert!(p.distance(r) <= p.distance(q) + q.distance(r));
            }
            assert_eq!(p.distance(q), q.distance(p));
            assert_eq!(p.distance(q) == 0, p == q);
        }
    }
}

#[test]
fn node_new_clears_the_flags() {
    let node = Node::new(Point::new(1, 2, 3), String::from("cave.entrance"));
    assert_eq!(node.coords, Point::new(1, 2, 3));
    assert_eq!(node.label, "cave.entrance");
    assert!(!node.underground);
    assert!(!node.surface);
    assert!(!node.entrance);
    assert!(!node.exported);
    assert!(!node.fixed);
    assert!(!node.anon);
    assert!(!node.wall);
    let copy = node.clone();
    assert_eq!(copy.label, node.label);
    assert_eq!(copy.coords, node.coords);
}

#[test]
fn short_name_drops_the_first_level() {
    let node = Node::new(Point::new(0, 0, 0), String::from("site.branch.station.5"));
    assert_eq!(node.short_name(), "branch.station.5");
    let bare = Node::new(Point::new(0, 0, 0), String::from("entrance"));
    assert_eq!(bare.short_name(), "entrance");
    let trailing = Node::new(Point::new(0, 0, 0), String::from("site."));
    assert_eq!(trailing.short_name(), "");
    let leading = Node::new(Point::new(0, 0, 0), String::from(".a.b"));
    assert_eq!(leading.short_name(), "a.b");
}

#[test]
fn node_distance_is_the_distance_of_the_positions() {
    let a = Node::new(Point::new(0, 0, 0), String::from("a"));
    let b = Node::new(Point::new(0, 300, 400), String::from("b"));
    assert_eq!(a.distance(&b), 5_000_000_000);
    assert_eq!(b.distance(&a), 5_000_000_000);
}

#[test]
fn leg_new_keeps_its_parts() {
    let leg = Leg::new(Point::new(1, 2, 3), Point::new(4, 5, 6), Some(String::from("l")));
    assert_eq!(leg.from_coords, Point::new(1, 2, 3));
    assert_eq!(leg.to_coords, Point::new(4, 5, 6));
    assert_eq!(leg.label, Some(String::from("l")));
    let bare = Leg::new(Point::new(1, 2, 3), Point::new(4, 5, 6), None);
    assert_eq!(bare.label, None);
}

#[test]
fn stations_are_told_apart_by_their_position() {
    let a = Node::new(Point::new(1, 2, 3), String::from("one name"));
    let mut b = Node::new(Point::new(1, 2, 3), String::from("another name"));
    b.entrance = true;
    let c = Node::new(Point::new(1, 2, 4), String::from("one name"));
    assert!(a == b);
    assert!(a != c);
}
