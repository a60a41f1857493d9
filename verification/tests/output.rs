use survex_dist::data::{Headers, Node, Point};
use survex_dist::figures::{coordinates, decimal_text, metres};
use survex_dist::output::{Block, CommandOutput, Format, PathLine};
use survex_dist::text::{print_metadata, print_path};

fn station(label: &str, x: i32, y: i32, z: i32) -> Node {
    Node::new(Point::new(x, y, z), String::from(label))
}

fn walked() -> Vec<Node> {
    vec![
        station("cave.entrance", 0, 0, 0),
        station("cave.main.1", 300, 400, 0),
        station("cave.main.2", 300, 400, -1250),
    ]
}

fn texts(blocks: &[Block]) -> Vec<String> {
    blocks
        .iter()
        .map(|block| match block {
            Block::PathTable => String::from("<path table>"),
            Block::MetadataTable => String::from("<metadata table>"),
            Block::Json => String::from("<json>"),
            Block::Line(text) => text.clone(),
        })
        .collect()
}

#[test]
fn text_is_shown_line_by_line() {
    let output = CommandOutput::new(Format::Text, &walked());
    assert_eq!(
        texts(&output.print()),
        vec![
            "Route taken\n-----------\n",
            "1: entrance - 0.00m - 0.00m",
            "2: main.1 - 5.00m - 5.00m",
            "3: main.2 - 12.50m - 17.50m",
            "\n",
            "Path metadata\n-------------\n",
            "Start station: cave.entrance",
            "End station: cave.main.2",
            "Path length: 3",
            "Path distance: 17.50m",
            "Straight line distance: 13.46m",
        ]
    );
}

#[test]
fn json_is_shown_as_one_document() {
    let output = CommandOutput::new(Format::JSON, &walked());
    assert_eq!(texts(&output.print()), vec!["<json>"]);
    let mut hidden = CommandOutput::new(Format::JSON, &walked());
    hidden.set_print_path(false);
    assert_eq!(texts(&hidden.print()), vec!["<json>"]);
}

#[test]
fn a_table_is_shown_in_two_parts() {
    let mut output = CommandOutput::new(Format::Table, &walked());
    assert_eq!(texts(&output.print()), vec!["<path table>", "", "<metadata table>"]);
    output.set_print_path(false);
    assert_eq!(texts(&output.print()), vec!["", "<metadata table>"]);
}

#[test]
fn one_line_for_each_station() {
    let output = CommandOutput::new(Format::Table, &walked());
    let lines = output.path();
    assert_eq!(lines.len(), 3);
    assert_eq!(lines[0].id, 1);
    assert_eq!(lines[0].name, "entrance");
    assert_eq!(lines[0].coords, "0.00, 0.00, 0.00");
    assert_eq!(lines[0].leg_distance, "0.00m");
    assert_eq!(lines[0].total_distance, "0.00m");
    assert_eq!(lines[2].id, 3);
    assert_eq!(lines[2].name, "main.2");
    assert_eq!(lines[2].coords, "3.00, 4.00, -12.50");
    assert_eq!(lines[2].leg_distance, "12.50m");
    assert_eq!(lines[2].total_distance, "17.50m");
}

#[test]
fn facts_can_be_added() {
    let mut output = CommandOutput::new(Format::Text, &walked());
    assert_eq!(output.metadata().len(), 5);
    output.add_metadata("Time taken", "1.50ms");
    let facts = output.metadata();
    assert_eq!(facts.len(), 6);
    assert_eq!(facts[0].name, "Start station");
    assert_eq!(facts[0].value, "cave.entrance");
    assert_eq!(facts[5].name, "Time taken");
    assert_eq!(facts[5].value, "1.50ms");
    let lines = print_metadata(&output);
    assert_eq!(lines[6], "Time taken: 1.50ms");
    assert_eq!(print_path(&output).len(), 4);
}

#[test]
fn a_route_of_one_station() {
    let output = CommandOutput::new(Format::Text, &vec![station("lonely", -5, 0, 99)]);
    assert_eq!(
        texts(&output.print()),
        vec![
            "Route taken\n-----------\n",
            "1: lonely - 0.00m - 0.00m",
            "\n",
            "Path metadata\n-------------\n",
            "Start station: lonely",
            "End station: lonely",
            "Path length: 1",
            "Path distance: 0.00m",
            "Straight line distance: 0.00m",
        ]
    );
    assert_eq!(output.path()[0].coords, "-0.05, 0.00, 0.99");
}

#[test]
fn path_line_formats_its_numbers() {
    let line = PathLine::new(47, &station("mainstreamway.mainstreamway3.40", 1, 2, 3), 4_030_000_000, 252_290_000_000);
    assert_eq!(line.id, 47);
    assert_eq!(line.name, "mainstreamway3.40");
    assert_eq!(line.coords, "0.01, 0.02, 0.03");
    assert_eq!(line.leg_distance, "4.03m");
    assert_eq!(line.total_distance, "252.29m");
}

#[test]
fn lengths_are_rounded_to_the_nearest_centimetre() {
    assert_eq!(metres(0), "0.00m");
    assert_eq!(metres(4_999_999), "0.00m");
    assert_eq!(metres(5_000_000), "0.01m");
    assert_eq!(metres(994_999_999), "0.99m");
    assert_eq!(metres(995_000_000), "1.00m");
    assert_eq!(metres(511_260_000_000), "511.26m");
    assert_eq!(metres(1_732_050_808), "1.73m");
    assert_eq!(metres(123_456_789_012_345_678), "123456789.01m");
}

#[test]
fn coordinates_are_shown_in_metres() {
    assert_eq!(coordinates(&Point::new(0, 0, 0)), "0.00, 0.00, 0.00");
    assert_eq!(coordinates(&Point::new(1234500, 6789000, 10000)), "12345.00, 67890.00, 100.00");
    assert_eq!(coordinates(&Point::new(-1, -99, -100)), "-0.01, -0.99, -1.00");
    assert_eq!(
        coordinates(&Point::new(i32::MAX, i32::MIN, 7)),
        "21474836.47, -21474836.48, 0.07"
    );
}

#[test]
fn whole_numbers_in_decimal() {
    assert_eq!(decimal_text(0), "0");
    assert_eq!(decimal_text(9), "9");
    assert_eq!(decimal_text(10), "10");
    assert_eq!(decimal_text(135), "135");
    assert_eq!(decimal_text(1234567890), "1234567890");
}

#[test]
fn headers_keep_their_parts() {
    let headers = Headers::new(
        String::from("Test Headers"),
        String::from("@1690877650"),
        1690877650,
        Some(String::from("UTM60S")),
        8,
        true,
        '.',
    );
    assert_eq!(headers.title, "Test Headers");
    assert_eq!(headers.date, "@1690877650");
    assert_eq!(headers.date_numeric, 1690877650);
    assert_eq!(headers.cs, Some(String::from("UTM60S")));
    assert_eq!(headers.version, 8);
    assert_eq!(headers.extended_elev, true);
    assert_eq!(headers.separator, '.');
}

#[test]
fn headers_without_a_coordinate_system() {
    let headers = Headers::new(
        String::from("Test Headers"),
        String::from("@1690877650"),
        1690877650,
        None,
        8,
        false,
        '.',
    );
    assert_eq!(headers.title, "Test Headers");
    assert_eq!(headers.date, "@1690877650");
    assert_eq!(headers.date_numeric, 1690877650);
    assert_eq!(headers.cs, None);
    assert_eq!(headers.version, 8);
    assert_eq!(headers.extended_elev, false);
    assert_eq!(headers.separator, '.');
}
