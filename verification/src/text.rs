//! The result as plain text, line by line.

use crate::figures::{decimal, decimal_text};
use crate::output::{CommandOutput, MetadataView, PathLineView};
use vstd::prelude::*;
use vstd::string::StringExecFns;

verus! {

/// The line of text for one station of the route: its number, its name, the
/// distance from the station before it and the distance from the start.
pub open spec fn path_line_text(line: PathLineView) -> Seq<char> {
    decimal(line.id) + ": "@ + line.name + " - "@ + line.leg_distance + " - "@
        + line.total_distance
}

/// The text for the route: a heading, then a line for each station.
pub open spec fn path_lines(path: Seq<PathLineView>) -> Seq<Seq<char>> {
    seq!["Route taken\n-----------\n"@] + Seq::new(path.len(), |i: int| path_line_text(path[i]))
}

/// The line of text for one fact: its name and its value.
pub open spec fn metadata_line_text(item: MetadataView) -> Seq<char> {
    item.name + ": "@ + item.value
}

/// The text for the facts: a heading, then a line for each fact.
pub open spec fn metadata_lines(metadata: Seq<MetadataView>) -> Seq<Seq<char>> {
    seq!["Path metadata\n-------------\n"@] + Seq::new(
        metadata.len(),
        |i: int| metadata_line_text(metadata[i]),
    )
}

/// The route as text: a heading, then a line for each station. Each text is
/// to be followed by a line break.
pub fn print_path(output: &CommandOutput) -> (lines: Vec<String>)
    ensures
        lines.deep_view() == path_lines(output@.path),
{
    let path = output.path();
    let mut lines: Vec<String> = Vec::new();
    lines.push("Route taken\n-----------\n".to_owned());
    let ghost shown = output@.path;
    assert(lines.deep_view() =~= seq!["Route taken\n-----------\n"@]);
    let mut i: usize = 0;
    while i < path.len()
        invariant
            0 <= i <= path.len(),
            shown == Seq::new(path@.len(), |i: int| path@[i]@),
            lines.deep_view() == seq!["Route taken\n-----------\n"@] + Seq::new(
                i as nat,
                |k: int| path_line_text(shown[k]),
            ),
        decreases path.len() - i,
    {
        let line = &path[i];
        let mut out: String = decimal_text(line.id);
        out.append(": ");
        out.append(line.name.as_str());
        out.append(" - ");
        out.append(line.leg_distance.as_str());
        out.append(" - ");
        out.append(line.total_distance.as_str());
        assert(out@ =~= path_line_text(line@));
        let ghost before = lines.deep_view();
        lines.push(out);
        proof {
            assert(shown[i as int] == line@);
            assert(lines.deep_view() =~= before.push(path_line_text(shown[i as int])));
            assert(lines.deep_view() =~= seq!["Route taken\n-----------\n"@] + Seq::new(
                (i + 1) as nat,
                |k: int| path_line_text(shown[k]),
            ));
        }
        i = i + 1;
    }
    lines
}

/// The facts about the route as text: a heading, then a line for each fact.
/// Each text is to be followed by a line break.
pub fn print_metadata(output: &CommandOutput) -> (lines: Vec<String>)
    ensures
        lines.deep_view() == metadata_lines(output@.metadata),
{
    let metadata = output.metadata();
    let mut lines: Vec<String> = Vec::new();
    lines.push("Path metadata\n-------------\n".to_owned());
    let ghost shown = output@.metadata;
    assert(lines.deep_view() =~= seq!["Path metadata\n-------------\n"@]);
    let mut i: usize = 0;
    while i < metadata.len()
        invariant
            0 <= i <= metadata.len(),
            shown == Seq::new(metadata@.len(), |i: int| metadata@[i]@),
            lines.deep_view() == seq!["Path metadata\n-------------\n"@] + Seq::new(
                i as nat,
                |k: int| metadata_line_text(shown[k]),
            ),
        decreases metadata.len() - i,
    {
        let item = &metadata[i];
        let mut out: String = item.name.clone();
        out.append(": ");
        out.append(item.value.as_str());
        assert(out@ =~= metadata_line_text(item@));
        let ghost before = lines.deep_view();
        lines.push(out);
        proof {
            assert(shown[i as int] == item@);
            assert(lines.deep_view() =~= before.push(metadata_line_text(shown[i as int])));
            assert(lines.deep_view() =~= seq!["Path metadata\n-------------\n"@] + Seq::new(
                (i + 1) as nat,
                |k: int| metadata_line_text(shown[k]),
            ));
        }
        i = i + 1;
    }
    lines
}

} // verus!
