//! What a finished route request hands to the display: one line for each
//! station of the route, a list of named facts about the route, and the
//! order in which they are shown.

use crate::data::Node;
use crate::figures::{
    coordinates, coords_text, decimal, decimal_text, metres, metres_text,
};
use crate::names::short_of;
use crate::text::{metadata_lines, path_lines, print_metadata, print_path};
use vstd::prelude::*;
use vstd::string::StringExecFns;

verus! {

/// How the result is shown.
#[derive(Clone, Copy, Debug, PartialEq, Eq, Structural)]
pub enum Format {
    Table,
    JSON,
    Text,
}

/// One station of the route as it is shown.
#[derive(Debug)]
pub struct PathLine {
    /// The station's place in the route, counted from one.
    pub id: usize,
    /// The station's short name.
    pub name: String,
    /// The station's coordinates in metres.
    pub coords: String,
    /// The distance from the station before it, in metres.
    pub leg_distance: String,
    /// The distance from the start of the route, in metres.
    pub total_distance: String,
}

/// A `PathLine` with its texts as sequences of characters.
pub struct PathLineView {
    pub id: nat,
    pub name: Seq<char>,
    pub coords: Seq<char>,
    pub leg_distance: Seq<char>,
    pub total_distance: Seq<char>,
}

impl View for PathLine {
    type V = PathLineView;

    open spec fn view(&self) -> PathLineView {
        PathLineView {
            id: self.id as nat,
            name: self.name@,
            coords: self.coords@,
            leg_distance: self.leg_distance@,
            total_distance: self.total_distance@,
        }
    }
}

impl PathLine {
    /// The line for `node` as the station number `id` of a route, `leg_distance`
    /// nanometres after the station before it and `total_distance` nanometres
    /// from the start.
    pub fn new(id: usize, node: &Node, leg_distance: u64, total_distance: u128) -> (line: PathLine)
        requires
            total_distance <= u128::MAX / 2,
        ensures
            line@ == (PathLineView {
                id: id as nat,
                name: short_of(node.label@),
                coords: coords_text(node.coords),
                leg_distance: metres_text(leg_distance as nat),
                total_distance: metres_text(total_distance as nat),
            }),
    {
        PathLine {
            id,
            name: node.short_name(),
            coords: coordinates(&node.coords),
            leg_distance: metres(leg_distance as u128),
            total_distance: metres(total_distance),
        }
    }
}

/// A named fact about the route.
#[derive(Debug)]
pub struct MetadataItem {
    pub name: String,
    pub value: String,
}

/// A `MetadataItem` with its texts as sequences of characters.
pub struct MetadataView {
    pub name: Seq<char>,
    pub value: Seq<char>,
}

impl View for MetadataItem {
    type V = MetadataView;

    open spec fn view(&self) -> MetadataView {
        MetadataView { name: self.name@, value: self.value@ }
    }
}

/// One step of showing the result.
#[derive(Debug)]
pub enum Block {
    /// The lines of the route as a table.
    PathTable,
    /// The facts about the route as a table.
    MetadataTable,
    /// The lines and the facts as one JSON document.
    Json,
    /// This text, followed by a line break.
    Line(String),
}

/// A `Block` with its text as a sequence of characters.
pub enum BlockView {
    PathTable,
    MetadataTable,
    Json,
    Line(Seq<char>),
}

impl View for Block {
    type V = BlockView;

    open spec fn view(&self) -> BlockView {
        match *self {
            Block::PathTable => BlockView::PathTable,
            Block::MetadataTable => BlockView::MetadataTable,
            Block::Json => BlockView::Json,
            Block::Line(text) => BlockView::Line(text@),
        }
    }
}

/// The distance in nanometres from the station before the one at `at` along
/// `route`; zero for the first station.
pub open spec fn leg_at(route: Seq<Node>, at: int) -> nat {
    if at <= 0 {
        0
    } else {
        route[at - 1].coords.separation(route[at].coords)
    }
}

/// The distance in nanometres from the start of `route` to the station at
/// `at`, along the route.
pub open spec fn travelled(route: Seq<Node>, at: int) -> nat
    decreases at,
{
    if at <= 0 {
        0
    } else {
        travelled(route, at - 1) + leg_at(route, at)
    }
}

/// The line shown for the station at `at` along `route`.
pub open spec fn line_at(route: Seq<Node>, at: int) -> PathLineView {
    PathLineView {
        id: (at + 1) as nat,
        name: short_of(route[at].label@),
        coords: coords_text(route[at].coords),
        leg_distance: metres_text(leg_at(route, at)),
        total_distance: metres_text(travelled(route, at)),
    }
}

/// The facts shown about `route`: its first and last station, the number of
/// its stations, its length, and the straight-line distance between its ends.
pub open spec fn facts_of(route: Seq<Node>) -> Seq<MetadataView> {
    seq![
        MetadataView { name: "Start station"@, value: route[0].label@ },
        MetadataView { name: "End station"@, value: route.last().label@ },
        MetadataView { name: "Path length"@, value: decimal(route.len()) },
        MetadataView {
            name: "Path distance"@,
            value: metres_text(travelled(route, route.len() - 1)),
        },
        MetadataView {
            name: "Straight line distance"@,
            value: metres_text(route[0].coords.separation(route.last().coords)),
        },
    ]
}

/// The distance along a route of `count` legs stays below `count * 2^64`.
pub proof fn lemma_travelled_bound(route: Seq<Node>, at: int)
    requires
        0 <= at,
    ensures
        travelled(route, at) <= at * 0x200_0000_0000_0000,
    decreases at,
{
    if at > 0 {
        lemma_travelled_bound(route, at - 1);
        crate::data::lemma_separation_bound(route[at - 1].coords, route[at].coords);
    }
}

/// The result of a route request, ready to be shown.
pub struct CommandOutput {
    path: Vec<PathLine>,
    metadata: Vec<MetadataItem>,
    format: Format,
    print_path: bool,
    print_metadata: bool,
}

/// A `CommandOutput` as plain data.
pub struct CommandOutputView {
    pub path: Seq<PathLineView>,
    pub metadata: Seq<MetadataView>,
    pub format: Format,
    pub print_path: bool,
    pub print_metadata: bool,
}

impl View for CommandOutput {
    type V = CommandOutputView;

    closed spec fn view(&self) -> CommandOutputView {
        CommandOutputView {
            path: Seq::new(self.path@.len(), |i: int| self.path@[i]@),
            metadata: Seq::new(self.metadata@.len(), |i: int| self.metadata@[i]@),
            format: self.format,
            print_path: self.print_path,
            print_metadata: self.print_metadata,
        }
    }
}

/// Blocks as plain data.
pub open spec fn blocks_view(blocks: Seq<Block>) -> Seq<BlockView> {
    Seq::new(blocks.len(), |i: int| blocks[i]@)
}

/// Lines of text as blocks.
pub open spec fn as_lines(lines: Seq<Seq<char>>) -> Seq<BlockView> {
    Seq::new(lines.len(), |i: int| BlockView::Line(lines[i]))
}

impl CommandOutputView {
    /// The steps in which the output is shown.
    pub open spec fn printed(self) -> Seq<BlockView> {
        match self.format {
            Format::Table => (if self.print_path {
                seq![BlockView::PathTable]
            } else {
                Seq::<BlockView>::empty()
            }) + (if self.print_metadata {
                seq![BlockView::Line(Seq::<char>::empty()), BlockView::MetadataTable]
            } else {
                Seq::<BlockView>::empty()
            }),
            Format::JSON => seq![BlockView::Json],
            Format::Text => (if self.print_path {
                as_lines(path_lines(self.path))
            } else {
                Seq::<BlockView>::empty()
            }) + (if self.print_metadata {
                seq![BlockView::Line(seq!['\n'])] + as_lines(metadata_lines(self.metadata))
            } else {
                Seq::<BlockView>::empty()
            }),
        }
    }
}

impl CommandOutput {
    /// The output for the stations `path` of a route, in their order, shown
    /// as `format`, with both the route and the facts about it.
    pub fn new(format: Format, path: &Vec<Node>) -> (output: CommandOutput)
        requires
            path.len() >= 1,
        ensures
            output@.path == Seq::new(path@.len(), |i: int| line_at(path@, i)),
            output@.metadata == facts_of(path@),
            output@.format == format,
            output@.print_path,
            output@.print_metadata,
    {
        let mut path_distance: u128 = 0;
        let mut leg_distance: u64 = 0;
        let mut path_lines: Vec<PathLine> = Vec::new();
        let mut i: usize = 0;
        while i < path.len()
            invariant
                0 <= i <= path.len(),
                path.len() >= 1,
                path_lines@.len() == i,
                forall|k: int| 0 <= k < i ==> (#[trigger] path_lines@[k])@ == line_at(path@, k),
                i > 0 ==> path_distance == travelled(path@, i - 1),
                i == 0 ==> path_distance == 0 && leg_distance == 0,
            decreases path.len() - i,
        {
            proof {
                lemma_travelled_bound(path@, i as int);
                if i > 0 {
                    lemma_travelled_bound(path@, i - 1);
                }
                assert(i * 0x200_0000_0000_0000 <= u128::MAX / 2) by (nonlinear_arith)
                    requires
                        i <= usize::MAX,
                        usize::MAX <= 0xffff_ffff_ffff_ffff,
                ;
            }
            if i > 0 {
                leg_distance = path[i].distance(&path[i - 1]);
                proof {
                    path@[i as int].coords.lemma_separation_symmetric(path@[i - 1].coords);
                }
                path_distance = path_distance + leg_distance as u128;
            }
            path_lines.push(PathLine::new(i + 1, &path[i], leg_distance, path_distance));
            i = i + 1;
        }
        let mut output = CommandOutput {
            format,
            path: path_lines,
            metadata: Vec::new(),
            print_path: true,
            print_metadata: true,
        };
        assert(output@.path =~= Seq::new(path@.len(), |i: int| line_at(path@, i)));
        assert(output@.metadata =~= Seq::<MetadataView>::empty());
        let lines = output.path.len();
        let start_node = &path[0];
        let end_node = &path[path.len() - 1];
        let sl_distance = start_node.distance(end_node);
        proof {
            lemma_travelled_bound(path@, path@.len() - 1);
            assert((path@.len() - 1) * 0x200_0000_0000_0000 <= u128::MAX / 2) by (nonlinear_arith)
                requires
                    path@.len() <= usize::MAX,
                    usize::MAX <= 0xffff_ffff_ffff_ffff,
            ;
        }
        output.add_metadata("Start station", start_node.label.as_str());
        output.add_metadata("End station", end_node.label.as_str());
        output.add_metadata("Path length", decimal_text(lines).as_str());
        output.add_metadata("Path distance", metres(path_distance).as_str());
        output.add_metadata("Straight line distance", metres(sl_distance as u128).as_str());
        assert(output@.metadata =~= facts_of(path@));
        output
    }

    /// Appends the fact `name` with the value `value`.
    pub fn add_metadata(&mut self, name: &str, value: &str)
        ensures
            final(self)@.metadata == old(self)@.metadata.push(
                MetadataView { name: name@, value: value@ },
            ),
            final(self)@.path == old(self)@.path,
            final(self)@.format == old(self)@.format,
            final(self)@.print_path == old(self)@.print_path,
            final(self)@.print_metadata == old(self)@.print_metadata,
    {
        self.metadata.push(MetadataItem { name: name.to_owned(), value: value.to_owned() });
        assert(self@.metadata =~= old(self)@.metadata.push(
            MetadataView { name: name@, value: value@ },
        ));
        assert(self@.path =~= old(self)@.path);
    }

    /// Chooses whether the lines of the route are shown.
    pub fn set_print_path(&mut self, shown: bool)
        ensures
            final(self)@ == (CommandOutputView { print_path: shown, ..old(self)@ }),
    {
        self.print_path = shown;
        assert(self@.path =~= old(self)@.path);
        assert(self@.metadata =~= old(self)@.metadata);
    }

    /// The lines of the route.
    pub fn path(&self) -> (lines: &Vec<PathLine>)
        ensures
            Seq::new(lines@.len(), |i: int| lines@[i]@) == self@.path,
    {
        &self.path
    }

    /// The facts about the route.
    pub fn metadata(&self) -> (items: &Vec<MetadataItem>)
        ensures
            Seq::new(items@.len(), |i: int| items@[i]@) == self@.metadata,
    {
        &self.metadata
    }

    /// How the result is shown.
    pub fn format(&self) -> (format: Format)
        ensures
            format == self@.format,
    {
        self.format
    }

    /// The steps in which the output is shown, in their order. A table or a
    /// JSON document is named, for the display to draw; text is given line by
    /// line.
    pub fn print(&self) -> (blocks: Vec<Block>)
        ensures
            blocks_view(blocks@) == self@.printed(),
    {
        let mut blocks: Vec<Block> = Vec::new();
        match self.format {
            Format::Table => {
                if self.print_path {
                    blocks.push(Block::PathTable);
                }
                if self.print_metadata {
                    blocks.push(Block::Line(String::new()));
                    blocks.push(Block::MetadataTable);
                }
                assert(blocks_view(blocks@) =~= self@.printed());
            },
            Format::JSON => {
                blocks.push(Block::Json);
                assert(blocks_view(blocks@) =~= self@.printed());
            },
            Format::Text => {
                if self.print_path {
                    let lines = print_path(self);
                    push_lines(&mut blocks, &lines);
                }
                if self.print_metadata {
                    let ghost before = blocks_view(blocks@);
                    proof {
                        reveal_strlit("\n");
                    }
                    blocks.push(Block::Line(String::from_str("\n")));
                    assert("\n"@ =~= seq!['\n']);
                    assert(blocks_view(blocks@) =~= before + seq![BlockView::Line(seq!['\n'])]);
                    let lines = print_metadata(self);
                    push_lines(&mut blocks, &lines);
                }
                assert(blocks_view(blocks@) =~= self@.printed());
            },
        }
        blocks
    }
}

/// Appends each of `lines` to `blocks` as a line of text.
fn push_lines(blocks: &mut Vec<Block>, lines: &Vec<String>)
    ensures
        blocks_view(final(blocks)@) == blocks_view(old(blocks)@) + as_lines(lines.deep_view()),
{
    let ghost texts = lines.deep_view();
    let ghost start = blocks_view(blocks@);
    let mut i: usize = 0;
    assert(blocks_view(blocks@) =~= start + as_lines(texts.take(0)));
    while i < lines.len()
        invariant
            0 <= i <= lines.len(),
            texts == lines.deep_view(),
            blocks_view(blocks@) == start + as_lines(texts.take(i as int)),
        decreases lines.len() - i,
    {
        let ghost before = blocks_view(blocks@);
        blocks.push(Block::Line(lines[i].clone()));
        proof {
            assert(texts[i as int] == lines@[i as int]@);
            assert(blocks_view(blocks@) =~= before.push(BlockView::Line(texts[i as int])));
            assert(as_lines(texts.take(i + 1)) =~= as_lines(texts.take(i as int)).push(
                BlockView::Line(texts[i as int]),
            ));
        }
        i = i + 1;
    }
    assert(texts.take(lines.len() as int) =~= texts);
}

} // verus!
