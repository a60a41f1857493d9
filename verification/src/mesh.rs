//! The search mesh: the graph of the `petgraph` crate in which routes are
//! searched, and what is taken on trust of it.
//!
//! A mesh holds one node for each station and one undirected edge for each
//! link, with the link's length as its weight. Nodes and edges are only ever
//! added, so a mesh is known by the number of its nodes and the sequence of
//! its edges.

use crate::walks::{as_nats, consistent, is_shortest, reachable};
use vstd::prelude::*;

verus! {

/// `petgraph::graph::Graph`, held without looking inside.
#[verifier::external_type_specification]
#[verifier::external_body]
#[verifier::reject_recursive_types(N)]
#[verifier::reject_recursive_types(E)]
#[verifier::reject_recursive_types(Ty)]
#[verifier::reject_recursive_types(Ix)]
pub struct ExGraph<N, E, Ty, Ix>(petgraph::graph::Graph<N, E, Ty, Ix>);

/// `petgraph::Undirected`, the marker of a graph whose edges have no
/// direction.
#[verifier::external_type_specification]
#[verifier::external_body]
pub struct ExUndirected(petgraph::Undirected);

/// The number of nodes that a mesh holds. Its nodes are numbered from zero
/// in the order in which they were added.
pub uninterp spec fn mesh_nodes(
    g: &petgraph::graph::Graph<(), u128, petgraph::Undirected, usize>,
) -> nat;

/// The edges `(a, b, weight)` that a mesh holds, in the order in which they
/// were added.
pub uninterp spec fn mesh_edges(
    g: &petgraph::graph::Graph<(), u128, petgraph::Undirected, usize>,
) -> Seq<(nat, nat, nat)>;

/// `Graph::with_capacity` with no capacity asked for: a graph without nodes
/// and without edges.
#[verifier::external_body]
pub(crate) fn mesh_new() -> (g: petgraph::graph::Graph<(), u128, petgraph::Undirected, usize>)
    ensures
        mesh_nodes(&g) == 0,
        mesh_edges(&g) == Seq::<(nat, nat, nat)>::empty(),
{
    petgraph::graph::Graph::with_capacity(0, 0)
}

/// `Graph::add_node`: one more node, which gets the next number; the edges
/// stay as they are. With `usize` indices the graph has no limit of its own
/// on the number of its nodes.
#[verifier::external_body]
pub(crate) fn mesh_add_node(
    g: &mut petgraph::graph::Graph<(), u128, petgraph::Undirected, usize>,
) -> (index: usize)
    ensures
        index == mesh_nodes(old(g)),
        mesh_nodes(final(g)) == mesh_nodes(old(g)) + 1,
        mesh_edges(final(g)) == mesh_edges(old(g)),
{
    g.add_node(()).index()
}

/// `Graph::add_edge`: one more edge between the nodes `a` and `b`, with
/// `length` as its weight, after the edges that are there; the nodes stay as
/// they are. The graph panics where `a` or `b` is no node of it.
#[verifier::external_body]
pub(crate) fn mesh_add_edge(
    g: &mut petgraph::graph::Graph<(), u128, petgraph::Undirected, usize>,
    a: usize,
    b: usize,
    length: u64,
)
    requires
        a < mesh_nodes(old(g)),
        b < mesh_nodes(old(g)),
    ensures
        mesh_nodes(final(g)) == mesh_nodes(old(g)),
        mesh_edges(final(g)) == mesh_edges(old(g)).push((a as nat, b as nat, length as nat)),
{
    let from = petgraph::graph::NodeIndex::new(a);
    let to = petgraph::graph::NodeIndex::new(b);
    g.add_edge(from, to, u128::from(length));
}

/// What `petgraph::algo::astar` returns on a mesh with the given edges and
/// number of nodes, from `start` to the node `goal`, with the edge lengths as
/// costs and `estimate` as the heuristic.
pub uninterp spec fn astar_outcome(
    edges: Seq<(nat, nat, nat)>,
    nodes: nat,
    start: nat,
    goal: nat,
    estimate: Seq<nat>,
) -> Option<(nat, Seq<nat>)>;

/// The outcome of a search as plain numbers.
pub open spec fn outcome_view(found: Option<(u128, Vec<usize>)>) -> Option<(nat, Seq<nat>)> {
    match found {
        Some((cost, walk)) => Some((cost as nat, as_nats(walk@))),
        None => None,
    }
}

/// The estimates as plain numbers.
pub open spec fn estimate_view(estimate: Seq<u64>) -> Seq<nat> {
    Seq::new(estimate.len(), |i: int| estimate[i] as nat)
}

/// Whether the search has reached its goal at the node `at`.
pub fn is_goal(at: usize, goal: usize) -> (reached: bool)
    ensures
        reached == (at == goal),
{
    at == goal
}

/// The estimate of the remaining cost at the node `at`.
pub fn estimate_at(estimate: &Vec<u64>, at: usize) -> (cost: u128)
    requires
        at < estimate.len(),
    ensures
        cost == estimate[at as int],
{
    estimate[at] as u128
}

/// `petgraph::algo::astar` from `start` to `goal`, with each edge's weight as
/// its cost and `estimate[n]` as the heuristic at node `n`.
///
/// The search returns the cost and the nodes of a shortest walk where the
/// heuristic never overestimates, which a consistent one does not; the cost
/// of a walk counts, between two nodes, the shortest edge that joins them.
/// It returns `None` exactly when it has exhausted the nodes that can be
/// reached from `start` without meeting `goal`. Where `start` is the goal,
/// the first node taken from the queue is the goal, with cost zero and no
/// predecessor. Costs are added as `u128`: a walk found by the search visits
/// no node twice, so with lengths and estimates below 2^64 no sum overflows.
#[verifier::external_body]
pub(crate) fn mesh_astar(
    g: &petgraph::graph::Graph<(), u128, petgraph::Undirected, usize>,
    start: usize,
    goal: usize,
    estimate: &Vec<u64>,
) -> (found: Option<(u128, Vec<usize>)>)
    requires
        start < mesh_nodes(g),
        goal < mesh_nodes(g),
        estimate.len() == mesh_nodes(g),
        forall|k: int| 0 <= k < mesh_edges(g).len() ==> (#[trigger] mesh_edges(g)[k]).2 <= u64::MAX,
        consistent(mesh_edges(g), estimate_view(estimate@), goal as nat),
    ensures
        outcome_view(found) == astar_outcome(
            mesh_edges(g),
            mesh_nodes(g),
            start as nat,
            goal as nat,
            estimate_view(estimate@),
        ),
        match outcome_view(found) {
            Some((cost, walk)) => is_shortest(
                mesh_edges(g),
                mesh_nodes(g),
                start as nat,
                goal as nat,
                cost,
                walk,
            ),
            None => !reachable(mesh_edges(g), mesh_nodes(g), start as nat, goal as nat),
        },
        start == goal ==> outcome_view(found) == Some((0nat, seq![start as nat])),
{
    let hit = petgraph::algo::astar(
        g,
        petgraph::graph::NodeIndex::new(start),
        |n| is_goal(n.index(), goal),
        |e| *e.weight(),
        |n| estimate_at(estimate, n.index()),
    );
    hit.map(|(cost, walk)| (cost, walk.into_iter().map(|n| n.index()).collect()))
}

} // verus!
