//! The ways in which a route request can fail.

use vstd::prelude::*;

verus! {

/// Why no route was produced.
#[derive(Debug)]
pub enum Failure {
    /// No station label contains the query.
    StationNotFound { query: String },
    /// Several station labels contain the query and none of them settles it.
    /// `matches` lists the first of them in input order; `more` counts those
    /// left off the list.
    AmbiguousStation { query: String, matches: Vec<String>, more: usize },
    /// A station to avoid is also the start, the end or a via point.
    ExcludedStationIsEndpoint { label: String },
    /// The search ran out of stations between two consecutive waypoints.
    NoRouteFound { from: String, to: String },
    /// The survey records could not be read; raised by the reader, never by
    /// the route logic.
    MalformedInput { detail: String },
}

/// A `Failure` with its texts as sequences of characters.
pub enum FailureView {
    StationNotFound { query: Seq<char> },
    AmbiguousStation { query: Seq<char>, matches: Seq<Seq<char>>, more: nat },
    ExcludedStationIsEndpoint { label: Seq<char> },
    NoRouteFound { from: Seq<char>, to: Seq<char> },
    MalformedInput { detail: Seq<char> },
}

impl View for Failure {
    type V = FailureView;

    open spec fn view(&self) -> FailureView {
        match *self {
            Failure::StationNotFound { query } => FailureView::StationNotFound { query: query@ },
            Failure::AmbiguousStation { query, matches, more } => FailureView::AmbiguousStation {
                query: query@,
                matches: matches.deep_view(),
                more: more as nat,
            },
            Failure::ExcludedStationIsEndpoint { label } => FailureView::ExcludedStationIsEndpoint {
                label: label@,
            },
            Failure::NoRouteFound { from, to } => FailureView::NoRouteFound {
                from: from@,
                to: to@,
            },
            Failure::MalformedInput { detail } => FailureView::MalformedInput { detail: detail@ },
        }
    }
}

} // verus!
