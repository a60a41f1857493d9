//! Shortest routes between the stations of a cave survey.
//!
//! A survey is a list of stations, each a labelled position, and a list of
//! legs, each joining two positions. The library resolves station queries,
//! builds the network of stations and legs, takes out stations that a route
//! must avoid, searches the shortest route between two stations and composes
//! routes through via points.
//!
//! Positions are whole centimetres and lengths whole nanometres, so that
//! every distance is an exact number and the triangle inequality holds
//! without exception.

pub mod command;
pub mod data;
pub mod failure;
pub mod figures;
pub mod laws;
pub mod measure;
pub mod mesh;
pub mod names;
pub mod network;
pub mod output;
pub mod pathfinding;
pub mod registry;
pub mod resolve;
pub mod routes;
pub mod text;
pub mod walks;
