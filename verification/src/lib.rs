//! A railway network: stations joined by named, directed route segments, and
//! the trains that travel along them.
//!
//! - [`station`]: stations and the booking of their platforms.
//! - [`route`]: the named segments of track that join stations.
//! - [`graph`]: the network itself, with the edits that add stations and
//!   routes and that remove a station while keeping its through lines joined.
//! - [`train`]: trains, their register, and the rule by which a train moves.
//! - [`stable_graph`]: what the library takes on trust from `petgraph`.
//! - [`edge`] and [`line`]: connections and segments between stations that
//!   are known by their ids.

pub mod edge;
pub mod graph;
pub mod line;
pub mod route;
pub mod stable_graph;
pub mod station;
pub mod train;
