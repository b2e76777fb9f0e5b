//! A road-network routing and route-evaluation core.
//!
//! The library models a directed road graph (junctions, links, tiles,
//! segments), resolves directional intents (turn left, head north, take
//! exit N) into junction exit indices, builds a DFS spanning tree rooted
//! at junction 1, synthesises a routing table from it, and interprets
//! textual route queries against the network.

pub mod address;
pub mod eval;
pub mod junction;
pub mod network;
pub mod road;
pub mod route;
pub mod spanning;
