//! The routing table of a peer-to-peer node, verified with Verus.

pub mod caches;
pub mod clock;
pub mod graph;
pub mod laws;
pub mod lru;
pub mod route_back;
pub mod routing;
pub mod sequences;
pub mod sets;
pub mod state;
pub mod store;
pub mod tables;
pub mod topology;
pub mod types;
