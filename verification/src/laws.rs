//! What holds of the routing table as a whole, over more than one call.
pub mod accounts;
pub mod caches;
pub mod disk;
pub mod edges;
pub mod frames;
pub mod histories;
pub mod keys;
pub mod network;
pub mod pings;
pub mod reports;
pub mod routes;
pub mod round_robin;
pub mod views;
pub mod way_back;
