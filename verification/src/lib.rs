//! Dispatch of capacity-limited trains that fetch and deliver packages over
//! a graph of stations.
//!
//! The crate has two halves. `graph` answers shortest-path queries over an
//! undirected, weighted station graph and remembers each answer per source;
//! `paths` says what a shortest path is, `min_heap` is the heap that
//! Dijkstra's algorithm uses. `navigation` searches the worlds that the
//! trains can bring about (where each train stands and who has each
//! package) and keeps, of the schedules it finds, the one that ends first,
//! and among those that end together the one that uses the fewest trains.
//! `world` says what one action makes of a world, `search` what the search
//! returns, `memo` is its memory, and `laws`, `ledger` and `capacity` hold
//! what is true of every schedule returned.
//!
//! Stations, trains and packages are identified by their index in the
//! collection that owns them.

pub mod capacity;
pub mod destination;
pub mod error;
pub mod graph;
pub mod input;
pub mod laws;
pub mod ledger;
pub mod memo;
pub mod min_heap;
pub mod movement;
pub mod navigation;
pub mod package;
pub mod paths;
pub mod route;
pub mod search;
pub mod train;
pub mod world;
