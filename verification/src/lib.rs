//! Core of a packet-processing engine: a dynamic network of packet-handling
//! apps connected by fixed-capacity links, reconciled against a desired
//! configuration and driven by a periodic breathe loop.

pub mod apps;
pub mod clock;
pub mod engine;
pub mod laws;
pub mod link;
pub mod linkspec;
pub mod table;
pub mod names;
pub mod planner;
pub mod reconcile;
pub mod state;
pub mod stats;
