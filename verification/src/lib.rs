//! A dispatch graph engine for routing service vehicles (tow trucks) to
//! orders over a road network partitioned into independent service areas.
//!
//! The engine maintains per-area weighted undirected graphs, produces
//! immutable per-area snapshots, computes single-source shortest distances
//! over a snapshot with a proof that every reported distance is exactly
//! the cost of a shortest walk, tracks vehicle locations and statuses, and
//! resolves the nearest eligible vehicle for a pending order — with the
//! dispatch confirmation re-validating and switching order and vehicle
//! state as one atomic unit.

pub mod errors;
pub mod paging;
pub mod graph;
pub mod path;
pub mod store;
pub mod vehicle;
pub mod order;
pub mod engine;
