//! Static list scheduling of a task DAG onto a network of devices: the
//! task orders that HEFT and the Buyya heuristic use, and the greedy
//! earliest-finish-time assignment engine with its delay table. Times are
//! binary64 encodings compared in their total order; the arithmetic that
//! produces them is the caller's.

pub mod assign;
pub mod error;
pub mod graph;
pub mod order;
pub mod time;
pub mod workflow;
pub mod xml;
