//! A graph-based execution engine: named nodes backed by sandboxed modules,
//! linked by contract-typed edges, resolved and run in dependency order.

pub mod contract;
pub mod coordinator;
pub mod graph;
pub mod model;
pub mod order;
pub mod runtime;
