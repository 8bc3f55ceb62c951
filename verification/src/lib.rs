//! Cronos-CTC worldline runtime: spacetime-addressed memory, retrocausal
//! dependency tracking, cascade invalidation, timeline collection, offload
//! routing and the chronal DSL front end.

pub mod addr;
pub mod node;
pub mod graph;
pub mod worldline;
pub mod bridge;
pub mod text;
pub mod config;
pub mod gc;
pub mod checkpoint;
pub mod collect;
pub mod continuum;
pub mod agents;
pub mod observe;
pub mod landauer;
pub mod compiler;
