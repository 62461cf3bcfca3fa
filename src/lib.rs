//! A data-driven hierarchical state machine engine: regions, submachines,
//! guards and actions, entry and exit hooks, state timers and a bounded event
//! queue with run-to-completion dispatch.
pub mod table;
pub mod builder;
pub mod semantics;
pub mod engine;
pub mod fsm;
pub mod laws;
