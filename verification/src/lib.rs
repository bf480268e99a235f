//! A verified core for a network-reachability monitor: per-target probe
//! statistics, a probe-task state machine, a sorted statistics store, an
//! orchestrator that reconciles a desired target set against running tasks,
//! a concurrency limiter, and a CSV export of the current statistics.

pub mod digits;
pub mod export;
pub mod limiter;
pub mod orchestrator;
pub mod order;
pub mod stat;
pub mod store;
pub mod target;
pub mod task;
