//! Scheduling: the per-CPU round-robin step taken at each timer tick, and the balancing of
//! ready tasks across CPUs.

pub mod task;
pub mod scheduler;
pub mod load_balancing;
