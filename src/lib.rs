//! Decision core of a payment routing engine: per-profile algorithm storage,
//! rule evaluation, success-rate tracking, success-based ranking and the
//! orchestration that turns them into an ordered connector list.
pub mod ids;
pub mod types;
pub mod stats;
pub mod ranking;
pub mod rules;
pub mod store;
pub mod orchestrator;
