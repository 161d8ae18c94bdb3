//! Agents: aircraft that integrate their own state towards the targets of each
//! leg, step by step, following their flight plans. Independent of replay: the
//! two share plans and records, never an execution loop.

pub mod aircraft;
pub mod performance;
pub mod run;
