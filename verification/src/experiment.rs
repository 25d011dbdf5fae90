//! The stack and memory experiment: process samples, the figures of a run's
//! record, and the parameters of a model run.

pub mod metrics;
pub mod models;
