//! Verified scheduling, parsing and bookkeeping logic of the execution-flow
//! laboratory: priority schedulers, a green-thread scheduling core, stackless
//! coroutine executors, crawler text processing and process metrics.

pub mod priority;
pub mod spawn_order;
pub mod text;
pub mod green_thread;
pub mod green_run;
pub mod duration;
pub mod crawl;
pub mod fields;
pub mod bench;
pub mod experiment;
pub mod tracing;
pub mod stackless;
pub mod futures_runtime;
pub mod tokio_trace;
