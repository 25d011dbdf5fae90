# arceos_async_lab

Execution-flow laboratory: concurrent crawlers, a stackful green-thread
runtime, stackless coroutine and future runtimes, priority schedulers, and a
stack/memory experiment comparing OS threads, coroutines and futures.

The library (`src/`) is written in Verus. Its functions carry `requires` /
`ensures` contracts over mathematical models (`Seq`, `int`, spec functions),
and the properties that span several functions are stated and proved as
`law_*` proof functions.

## Layout

- `src/priority.rs` – cooperative two-level priority scheduler and a
  time-sliced preemptive priority scheduler (simulation model, laws on
  priority and work conservation); `src/spawn_order.rs` – where a spawned
  task is filed, and why spawn order matters only among equal keys.
- `src/green_thread.rs` – scheduling core of the green-thread runtime:
  thread table, priority round-robin selection, state transitions, the
  switch each decision calls for, and the trace; `src/green_run.rs` – the
  law over a whole run of that scheduler.
- `src/stackless.rs`, `src/futures_runtime.rs`, `src/tokio_trace.rs`,
  `src/tracing.rs` – executor queues, task counters, timer and yield
  futures' poll decisions, and the numbered trace lines.
- `src/crawl/` – crawler options, school lists (CSV), crawl samples and
  their tab-separated form, file names, HTML-to-text, mock pages, the
  process-per-school protocol and the crawl report.
- `src/bench.rs` – the first benchmark's samples and url lists.
- `src/experiment/` – process status parsing, per-thread tallies, peaks,
  saturated byte estimates, option checks and run texts.
- `src/text.rs`, `src/fields.rs`, `src/duration.rs` – character-level
  helpers, line and word fields, and the millisecond durations of
  `std::time::Duration`.
- `app/` – the programs: crawlers and benchmarks (HTTP, threads, processes, async),
  the green-thread context switch, the coroutine demos and the experiment
  command line with its CSV/JSON output.
- `tests/` – tests of the library.
