//! The three execution-flow models of the experiment, the parameters of one
//! model run, and the texts and numbers a run derives from them.

use vstd::prelude::*;
use std::time::Duration;
use crate::duration::{duration_from_millis, duration_millis, millis_to_duration, whole_millis};
use crate::text::{decimal, push_decimal};

verus! {

/// How the experiment runs its tasks.
#[derive(Debug, Copy, Clone, PartialEq, Eq, Structural)]
pub enum ExecutionModel {
    /// One kernel-scheduled OS thread per task.
    OsThread,
    /// One stackful coroutine per task, scheduled in user space.
    GreenThread,
    /// One future per task, scheduled by an async runtime.
    AsyncFuture,
}

/// The name under which a model's results are recorded.
pub open spec fn model_name(m: ExecutionModel) -> Seq<char> {
    match m {
        ExecutionModel::OsThread => "os_thread"@,
        ExecutionModel::GreenThread => "green_thread"@,
        ExecutionModel::AsyncFuture => "async_future"@,
    }
}

impl ExecutionModel {
    pub fn as_str(self) -> (r: &'static str)
        ensures
            r@ == model_name(self),
    {
        match self {
            ExecutionModel::OsThread => "os_thread",
            ExecutionModel::GreenThread => "green_thread",
            ExecutionModel::AsyncFuture => "async_future",
        }
    }
}

/// Parameters for one model run.
#[derive(Debug, Clone)]
pub struct RunConfig {
    pub task_count: usize,
    pub sleep_ms: u64,
    pub os_stack_bytes: usize,
    pub green_stack_bytes: usize,
    pub touch_stack_bytes: usize,
    pub kernel_stack_bytes: usize,
    pub runtime_workers: usize,
    pub sample_interval_ms: u64,
}

impl RunConfig {
    /// How long each task sleeps.
    pub fn sleep_duration(&self) -> (d: Duration)
        ensures
            d == duration_from_millis(self.sleep_ms),
    {
        millis_to_duration(self.sleep_ms)
    }

    /// How often the sampler reads the process status: at least every
    /// millisecond.
    pub fn sample_interval(&self) -> (d: Duration)
        ensures
            d == duration_from_millis(if self.sample_interval_ms >= 1 { self.sample_interval_ms } else { 1 }),
    {
        let ms = if self.sample_interval_ms >= 1 { self.sample_interval_ms } else { 1 };
        millis_to_duration(ms)
    }

    /// Worker threads of the async runtime: at least one.
    pub fn async_workers(&self) -> (n: usize)
        ensures
            n == if self.runtime_workers >= 1 { self.runtime_workers } else { 1 },
    {
        if self.runtime_workers >= 1 { self.runtime_workers } else { 1 }
    }

    /// User stack configured per task under `model`: the OS thread stack,
    /// the coroutine stack, or none for futures.
    pub fn user_stack_bytes(&self, model: ExecutionModel) -> (n: usize)
        ensures
            n == match model {
                ExecutionModel::OsThread => self.os_stack_bytes,
                ExecutionModel::GreenThread => self.green_stack_bytes,
                ExecutionModel::AsyncFuture => 0,
            },
    {
        match model {
            ExecutionModel::OsThread => self.os_stack_bytes,
            ExecutionModel::GreenThread => self.green_stack_bytes,
            ExecutionModel::AsyncFuture => 0,
        }
    }
}

/// A task's result: its stack checksum combined with its id.
pub fn task_checksum(stack_checksum: u64, id: usize) -> (r: u64)
    ensures
        r == stack_checksum ^ (id as u64),
{
    stack_checksum ^ (id as u64)
}

/// The XOR of all task results.
pub open spec fn xor_all(values: Seq<u64>) -> u64
    decreases values.len(),
{
    if values.len() == 0 {
        0
    } else {
        xor_all(values.drop_last()) ^ values.last()
    }
}

/// A run's checksum: the XOR of its tasks' results, in any order.
pub fn combine_checksums(values: &[u64]) -> (r: u64)
    ensures
        r == xor_all(values@),
{
    let mut acc: u64 = 0;
    let mut i: usize = 0;
    while i < values.len()
        invariant
            i <= values@.len(),
            acc == xor_all(values@.take(i as int)),
        decreases values@.len() - i,
    {
        proof {
            assert(values@.take(i + 1).drop_last() =~= values@.take(i as int));
        }
        acc = acc ^ values[i];
        i = i + 1;
    }
    proof {
        assert(values@.take(i as int) =~= values@);
    }
    acc
}

/// Whole milliseconds of an elapsed time, saturated at `u64::MAX`.
pub fn elapsed_millis(elapsed: &Duration) -> (ms: u64)
    ensures
        ms == (if whole_millis(*elapsed) > u64::MAX { u64::MAX as nat } else { whole_millis(*elapsed) }),
        forall|m: u64| *elapsed == duration_from_millis(m) ==> ms == m,
{
    let ms = duration_millis(elapsed);
    if ms > u64::MAX as u128 {
        u64::MAX
    } else {
        ms as u64
    }
}

/// The kind of task that a model spawns, as its spawn error names it.
pub open spec fn task_kind(m: ExecutionModel) -> Seq<char> {
    match m {
        ExecutionModel::GreenThread => "green thread"@,
        _ => "OS thread"@,
    }
}

/// What a model's spawn error calls the tasks already started.
pub open spec fn started_kind(m: ExecutionModel) -> Seq<char> {
    match m {
        ExecutionModel::GreenThread => "green threads"@,
        _ => "threads"@,
    }
}

/// The error of a run whose spawn of task `id` failed after `spawned` tasks
/// had started.
pub open spec fn spawn_failure_text(m: ExecutionModel, id: nat, spawned: nat, err: Seq<char>) -> Seq<char> {
    "failed to spawn "@ + task_kind(m) + " "@ + decimal(id) + " after spawning "@ + decimal(spawned)
        + " "@ + started_kind(m) + ": "@ + err + "; try a smaller --tasks value"@
}

/// The error message of a failed spawn.
pub fn spawn_failure_message(model: ExecutionModel, id: usize, spawned: usize, err: &str) -> (r: String)
    ensures
        r@ == spawn_failure_text(model, id as nat, spawned as nat, err@),
{
    let (kind, started) = match model {
        ExecutionModel::GreenThread => ("green thread", "green threads"),
        _ => ("OS thread", "threads"),
    };
    let mut r = String::from_str("failed to spawn ");
    r.append(kind);
    r.append(" ");
    push_decimal(&mut r, id as u128);
    r.append(" after spawning ");
    push_decimal(&mut r, spawned as u128);
    r.append(" ");
    r.append(started);
    r.append(": ");
    r.append(err);
    r.append("; try a smaller --tasks value");
    proof {
        assert(kind@ == task_kind(model));
        assert(started@ == started_kind(model));
        assert(r@ =~= spawn_failure_text(model, id as nat, spawned as nat, err@));
    }
    r
}

/// How a model's record explains its estimates.
pub open spec fn notes_tail(m: ExecutionModel) -> Seq<char> {
    match m {
        ExecutionModel::OsThread => "; user_stack_reserved = task_count * configured OS thread stack"@,
        ExecutionModel::GreenThread => "; user_stack_reserved = task_count * configured may coroutine stack"@,
        ExecutionModel::AsyncFuture =>
            "; future_state_bytes is size_of_val(sample_async_task(...)); Tokio task allocation overhead is reflected in RSS"@,
    }
}

/// The notes of a run: its checksum and how its estimates were made.
pub fn record_notes(model: ExecutionModel, checksum: u64) -> (r: String)
    ensures
        r@ == "checksum="@ + decimal(checksum as nat) + notes_tail(model),
{
    let tail = match model {
        ExecutionModel::OsThread => "; user_stack_reserved = task_count * configured OS thread stack",
        ExecutionModel::GreenThread => "; user_stack_reserved = task_count * configured may coroutine stack",
        ExecutionModel::AsyncFuture =>
            "; future_state_bytes is size_of_val(sample_async_task(...)); Tokio task allocation overhead is reflected in RSS",
    };
    let mut r = String::from_str("checksum=");
    push_decimal(&mut r, checksum as u128);
    r.append(tail);
    proof {
        assert(tail@ == notes_tail(model));
        assert(r@ =~= "checksum="@ + decimal(checksum as nat) + notes_tail(model));
    }
    r
}

/// The first rule that the experiment's options break, in the order they
/// are checked: models and task counts given, positive OS, coroutine and
/// kernel stack sizes, and touched stack smaller than both user stacks.
pub open spec fn options_error(
    models: nat,
    tasks: nat,
    os_stack_kib: nat,
    green_stack_kib: nat,
    touch_stack_kib: nat,
    kernel_stack_kib: nat,
) -> Option<Seq<char>> {
    if models == 0 {
        Some("--models cannot be empty"@)
    } else if tasks == 0 {
        Some("--tasks cannot be empty"@)
    } else if os_stack_kib == 0 {
        Some("--os-stack-kib must be positive"@)
    } else if green_stack_kib == 0 {
        Some("--green-stack-kib must be positive"@)
    } else if !(touch_stack_kib < os_stack_kib && touch_stack_kib < green_stack_kib) {
        Some("--touch-stack-kib must be smaller than both --os-stack-kib and --green-stack-kib"@)
    } else if kernel_stack_kib == 0 {
        Some("--kernel-stack-kib must be positive"@)
    } else {
        None
    }
}

/// Checks the experiment's options; the error names the first rule broken.
pub fn validate_options(
    models: usize,
    tasks: usize,
    os_stack_kib: usize,
    green_stack_kib: usize,
    touch_stack_kib: usize,
    kernel_stack_kib: usize,
) -> (r: Result<(), String>)
    ensures
        match options_error(
            models as nat,
            tasks as nat,
            os_stack_kib as nat,
            green_stack_kib as nat,
            touch_stack_kib as nat,
            kernel_stack_kib as nat,
        ) {
            Some(e) => r matches Err(m) && m@ == e,
            None => r is Ok,
        },
{
    if models == 0 {
        Err(String::from_str("--models cannot be empty"))
    } else if tasks == 0 {
        Err(String::from_str("--tasks cannot be empty"))
    } else if os_stack_kib == 0 {
        Err(String::from_str("--os-stack-kib must be positive"))
    } else if green_stack_kib == 0 {
        Err(String::from_str("--green-stack-kib must be positive"))
    } else if !(touch_stack_kib < os_stack_kib && touch_stack_kib < green_stack_kib) {
        Err(String::from_str("--touch-stack-kib must be smaller than both --os-stack-kib and --green-stack-kib"))
    } else if kernel_stack_kib == 0 {
        Err(String::from_str("--kernel-stack-kib must be positive"))
    } else {
        Ok(())
    }
}

impl RunConfig {
    /// The configuration of one run, with stack sizes given in KiB.
    pub fn from_options(
        task_count: usize,
        sleep_ms: u64,
        os_stack_kib: usize,
        green_stack_kib: usize,
        touch_stack_kib: usize,
        kernel_stack_kib: usize,
        runtime_workers: usize,
        sample_interval_ms: u64,
    ) -> (c: Self)
        requires
            os_stack_kib * 1024 <= usize::MAX,
            green_stack_kib * 1024 <= usize::MAX,
            touch_stack_kib * 1024 <= usize::MAX,
            kernel_stack_kib * 1024 <= usize::MAX,
        ensures
            c.task_count == task_count,
            c.sleep_ms == sleep_ms,
            c.os_stack_bytes == os_stack_kib * 1024,
            c.green_stack_bytes == green_stack_kib * 1024,
            c.touch_stack_bytes == touch_stack_kib * 1024,
            c.kernel_stack_bytes == kernel_stack_kib * 1024,
            c.runtime_workers == runtime_workers,
            c.sample_interval_ms == sample_interval_ms,
    {
        RunConfig {
            task_count,
            sleep_ms,
            os_stack_bytes: os_stack_kib * 1024,
            green_stack_bytes: green_stack_kib * 1024,
            touch_stack_bytes: touch_stack_kib * 1024,
            kernel_stack_bytes: kernel_stack_kib * 1024,
            runtime_workers,
            sample_interval_ms,
        }
    }
}

} // verus!
