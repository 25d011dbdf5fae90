//! The bookkeeping of a small executor/reactor/waker runtime: task ids, the
//! count of unfinished tasks that keeps the executor running, a timer
//! future's poll decisions, and the events each step traces.
//!
//! Channels, wakers and timer threads stay with the caller, which reports
//! here what happened and records the events returned.

use vstd::prelude::*;
use std::time::Duration;
use crate::duration::{duration_from_millis, millis_to_duration};
use crate::tracing::{
    format_trace_line, id_name_event, id_name_text, task_step_event, task_step_text, trace_line,
};

verus! {

/// The trace of the runtime demo: numbered lines.
pub struct TraceLog {
    tick: usize,
}

impl TraceLog {
    /// Number of lines recorded so far.
    pub closed spec fn ticks(&self) -> nat {
        self.tick as nat
    }

    pub fn new() -> (t: Self)
        ensures
            t.ticks() == 0,
    {
        TraceLog { tick: 0 }
    }

    /// The line for `message`, numbered with the current tick, which then
    /// advances.
    pub fn record(&mut self, message: &str) -> (line: String)
        requires
            old(self).ticks() < usize::MAX,
        ensures
            line@ == trace_line("futures-200-trace"@, old(self).ticks(), message@),
            final(self).ticks() == old(self).ticks() + 1,
    {
        let line = format_trace_line("futures-200-trace", self.tick, message);
        self.tick = self.tick + 1;
        line
    }
}

/// Hands out task ids, in order from 0.
pub struct Spawner {
    next_id: usize,
}

/// Counts the tasks that are spawned and not yet finished; the executor runs
/// while this is not 0.
pub struct Executor {
    remaining: usize,
}

/// A spawner and an executor with no task yet.
pub fn new_runtime() -> (r: (Spawner, Executor))
    ensures
        r.0.next_id() == 0,
        r.1.remaining() == 0,
{
    (Spawner { next_id: 0 }, Executor { remaining: 0 })
}

/// `n + 1`, wrapping at the end of `usize` as an atomic counter does.
pub open spec fn wrap_inc(n: nat) -> nat {
    if n + 1 > usize::MAX {
        0
    } else {
        n + 1
    }
}

/// `n - 1`, wrapping at 0 as an atomic counter does.
pub open spec fn wrap_dec(n: nat) -> nat {
    if n == 0 {
        usize::MAX as nat
    } else {
        (n - 1) as nat
    }
}

impl Spawner {
    /// The id of the next task.
    pub closed spec fn next_id(&self) -> nat {
        self.next_id as nat
    }

    /// Spawns task `name`: it takes the next id, and the executor has one
    /// more task to finish. Returns the id and the spawn event.
    pub fn spawn(&mut self, executor: &mut Executor, name: &str) -> (r: (usize, String))
        ensures
            r.0 == old(self).next_id(),
            final(self).next_id() == wrap_inc(old(self).next_id()),
            final(executor).remaining() == wrap_inc(old(executor).remaining()),
            r.1@ == id_name_text("task:spawn "@, r.0 as nat, name@, " state=Ready storage=Future"@),
    {
        let id = self.next_id;
        self.next_id = self.next_id.wrapping_add(1);
        executor.remaining = executor.remaining.wrapping_add(1);
        let event = id_name_event("task:spawn ", id, name, " state=Ready storage=Future");
        (id, event)
    }
}

impl Executor {
    /// Tasks spawned and not yet finished.
    pub closed spec fn remaining(&self) -> nat {
        self.remaining as nat
    }

    /// The event that starts a run.
    pub fn run_begin(&self) -> (event: String)
        ensures
            event@ == "executor:run begin"@,
    {
        String::from_str("executor:run begin")
    }

    /// The executor keeps taking tasks from its queue while a task is not
    /// finished.
    pub fn has_work(&self) -> (r: bool)
        ensures
            r == (self.remaining() > 0),
    {
        self.remaining > 0
    }

    /// A woken task whose future was already taken: it is skipped.
    pub fn stale_wake(&self, id: usize, name: &str) -> (event: String)
        ensures
            event@ == id_name_text("executor:skip "@, id as nat, name@, " reason=stale-wake"@),
    {
        id_name_event("executor:skip ", id, name, " reason=stale-wake")
    }

    /// The event before a task's future is polled.
    pub fn poll_begin(&self, id: usize, name: &str) -> (event: String)
        ensures
            event@ == id_name_text("executor:poll "@, id as nat, name@, " state=Running"@),
    {
        id_name_event("executor:poll ", id, name, " state=Running")
    }

    /// After a poll: a pending task waits for its waker; a finished one is
    /// counted off. Returns the events, in order.
    pub fn after_poll(&mut self, id: usize, name: &str, finished: bool) -> (events: Vec<String>)
        ensures
            finished ==> final(self).remaining() == wrap_dec(old(self).remaining()),
            !finished ==> final(self).remaining() == old(self).remaining(),
            finished ==> events@.len() == 2,
            finished ==> events@[0]@ == id_name_text("executor:ready "@, id as nat, name@, " state=Finished"@),
            finished ==> events@[1]@ == id_name_text("task:finish "@, id as nat, name@, ""@),
            !finished ==> events@.len() == 1,
            !finished ==> events@[0]@ == id_name_text("executor:pending "@, id as nat, name@, " state=Suspended"@),
    {
        let mut events: Vec<String> = Vec::new();
        if finished {
            events.push(id_name_event("executor:ready ", id, name, " state=Finished"));
            events.push(id_name_event("task:finish ", id, name, ""));
            self.remaining = self.remaining.wrapping_sub(1);
        } else {
            events.push(id_name_event("executor:pending ", id, name, " state=Suspended"));
        }
        events
    }

    /// The event that ends a run.
    pub fn run_end(&self) -> (event: String)
        ensures
            event@ == "executor:run end; all tasks completed"@,
    {
        String::from_str("executor:run end; all tasks completed")
    }
}

/// The event of a waker putting its task back on the queue.
pub fn schedule_event(id: usize, name: &str, reason: &str) -> (event: String)
    ensures
        event@ == id_name_text("waker:schedule "@, id as nat, name@, " reason="@ + reason@ + " executor_state=Ready"@),
{
    let mut tail = String::from_str(" reason=");
    tail.append(reason);
    tail.append(" executor_state=Ready");
    proof {
        assert(tail@ =~= " reason="@ + reason@ + " executor_state=Ready"@);
    }
    id_name_event("waker:schedule ", id, name, tail.as_str())
}

/// The event of a wake that finds the executor gone.
pub fn drop_event(id: usize, name: &str) -> (event: String)
    ensures
        event@ == id_name_text("waker:drop "@, id as nat, name@, " reason=executor-closed"@),
{
    id_name_event("waker:drop ", id, name, " reason=executor-closed")
}

/// A timer future: ready once its timer has fired.
pub struct Delay {
    pub task: String,
    pub step: usize,
    pub millis: u64,
    pub started: bool,
}

/// What one poll of a timer future decides.
#[derive(Debug, Clone, Copy, PartialEq, Eq, Structural)]
pub enum DelayPoll {
    /// The timer fired: the future is ready.
    Ready,
    /// First poll: start the timer, and wait.
    Register,
    /// The timer runs: keep the newest waker, and wait.
    Wait,
}

/// The decision of one poll of a timer future, given whether its timer has
/// started and whether it has fired.
pub open spec fn delay_decision(started: bool, completed: bool) -> DelayPoll {
    if completed {
        DelayPoll::Ready
    } else if !started {
        DelayPoll::Register
    } else {
        DelayPoll::Wait
    }
}

/// The decisions of successive polls of a timer future whose timer had
/// started (`started`) before the first of them; `fired[i]` tells whether
/// the timer had fired before poll `i`.
pub open spec fn delay_run(started: bool, fired: Seq<bool>) -> Seq<DelayPoll>
    decreases fired.len(),
{
    if fired.len() == 0 {
        Seq::empty()
    } else {
        seq![delay_decision(started, fired[0])] + delay_run(started || !fired[0], fired.drop_first())
    }
}

proof fn lemma_delay_run(started: bool, fired: Seq<bool>)
    ensures
        delay_run(started, fired).len() == fired.len(),
        forall|i: int| 0 <= i < fired.len() ==> (#[trigger] delay_run(started, fired)[i] == DelayPoll::Ready
            <==> fired[i]),
        started ==> forall|i: int| 0 <= i < fired.len() ==> #[trigger] delay_run(started, fired)[i]
            != DelayPoll::Register,
        forall|i: int, j: int|
            0 <= i < j < fired.len() && #[trigger] delay_run(started, fired)[i] == DelayPoll::Register
                ==> #[trigger] delay_run(started, fired)[j] != DelayPoll::Register,
    decreases fired.len(),
{
    if fired.len() > 0 {
        let rest = fired.drop_first();
        let next = started || !fired[0];
        lemma_delay_run(next, rest);
        let r = delay_run(started, fired);
        assert forall|i: int| 0 < i < fired.len() implies r[i] == delay_run(next, rest)[i - 1] && fired[i]
            == rest[i - 1] by {}
        assert forall|i: int, j: int|
            0 <= i < j < fired.len() && #[trigger] r[i] == DelayPoll::Register implies #[trigger] r[j]
            != DelayPoll::Register by {
            if i == 0 {
                assert(next);
                assert(r[j] == delay_run(next, rest)[j - 1]);
            } else {
                assert(r[i] == delay_run(next, rest)[i - 1]);
                assert(r[j] == delay_run(next, rest)[j - 1]);
            }
        }
    }
}

/// Law of the timer future over its polls from creation: a poll is ready
/// exactly when the timer fired before it; the timer is registered at most
/// once, and at the first poll when the timer has not fired by then (as it
/// cannot, not being started), so even a zero-length delay is pending at its
/// first poll: whenever the timer fires only after its registration, the
/// first poll registers it; later polls only keep the newest waker.
pub proof fn law_delay_registers_once(fired: Seq<bool>)
    ensures
        delay_run(false, fired).len() == fired.len(),
        forall|i: int| 0 <= i < fired.len() ==> (#[trigger] delay_run(false, fired)[i] == DelayPoll::Ready
            <==> fired[i]),
        forall|i: int, j: int|
            0 <= i < j < fired.len() && #[trigger] delay_run(false, fired)[i] == DelayPoll::Register
                ==> #[trigger] delay_run(false, fired)[j] != DelayPoll::Register,
        fired.len() > 0 && !fired[0] ==> delay_run(false, fired)[0] == DelayPoll::Register,
        (forall|i: int|
            0 <= i < fired.len() && #[trigger] fired[i] ==> exists|j: int|
                0 <= j < i && #[trigger] delay_run(false, fired)[j] == DelayPoll::Register) ==> (fired.len()
            > 0 ==> delay_run(false, fired)[0] == DelayPoll::Register),
{
    lemma_delay_run(false, fired);
}

pub open spec fn delay_text(head: Seq<char>, task: Seq<char>, step: nat, tail: Seq<char>) -> Seq<char> {
    task_step_text(head, task, "step"@, step, tail)
}

impl Delay {
    /// A timer future of `millis` milliseconds, not started, and its
    /// creation event.
    pub fn new(task: &str, step: usize, millis: u64) -> (r: (Self, String))
        ensures
            r.0.task@ == task@,
            r.0.step == step,
            r.0.millis == millis,
            !r.0.started,
            r.1@ == delay_text("future:create "@, task@, step as nat, " kind=Delay duration_ms="@
                + crate::text::decimal(millis as nat)),
    {
        let mut tail = String::from_str(" kind=Delay duration_ms=");
        crate::text::push_decimal(&mut tail, millis as u128);
        let event = task_step_event("future:create ", task, "step", step, tail.as_str());
        (Delay { task: String::from_str(task), step, millis, started: false }, event)
    }

    /// How long the timer runs.
    pub fn duration(&self) -> (d: Duration)
        ensures
            d == duration_from_millis(self.millis),
    {
        millis_to_duration(self.millis)
    }

    /// One poll, given whether the timer has fired. Returns the decision and
    /// the events, in order: the poll, then the ready event; or the timer's
    /// registration or the waker update, then the pending event.
    pub fn poll_step(&mut self, completed: bool) -> (r: (DelayPoll, Vec<String>))
        ensures
            final(self).task == old(self).task,
            final(self).step == old(self).step,
            final(self).millis == old(self).millis,
            final(self).started == (old(self).started || !completed),
            r.0 == delay_decision(old(self).started, completed),
            r.1@[0]@ == delay_text("future:poll "@, old(self).task@, old(self).step as nat, " kind=Delay"@),
            completed ==> r.1@.len() == 2 && r.1@[1]@ == delay_text(
                "future:ready "@,
                old(self).task@,
                old(self).step as nat,
                " kind=Delay"@,
            ),
            !completed ==> r.1@.len() == 3 && r.1@[2]@ == delay_text(
                "future:pending "@,
                old(self).task@,
                old(self).step as nat,
                " kind=Delay"@,
            ),
            !completed && !old(self).started ==> r.1@[1]@ == delay_text(
                "reactor:register "@,
                old(self).task@,
                old(self).step as nat,
                " source=timer"@,
            ),
            !completed && old(self).started ==> r.1@[1]@ == delay_text(
                "future:update-waker "@,
                old(self).task@,
                old(self).step as nat,
                ""@,
            ),
    {
        let mut events: Vec<String> = Vec::new();
        events.push(task_step_event("future:poll ", self.task.as_str(), "step", self.step, " kind=Delay"));
        if completed {
            events.push(task_step_event("future:ready ", self.task.as_str(), "step", self.step, " kind=Delay"));
            return (DelayPoll::Ready, events);
        }
        let decision = if !self.started {
            self.started = true;
            events.push(task_step_event("reactor:register ", self.task.as_str(), "step", self.step, " source=timer"));
            DelayPoll::Register
        } else {
            events.push(task_step_event("future:update-waker ", self.task.as_str(), "step", self.step, ""));
            DelayPoll::Wait
        };
        events.push(task_step_event("future:pending ", self.task.as_str(), "step", self.step, " kind=Delay"));
        (decision, events)
    }

    /// The events of the timer firing: its readiness, then the wake when a
    /// waker was waiting.
    pub fn fired_events(&self, has_waker: bool) -> (events: Vec<String>)
        ensures
            events@[0]@ == delay_text("reactor:event-ready "@, self.task@, self.step as nat, " source=timer"@),
            has_waker ==> events@.len() == 2 && events@[1]@ == delay_text(
                "reactor:wake "@,
                self.task@,
                self.step as nat,
                ""@,
            ),
            !has_waker ==> events@.len() == 1,
    {
        let mut events: Vec<String> = Vec::new();
        events.push(task_step_event("reactor:event-ready ", self.task.as_str(), "step", self.step, " source=timer"));
        if has_waker {
            events.push(task_step_event("reactor:wake ", self.task.as_str(), "step", self.step, ""));
        }
        events
    }
}


/// What one wake-up of a task does: it skips when the task's future is
/// already gone, or polls it and finds it pending or finished.
#[derive(Debug, Clone, Copy, PartialEq, Eq, Structural)]
pub enum TaskPoll {
    Skip,
    Pending,
    Ready,
}

/// The outcomes of successive wake-ups of a task, which holds its future
/// when `holds`; `ready[i]` tells whether the future would finish if polled
/// at wake-up `i`. A finished future is dropped from the task.
pub open spec fn task_wakes(holds: bool, ready: Seq<bool>) -> Seq<TaskPoll>
    decreases ready.len(),
{
    if ready.len() == 0 {
        Seq::empty()
    } else {
        let o = if !holds {
            TaskPoll::Skip
        } else if ready[0] {
            TaskPoll::Ready
        } else {
            TaskPoll::Pending
        };
        seq![o] + task_wakes(holds && !ready[0], ready.drop_first())
    }
}

/// How many times the executor counts a task off: once per `Ready`.
pub open spec fn finish_count(outs: Seq<TaskPoll>) -> nat
    decreases outs.len(),
{
    if outs.len() == 0 {
        0
    } else {
        (if outs[0] == TaskPoll::Ready { 1nat } else { 0 }) + finish_count(outs.drop_first())
    }
}

proof fn lemma_task_wakes(holds: bool, ready: Seq<bool>)
    ensures
        task_wakes(holds, ready).len() == ready.len(),
        !holds ==> forall|i: int| 0 <= i < ready.len() ==> #[trigger] task_wakes(holds, ready)[i] == TaskPoll::Skip,
        !holds ==> finish_count(task_wakes(holds, ready)) == 0,
        forall|i: int, j: int|
            0 <= i < j < ready.len() && #[trigger] task_wakes(holds, ready)[i] == TaskPoll::Ready
                ==> #[trigger] task_wakes(holds, ready)[j] == TaskPoll::Skip,
        finish_count(task_wakes(holds, ready)) <= 1,
        holds && (exists|i: int| 0 <= i < ready.len() && #[trigger] ready[i]) ==> finish_count(
            task_wakes(holds, ready),
        ) == 1,
    decreases ready.len(),
{
    if ready.len() > 0 {
        let rest = ready.drop_first();
        let next = holds && !ready[0];
        lemma_task_wakes(next, rest);
        let w = task_wakes(holds, ready);
        assert(w.drop_first() =~= task_wakes(next, rest));
        assert forall|i: int| 0 < i < ready.len() implies w[i] == task_wakes(next, rest)[i - 1] by {}
        assert forall|i: int, j: int|
            0 <= i < j < ready.len() && #[trigger] w[i] == TaskPoll::Ready implies #[trigger] w[j]
            == TaskPoll::Skip by {
            assert(w[j] == task_wakes(next, rest)[j - 1]);
            if i > 0 {
                assert(w[i] == task_wakes(next, rest)[i - 1]);
            }
        }
        if holds && (exists|i: int| 0 <= i < ready.len() && #[trigger] ready[i]) && !ready[0] {
            let i = choose|i: int| 0 <= i < ready.len() && #[trigger] ready[i];
            assert(rest[i - 1] == ready[i]);
        }
    }
}

/// Law of a task's wake-ups: however often a task is woken, late or twice,
/// its future is polled only while the task holds it; once a poll finds it
/// finished, every later wake-up is skipped as stale; and the executor
/// counts the task off exactly once when its future finishes, never when it
/// does not.
pub proof fn law_task_finishes_once(ready: Seq<bool>)
    ensures
        forall|i: int, j: int|
            0 <= i < j < ready.len() && #[trigger] task_wakes(true, ready)[i] == TaskPoll::Ready
                ==> #[trigger] task_wakes(true, ready)[j] == TaskPoll::Skip,
        finish_count(task_wakes(true, ready)) <= 1,
        (exists|i: int| 0 <= i < ready.len() && #[trigger] ready[i]) ==> finish_count(task_wakes(true, ready)) == 1,
        (forall|i: int| 0 <= i < ready.len() ==> !(#[trigger] ready[i])) ==> finish_count(task_wakes(true, ready))
            == 0,
{
    lemma_task_wakes(true, ready);
    if forall|i: int| 0 <= i < ready.len() ==> !(#[trigger] ready[i]) {
        lemma_no_finish(true, ready);
    }
}

proof fn lemma_no_finish(holds: bool, ready: Seq<bool>)
    requires
        forall|i: int| 0 <= i < ready.len() ==> !(#[trigger] ready[i]),
    ensures
        finish_count(task_wakes(holds, ready)) == 0,
    decreases ready.len(),
{
    if ready.len() > 0 {
        let rest = ready.drop_first();
        assert forall|i: int| 0 <= i < rest.len() implies !(#[trigger] rest[i]) by {
            assert(rest[i] == ready[i + 1]);
        }
        lemma_no_finish(holds && !ready[0], rest);
        assert(task_wakes(holds, ready).drop_first() =~= task_wakes(holds && !ready[0], rest));
    }
}

} // verus!
