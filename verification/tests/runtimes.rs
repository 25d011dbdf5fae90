use arceos_async_lab::futures_runtime::{self, new_runtime, Delay, DelayPoll};
use arceos_async_lab::stackless::{self, yield_now, Executor};
use arceos_async_lab::tokio_trace::{self, YieldOnce};
use std::time::Duration;

#[test]
fn trace_lines_are_numbered_from_zero() {
    let mut t = stackless::TraceLog::new();
    assert_eq!(t.record("a"), "[stackless-trace #000] a");
    assert_eq!(t.record("b"), "[stackless-trace #001] b");
    let mut f = futures_runtime::TraceLog::new();
    assert_eq!(f.record("x"), "[futures-200-trace #000] x");
    let mut k = tokio_trace::TraceLog::new();
    assert_eq!(k.record("y"), "[tokio-trace #000] y");
    assert_eq!(k.record("z"), "[tokio-trace #001] z");
}

#[test]
fn stackless_executor_polls_round_robin() {
    let mut e: Executor<u32> = Executor::new();
    assert_eq!(e.spawn("alpha", 1), "coroutine:create name=alpha state=Created storage=heap-pinned-future");
    e.spawn("beta", 2);
    let (c, event) = e.next().unwrap();
    assert_eq!(c.name, "alpha");
    assert_eq!(event, "coroutine:poll name=alpha state=Running");
    assert_eq!(e.after_poll(c, false), "coroutine:pending name=alpha state=Suspended action=requeue");
    let (c, _) = e.next().unwrap();
    assert_eq!(c.name, "beta");
    assert_eq!(e.after_poll(c, true), "coroutine:finish name=beta state=Finished");
    let (c, _) = e.next().unwrap();
    assert_eq!(c.future, 1);
    e.after_poll(c, true);
    assert!(e.next().is_none());
}

#[test]
fn yield_now_is_pending_once() {
    let mut y = yield_now();
    assert!(!y.poll_step());
    assert!(y.poll_step());
}

#[test]
fn runtime_counts_unfinished_tasks() {
    let (mut spawner, mut executor) = new_runtime();
    assert!(!executor.has_work());
    let (id, event) = spawner.spawn(&mut executor, "alpha");
    assert_eq!(id, 0);
    assert_eq!(event, "task:spawn id=0 name=alpha state=Ready storage=Future");
    let (id2, _) = spawner.spawn(&mut executor, "beta");
    assert_eq!(id2, 1);
    assert!(executor.has_work());
    assert_eq!(executor.poll_begin(0, "alpha"), "executor:poll id=0 name=alpha state=Running");
    assert_eq!(executor.after_poll(0, "alpha", false), vec!["executor:pending id=0 name=alpha state=Suspended"]);
    assert_eq!(
        executor.after_poll(0, "alpha", true),
        vec!["executor:ready id=0 name=alpha state=Finished", "task:finish id=0 name=alpha"]
    );
    executor.after_poll(1, "beta", true);
    assert!(!executor.has_work());
    assert_eq!(executor.stale_wake(1, "beta"), "executor:skip id=1 name=beta reason=stale-wake");
    assert_eq!(
        futures_runtime::schedule_event(1, "beta", "wake"),
        "waker:schedule id=1 name=beta reason=wake executor_state=Ready"
    );
}

#[test]
fn delay_registers_once_then_waits_then_is_ready() {
    let (mut d, event) = Delay::new("alpha", 0, 12);
    assert_eq!(event, "future:create task=alpha step=0 kind=Delay duration_ms=12");
    assert_eq!(d.duration(), Duration::from_millis(12));
    let (p, events) = d.poll_step(false);
    assert_eq!(p, DelayPoll::Register);
    assert_eq!(events[1], "reactor:register task=alpha step=0 source=timer");
    assert_eq!(events[2], "future:pending task=alpha step=0 kind=Delay");
    let (p, events) = d.poll_step(false);
    assert_eq!(p, DelayPoll::Wait);
    assert_eq!(events[1], "future:update-waker task=alpha step=0");
    let (p, events) = d.poll_step(true);
    assert_eq!(p, DelayPoll::Ready);
    assert_eq!(events, vec!["future:poll task=alpha step=0 kind=Delay", "future:ready task=alpha step=0 kind=Delay"]);
    assert_eq!(d.fired_events(true).len(), 2);
}

#[test]
fn yield_once_traces_its_two_polls() {
    let (mut y, event) = YieldOnce::new("beta", 1);
    assert_eq!(event, "future:create task=beta await_point=1 state=Created");
    let (ready, events) = y.poll_step();
    assert!(!ready);
    assert_eq!(events[0], "future:poll task=beta await_point=1 state=Running yielded=false");
    assert_eq!(events[2], "future:wake task=beta await_point=1 executor_state=Ready");
    let (ready, events) = y.poll_step();
    assert!(ready);
    assert_eq!(events[1], "future:ready task=beta await_point=1 state=Ready");
}

#[test]
fn delay_registers_only_at_the_first_unfired_poll() {
    let (mut d, _) = Delay::new("z", 0, 0);
    let (p, _) = d.poll_step(false);
    assert_eq!(p, DelayPoll::Register);
    for _ in 0..3 {
        assert_eq!(d.poll_step(false).0, DelayPoll::Wait);
    }
    assert_eq!(d.poll_step(true).0, DelayPoll::Ready);
}

#[test]
fn a_finished_task_is_counted_off_once() {
    let (mut spawner, mut executor) = new_runtime();
    spawner.spawn(&mut executor, "t");
    executor.after_poll(0, "t", false);
    assert!(executor.has_work());
    executor.after_poll(0, "t", true);
    assert!(!executor.has_work());
    assert_eq!(executor.stale_wake(0, "t"), "executor:skip id=0 name=t reason=stale-wake");
    assert!(!executor.has_work());
}
