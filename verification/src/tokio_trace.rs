//! The traced future of the async-runtime demo: a future that is pending
//! once and then ready, the events of its polls, and the trace numbering.

use vstd::prelude::*;
use crate::tracing::{format_trace_line, task_step_event, task_step_text, trace_line};
use crate::crawl::schools::strings_view;
use crate::text::decimal;

verus! {

/// The trace of the async-runtime demo: numbered lines. The counter wraps
/// at the end of `usize`, as an atomic counter does.
pub struct TraceLog {
    tick: usize,
}

impl TraceLog {
    /// The number of the next line.
    pub closed spec fn ticks(&self) -> nat {
        self.tick as nat
    }

    pub fn new() -> (t: Self)
        ensures
            t.ticks() == 0,
    {
        TraceLog { tick: 0 }
    }

    /// The line for `message`, numbered with the current tick, which then
    /// advances.
    pub fn record(&mut self, message: &str) -> (line: String)
        ensures
            line@ == trace_line("tokio-trace"@, old(self).ticks(), message@),
            final(self).ticks() == (if old(self).ticks() == usize::MAX {
                0
            } else {
                old(self).ticks() + 1
            }),
    {
        let line = format_trace_line("tokio-trace", self.tick, message);
        self.tick = self.tick.wrapping_add(1);
        line
    }
}

/// A future that is pending at its first poll and ready at the next.
pub struct YieldOnce {
    pub task: String,
    pub point: usize,
    pub yielded: bool,
}

pub open spec fn point_text(head: Seq<char>, task: Seq<char>, point: nat, tail: Seq<char>) -> Seq<char> {
    task_step_text(head, task, "await_point"@, point, tail)
}

/// `true` or `false`, as `Display` writes a `bool`.
pub open spec fn bool_word(b: bool) -> Seq<char> {
    if b {
        "true"@
    } else {
        "false"@
    }
}

/// One poll of a `YieldOnce` that has (`yielded`) or has not yet yielded:
/// whether it is ready, and the events it traces, in order.
pub open spec fn yield_once_step(task: Seq<char>, point: nat, yielded: bool) -> (bool, Seq<Seq<char>>) {
    let poll = point_text("future:poll "@, task, point, " state=Running yielded="@ + bool_word(yielded));
    if yielded {
        (true, seq![poll, point_text("future:ready "@, task, point, " state=Ready"@)])
    } else {
        (
            false,
            seq![
                poll,
                point_text("future:pending "@, task, point, " state=Pending"@),
                point_text("future:wake "@, task, point, " executor_state=Ready"@),
            ],
        )
    }
}

/// Two-poll law: a new `YieldOnce` (not yet yielded) is pending at its first
/// poll, which traces the poll, the pending state and the wake of its task,
/// in that order; the poll leaves it yielded, so the second poll is ready,
/// tracing only the poll and the ready state, with no wake.
pub proof fn law_yield_once_two_polls(task: Seq<char>, point: nat)
    ensures
        yield_once_step(task, point, false) == (
            false,
            seq![
                "future:poll task="@ + task + " await_point="@ + decimal(point) + " state=Running yielded=false"@,
                "future:pending task="@ + task + " await_point="@ + decimal(point) + " state=Pending"@,
                "future:wake task="@ + task + " await_point="@ + decimal(point) + " executor_state=Ready"@,
            ],
        ),
        yield_once_step(task, point, true) == (
            true,
            seq![
                "future:poll task="@ + task + " await_point="@ + decimal(point) + " state=Running yielded=true"@,
                "future:ready task="@ + task + " await_point="@ + decimal(point) + " state=Ready"@,
            ],
        ),
{
    reveal_strlit("future:poll ");
    reveal_strlit("future:pending ");
    reveal_strlit("future:wake ");
    reveal_strlit("future:ready ");
    reveal_strlit("task=");
    reveal_strlit(" ");
    reveal_strlit("=");
    reveal_strlit("await_point");
    reveal_strlit(" await_point=");
    reveal_strlit(" state=Running yielded=");
    reveal_strlit(" state=Running yielded=false");
    reveal_strlit(" state=Running yielded=true");
    reveal_strlit("true");
    reveal_strlit("false");
    reveal_strlit("future:poll task=");
    reveal_strlit("future:pending task=");
    reveal_strlit("future:wake task=");
    reveal_strlit("future:ready task=");
    let d = decimal(point);
    let a = yield_once_step(task, point, false).1;
    let b = yield_once_step(task, point, true).1;
    assert(a[0] =~= "future:poll task="@ + task + " await_point="@ + d + " state=Running yielded=false"@);
    assert(a[1] =~= "future:pending task="@ + task + " await_point="@ + d + " state=Pending"@);
    assert(a[2] =~= "future:wake task="@ + task + " await_point="@ + d + " executor_state=Ready"@);
    assert(b[0] =~= "future:poll task="@ + task + " await_point="@ + d + " state=Running yielded=true"@);
    assert(b[1] =~= "future:ready task="@ + task + " await_point="@ + d + " state=Ready"@);
    assert(a =~= seq![a[0], a[1], a[2]]);
    assert(b =~= seq![b[0], b[1]]);
}

impl YieldOnce {
    /// The future at await point `point` of `task`, and its creation event.
    pub fn new(task: &str, point: usize) -> (r: (Self, String))
        ensures
            r.0.task@ == task@,
            r.0.point == point,
            !r.0.yielded,
            r.1@ == point_text("future:create "@, task@, point as nat, " state=Created"@),
    {
        let event = task_step_event("future:create ", task, "await_point", point, " state=Created");
        (YieldOnce { task: String::from_str(task), point, yielded: false }, event)
    }

    /// One poll. Ready when it has already yielded; else it yields, and the
    /// caller wakes its task between the pending and the wake events.
    /// Returns whether it is ready and the events, in order.
    pub fn poll_step(&mut self) -> (r: (bool, Vec<String>))
        ensures
            final(self).yielded,
            final(self).task == old(self).task,
            final(self).point == old(self).point,
            (r.0, strings_view(r.1@)) == yield_once_step(old(self).task@, old(self).point as nat, old(self).yielded),
    {
        let tail = if self.yielded {
            " state=Running yielded=true"
        } else {
            " state=Running yielded=false"
        };
        proof {
            reveal_strlit(" state=Running yielded=true");
            reveal_strlit(" state=Running yielded=false");
            reveal_strlit(" state=Running yielded=");
            reveal_strlit("true");
            reveal_strlit("false");
            assert(tail@ =~= " state=Running yielded="@ + bool_word(self.yielded));
        }
        let mut events: Vec<String> = Vec::new();
        events.push(task_step_event("future:poll ", self.task.as_str(), "await_point", self.point, tail));
        if self.yielded {
            events.push(task_step_event("future:ready ", self.task.as_str(), "await_point", self.point, " state=Ready"));
            proof {
                assert(strings_view(events@) =~= yield_once_step(self.task@, self.point as nat, true).1);
            }
            (true, events)
        } else {
            self.yielded = true;
            events.push(task_step_event("future:pending ", self.task.as_str(), "await_point", self.point, " state=Pending"));
            events.push(task_step_event("future:wake ", self.task.as_str(), "await_point", self.point, " executor_state=Ready"));
            proof {
                assert(strings_view(events@) =~= yield_once_step(self.task@, self.point as nat, false).1);
            }
            (false, events)
        }
    }
}

} // verus!
