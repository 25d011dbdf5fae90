//! A stackless coroutine executor: a first-in first-out queue of suspended
//! coroutines, each polled in turn and put back at the end while it is not
//! finished, and the trace it writes.
//!
//! The executor holds each coroutine's future as an opaque value `T`; the
//! caller polls it between `next` and `after_poll`.

use vstd::prelude::*;
use crate::tracing::{format_trace_line, name_event, name_text, trace_line};

verus! {

/// The trace of the stackless demo: numbered lines.
pub struct TraceLog {
    tick: usize,
}

impl TraceLog {
    /// Number of lines recorded so far.
    pub closed spec fn ticks(&self) -> nat {
        self.tick as nat
    }

    pub fn new() -> (t: Self)
        ensures
            t.ticks() == 0,
    {
        TraceLog { tick: 0 }
    }

    /// The line for `message`, numbered with the current tick, which then
    /// advances.
    pub fn record(&mut self, message: &str) -> (line: String)
        requires
            old(self).ticks() < usize::MAX,
        ensures
            line@ == trace_line("stackless-trace"@, old(self).ticks(), message@),
            final(self).ticks() == old(self).ticks() + 1,
    {
        let line = format_trace_line("stackless-trace", self.tick, message);
        self.tick = self.tick + 1;
        line
    }
}

/// A named coroutine and its suspended computation.
pub struct Coroutine<T> {
    pub name: String,
    pub future: T,
}

/// The coroutines waiting to be polled, first in first out.
pub struct Executor<T> {
    queue: std::collections::VecDeque<Coroutine<T>>,
}

/// The text of each executor event.
pub open spec fn create_text(name: Seq<char>) -> Seq<char> {
    name_text("coroutine:create "@, name, " state=Created storage=heap-pinned-future"@)
}

pub open spec fn poll_text(name: Seq<char>) -> Seq<char> {
    name_text("coroutine:poll "@, name, " state=Running"@)
}

pub open spec fn pending_text(name: Seq<char>) -> Seq<char> {
    name_text("coroutine:pending "@, name, " state=Suspended action=requeue"@)
}

pub open spec fn finish_text(name: Seq<char>) -> Seq<char> {
    name_text("coroutine:finish "@, name, " state=Finished"@)
}

impl<T> Executor<T> {
    /// The queued coroutines, front first.
    pub closed spec fn queue(&self) -> Seq<Coroutine<T>> {
        self.queue@
    }

    pub fn new() -> (e: Self)
        ensures
            e.queue().len() == 0,
    {
        Executor { queue: std::collections::VecDeque::new() }
    }

    /// Queues a new coroutine at the back.
    pub fn spawn(&mut self, name: &str, future: T) -> (event: String)
        ensures
            final(self).queue().len() == old(self).queue().len() + 1,
            final(self).queue().drop_last() == old(self).queue(),
            final(self).queue().last().name@ == name@,
            final(self).queue().last().future == future,
            event@ == create_text(name@),
    {
        let event = name_event("coroutine:create ", name, " state=Created storage=heap-pinned-future");
        self.queue.push_back(Coroutine { name: String::from_str(name), future });
        proof {
            assert(self.queue@.drop_last() =~= old(self).queue@);
        }
        event
    }

    /// The event that starts a run.
    pub fn run_begin(&self) -> (event: String)
        ensures
            event@ == "runtime:run begin executor=std-only-stackless"@,
    {
        String::from_str("runtime:run begin executor=std-only-stackless")
    }

    /// Takes the coroutine at the front to poll it; `None` once the queue is
    /// empty, which ends the run.
    pub fn next(&mut self) -> (r: Option<(Coroutine<T>, String)>)
        ensures
            match r {
                Some((c, event)) => {
                    &&& old(self).queue().len() > 0
                    &&& c == old(self).queue()[0]
                    &&& final(self).queue() == old(self).queue().drop_first()
                    &&& event@ == poll_text(c.name@)
                },
                None => old(self).queue().len() == 0 && final(self).queue() == old(self).queue(),
            },
    {
        match self.queue.pop_front() {
            Some(c) => {
                let event = name_event("coroutine:poll ", c.name.as_str(), " state=Running");
                proof {
                    assert(self.queue@ =~= old(self).queue@.drop_first());
                }
                Some((c, event))
            },
            None => None,
        }
    }

    /// After a poll: a coroutine that is not finished goes back to the end of
    /// the queue; a finished one is dropped.
    pub fn after_poll(&mut self, coroutine: Coroutine<T>, finished: bool) -> (event: String)
        ensures
            finished ==> final(self).queue() == old(self).queue(),
            finished ==> event@ == finish_text(coroutine.name@),
            !finished ==> final(self).queue() == old(self).queue().push(coroutine),
            !finished ==> event@ == pending_text(coroutine.name@),
    {
        if finished {
            name_event("coroutine:finish ", coroutine.name.as_str(), " state=Finished")
        } else {
            let event = name_event("coroutine:pending ", coroutine.name.as_str(), " state=Suspended action=requeue");
            self.queue.push_back(coroutine);
            event
        }
    }

    /// The event that ends a run.
    pub fn run_end(&self) -> (event: String)
        ensures
            event@ == "runtime:run end; all coroutines finished"@,
    {
        String::from_str("runtime:run end; all coroutines finished")
    }
}

/// A future that is pending at its first poll and ready at the next.
pub struct YieldNow {
    pub yielded: bool,
}

/// A future that yields once to the executor.
pub fn yield_now() -> (y: YieldNow)
    ensures
        !y.yielded,
{
    YieldNow { yielded: false }
}

impl YieldNow {
    /// One poll: ready when it has already yielded; else it yields, and the
    /// caller wakes its task.
    pub fn poll_step(&mut self) -> (ready: bool)
        ensures
            ready == old(self).yielded,
            final(self).yielded,
    {
        if self.yielded {
            true
        } else {
            self.yielded = true;
            false
        }
    }
}

} // verus!
