//! Scheduling core of the stackful green-thread runtime: thread table,
//! priority round-robin selection, state transitions and the trace they
//! produce. The context switch itself is performed by the caller, which
//! follows the `SwitchAction` that each decision returns.

use vstd::prelude::*;
use crate::text::{decimal, zero_padded, push_decimal, push_zero_padded};

verus! {

/// Bytes of user stack given to each green thread.
pub const STACK_SIZE: usize = 64 * 1024;

#[derive(Clone, Copy, Debug, PartialEq, Eq, Structural)]
pub enum FlowState {
    Ready,
    Running,
    Finished,
}

/// How `FlowState` is written in the trace.
pub open spec fn state_name(s: FlowState) -> Seq<char> {
    match s {
        FlowState::Ready => "Ready"@,
        FlowState::Running => "Running"@,
        FlowState::Finished => "Finished"@,
    }
}

fn state_str(s: FlowState) -> (r: &'static str)
    ensures
        r@ == state_name(s),
{
    match s {
        FlowState::Ready => "Ready",
        FlowState::Running => "Running",
        FlowState::Finished => "Finished",
    }
}

/// The callee-saved registers of a suspended execution flow, in the order
/// the context switch saves them.
#[derive(Debug, Clone, Copy)]
pub struct Context {
    pub rsp: usize,
    pub r15: usize,
    pub r14: usize,
    pub r13: usize,
    pub r12: usize,
    pub rbx: usize,
    pub rbp: usize,
}

impl Context {
    /// A context that resumes with stack pointer `rsp` and every other
    /// register 0.
    pub fn with_rsp(rsp: usize) -> (c: Self)
        ensures
            c.rsp == rsp,
            c.r15 == 0,
            c.r14 == 0,
            c.r13 == 0,
            c.r12 == 0,
            c.rbx == 0,
            c.rbp == 0,
    {
        Context { rsp, r15: 0, r14: 0, r13: 0, r12: 0, rbx: 0, rbp: 0 }
    }
}

/// The first stack pointer of a thread whose stack ends at `stack_top`: the
/// end rounded down to a multiple of 16, less the 16 bytes that hold the
/// bootstrap return address.
pub fn initial_rsp(stack_top: usize) -> (rsp: usize)
    requires
        stack_top >= 16,
    ensures
        rsp == (stack_top - stack_top % 16) - 16,
        rsp % 16 == 0,
        rsp + 16 <= stack_top,
{
    let aligned = stack_top & !0xfusize;
    assert(aligned == stack_top - stack_top % 16) by (bit_vector)
        requires
            aligned == stack_top & !0xfusize,
    ;
    aligned - 16
}

/// One green thread as the scheduler sees it. `entry` is the code it runs,
/// handed to the caller when the thread first starts.
pub struct GreenThread<E> {
    pub id: usize,
    pub name: String,
    pub priority: usize,
    pub state: FlowState,
    pub entry: Option<E>,
}

/// What the caller must do after a scheduling decision.
#[derive(Clone, Copy, Debug, PartialEq, Eq, Structural)]
pub enum SwitchAction {
    /// Keep running where we are.
    Stay,
    /// Switch from the main context to thread `to`.
    FromMain { to: usize },
    /// Switch from thread `from` to thread `to`.
    Between { from: usize, to: usize },
    /// Switch from thread `from` back to the main context.
    ToMain { from: usize },
}

pub struct Runtime<E> {
    pub threads: Vec<GreenThread<E>>,
    pub current: Option<usize>,
    pub tick: usize,
    pub lines: Vec<String>,
}

/// A trace line: `[trace #NNN] message`.
pub open spec fn trace_line(tick: int, message: Seq<char>) -> Seq<char> {
    "[trace #"@ + zero_padded(tick as nat, 3) + "] "@ + message
}

/// Thread `id` may be chosen: it is in the table, not excluded, and Ready.
pub open spec fn is_candidate<E>(threads: Seq<GreenThread<E>>, excluded: Option<usize>, id: int) -> bool {
    0 <= id < threads.len() && excluded != Some(id as usize) && threads[id].state == FlowState::Ready
}

/// Where the round-robin scan starts: after the current thread, or at 0.
pub open spec fn scan_start(len: nat, current: Option<usize>) -> int {
    match current {
        Some(c) => (c + 1) % (len as int),
        None => 0,
    }
}

/// Position of thread `id` in the scan that starts at `start`.
pub open spec fn scan_offset(len: nat, start: int, id: int) -> int {
    if id >= start { id - start } else { id + len - start }
}

/// Trace message for a newly created thread.
pub open spec fn create_message(id: nat, name: Seq<char>, priority: nat) -> Seq<char> {
    "task:create id="@ + decimal(id) + " name="@ + name + " priority="@ + decimal(priority)
        + " state="@ + state_name(FlowState::Ready) + " stack="@ + decimal(STACK_SIZE as nat) + "B"@
}

/// Trace message for a state transition of thread `id`.
pub open spec fn transition_message(
    id: nat,
    name: Seq<char>,
    priority: nat,
    from: FlowState,
    to: FlowState,
    reason: Seq<char>,
) -> Seq<char> {
    "state:task:"@ + decimal(id) + " "@ + name + " priority="@ + decimal(priority) + " "@
        + state_name(from) + "->"@ + state_name(to) + " reason="@ + reason
}

/// Rule of `pick_next`: the chosen thread is a candidate of the highest
/// priority among the candidates, and it is the first such thread in the
/// round-robin scan that starts after the current thread; no choice means no
/// candidate.
pub open spec fn picks_from<E>(
    threads: Seq<GreenThread<E>>,
    current: Option<usize>,
    excluded: Option<usize>,
    r: Option<usize>,
) -> bool {
    let len = threads.len();
    let start = scan_start(len, current);
    match r {
        None => forall|j: int| !is_candidate(threads, excluded, j),
        Some(id) => {
            &&& is_candidate(threads, excluded, id as int)
            &&& forall|j: int|
                is_candidate(threads, excluded, j) ==> #[trigger] threads[j].priority
                    <= threads[id as int].priority
            &&& forall|j: int|
                0 <= j < len && scan_offset(len, start, j) < scan_offset(len, start, id as int)
                    && is_candidate(threads, excluded, j) ==> threads[j].priority
                    != threads[id as int].priority
        },
    }
}

/// `threads` with thread `id` moved to state `st`.
pub open spec fn with_state<E>(threads: Seq<GreenThread<E>>, id: int, st: FlowState) -> Seq<GreenThread<E>> {
    threads.update(id, GreenThread { state: st, ..threads[id] })
}

/// Trace message of a switch from the main context to thread `to`.
pub open spec fn switch_from_main_message(to: nat, priority: nat) -> Seq<char> {
    "switch:main -> task:"@ + decimal(to) + " priority="@ + decimal(priority)
}

/// Trace message of a switch between two threads.
pub open spec fn switch_between_message(from: nat, from_priority: nat, to: nat, to_priority: nat) -> Seq<char> {
    "switch:task:"@ + decimal(from) + " priority="@ + decimal(from_priority) + " -> task:"@
        + decimal(to) + " priority="@ + decimal(to_priority)
}

/// Trace message of a switch from a thread back to the main context.
pub open spec fn switch_to_main_message(from: nat, priority: nat) -> Seq<char> {
    "switch:task:"@ + decimal(from) + " priority="@ + decimal(priority) + " -> main"@
}

/// Trace message when a yielding thread is the only ready one.
pub open spec fn keep_running_message(id: nat, priority: nat) -> Seq<char> {
    "scheduler:no other ready task; keep running task:"@ + decimal(id) + " priority="@ + decimal(
        priority,
    )
}

/// The trace lines of a transition of thread `id` to `to`, starting at `tick`.
pub open spec fn transition_line<E>(threads: Seq<GreenThread<E>>, tick: int, id: int, to: FlowState, reason: Seq<char>) -> Seq<char> {
    trace_line(
        tick,
        transition_message(id as nat, threads[id].name@, threads[id].priority as nat, threads[id].state, to, reason),
    )
}

impl<E> Runtime<E> {
    /// The trace lines produced so far and not yet taken.
    pub open spec fn trace(&self) -> Seq<Seq<char>> {
        self.lines@.map_values(|l: String| l@)
    }

    /// Rule of `pick_next` for this runtime.
    pub open spec fn picks(&self, excluded: Option<usize>, r: Option<usize>) -> bool {
        picks_from(self.threads@, self.current, excluded, r)
    }

    pub fn new() -> (r: Self)
        ensures
            r.threads@.len() == 0,
            r.current is None,
            r.tick == 0,
            r.trace() == Seq::<Seq<char>>::empty(),
    {
        let r = Runtime { threads: Vec::new(), current: None, tick: 0, lines: Vec::new() };
        proof {
            assert(r.trace() =~= Seq::<Seq<char>>::empty());
        }
        r
    }

    /// Records `message` as the next trace line.
    fn trace_message(&mut self, message: String)
        requires
            old(self).tick < usize::MAX,
        ensures
            final(self).trace() == old(self).trace().push(trace_line(old(self).tick as int, message@)),
            final(self).tick == old(self).tick + 1,
            final(self).threads == old(self).threads,
            final(self).current == old(self).current,
    {
        let mut line = String::new();
        line.append("[trace #");
        push_zero_padded(&mut line, self.tick as u128, 3);
        line.append("] ");
        line.append(message.as_str());
        self.lines.push(line);
        self.tick = self.tick + 1;
        proof {
            assert(line@ =~= trace_line(old(self).tick as int, message@));
            assert(self.trace() =~= old(self).trace().push(line@));
        }
    }

    /// Hands out the trace lines produced so far.
    pub fn take_trace(&mut self) -> (lines: Vec<String>)
        ensures
            lines@.map_values(|l: String| l@) == old(self).trace(),
            final(self).trace() == Seq::<Seq<char>>::empty(),
            final(self).threads == old(self).threads,
            final(self).current == old(self).current,
            final(self).tick == old(self).tick,
    {
        let mut lines: Vec<String> = Vec::new();
        std::mem::swap(&mut lines, &mut self.lines);
        proof {
            assert(self.trace() =~= Seq::<Seq<char>>::empty());
        }
        lines
    }
}

/// `new` is `old` with a new Ready thread `name` of priority `priority`
/// appended under the next id, its creation traced, the current thread kept.
pub open spec fn spawned<E>(old: Runtime<E>, new: Runtime<E>, name: Seq<char>, priority: usize, entry: E) -> bool {
    &&& new.threads@ == old.threads@.push(
        GreenThread {
            id: old.threads@.len() as usize,
            name: new.threads@.last().name,
            priority,
            state: FlowState::Ready,
            entry: Some(entry),
        },
    )
    &&& new.threads@.last().name@ == name
    &&& new.current == old.current
    &&& new.tick == old.tick + 1
    &&& new.trace() == old.trace().push(
        trace_line(old.tick as int, create_message(old.threads@.len(), name, priority as nat)),
    )
}

/// What the scheduler and the trace see of a thread: everything but the
/// storage of its name.
pub open spec fn thread_view<E>(t: GreenThread<E>) -> (usize, Seq<char>, usize, FlowState, Option<E>) {
    (t.id, t.name@, t.priority, t.state, t.entry)
}

/// `spawn(name, f)` is `spawn_with_priority(name, 0, f)`: from the same
/// runtime both leave the same threads, current thread, tick and trace; the
/// new thread has the next id, priority 0 and state Ready.
pub proof fn law_spawn_is_priority_zero<E>(old: Runtime<E>, a: Runtime<E>, b: Runtime<E>, name: Seq<char>, entry: E)
    requires
        spawned(old, a, name, 0, entry),
        spawned(old, b, name, 0, entry),
    ensures
        a.threads@.map_values(|t: GreenThread<E>| thread_view(t)) == b.threads@.map_values(
            |t: GreenThread<E>| thread_view(t),
        ),
        a.current == b.current,
        a.tick == b.tick,
        a.trace() == b.trace(),
        thread_view(a.threads@.last()) == (old.threads@.len() as usize, name, 0usize, FlowState::Ready, Some(entry)),
{
    assert(a.threads@.map_values(|t: GreenThread<E>| thread_view(t)) =~= b.threads@.map_values(
        |t: GreenThread<E>| thread_view(t),
    )) by {
        assert forall|i: int| 0 <= i < a.threads@.len() implies thread_view(a.threads@[i]) == thread_view(
            b.threads@[i],
        ) by {
            if i < old.threads@.len() {
                assert(a.threads@[i] == old.threads@[i]);
                assert(b.threads@[i] == old.threads@[i]);
            }
        }
    }
}

impl<E> Runtime<E> {
    pub fn spawn(&mut self, name: &str, entry: E)
        requires
            old(self).tick < usize::MAX,
        ensures
            spawned(*old(self), *final(self), name@, 0, entry),
    {
        self.spawn_with_priority(name, 0, entry);
    }

    pub fn spawn_with_priority(&mut self, name: &str, priority: usize, entry: E)
        requires
            old(self).tick < usize::MAX,
        ensures
            spawned(*old(self), *final(self), name@, priority, entry),
    {
        let id = self.threads.len();
        let mut message = String::new();
        message.append("task:create id=");
        push_decimal(&mut message, id as u128);
        message.append(" name=");
        message.append(name);
        message.append(" priority=");
        push_decimal(&mut message, priority as u128);
        message.append(" state=");
        message.append(state_str(FlowState::Ready));
        message.append(" stack=");
        push_decimal(&mut message, STACK_SIZE as u128);
        message.append("B");
        proof {
            assert(message@ =~= create_message(id as nat, name@, priority as nat));
        }
        let thread = GreenThread {
            id,
            name: String::from_str(name),
            priority,
            state: FlowState::Ready,
            entry: Some(entry),
        };
        self.trace_message(message);
        self.threads.push(thread);
    }

    /// Moves thread `id` to state `next`, tracing the change.
    pub fn transition(&mut self, id: usize, next: FlowState, reason: &str)
        requires
            id < old(self).threads@.len(),
            old(self).tick < usize::MAX,
        ensures
            final(self).threads@.len() == old(self).threads@.len(),
            final(self).threads@[id as int].state == next,
            final(self).threads@[id as int].id == old(self).threads@[id as int].id,
            final(self).threads@[id as int].name == old(self).threads@[id as int].name,
            final(self).threads@[id as int].priority == old(self).threads@[id as int].priority,
            final(self).threads@[id as int].entry == old(self).threads@[id as int].entry,
            forall|j: int|
                0 <= j < old(self).threads@.len() && j != id ==> final(self).threads@[j] == old(
                    self,
                ).threads@[j],
            final(self).current == old(self).current,
            final(self).tick == old(self).tick + 1,
            final(self).trace() == old(self).trace().push(
                trace_line(
                    old(self).tick as int,
                    transition_message(
                        id as nat,
                        old(self).threads@[id as int].name@,
                        old(self).threads@[id as int].priority as nat,
                        old(self).threads@[id as int].state,
                        next,
                        reason@,
                    ),
                ),
            ),
    {
        let old_state = self.threads[id].state;
        let mut message = String::new();
        message.append("state:task:");
        push_decimal(&mut message, id as u128);
        message.append(" ");
        message.append(self.threads[id].name.as_str());
        message.append(" priority=");
        push_decimal(&mut message, self.threads[id].priority as u128);
        message.append(" ");
        message.append(state_str(old_state));
        message.append("->");
        message.append(state_str(next));
        message.append(" reason=");
        message.append(reason);
        proof {
            assert(message@ =~= transition_message(
                id as nat,
                old(self).threads@[id as int].name@,
                old(self).threads@[id as int].priority as nat,
                old_state,
                next,
                reason@,
            ));
        }
        self.threads[id].state = next;
        self.trace_message(message);
    }
}

fn not_excluded(excluded: Option<usize>, id: usize) -> (r: bool)
    ensures
        r == (excluded != Some(id)),
{
    match excluded {
        Some(x) => x != id,
        None => true,
    }
}

impl<E> Runtime<E> {
    /// Picks the next thread to run: the highest priority among the Ready
    /// threads other than `excluded`, ties broken round-robin starting after
    /// the current thread.
    pub fn pick_next(&self, excluded: Option<usize>) -> (r: Option<usize>)
        ensures
            self.picks(excluded, r),
    {
        let len = self.threads.len();
        if len == 0 {
            return None;
        }
        let ghost threads = self.threads@;
        let mut best: Option<usize> = None;
        let mut i: usize = 0;
        while i < len
            invariant
                len == threads.len(),
                threads == self.threads@,
                i <= len,
                match best {
                    None => forall|j: int| 0 <= j < i ==> !is_candidate(threads, excluded, j),
                    Some(b) => (exists|j: int|
                        0 <= j < i && is_candidate(threads, excluded, j) && threads[j].priority
                            == b) && forall|j: int|
                        0 <= j < i && is_candidate(threads, excluded, j) ==> #[trigger] threads[j].priority
                            <= b,
                },
            decreases len - i,
        {
            let candidate = not_excluded(excluded, i) && self.threads[i].state == FlowState::Ready;
            proof {
                assert(candidate == is_candidate(threads, excluded, i as int));
            }
            if candidate {
                let p = self.threads[i].priority;
                best = match best {
                    Some(b) => if p > b { Some(p) } else { Some(b) },
                    None => Some(p),
                };
            }
            i = i + 1;
        }
        let best_priority = match best {
            None => {
                return None;
            },
            Some(b) => b,
        };
        let start = match self.current {
            Some(c) => {
                proof {
                    assert((c % len + 1) % (len as int) == (c + 1) % (len as int)) by (nonlinear_arith)
                        requires
                            len > 0,
                    {
                        vstd::arithmetic::div_mod::lemma_add_mod_noop(c as int, 1, len as int);
                        vstd::arithmetic::div_mod::lemma_mod_twice(1, len as int);
                    }
                }
                (c % len + 1) % len
            },
            None => 0,
        };
        proof {
            assert(start == scan_start(len as nat, self.current));
        }
        let mut offset: usize = 0;
        while offset < len
            invariant
                len == threads.len(),
                threads == self.threads@,
                start < len,
                start == scan_start(len as nat, self.current),
                offset <= len,
                exists|j: int|
                    0 <= j < len && is_candidate(threads, excluded, j) && threads[j].priority
                        == best_priority,
                forall|j: int|
                    0 <= j < len && is_candidate(threads, excluded, j) ==> #[trigger] threads[j].priority
                        <= best_priority,
                forall|j: int|
                    0 <= j < len && scan_offset(len as nat, start as int, j) < offset
                        && is_candidate(threads, excluded, j) ==> threads[j].priority
                        != best_priority,
            decreases len - offset,
        {
            let id = if offset < len - start {
                start + offset
            } else {
                offset - (len - start)
            };
            proof {
                assert(scan_offset(len as nat, start as int, id as int) == offset);
            }
            if not_excluded(excluded, id) && self.threads[id].state == FlowState::Ready
                && self.threads[id].priority == best_priority {
                return Some(id);
            }
            offset = offset + 1;
        }
        proof {
            let j = choose|j: int|
                0 <= j < len && is_candidate(threads, excluded, j) && threads[j].priority
                    == best_priority;
            assert(scan_offset(len as nat, start as int, j) < len);
        }
        None
    }
}

impl<E> Runtime<E> {
    /// Dispatches thread `next` from the main context.
    fn switch_from_main_to(&mut self, next: usize)
        requires
            next < old(self).threads@.len(),
            old(self).tick + 2 <= usize::MAX,
        ensures
            final(self).threads@ == with_state(old(self).threads@, next as int, FlowState::Running),
            final(self).current == Some(next),
            final(self).tick == old(self).tick + 2,
            final(self).trace() == old(self).trace().push(
                transition_line(old(self).threads@, old(self).tick as int, next as int, FlowState::Running, "dispatch"@),
            ).push(
                trace_line(
                    old(self).tick + 1,
                    switch_from_main_message(next as nat, old(self).threads@[next as int].priority as nat),
                ),
            ),
    {
        self.transition(next, FlowState::Running, "dispatch");
        self.current = Some(next);
        let mut message = String::new();
        message.append("switch:main -> task:");
        push_decimal(&mut message, next as u128);
        message.append(" priority=");
        push_decimal(&mut message, self.threads[next].priority as u128);
        proof {
            assert(message@ =~= switch_from_main_message(next as nat, old(self).threads@[next as int].priority as nat));
        }
        self.trace_message(message);
        proof {
            assert(self.threads@ =~= with_state(old(self).threads@, next as int, FlowState::Running));
        }
    }

    /// Dispatches thread `next` in place of thread `from`.
    fn switch_between(&mut self, from: usize, next: usize)
        requires
            from < old(self).threads@.len(),
            next < old(self).threads@.len(),
            old(self).tick + 2 <= usize::MAX,
        ensures
            final(self).threads@ == with_state(old(self).threads@, next as int, FlowState::Running),
            final(self).current == Some(next),
            final(self).tick == old(self).tick + 2,
            final(self).trace() == old(self).trace().push(
                transition_line(old(self).threads@, old(self).tick as int, next as int, FlowState::Running, "dispatch"@),
            ).push(
                trace_line(
                    old(self).tick + 1,
                    switch_between_message(
                        from as nat,
                        old(self).threads@[from as int].priority as nat,
                        next as nat,
                        old(self).threads@[next as int].priority as nat,
                    ),
                ),
            ),
    {
        self.transition(next, FlowState::Running, "dispatch");
        self.current = Some(next);
        let mut message = String::new();
        message.append("switch:task:");
        push_decimal(&mut message, from as u128);
        message.append(" priority=");
        push_decimal(&mut message, self.threads[from].priority as u128);
        message.append(" -> task:");
        push_decimal(&mut message, next as u128);
        message.append(" priority=");
        push_decimal(&mut message, self.threads[next].priority as u128);
        proof {
            assert(message@ =~= switch_between_message(
                from as nat,
                old(self).threads@[from as int].priority as nat,
                next as nat,
                old(self).threads@[next as int].priority as nat,
            ));
        }
        self.trace_message(message);
        proof {
            assert(self.threads@ =~= with_state(old(self).threads@, next as int, FlowState::Running));
        }
    }

    /// Leaves thread `from` for the main context.
    fn switch_to_main_from(&mut self, from: usize)
        requires
            from < old(self).threads@.len(),
            old(self).tick < usize::MAX,
        ensures
            final(self).threads == old(self).threads,
            final(self).current is None,
            final(self).tick == old(self).tick + 1,
            final(self).trace() == old(self).trace().push(
                trace_line(
                    old(self).tick as int,
                    switch_to_main_message(from as nat, old(self).threads@[from as int].priority as nat),
                ),
            ),
    {
        self.current = None;
        let mut message = String::new();
        message.append("switch:task:");
        push_decimal(&mut message, from as u128);
        message.append(" priority=");
        push_decimal(&mut message, self.threads[from].priority as u128);
        message.append(" -> main");
        proof {
            assert(message@ =~= switch_to_main_message(from as nat, old(self).threads@[from as int].priority as nat));
        }
        self.trace_message(message);
    }

    /// The running thread gives up the processor: it becomes Ready and the
    /// scheduler picks a thread among the others; if none is ready the
    /// yielding thread keeps running.
    pub fn yield_current(&mut self) -> (action: SwitchAction)
        requires
            old(self).current matches Some(c) ==> c < old(self).threads@.len(),
            old(self).tick + 3 <= usize::MAX,
        ensures
            final(self).threads@.len() == old(self).threads@.len(),
            old(self).current matches Some(from) ==> exists|r: Option<usize>|
                crate::green_run::picked(old(self).threads@, from, crate::green_run::RunStep::Yield, r)
                    && (final(self).threads@, final(self).current) == crate::green_run::next_state(
                    old(self).threads@,
                    from,
                    crate::green_run::RunStep::Yield,
                    r,
                ),
            old(self).current is None ==> action == SwitchAction::Stay && final(self).threads
                == old(self).threads && final(self).current is None && final(self).tick
                == old(self).tick && final(self).trace() == old(self).trace(),
            old(self).current matches Some(from) ==> {
                let ready = with_state(old(self).threads@, from as int, FlowState::Ready);
                match action {
                    SwitchAction::Between { from: f, to } => {
                        &&& f == from
                        &&& picks_from(ready, old(self).current, Some(from), Some(to))
                        &&& final(self).threads@ == with_state(ready, to as int, FlowState::Running)
                        &&& final(self).current == Some(to)
                        &&& final(self).trace() == old(self).trace().push(
                            transition_line(old(self).threads@, old(self).tick as int, from as int, FlowState::Ready, "yield"@),
                        ).push(
                            transition_line(ready, old(self).tick + 1, to as int, FlowState::Running, "dispatch"@),
                        ).push(
                            trace_line(
                                old(self).tick + 2,
                                switch_between_message(
                                    from as nat,
                                    ready[from as int].priority as nat,
                                    to as nat,
                                    ready[to as int].priority as nat,
                                ),
                            ),
                        )
                    },
                    SwitchAction::Stay => {
                        &&& picks_from(ready, old(self).current, Some(from), None)
                        &&& final(self).threads@ == with_state(ready, from as int, FlowState::Running)
                        &&& final(self).current == Some(from)
                        &&& final(self).trace() == old(self).trace().push(
                            transition_line(old(self).threads@, old(self).tick as int, from as int, FlowState::Ready, "yield"@),
                        ).push(
                            transition_line(ready, old(self).tick + 1, from as int, FlowState::Running, "yield-noop"@),
                        ).push(
                            trace_line(
                                old(self).tick + 2,
                                keep_running_message(from as nat, ready[from as int].priority as nat),
                            ),
                        )
                    },
                    _ => false,
                }
            },
    {
        let from = match self.current {
            None => {
                return SwitchAction::Stay;
            },
            Some(c) => c,
        };
        self.transition(from, FlowState::Ready, "yield");
        let ghost ready = self.threads@;
        proof {
            assert(ready =~= with_state(old(self).threads@, from as int, FlowState::Ready));
        }
        match self.pick_next(Some(from)) {
            Some(next) => {
                self.switch_between(from, next);
                proof {
                    assert(crate::green_run::picked(old(self).threads@, from, crate::green_run::RunStep::Yield, Some(next)));
                    assert((self.threads@, self.current) == crate::green_run::next_state(
                        old(self).threads@,
                        from,
                        crate::green_run::RunStep::Yield,
                        Some(next),
                    ));
                }
                SwitchAction::Between { from, to: next }
            },
            None => {
                self.transition(from, FlowState::Running, "yield-noop");
                let mut message = String::new();
                message.append("scheduler:no other ready task; keep running task:");
                push_decimal(&mut message, from as u128);
                message.append(" priority=");
                push_decimal(&mut message, self.threads[from].priority as u128);
                proof {
                    assert(message@ =~= keep_running_message(from as nat, ready[from as int].priority as nat));
                }
                self.trace_message(message);
                proof {
                    assert(self.threads@ =~= with_state(ready, from as int, FlowState::Running));
                    assert(crate::green_run::picked(old(self).threads@, from, crate::green_run::RunStep::Yield, None));
                    assert((self.threads@, self.current) == crate::green_run::next_state(
                        old(self).threads@,
                        from,
                        crate::green_run::RunStep::Yield,
                        None,
                    ));
                }
                SwitchAction::Stay
            },
        }
    }

    /// The running thread has returned from its entry: it becomes Finished
    /// and the scheduler picks the next thread, or goes back to the main
    /// context when none is ready.
    pub fn finish_current(&mut self) -> (action: SwitchAction)
        requires
            old(self).current matches Some(c) && c < old(self).threads@.len(),
            old(self).tick + 3 <= usize::MAX,
        ensures
            final(self).threads@.len() == old(self).threads@.len(),
            exists|r: Option<usize>|
                crate::green_run::picked(old(self).threads@, old(self).current->0, crate::green_run::RunStep::Finish, r)
                    && (final(self).threads@, final(self).current) == crate::green_run::next_state(
                    old(self).threads@,
                    old(self).current->0,
                    crate::green_run::RunStep::Finish,
                    r,
                ),
            ({
                let from = old(self).current->0;
                let finished = with_state(old(self).threads@, from as int, FlowState::Finished);
                match action {
                    SwitchAction::Between { from: f, to } => {
                        &&& f == from
                        &&& picks_from(finished, old(self).current, None, Some(to))
                        &&& final(self).threads@ == with_state(finished, to as int, FlowState::Running)
                        &&& final(self).current == Some(to)
                        &&& final(self).trace() == old(self).trace().push(
                            transition_line(old(self).threads@, old(self).tick as int, from as int, FlowState::Finished, "return"@),
                        ).push(
                            transition_line(finished, old(self).tick + 1, to as int, FlowState::Running, "dispatch"@),
                        ).push(
                            trace_line(
                                old(self).tick + 2,
                                switch_between_message(
                                    from as nat,
                                    finished[from as int].priority as nat,
                                    to as nat,
                                    finished[to as int].priority as nat,
                                ),
                            ),
                        )
                    },
                    SwitchAction::ToMain { from: f } => {
                        &&& f == from
                        &&& picks_from(finished, old(self).current, None, None)
                        &&& final(self).threads@ == finished
                        &&& final(self).current is None
                        &&& final(self).trace() == old(self).trace().push(
                            transition_line(old(self).threads@, old(self).tick as int, from as int, FlowState::Finished, "return"@),
                        ).push(
                            trace_line(
                                old(self).tick + 1,
                                switch_to_main_message(from as nat, finished[from as int].priority as nat),
                            ),
                        )
                    },
                    _ => false,
                }
            }),
    {
        let current = match self.current {
            Some(c) => c,
            None => {
                return SwitchAction::Stay;
            },
        };
        self.transition(current, FlowState::Finished, "return");
        let ghost finished = self.threads@;
        proof {
            assert(finished =~= with_state(old(self).threads@, current as int, FlowState::Finished));
        }
        match self.pick_next(None) {
            Some(next) => {
                self.switch_between(current, next);
                proof {
                    assert(crate::green_run::picked(old(self).threads@, current, crate::green_run::RunStep::Finish, Some(next)));
                    assert((self.threads@, self.current) == crate::green_run::next_state(
                        old(self).threads@,
                        current,
                        crate::green_run::RunStep::Finish,
                        Some(next),
                    ));
                }
                SwitchAction::Between { from: current, to: next }
            },
            None => {
                self.switch_to_main_from(current);
                proof {
                    assert(crate::green_run::picked(old(self).threads@, current, crate::green_run::RunStep::Finish, None));
                    assert((self.threads@, self.current) == crate::green_run::next_state(
                        old(self).threads@,
                        current,
                        crate::green_run::RunStep::Finish,
                        None,
                    ));
                }
                SwitchAction::ToMain { from: current }
            },
        }
    }
}

/// Trace message when a thread starts its entry.
pub open spec fn enter_message(id: nat, priority: nat) -> Seq<char> {
    "task:"@ + decimal(id) + " priority="@ + decimal(priority) + " enter"@
}

/// Trace message when a thread's entry returns.
pub open spec fn return_message(id: nat, priority: nat) -> Seq<char> {
    "task:"@ + decimal(id) + " priority="@ + decimal(priority) + " return from entry"@
}

impl<E> Runtime<E> {
    /// Starts a run: traces the start and dispatches the first thread that
    /// `pick_next` chooses, if any.
    pub fn run_begin(&mut self) -> (action: SwitchAction)
        requires
            old(self).tick + 3 <= usize::MAX,
        ensures
            final(self).threads@.len() == old(self).threads@.len(),
            match action {
                SwitchAction::FromMain { to } => {
                    &&& picks_from(old(self).threads@, old(self).current, None, Some(to))
                    &&& final(self).threads@ == with_state(old(self).threads@, to as int, FlowState::Running)
                    &&& final(self).current == Some(to)
                    &&& final(self).trace() == old(self).trace().push(
                        trace_line(old(self).tick as int, "runtime:run begin"@),
                    ).push(
                        transition_line(old(self).threads@, old(self).tick + 1, to as int, FlowState::Running, "dispatch"@),
                    ).push(
                        trace_line(
                            old(self).tick + 2,
                            switch_from_main_message(to as nat, old(self).threads@[to as int].priority as nat),
                        ),
                    )
                },
                SwitchAction::Stay => {
                    &&& picks_from(old(self).threads@, old(self).current, None, None)
                    &&& final(self).threads == old(self).threads
                    &&& final(self).current == old(self).current
                    &&& final(self).trace() == old(self).trace().push(
                        trace_line(old(self).tick as int, "runtime:run begin"@),
                    )
                },
                _ => false,
            },
    {
        self.trace_message(String::from_str("runtime:run begin"));
        match self.pick_next(None) {
            Some(next) => {
                self.switch_from_main_to(next);
                SwitchAction::FromMain { to: next }
            },
            None => SwitchAction::Stay,
        }
    }

    /// Ends a run: traces that every execution flow finished.
    pub fn run_end(&mut self)
        requires
            old(self).tick < usize::MAX,
        ensures
            final(self).threads == old(self).threads,
            final(self).current == old(self).current,
            final(self).tick == old(self).tick + 1,
            final(self).trace() == old(self).trace().push(
                trace_line(old(self).tick as int, "runtime:run end; all execution flows finished"@),
            ),
    {
        self.trace_message(String::from_str("runtime:run end; all execution flows finished"));
    }

    /// Traces a message of the application code: `app:` then `message`.
    pub fn trace_app(&mut self, message: &str)
        requires
            old(self).tick < usize::MAX,
        ensures
            final(self).threads == old(self).threads,
            final(self).current == old(self).current,
            final(self).tick == old(self).tick + 1,
            final(self).trace() == old(self).trace().push(
                trace_line(old(self).tick as int, "app:"@ + message@),
            ),
    {
        let mut line = String::from_str("app:");
        line.append(message);
        self.trace_message(line);
    }

    /// Traces that the current thread enters its entry.
    pub fn trace_enter(&mut self)
        requires
            old(self).current matches Some(c) && c < old(self).threads@.len(),
            old(self).tick < usize::MAX,
        ensures
            final(self).threads == old(self).threads,
            final(self).current == old(self).current,
            final(self).tick == old(self).tick + 1,
            final(self).trace() == old(self).trace().push(
                trace_line(
                    old(self).tick as int,
                    enter_message(
                        old(self).current->0 as nat,
                        old(self).threads@[old(self).current->0 as int].priority as nat,
                    ),
                ),
            ),
    {
        let id = match self.current {
            Some(c) => c,
            None => 0,
        };
        let mut message = String::from_str("task:");
        push_decimal(&mut message, id as u128);
        message.append(" priority=");
        push_decimal(&mut message, self.threads[id].priority as u128);
        message.append(" enter");
        proof {
            assert(message@ =~= enter_message(id as nat, self.threads@[id as int].priority as nat));
        }
        self.trace_message(message);
    }

    /// Traces that the current thread's entry returned.
    pub fn trace_return(&mut self)
        requires
            old(self).current matches Some(c) && c < old(self).threads@.len(),
            old(self).tick < usize::MAX,
        ensures
            final(self).threads == old(self).threads,
            final(self).current == old(self).current,
            final(self).tick == old(self).tick + 1,
            final(self).trace() == old(self).trace().push(
                trace_line(
                    old(self).tick as int,
                    return_message(
                        old(self).current->0 as nat,
                        old(self).threads@[old(self).current->0 as int].priority as nat,
                    ),
                ),
            ),
    {
        let id = match self.current {
            Some(c) => c,
            None => 0,
        };
        let mut message = String::from_str("task:");
        push_decimal(&mut message, id as u128);
        message.append(" priority=");
        push_decimal(&mut message, self.threads[id].priority as u128);
        message.append(" return from entry");
        proof {
            assert(message@ =~= return_message(id as nat, self.threads@[id as int].priority as nat));
        }
        self.trace_message(message);
    }
}

/// Round-robin law: among threads that are all Ready with one priority, the
/// thread picked after the running thread `c` yields is the next one in
/// table order, wrapping around.
pub proof fn law_equal_priority_round_robin<E>(threads: Seq<GreenThread<E>>, c: usize, r: Option<usize>)
    requires
        1 < threads.len() <= usize::MAX,
        c < threads.len(),
        forall|j: int| 0 <= j < threads.len() ==> (#[trigger] threads[j]).state == FlowState::Ready,
        forall|j: int| 0 <= j < threads.len() ==> (#[trigger] threads[j]).priority == threads[0].priority,
        picks_from(threads, Some(c), Some(c), r),
    ensures
        r == Some(((c + 1) % (threads.len() as int)) as usize),
{
    let len = threads.len();
    let next = (c + 1) % (len as int);
    if c + 1 < len {
        vstd::arithmetic::div_mod::lemma_small_mod((c + 1) as nat, len);
    } else {
        vstd::arithmetic::div_mod::lemma_mod_self_0(len as int);
    }
    assert(threads[next].state == FlowState::Ready);
    assert(Some(c) != Some(next as usize));
    assert(is_candidate(threads, Some(c), next));
    match r {
        None => {
            assert(!is_candidate(threads, Some(c), next));
        },
        Some(id) => {
            let start = scan_start(len, Some(c));
            assert(start == next);
            assert(scan_offset(len, start, next) == 0);
            if id as int != next {
                assert(threads[next].priority == threads[id as int].priority);
            }
        },
    }
}

/// Priority law: a thread picked by `pick_next` has the highest priority
/// among the Ready threads that may be picked, so a Ready thread of strictly
/// higher priority is never passed over.
pub proof fn law_highest_priority_first<E>(
    threads: Seq<GreenThread<E>>,
    current: Option<usize>,
    excluded: Option<usize>,
    r: Option<usize>,
    j: int,
)
    requires
        picks_from(threads, current, excluded, r),
        is_candidate(threads, excluded, j),
    ensures
        r matches Some(id) && threads[j].priority <= threads[id as int].priority,
{
}

/// Only a Ready thread is ever dispatched: a finished thread never resumes,
/// and the excluded (yielding) thread is not picked.
pub proof fn law_only_ready_threads_dispatched<E>(
    threads: Seq<GreenThread<E>>,
    current: Option<usize>,
    excluded: Option<usize>,
    id: usize,
)
    requires
        picks_from(threads, current, excluded, Some(id)),
    ensures
        id < threads.len(),
        threads[id as int].state == FlowState::Ready,
        excluded != Some(id),
{
}


/// At most one thread is Running: the current one, when there is one.
pub open spec fn one_running<E>(threads: Seq<GreenThread<E>>, current: Option<usize>) -> bool {
    &&& (current matches Some(c) ==> c < threads.len() && threads[c as int].state == FlowState::Running)
    &&& forall|i: int|
        0 <= i < threads.len() && (#[trigger] threads[i]).state == FlowState::Running ==> current == Some(
            i as usize,
        )
}

/// The state changes a thread may make: none, Ready to Running, Running to
/// Ready, or Running to Finished.
pub open spec fn allowed_move(a: FlowState, b: FlowState) -> bool {
    ||| a == b
    ||| a == FlowState::Ready && b == FlowState::Running
    ||| a == FlowState::Running && b == FlowState::Ready
    ||| a == FlowState::Running && b == FlowState::Finished
}

/// Every thread of `before` makes an allowed change into `after`, and no
/// thread leaves the table.
pub open spec fn allowed_moves<E>(before: Seq<GreenThread<E>>, after: Seq<GreenThread<E>>) -> bool {
    &&& before.len() == after.len()
    &&& forall|i: int| 0 <= i < before.len() ==> allowed_move(#[trigger] before[i].state, after[i].state)
}

/// Starting a run (from the main context, no thread running): the picked
/// thread goes from Ready to Running and becomes the only running one; with
/// no pick nothing changes.
pub proof fn law_run_begin_step<E>(threads: Seq<GreenThread<E>>, r: Option<usize>)
    requires
        threads.len() <= usize::MAX,
        one_running(threads, None),
        picks_from(threads, None, None, r),
    ensures
        r matches Some(to) ==> allowed_moves(threads, with_state(threads, to as int, FlowState::Running))
            && one_running(with_state(threads, to as int, FlowState::Running), Some(to)),
{
    if let Some(to) = r {
        let after = with_state(threads, to as int, FlowState::Running);
        assert forall|i: int| 0 <= i < threads.len() implies allowed_move(#[trigger] threads[i].state, after[i].state) by {
            if i == to {
                assert(threads[i].state == FlowState::Ready);
            }
        }
        assert forall|i: int| 0 <= i < after.len() && (#[trigger] after[i]).state == FlowState::Running
            implies Some(to) == Some(i as usize) by {
            if i != to {
                assert(after[i] == threads[i]);
            }
        }
    }
}

/// A yield: the running thread goes back to Ready and the picked thread (not
/// the yielding one) goes from Ready to Running, becoming the only running
/// one; with no other Ready thread the yielding thread keeps running.
pub proof fn law_yield_step<E>(threads: Seq<GreenThread<E>>, from: usize, r: Option<usize>)
    requires
        threads.len() <= usize::MAX,
        one_running(threads, Some(from)),
        picks_from(with_state(threads, from as int, FlowState::Ready), Some(from), Some(from), r),
    ensures
        ({
            let ready = with_state(threads, from as int, FlowState::Ready);
            let after = match r {
                Some(to) => with_state(ready, to as int, FlowState::Running),
                None => with_state(ready, from as int, FlowState::Running),
            };
            &&& allowed_moves(threads, after)
            &&& one_running(after, Some(
                match r {
                    Some(to) => to,
                    None => from,
                },
            ))
        }),
{
    let ready = with_state(threads, from as int, FlowState::Ready);
    let next = match r {
        Some(to) => to,
        None => from,
    };
    let after = with_state(ready, next as int, FlowState::Running);
    assert forall|i: int| 0 <= i < threads.len() implies allowed_move(#[trigger] threads[i].state, after[i].state) by {
        if i != from && i != next {
            assert(after[i] == threads[i]);
        } else if i == next && i != from {
            assert(ready[i].state == FlowState::Ready);
            assert(ready[i] == threads[i]);
        }
    }
    assert forall|i: int| 0 <= i < after.len() && (#[trigger] after[i]).state == FlowState::Running
        implies Some(next) == Some(i as usize) by {
        if i != next && i != from {
            assert(after[i] == threads[i]);
        } else if i == from && i != next {
            assert(after[i] == ready[i]);
        }
    }
}

/// A thread returns from its entry: it goes from Running to Finished, and
/// the picked thread goes from Ready to Running. With no pick the run ends:
/// no thread runs and every thread has Finished.
pub proof fn law_finish_step<E>(threads: Seq<GreenThread<E>>, from: usize, r: Option<usize>)
    requires
        threads.len() <= usize::MAX,
        one_running(threads, Some(from)),
        picks_from(with_state(threads, from as int, FlowState::Finished), Some(from), None, r),
    ensures
        ({
            let finished = with_state(threads, from as int, FlowState::Finished);
            match r {
                Some(to) => allowed_moves(threads, with_state(finished, to as int, FlowState::Running))
                    && one_running(with_state(finished, to as int, FlowState::Running), Some(to)),
                None => allowed_moves(threads, finished) && one_running(finished, None) && forall|i: int|
                    0 <= i < finished.len() ==> (#[trigger] finished[i]).state == FlowState::Finished,
            }
        }),
{
    let finished = with_state(threads, from as int, FlowState::Finished);
    assert forall|i: int| 0 <= i < threads.len() implies allowed_move(#[trigger] threads[i].state, finished[i].state) by {
        if i != from {
            assert(finished[i] == threads[i]);
        }
    }
    assert forall|i: int| 0 <= i < finished.len() && (#[trigger] finished[i]).state == FlowState::Running
        implies false by {
        if i != from {
            assert(finished[i] == threads[i]);
            assert(Some(from) == Some(i as usize));
        }
    }
    match r {
        Some(to) => {
            let after = with_state(finished, to as int, FlowState::Running);
            assert forall|i: int| 0 <= i < threads.len() implies allowed_move(#[trigger] threads[i].state, after[i].state) by {
                if i != from && i != to {
                    assert(after[i] == threads[i]);
                } else if i == to {
                    assert(finished[i].state == FlowState::Ready);
                    assert(finished[i] == threads[i]);
                }
            }
            assert forall|i: int| 0 <= i < after.len() && (#[trigger] after[i]).state == FlowState::Running
                implies Some(to) == Some(i as usize) by {
                if i != to {
                    assert(after[i] == finished[i]);
                }
            }
        },
        None => {
            assert forall|i: int| 0 <= i < finished.len() implies (#[trigger] finished[i]).state
                == FlowState::Finished by {
                assert(!is_candidate(finished, None, i));
                assert(finished[i].state != FlowState::Running);
            }
        },
    }
}

} // verus!
