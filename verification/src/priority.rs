use vstd::prelude::*;
use std::collections::VecDeque;

verus! {

/// Priority used by the tiny scheduler demo.
#[derive(Debug, Copy, Clone, PartialEq, Eq, Structural)]
pub enum Priority {
    High,
    Low,
}

/// What a job does to the completion order: it takes the order so far and
/// gives back the extended order.
pub open spec fn job_runs<J: FnOnce(Vec<&'static str>) -> Vec<&'static str>>(
    job: J,
    before: Vec<&'static str>,
    after: Vec<&'static str>,
) -> bool {
    call_ensures(job, (before,), after)
}

/// `trace` is a run of `jobs` one after another, starting from an empty
/// completion order: `trace[i]` is the order that `jobs[i]` received and
/// `trace[i + 1]` the order that it handed back.
pub open spec fn is_run_of<J: FnOnce(Vec<&'static str>) -> Vec<&'static str>>(
    jobs: Seq<J>,
    trace: Seq<Vec<&'static str>>,
) -> bool {
    &&& trace.len() == jobs.len() + 1
    &&& trace[0]@ == Seq::<&'static str>::empty()
    &&& forall|i: int| #![trigger jobs[i]] 0 <= i < jobs.len() ==> job_runs(jobs[i], trace[i], trace[i + 1])
}

/// Every job of `jobs` accepts any completion order.
pub open spec fn all_callable<J: FnOnce(Vec<&'static str>) -> Vec<&'static str>>(jobs: Seq<J>) -> bool {
    forall|i: int, v: Vec<&'static str>| 0 <= i < jobs.len() ==> #[trigger] call_requires(jobs[i], (v,))
}

/// A minimal cooperative priority scheduler: high-priority jobs drain before
/// low-priority jobs, each queue in spawn order.
pub struct PriorityScheduler<J> {
    high: VecDeque<J>,
    low: VecDeque<J>,
}

impl<J: FnOnce(Vec<&'static str>) -> Vec<&'static str>> PriorityScheduler<J> {
    /// Jobs waiting in the high-priority queue, front first.
    pub closed spec fn high_jobs(&self) -> Seq<J> {
        self.high@
    }

    /// Jobs waiting in the low-priority queue, front first.
    pub closed spec fn low_jobs(&self) -> Seq<J> {
        self.low@
    }

    /// The order in which `run_all` calls the jobs.
    pub open spec fn run_order(&self) -> Seq<J> {
        self.high_jobs() + self.low_jobs()
    }

    pub fn new() -> (s: Self)
        ensures
            s.high_jobs() == Seq::<J>::empty(),
            s.low_jobs() == Seq::<J>::empty(),
    {
        PriorityScheduler { high: VecDeque::new(), low: VecDeque::new() }
    }

    pub fn spawn(&mut self, priority: Priority, job: J)
        ensures
            priority == Priority::High ==> final(self).high_jobs() == old(self).high_jobs().push(job)
                && final(self).low_jobs() == old(self).low_jobs(),
            priority == Priority::Low ==> final(self).low_jobs() == old(self).low_jobs().push(job)
                && final(self).high_jobs() == old(self).high_jobs(),
    {
        match priority {
            Priority::High => self.high.push_back(job),
            Priority::Low => self.low.push_back(job),
        }
    }

    /// Runs every high-priority job in spawn order, then every low-priority
    /// job in spawn order, threading the completion order through them.
    pub fn run_all(self) -> (order: Vec<&'static str>)
        requires
            all_callable(self.run_order()),
        ensures
            exists|trace: Seq<Vec<&'static str>>|
                is_run_of(self.run_order(), trace) && trace.last() == order,
    {
        let ghost jobs = self.run_order();
        let mut high = self.high;
        let mut low = self.low;
        let mut completion_order: Vec<&'static str> = Vec::new();
        let ghost mut trace: Seq<Vec<&'static str>> = seq![completion_order];
        let ghost mut done: int = 0;

        loop
            invariant_except_break
                jobs == self.high@ + self.low@,
                0 <= done <= self.high@.len(),
                high@ == self.high@.subrange(done, self.high@.len() as int),
                low@ == self.low@,
                trace.len() == done + 1,
                trace[0]@ == Seq::<&'static str>::empty(),
                trace.last() == completion_order,
                forall|i: int| #![trigger jobs[i]] 0 <= i < done ==> job_runs(jobs[i], trace[i], trace[i + 1]),
                all_callable(jobs),
            ensures
                jobs == self.high@ + self.low@,
                done == self.high@.len(),
                low@ == self.low@,
                trace.len() == done + 1,
                trace[0]@ == Seq::<&'static str>::empty(),
                trace.last() == completion_order,
                forall|i: int| #![trigger jobs[i]] 0 <= i < done ==> job_runs(jobs[i], trace[i], trace[i + 1]),
                all_callable(jobs),
            decreases high@.len(),
        {
            match high.pop_front() {
                Some(job) => {
                    proof {
                        assert(job == jobs[done]);
                    }
                    let ghost before = completion_order;
                    completion_order = job(completion_order);
                    proof {
                        trace = trace.push(completion_order);
                        assert(job_runs(jobs[done], trace[done], trace[done + 1]));
                        done = done + 1;
                    }
                },
                None => {
                    break;
                },
            }
        }

        loop
            invariant_except_break
                jobs == self.high@ + self.low@,
                self.high@.len() <= done <= jobs.len(),
                low@ == self.low@.subrange(done - self.high@.len(), self.low@.len() as int),
                trace.len() == done + 1,
                trace[0]@ == Seq::<&'static str>::empty(),
                trace.last() == completion_order,
                forall|i: int| #![trigger jobs[i]] 0 <= i < done ==> job_runs(jobs[i], trace[i], trace[i + 1]),
                all_callable(jobs),
            ensures
                done == jobs.len(),
                trace.len() == done + 1,
                trace[0]@ == Seq::<&'static str>::empty(),
                trace.last() == completion_order,
                forall|i: int| #![trigger jobs[i]] 0 <= i < done ==> job_runs(jobs[i], trace[i], trace[i + 1]),
            decreases low@.len(),
        {
            match low.pop_front() {
                Some(job) => {
                    proof {
                        assert(job == jobs[done]);
                    }
                    completion_order = job(completion_order);
                    proof {
                        trace = trace.push(completion_order);
                        assert(job_runs(jobs[done], trace[done], trace[done + 1]));
                        done = done + 1;
                    }
                },
                None => {
                    break;
                },
            }
        }
        proof {
            assert(is_run_of(jobs, trace));
        }
        completion_order
    }
}

/// A job that appends `name` to the completion order.
pub fn record_completion(name: &'static str) -> (job: impl FnOnce(Vec<&'static str>) -> Vec<&'static str>)
    ensures
        forall|v: Vec<&'static str>| call_requires(job, (v,)),
        forall|v: Vec<&'static str>, r: Vec<&'static str>|
            call_ensures(job, (v,), r) ==> r@ == v@.push(name),
{
    move |order: Vec<&'static str>| -> (r: Vec<&'static str>)
        ensures
            r@ == order@.push(name),
        {
            let mut order = order;
            order.push(name);
            order
        }
}

/// Spawns `low-1`, `high-1`, `low-2`, `high-2` in that order and runs them:
/// the high-priority jobs complete first.
pub fn priority_demo_completion_order() -> (order: Vec<&'static str>)
    ensures
        order@ == seq!["high-1", "high-2", "low-1", "low-2"],
{
    let mut scheduler = PriorityScheduler::new();
    let low1 = record_completion("low-1");
    let high1 = record_completion("high-1");
    let low2 = record_completion("low-2");
    let high2 = record_completion("high-2");
    scheduler.spawn(Priority::Low, low1);
    scheduler.spawn(Priority::High, high1);
    scheduler.spawn(Priority::Low, low2);
    scheduler.spawn(Priority::High, high2);
    let ghost jobs = scheduler.run_order();
    proof {
        assert(jobs =~= seq![high1, high2, low1, low2]);
    }
    let order = scheduler.run_all();
    proof {
        let trace = choose|trace: Seq<Vec<&'static str>>| is_run_of(jobs, trace) && trace.last() == order;
        assert(job_runs(jobs[0], trace[0], trace[1]));
        assert(job_runs(jobs[1], trace[1], trace[2]));
        assert(job_runs(jobs[2], trace[2], trace[3]));
        assert(job_runs(jobs[3], trace[3], trace[4]));
        assert(trace[4]@ =~= seq!["high-1", "high-2", "low-1", "low-2"]);
    }
    order
}

/// One task in the preemptive priority scheduling simulation.
#[derive(Debug, Clone, PartialEq, Eq)]
pub struct PreemptiveTask {
    pub name: &'static str,
    pub priority: Priority,
    pub ready_at_tick: u64,
    pub remaining_ticks: u64,
}

impl PreemptiveTask {
    pub fn new(name: &'static str, priority: Priority, ready_at_tick: u64, work_ticks: u64) -> (t: Self)
        requires
            work_ticks > 0,
        ensures
            t == (PreemptiveTask { name, priority, ready_at_tick, remaining_ticks: work_ticks }),
    {
        PreemptiveTask { name, priority, ready_at_tick, remaining_ticks: work_ticks }
    }
}

/// One dispatch decision made by the preemptive scheduler.
#[derive(Debug, Clone, PartialEq, Eq)]
pub struct DispatchEvent {
    pub tick: u64,
    pub task: &'static str,
    pub priority: Priority,
}

/// Full trace returned by the preemptive scheduling simulation.
#[derive(Debug, Clone, PartialEq, Eq)]
pub struct PreemptiveTrace {
    pub dispatch_events: Vec<DispatchEvent>,
    pub completion_order: Vec<&'static str>,
}

pub open spec fn event_task(e: DispatchEvent) -> &'static str {
    e.task
}

impl PreemptiveTrace {
    pub fn dispatch_order(&self) -> (order: Vec<&'static str>)
        ensures
            order@ == self.dispatch_events@.map_values(|e: DispatchEvent| event_task(e)),
    {
        let mut order: Vec<&'static str> = Vec::new();
        let mut i: usize = 0;
        while i < self.dispatch_events.len()
            invariant
                i <= self.dispatch_events@.len(),
                order@ == self.dispatch_events@.subrange(0, i as int).map_values(
                    |e: DispatchEvent| event_task(e),
                ),
            decreases self.dispatch_events@.len() - i,
        {
            order.push(self.dispatch_events[i].task);
            i = i + 1;
            proof {
                assert(self.dispatch_events@.subrange(0, i as int) =~= self.dispatch_events@.subrange(
                    0,
                    i - 1,
                ).push(self.dispatch_events@[i - 1]));
            }
        }
        proof {
            assert(self.dispatch_events@.subrange(0, i as int) =~= self.dispatch_events@);
        }
        order
    }
}

/// Rank used to order tasks released on the same tick: high before low.
pub open spec fn rank(p: Priority) -> int {
    match p {
        Priority::High => 0,
        Priority::Low => 1,
    }
}

/// `a` sorts no later than `b` by (ready tick, priority rank).
pub open spec fn key_le(a: PreemptiveTask, b: PreemptiveTask) -> bool {
    a.ready_at_tick < b.ready_at_tick || (a.ready_at_tick == b.ready_at_tick && rank(a.priority)
        <= rank(b.priority))
}

pub open spec fn sorted_by_release(s: Seq<PreemptiveTask>) -> bool {
    forall|i: int, j: int| 0 <= i < j < s.len() ==> key_le(#[trigger] s[i], #[trigger] s[j])
}

/// Tasks of `s`, in order, that are ready at `tick` and have priority `p`.
pub open spec fn ready_of(s: Seq<PreemptiveTask>, tick: int, p: Priority) -> Seq<PreemptiveTask>
    decreases s.len(),
{
    if s.len() == 0 {
        Seq::empty()
    } else {
        let rest = ready_of(s.drop_last(), tick, p);
        if s.last().ready_at_tick <= tick && s.last().priority == p {
            rest.push(s.last())
        } else {
            rest
        }
    }
}

/// Tasks of `s`, in order, that are not yet ready at `tick`.
pub open spec fn waiting(s: Seq<PreemptiveTask>, tick: int) -> Seq<PreemptiveTask>
    decreases s.len(),
{
    if s.len() == 0 {
        Seq::empty()
    } else {
        let rest = waiting(s.drop_last(), tick);
        if s.last().ready_at_tick > tick {
            rest.push(s.last())
        } else {
            rest
        }
    }
}

/// The earliest ready tick after `tick` among `s`, if any.
pub open spec fn next_release(s: Seq<PreemptiveTask>, tick: int) -> Option<int>
    decreases s.len(),
{
    if s.len() == 0 {
        None
    } else {
        let rest = next_release(s.drop_last(), tick);
        let t = s.last().ready_at_tick as int;
        if t > tick {
            match rest {
                Some(m) => if t < m { Some(t) } else { Some(m) },
                None => Some(t),
            }
        } else {
            rest
        }
    }
}

/// The abstract state of the preemptive simulation.
pub struct SimState {
    pub pending: Seq<PreemptiveTask>,
    pub high: Seq<PreemptiveTask>,
    pub low: Seq<PreemptiveTask>,
    pub tick: int,
    pub events: Seq<DispatchEvent>,
    pub completed: Seq<&'static str>,
}

pub open spec fn has_work(s: SimState) -> bool {
    s.pending.len() > 0 || s.high.len() > 0 || s.low.len() > 0
}

/// The high queue once the tasks ready at the current tick are released.
pub open spec fn released_high(s: SimState) -> Seq<PreemptiveTask> {
    s.high + ready_of(s.pending, s.tick, Priority::High)
}

/// The low queue once the tasks ready at the current tick are released.
pub open spec fn released_low(s: SimState) -> Seq<PreemptiveTask> {
    s.low + ready_of(s.pending, s.tick, Priority::Low)
}

/// Runs one unit of `task` at the current tick.
pub open spec fn dispatch(
    s: SimState,
    pending: Seq<PreemptiveTask>,
    high: Seq<PreemptiveTask>,
    low: Seq<PreemptiveTask>,
    task: PreemptiveTask,
) -> SimState {
    let ev = DispatchEvent { tick: s.tick as u64, task: task.name, priority: task.priority };
    let rest = PreemptiveTask { remaining_ticks: (task.remaining_ticks - 1) as u64, ..task };
    if rest.remaining_ticks == 0 {
        SimState {
            pending,
            high,
            low,
            tick: s.tick + 1,
            events: s.events.push(ev),
            completed: s.completed.push(task.name),
        }
    } else if task.priority == Priority::High {
        SimState {
            pending,
            high: high.push(rest),
            low,
            tick: s.tick + 1,
            events: s.events.push(ev),
            completed: s.completed,
        }
    } else {
        SimState {
            pending,
            high,
            low: low.push(rest),
            tick: s.tick + 1,
            events: s.events.push(ev),
            completed: s.completed,
        }
    }
}

/// One scheduling round: release the tasks ready now, then run one unit of
/// the first high-priority task, or else of the first low-priority task, or
/// else jump to the next release tick.
pub open spec fn sim_step(s: SimState) -> SimState {
    let pending = waiting(s.pending, s.tick);
    let high = released_high(s);
    let low = released_low(s);
    if high.len() > 0 {
        dispatch(s, pending, high.drop_first(), low, high[0])
    } else if low.len() > 0 {
        dispatch(s, pending, high, low.drop_first(), low[0])
    } else {
        SimState {
            pending,
            high,
            low,
            tick: match next_release(pending, s.tick) {
                Some(t) => t,
                None => s.tick + 1,
            },
            ..s
        }
    }
}

/// Total remaining ticks of the tasks in `s`.
pub open spec fn work_of(s: Seq<PreemptiveTask>) -> int
    decreases s.len(),
{
    if s.len() == 0 {
        0
    } else {
        work_of(s.drop_last()) + s.last().remaining_ticks
    }
}

pub open spec fn total_work(s: SimState) -> int {
    work_of(s.pending) + work_of(s.high) + work_of(s.low)
}

pub open spec fn all_positive(q: Seq<PreemptiveTask>) -> bool {
    forall|i: int| 0 <= i < q.len() ==> (#[trigger] q[i]).remaining_ticks > 0
}

/// Every task still in the simulation has work left.
pub open spec fn sim_inv(s: SimState) -> bool {
    all_positive(s.pending) && all_positive(s.high) && all_positive(s.low)
}

/// Some task can run at the current tick.
pub open spec fn ready_now(s: SimState) -> bool {
    s.high.len() > 0 || s.low.len() > 0 || exists|i: int|
        0 <= i < s.pending.len() && (#[trigger] s.pending[i]).ready_at_tick <= s.tick
}

pub open spec fn measure(s: SimState) -> nat {
    (2 * (total_work(s) + s.pending.len()) + if ready_now(s) {
        0int
    } else {
        1int
    }) as nat
}

proof fn lemma_work_nonneg(s: Seq<PreemptiveTask>)
    ensures
        work_of(s) >= 0,
    decreases s.len(),
{
    if s.len() > 0 {
        lemma_work_nonneg(s.drop_last());
    }
}

proof fn lemma_work_concat(a: Seq<PreemptiveTask>, b: Seq<PreemptiveTask>)
    ensures
        work_of(a + b) == work_of(a) + work_of(b),
    decreases b.len(),
{
    if b.len() == 0 {
        assert(a + b =~= a);
    } else {
        assert((a + b).drop_last() =~= a + b.drop_last());
        lemma_work_concat(a, b.drop_last());
    }
}

proof fn lemma_work_push(q: Seq<PreemptiveTask>, t: PreemptiveTask)
    ensures
        work_of(q.push(t)) == work_of(q) + t.remaining_ticks,
{
    assert(q.push(t).drop_last() =~= q);
}

proof fn lemma_work_drop_first(q: Seq<PreemptiveTask>)
    requires
        q.len() > 0,
    ensures
        work_of(q) == q[0].remaining_ticks + work_of(q.drop_first()),
{
    assert(q =~= seq![q[0]] + q.drop_first());
    lemma_work_concat(seq![q[0]], q.drop_first());
    lemma_work_push(Seq::<PreemptiveTask>::empty(), q[0]);
    assert(Seq::<PreemptiveTask>::empty().push(q[0]) =~= seq![q[0]]);
}

/// Releasing splits the pending tasks without losing work or tasks.
proof fn lemma_release_split(p: Seq<PreemptiveTask>, tick: int)
    ensures
        work_of(p) == work_of(waiting(p, tick)) + work_of(ready_of(p, tick, Priority::High))
            + work_of(ready_of(p, tick, Priority::Low)),
        p.len() == waiting(p, tick).len() + ready_of(p, tick, Priority::High).len() + ready_of(
            p,
            tick,
            Priority::Low,
        ).len(),
        all_positive(p) ==> all_positive(waiting(p, tick)) && all_positive(
            ready_of(p, tick, Priority::High),
        ) && all_positive(ready_of(p, tick, Priority::Low)),
        (forall|i: int| 0 <= i < p.len() ==> (#[trigger] p[i]).ready_at_tick > tick) ==> waiting(
            p,
            tick,
        ) == p && ready_of(p, tick, Priority::High).len() == 0 && ready_of(
            p,
            tick,
            Priority::Low,
        ).len() == 0,
    decreases p.len(),
{
    if p.len() > 0 {
        let q = p.drop_last();
        lemma_release_split(q, tick);
        assert(forall|i: int| 0 <= i < q.len() ==> q[i] == p[i]);
        lemma_work_push(waiting(q, tick), p.last());
        lemma_work_push(ready_of(q, tick, Priority::High), p.last());
        lemma_work_push(ready_of(q, tick, Priority::Low), p.last());
        assert(p =~= q.push(p.last()));
        lemma_work_push(q, p.last());
        if all_positive(p) {
            assert(all_positive(q));
        }
        if forall|i: int| 0 <= i < p.len() ==> (#[trigger] p[i]).ready_at_tick > tick {
            assert(forall|i: int| 0 <= i < q.len() ==> (#[trigger] q[i]).ready_at_tick > tick);
            assert(p.last().ready_at_tick > tick);
            assert(waiting(p, tick) =~= q.push(p.last()));
            assert(q.push(p.last()) =~= p);
        }
    }
}

/// `next_release` finds the earliest later ready tick among the tasks.
proof fn lemma_next_release(p: Seq<PreemptiveTask>, tick: int)
    ensures
        match next_release(p, tick) {
            Some(t) => t > tick && (exists|i: int|
                0 <= i < p.len() && (#[trigger] p[i]).ready_at_tick == t) && (forall|i: int|
                0 <= i < p.len() && (#[trigger] p[i]).ready_at_tick > tick ==> p[i].ready_at_tick
                >= t),
            None => forall|i: int| 0 <= i < p.len() ==> (#[trigger] p[i]).ready_at_tick <= tick,
        },
    decreases p.len(),
{
    if p.len() > 0 {
        let q = p.drop_last();
        lemma_next_release(q, tick);
        assert(forall|i: int| 0 <= i < q.len() ==> q[i] == p[i]);
        let last = p.len() - 1;
        match next_release(q, tick) {
            Some(m) => {
                let j = choose|i: int| 0 <= i < q.len() && (#[trigger] q[i]).ready_at_tick == m;
                assert(p[j].ready_at_tick == m);
            },
            None => {},
        }
        assert(p[last] == p.last());
    }
}

/// One simulation step keeps every task positive and strictly decreases the
/// measure, so the simulation ends.
pub proof fn lemma_step_measure(s: SimState)
    requires
        sim_inv(s),
        has_work(s),
    ensures
        sim_inv(sim_step(s)),
        measure(sim_step(s)) < measure(s),
        total_work(sim_step(s)) == if released_high(s).len() > 0 || released_low(s).len() > 0 {
            total_work(s) - 1
        } else {
            total_work(s)
        },
{
    let pending = waiting(s.pending, s.tick);
    let rh = ready_of(s.pending, s.tick, Priority::High);
    let rl = ready_of(s.pending, s.tick, Priority::Low);
    let high = released_high(s);
    let low = released_low(s);
    lemma_release_split(s.pending, s.tick);
    lemma_work_concat(s.high, rh);
    lemma_work_concat(s.low, rl);
    lemma_work_nonneg(pending);
    lemma_work_nonneg(high);
    lemma_work_nonneg(low);
    assert(all_positive(high));
    assert(all_positive(low));
    let t = sim_step(s);
    if high.len() > 0 {
        lemma_work_drop_first(high);
        lemma_work_nonneg(high.drop_first());
        let task = high[0];
        assert(task.remaining_ticks > 0);
        let rest = PreemptiveTask { remaining_ticks: (task.remaining_ticks - 1) as u64, ..task };
        assert(rest.remaining_ticks == task.remaining_ticks - 1);
        lemma_work_push(high.drop_first(), rest);
        lemma_work_push(low, rest);
        assert(total_work(t) == total_work(s) - 1);
        assert(t.pending.len() <= s.pending.len());
    } else if low.len() > 0 {
        lemma_work_drop_first(low);
        lemma_work_nonneg(low.drop_first());
        let task = low[0];
        assert(task.remaining_ticks > 0);
        let rest = PreemptiveTask { remaining_ticks: (task.remaining_ticks - 1) as u64, ..task };
        assert(rest.remaining_ticks == task.remaining_ticks - 1);
        lemma_work_push(low.drop_first(), rest);
        lemma_work_push(high, rest);
        assert(total_work(t) == total_work(s) - 1);
    } else {
        assert(!ready_now(s)) by {
            if ready_now(s) {
                let i = choose|i: int|
                    0 <= i < s.pending.len() && (#[trigger] s.pending[i]).ready_at_tick <= s.tick;
                lemma_ready_member(s.pending, s.tick, i);
            }
        }
        assert(forall|i: int|
            0 <= i < s.pending.len() ==> (#[trigger] s.pending[i]).ready_at_tick > s.tick);
        assert(pending == s.pending);
        lemma_next_release(pending, s.tick);
        let j = choose|i: int|
            0 <= i < pending.len() && (#[trigger] pending[i]).ready_at_tick == t.tick;
        assert(ready_now(t));
        assert(total_work(t) == total_work(s));
    }
}

/// A pending task that is ready at `tick` is released into one of the queues.
proof fn lemma_ready_member(p: Seq<PreemptiveTask>, tick: int, i: int)
    requires
        0 <= i < p.len(),
        p[i].ready_at_tick <= tick,
    ensures
        ready_of(p, tick, Priority::High).len() + ready_of(p, tick, Priority::Low).len() > 0,
    decreases p.len(),
{
    if i < p.len() - 1 {
        let q = p.drop_last();
        assert(q[i] == p[i]);
        lemma_ready_member(q, tick, i);
    } else {
        assert(p.last() == p[i]);
    }
}

proof fn lemma_waiting_member(p: Seq<PreemptiveTask>, tick: int, i: int)
    requires
        0 <= i < waiting(p, tick).len(),
    ensures
        exists|j: int| 0 <= j < p.len() && waiting(p, tick)[i] == #[trigger] p[j],
    decreases p.len(),
{
    let q = p.drop_last();
    if i < waiting(q, tick).len() {
        lemma_waiting_member(q, tick, i);
        let j = choose|j: int| 0 <= j < q.len() && waiting(q, tick)[i] == #[trigger] q[j];
        assert(p[j] == q[j]);
    } else {
        assert(p[p.len() - 1] == p.last());
    }
}

/// A step never makes the tick overflow while work is left.
pub proof fn lemma_step_fits(s: SimState)
    requires
        sim_inv(s),
        has_work(s),
        fits_in_ticks(s),
    ensures
        fits_in_ticks(sim_step(s)),
{
    let t = sim_step(s);
    let pending = waiting(s.pending, s.tick);
    lemma_step_measure(s);
    lemma_release_split(s.pending, s.tick);
    lemma_work_concat(s.high, ready_of(s.pending, s.tick, Priority::High));
    lemma_work_concat(s.low, ready_of(s.pending, s.tick, Priority::Low));
    lemma_work_nonneg(pending);
    lemma_work_nonneg(t.high);
    lemma_work_nonneg(t.low);
    assert forall|i: int| 0 <= i < t.pending.len() implies (#[trigger] t.pending[i]).ready_at_tick
        + total_work(t) <= u64::MAX by {
        lemma_waiting_member(s.pending, s.tick, i);
    }
    if released_high(s).len() == 0 && released_low(s).len() == 0 {
        lemma_next_release(pending, s.tick);
        match next_release(pending, s.tick) {
            Some(m) => {
                let j = choose|j: int| 0 <= j < pending.len() && (#[trigger] pending[j]).ready_at_tick == m;
                assert(t.pending[j].ready_at_tick + total_work(t) <= u64::MAX);
            },
            None => {
                assert(s.pending.len() > 0);
                assert(s.pending[0].ready_at_tick + total_work(s) <= u64::MAX);
            },
        }
    }
}

/// The high queue holds only high-priority tasks and the low queue only
/// low-priority ones.
pub open spec fn queues_match_priority(s: SimState) -> bool {
    &&& forall|i: int| 0 <= i < s.high.len() ==> (#[trigger] s.high[i]).priority == Priority::High
    &&& forall|i: int| 0 <= i < s.low.len() ==> (#[trigger] s.low[i]).priority == Priority::Low
}

proof fn lemma_ready_of_priority(p: Seq<PreemptiveTask>, tick: int, pr: Priority)
    ensures
        forall|i: int|
            0 <= i < ready_of(p, tick, pr).len() ==> (#[trigger] ready_of(p, tick, pr)[i]).priority
                == pr && ready_of(p, tick, pr)[i].ready_at_tick <= tick,
    decreases p.len(),
{
    if p.len() > 0 {
        lemma_ready_of_priority(p.drop_last(), tick, pr);
    }
}

/// Scheduling law: in every round, if some high-priority task is ready
/// (queued or released at this tick), a high-priority task is dispatched;
/// a low-priority task is dispatched only when no high-priority task is
/// ready. Each round dispatches at most one unit of work, at the current
/// tick, and the queues keep holding tasks of their own priority.
pub proof fn law_ready_high_runs_first(s: SimState)
    requires
        has_work(s),
        queues_match_priority(s),
    ensures
        queues_match_priority(sim_step(s)),
        released_high(s).len() > 0 ==> sim_step(s).events == s.events.push(
            DispatchEvent {
                tick: s.tick as u64,
                task: released_high(s)[0].name,
                priority: Priority::High,
            },
        ),
        released_high(s).len() == 0 && released_low(s).len() > 0 ==> sim_step(s).events
            == s.events.push(
            DispatchEvent {
                tick: s.tick as u64,
                task: released_low(s)[0].name,
                priority: Priority::Low,
            },
        ),
        released_high(s).len() == 0 && released_low(s).len() == 0 ==> sim_step(s).events
            == s.events && sim_step(s).tick > s.tick,
        sim_step(s).events.len() > s.events.len() && sim_step(s).events.last().priority
            == Priority::Low ==> forall|i: int|
            0 <= i < s.pending.len() && (#[trigger] s.pending[i]).priority == Priority::High
                ==> s.pending[i].ready_at_tick > s.tick,
{
    let rh = ready_of(s.pending, s.tick, Priority::High);
    let rl = ready_of(s.pending, s.tick, Priority::Low);
    lemma_ready_of_priority(s.pending, s.tick, Priority::High);
    lemma_ready_of_priority(s.pending, s.tick, Priority::Low);
    let high = released_high(s);
    let low = released_low(s);
    assert forall|i: int| 0 <= i < high.len() implies (#[trigger] high[i]).priority
        == Priority::High by {
        if i >= s.high.len() {
            assert(high[i] == rh[i - s.high.len()]);
        }
    }
    assert forall|i: int| 0 <= i < low.len() implies (#[trigger] low[i]).priority
        == Priority::Low by {
        if i >= s.low.len() {
            assert(low[i] == rl[i - s.low.len()]);
        }
    }
    if high.len() == 0 {
        assert forall|i: int|
            0 <= i < s.pending.len() && (#[trigger] s.pending[i]).priority
                == Priority::High implies s.pending[i].ready_at_tick > s.tick by {
            if s.pending[i].ready_at_tick <= s.tick {
                lemma_ready_member_of(s.pending, s.tick, i);
            }
        }
        if low.len() == 0 {
            lemma_release_split(s.pending, s.tick);
            assert forall|i: int| 0 <= i < s.pending.len() implies (#[trigger] s.pending[i]).ready_at_tick
                > s.tick by {
                if s.pending[i].ready_at_tick <= s.tick {
                    lemma_ready_member(s.pending, s.tick, i);
                }
            }
            lemma_next_release(waiting(s.pending, s.tick), s.tick);
        }
    }
    let t = sim_step(s);
    assert forall|i: int| 0 <= i < t.high.len() implies (#[trigger] t.high[i]).priority
        == Priority::High by {
        if high.len() > 0 {
            if i < high.len() - 1 {
                assert(t.high[i] == high[i + 1]);
            }
        }
    }
    assert forall|i: int| 0 <= i < t.low.len() implies (#[trigger] t.low[i]).priority
        == Priority::Low by {
        if high.len() == 0 && low.len() > 0 {
            if i < low.len() - 1 {
                assert(t.low[i] == low[i + 1]);
            }
        } else if high.len() > 0 {
            if i < low.len() {
                assert(t.low[i] == low[i]);
            }
        }
    }
}

/// A pending task ready at `tick` with priority `p` is released into the
/// queue of `p`.
proof fn lemma_ready_member_of(p: Seq<PreemptiveTask>, tick: int, i: int)
    requires
        0 <= i < p.len(),
        p[i].ready_at_tick <= tick,
    ensures
        ready_of(p, tick, p[i].priority).len() > 0,
    decreases p.len(),
{
    if i < p.len() - 1 {
        let q = p.drop_last();
        assert(q[i] == p[i]);
        lemma_ready_member_of(q, tick, i);
    } else {
        assert(p.last() == p[i]);
    }
}

/// The finished simulation: steps until no task is left.
pub open spec fn run_spec(s: SimState) -> SimState
    decreases measure(s),
    when sim_inv(s)
{
    if !has_work(s) {
        s
    } else {
        proof {
            lemma_step_measure(s);
        }
        run_spec(sim_step(s))
    }
}

/// `a` sorts no later than `b` by (ready tick, priority rank).
fn sorts_no_later(a: &PreemptiveTask, b: &PreemptiveTask) -> (r: bool)
    ensures
        r == key_le(*a, *b),
{
    let ra = priority_rank(a.priority);
    let rb = priority_rank(b.priority);
    a.ready_at_tick < b.ready_at_tick || (a.ready_at_tick == b.ready_at_tick && ra <= rb)
}

fn priority_rank(priority: Priority) -> (r: u8)
    ensures
        r == rank(priority),
{
    match priority {
        Priority::High => 0,
        Priority::Low => 1,
    }
}

/// Every pending task can run its work and the tick never overflows `u64`.
pub open spec fn fits_in_ticks(s: SimState) -> bool {
    &&& s.tick + total_work(s) <= u64::MAX
    &&& forall|i: int|
        0 <= i < s.pending.len() ==> (#[trigger] s.pending[i]).ready_at_tick + total_work(s)
            <= u64::MAX
}

/// A tiny time-sliced preemptive priority scheduler.
///
/// Each tick runs at most one unit of work. Ready high-priority tasks are always
/// selected before low-priority tasks. A task that still has work left is
/// requeued, so a high-priority task becoming ready on the next tick can
/// preempt a low-priority one.
pub struct PreemptivePriorityScheduler {
    pending: Vec<PreemptiveTask>,
    high: VecDeque<PreemptiveTask>,
    low: VecDeque<PreemptiveTask>,
}

impl PreemptivePriorityScheduler {
    /// Spawned tasks not yet released, in release order.
    pub closed spec fn pending_tasks(&self) -> Seq<PreemptiveTask> {
        self.pending@
    }

    pub closed spec fn high_tasks(&self) -> Seq<PreemptiveTask> {
        self.high@
    }

    pub closed spec fn low_tasks(&self) -> Seq<PreemptiveTask> {
        self.low@
    }

    /// Pending tasks stay sorted by (ready tick, priority rank).
    pub open spec fn wf(&self) -> bool {
        sorted_by_release(self.pending_tasks())
    }

    /// The simulation state that `run` starts from.
    pub open spec fn initial_state(&self) -> SimState {
        SimState {
            pending: self.pending_tasks(),
            high: self.high_tasks(),
            low: self.low_tasks(),
            tick: 0,
            events: Seq::empty(),
            completed: Seq::empty(),
        }
    }

    pub fn new() -> (s: Self)
        ensures
            s.wf(),
            s.pending_tasks() == Seq::<PreemptiveTask>::empty(),
            s.high_tasks() == Seq::<PreemptiveTask>::empty(),
            s.low_tasks() == Seq::<PreemptiveTask>::empty(),
    {
        PreemptivePriorityScheduler { pending: Vec::new(), high: VecDeque::new(), low: VecDeque::new() }
    }

    /// Adds `task` to the pending tasks, keeping them stably sorted by
    /// (ready tick, priority rank): it goes after every task that sorts no
    /// later than it.
    pub fn spawn(&mut self, task: PreemptiveTask)
        requires
            old(self).wf(),
        ensures
            final(self).wf(),
            exists|p: int|
                0 <= p <= old(self).pending_tasks().len() && final(self).pending_tasks() == old(
                    self,
                ).pending_tasks().insert(p, task) && (forall|i: int|
                    0 <= i < p ==> key_le(#[trigger] old(self).pending_tasks()[i], task)) && (
                forall|i: int|
                    p <= i < old(self).pending_tasks().len() ==> !key_le(
                        #[trigger] old(self).pending_tasks()[i],
                        task,
                    )),
            final(self).pending_tasks() == crate::spawn_order::insert_sorted(old(self).pending_tasks(), task),
            final(self).high_tasks() == old(self).high_tasks(),
            final(self).low_tasks() == old(self).low_tasks(),
    {
        let ghost old_pending = self.pending@;
        let mut i: usize = 0;
        while i < self.pending.len() && sorts_no_later(&self.pending[i], &task)
            invariant
                self.pending@ == old_pending,
                sorted_by_release(old_pending),
                i <= old_pending.len(),
                forall|k: int| 0 <= k < i ==> key_le(#[trigger] old_pending[k], task),
            decreases old_pending.len() - i,
        {
            i = i + 1;
        }
        proof {
            assert forall|k: int| i <= k < old_pending.len() implies !key_le(
                #[trigger] old_pending[k],
                task,
            ) by {
                if k > i {
                    assert(key_le(old_pending[i as int], old_pending[k]));
                }
            }
        }
        self.pending.insert(i, task);
        proof {
            crate::spawn_order::lemma_insert_at(old_pending, i as int, task);
            let np = self.pending@;
            assert(np == old_pending.insert(i as int, task));
            assert forall|a: int, b: int| 0 <= a < b < np.len() implies key_le(
                #[trigger] np[a],
                #[trigger] np[b],
            ) by {
                if b < i {
                    assert(np[a] == old_pending[a] && np[b] == old_pending[b]);
                } else if b == i {
                    assert(np[a] == old_pending[a]);
                } else if a < i {
                    assert(np[a] == old_pending[a] && np[b] == old_pending[b - 1]);
                    assert(key_le(old_pending[a], task));
                } else if a == i {
                    assert(np[b] == old_pending[b - 1]);
                } else {
                    assert(np[a] == old_pending[a - 1] && np[b] == old_pending[b - 1]);
                }
            }
        }
    }

    fn has_work(&self) -> (r: bool)
        ensures
            r == (self.pending@.len() > 0 || self.high@.len() > 0 || self.low@.len() > 0),
    {
        !(self.pending.len() == 0 && self.high.len() == 0 && self.low.len() == 0)
    }

    fn push_ready_task(&mut self, task: PreemptiveTask)
        ensures
            task.priority == Priority::High ==> final(self).high@ == old(self).high@.push(task)
                && final(self).low@ == old(self).low@,
            task.priority == Priority::Low ==> final(self).low@ == old(self).low@.push(task)
                && final(self).high@ == old(self).high@,
            final(self).pending@ == old(self).pending@,
    {
        match task.priority {
            Priority::High => self.high.push_back(task),
            Priority::Low => self.low.push_back(task),
        }
    }

    /// Moves every pending task that is ready at `tick` to its priority queue,
    /// in pending order.
    fn release_ready_tasks(&mut self, tick: u64)
        ensures
            final(self).pending@ == waiting(old(self).pending@, tick as int),
            final(self).high@ == old(self).high@ + ready_of(
                old(self).pending@,
                tick as int,
                Priority::High,
            ),
            final(self).low@ == old(self).low@ + ready_of(
                old(self).pending@,
                tick as int,
                Priority::Low,
            ),
    {
        let ghost orig = self.pending@;
        let ghost high0 = self.high@;
        let ghost low0 = self.low@;
        let ghost t = tick as int;
        let mut index: usize = 0;
        let ghost mut j: int = 0;
        proof {
            assert(orig.take(0) =~= Seq::<PreemptiveTask>::empty());
            assert(orig.skip(0) =~= orig);
        }
        while index < self.pending.len()
            invariant
                0 <= j <= orig.len(),
                self.pending@ == waiting(orig.take(j), t) + orig.skip(j),
                index == waiting(orig.take(j), t).len(),
                self.high@ == high0 + ready_of(orig.take(j), t, Priority::High),
                self.low@ == low0 + ready_of(orig.take(j), t, Priority::Low),
                t == tick as int,
            decreases orig.len() - j,
        {
            proof {
                assert(self.pending@[index as int] == orig[j]);
                assert(orig.take(j + 1).drop_last() =~= orig.take(j));
                assert(orig.take(j + 1).last() == orig[j]);
                assert(orig.skip(j) =~= seq![orig[j]] + orig.skip(j + 1));
            }
            if self.pending[index].ready_at_tick <= tick {
                let task = self.pending.remove(index);
                self.push_ready_task(task);
                proof {
                    assert(self.pending@ =~= waiting(orig.take(j + 1), t) + orig.skip(j + 1));
                    assert(self.high@ =~= high0 + ready_of(orig.take(j + 1), t, Priority::High));
                    assert(self.low@ =~= low0 + ready_of(orig.take(j + 1), t, Priority::Low));
                }
            } else {
                index = index + 1;
                proof {
                    assert(self.pending@ =~= waiting(orig.take(j + 1), t) + orig.skip(j + 1));
                }
            }
            proof {
                j = j + 1;
            }
        }
        proof {
            assert(orig.take(j) =~= orig);
        }
    }

    fn pop_next_task(&mut self) -> (r: Option<PreemptiveTask>)
        ensures
            old(self).high@.len() > 0 ==> r == Some(old(self).high@[0]) && final(self).high@
                == old(self).high@.drop_first() && final(self).low@ == old(self).low@,
            old(self).high@.len() == 0 && old(self).low@.len() > 0 ==> r == Some(old(self).low@[0])
                && final(self).low@ == old(self).low@.drop_first() && final(self).high@ == old(
                self,
            ).high@,
            old(self).high@.len() == 0 && old(self).low@.len() == 0 ==> r is None && final(self).high@
                == old(self).high@ && final(self).low@ == old(self).low@,
            final(self).pending@ == old(self).pending@,
    {
        match self.high.pop_front() {
            Some(task) => Some(task),
            None => self.low.pop_front(),
        }
    }

    fn next_ready_tick(&self, current_tick: u64) -> (r: u64)
        requires
            next_release(self.pending@, current_tick as int) is Some || current_tick < u64::MAX,
        ensures
            r == match next_release(self.pending@, current_tick as int) {
                Some(t) => t,
                None => current_tick + 1,
            },
    {
        let mut best: Option<u64> = None;
        let mut i: usize = 0;
        while i < self.pending.len()
            invariant
                i <= self.pending@.len(),
                match next_release(self.pending@.take(i as int), current_tick as int) {
                    Some(t) => best is Some && best.unwrap() == t,
                    None => best is None,
                },
            decreases self.pending@.len() - i,
        {
            proof {
                assert(self.pending@.take(i + 1).drop_last() =~= self.pending@.take(i as int));
                assert(self.pending@.take(i + 1).last() == self.pending@[i as int]);
            }
            let ready_at = self.pending[i].ready_at_tick;
            if ready_at > current_tick {
                best = match best {
                    Some(b) => if ready_at < b { Some(ready_at) } else { Some(b) },
                    None => Some(ready_at),
                };
            }
            i = i + 1;
        }
        proof {
            assert(self.pending@.take(i as int) =~= self.pending@);
        }
        match best {
            Some(b) => b,
            None => current_tick + 1,
        }
    }
}

impl PreemptivePriorityScheduler {
    spec fn state_of(
        &self,
        tick: u64,
        events: Seq<DispatchEvent>,
        completed: Seq<&'static str>,
    ) -> SimState {
        SimState {
            pending: self.pending@,
            high: self.high@,
            low: self.low@,
            tick: tick as int,
            events,
            completed,
        }
    }

    /// Runs the simulation to the end: the dispatch events and completion
    /// order are those of `run_spec` from tick 0.
    pub fn run(self) -> (trace: PreemptiveTrace)
        requires
            sim_inv(self.initial_state()),
            fits_in_ticks(self.initial_state()),
        ensures
            trace.dispatch_events@ == run_spec(self.initial_state()).events,
            trace.completion_order@ == run_spec(self.initial_state()).completed,
    {
        let ghost init = self.initial_state();
        let mut sched = self;
        let mut tick: u64 = 0;
        let mut dispatch_events: Vec<DispatchEvent> = Vec::new();
        let mut completion_order: Vec<&'static str> = Vec::new();
        proof {
            assert(sched.state_of(tick, dispatch_events@, completion_order@) == init);
        }
        while sched.has_work()
            invariant
                sim_inv(sched.state_of(tick, dispatch_events@, completion_order@)),
                fits_in_ticks(sched.state_of(tick, dispatch_events@, completion_order@)),
                run_spec(sched.state_of(tick, dispatch_events@, completion_order@)) == run_spec(
                    init,
                ),
            decreases measure(sched.state_of(tick, dispatch_events@, completion_order@)),
        {
            let ghost st = sched.state_of(tick, dispatch_events@, completion_order@);
            proof {
                lemma_step_measure(st);
                lemma_step_fits(st);
                lemma_work_nonneg(st.pending);
                lemma_work_nonneg(st.high);
                lemma_work_nonneg(st.low);
                let nx = sim_step(st);
                lemma_work_nonneg(nx.pending);
                lemma_work_nonneg(nx.high);
                lemma_work_nonneg(nx.low);
                lemma_release_split(st.pending, st.tick);
                assert(all_positive(released_high(st)));
                assert(all_positive(released_low(st)));
            }
            sched.release_ready_tasks(tick);
            let next = sched.pop_next_task();
            match next {
                None => {
                    tick = sched.next_ready_tick(tick);
                },
                Some(task) => {
                    proof {
                        assert(task.remaining_ticks > 0);
                    }
                    dispatch_events.push(
                        DispatchEvent { tick, task: task.name, priority: task.priority },
                    );
                    let mut task = task;
                    task.remaining_ticks = task.remaining_ticks - 1;
                    if task.remaining_ticks == 0 {
                        completion_order.push(task.name);
                    } else {
                        sched.push_ready_task(task);
                    }
                    tick = tick + 1;
                },
            }
            proof {
                let nt = sched.state_of(tick, dispatch_events@, completion_order@);
                assert(nt == sim_step(st));
            }
        }
        PreemptiveTrace { dispatch_events, completion_order }
    }
}

/// A low-priority task needing three ticks starts at tick 0; a one-tick
/// high-priority task becomes ready at tick 1 and preempts it.
pub fn preemptive_priority_demo_trace() -> (trace: PreemptiveTrace)
    ensures
        trace.dispatch_events@ == seq![
            DispatchEvent { tick: 0, task: "low-long", priority: Priority::Low },
            DispatchEvent { tick: 1, task: "high-short", priority: Priority::High },
            DispatchEvent { tick: 2, task: "low-long", priority: Priority::Low },
            DispatchEvent { tick: 3, task: "low-long", priority: Priority::Low },
        ],
        trace.completion_order@ == seq!["high-short", "low-long"],
{
    let mut scheduler = PreemptivePriorityScheduler::new();
    let low = PreemptiveTask::new("low-long", Priority::Low, 0, 3);
    let high = PreemptiveTask::new("high-short", Priority::High, 1, 1);
    scheduler.spawn(low);
    let ghost after_low = scheduler.pending_tasks();
    proof {
        assert(after_low =~= seq![low]);
    }
    scheduler.spawn(high);
    proof {
        let p = choose|p: int|
            0 <= p <= after_low.len() && scheduler.pending_tasks() == after_low.insert(p, high) && (
            forall|i: int| 0 <= i < p ==> key_le(#[trigger] after_low[i], high)) && (forall|i: int|
                p <= i < after_low.len() ==> !key_le(#[trigger] after_low[i], high));
        if p == 0 {
            assert(!key_le(after_low[0], high));
        }
        assert(scheduler.pending_tasks() =~= seq![low, high]);
    }
    let ghost s0 = scheduler.initial_state();
    proof {
        reveal_with_fuel(work_of, 3);
        reveal_with_fuel(waiting, 3);
        reveal_with_fuel(ready_of, 3);
        reveal_with_fuel(next_release, 3);
        let l2 = PreemptiveTask { remaining_ticks: 2, ..low };
        let l1 = PreemptiveTask { remaining_ticks: 1, ..low };
        let e0 = DispatchEvent { tick: 0, task: "low-long", priority: Priority::Low };
        let e1 = DispatchEvent { tick: 1, task: "high-short", priority: Priority::High };
        let e2 = DispatchEvent { tick: 2, task: "low-long", priority: Priority::Low };
        let e3 = DispatchEvent { tick: 3, task: "low-long", priority: Priority::Low };
        let empty = Seq::<PreemptiveTask>::empty();
        let s1 = SimState {
            pending: seq![high],
            high: empty,
            low: seq![l2],
            tick: 1,
            events: seq![e0],
            completed: Seq::empty(),
        };
        let s2 = SimState {
            pending: empty,
            high: empty,
            low: seq![l2],
            tick: 2,
            events: seq![e0, e1],
            completed: seq!["high-short"],
        };
        let s3 = SimState {
            pending: empty,
            high: empty,
            low: seq![l1],
            tick: 3,
            events: seq![e0, e1, e2],
            completed: seq!["high-short"],
        };
        let s4 = SimState {
            pending: empty,
            high: empty,
            low: empty,
            tick: 4,
            events: seq![e0, e1, e2, e3],
            completed: seq!["high-short", "low-long"],
        };
        assert(s0.pending =~= seq![low, high]);
        assert(waiting(s0.pending, 0) =~= seq![high]);
        assert(ready_of(s0.pending, 0, Priority::Low) =~= seq![low]);
        assert(ready_of(s0.pending, 0, Priority::High) =~= empty);
        assert(released_low(s0) =~= seq![low]);
        assert(released_high(s0) =~= empty);
        assert(released_low(s0).drop_first().push(l2) =~= seq![l2]);
        assert(sim_step(s0).low =~= s1.low);
        assert(sim_step(s0).events =~= s1.events);
        assert(sim_step(s0) =~= s1);
        assert(waiting(s1.pending, 1) =~= empty);
        assert(ready_of(s1.pending, 1, Priority::High) =~= seq![high]);
        assert(ready_of(s1.pending, 1, Priority::Low) =~= empty);
        assert(released_high(s1) =~= seq![high]);
        assert(released_low(s1) =~= seq![l2]);
        assert(sim_step(s1).high =~= s2.high);
        assert(sim_step(s1).events =~= s2.events);
        assert(sim_step(s1).completed =~= s2.completed);
        assert(sim_step(s1) =~= s2);
        assert(waiting(s2.pending, 2) =~= empty);
        assert(released_high(s2) =~= empty);
        assert(released_low(s2) =~= seq![l2]);
        assert(released_low(s2).drop_first().push(l1) =~= seq![l1]);
        assert(sim_step(s2).low =~= s3.low);
        assert(sim_step(s2).events =~= s3.events);
        assert(sim_step(s2) =~= s3);
        assert(waiting(s3.pending, 3) =~= empty);
        assert(released_high(s3) =~= empty);
        assert(released_low(s3) =~= seq![l1]);
        assert(released_low(s3).drop_first() =~= empty);
        assert(sim_step(s3).low =~= s4.low);
        assert(sim_step(s3).events =~= s4.events);
        assert(sim_step(s3).completed =~= s4.completed);
        assert(sim_step(s3) =~= s4);
        assert(sim_inv(s0) && sim_inv(s1) && sim_inv(s2) && sim_inv(s3) && sim_inv(s4));
        assert(run_spec(s4) == s4);
        assert(run_spec(s3) == run_spec(s4));
        assert(run_spec(s2) == run_spec(s3));
        assert(run_spec(s1) == run_spec(s2));
        assert(run_spec(s0) == run_spec(s1));
        assert(total_work(s0) == 4);
    }
    scheduler.run()
}

/// Conservation law of the whole simulation: every remaining tick of work is
/// dispatched exactly once and every task completes exactly once, so the run
/// ends with `total_work` more dispatch events and as many more completions
/// as there were tasks.
pub proof fn law_run_conserves_work(s: SimState)
    requires
        sim_inv(s),
    ensures
        run_spec(s).events.len() == s.events.len() + total_work(s),
        run_spec(s).completed.len() == s.completed.len() + s.pending.len() + s.high.len()
            + s.low.len(),
        !has_work(run_spec(s)),
    decreases measure(s),
{
    if has_work(s) {
        lemma_step_measure(s);
        law_run_conserves_work(sim_step(s));
        lemma_step_counts(s);
    } else {
        assert(s.pending.len() == 0 && s.high.len() == 0 && s.low.len() == 0);
        assert(total_work(s) == 0);
    }
}

proof fn lemma_step_counts(s: SimState)
    requires
        sim_inv(s),
        has_work(s),
    ensures
        sim_step(s).events.len() + total_work(sim_step(s)) == s.events.len() + total_work(s),
        sim_step(s).completed.len() + sim_step(s).pending.len() + sim_step(s).high.len()
            + sim_step(s).low.len() == s.completed.len() + s.pending.len() + s.high.len()
            + s.low.len(),
{
    lemma_step_measure(s);
    lemma_release_split(s.pending, s.tick);
}

} // verus!
