//! A whole run of the green-thread scheduler: the start from the main
//! context, then one scheduling step each time the running thread yields or
//! returns, as `run_begin`, `yield_current` and `finish_current` take them.

use vstd::prelude::*;
use crate::green_thread::{
    allowed_move, allowed_moves, law_finish_step, law_run_begin_step, law_yield_step, one_running,
    picks_from, with_state, FlowState, GreenThread,
};

verus! {

/// What the running thread does next.
#[derive(Clone, Copy, Debug, PartialEq, Eq, Structural)]
pub enum RunStep {
    /// It calls `yield_now`.
    Yield,
    /// It returns from its entry.
    Finish,
}

/// The thread table and current thread after the running thread `from`
/// takes `step` and the scheduler picks `r` (as `yield_current` and
/// `finish_current` state it).
pub open spec fn next_state<E>(
    threads: Seq<GreenThread<E>>,
    from: usize,
    step: RunStep,
    r: Option<usize>,
) -> (Seq<GreenThread<E>>, Option<usize>) {
    match step {
        RunStep::Yield => {
            let ready = with_state(threads, from as int, FlowState::Ready);
            match r {
                Some(to) => (with_state(ready, to as int, FlowState::Running), Some(to)),
                None => (with_state(ready, from as int, FlowState::Running), Some(from)),
            }
        },
        RunStep::Finish => {
            let finished = with_state(threads, from as int, FlowState::Finished);
            match r {
                Some(to) => (with_state(finished, to as int, FlowState::Running), Some(to)),
                None => (finished, None),
            }
        },
    }
}

/// `r` is the scheduler's pick for the running thread `from` taking `step`.
pub open spec fn picked<E>(threads: Seq<GreenThread<E>>, from: usize, step: RunStep, r: Option<usize>) -> bool {
    match step {
        RunStep::Yield => picks_from(with_state(threads, from as int, FlowState::Ready), Some(from), Some(from), r),
        RunStep::Finish => picks_from(with_state(threads, from as int, FlowState::Finished), Some(from), None, r),
    }
}

/// The state after the start, which dispatches `first`, and the first `k`
/// steps, with their picks.
pub open spec fn run_state<E>(
    t0: Seq<GreenThread<E>>,
    first: usize,
    steps: Seq<RunStep>,
    picks: Seq<Option<usize>>,
    k: nat,
) -> (Seq<GreenThread<E>>, Option<usize>)
    decreases k,
{
    if k == 0 {
        (with_state(t0, first as int, FlowState::Running), Some(first))
    } else {
        let prev = run_state(t0, first, steps, picks, (k - 1) as nat);
        next_state(prev.0, prev.1->0, steps[k - 1], picks[k - 1])
    }
}

/// The run is well formed: it starts on a table of Ready threads by
/// dispatching the scheduler's pick, every step is taken by the thread then
/// running and follows the scheduler's pick, and the run ends at the latest
/// with the last step.
pub open spec fn valid_run<E>(
    t0: Seq<GreenThread<E>>,
    first: usize,
    steps: Seq<RunStep>,
    picks: Seq<Option<usize>>,
) -> bool {
    &&& t0.len() <= usize::MAX
    &&& forall|i: int| 0 <= i < t0.len() ==> (#[trigger] t0[i]).state == FlowState::Ready
    &&& picks_from(t0, None, None, Some(first))
    &&& steps.len() == picks.len()
    &&& forall|k: int|
        0 <= k < steps.len() ==> {
            let s = #[trigger] run_state(t0, first, steps, picks, k as nat);
            s.1 is Some && picked(s.0, s.1->0, steps[k], picks[k])
        }
}

proof fn lemma_run_prefix<E>(
    t0: Seq<GreenThread<E>>,
    first: usize,
    steps: Seq<RunStep>,
    picks: Seq<Option<usize>>,
    k: nat,
)
    requires
        valid_run(t0, first, steps, picks),
        k <= steps.len(),
    ensures
        run_state(t0, first, steps, picks, k).0.len() == t0.len(),
        one_running(run_state(t0, first, steps, picks, k).0, run_state(t0, first, steps, picks, k).1),
        k > 0 ==> allowed_moves(
            run_state(t0, first, steps, picks, (k - 1) as nat).0,
            run_state(t0, first, steps, picks, k).0,
        ),
    decreases k,
{
    if k == 0 {
        assert forall|i: int| 0 <= i < t0.len() && (#[trigger] t0[i]).state == FlowState::Running implies None::<usize>
            == Some(i as usize) by {}
        law_run_begin_step(t0, Some(first));
    } else {
        lemma_run_prefix(t0, first, steps, picks, (k - 1) as nat);
        let prev = run_state(t0, first, steps, picks, (k - 1) as nat);
        let from = prev.1->0;
        assert(prev.1 is Some && picked(prev.0, from, steps[k - 1], picks[k - 1]));
        match steps[k - 1] {
            RunStep::Yield => law_yield_step(prev.0, from, picks[k - 1]),
            RunStep::Finish => law_finish_step(prev.0, from, picks[k - 1]),
        }
    }
}

proof fn lemma_finished_stays<E>(
    t0: Seq<GreenThread<E>>,
    first: usize,
    steps: Seq<RunStep>,
    picks: Seq<Option<usize>>,
    k: nat,
    j: nat,
    i: int,
)
    requires
        valid_run(t0, first, steps, picks),
        k <= j <= steps.len(),
        0 <= i < t0.len(),
        run_state(t0, first, steps, picks, k).0[i].state == FlowState::Finished,
    ensures
        run_state(t0, first, steps, picks, j).0[i].state == FlowState::Finished,
    decreases j - k,
{
    if k < j {
        lemma_finished_stays(t0, first, steps, picks, k, (j - 1) as nat, i);
        lemma_run_prefix(t0, first, steps, picks, j);
        let before = run_state(t0, first, steps, picks, (j - 1) as nat).0;
        assert(allowed_move(before[i].state, run_state(t0, first, steps, picks, j).0[i].state));
    }
}

/// Whole-run law of the green-thread scheduler. Along any run that starts
/// from the main context on Ready threads and follows the scheduler's
/// picks: at every point at most one thread is Running and it is the current
/// one; every thread only keeps its state or moves Ready to Running, Running
/// to Ready or Running to Finished; a Finished thread stays Finished and is
/// never dispatched again; and when the run returns to the main context
/// (no current thread) every thread has Finished.
pub proof fn law_whole_run<E>(
    t0: Seq<GreenThread<E>>,
    first: usize,
    steps: Seq<RunStep>,
    picks: Seq<Option<usize>>,
)
    requires
        valid_run(t0, first, steps, picks),
    ensures
        forall|k: nat|
            k <= steps.len() ==> one_running(
                (#[trigger] run_state(t0, first, steps, picks, k)).0,
                run_state(t0, first, steps, picks, k).1,
            ),
        forall|k: nat|
            0 < k <= steps.len() ==> allowed_moves(
                run_state(t0, first, steps, picks, (k - 1) as nat).0,
                (#[trigger] run_state(t0, first, steps, picks, k)).0,
            ),
        forall|k: nat, j: nat, i: int|
            #![trigger run_state(t0, first, steps, picks, k).0[i], run_state(t0, first, steps, picks, j).0[i]]
            k <= j <= steps.len() && 0 <= i < t0.len() && run_state(t0, first, steps, picks, k).0[i].state
                == FlowState::Finished ==> run_state(t0, first, steps, picks, j).0[i].state
                == FlowState::Finished,
        run_state(t0, first, steps, picks, steps.len()).1 is None ==> forall|i: int|
            0 <= i < t0.len() ==> (#[trigger] run_state(t0, first, steps, picks, steps.len()).0[i]).state
                == FlowState::Finished,
{
    assert forall|k: nat| k <= steps.len() implies one_running(
        (#[trigger] run_state(t0, first, steps, picks, k)).0,
        run_state(t0, first, steps, picks, k).1,
    ) by {
        lemma_run_prefix(t0, first, steps, picks, k);
    }
    assert forall|k: nat| 0 < k <= steps.len() implies allowed_moves(
        run_state(t0, first, steps, picks, (k - 1) as nat).0,
        (#[trigger] run_state(t0, first, steps, picks, k)).0,
    ) by {
        lemma_run_prefix(t0, first, steps, picks, k);
    }
    assert forall|k: nat, j: nat, i: int|
        #![trigger run_state(t0, first, steps, picks, k).0[i], run_state(t0, first, steps, picks, j).0[i]]
        k <= j <= steps.len() && 0 <= i < t0.len() && run_state(t0, first, steps, picks, k).0[i].state
            == FlowState::Finished implies run_state(t0, first, steps, picks, j).0[i].state
        == FlowState::Finished by {
        lemma_finished_stays(t0, first, steps, picks, k, j, i);
    }
    let n = steps.len();
    if run_state(t0, first, steps, picks, n).1 is None {
        // The run can only leave the threads when the last thread finishes.
        assert(n > 0);
        let prev = run_state(t0, first, steps, picks, (n - 1) as nat);
        lemma_run_prefix(t0, first, steps, picks, (n - 1) as nat);
        assert(prev.1 is Some && picked(prev.0, prev.1->0, steps[n - 1], picks[n - 1]));
        assert(steps[n - 1] == RunStep::Finish && picks[n - 1] is None);
        law_finish_step(prev.0, prev.1->0, None);
    }
}

} // verus!
