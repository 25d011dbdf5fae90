use arceos_async_lab::green_thread::{initial_rsp, Context, FlowState, Runtime, SwitchAction};

fn noop() {}

fn spawn_noop(runtime: &mut Runtime<fn()>, name: &'static str, priority: usize) {
    runtime.spawn_with_priority(name, priority, noop as fn());
}

#[test]
fn high_priority_ready_thread_runs_first() {
    let mut runtime = Runtime::new();
    spawn_noop(&mut runtime, "low", 1);
    spawn_noop(&mut runtime, "high", 10);
    spawn_noop(&mut runtime, "mid", 5);

    assert_eq!(runtime.pick_next(None), Some(1));
}

#[test]
fn same_priority_uses_round_robin_order() {
    let mut runtime = Runtime::new();
    spawn_noop(&mut runtime, "a", 7);
    spawn_noop(&mut runtime, "b", 7);
    spawn_noop(&mut runtime, "c", 7);

    runtime.current = Some(0);
    assert_eq!(runtime.pick_next(Some(0)), Some(1));

    runtime.current = Some(1);
    assert_eq!(runtime.pick_next(Some(1)), Some(2));

    runtime.current = Some(2);
    assert_eq!(runtime.pick_next(Some(2)), Some(0));
}

#[test]
fn yielded_thread_rejoins_priority_scheduling() {
    let mut runtime = Runtime::new();
    spawn_noop(&mut runtime, "high", 10);
    spawn_noop(&mut runtime, "low", 1);

    runtime.current = Some(0);
    runtime.threads[0].state = FlowState::Running;
    runtime.transition(0, FlowState::Ready, "test-yield");
    assert_eq!(runtime.pick_next(Some(0)), Some(1));

    runtime.current = Some(1);
    runtime.threads[1].state = FlowState::Running;
    runtime.transition(1, FlowState::Ready, "test-yield");
    assert_eq!(runtime.pick_next(Some(1)), Some(0));
}

#[test]
fn spawn_traces_creation_and_defaults_to_priority_zero() {
    let mut runtime: Runtime<fn()> = Runtime::new();
    runtime.spawn("solo", noop as fn());
    assert_eq!(runtime.threads.len(), 1);
    assert_eq!(runtime.threads[0].priority, 0);
    assert_eq!(runtime.threads[0].state, FlowState::Ready);
    let lines = runtime.take_trace();
    assert_eq!(
        lines,
        vec!["[trace #000] task:create id=0 name=solo priority=0 state=Ready stack=65536B".to_string()]
    );
}

#[test]
fn no_ready_thread_means_no_pick() {
    let mut runtime = Runtime::new();
    spawn_noop(&mut runtime, "only", 3);
    runtime.current = Some(0);
    runtime.threads[0].state = FlowState::Running;
    assert_eq!(runtime.pick_next(Some(0)), None);
}

#[test]
fn run_begins_with_a_switch_to_the_best_thread() {
    let mut runtime = Runtime::new();
    spawn_noop(&mut runtime, "low", 1);
    spawn_noop(&mut runtime, "high", 9);
    assert_eq!(runtime.run_begin(), SwitchAction::FromMain { to: 1 });
    assert_eq!(runtime.current, Some(1));
    assert_eq!(runtime.threads[1].state, FlowState::Running);
}

#[test]
fn finishing_the_last_thread_returns_to_main() {
    let mut runtime = Runtime::new();
    spawn_noop(&mut runtime, "only", 2);
    assert_eq!(runtime.run_begin(), SwitchAction::FromMain { to: 0 });
    assert_eq!(runtime.finish_current(), SwitchAction::ToMain { from: 0 });
    assert_eq!(runtime.threads[0].state, FlowState::Finished);
}

#[test]
fn yield_moves_to_the_next_thread_of_equal_priority() {
    let mut runtime = Runtime::new();
    spawn_noop(&mut runtime, "a", 4);
    spawn_noop(&mut runtime, "b", 4);
    assert_eq!(runtime.run_begin(), SwitchAction::FromMain { to: 0 });
    assert_eq!(runtime.yield_current(), SwitchAction::Between { from: 0, to: 1 });
    assert_eq!(runtime.yield_current(), SwitchAction::Between { from: 1, to: 0 });
}

#[test]
fn context_and_initial_stack_pointer() {
    let c = Context::with_rsp(4096);
    assert_eq!(c.rsp, 4096);
    assert_eq!(c.rbp, 0);
    assert_eq!(c.r15, 0);
    assert_eq!(initial_rsp(0x1000), 0x0ff0);
    assert_eq!(initial_rsp(0x1009), 0x0ff0);
    assert_eq!(initial_rsp(0x101f), 0x1000);
}

#[test]
fn a_whole_run_ends_with_every_thread_finished() {
    let mut runtime = Runtime::new();
    spawn_noop(&mut runtime, "a", 2);
    spawn_noop(&mut runtime, "b", 2);
    spawn_noop(&mut runtime, "c", 1);
    let mut action = runtime.run_begin();
    assert_eq!(action, SwitchAction::FromMain { to: 0 });
    let mut yields = 0;
    loop {
        let running: Vec<usize> =
            (0..3).filter(|&i| runtime.threads[i].state == FlowState::Running).collect();
        match runtime.current {
            Some(c) => assert_eq!(running, vec![c]),
            None => assert!(running.is_empty()),
        }
        if matches!(action, SwitchAction::ToMain { .. }) {
            break;
        }
        action = if yields < 2 {
            yields += 1;
            runtime.yield_current()
        } else {
            runtime.finish_current()
        };
    }
    assert_eq!(runtime.current, None);
    assert!(runtime.threads.iter().all(|t| t.state == FlowState::Finished));
}
