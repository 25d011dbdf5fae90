use arceos_async_lab::priority::{
    preemptive_priority_demo_trace, priority_demo_completion_order, record_completion, Priority,
    PreemptivePriorityScheduler, PreemptiveTask, PriorityScheduler,
};

#[test]
fn high_priority_tasks_complete_before_low_priority_tasks() {
    let order = priority_demo_completion_order();
    let first_low = order.iter().position(|task| task.starts_with("low")).unwrap();
    let last_high = order.iter().rposition(|task| task.starts_with("high")).unwrap();

    assert!(last_high < first_low, "completion order was {order:?}");
}

#[test]
fn high_priority_task_preempts_running_low_priority_task() {
    let trace = preemptive_priority_demo_trace();

    assert_eq!(trace.dispatch_order(), vec!["low-long", "high-short", "low-long", "low-long"]);
    assert_eq!(trace.completion_order, vec!["high-short", "low-long"]);
}

#[test]
fn high_priority_task_completed_before_low_priority() {
    let order = priority_demo_completion_order();
    assert_eq!(order, vec!["high-1", "high-2", "low-1", "low-2"]);
}

#[test]
fn high_priority_task_preempts_low_priority_task() {
    let trace = preemptive_priority_demo_trace();
    assert_eq!(
        trace.dispatch_order(),
        vec!["low-long", "high-short", "low-long", "low-long"]
    );
    assert_eq!(trace.completion_order, vec!["high-short", "low-long"]);
}

#[test]
fn same_priority_jobs_keep_spawn_order() {
    let mut scheduler = PriorityScheduler::new();
    scheduler.spawn(Priority::Low, record_completion("l1"));
    scheduler.spawn(Priority::Low, record_completion("l2"));
    scheduler.spawn(Priority::High, record_completion("h1"));
    scheduler.spawn(Priority::Low, record_completion("l3"));
    assert_eq!(scheduler.run_all(), vec!["h1", "l1", "l2", "l3"]);
}

#[test]
fn empty_scheduler_runs_nothing() {
    let scheduler: PriorityScheduler<fn(Vec<&'static str>) -> Vec<&'static str>> = PriorityScheduler::new();
    assert!(scheduler.run_all().is_empty());
}

#[test]
fn ready_high_task_runs_before_ready_low_task() {
    let mut scheduler = PreemptivePriorityScheduler::new();
    scheduler.spawn(PreemptiveTask::new("low", Priority::Low, 0, 2));
    scheduler.spawn(PreemptiveTask::new("high", Priority::High, 0, 2));
    let trace = scheduler.run();
    assert_eq!(trace.dispatch_order(), vec!["high", "high", "low", "low"]);
    assert_eq!(trace.completion_order, vec!["high", "low"]);
    assert_eq!(trace.dispatch_events[0].tick, 0);
    assert_eq!(trace.dispatch_events[3].tick, 3);
}

#[test]
fn idle_ticks_are_skipped_until_a_task_is_ready() {
    let mut scheduler = PreemptivePriorityScheduler::new();
    scheduler.spawn(PreemptiveTask::new("late", Priority::Low, 5, 1));
    let trace = scheduler.run();
    assert_eq!(trace.dispatch_order(), vec!["late"]);
    assert_eq!(trace.dispatch_events[0].tick, 5);
    assert_eq!(trace.completion_order, vec!["late"]);
}

#[test]
fn total_dispatches_equal_total_work() {
    let mut scheduler = PreemptivePriorityScheduler::new();
    scheduler.spawn(PreemptiveTask::new("a", Priority::Low, 0, 3));
    scheduler.spawn(PreemptiveTask::new("b", Priority::High, 2, 2));
    scheduler.spawn(PreemptiveTask::new("c", Priority::Low, 1, 1));
    let trace = scheduler.run();
    assert_eq!(trace.dispatch_events.len(), 6);
    assert_eq!(trace.completion_order.len(), 3);
}

#[test]
fn spawn_order_matters_only_among_equal_keys() {
    let tasks = [
        PreemptiveTask::new("a", Priority::Low, 0, 2),
        PreemptiveTask::new("b", Priority::High, 1, 1),
        PreemptiveTask::new("c", Priority::Low, 0, 1),
        PreemptiveTask::new("d", Priority::High, 0, 1),
    ];
    let mut s1 = PreemptivePriorityScheduler::new();
    for t in tasks.iter() {
        s1.spawn(t.clone());
    }
    let mut s2 = PreemptivePriorityScheduler::new();
    for i in [3usize, 1, 0, 2] {
        s2.spawn(tasks[i].clone());
    }
    let r1 = s1.run();
    let r2 = s2.run();
    assert_eq!(r1, r2);
    assert_eq!(r1.dispatch_order(), vec!["d", "b", "a", "c", "a"]);
}
