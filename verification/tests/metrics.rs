use arceos_async_lab::experiment::metrics::{
    apply_thread_snapshot, bytes_mul, dominant_wait_channel, parse_kib_field, parse_task_state, parse_usize_field,
    peak_u64, peak_usize, proc_sample_from_status, record_counts, wait_channel_name, ProcSample, TaskStateTally,
    WaitChannelCounts,
};
use arceos_async_lab::experiment::models::{
    record_notes, spawn_failure_message, task_checksum, ExecutionModel, RunConfig,
};
use std::time::Duration;

#[test]
fn bytes_mul_saturates_instead_of_overflowing() {
    assert_eq!(bytes_mul(2, 1024), 2048);
    assert_eq!(bytes_mul(usize::MAX, usize::MAX), u64::MAX);
}

#[test]
fn bytes_mul_is_exact_below_the_limit() {
    assert_eq!(bytes_mul(0, 123), 0);
    assert_eq!(bytes_mul(1 << 20, 1 << 20), 1u64 << 40);
}

fn sample(threads: Option<usize>, rss: Option<u64>, channel: Option<&str>, count: Option<usize>) -> ProcSample {
    let mut s = ProcSample::default();
    s.kernel_threads = threads;
    s.vm_rss_bytes = rss;
    s.top_wait_channel = channel.map(|c| c.to_string());
    s.top_wait_channel_count = count;
    s
}

#[test]
fn peaks_take_the_largest_present_value() {
    let samples = vec![sample(Some(3), None, None, None), sample(None, Some(10), None, None), sample(Some(7), Some(4), None, None)];
    assert_eq!(peak_usize(&samples, |s| s.kernel_threads), 7);
    assert_eq!(peak_u64(&samples, |s| s.vm_rss_bytes), 10);
    assert_eq!(peak_u64(&samples, |s| s.vm_size_bytes), 0);
    assert_eq!(peak_usize(&[], |s: &ProcSample| s.kernel_threads), 0);
}

#[test]
fn dominant_wait_channel_prefers_the_last_of_the_largest() {
    let samples = vec![
        sample(None, None, Some("futex"), Some(3)),
        sample(None, None, Some("hrtimer"), Some(5)),
        sample(None, None, Some(""), Some(9)),
        sample(None, None, Some("poll"), Some(0)),
        sample(None, None, Some("ep_poll"), Some(5)),
    ];
    assert_eq!(dominant_wait_channel(&samples), ("ep_poll".to_string(), 5));
    assert_eq!(dominant_wait_channel(&[]), (String::new(), 0));
}

#[test]
fn status_fields_are_read_in_bytes() {
    assert_eq!(parse_kib_field("VmRSS:\t  2048 kB", "VmRSS:"), Some(2048 * 1024));
    assert_eq!(parse_kib_field("VmRSS: x kB", "VmRSS:"), None);
    assert_eq!(parse_kib_field("VmSize: 1 kB", "VmRSS:"), None);
    assert_eq!(parse_kib_field("VmRSS: 18446744073709551615 kB", "VmRSS:"), Some(u64::MAX));
    assert_eq!(parse_usize_field("Threads:\t12", "Threads:"), Some(12));
    assert_eq!(parse_usize_field("Threads:", "Threads:"), None);
}

#[test]
fn status_text_fills_a_sample() {
    let status = "Name:\tlab\nVmSize:\t  100 kB\nVmRSS:\t  20 kB\nVmStk:\t 8 kB\nKernelStack:\t16 kB\nThreads:\t4\n";
    let s = proc_sample_from_status(status);
    assert_eq!(s.vm_size_bytes, Some(100 * 1024));
    assert_eq!(s.vm_rss_bytes, Some(20 * 1024));
    assert_eq!(s.vm_stack_bytes, Some(8 * 1024));
    assert_eq!(s.kernel_stack_bytes, Some(16 * 1024));
    assert_eq!(s.kernel_threads, Some(4));
    assert_eq!(s.running_kernel_threads, None);
}

#[test]
fn task_state_is_the_letter_after_the_command() {
    assert_eq!(parse_task_state("42 (my (odd) cmd) S 1 2 3"), Some('S'));
    assert_eq!(parse_task_state("42 (cmd) R"), Some('R'));
    assert_eq!(parse_task_state("42 cmd S"), None);
    assert_eq!(parse_task_state("42 (cmd)   "), None);
}

#[test]
fn thread_tally_counts_each_state() {
    let mut t = TaskStateTally::new();
    for c in ['R', 'S', 'S', 'D', 't', 'Z', 'I', 'X'] {
        t.add(c);
    }
    assert_eq!(t.total, 8);
    assert_eq!(t.running, 1);
    assert_eq!(t.sleeping, 2);
    assert_eq!(t.uninterruptible, 1);
    assert_eq!(t.stopped, 1);
    assert_eq!(t.zombie, 1);
    assert_eq!(t.idle, 1);

    let mut s = ProcSample::default();
    s.kernel_threads = Some(3);
    apply_thread_snapshot(&mut s, &t, Some(("futex".to_string(), 2)));
    assert_eq!(s.kernel_threads, Some(8));
    assert_eq!(s.sleeping_kernel_threads, Some(2));
    assert_eq!(s.top_wait_channel.as_deref(), Some("futex"));
    assert_eq!(s.top_wait_channel_count, Some(2));

    let mut empty = ProcSample::default();
    empty.kernel_threads = Some(3);
    apply_thread_snapshot(&mut empty, &TaskStateTally::new(), None);
    assert_eq!(empty.kernel_threads, Some(3));
    assert_eq!(empty.running_kernel_threads, Some(0));
    assert_eq!(empty.top_wait_channel, None);
}

#[test]
fn wait_channels_are_counted_and_the_top_one_found() {
    assert_eq!(wait_channel_name("  futex_wait \n"), Some("futex_wait".to_string()));
    assert_eq!(wait_channel_name("0\n"), None);
    assert_eq!(wait_channel_name("   "), None);

    let mut counts = WaitChannelCounts::new();
    assert_eq!(counts.top(), None);
    counts.add("futex");
    counts.add("poll");
    counts.add("futex");
    assert_eq!(counts.top(), Some(("futex".to_string(), 2)));
}

#[test]
fn record_counts_collect_peaks_and_estimates() {
    let mut a = sample(Some(4), Some(100), Some("futex"), Some(2));
    a.sleeping_kernel_threads = Some(2);
    a.uninterruptible_kernel_threads = Some(1);
    let mut b = sample(Some(6), Some(80), None, None);
    b.sleeping_kernel_threads = Some(1);
    let r = record_counts(10, 8192, &[a, b], 4096, 0);
    assert_eq!(r.peak_kernel_threads, 6);
    assert_eq!(r.estimated_user_stack_reserved_bytes, 40960);
    assert_eq!(r.estimated_kernel_stack_reserved_bytes, 6 * 8192);
    assert_eq!(r.total_stack_reserved_bytes, 40960 + 6 * 8192);
    assert_eq!(r.peak_blocked_kernel_threads, 3);
    assert_eq!(r.peak_rss_bytes, 100);
    assert_eq!(r.dominant_wait_channel, "futex");
    assert_eq!(r.sample_count, 2);
}

#[test]
fn model_names_and_run_texts() {
    assert_eq!(ExecutionModel::OsThread.as_str(), "os_thread");
    assert_eq!(ExecutionModel::GreenThread.as_str(), "green_thread");
    assert_eq!(ExecutionModel::AsyncFuture.as_str(), "async_future");
    assert_eq!(
        spawn_failure_message(ExecutionModel::OsThread, 7, 7, "oom"),
        "failed to spawn OS thread 7 after spawning 7 threads: oom; try a smaller --tasks value"
    );
    assert_eq!(
        spawn_failure_message(ExecutionModel::GreenThread, 3, 2, "e"),
        "failed to spawn green thread 3 after spawning 2 green threads: e; try a smaller --tasks value"
    );
    assert_eq!(
        record_notes(ExecutionModel::OsThread, 5),
        "checksum=5; user_stack_reserved = task_count * configured OS thread stack"
    );
    assert_eq!(task_checksum(0b1100, 0b1010), 0b0110);
}

#[test]
fn run_config_durations() {
    let config = RunConfig {
        task_count: 1,
        sleep_ms: 25,
        os_stack_bytes: 1,
        green_stack_bytes: 2,
        touch_stack_bytes: 0,
        kernel_stack_bytes: 3,
        runtime_workers: 0,
        sample_interval_ms: 0,
    };
    assert_eq!(config.sleep_duration(), Duration::from_millis(25));
    assert_eq!(config.sample_interval(), Duration::from_millis(1));
    assert_eq!(config.async_workers(), 1);
    assert_eq!(config.user_stack_bytes(ExecutionModel::GreenThread), 2);
    assert_eq!(config.user_stack_bytes(ExecutionModel::AsyncFuture), 0);
}
