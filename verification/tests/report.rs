use std::time::Duration;

use arceos_async_lab::bench::{self, sort_latencies, sorted_ok_latencies};
use arceos_async_lab::crawl::child::{child_sample, parse_child_args};
use arceos_async_lab::crawl::page::sanitize_file_name;
use arceos_async_lab::crawl::report::{crawl_counts, school_result_lines, sorted_success_latencies};
use arceos_async_lab::crawl::sample::sample_of_outcome;
use arceos_async_lab::crawl::{looks_like_header, parse_schools, sample_to_tsv, split_csv_line, CrawlSample};
use arceos_async_lab::experiment::metrics::{blocked_threads, ProcSample};
use arceos_async_lab::experiment::models::{validate_options, RunConfig};

fn samples() -> Vec<CrawlSample> {
    vec![
        CrawlSample::success("清华大学".into(), "u1".into(), Duration::from_millis(30), 10),
        CrawlSample::failure("北京大学".into(), "u2".into(), Duration::from_millis(5), "timeout"),
        CrawlSample::success("复旦大学".into(), "u3".into(), Duration::from_millis(12), 7),
    ]
}

#[test]
fn crawl_counts_add_up_successes() {
    let c = crawl_counts(&samples());
    assert_eq!(c.total, 3);
    assert_eq!(c.success, 2);
    assert_eq!(c.failed, 1);
    assert_eq!(c.max_ms, 30);
    assert_eq!(c.bytes_saved, 17);
    let empty = crawl_counts(&[]);
    assert_eq!((empty.total, empty.success, empty.max_ms, empty.bytes_saved), (0, 0, 0, 0));
}

#[test]
fn successful_latencies_come_out_sorted() {
    assert_eq!(sorted_success_latencies(&samples()), vec![12, 30]);
    assert_eq!(sort_latencies(&vec![5, 1, 4, 1, 3]), vec![1, 1, 3, 4, 5]);
    let bench_samples = vec![
        bench::CrawlSample::new("a".into(), Duration::from_millis(9), 1, true),
        bench::CrawlSample::new("b".into(), Duration::from_millis(2), 1, true),
        bench::CrawlSample::new("c".into(), Duration::from_millis(1), 0, false),
    ];
    assert_eq!(sorted_ok_latencies(&bench_samples), vec![2, 9]);
}

#[test]
fn school_report_lists_successes_then_failures() {
    let lines = school_result_lines(&samples());
    assert_eq!(
        lines,
        vec![
            "success_schools:",
            "  - 清华大学 latency_ms=30 bytes=10",
            "  - 复旦大学 latency_ms=12 bytes=7",
            "failed_schools:",
            "  - 北京大学 url=u2 latency_ms=5 error=timeout",
        ]
    );
    let none = school_result_lines(&[]);
    assert_eq!(none, vec!["success_schools:", "  - none", "failed_schools:", "  - none"]);
}

#[test]
fn fetch_outcomes_become_samples() {
    let ok = sample_of_outcome("a".into(), "u".into(), Duration::from_millis(3), Ok(99));
    assert!(ok.ok);
    assert_eq!(ok.bytes, 99);
    assert_eq!(ok.latency_ms, 3);
    let bad = sample_of_outcome("a".into(), "u".into(), Duration::from_millis(4), Err("refused".into()));
    assert!(!bad.ok);
    assert_eq!(bad.error.as_deref(), Some("refused"));
}

#[test]
fn child_arguments_are_checked_in_order() {
    let args = |v: &[&str]| v.iter().map(|s| s.to_string()).collect::<Vec<String>>();
    assert_eq!(parse_child_args(&args(&["p", "--child"])).err().unwrap(), "missing child school name");
    assert_eq!(parse_child_args(&args(&["p", "--child", "n"])).err().unwrap(), "missing child school url");
    assert_eq!(parse_child_args(&args(&["p", "--child", "n", "u"])).err().unwrap(), "missing child output dir");
    assert_eq!(parse_child_args(&args(&["p", "--child", "n", "u", "d"])).err().unwrap(), "missing child timeout");
    assert_eq!(parse_child_args(&args(&["p", "--child", "n", "u", "d", "x"])).err().unwrap(), "invalid child timeout");
    let c = parse_child_args(&args(&["p", "--child", "n", "u", "d", "1500"])).ok().unwrap();
    assert_eq!((c.name.as_str(), c.url.as_str(), c.output_dir.as_str(), c.timeout_ms), ("n", "u", "d", 1500));
}

#[test]
fn child_output_gives_the_last_line_sample() {
    let s = CrawlSample::success("清华大学".into(), "u".into(), Duration::from_millis(8), 5);
    let out = format!("noise\n{}\n", sample_to_tsv(&s));
    let got = child_sample("x".into(), "y".into(), &out);
    assert_eq!(got.name, "清华大学");
    assert_eq!(got.latency_ms, 8);
    assert!(got.ok);
    let crlf = format!("{}\r\n", sample_to_tsv(&s));
    assert!(child_sample("x".into(), "y".into(), &crlf).ok);
    let missing = child_sample("x".into(), "y".into(), "");
    assert!(!missing.ok);
    assert_eq!(missing.name, "x");
    assert_eq!(missing.latency_ms, 0);
    assert_eq!(missing.error.as_deref(), Some("child process did not return a crawl sample"));
}

#[test]
fn readme_school_list_and_file_names() {
    let content = "院校名称,官方网站\n北京大学,http://www.pku.edu.cn/\n清华大学,http://www.tsinghua.edu.cn/\n";
    let schools = parse_schools(content);
    assert_eq!(schools.len(), 2);
    assert_eq!(schools[0].name, "北京大学");
    assert_eq!(schools[1].url, "http://www.tsinghua.edu.cn/");
    assert_eq!(sanitize_file_name("清华大学"), "清华大学");
    assert!(looks_like_header(&split_csv_line("name,URL")));
}

#[test]
fn experiment_options_are_checked_in_order() {
    assert_eq!(validate_options(0, 1, 64, 64, 8, 16).unwrap_err(), "--models cannot be empty");
    assert_eq!(validate_options(1, 0, 64, 64, 8, 16).unwrap_err(), "--tasks cannot be empty");
    assert_eq!(validate_options(1, 1, 0, 64, 8, 16).unwrap_err(), "--os-stack-kib must be positive");
    assert_eq!(validate_options(1, 1, 64, 0, 8, 16).unwrap_err(), "--green-stack-kib must be positive");
    assert_eq!(
        validate_options(1, 1, 64, 8, 8, 16).unwrap_err(),
        "--touch-stack-kib must be smaller than both --os-stack-kib and --green-stack-kib"
    );
    assert_eq!(validate_options(1, 1, 64, 64, 8, 0).unwrap_err(), "--kernel-stack-kib must be positive");
    assert!(validate_options(1, 1, 64, 64, 8, 16).is_ok());
    let c = RunConfig::from_options(10, 5, 64, 32, 8, 16, 2, 5);
    assert_eq!((c.os_stack_bytes, c.green_stack_bytes, c.touch_stack_bytes, c.kernel_stack_bytes), (65536, 32768, 8192, 16384));
}

#[test]
fn blocked_threads_add_sleeping_and_uninterruptible() {
    let mut s = ProcSample::default();
    assert_eq!(blocked_threads(&s), Some(0));
    s.sleeping_kernel_threads = Some(4);
    s.uninterruptible_kernel_threads = Some(2);
    assert_eq!(blocked_threads(&s), Some(6));
    s.sleeping_kernel_threads = Some(usize::MAX);
    assert_eq!(blocked_threads(&s), None);
}

#[test]
fn latencies_are_whole_milliseconds_rounded_down() {
    let s = CrawlSample::failure("n".into(), "u".into(), Duration::from_micros(2500), "boom");
    assert_eq!(s.latency_ms, 2);
    assert_eq!(s.error.as_deref(), Some("boom"));
    let t = CrawlSample::success("n".into(), "u".into(), Duration::new(3, 999_999_999), 1);
    assert_eq!(t.latency_ms, 3999);
    let b = bench::CrawlSample::new("u".into(), Duration::from_nanos(1_999_999), 0, true);
    assert_eq!(b.latency_ms, 1);
    assert_eq!(arceos_async_lab::experiment::models::elapsed_millis(&Duration::from_micros(7_300)), 7);
}

#[test]
fn checksums_combine_by_xor() {
    assert_eq!(arceos_async_lab::experiment::models::combine_checksums(&[]), 0);
    assert_eq!(arceos_async_lab::experiment::models::combine_checksums(&[0b1100, 0b1010, 0b0001]), 0b0111);
}

#[test]
fn wait_channel_counts_report_room() {
    let mut c = arceos_async_lab::experiment::metrics::WaitChannelCounts::new();
    assert!(c.has_room());
    c.add("futex");
    assert!(c.has_room());
}
