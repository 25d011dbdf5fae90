use arceos_async_lab::bench::{
    child_report_line, default_urls, mock_urls, parse_bench_args, parse_child_report, vm_rss_kib, CrawlSample,
};
use std::time::Duration;

#[test]
fn url_lists_cycle_through_their_seeds() {
    let urls = default_urls(4);
    assert_eq!(urls, vec!["https://example.com/", "https://www.rust-lang.org/", "https://docs.rs/", "https://example.com/"]);
    let mock = mock_urls(2);
    assert_eq!(mock, vec!["mock://25/1024", "mock://35/2048"]);
    assert!(mock_urls(0).is_empty());
}

#[test]
fn bench_sample_keeps_whole_milliseconds() {
    let s = CrawlSample::new("u".to_string(), Duration::from_millis(12), 3, true);
    assert_eq!(s.latency_ms, 12);
    assert_eq!(s.bytes, 3);
    assert!(s.ok);
}

#[test]
fn resident_memory_is_read_from_the_first_vmrss_line() {
    assert_eq!(vm_rss_kib("Name: x\nVmRSS:\t  1234 kB\nVmRSS: 5 kB\n"), Some(1234));
    assert_eq!(vm_rss_kib("VmRSS:\n"), None);
    assert_eq!(vm_rss_kib("VmSize: 3 kB"), None);
    assert_eq!(vm_rss_kib("VmRSS: big kB\nVmRSS: 5 kB"), None);
}

fn args(v: &[&str]) -> Vec<String> {
    v.iter().map(|s| s.to_string()).collect()
}

#[test]
fn bench_arguments_default_and_override() {
    assert_eq!(parse_bench_args(&args(&[])), (9, false));
    assert_eq!(parse_bench_args(&args(&["--mock", "--requests", "60"])), (60, true));
    assert_eq!(parse_bench_args(&args(&["--requests", "0"])), (1, false));
    assert_eq!(parse_bench_args(&args(&["--requests", "many", "--mock"])), (9, true));
    assert_eq!(parse_bench_args(&args(&["--other", "--requests"])), (9, false));
}

#[test]
fn child_report_roundtrips() {
    let s = CrawlSample::new("mock://25/1024".to_string(), std::time::Duration::from_millis(26), 1024, true);
    let line = child_report_line(&s);
    assert_eq!(line, "true|26|1024|mock://25/1024");
    let back = parse_child_report(&format!("{line}\n"));
    assert_eq!(back.url, s.url);
    assert_eq!(back.latency_ms, 26);
    assert_eq!(back.bytes, 1024);
    assert!(back.ok);
}

#[test]
fn broken_child_report_reads_defaults() {
    let s = parse_child_report("");
    assert!(!s.ok);
    assert_eq!((s.latency_ms, s.bytes), (0, 0));
    assert_eq!(s.url, "unknown");
    let t = parse_child_report("true|x|5");
    assert!(t.ok);
    assert_eq!((t.latency_ms, t.bytes), (0, 5));
    assert_eq!(t.url, "unknown");
}
