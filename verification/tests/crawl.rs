use std::time::Duration;

use arceos_async_lab::crawl::config::parse_common_args_from;
use arceos_async_lab::crawl::page::{
    html_to_plain_text, mock_latency, mock_plain_text, output_path, parse_mock_url, sanitize_file_name,
};
use arceos_async_lab::crawl::{
    find_header, help_text, load_schools, looks_like_header, mock_schools, normalize_url, parse_schools,
    sample_from_tsv, sample_to_tsv, split_csv_line, CrawlSample,
};

#[test]
fn csv_parser_accepts_chinese_headers() {
    let row = split_csv_line("院校名称,官方网站");
    assert!(looks_like_header(&row));
    assert_eq!(find_header(&row, &["院校名称"]), Some(0));
    assert_eq!(find_header(&row, &["官方网站"]), Some(1));
}

#[test]
fn html_to_plain_text_removes_markup_and_scripts() {
    let html = r#"<html><script>bad()</script><body><h1>标题</h1><p>A&nbsp;&amp;&nbsp;B</p></body></html>"#;
    assert_eq!(html_to_plain_text(html), "标题 A & B\n");
}

#[test]
fn sample_tsv_roundtrip() {
    let sample = CrawlSample::failure(
        "清华大学".into(),
        "https://www.tsinghua.edu.cn/".into(),
        Duration::from_millis(7),
        "network error",
    );
    let parsed = sample_from_tsv(&sample_to_tsv(&sample)).unwrap();
    assert_eq!(parsed.name, "清华大学");
    assert_eq!(parsed.latency_ms, 7);
    assert!(!parsed.ok);
    assert_eq!(parsed.error.as_deref(), Some("network error"));
}

#[test]
fn success_sample_roundtrips_through_tsv() {
    let sample = CrawlSample::success("北京大学".into(), "https://www.pku.edu.cn/".into(), Duration::from_millis(42), 1234);
    let line = sample_to_tsv(&sample);
    let parsed = sample_from_tsv(&line).unwrap();
    assert_eq!(parsed.name, "北京大学");
    assert_eq!(parsed.url, "https://www.pku.edu.cn/");
    assert_eq!(parsed.latency_ms, 42);
    assert_eq!(parsed.bytes, 1234);
    assert!(parsed.ok);
    assert_eq!(parsed.error, None);
}

#[test]
fn tsv_fields_lose_tabs_and_line_breaks() {
    let sample = CrawlSample::failure("a\tb".into(), "u\nv".into(), Duration::from_millis(1), "x\ry");
    let line = sample_to_tsv(&sample);
    assert!(!line.contains('\n'));
    let parsed = sample_from_tsv(&line).unwrap();
    assert_eq!(parsed.name, "a b");
    assert_eq!(parsed.url, "u v");
    assert_eq!(parsed.error.as_deref(), Some("x y"));
}

#[test]
fn malformed_tsv_is_rejected() {
    assert!(sample_from_tsv("only\tthree\tfields").is_none());
    assert!(sample_from_tsv("n\tu\tnot-a-number\t1\ttrue\t").is_none());
}

#[test]
fn csv_fields_are_trimmed_and_quotes_kept_together() {
    let row = split_csv_line(" a , \"b, c\" ,\"say \"\"hi\"\"\"");
    assert_eq!(row, vec!["a".to_string(), "b, c".to_string(), "say \"hi\"".to_string()]);
}

#[test]
fn school_list_with_header_picks_named_columns() {
    let content = "序号,学校名称,官网\n1,清华大学,www.tsinghua.edu.cn\n\n2,北京大学,https://www.pku.edu.cn/\n3,,x.cn\n";
    let schools = parse_schools(content);
    assert_eq!(schools.len(), 2);
    assert_eq!(schools[0].name, "清华大学");
    assert_eq!(schools[0].url, "https://www.tsinghua.edu.cn");
    assert_eq!(schools[1].url, "https://www.pku.edu.cn/");
}

#[test]
fn school_list_without_header_uses_first_two_columns() {
    let schools = parse_schools("清华大学,http://a.cn\n北京大学,b.cn\n");
    assert_eq!(schools.len(), 2);
    assert_eq!(schools[0].url, "http://a.cn");
    assert_eq!(schools[1].url, "https://b.cn");
}

#[test]
fn urls_get_https_when_they_have_no_scheme() {
    assert_eq!(normalize_url("example.com"), "https://example.com");
    assert_eq!(normalize_url("http://x"), "http://x");
    assert_eq!(normalize_url(""), "");
}

#[test]
fn mock_schools_cycle_through_three_urls() {
    let schools = mock_schools(4);
    assert_eq!(schools.len(), 4);
    assert_eq!(schools[0].name, "模拟学校001");
    assert_eq!(schools[0].url, "mock://25/1024");
    assert_eq!(schools[2].url, "mock://45/3072");
    assert_eq!(schools[3].name, "模拟学校004");
    assert_eq!(schools[3].url, "mock://25/1024");
}

#[test]
fn load_schools_applies_limit_to_mock_list() {
    let mut config = arceos_async_lab::crawl::CrawlConfig::defaults(false);
    config.mock = true;
    config.requests = 5;
    config.limit = Some(2);
    let schools = load_schools(&config, "");
    assert_eq!(schools.len(), 2);
    assert_eq!(schools[1].name, "模拟学校002");
}

#[test]
fn args_parse_options_and_report_errors() {
    let args: Vec<String> = ["--mock", "--requests", "3", "--timeout-ms", "250", "--limit", "2", "--output-dir", "out"]
        .iter()
        .map(|s| s.to_string())
        .collect();
    let config = parse_common_args_from(&args, true).unwrap();
    assert!(config.mock);
    assert_eq!(config.requests, 3);
    assert_eq!(config.limit, Some(2));
    assert_eq!(config.timeout, Duration::from_millis(250));
    assert_eq!(config.output_dir, "out");

    let zero: Vec<String> = vec!["--requests".to_string(), "0".to_string()];
    assert_eq!(parse_common_args_from(&zero, true).unwrap().requests, 1);
    let bad: Vec<String> = vec!["--requests".to_string(), "abc".to_string()];
    assert_eq!(parse_common_args_from(&bad, true).unwrap_err(), "invalid --requests value: abc");
    let unknown: Vec<String> = vec!["--frobnicate".to_string()];
    assert!(parse_common_args_from(&unknown, true).is_err());
    let missing: Vec<String> = vec!["--limit".to_string()];
    assert!(parse_common_args_from(&missing, true).is_err());
    assert!(help_text().starts_with("usage: crawler"));
}

#[test]
fn file_names_are_sanitized() {
    assert_eq!(sanitize_file_name("a/b:c"), "a_b_c");
    assert_eq!(sanitize_file_name(" ..x.. "), "x");
    assert_eq!(sanitize_file_name("..."), "school");
    assert_eq!(output_path("out", "清华"), "out/清华");
}

#[test]
fn mock_urls_parse_into_latency_and_size() {
    assert_eq!(parse_mock_url("mock://25/1024"), Some((25, 1024)));
    assert_eq!(parse_mock_url("mock://x/1"), None);
    assert_eq!(parse_mock_url("https://a"), None);
    assert_eq!(mock_latency("mock://35/2048"), Duration::from_millis(35));
    assert_eq!(mock_latency("https://a"), Duration::from_millis(1));
}

#[test]
fn mock_text_is_cut_to_the_requested_length() {
    let text = mock_plain_text("A", "u", 10);
    assert_eq!(text.chars().count(), 10);
    assert!(text.starts_with("A\nu\n"));
}

#[test]
fn normalizing_a_url_twice_changes_nothing_more() {
    for raw in ["example.com", "http://a", "mock://1/2", "", "https://b"] {
        let once = normalize_url(raw);
        assert_eq!(normalize_url(&once), once);
    }
}

#[test]
fn parsed_counts_are_at_least_one() {
    let args: Vec<String> = ["--limit", "0", "--timeout-ms", "0", "--requests", "0"].iter().map(|s| s.to_string()).collect();
    let config = parse_common_args_from(&args, false).unwrap();
    assert_eq!(config.limit, Some(1));
    assert_eq!(config.timeout, Duration::from_millis(1));
    assert_eq!(config.requests, 1);
    assert_eq!(config.input, "schools.csv");
}
