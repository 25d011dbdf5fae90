//! The first crawler benchmark: one sample per requested url, the url lists
//! it crawls, the whole-number part of its summary and the resident memory
//! reading of `/proc/self/status`.

use vstd::prelude::*;
use std::time::Duration;
use crate::crawl::page::{has_prefix, words};
use crate::crawl::schools::{mock_seed, split_all, strings_view};
use crate::duration::{duration_from_millis, duration_millis, whole_millis};
use crate::fields::{first_word, piece_ranges, pieces_of, starts_with_at};
use crate::text::{chars_of, decimal, parse_bounded, parse_unsigned, push_decimal, str_eq, string_of};
use crate::crawl::config::at_least_one;
use crate::crawl::sample::bool_text;

verus! {

/// One request of the benchmark: its url, how long it took, how many bytes
/// came back and whether it succeeded.
#[derive(Debug, Clone)]
pub struct CrawlSample {
    pub url: String,
    pub latency_ms: u128,
    pub bytes: usize,
    pub ok: bool,
}

impl CrawlSample {
    /// A sample whose latency is `latency` in whole milliseconds.
    pub fn new(url: String, latency: Duration, bytes: usize, ok: bool) -> (s: Self)
        ensures
            s.url == url,
            s.bytes == bytes,
            s.ok == ok,
            s.latency_ms == whole_millis(latency),
            forall|m: u64| latency == duration_from_millis(m) ==> s.latency_ms == m,
    {
        CrawlSample { url, latency_ms: duration_millis(&latency), bytes, ok }
    }
}

/// The three public urls that the live benchmark cycles through.
pub open spec fn default_seed(i: int) -> Seq<char> {
    if i == 0 {
        "https://example.com/"@
    } else if i == 1 {
        "https://www.rust-lang.org/"@
    } else {
        "https://docs.rs/"@
    }
}

fn default_seed_str(i: usize) -> (r: &'static str)
    requires
        i < 3,
    ensures
        r@ == default_seed(i as int),
{
    if i == 0 {
        "https://example.com/"
    } else if i == 1 {
        "https://www.rust-lang.org/"
    } else {
        "https://docs.rs/"
    }
}

fn mock_seed_str(i: usize) -> (r: &'static str)
    requires
        i < 3,
    ensures
        r@ == mock_seed(i as int),
{
    if i == 0 {
        "mock://25/1024"
    } else if i == 1 {
        "mock://35/2048"
    } else {
        "mock://45/3072"
    }
}

/// `requests` urls: the three public urls in turn.
pub fn default_urls(requests: usize) -> (urls: Vec<String>)
    ensures
        strings_view(urls@) == Seq::new(requests as nat, |i: int| default_seed(i % 3)),
{
    let mut urls: Vec<String> = Vec::new();
    let mut i: usize = 0;
    while i < requests
        invariant
            i <= requests,
            strings_view(urls@) == Seq::new(i as nat, |k: int| default_seed(k % 3)),
        decreases requests - i,
    {
        let u = String::from_str(default_seed_str(i % 3));
        let ghost before = urls@;
        urls.push(u);
        proof {
            assert(u@ == default_seed(i as int % 3));
            assert(strings_view(urls@) =~= strings_view(before).push(u@));
            assert(strings_view(urls@) =~= Seq::new((i + 1) as nat, |k: int| default_seed(k % 3)));
        }
        i = i + 1;
    }
    urls
}

/// `requests` urls: the three mock urls in turn, which the benchmark answers
/// offline.
pub fn mock_urls(requests: usize) -> (urls: Vec<String>)
    ensures
        strings_view(urls@) == Seq::new(requests as nat, |i: int| mock_seed(i % 3)),
{
    let mut urls: Vec<String> = Vec::new();
    let mut i: usize = 0;
    while i < requests
        invariant
            i <= requests,
            strings_view(urls@) == Seq::new(i as nat, |k: int| mock_seed(k % 3)),
        decreases requests - i,
    {
        let u = String::from_str(mock_seed_str(i % 3));
        let ghost before = urls@;
        urls.push(u);
        proof {
            assert(u@ == mock_seed(i as int % 3));
            assert(strings_view(urls@) =~= strings_view(before).push(u@));
            assert(strings_view(urls@) =~= Seq::new((i + 1) as nat, |k: int| mock_seed(k % 3)));
        }
        i = i + 1;
    }
    urls
}

/// Index of the first of `ls` that starts with `key`.
pub open spec fn first_with_prefix(ls: Seq<Seq<char>>, key: Seq<char>) -> Option<int>
    decreases ls.len(),
{
    if ls.len() == 0 {
        None
    } else if has_prefix(ls[0], key) {
        Some(0)
    } else {
        match first_with_prefix(ls.drop_first(), key) {
            Some(i) => Some(i + 1),
            None => None,
        }
    }
}

/// The resident set size in KiB that a status text reports: the second word
/// of its first line that starts with `VmRSS:`, as a `u64`.
pub open spec fn vm_rss_spec(status: Seq<char>) -> Option<u64> {
    let ls = split_all(status, '\n');
    match first_with_prefix(ls, "VmRSS:"@) {
        None => None,
        Some(i) => if words(ls[i]).len() >= 2 {
            match parse_unsigned(words(ls[i])[1], u64::MAX as nat) {
                Some(n) => Some(n as u64),
                None => None,
            }
        } else {
            None
        },
    }
}

proof fn lemma_first_with_prefix(ls: Seq<Seq<char>>, key: Seq<char>, i: int)
    requires
        0 <= i <= ls.len(),
        forall|k: int| 0 <= k < i ==> !has_prefix(#[trigger] ls[k], key),
    ensures
        i < ls.len() && has_prefix(ls[i], key) ==> first_with_prefix(ls, key) == Some(i),
        i == ls.len() ==> first_with_prefix(ls, key) is None,
    decreases i,
{
    if i > 0 {
        assert forall|k: int| 0 <= k < i - 1 implies !has_prefix(#[trigger] ls.drop_first()[k], key) by {
            assert(ls.drop_first()[k] == ls[k + 1]);
        }
        lemma_first_with_prefix(ls.drop_first(), key, i - 1);
        if i < ls.len() {
            assert(ls.drop_first()[i - 1] == ls[i]);
        }
    }
}

/// The `VmRSS:` reading of a `/proc/self/status` text, in KiB.
pub fn vm_rss_kib(status: &str) -> (r: Option<u64>)
    ensures
        r == vm_rss_spec(status@),
{
    proof {
        reveal_strlit("VmRSS:");
    }
    let v = chars_of(status);
    let key = chars_of("VmRSS:");
    let ranges = piece_ranges(&v, '\n');
    let ghost ls = split_all(v@, '\n');
    let mut i: usize = 0;
    while i < ranges.len()
        invariant
            i <= ranges@.len(),
            v@ == status@,
            key@ == "VmRSS:"@,
            ls == split_all(v@, '\n'),
            pieces_of(v@, ranges@) == ls,
            forall|m: int| 0 <= m < ranges@.len() ==> (#[trigger] ranges@[m]).0 <= ranges@[m].1 <= v@.len(),
            forall|k: int| 0 <= k < i ==> !has_prefix(#[trigger] ls[k], key@),
        decreases ranges@.len() - i,
    {
        let (lo, hi) = ranges[i];
        let line = crate::text::sub_chars(&v, lo, hi);
        proof {
            assert(ls[i as int] == v@.subrange(lo as int, hi as int));
            assert(line@.skip(0) =~= line@);
        }
        if starts_with_at(&line, 0, &key) {
            proof {
                lemma_first_with_prefix(ls, key@, i as int);
            }
            match first_word(&line, 0) {
                None => {
                    return None;
                },
                Some((_, b)) => match first_word(&line, b) {
                    None => {
                        return None;
                    },
                    Some((c, d)) => {
                        let n = parse_bounded(&line, c, d, u64::MAX as u128);
                        return match n {
                            Some(n) => Some(n as u64),
                            None => None,
                        };
                    },
                },
            }
        }
        i = i + 1;
    }
    proof {
        lemma_first_with_prefix(ls, key@, i as int);
    }
    None
}

/// `s` is in non-decreasing order.
pub open spec fn sorted_u128(s: Seq<u128>) -> bool {
    forall|i: int, j: int| 0 <= i <= j < s.len() ==> s[i] <= s[j]
}

/// `values` in non-decreasing order.
pub fn sort_latencies(values: &Vec<u128>) -> (r: Vec<u128>)
    ensures
        sorted_u128(r@),
        r@.to_multiset() == values@.to_multiset(),
{
    let mut r: Vec<u128> = Vec::new();
    let mut i: usize = 0;
    proof {
        assert(values@.take(0) =~= Seq::<u128>::empty());
        assert(r@ =~= Seq::<u128>::empty());
    }
    while i < values.len()
        invariant
            i <= values@.len(),
            sorted_u128(r@),
            r@.to_multiset() == values@.take(i as int).to_multiset(),
        decreases values@.len() - i,
    {
        let x = values[i];
        let mut j: usize = 0;
        while j < r.len() && r[j] <= x
            invariant
                j <= r@.len(),
                sorted_u128(r@),
                forall|k: int| 0 <= k < j ==> r@[k] <= x,
            decreases r@.len() - j,
        {
            j = j + 1;
        }
        let ghost before = r@;
        r.insert(j, x);
        proof {
            assert(r@ == before.insert(j as int, x));
            assert forall|a: int, b: int| 0 <= a <= b < r@.len() implies r@[a] <= r@[b] by {
                if b < j {
                } else if b == j {
                    if a < j {
                        assert(before[a] <= x);
                    }
                } else {
                    assert(r@[b] == before[b - 1]);
                    assert(j < before.len() && before[j as int] > x);
                    if a < j {
                        assert(before[a] <= before[b - 1]);
                    } else if a == j {
                        assert(before[j as int] <= before[b - 1]);
                    } else {
                        assert(r@[a] == before[a - 1]);
                    }
                }
            }
            vstd::seq_lib::to_multiset_insert(before, j as int, x);
            vstd::seq_lib::to_multiset_build(values@.take(i as int), x);
            assert(values@.take(i + 1) =~= values@.take(i as int).push(x));
        }
        i = i + 1;
    }
    proof {
        assert(values@.take(i as int) =~= values@);
    }
    r
}

/// Latencies of the successful samples, in sample order.
pub open spec fn ok_latencies(samples: Seq<CrawlSample>) -> Seq<u128>
    decreases samples.len(),
{
    if samples.len() == 0 {
        Seq::empty()
    } else {
        let rest = ok_latencies(samples.drop_last());
        if samples.last().ok {
            rest.push(samples.last().latency_ms)
        } else {
            rest
        }
    }
}

/// Latencies of the successful samples, in non-decreasing order: the
/// sequence that percentiles are read from.
pub fn sorted_ok_latencies(samples: &[CrawlSample]) -> (r: Vec<u128>)
    ensures
        sorted_u128(r@),
        r@.to_multiset() == ok_latencies(samples@).to_multiset(),
{
    let mut v: Vec<u128> = Vec::new();
    let mut i: usize = 0;
    proof {
        assert(v@ =~= ok_latencies(samples@.take(0)));
    }
    while i < samples.len()
        invariant
            i <= samples@.len(),
            v@ == ok_latencies(samples@.take(i as int)),
        decreases samples@.len() - i,
    {
        proof {
            assert(samples@.take(i + 1).drop_last() =~= samples@.take(i as int));
            assert(samples@.take(i + 1).last() == samples@[i as int]);
        }
        if samples[i].ok {
            v.push(samples[i].latency_ms);
        }
        i = i + 1;
    }
    proof {
        assert(samples@.take(i as int) =~= samples@);
    }
    sort_latencies(&v)
}


/// Reading the benchmark's command line from argument `i` on: `--requests N`
/// sets the request count (at least one; a value that is not a count is
/// skipped), `--mock` answers requests offline, anything else is ignored.
pub open spec fn bench_args_from(args: Seq<Seq<char>>, i: int, requests: usize, mock: bool) -> (usize, bool)
    decreases args.len() - i,
{
    if i < 0 || i >= args.len() {
        (requests, mock)
    } else if args[i] == "--requests"@ {
        if i + 1 < args.len() {
            match parse_unsigned(args[i + 1], usize::MAX as nat) {
                Some(n) => bench_args_from(args, i + 2, at_least_one(n) as usize, mock),
                None => bench_args_from(args, i + 2, requests, mock),
            }
        } else {
            (requests, mock)
        }
    } else if args[i] == "--mock"@ {
        bench_args_from(args, i + 1, requests, true)
    } else {
        bench_args_from(args, i + 1, requests, mock)
    }
}

/// The request count and the offline switch of a benchmark command line
/// (without the program name); 9 requests and live urls by default.
pub fn parse_bench_args(args: &Vec<String>) -> (r: (usize, bool))
    ensures
        r == bench_args_from(strings_view(args@), 0, 9, false),
{
    let ghost av = strings_view(args@);
    let mut requests: usize = 9;
    let mut mock = false;
    let mut i: usize = 0;
    while i < args.len()
        invariant
            i <= args@.len() + 1,
            av == strings_view(args@),
            bench_args_from(av, 0, 9, false) == bench_args_from(av, i as int, requests, mock),
        decreases args@.len() + 1 - i,
    {
        proof {
            assert(av[i as int] == args@[i as int]@);
        }
        if str_eq(args[i].as_str(), "--requests") {
            if i + 1 < args.len() {
                let v = chars_of(args[i + 1].as_str());
                proof {
                    assert(av[i + 1] == args@[i + 1]@);
                    assert(v@.subrange(0, v@.len() as int) =~= v@);
                }
                match parse_bounded(&v, 0, v.len(), usize::MAX as u128) {
                    Some(n) => {
                        requests = if n == 0 { 1 } else { n as usize };
                    },
                    None => {},
                }
                i = i + 2;
            } else {
                return (requests, mock);
            }
        } else {
            if str_eq(args[i].as_str(), "--mock") {
                mock = true;
            }
            i = i + 1;
        }
    }
    (requests, mock)
}

/// The line a child process reports: ok, latency, bytes and url, separated
/// by `|`.
pub open spec fn report_line(s: CrawlSample) -> Seq<char> {
    bool_text(s.ok) + "|"@ + decimal(s.latency_ms as nat) + "|"@ + decimal(s.bytes as nat) + "|"@ + s.url@
}

/// The line that reports a sample to the parent process.
pub fn child_report_line(sample: &CrawlSample) -> (line: String)
    ensures
        line@ == report_line(*sample),
{
    let mut line = if sample.ok { String::from_str("true") } else { String::from_str("false") };
    proof {
        reveal_strlit("true");
        reveal_strlit("false");
    }
    line.append("|");
    push_decimal(&mut line, sample.latency_ms);
    line.append("|");
    push_decimal(&mut line, sample.bytes as u128);
    line.append("|");
    line.append(sample.url.as_str());
    proof {
        assert(line@ =~= report_line(*sample));
    }
    line
}

/// A count read from a reported field, 0 when it is missing or unreadable.
pub open spec fn count_or_zero(parts: Seq<Seq<char>>, i: int, max: nat) -> nat {
    if i < parts.len() {
        match parse_unsigned(parts[i], max) {
            Some(n) => n,
            None => 0,
        }
    } else {
        0
    }
}

/// The sample that the parent reads from a child's output: the trimmed
/// output split at `|` into ok (`true` or not), latency, bytes and url; a
/// missing or unreadable number reads 0, a missing url reads `unknown`.
pub open spec fn report_sample(out: Seq<char>) -> (bool, u128, usize, Seq<char>) {
    let parts = split_all(crate::text::trim(out), '|');
    (
        parts[0] == "true"@,
        count_or_zero(parts, 1, u128::MAX as nat) as u128,
        count_or_zero(parts, 2, usize::MAX as nat) as usize,
        if parts.len() > 3 { parts[3] } else { "unknown"@ },
    )
}

fn count_field_or_zero(t: &Vec<char>, ranges: &Vec<(usize, usize)>, i: usize, max: u128) -> (r: u128)
    requires
        forall|k: int| 0 <= k < ranges@.len() ==> (#[trigger] ranges@[k]).0 <= ranges@[k].1 <= t@.len(),
    ensures
        r == count_or_zero(pieces_of(t@, ranges@), i as int, max as nat),
{
    if i < ranges.len() {
        let (a, b) = ranges[i];
        proof {
            assert(pieces_of(t@, ranges@)[i as int] == t@.subrange(a as int, b as int));
        }
        match parse_bounded(t, a, b, max) {
            Some(n) => n,
            None => 0,
        }
    } else {
        0
    }
}

/// Reads the sample a child process reported.
pub fn parse_child_report(out: &str) -> (s: CrawlSample)
    ensures
        (s.ok, s.latency_ms, s.bytes, s.url@) == report_sample(out@),
{
    proof {
        reveal_strlit("true");
    }
    let v = chars_of(out);
    let (lo, hi) = crate::text::trim_bounds(&v);
    let t = crate::text::sub_chars(&v, lo, hi);
    let ranges = piece_ranges(&t, '|');
    let ghost parts = split_all(t@, '|');
    proof {
        crate::crawl::child::lemma_split_all_nonempty(t@, '|');
        assert(pieces_of(t@, ranges@).len() == ranges@.len());
    }
    let (a, b) = ranges[0];
    let first = string_of(&t, a, b);
    let ok = str_eq(first.as_str(), "true");
    proof {
        assert(parts[0] == t@.subrange(a as int, b as int));
    }
    let latency_ms = count_field_or_zero(&t, &ranges, 1, u128::MAX);
    let bytes = count_field_or_zero(&t, &ranges, 2, usize::MAX as u128) as usize;
    let url = if ranges.len() > 3 {
        let (c, d) = ranges[3];
        proof {
            assert(parts[3] == t@.subrange(c as int, d as int));
        }
        string_of(&t, c, d)
    } else {
        String::from_str("unknown")
    };
    CrawlSample { url, latency_ms, bytes, ok }
}


proof fn lemma_split_bar_first(x: Seq<char>, rest: Seq<char>)
    requires
        forall|i: int| 0 <= i < x.len() ==> #[trigger] x[i] != '|',
    ensures
        split_all(x + seq!['|'] + rest, '|') == seq![x] + split_all(rest, '|'),
{
    let s = x + seq!['|'] + rest;
    assert forall|k: int| 0 <= k < x.len() implies s[k] != '|' by {
        assert(s[k] == x[k]);
    }
    crate::text::lemma_find_char(s, '|', x.len() as int);
    assert(s.take(x.len() as int) =~= x);
    assert(s.skip(x.len() as int + 1) =~= rest);
}

proof fn lemma_split_bar_last(x: Seq<char>)
    requires
        forall|i: int| 0 <= i < x.len() ==> #[trigger] x[i] != '|',
    ensures
        split_all(x, '|') == seq![x],
{
    crate::text::lemma_find_char(x, '|', x.len() as int);
}

proof fn lemma_no_bar_decimal(n: nat)
    ensures
        forall|i: int| 0 <= i < decimal(n).len() ==> #[trigger] decimal(n)[i] != '|',
        decimal(n).len() > 0,
{
    crate::text::lemma_decimal_all_digits(n);
    crate::text::lemma_parse_decimal(n, n);
}

/// Round trip of the child report: a sample whose url holds no `|` and does
/// not end in whitespace is read back unchanged from its report line.
pub proof fn law_child_report_roundtrip(s: CrawlSample)
    requires
        forall|i: int| 0 <= i < s.url@.len() ==> #[trigger] s.url@[i] != '|',
        s.url@.len() > 0 ==> !crate::text::is_ws(s.url@.last()),
    ensures
        report_sample(report_line(s)) == (s.ok, s.latency_ms, s.bytes, s.url@),
{
    reveal_strlit("true");
    reveal_strlit("false");
    reveal_strlit("|");
    let bar = seq!['|'];
    let a = bool_text(s.ok);
    let b = decimal(s.latency_ms as nat);
    let c = decimal(s.bytes as nat);
    let u = s.url@;
    let line = report_line(s);
    assert("|"@ =~= bar);
    assert(line =~= a + bar + (b + bar + (c + bar + u)));
    lemma_no_bar_decimal(s.latency_ms as nat);
    lemma_no_bar_decimal(s.bytes as nat);
    assert(forall|i: int| 0 <= i < a.len() ==> #[trigger] a[i] != '|');
    // The line starts with `t` or `f` and ends with the url's last character
    // or a `|`, so trimming leaves it as it is.
    assert(line.len() > 0 && !crate::text::is_ws(line[0]));
    assert(!crate::text::is_ws(line.last())) by {
        if u.len() > 0 {
            assert(line.last() == u.last());
        } else {
            assert(line.last() == '|');
        }
    }
    assert(crate::text::trim_start(line) == line);
    assert(crate::text::trim_end(line) == line);
    lemma_split_bar_first(a, b + bar + (c + bar + u));
    lemma_split_bar_first(b, c + bar + u);
    lemma_split_bar_first(c, u);
    lemma_split_bar_last(u);
    let parts = split_all(line, '|');
    assert(parts =~= seq![a, b, c, u]);
    crate::text::lemma_parse_decimal(s.latency_ms as nat, u128::MAX as nat);
    crate::text::lemma_parse_decimal(s.bytes as nat, usize::MAX as nat);
}

} // verus!
