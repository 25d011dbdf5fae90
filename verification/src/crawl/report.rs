//! Summaries of a crawl: the whole-number counts, the successful latencies
//! in order, and the per-school report lines.

use vstd::prelude::*;
use crate::crawl::sample::CrawlSample;
use crate::crawl::schools::strings_view;
use crate::text::{decimal, push_decimal};

verus! {

/// Number of successful samples.
pub open spec fn ok_count(samples: Seq<CrawlSample>) -> nat
    decreases samples.len(),
{
    if samples.len() == 0 {
        0
    } else {
        ok_count(samples.drop_last()) + if samples.last().ok { 1nat } else { 0 }
    }
}

/// Bytes saved by the successful samples.
pub open spec fn ok_bytes(samples: Seq<CrawlSample>) -> nat
    decreases samples.len(),
{
    if samples.len() == 0 {
        0
    } else {
        ok_bytes(samples.drop_last()) + if samples.last().ok { samples.last().bytes as nat } else { 0 }
    }
}

/// The largest latency of a successful sample, 0 when none succeeded.
pub open spec fn ok_max_latency(samples: Seq<CrawlSample>) -> u128
    decreases samples.len(),
{
    if samples.len() == 0 {
        0
    } else {
        let m = ok_max_latency(samples.drop_last());
        if samples.last().ok && samples.last().latency_ms > m {
            samples.last().latency_ms
        } else {
            m
        }
    }
}

/// The whole-number part of a crawl's summary.
pub struct CrawlCounts {
    pub total: usize,
    pub success: usize,
    pub failed: usize,
    pub max_ms: u128,
    pub bytes_saved: usize,
}

proof fn lemma_ok_count_le(samples: Seq<CrawlSample>)
    ensures
        ok_count(samples) <= samples.len(),
    decreases samples.len(),
{
    if samples.len() > 0 {
        lemma_ok_count_le(samples.drop_last());
    }
}

proof fn lemma_ok_bytes_prefix(samples: Seq<CrawlSample>, i: int)
    requires
        0 <= i <= samples.len(),
    ensures
        ok_bytes(samples.take(i)) <= ok_bytes(samples),
    decreases samples.len() - i,
{
    if i < samples.len() {
        lemma_ok_bytes_prefix(samples, i + 1);
        assert(samples.take(i + 1).drop_last() =~= samples.take(i));
    } else {
        assert(samples.take(i) =~= samples);
    }
}

/// Counts of a crawl: samples, successes, failures, the largest successful
/// latency and the bytes the successes saved.
pub fn crawl_counts(samples: &[CrawlSample]) -> (c: CrawlCounts)
    requires
        ok_bytes(samples@) <= usize::MAX,
    ensures
        c.total == samples@.len(),
        c.success == ok_count(samples@),
        c.failed == samples@.len() - ok_count(samples@),
        c.max_ms == ok_max_latency(samples@),
        c.bytes_saved == ok_bytes(samples@),
{
    let mut success: usize = 0;
    let mut max_ms: u128 = 0;
    let mut bytes: usize = 0;
    let mut i: usize = 0;
    while i < samples.len()
        invariant
            i <= samples@.len(),
            ok_bytes(samples@) <= usize::MAX,
            success == ok_count(samples@.take(i as int)),
            max_ms == ok_max_latency(samples@.take(i as int)),
            bytes == ok_bytes(samples@.take(i as int)),
        decreases samples@.len() - i,
    {
        proof {
            assert(samples@.take(i + 1).drop_last() =~= samples@.take(i as int));
            assert(samples@.take(i + 1).last() == samples@[i as int]);
            lemma_ok_count_le(samples@.take(i as int));
            lemma_ok_bytes_prefix(samples@, i + 1);
        }
        if samples[i].ok {
            success = success + 1;
            bytes = bytes + samples[i].bytes;
            if samples[i].latency_ms > max_ms {
                max_ms = samples[i].latency_ms;
            }
        }
        i = i + 1;
    }
    proof {
        assert(samples@.take(i as int) =~= samples@);
        lemma_ok_count_le(samples@);
    }
    CrawlCounts { total: samples.len(), success, failed: samples.len() - success, max_ms, bytes_saved: bytes }
}

/// The report line of a successful sample.
pub open spec fn success_line(s: CrawlSample) -> Seq<char> {
    "  - "@ + s.name@ + " latency_ms="@ + decimal(s.latency_ms as nat) + " bytes="@ + decimal(s.bytes as nat)
}

/// The report line of a failed sample; an error that was not recorded reads
/// `unknown`.
pub open spec fn failure_line(s: CrawlSample) -> Seq<char> {
    "  - "@ + s.name@ + " url="@ + s.url@ + " latency_ms="@ + decimal(s.latency_ms as nat) + " error="@
        + match s.error {
        Some(e) => e@,
        None => "unknown"@,
    }
}

/// The lines of the samples with outcome `ok`, in order.
pub open spec fn outcome_lines(samples: Seq<CrawlSample>, ok: bool) -> Seq<Seq<char>>
    decreases samples.len(),
{
    if samples.len() == 0 {
        Seq::empty()
    } else {
        let rest = outcome_lines(samples.drop_last(), ok);
        let s = samples.last();
        if s.ok == ok {
            rest.push(if ok { success_line(s) } else { failure_line(s) })
        } else {
            rest
        }
    }
}

/// A report section: its heading, then its lines, or `  - none`.
pub open spec fn section(heading: Seq<char>, lines: Seq<Seq<char>>) -> Seq<Seq<char>> {
    seq![heading] + if lines.len() == 0 {
        seq!["  - none"@]
    } else {
        lines
    }
}

/// The per-school report: the successful schools, then the failed ones.
pub open spec fn school_report(samples: Seq<CrawlSample>) -> Seq<Seq<char>> {
    section("success_schools:"@, outcome_lines(samples, true)) + section(
        "failed_schools:"@,
        outcome_lines(samples, false),
    )
}

fn outcome_section(samples: &[CrawlSample], ok: bool, heading: &str, out: &mut Vec<String>)
    ensures
        strings_view(final(out)@) == strings_view(old(out)@) + section(heading@, outcome_lines(samples@, ok)),
{
    let ghost start = strings_view(out@);
    out.push(String::from_str(heading));
    let mut count: usize = 0;
    let mut i: usize = 0;
    proof {
        assert(strings_view(out@) =~= start.push(heading@));
        assert(outcome_lines(samples@.take(0), ok) =~= Seq::<Seq<char>>::empty());
    }
    while i < samples.len()
        invariant
            i <= samples@.len(),
            count <= i,
            count == outcome_lines(samples@.take(i as int), ok).len(),
            strings_view(out@) == start.push(heading@) + outcome_lines(samples@.take(i as int), ok),
        decreases samples@.len() - i,
    {
        proof {
            assert(samples@.take(i + 1).drop_last() =~= samples@.take(i as int));
            assert(samples@.take(i + 1).last() == samples@[i as int]);
        }
        let s = &samples[i];
        if s.ok == ok {
            let mut line = String::from_str("  - ");
            line.append(s.name.as_str());
            if ok {
                line.append(" latency_ms=");
                push_decimal(&mut line, s.latency_ms);
                line.append(" bytes=");
                push_decimal(&mut line, s.bytes as u128);
            } else {
                line.append(" url=");
                line.append(s.url.as_str());
                line.append(" latency_ms=");
                push_decimal(&mut line, s.latency_ms);
                line.append(" error=");
                match &s.error {
                    Some(e) => line.append(e.as_str()),
                    None => line.append("unknown"),
                }
            }
            proof {
                if ok {
                    assert(line@ =~= success_line(*s));
                } else {
                    assert(line@ =~= failure_line(*s));
                }
            }
            let ghost before = strings_view(out@);
            out.push(line);
            proof {
                assert(strings_view(out@) =~= before.push(line@));
            }
            count = count + 1;
        }
        i = i + 1;
        proof {
            assert(strings_view(out@) =~= start.push(heading@) + outcome_lines(samples@.take(i as int), ok));
        }
    }
    proof {
        assert(samples@.take(i as int) =~= samples@);
    }
    if count == 0 {
        let ghost before = strings_view(out@);
        out.push(String::from_str("  - none"));
        proof {
            assert(strings_view(out@) =~= before.push("  - none"@));
        }
    }
    proof {
        assert(strings_view(out@) =~= start + section(heading@, outcome_lines(samples@, ok)));
    }
}

/// The per-school report lines: `success_schools:` with a line per success,
/// then `failed_schools:` with a line per failure; `  - none` stands for an
/// empty section.
pub fn school_result_lines(samples: &[CrawlSample]) -> (lines: Vec<String>)
    ensures
        strings_view(lines@) == school_report(samples@),
{
    let mut lines: Vec<String> = Vec::new();
    proof {
        assert(strings_view(lines@) =~= Seq::<Seq<char>>::empty());
    }
    outcome_section(samples, true, "success_schools:", &mut lines);
    outcome_section(samples, false, "failed_schools:", &mut lines);
    proof {
        assert(strings_view(lines@) =~= school_report(samples@));
    }
    lines
}

/// Latencies of the successful samples, in sample order.
pub open spec fn success_latencies(samples: Seq<CrawlSample>) -> Seq<u128>
    decreases samples.len(),
{
    if samples.len() == 0 {
        Seq::empty()
    } else {
        let rest = success_latencies(samples.drop_last());
        if samples.last().ok {
            rest.push(samples.last().latency_ms)
        } else {
            rest
        }
    }
}

/// Latencies of the successful samples, in non-decreasing order: the
/// sequence that percentiles are read from.
pub fn sorted_success_latencies(samples: &[CrawlSample]) -> (r: Vec<u128>)
    ensures
        crate::bench::sorted_u128(r@),
        r@.to_multiset() == success_latencies(samples@).to_multiset(),
{
    let mut v: Vec<u128> = Vec::new();
    let mut i: usize = 0;
    proof {
        assert(v@ =~= success_latencies(samples@.take(0)));
    }
    while i < samples.len()
        invariant
            i <= samples@.len(),
            v@ == success_latencies(samples@.take(i as int)),
        decreases samples@.len() - i,
    {
        proof {
            assert(samples@.take(i + 1).drop_last() =~= samples@.take(i as int));
            assert(samples@.take(i + 1).last() == samples@[i as int]);
        }
        if samples[i].ok {
            v.push(samples[i].latency_ms);
        }
        i = i + 1;
    }
    proof {
        assert(samples@.take(i as int) =~= samples@);
    }
    crate::bench::sort_latencies(&v)
}


/// The largest successful latency is at least every successful sample's
/// latency, and is one of them, or 0 when no sample succeeded; failed
/// samples play no part in it.
pub proof fn law_max_latency_of_successes(samples: Seq<CrawlSample>)
    ensures
        forall|i: int| 0 <= i < samples.len() && (#[trigger] samples[i]).ok ==> samples[i].latency_ms
            <= ok_max_latency(samples),
        ok_max_latency(samples) == 0 || exists|i: int|
            0 <= i < samples.len() && (#[trigger] samples[i]).ok && samples[i].latency_ms == ok_max_latency(
                samples,
            ),
    decreases samples.len(),
{
    if samples.len() > 0 {
        let rest = samples.drop_last();
        law_max_latency_of_successes(rest);
        assert forall|i: int| 0 <= i < samples.len() && (#[trigger] samples[i]).ok implies samples[i].latency_ms
            <= ok_max_latency(samples) by {
            if i < samples.len() - 1 {
                assert(samples[i] == rest[i]);
            }
        }
        if ok_max_latency(samples) != 0 {
            if ok_max_latency(samples) == ok_max_latency(rest) {
                let j = choose|j: int|
                    0 <= j < rest.len() && (#[trigger] rest[j]).ok && rest[j].latency_ms == ok_max_latency(rest);
                assert(samples[j] == rest[j]);
            } else {
                assert(samples[samples.len() - 1].ok);
            }
        }
    }
}

/// A failed sample changes no figure of the successes: appending it leaves
/// the success count, the largest successful latency and the bytes saved as
/// they were.
pub proof fn law_failure_leaves_success_figures(samples: Seq<CrawlSample>, failed: CrawlSample)
    requires
        !failed.ok,
    ensures
        ok_count(samples.push(failed)) == ok_count(samples),
        ok_max_latency(samples.push(failed)) == ok_max_latency(samples),
        ok_bytes(samples.push(failed)) == ok_bytes(samples),
{
    assert(samples.push(failed).drop_last() =~= samples);
}

/// The successes are counted one by one: the success count is the number
/// of samples that succeeded, and never more than the samples.
pub proof fn law_success_count(samples: Seq<CrawlSample>)
    ensures
        ok_count(samples) == samples.filter(|s: CrawlSample| s.ok).len(),
        ok_count(samples) <= samples.len(),
    decreases samples.len(),
{
    reveal(Seq::filter);
    if samples.len() > 0 {
        law_success_count(samples.drop_last());
    }
}

/// A successful sample adds one success, its bytes, and raises the largest
/// latency to its own when that is larger.
pub proof fn law_success_adds_its_figures(samples: Seq<CrawlSample>, done: CrawlSample)
    requires
        done.ok,
    ensures
        ok_count(samples.push(done)) == ok_count(samples) + 1,
        ok_bytes(samples.push(done)) == ok_bytes(samples) + done.bytes,
        ok_max_latency(samples.push(done)) == if done.latency_ms > ok_max_latency(samples) {
            done.latency_ms
        } else {
            ok_max_latency(samples)
        },
{
    assert(samples.push(done).drop_last() =~= samples);
}

} // verus!
