//! Crawl samples and their tab-separated line form.

use vstd::prelude::*;
use std::time::Duration;
use crate::duration::{duration_from_millis, duration_millis, whole_millis};

use crate::text::{chars_of, decimal, is_ws, lemma_decimal_all_digits, lemma_find_char, lemma_parse_decimal, lemma_trim_end_shorter, lemma_trim_start_len, parse_bounded, parse_unsigned, push_char, push_decimal, split_n, split_ranges, string_of, sub_chars, trim, trim_bounds, trim_end, trim_end_bound, trim_start, trimmed};

verus! {

#[derive(Debug, Clone)]
pub struct CrawlSample {
    pub name: String,
    pub url: String,
    pub latency_ms: u128,
    pub bytes: usize,
    pub ok: bool,
    pub error: Option<String>,
}

/// What a crawl sample holds, as plain values.
pub struct SampleView {
    pub name: Seq<char>,
    pub url: Seq<char>,
    pub latency_ms: u128,
    pub bytes: usize,
    pub ok: bool,
    pub error: Option<Seq<char>>,
}

pub open spec fn sample_view(s: CrawlSample) -> SampleView {
    SampleView {
        name: s.name@,
        url: s.url@,
        latency_ms: s.latency_ms,
        bytes: s.bytes,
        ok: s.ok,
        error: match s.error {
            Some(e) => Some(e@),
            None => None,
        },
    }
}

impl CrawlSample {
    /// A successful crawl of `url` that saved `bytes` bytes.
    pub fn success(name: String, url: String, latency: Duration, bytes: usize) -> (s: Self)
        ensures
            s.name == name,
            s.url == url,
            s.bytes == bytes,
            s.ok,
            s.error is None,
            s.latency_ms == whole_millis(latency),
            forall|m: u64| latency == duration_from_millis(m) ==> s.latency_ms == m,
    {
        CrawlSample { name, url, latency_ms: duration_millis(&latency), bytes, ok: true, error: None }
    }

    /// A failed crawl of `url`, with the error message.
    pub fn failure(name: String, url: String, latency: Duration, error: &str) -> (s: Self)
        ensures
            s.name == name,
            s.url == url,
            s.bytes == 0,
            !s.ok,
            s.error matches Some(e) && e@ == error@,
            s.latency_ms == whole_millis(latency),
            forall|m: u64| latency == duration_from_millis(m) ==> s.latency_ms == m,
    {
        CrawlSample {
            name,
            url,
            latency_ms: duration_millis(&latency),
            bytes: 0,
            ok: false,
            error: Some(String::from_str(error)),
        }
    }
}

/// A field with tabs and line breaks turned into spaces.
pub open spec fn clean_field(v: Seq<char>) -> Seq<char> {
    v.map_values(|c: char| if c == '\t' || c == '\r' || c == '\n' { ' ' } else { c })
}

pub open spec fn bool_text(b: bool) -> Seq<char> {
    if b { "true"@ } else { "false"@ }
}

/// The tab-separated line of a sample: ok, latency, bytes, name, url, error.
pub open spec fn tsv_line(s: SampleView) -> Seq<char> {
    bool_text(s.ok) + "\t"@ + decimal(s.latency_ms as nat) + "\t"@ + decimal(s.bytes as nat) + "\t"@
        + clean_field(s.name) + "\t"@ + clean_field(s.url) + "\t"@ + clean_field(
        match s.error {
            Some(e) => e,
            None => Seq::empty(),
        },
    )
}

fn clean_tsv_field(value: &str) -> (r: String)
    ensures
        r@ == clean_field(value@),
{
    let v = chars_of(value);
    let mut r = String::new();
    let mut i: usize = 0;
    while i < v.len()
        invariant
            i <= v@.len(),
            r@ == clean_field(v@.take(i as int)),
        decreases v@.len() - i,
    {
        let c = v[i];
        let d = if c == '\t' || c == '\r' || c == '\n' { ' ' } else { c };
        push_char(&mut r, d);
        i = i + 1;
        proof {
            assert(clean_field(v@.take(i as int)) =~= clean_field(v@.take(i - 1)).push(d));
        }
    }
    proof {
        assert(v@.take(i as int) =~= v@);
    }
    r
}

pub fn sample_to_tsv(sample: &CrawlSample) -> (line: String)
    ensures
        line@ == tsv_line(sample_view(*sample)),
{
    let mut line = String::new();
    if sample.ok {
        line.append("true");
    } else {
        line.append("false");
    }
    line.append("\t");
    push_decimal(&mut line, sample.latency_ms);
    line.append("\t");
    push_decimal(&mut line, sample.bytes as u128);
    line.append("\t");
    let name = clean_tsv_field(sample.name.as_str());
    line.append(name.as_str());
    line.append("\t");
    let url = clean_tsv_field(sample.url.as_str());
    line.append(url.as_str());
    line.append("\t");
    let error = match &sample.error {
        Some(e) => clean_tsv_field(e.as_str()),
        None => String::new(),
    };
    line.append(error.as_str());
    proof {
        if sample.error is None {
            assert(clean_field(Seq::<char>::empty()) =~= Seq::<char>::empty());
        }
        assert(line@ =~= tsv_line(sample_view(*sample)));
    }
    line
}

/// Reading a tab-separated sample line: trailing whitespace is dropped, the
/// first five fields are ok (`true` or anything else), latency, bytes, name
/// and url; a sixth field, trimmed, is the error when it is not blank.
pub open spec fn parse_tsv(line: Seq<char>) -> Option<SampleView> {
    let parts = split_n(trim_end(line), 6, '\t');
    if parts.len() < 5 {
        None
    } else {
        match (parse_unsigned(parts[1], u128::MAX as nat), parse_unsigned(parts[2], usize::MAX as nat)) {
            (Some(latency), Some(bytes)) => Some(
                SampleView {
                    ok: parts[0] == "true"@,
                    latency_ms: latency as u128,
                    bytes: bytes as usize,
                    name: parts[3],
                    url: parts[4],
                    error: if parts.len() > 5 && trim(parts[5]).len() > 0 {
                        Some(trim(parts[5]))
                    } else {
                        None
                    },
                },
            ),
            _ => None,
        }
    }
}

fn is_true_text(v: &Vec<char>, lo: usize, hi: usize) -> (r: bool)
    requires
        lo <= hi <= v@.len(),
    ensures
        r == (v@.subrange(lo as int, hi as int) == "true"@),
{
    proof {
        reveal_strlit("true");
    }
    let r = hi - lo == 4 && v[lo] == 't' && v[lo + 1] == 'r' && v[lo + 2] == 'u' && v[lo + 3] == 'e';
    proof {
        assert("true"@.len() == 4);
        assert("true"@[0] == 't' && "true"@[1] == 'r' && "true"@[2] == 'u' && "true"@[3] == 'e');
        if r {
            assert(v@.subrange(lo as int, hi as int) =~= "true"@);
        } else if hi - lo == 4 {
            let t = v@.subrange(lo as int, hi as int);
            assert(t[0] == v@[lo as int] && t[1] == v@[lo + 1] && t[2] == v@[lo + 2] && t[3]
                == v@[lo + 3]);
            assert(t != "true"@);
        }
    }
    r
}

pub fn sample_from_tsv(line: &str) -> (r: Option<CrawlSample>)
    ensures
        match r {
            Some(s) => parse_tsv(line@) == Some(sample_view(s)),
            None => parse_tsv(line@) is None,
        },
{
    let v = chars_of(line);
    let hi = trim_end_bound(&v);
    let parts = split_ranges(&v, 0, hi, 6, '\t');
    proof {
        assert(v@.subrange(0, hi as int) =~= trim_end(line@));
    }
    let ghost ps = split_n(trim_end(line@), 6, '\t');
    if parts.len() < 5 {
        return None;
    }
    let ok = is_true_text(&v, parts[0].0, parts[0].1);
    let latency_ms = match parse_bounded(&v, parts[1].0, parts[1].1, u128::MAX) {
        Some(x) => x,
        None => {
            return None;
        },
    };
    let bytes = match parse_bounded(&v, parts[2].0, parts[2].1, usize::MAX as u128) {
        Some(x) => x as usize,
        None => {
            return None;
        },
    };
    let name = string_of(&v, parts[3].0, parts[3].1);
    let url = string_of(&v, parts[4].0, parts[4].1);
    let error = if parts.len() > 5 {
        let field = sub_chars(&v, parts[5].0, parts[5].1);
        let (a, b) = trim_bounds(&field);
        if a < b {
            Some(string_of(&field, a, b))
        } else {
            None
        }
    } else {
        None
    };
    let sample = CrawlSample { name, url, latency_ms, bytes, ok, error };
    proof {
        assert(sample_view(sample) =~= parse_tsv(line@)->0);
    }
    Some(sample)
}

/// The text holds no tab and no line break.
pub open spec fn tsv_safe(v: Seq<char>) -> bool {
    forall|i: int| 0 <= i < v.len() ==> #[trigger] v[i] != '\t' && v[i] != '\r' && v[i] != '\n'
}

proof fn lemma_split_first(x: Seq<char>, rest: Seq<char>, n: nat)
    requires
        n >= 2,
        forall|i: int| 0 <= i < x.len() ==> #[trigger] x[i] != '\t',
    ensures
        split_n(x + seq!['\t'] + rest, n, '\t') == seq![x] + split_n(rest, (n - 1) as nat, '\t'),
{
    let s = x + seq!['\t'] + rest;
    assert forall|k: int| 0 <= k < x.len() implies s[k] != '\t' by {
        assert(s[k] == x[k]);
    }
    lemma_find_char(s, '\t', x.len() as int);
    assert(s.take(x.len() as int) =~= x);
    assert(s.skip(x.len() as int + 1) =~= rest);
}

proof fn lemma_split_last(x: Seq<char>, n: nat)
    requires
        forall|i: int| 0 <= i < x.len() ==> #[trigger] x[i] != '\t',
    ensures
        split_n(x, n, '\t') == seq![x],
{
    if n > 1 {
        lemma_find_char(x, '\t', x.len() as int);
    }
}

proof fn lemma_no_tab_decimal(n: nat)
    ensures
        forall|i: int| 0 <= i < decimal(n).len() ==> #[trigger] decimal(n)[i] != '\t',
{
    lemma_parse_decimal(n, n);
    lemma_decimal_all_digits(n);
}

proof fn lemma_clean_safe(v: Seq<char>)
    requires
        tsv_safe(v),
    ensures
        clean_field(v) == v,
{
    assert(clean_field(v) =~= v);
}

proof fn lemma_trimmed_last(e: Seq<char>)
    requires
        e.len() > 0,
        trim(e) == e,
    ensures
        !is_ws(e.last()),
{
    let t = trim_start(e);
    lemma_trim_start_len(e);
    if t.len() > 0 && is_ws(t.last()) {
        lemma_trim_end_shorter(t.drop_last());
        assert(trim_end(t) == trim_end(t.drop_last()));
        assert(false);
    }
    assert(trim_end(t) == t);
}

/// The line's pieces, once the fields are known to need no cleaning.
proof fn lemma_line_pieces(s: SampleView, e: Seq<char>)
    requires
        tsv_safe(s.name),
        tsv_safe(s.url),
        tsv_safe(e),
        e == match s.error {
            Some(x) => x,
            None => Seq::<char>::empty(),
        },
    ensures
        tsv_line(s) == bool_text(s.ok) + seq!['\t'] + (decimal(s.latency_ms as nat) + seq!['\t'] + (
        decimal(s.bytes as nat) + seq!['\t'] + (s.name + seq!['\t'] + (s.url + seq!['\t'] + e)))),
{
    reveal_strlit("\t");
    lemma_clean_safe(s.name);
    lemma_clean_safe(s.url);
    lemma_clean_safe(e);
    assert("\t"@ =~= seq!['\t']);
    assert(tsv_line(s) =~= bool_text(s.ok) + seq!['\t'] + (decimal(s.latency_ms as nat) + seq!['\t']
        + (decimal(s.bytes as nat) + seq!['\t'] + (s.name + seq!['\t'] + (s.url + seq!['\t'] + e)))));
}

proof fn lemma_split_fields(a: Seq<char>, b: Seq<char>, c: Seq<char>, x: Seq<char>, u: Seq<char>, e: Seq<char>, with_error: bool)
    requires
        forall|i: int| 0 <= i < a.len() ==> #[trigger] a[i] != '\t',
        forall|i: int| 0 <= i < b.len() ==> #[trigger] b[i] != '\t',
        forall|i: int| 0 <= i < c.len() ==> #[trigger] c[i] != '\t',
        forall|i: int| 0 <= i < x.len() ==> #[trigger] x[i] != '\t',
        forall|i: int| 0 <= i < u.len() ==> #[trigger] u[i] != '\t',
        forall|i: int| 0 <= i < e.len() ==> #[trigger] e[i] != '\t',
    ensures
        with_error ==> split_n(a + seq!['\t'] + (b + seq!['\t'] + (c + seq!['\t'] + (x + seq!['\t'] + (u
            + seq!['\t'] + e)))), 6, '\t') == seq![a, b, c, x, u, e],
        !with_error ==> split_n(a + seq!['\t'] + (b + seq!['\t'] + (c + seq!['\t'] + (x + seq!['\t']
            + u))), 6, '\t') == seq![a, b, c, x, u],
{
    let tab = seq!['\t'];
    if with_error {
        let t4 = x + tab + (u + tab + e);
        lemma_split_first(a, b + tab + (c + tab + t4), 6);
        lemma_split_first(b, c + tab + t4, 5);
        lemma_split_first(c, t4, 4);
        lemma_split_first(x, u + tab + e, 3);
        lemma_split_first(u, e, 2);
        lemma_split_last(e, 1);
        assert(seq![a] + (seq![b] + (seq![c] + (seq![x] + (seq![u] + seq![e])))) =~= seq![a, b, c, x, u, e]);
    } else {
        let t4 = x + tab + u;
        lemma_split_first(a, b + tab + (c + tab + t4), 6);
        lemma_split_first(b, c + tab + t4, 5);
        lemma_split_first(c, t4, 4);
        lemma_split_first(x, u, 3);
        lemma_split_last(u, 2);
        assert(seq![a] + (seq![b] + (seq![c] + (seq![x] + seq![u]))) =~= seq![a, b, c, x, u]);
    }
}

/// Round-trip law of the sample line: a sample whose name, url and error
/// hold no tab or line break is read back unchanged from its line, provided
/// the line's end survives trimming (a non-blank error without surrounding
/// whitespace, or no error and a url not ending in whitespace).
pub proof fn law_tsv_roundtrip(s: SampleView)
    requires
        tsv_safe(s.name),
        tsv_safe(s.url),
        match s.error {
            Some(e) => tsv_safe(e) && e.len() > 0 && trim(e) == e,
            None => s.url.len() > 0 && !is_ws(s.url.last()),
        },
    ensures
        parse_tsv(tsv_line(s)) == Some(s),
{
    reveal_strlit("true");
    reveal_strlit("false");
    let tab = seq!['\t'];
    let a = bool_text(s.ok);
    let b = decimal(s.latency_ms as nat);
    let c = decimal(s.bytes as nat);
    let e = match s.error {
        Some(e) => e,
        None => Seq::<char>::empty(),
    };
    lemma_line_pieces(s, e);
    lemma_no_tab_decimal(s.latency_ms as nat);
    lemma_no_tab_decimal(s.bytes as nat);
    lemma_parse_decimal(s.latency_ms as nat, u128::MAX as nat);
    lemma_parse_decimal(s.bytes as nat, usize::MAX as nat);
    assert(forall|i: int| 0 <= i < a.len() ==> #[trigger] a[i] != '\t');
    let line = tsv_line(s);
    let short = a + tab + (b + tab + (c + tab + (s.name + tab + s.url)));
    lemma_split_fields(a, b, c, s.name, s.url, e, s.error is Some);
    if s.error is Some {
        lemma_trimmed_last(e);
        assert(line.last() == e.last());
        assert(trim_end(line) == line);
        assert(parse_tsv(line)->0 =~= s);
    } else {
        assert(line =~= short + tab);
        assert(line.drop_last() =~= short);
        assert(trim_end(line) == trim_end(short));
        assert(short.last() == s.url.last());
        assert(trim_end(short) == short);
        assert(parse_tsv(line)->0 =~= s);
    }
}

/// A fetch that ended: the saved byte count, or the error text.
pub fn sample_of_outcome(name: String, url: String, elapsed: Duration, outcome: Result<usize, String>) -> (s: CrawlSample)
    ensures
        s.name == name,
        s.url == url,
        s.latency_ms == whole_millis(elapsed),
        forall|m: u64| elapsed == duration_from_millis(m) ==> s.latency_ms == m,
        match outcome {
            Ok(bytes) => s.ok && s.bytes == bytes && s.error is None,
            Err(e) => !s.ok && s.bytes == 0 && (s.error matches Some(x) && x@ == e@),
        },
{
    match outcome {
        Ok(bytes) => CrawlSample::success(name, url, elapsed, bytes),
        Err(e) => CrawlSample::failure(name, url, elapsed, e.as_str()),
    }
}

} // verus!
