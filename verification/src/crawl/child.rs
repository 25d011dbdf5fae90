//! The process-per-school crawler: what a child process reads from its
//! command line, and the sample the parent takes from a child's output.

use vstd::prelude::*;

use crate::crawl::sample::{parse_tsv, sample_from_tsv, sample_view, CrawlSample, SampleView};
use crate::crawl::schools::{split_all, strings_view};
use crate::duration::millis_to_duration;
use crate::fields::{piece_ranges, pieces_of};
use crate::text::{chars_of, parse_bounded, parse_unsigned, string_of};

verus! {

/// What a child process crawls: one school, where its text goes, and the
/// request timeout.
pub struct ChildArgs {
    pub name: String,
    pub url: String,
    pub output_dir: String,
    pub timeout_ms: u64,
}

/// Reading a child's command line `PROGRAM --child NAME URL DIR TIMEOUT_MS`.
pub open spec fn child_args_spec(args: Seq<Seq<char>>) -> Result<(Seq<char>, Seq<char>, Seq<char>, u64), Seq<char>> {
    if args.len() <= 2 {
        Err("missing child school name"@)
    } else if args.len() <= 3 {
        Err("missing child school url"@)
    } else if args.len() <= 4 {
        Err("missing child output dir"@)
    } else if args.len() <= 5 {
        Err("missing child timeout"@)
    } else {
        match parse_unsigned(args[5], u64::MAX as nat) {
            Some(ms) => Ok((args[2], args[3], args[4], ms as u64)),
            None => Err("invalid child timeout"@),
        }
    }
}

/// The arguments of a child process, or the error it reports.
pub fn parse_child_args(args: &Vec<String>) -> (r: Result<ChildArgs, String>)
    ensures
        match r {
            Ok(c) => child_args_spec(strings_view(args@)) == Ok::<(Seq<char>, Seq<char>, Seq<char>, u64), Seq<char>>(
                (c.name@, c.url@, c.output_dir@, c.timeout_ms),
            ),
            Err(e) => child_args_spec(strings_view(args@)) == Err::<(Seq<char>, Seq<char>, Seq<char>, u64), Seq<char>>(e@),
        },
{
    let ghost av = strings_view(args@);
    if args.len() <= 2 {
        return Err(String::from_str("missing child school name"));
    }
    if args.len() <= 3 {
        return Err(String::from_str("missing child school url"));
    }
    if args.len() <= 4 {
        return Err(String::from_str("missing child output dir"));
    }
    if args.len() <= 5 {
        return Err(String::from_str("missing child timeout"));
    }
    let v = chars_of(args[5].as_str());
    proof {
        assert(v@.subrange(0, v@.len() as int) =~= v@);
        assert(av[5] == args@[5]@);
    }
    match parse_bounded(&v, 0, v.len(), u64::MAX as u128) {
        Some(ms) => {
            let name = args[2].clone();
            let url = args[3].clone();
            let output_dir = args[4].clone();
            proof {
                assert(av[2] == args@[2]@);
                assert(av[3] == args@[3]@);
                assert(av[4] == args@[4]@);
            }
            Ok(ChildArgs { name, url, output_dir, timeout_ms: ms as u64 })
        },
        None => Err(String::from_str("invalid child timeout")),
    }
}

/// A line without the `\r` of a `\r\n` ending.
pub open spec fn strip_cr(l: Seq<char>) -> Seq<char> {
    if l.len() > 0 && l.last() == '\r' {
        l.drop_last()
    } else {
        l
    }
}

/// The lines of `s` as `str::lines` gives them: split at `\n`, a `\r`
/// before the `\n` removed, and no empty line after a final `\n`.
pub open spec fn lines_of(s: Seq<char>) -> Seq<Seq<char>> {
    let pieces = split_all(s, '\n');
    let ended = pieces.drop_last().map_values(|l: Seq<char>| strip_cr(l));
    if pieces.last().len() == 0 {
        ended
    } else {
        ended.push(pieces.last())
    }
}

/// Splitting gives at least one piece.
pub proof fn lemma_split_all_nonempty(s: Seq<char>, sep: char)
    ensures
        split_all(s, sep).len() >= 1,
    decreases s.len(),
{
    match crate::text::find(s, seq![sep]) {
        None => {},
        Some(i) => {
            crate::text::lemma_find_from(s, seq![sep], 0);
            lemma_split_all_nonempty(s.skip(i + 1), sep);
        },
    }
}

/// The sample a child reported: the sample of its last output line, or a
/// failure with no latency when that line is missing or not a sample.
pub open spec fn child_sample_spec(name: Seq<char>, url: Seq<char>, stdout: Seq<char>) -> Option<SampleView> {
    let ls = lines_of(stdout);
    if ls.len() > 0 {
        parse_tsv(ls.last())
    } else {
        None
    }
}

/// The sample that the parent records for a child's output.
pub fn child_sample(name: String, url: String, stdout: &str) -> (s: CrawlSample)
    ensures
        match child_sample_spec(name@, url@, stdout@) {
            Some(v) => sample_view(s) == v,
            None => {
                &&& s.name == name
                &&& s.url == url
                &&& !s.ok
                &&& s.latency_ms == 0
                &&& s.bytes == 0
                &&& s.error matches Some(e) && e@ == "child process did not return a crawl sample"@
            },
        },
{
    let v = chars_of(stdout);
    let ranges = piece_ranges(&v, '\n');
    let ghost pieces = split_all(v@, '\n');
    proof {
        lemma_split_all_nonempty(v@, '\n');
        assert(pieces_of(v@, ranges@).len() == ranges@.len());
    }
    let n = ranges.len();
    let (lo, hi) = ranges[n - 1];
    let mut last: Option<String> = None;
    if lo < hi {
        last = Some(string_of(&v, lo, hi));
        proof {
            assert(pieces.last() == v@.subrange(lo as int, hi as int));
        }
    } else if n >= 2 {
        let (plo, phi) = ranges[n - 2];
        let mut e = phi;
        if plo < phi && v[phi - 1] == '\r' {
            e = phi - 1;
        }
        last = Some(string_of(&v, plo, e));
        proof {
            let p = pieces[n - 2];
            assert(p == v@.subrange(plo as int, phi as int));
            assert(pieces.last().len() == 0);
            assert(pieces.drop_last().map_values(|l: Seq<char>| strip_cr(l)).last() == strip_cr(p));
            if plo < phi && v@[phi - 1] == '\r' {
                assert(strip_cr(p) =~= v@.subrange(plo as int, e as int));
            } else {
                assert(strip_cr(p) =~= v@.subrange(plo as int, e as int));
            }
        }
    } else {
        proof {
            assert(pieces.last().len() == 0);
            assert(lines_of(v@).len() == 0);
        }
    }
    let parsed = match &last {
        Some(l) => sample_from_tsv(l.as_str()),
        None => None,
    };
    match parsed {
        Some(s) => s,
        None => CrawlSample::failure(name, url, millis_to_duration(0), "child process did not return a crawl sample"),
    }
}

} // verus!
