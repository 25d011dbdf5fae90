//! Command-line options of the crawlers.

use vstd::prelude::*;
use std::time::Duration;
use crate::duration::{duration_from_millis, millis_to_duration};
use crate::crawl::schools::strings_view;
use crate::text::{chars_of, parse_bounded, parse_unsigned, str_eq};

verus! {

#[derive(Debug)]
pub struct CrawlConfig {
    pub input: String,
    pub output_dir: String,
    pub timeout: Duration,
    pub limit: Option<usize>,
    pub mock: bool,
    pub requests: usize,
}

/// What a crawl configuration holds, as plain values.
pub struct ConfigView {
    pub input: Seq<char>,
    pub output_dir: Seq<char>,
    pub timeout: Duration,
    pub limit: Option<usize>,
    pub mock: bool,
    pub requests: usize,
}

pub open spec fn config_view(c: CrawlConfig) -> ConfigView {
    ConfigView {
        input: c.input@,
        output_dir: c.output_dir@,
        timeout: c.timeout,
        limit: c.limit,
        mock: c.mock,
        requests: c.requests,
    }
}

/// The default configuration: the school list `data/schools.csv` when that
/// file exists, else `schools.csv`; output to `.`; a 15 s timeout; no
/// limit; real requests; 9 mock requests.
pub open spec fn default_config(data_input_exists: bool) -> ConfigView {
    ConfigView {
        input: if data_input_exists {
            "data/schools.csv"@
        } else {
            "schools.csv"@
        },
        output_dir: "."@,
        timeout: duration_from_millis(15_000),
        limit: None,
        mock: false,
        requests: 9,
    }
}

impl CrawlConfig {
    /// The default configuration; `data_input_exists` tells whether
    /// `data/schools.csv` exists.
    pub fn defaults(data_input_exists: bool) -> (c: Self)
        ensures
            config_view(c) == default_config(data_input_exists),
    {
        let input = if data_input_exists {
            String::from_str("data/schools.csv")
        } else {
            String::from_str("schools.csv")
        };
        CrawlConfig {
            input,
            output_dir: String::from_str("."),
            timeout: millis_to_duration(15_000),
            limit: None,
            mock: false,
            requests: 9,
        }
    }
}

pub open spec fn help_text_spec() -> Seq<char> {
    "usage: crawler [--input data/schools.csv] [--output-dir outputs/run] [--timeout-ms 15000] [--limit N] [--mock --requests N]"@
}

pub fn help_text() -> (r: &'static str)
    ensures
        r@ == help_text_spec(),
{
    "usage: crawler [--input data/schools.csv] [--output-dir outputs/run] [--timeout-ms 15000] [--limit N] [--mock --requests N]"
}

pub open spec fn missing_message(flag: Seq<char>) -> Seq<char> {
    "missing value after "@ + flag
}

pub open spec fn invalid_message(flag: Seq<char>, value: Seq<char>) -> Seq<char> {
    "invalid "@ + flag + " value: "@ + value
}

pub open spec fn at_least_one(n: nat) -> nat {
    if n == 0 { 1 } else { n }
}

/// Reading the command line from argument `i` on, into configuration `c`.
pub open spec fn parse_args_spec(args: Seq<Seq<char>>, i: int, c: ConfigView) -> Result<ConfigView, Seq<char>>
    decreases args.len() - i,
{
    if i < 0 || i >= args.len() {
        Ok(c)
    } else {
        let a = args[i];
        let has_value = i + 1 < args.len();
        let v = args[i + 1];
        if a == "--input"@ {
            if has_value {
                parse_args_spec(args, i + 2, ConfigView { input: v, ..c })
            } else {
                Err(missing_message("--input"@))
            }
        } else if a == "--output-dir"@ {
            if has_value {
                parse_args_spec(args, i + 2, ConfigView { output_dir: v, ..c })
            } else {
                Err(missing_message("--output-dir"@))
            }
        } else if a == "--timeout-ms"@ {
            if !has_value {
                Err(missing_message("--timeout-ms"@))
            } else {
                match parse_unsigned(v, u64::MAX as nat) {
                    Some(ms) => parse_args_spec(
                        args,
                        i + 2,
                        ConfigView { timeout: duration_from_millis(at_least_one(ms) as u64), ..c },
                    ),
                    None => Err(invalid_message("--timeout-ms"@, v)),
                }
            }
        } else if a == "--limit"@ {
            if !has_value {
                Err(missing_message("--limit"@))
            } else {
                match parse_unsigned(v, usize::MAX as nat) {
                    Some(n) => parse_args_spec(
                        args,
                        i + 2,
                        ConfigView { limit: Some(at_least_one(n) as usize), ..c },
                    ),
                    None => Err(invalid_message("--limit"@, v)),
                }
            }
        } else if a == "--mock"@ {
            parse_args_spec(args, i + 1, ConfigView { mock: true, ..c })
        } else if a == "--requests"@ {
            if !has_value {
                Err(missing_message("--requests"@))
            } else {
                match parse_unsigned(v, usize::MAX as nat) {
                    Some(n) => parse_args_spec(
                        args,
                        i + 2,
                        ConfigView { requests: at_least_one(n) as usize, ..c },
                    ),
                    None => Err(invalid_message("--requests"@, v)),
                }
            }
        } else if a == "--help"@ || a == "-h"@ {
            Err(help_text_spec())
        } else {
            Err("unknown argument: "@ + a + "\n\n"@ + help_text_spec())
        }
    }
}

/// Counts that a crawl can use: at least one request, a limit of at least
/// one when there is a limit, and a timeout of at least one millisecond.
pub open spec fn counts_positive(c: ConfigView) -> bool {
    &&& c.requests >= 1
    &&& (c.limit matches Some(n) ==> n >= 1)
    &&& exists|ms: u64| ms >= 1 && c.timeout == #[trigger] duration_from_millis(ms)
}

proof fn lemma_parse_keeps_counts_positive(args: Seq<Seq<char>>, i: int, c: ConfigView)
    requires
        counts_positive(c),
    ensures
        parse_args_spec(args, i, c) matches Ok(d) ==> counts_positive(d),
    decreases args.len() - i,
{
    if 0 <= i < args.len() {
        let a = args[i];
        let v = args[i + 1];
        let has_value = i + 1 < args.len();
        if a == "--input"@ {
            if has_value {
                lemma_parse_keeps_counts_positive(args, i + 2, ConfigView { input: v, ..c });
            }
        } else if a == "--output-dir"@ {
            if has_value {
                lemma_parse_keeps_counts_positive(args, i + 2, ConfigView { output_dir: v, ..c });
            }
        } else if a == "--timeout-ms"@ {
            if has_value {
                match parse_unsigned(v, u64::MAX as nat) {
                    Some(ms) => {
                        let t = at_least_one(ms) as u64;
                        let d = ConfigView { timeout: duration_from_millis(t), ..c };
                        assert(t >= 1 && d.timeout == duration_from_millis(t));
                        lemma_parse_keeps_counts_positive(args, i + 2, d);
                    },
                    None => {},
                }
            }
        } else if a == "--limit"@ {
            if has_value {
                match parse_unsigned(v, usize::MAX as nat) {
                    Some(n) => {
                        lemma_parse_keeps_counts_positive(
                            args,
                            i + 2,
                            ConfigView { limit: Some(at_least_one(n) as usize), ..c },
                        );
                    },
                    None => {},
                }
            }
        } else if a == "--mock"@ {
            lemma_parse_keeps_counts_positive(args, i + 1, ConfigView { mock: true, ..c });
        } else if a == "--requests"@ {
            if has_value {
                match parse_unsigned(v, usize::MAX as nat) {
                    Some(n) => {
                        lemma_parse_keeps_counts_positive(
                            args,
                            i + 2,
                            ConfigView { requests: at_least_one(n) as usize, ..c },
                        );
                    },
                    None => {},
                }
            }
        }
    }
}

/// Whatever the command line, a configuration read from it asks for at
/// least one request, limits to at least one school, and waits at least one
/// millisecond.
pub proof fn law_parsed_counts_positive(args: Seq<Seq<char>>, data_input_exists: bool)
    ensures
        parse_args_spec(args, 0, default_config(data_input_exists)) matches Ok(c) ==> counts_positive(c),
{
    let d = default_config(data_input_exists);
    assert(15_000u64 >= 1 && d.timeout == duration_from_millis(15_000u64));
    lemma_parse_keeps_counts_positive(args, 0, d);
}

fn parse_number_arg(value: &String, max: u128) -> (r: Option<u128>)
    ensures
        match parse_unsigned(value@, max as nat) {
            Some(n) => r == Some(n as u128),
            None => r is None,
        },
{
    let v = chars_of(value.as_str());
    proof {
        assert(v@.subrange(0, v@.len() as int) =~= v@);
    }
    parse_bounded(&v, 0, v.len(), max)
}

fn invalid_value(flag: &str, value: &String) -> (r: String)
    ensures
        r@ == invalid_message(flag@, value@),
{
    let mut r = String::from_str("invalid ");
    r.append(flag);
    r.append(" value: ");
    r.append(value.as_str());
    r
}

fn missing_value(flag: &str) -> (r: String)
    ensures
        r@ == missing_message(flag@),
{
    let mut r = String::from_str("missing value after ");
    r.append(flag);
    r
}

/// Reads the crawler's command line (without the program name) over the
/// default configuration.
pub fn parse_common_args_from(args: &Vec<String>, data_input_exists: bool) -> (r: Result<CrawlConfig, String>)
    ensures
        match r {
            Ok(c) => parse_args_spec(strings_view(args@), 0, default_config(data_input_exists))
                == Ok::<ConfigView, Seq<char>>(config_view(c)),
            Err(e) => parse_args_spec(strings_view(args@), 0, default_config(data_input_exists))
                == Err::<ConfigView, Seq<char>>(e@),
        },
{
    let ghost av = strings_view(args@);
    let mut config = CrawlConfig::defaults(data_input_exists);
    let mut i: usize = 0;
    while i < args.len()
        invariant
            i <= args@.len(),
            av == strings_view(args@),
            parse_args_spec(av, 0, default_config(data_input_exists)) == parse_args_spec(
                av,
                i as int,
                config_view(config),
            ),
        decreases args@.len() - i,
    {
        let arg = args[i].as_str();
        let has_value = i + 1 < args.len();
        if str_eq(arg, "--input") {
            if !has_value {
                return Err(missing_value("--input"));
            }
            config.input = args[i + 1].clone();
            i = i + 2;
        } else if str_eq(arg, "--output-dir") {
            if !has_value {
                return Err(missing_value("--output-dir"));
            }
            config.output_dir = args[i + 1].clone();
            i = i + 2;
        } else if str_eq(arg, "--timeout-ms") {
            if !has_value {
                return Err(missing_value("--timeout-ms"));
            }
            match parse_number_arg(&args[i + 1], u64::MAX as u128) {
                Some(ms) => {
                    let ms = if ms == 0 { 1 } else { ms as u64 };
                    config.timeout = millis_to_duration(ms);
                },
                None => {
                    return Err(invalid_value("--timeout-ms", &args[i + 1]));
                },
            }
            i = i + 2;
        } else if str_eq(arg, "--limit") {
            if !has_value {
                return Err(missing_value("--limit"));
            }
            match parse_number_arg(&args[i + 1], usize::MAX as u128) {
                Some(n) => {
                    let n = if n == 0 { 1 } else { n as usize };
                    config.limit = Some(n);
                },
                None => {
                    return Err(invalid_value("--limit", &args[i + 1]));
                },
            }
            i = i + 2;
        } else if str_eq(arg, "--mock") {
            config.mock = true;
            i = i + 1;
        } else if str_eq(arg, "--requests") {
            if !has_value {
                return Err(missing_value("--requests"));
            }
            match parse_number_arg(&args[i + 1], usize::MAX as u128) {
                Some(n) => {
                    let n = if n == 0 { 1 } else { n as usize };
                    config.requests = n;
                },
                None => {
                    return Err(invalid_value("--requests", &args[i + 1]));
                },
            }
            i = i + 2;
        } else if str_eq(arg, "--help") || str_eq(arg, "-h") {
            return Err(String::from_str(help_text()));
        } else {
            let mut message = String::from_str("unknown argument: ");
            message.append(arg);
            message.append("\n\n");
            message.append(help_text());
            return Err(message);
        }
    }
    Ok(config)
}

/// No argument from position `i` on is `flag`.
pub open spec fn absent_from(args: Seq<Seq<char>>, i: int, flag: Seq<char>) -> bool {
    forall|k: int| i <= k < args.len() ==> args[k] != flag
}

/// What a configuration keeps while the rest of the command line names
/// none of the options that would change it.
proof fn lemma_parse_keeps_unnamed(args: Seq<Seq<char>>, i: int, c: ConfigView)
    requires
        0 <= i,
    ensures
        parse_args_spec(args, i, c) matches Ok(d) ==> {
            &&& absent_from(args, i, "--input"@) ==> d.input == c.input
            &&& absent_from(args, i, "--output-dir"@) ==> d.output_dir == c.output_dir
            &&& absent_from(args, i, "--timeout-ms"@) ==> d.timeout == c.timeout
            &&& absent_from(args, i, "--limit"@) ==> d.limit == c.limit
            &&& absent_from(args, i, "--requests"@) ==> d.requests == c.requests
            &&& absent_from(args, i, "--mock"@) ==> d.mock == c.mock
            &&& c.mock ==> d.mock
        },
    decreases args.len() - i,
{
    if i < args.len() {
        let a = args[i];
        let v = args[i + 1];
        let has_value = i + 1 < args.len();
        if a == "--input"@ {
            if has_value {
                lemma_parse_keeps_unnamed(args, i + 2, ConfigView { input: v, ..c });
            }
        } else if a == "--output-dir"@ {
            if has_value {
                lemma_parse_keeps_unnamed(args, i + 2, ConfigView { output_dir: v, ..c });
            }
        } else if a == "--timeout-ms"@ {
            if has_value {
                match parse_unsigned(v, u64::MAX as nat) {
                    Some(ms) => {
                        lemma_parse_keeps_unnamed(
                            args,
                            i + 2,
                            ConfigView { timeout: duration_from_millis(at_least_one(ms) as u64), ..c },
                        );
                    },
                    None => {},
                }
            }
        } else if a == "--limit"@ {
            if has_value {
                match parse_unsigned(v, usize::MAX as nat) {
                    Some(n) => {
                        lemma_parse_keeps_unnamed(args, i + 2, ConfigView { limit: Some(at_least_one(n) as usize), ..c });
                    },
                    None => {},
                }
            }
        } else if a == "--mock"@ {
            lemma_parse_keeps_unnamed(args, i + 1, ConfigView { mock: true, ..c });
        } else if a == "--requests"@ {
            if has_value {
                match parse_unsigned(v, usize::MAX as nat) {
                    Some(n) => {
                        lemma_parse_keeps_unnamed(args, i + 2, ConfigView { requests: at_least_one(n) as usize, ..c });
                    },
                    None => {},
                }
            }
        }
    }
}

/// Reading a command line that starts with complete options `pre` goes
/// through `pre` as reading `pre` alone does, whatever follows it.
proof fn lemma_parse_prefix(pre: Seq<Seq<char>>, post: Seq<Seq<char>>, i: int, c: ConfigView)
    requires
        0 <= i <= pre.len(),
        parse_args_spec(pre, i, c) is Ok,
    ensures
        parse_args_spec(pre + post, i, c) == parse_args_spec(
            pre + post,
            pre.len() as int,
            parse_args_spec(pre, i, c)->Ok_0,
        ),
    decreases pre.len() - i,
{
    if i < pre.len() {
        let args = pre + post;
        let a = pre[i];
        let v = pre[i + 1];
        let has_value = i + 1 < pre.len();
        assert(args[i] == a);
        if has_value {
            assert(args[i + 1] == v);
        }
        if a == "--input"@ {
            lemma_parse_prefix(pre, post, i + 2, ConfigView { input: v, ..c });
        } else if a == "--output-dir"@ {
            lemma_parse_prefix(pre, post, i + 2, ConfigView { output_dir: v, ..c });
        } else if a == "--timeout-ms"@ {
            let ms = parse_unsigned(v, u64::MAX as nat)->Some_0;
            lemma_parse_prefix(
                pre,
                post,
                i + 2,
                ConfigView { timeout: duration_from_millis(at_least_one(ms) as u64), ..c },
            );
        } else if a == "--limit"@ {
            let n = parse_unsigned(v, usize::MAX as nat)->Some_0;
            lemma_parse_prefix(pre, post, i + 2, ConfigView { limit: Some(at_least_one(n) as usize), ..c });
        } else if a == "--mock"@ {
            lemma_parse_prefix(pre, post, i + 1, ConfigView { mock: true, ..c });
        } else if a == "--requests"@ {
            let n = parse_unsigned(v, usize::MAX as nat)->Some_0;
            lemma_parse_prefix(pre, post, i + 2, ConfigView { requests: at_least_one(n) as usize, ..c });
        }
    }
}

proof fn lemma_option_after_prefix(
    pre: Seq<Seq<char>>,
    flag: Seq<char>,
    v: Seq<char>,
    post: Seq<Seq<char>>,
    data_input_exists: bool,
)
    requires
        parse_args_spec(pre, 0, default_config(data_input_exists)) is Ok,
    ensures
        ({
            let full = pre + seq![flag, v] + post;
            let p = pre.len() as int;
            &&& parse_args_spec(full, 0, default_config(data_input_exists)) == parse_args_spec(
                full,
                p,
                parse_args_spec(pre, 0, default_config(data_input_exists))->Ok_0,
            )
            &&& p + 1 < full.len()
            &&& full[p] == flag
            &&& full[p + 1] == v
            &&& forall|k: int| p + 2 <= k < full.len() ==> full[k] == post[k - p - 2]
        }),
{
    let full = pre + seq![flag, v] + post;
    let p = pre.len() as int;
    assert(full =~= pre + (seq![flag, v] + post));
    lemma_parse_prefix(pre, seq![flag, v] + post, 0, default_config(data_input_exists));
    assert(full[p] == flag);
    assert(full[p + 1] == v);
}

proof fn lemma_flag_names_differ()
    ensures
        "--input"@ != "--output-dir"@,
        "--input"@ != "--timeout-ms"@,
        "--input"@ != "--limit"@,
        "--input"@ != "--mock"@,
        "--input"@ != "--requests"@,
        "--output-dir"@ != "--timeout-ms"@,
        "--output-dir"@ != "--limit"@,
        "--output-dir"@ != "--mock"@,
        "--output-dir"@ != "--requests"@,
        "--timeout-ms"@ != "--limit"@,
        "--timeout-ms"@ != "--mock"@,
        "--timeout-ms"@ != "--requests"@,
        "--limit"@ != "--mock"@,
        "--limit"@ != "--requests"@,
        "--mock"@ != "--requests"@,
{
    reveal_strlit("--input");
    reveal_strlit("--output-dir");
    reveal_strlit("--timeout-ms");
    reveal_strlit("--limit");
    reveal_strlit("--mock");
    reveal_strlit("--requests");
    assert("--input"@.len() != "--output-dir"@.len());
    assert("--input"@.len() != "--timeout-ms"@.len());
    assert("--input"@[2] != "--limit"@[2]);
    assert("--input"@[2] != "--mock"@[2]);
    assert("--input"@.len() != "--requests"@.len());
    assert("--output-dir"@[2] != "--timeout-ms"@[2]);
    assert("--output-dir"@.len() != "--limit"@.len());
    assert("--output-dir"@.len() != "--mock"@.len());
    assert("--output-dir"@.len() != "--requests"@.len());
    assert("--timeout-ms"@.len() != "--limit"@.len());
    assert("--timeout-ms"@.len() != "--mock"@.len());
    assert("--timeout-ms"@.len() != "--requests"@.len());
    assert("--limit"@.len() != "--mock"@.len());
    assert("--limit"@.len() != "--requests"@.len());
    assert("--mock"@.len() != "--requests"@.len());
}

/// `--input v` sets the school list to `v`: after options that read
/// without error, and with no later `--input`, a command line that reads
/// without error has `v` as its input.
pub proof fn law_input_option_sets_input(
    pre: Seq<Seq<char>>,
    v: Seq<char>,
    post: Seq<Seq<char>>,
    data_input_exists: bool,
)
    requires
        parse_args_spec(pre, 0, default_config(data_input_exists)) is Ok,
        absent_from(post, 0, "--input"@),
    ensures
        parse_args_spec(pre + seq!["--input"@, v] + post, 0, default_config(data_input_exists)) matches Ok(d)
            ==> d.input == v,
{
    let full = pre + seq!["--input"@, v] + post;
    let p = pre.len() as int;
    lemma_option_after_prefix(pre, "--input"@, v, post, data_input_exists);
    let d1 = parse_args_spec(pre, 0, default_config(data_input_exists))->Ok_0;
    let d2 = ConfigView { input: v, ..d1 };
    assert(parse_args_spec(full, p, d1) == parse_args_spec(full, p + 2, d2));
    assert(absent_from(full, p + 2, "--input"@)) by {
        assert forall|k: int| p + 2 <= k < full.len() implies full[k] != "--input"@ by {
            assert(post[k - p - 2] != "--input"@);
        }
    }
    lemma_parse_keeps_unnamed(full, p + 2, d2);
}

/// `--output-dir v` sets the output directory to `v`, as `--input` sets
/// the input.
pub proof fn law_output_dir_option_sets_output_dir(
    pre: Seq<Seq<char>>,
    v: Seq<char>,
    post: Seq<Seq<char>>,
    data_input_exists: bool,
)
    requires
        parse_args_spec(pre, 0, default_config(data_input_exists)) is Ok,
        absent_from(post, 0, "--output-dir"@),
    ensures
        parse_args_spec(pre + seq!["--output-dir"@, v] + post, 0, default_config(data_input_exists)) matches Ok(
            d,
        ) ==> d.output_dir == v,
{
    let full = pre + seq!["--output-dir"@, v] + post;
    let p = pre.len() as int;
    lemma_flag_names_differ();
    lemma_option_after_prefix(pre, "--output-dir"@, v, post, data_input_exists);
    let d1 = parse_args_spec(pre, 0, default_config(data_input_exists))->Ok_0;
    let d2 = ConfigView { output_dir: v, ..d1 };
    assert(parse_args_spec(full, p, d1) == parse_args_spec(full, p + 2, d2));
    assert(absent_from(full, p + 2, "--output-dir"@)) by {
        assert forall|k: int| p + 2 <= k < full.len() implies full[k] != "--output-dir"@ by {
            assert(post[k - p - 2] != "--output-dir"@);
        }
    }
    lemma_parse_keeps_unnamed(full, p + 2, d2);
}

/// `--timeout-ms v`, with `v` the decimal numeral of a `u64` value `ms`,
/// sets the timeout to `ms` milliseconds, and to one millisecond when `ms`
/// is zero; a later `--timeout-ms` would take its place.
pub proof fn law_timeout_option_sets_timeout(
    pre: Seq<Seq<char>>,
    v: Seq<char>,
    post: Seq<Seq<char>>,
    data_input_exists: bool,
    ms: nat,
)
    requires
        parse_args_spec(pre, 0, default_config(data_input_exists)) is Ok,
        parse_unsigned(v, u64::MAX as nat) == Some(ms),
        absent_from(post, 0, "--timeout-ms"@),
    ensures
        parse_args_spec(pre + seq!["--timeout-ms"@, v] + post, 0, default_config(data_input_exists)) matches Ok(
            d,
        ) ==> d.timeout == duration_from_millis((if ms == 0 { 1 } else { ms }) as u64),
{
    let full = pre + seq!["--timeout-ms"@, v] + post;
    let p = pre.len() as int;
    lemma_flag_names_differ();
    lemma_option_after_prefix(pre, "--timeout-ms"@, v, post, data_input_exists);
    let d1 = parse_args_spec(pre, 0, default_config(data_input_exists))->Ok_0;
    let d2 = ConfigView { timeout: duration_from_millis(at_least_one(ms) as u64), ..d1 };
    assert(parse_args_spec(full, p, d1) == parse_args_spec(full, p + 2, d2));
    assert(absent_from(full, p + 2, "--timeout-ms"@)) by {
        assert forall|k: int| p + 2 <= k < full.len() implies full[k] != "--timeout-ms"@ by {
            assert(post[k - p - 2] != "--timeout-ms"@);
        }
    }
    lemma_parse_keeps_unnamed(full, p + 2, d2);
}

/// `--limit v`, with `v` the decimal numeral of a `usize` value `n`, limits
/// the crawl to `n` schools, and to one when `n` is zero.
pub proof fn law_limit_option_sets_limit(
    pre: Seq<Seq<char>>,
    v: Seq<char>,
    post: Seq<Seq<char>>,
    data_input_exists: bool,
    n: nat,
)
    requires
        parse_args_spec(pre, 0, default_config(data_input_exists)) is Ok,
        parse_unsigned(v, usize::MAX as nat) == Some(n),
        absent_from(post, 0, "--limit"@),
    ensures
        parse_args_spec(pre + seq!["--limit"@, v] + post, 0, default_config(data_input_exists)) matches Ok(d)
            ==> d.limit == Some((if n == 0 { 1 } else { n }) as usize),
{
    let full = pre + seq!["--limit"@, v] + post;
    let p = pre.len() as int;
    lemma_flag_names_differ();
    lemma_option_after_prefix(pre, "--limit"@, v, post, data_input_exists);
    let d1 = parse_args_spec(pre, 0, default_config(data_input_exists))->Ok_0;
    let d2 = ConfigView { limit: Some(at_least_one(n) as usize), ..d1 };
    assert(parse_args_spec(full, p, d1) == parse_args_spec(full, p + 2, d2));
    assert(absent_from(full, p + 2, "--limit"@)) by {
        assert forall|k: int| p + 2 <= k < full.len() implies full[k] != "--limit"@ by {
            assert(post[k - p - 2] != "--limit"@);
        }
    }
    lemma_parse_keeps_unnamed(full, p + 2, d2);
}

/// `--requests v`, with `v` the decimal numeral of a `usize` value `n`,
/// asks for `n` mock requests, and for one when `n` is zero.
pub proof fn law_requests_option_sets_requests(
    pre: Seq<Seq<char>>,
    v: Seq<char>,
    post: Seq<Seq<char>>,
    data_input_exists: bool,
    n: nat,
)
    requires
        parse_args_spec(pre, 0, default_config(data_input_exists)) is Ok,
        parse_unsigned(v, usize::MAX as nat) == Some(n),
        absent_from(post, 0, "--requests"@),
    ensures
        parse_args_spec(pre + seq!["--requests"@, v] + post, 0, default_config(data_input_exists)) matches Ok(
            d,
        ) ==> d.requests == (if n == 0 { 1 } else { n }),
{
    let full = pre + seq!["--requests"@, v] + post;
    let p = pre.len() as int;
    lemma_flag_names_differ();
    lemma_option_after_prefix(pre, "--requests"@, v, post, data_input_exists);
    let d1 = parse_args_spec(pre, 0, default_config(data_input_exists))->Ok_0;
    let d2 = ConfigView { requests: at_least_one(n) as usize, ..d1 };
    assert(parse_args_spec(full, p, d1) == parse_args_spec(full, p + 2, d2));
    assert(absent_from(full, p + 2, "--requests"@)) by {
        assert forall|k: int| p + 2 <= k < full.len() implies full[k] != "--requests"@ by {
            assert(post[k - p - 2] != "--requests"@);
        }
    }
    lemma_parse_keeps_unnamed(full, p + 2, d2);
}

/// `--mock` anywhere among the options turns mock requests on.
pub proof fn law_mock_option_sets_mock(pre: Seq<Seq<char>>, post: Seq<Seq<char>>, data_input_exists: bool)
    requires
        parse_args_spec(pre, 0, default_config(data_input_exists)) is Ok,
    ensures
        parse_args_spec(pre + seq!["--mock"@] + post, 0, default_config(data_input_exists)) matches Ok(d)
            ==> d.mock,
{
    let full = pre + seq!["--mock"@] + post;
    let p = pre.len() as int;
    lemma_flag_names_differ();
    assert(full =~= pre + (seq!["--mock"@] + post));
    lemma_parse_prefix(pre, seq!["--mock"@] + post, 0, default_config(data_input_exists));
    assert(full[p] == "--mock"@);
    let d1 = parse_args_spec(pre, 0, default_config(data_input_exists))->Ok_0;
    let d2 = ConfigView { mock: true, ..d1 };
    assert(parse_args_spec(full, p, d1) == parse_args_spec(full, p + 1, d2));
    lemma_parse_keeps_unnamed(full, p + 1, d2);
}

/// An option that the command line does not name keeps its default.
pub proof fn law_unnamed_options_keep_defaults(args: Seq<Seq<char>>, data_input_exists: bool)
    ensures
        parse_args_spec(args, 0, default_config(data_input_exists)) matches Ok(d) ==> {
            let c = default_config(data_input_exists);
            &&& absent_from(args, 0, "--input"@) ==> d.input == c.input
            &&& absent_from(args, 0, "--output-dir"@) ==> d.output_dir == c.output_dir
            &&& absent_from(args, 0, "--timeout-ms"@) ==> d.timeout == c.timeout
            &&& absent_from(args, 0, "--limit"@) ==> d.limit == c.limit
            &&& absent_from(args, 0, "--requests"@) ==> d.requests == c.requests
            &&& absent_from(args, 0, "--mock"@) ==> !d.mock
        },
{
    lemma_parse_keeps_unnamed(args, 0, default_config(data_input_exists));
}

} // verus!
