//! Millisecond durations, as `std::time::Duration` holds them.

use vstd::prelude::*;
use std::time::Duration;

verus! {

/// The duration that `Duration::from_millis(ms)` builds.
pub uninterp spec fn duration_from_millis(ms: u64) -> Duration;

/// The whole seconds of a duration (`Duration::as_secs`).
pub uninterp spec fn duration_secs(d: Duration) -> u64;

/// The nanoseconds past the whole seconds (`Duration::subsec_nanos`).
pub uninterp spec fn duration_subsec_nanos(d: Duration) -> u32;

/// `Duration::from_millis`: the result is the duration named by
/// `duration_from_millis(ms)`; nothing more is stated of it.
#[verifier::external_body]
pub fn millis_to_duration(ms: u64) -> (d: Duration)
    ensures
        d == duration_from_millis(ms),
{
    Duration::from_millis(ms)
}

/// `Duration::as_secs`: the whole seconds of `d`; of a duration built from
/// `m` milliseconds, `m / 1000`.
#[verifier::external_body]
fn secs_of(d: &Duration) -> (s: u64)
    ensures
        s == duration_secs(*d),
        forall|m: u64| *d == duration_from_millis(m) ==> s == m / 1000,
{
    d.as_secs()
}

/// `Duration::subsec_nanos`: the nanoseconds of `d` past its whole seconds,
/// always below one second; of a duration built from `m` milliseconds,
/// `(m % 1000) * 1_000_000`.
#[verifier::external_body]
fn subsec_nanos_of(d: &Duration) -> (n: u32)
    ensures
        n == duration_subsec_nanos(*d),
        n < 1_000_000_000,
        forall|m: u64| *d == duration_from_millis(m) ==> n == (m % 1000) * 1_000_000,
{
    d.subsec_nanos()
}

/// The whole milliseconds of a duration: its seconds times 1000 plus its
/// sub-second nanoseconds divided by one million, rounded down.
pub open spec fn whole_millis(d: Duration) -> nat {
    duration_secs(d) as nat * 1000 + duration_subsec_nanos(d) as nat / 1_000_000
}

/// The whole milliseconds of `d` (`Duration::as_millis`).
pub fn duration_millis(d: &Duration) -> (ms: u128)
    ensures
        ms == whole_millis(*d),
        forall|m: u64| *d == duration_from_millis(m) ==> ms == m,
{
    let s = secs_of(d);
    let n = subsec_nanos_of(d);
    let ms = (s as u128) * 1000 + (n / 1_000_000) as u128;
    proof {
        assert forall|m: u64| *d == duration_from_millis(m) implies ms == m by {
            assert(s == m / 1000 && n == (m % 1000) * 1_000_000);
            assert(n / 1_000_000 == m % 1000) by (nonlinear_arith)
                requires
                    n == (m % 1000) * 1_000_000,
            ;
        }
    }
    ms
}

} // verus!
