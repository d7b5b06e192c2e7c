//! Milliseconds since the Unix epoch: reading the clock, flooring an instant
//! to the start of its bucket, and converting to and from `SystemTime`.

use std::time::{Duration, SystemTime, UNIX_EPOCH};
use chrono::DateTime;
use vstd::prelude::*;
use vstd::arithmetic::div_mod::{lemma_fundamental_div_mod, lemma_mod_multiples_basic, lemma_mod_pos_bound};

verus! {

/// The bucket width that `floor_ms_from_epoch` uses, and a hub's usual
/// spoke duration.
pub const DEFAULT_SPOKE_DURATION_MS: u64 = 10;

#[verifier::external_type_specification]
#[verifier::external_body]
pub struct ExSystemTime(SystemTime);

/// The start of the bucket of width `width` that holds the instant `t`.
pub open spec fn bucket_start(t: u64, width: u64) -> int {
    (t as int / width as int) * width as int
}

/// The milliseconds in `secs` seconds and `nanos` nanoseconds, with the
/// nanoseconds rounded down to whole milliseconds.
pub open spec fn span_ms(secs: u64, nanos: u32) -> int {
    secs as int * 1000 + nanos as int / 1_000_000
}

/// Names what chrono's `Display` writes for the UTC date and time `secs`
/// seconds after the Unix epoch, or `None` where chrono cannot represent it.
pub uninterp spec fn utc_text(secs: i64) -> Option<Seq<char>>;

/// Facts of the bucket start: a multiple of the width, at most `t`, and
/// less than a width below it.
pub proof fn lemma_bucket_start(t: u64, width: u64)
    requires
        width > 0,
    ensures
        0 <= bucket_start(t, width) <= t,
        t < bucket_start(t, width) + width,
        bucket_start(t, width) % (width as int) == 0,
{
    lemma_fundamental_div_mod(t as int, width as int);
    lemma_mod_pos_bound(t as int, width as int);
    lemma_mod_multiples_basic(t as int / width as int, width as int);
    assert(0 <= t as int / width as int) by (nonlinear_arith)
        requires
            width > 0,
    ;
    assert(0 <= (t as int / width as int) * width as int) by (nonlinear_arith)
        requires
            0 <= t as int / width as int,
            width > 0,
    ;
    assert(width as int * (t as int / width as int) == (t as int / width as int) * width as int)
        by (nonlinear_arith);
}

/// `(t / width) * width`: the start of the bucket that holds `t`.
pub fn floor_to_bucket(t: u64, width: u64) -> (r: u64)
    requires
        width > 0,
    ensures
        r == bucket_start(t, width),
        r <= t,
        t < r + width,
        r % width == 0,
{
    proof {
        lemma_bucket_start(t, width);
    }
    (t / width) * width
}

/// Floors `ms` to a multiple of the default bucket width.
pub fn floor_ms_from_epoch(ms: u64) -> (r: u64)
    ensures
        r == bucket_start(ms, DEFAULT_SPOKE_DURATION_MS),
{
    floor_to_bucket(ms, DEFAULT_SPOKE_DURATION_MS)
}

/// The whole milliseconds in a span of `secs` seconds and `subsec_nanos`
/// nanoseconds, capped at `u64::MAX`.
pub fn duration_to_ms(secs: u64, subsec_nanos: u32) -> (r: u64)
    ensures
        r == duration_to_ms_spec(secs, subsec_nanos),
{
    let millis = (subsec_nanos / 1_000_000) as u64;
    if secs > (u64::MAX - millis) / 1000 {
        assert(secs as int * 1000 + millis > u64::MAX) by (nonlinear_arith)
            requires
                secs > (u64::MAX - millis) / 1000,
                millis <= u64::MAX,
        ;
        u64::MAX
    } else {
        assert(secs as int * 1000 + millis <= u64::MAX) by (nonlinear_arith)
            requires
                secs <= (u64::MAX - millis) / 1000,
                millis <= u64::MAX,
        ;
        secs * 1000 + millis
    }
}

/// Relies on `SystemTime::now`: reads the system clock. Nothing is promised
/// of the value.
#[verifier::external_body]
fn system_now() -> SystemTime {
    SystemTime::now()
}

/// Relies on `SystemTime::duration_since` with the Unix epoch: how far `t`
/// lies after the epoch, as whole seconds and the nanoseconds beyond them,
/// which `Duration` keeps below one billion; `None` where `t` lies before it.
#[verifier::external_body]
fn since_unix_epoch(t: &SystemTime) -> (r: Option<(u64, u32)>)
    ensures
        r matches Some((_, nanos)) ==> nanos < 1_000_000_000,
{
    match t.duration_since(UNIX_EPOCH) {
        Ok(d) => Some((d.as_secs(), d.subsec_nanos())),
        Err(_) => None,
    }
}

/// The whole milliseconds from the Unix epoch to `system_time`, dropping
/// the sub-millisecond part; an instant before the epoch counts as 0.
pub fn system_time_to_ms(system_time: SystemTime) -> (r: u64)
    ensures
        r == 0 || exists|secs: u64, nanos: u32|
            nanos < 1_000_000_000 && r == duration_to_ms_spec(secs, nanos),
{
    match since_unix_epoch(&system_time) {
        Some((secs, nanos)) => {
            let r = duration_to_ms(secs, nanos);
            assert(nanos < 1_000_000_000 && r == duration_to_ms_spec(secs, nanos));
            r
        },
        None => 0,
    }
}

/// What `duration_to_ms` returns.
pub open spec fn duration_to_ms_spec(secs: u64, nanos: u32) -> int {
    if span_ms(secs, nanos) <= u64::MAX {
        span_ms(secs, nanos)
    } else {
        u64::MAX as int
    }
}

/// Relies on `SystemTime::checked_add` and `Duration::from_millis`: the
/// instant `ms` milliseconds after the Unix epoch, or `None` where this
/// platform's `SystemTime` cannot represent it.
#[verifier::external_body]
pub fn ms_to_system_time(ms: u64) -> Option<SystemTime> {
    UNIX_EPOCH.checked_add(Duration::from_millis(ms))
}

/// The current time in milliseconds since the Unix epoch, read from the
/// system clock. Successive readings are taken to be non-decreasing; nothing
/// here can promise that.
pub fn current_time_ms() -> u64 {
    system_time_to_ms(system_now())
}

/// Relies on chrono's `DateTime::from_timestamp` and its `Display`: the UTC
/// date and time `secs` seconds after the Unix epoch as text, or `None`
/// outside chrono's range.
#[verifier::external_body]
fn utc_seconds_text(secs: i64) -> (r: Option<String>)
    ensures
        match r {
            Some(s) => utc_text(secs) == Some(s@),
            None => utc_text(secs) is None,
        },
{
    match DateTime::from_timestamp(secs, 0) {
        Some(d) => Some(d.to_string()),
        None => None,
    }
}

/// The UTC date and time of the whole second that holds `ms`, as text.
pub fn to_string(ms: u64) -> (r: Option<String>)
    ensures
        match r {
            Some(s) => utc_text((ms / 1000) as i64) == Some(s@),
            None => utc_text((ms / 1000) as i64) is None,
        },
{
    utc_seconds_text((ms / 1000) as i64)
}

} // verus!
