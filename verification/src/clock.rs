//! The time of day.

use std::time::{Duration, SystemTime, SystemTimeError, UNIX_EPOCH};
use vstd::prelude::*;

verus! {

/// `std::time::SystemTime`, a reading of the system clock.
#[verifier::external_type_specification]
#[verifier::external_body]
pub struct ExSystemTime(SystemTime);

/// `std::time::SystemTimeError`, which says that one reading was before another.
#[verifier::external_type_specification]
#[verifier::external_body]
pub struct ExSystemTimeError(SystemTimeError);

/// Reads the clock with `SystemTime::now`. Nothing is claimed of what it shows:
/// that depends on the machine.
#[verifier::external_body]
pub(crate) fn read_clock() -> SystemTime {
    SystemTime::now()
}

/// The time from the Unix epoch to a reading, by `SystemTime::duration_since`; an
/// error if the clock was set to a time before it. Nothing more is claimed.
#[verifier::external_body]
pub(crate) fn since_epoch(t: &SystemTime) -> Result<Duration, SystemTimeError> {
    t.duration_since(UNIX_EPOCH)
}

/// A duration in whole milliseconds, by `Duration::as_millis`. A duration is not
/// modelled, so nothing is claimed of the number.
#[verifier::external_body]
pub(crate) fn whole_millis(d: &Duration) -> u128 {
    d.as_millis()
}

/// `t` is what the clock shows: the clock can be read so that its distance from the
/// Unix epoch is `t` in whole milliseconds, as much of it as 64 bits hold, or so that it
/// is before the epoch, and `t` is 0.
pub closed spec fn is_reading(t: u64) -> bool {
    exists|at: SystemTime, past: Result<Duration, SystemTimeError>|
        call_ensures(read_clock, (), at) && #[trigger] call_ensures(since_epoch, (&at,), past)
            && match past {
            Ok(d) => exists|n: u128| #[trigger]
                call_ensures(whole_millis, (&d,), n) && t == n % 0x1_0000_0000_0000_0000,
            Err(_) => t == 0,
        }
}

/// The result of a call, known to be one.
fn called<A, B, F: Fn(A) -> B>(f: F, a: A) -> (r: B)
    requires
        f.requires((a,)),
    ensures
        f.ensures((a,), r),
{
    f(a)
}

/// The result of a call without arguments, known to be one.
fn called_plain<B, F: Fn() -> B>(f: F) -> (r: B)
    requires
        f.requires(()),
    ensures
        f.ensures((), r),
{
    f()
}

/// The time in milliseconds since the Unix epoch; 0 if the clock is set to a time
/// before it. Which time the clock shows is not specified.
pub fn now_ms() -> (r: u64)
    ensures
        is_reading(r),
{
    let at: SystemTime = called_plain(read_clock);
    let past: Result<Duration, SystemTimeError> = called(since_epoch, &at);
    match past {
        Ok(d) => {
            let n: u128 = called(whole_millis, &d);
            clock_ms(Some(n))
        },
        Err(_) => clock_ms(None),
    }
}

/// The time that a clock shows which is so many milliseconds past the Unix epoch, or
/// before it: as much of the number as 64 bits hold, or 0.
pub fn clock_ms(past_epoch: Option<u128>) -> (r: u64)
    ensures
        r == (match past_epoch {
            Some(n) => n as int % 0x1_0000_0000_0000_0000,
            None => 0,
        }),
{
    match past_epoch {
        Some(n) => {
            assert(#[verifier::truncate] (n as u64) == n % 0x1_0000_0000_0000_0000u128)
                by (bit_vector);
            n as u64
        },
        None => 0,
    }
}

/// Every reading is what some call of the system clock gave: the whole milliseconds from
/// the Unix epoch to it, or 0 where it was before the epoch.
pub(crate) proof fn law_readings_come_from_the_clock(t: u64)
    requires
        is_reading(t),
    ensures
        exists|at: SystemTime, past: Result<Duration, SystemTimeError>|
            call_ensures(read_clock, (), at) && #[trigger] call_ensures(since_epoch, (&at,), past)
                && match past {
                Ok(d) => exists|n: u128| #[trigger]
                    call_ensures(whole_millis, (&d,), n) && t == n % 0x1_0000_0000_0000_0000,
                Err(_) => t == 0,
            },
{
}

/// When a value expires that is written at `now` with a time to live: never, which
/// is 0, if that is 0.
pub open spec fn expiry(now: u64, ttl_ms: u64) -> u64 {
    if ttl_ms == 0 {
        0
    } else if now + ttl_ms > u64::MAX {
        u64::MAX
    } else {
        (now + ttl_ms) as u64
    }
}

/// When a value expires that is written at `now` with a time to live.
pub fn expires_at(now: u64, ttl_ms: u64) -> (r: u64)
    ensures
        r == expiry(now, ttl_ms),
{
    if ttl_ms == 0 {
        0
    } else {
        now.saturating_add(ttl_ms)
    }
}


/// A time to live that is not 0 ends so many milliseconds after the write, or at the end
/// of time where that is later.
pub proof fn law_expiry_is_after_the_write(now: u64, ttl_ms: u64)
    ensures
        ttl_ms == 0 <==> expiry(now, ttl_ms) == 0,
        ttl_ms > 0 && now + ttl_ms <= u64::MAX ==> expiry(now, ttl_ms) - now == ttl_ms,
        now + ttl_ms > u64::MAX ==> expiry(now, ttl_ms) == u64::MAX,
{
}

} // verus!
