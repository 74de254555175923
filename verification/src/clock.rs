//! Clocks: the machine's clock, and times of day.
use vstd::prelude::*;

use std::time::{Duration, Instant, SystemTime, SystemTimeError};

use crate::text::{digit, padded, push_padded};

verus! {

/// `std::time::SystemTime`, as an opaque type.
#[verifier::external_type_specification]
#[verifier::external_body]
pub struct ExSystemTime(std::time::SystemTime);

/// `std::time::SystemTimeError`, as an opaque type.
#[verifier::external_type_specification]
#[verifier::external_body]
pub struct ExSystemTimeError(std::time::SystemTimeError);

/// `std::time::Instant`, as an opaque type.
#[verifier::external_type_specification]
#[verifier::external_body]
pub struct ExInstant(std::time::Instant);

/// The length of a `Duration` in nanoseconds, which `Duration::as_nanos` gives.
pub uninterp spec fn nanos(d: std::time::Duration) -> nat;

/// The time from the Unix epoch to a reading of the system clock, which
/// `SystemTime::duration_since` gives; an error for a reading from before the epoch.
pub uninterp spec fn from_epoch(t: std::time::SystemTime) -> Result<
    std::time::Duration,
    std::time::SystemTimeError,
>;

/// Where an instant stands on the monotonic clock, in nanoseconds from some point of that
/// clock: `Instant::duration_since` gives the difference of two, and instants are ordered by
/// it.
pub uninterp spec fn moment(t: std::time::Instant) -> int;

/// `SystemTime::now` reads the system clock; nothing is promised of the reading.
pub assume_specification[ std::time::SystemTime::now ]() -> (t: SystemTime)
;

/// `Instant::now` reads the monotonic clock; nothing is promised of the reading.
pub assume_specification[ std::time::Instant::now ]() -> (t: Instant)
;

/// Calls `SystemTime::duration_since` with the Unix epoch. The result is named.
#[verifier::external_body]
fn since_epoch(t: &SystemTime) -> (r: Result<Duration, SystemTimeError>)
    ensures
        r == from_epoch(*t),
{
    t.duration_since(std::time::UNIX_EPOCH)
}

/// `Duration::as_millis`: the whole milliseconds of a duration.
pub assume_specification[ std::time::Duration::as_millis ](d: &Duration) -> (r: u128)
    ensures
        r == nanos(*d) / 1_000_000,
;

/// `Duration::as_secs`: the whole seconds of a duration.
pub assume_specification[ std::time::Duration::as_secs ](d: &Duration) -> (r: u64)
    ensures
        r == nanos(*d) / 1_000_000_000,
;

/// `Duration::from_secs`: the duration of that many seconds.
pub assume_specification[ std::time::Duration::from_secs ](secs: u64) -> (d: Duration)
    ensures
        nanos(d) == secs * 1_000_000_000,
;

/// `Instant::checked_add`: the instant that much later where it is inside the bounds of the
/// instants that the machine can represent, and `None` otherwise, that is, where all instants
/// are earlier. Adding nothing gives the same instant. Where the bounds are is not stated.
pub assume_specification[ std::time::Instant::checked_add ](
    t: &Instant,
    d: Duration,
) -> (r: Option<Instant>)
    ensures
        match r {
            Some(u) => moment(u) == moment(*t) + nanos(d),
            None => forall|u: Instant| #[trigger] moment(u) < moment(*t) + nanos(d),
        },
        nanos(d) == 0 ==> r == Some(*t),
;

/// The milliseconds of a reading of the system clock: since the Unix epoch, modulo two to
/// the sixty-fourth; zero where the reading failed.
pub open spec fn millis_of(reading: Result<Duration, SystemTimeError>) -> int {
    match reading {
        Ok(d) => (nanos(d) / 1_000_000) as int % 0x1_0000_0000_0000_0000,
        Err(_) => 0,
    }
}

/// The milliseconds of a reading of the system clock.
pub fn stamp_ms(reading: Result<Duration, SystemTimeError>) -> (r: u64)
    ensures
        r == millis_of(reading),
{
    match reading {
        Ok(d) => {
            let ms: u128 = d.as_millis();
            (ms % 0x1_0000_0000_0000_0000) as u64
        },
        Err(_) => 0,
    }
}

/// The wall clock in milliseconds since the Unix epoch.
pub fn wall_ms() -> (r: u64)
    ensures
        exists|t: SystemTime| r == millis_of(#[trigger] from_epoch(t)),
{
    let t = SystemTime::now();
    stamp_ms(since_epoch(&t))
}

/// The seconds of a reading of the system clock: since the Unix epoch; zero where the reading
/// failed.
pub open spec fn seconds_of(reading: Result<Duration, SystemTimeError>) -> int {
    match reading {
        Ok(d) => (nanos(d) / 1_000_000_000) as int,
        Err(_) => 0,
    }
}

/// The seconds of a reading of the system clock.
pub fn stamp_s(reading: Result<Duration, SystemTimeError>) -> (r: u64)
    ensures
        r == seconds_of(reading),
{
    match reading {
        Ok(d) => d.as_secs(),
        Err(_) => 0,
    }
}

/// The wall clock in seconds since the Unix epoch.
pub fn now_s() -> (r: u64)
    ensures
        exists|t: SystemTime| r == seconds_of(#[trigger] from_epoch(t)),
{
    let t = SystemTime::now();
    stamp_s(since_epoch(&t))
}

/// Whether `r` is the instant `secs` seconds after `now`: `None` only where all instants that
/// the machine can represent are earlier.
pub open spec fn ends_after(now: Instant, secs: u64, r: Option<Instant>) -> bool {
    &&& match r {
        Some(end) => moment(end) == moment(now) + secs * 1_000_000_000,
        None => forall|end: Instant| #[trigger]
            moment(end) < moment(now) + secs * 1_000_000_000,
    }
    &&& secs == 0 ==> r == Some(now)
}

/// The instant `secs` seconds after `now`; `None` where the machine cannot represent it.
pub fn deadline_from(now: &Instant, secs: u64) -> (r: Option<Instant>)
    ensures
        ends_after(*now, secs, r),
{
    now.checked_add(Duration::from_secs(secs))
}

/// The instant `secs` seconds from now; `None` where the machine cannot represent it.
pub fn deadline(secs: u64) -> (r: Option<Instant>)
    ensures
        exists|now: Instant| #[trigger] ends_after(now, secs, r),
{
    let now = Instant::now();
    deadline_from(&now, secs)
}

/// A deadline counts from a reading of the clock: with the reading between `early` and `late`,
/// and `secs` seconds after `late` an instant, there is a deadline, and it is between `secs`
/// seconds after the one and `secs` seconds after the other.
pub proof fn law_a_deadline_lies_between(
    early: Instant,
    now: Instant,
    late: Instant,
    secs: u64,
    last: Instant,
    r: Option<Instant>,
)
    requires
        moment(early) <= moment(now) <= moment(late),
        ends_after(late, secs, Some(last)),
        ends_after(now, secs, r),
    ensures
        r is Some,
        moment(early) + secs * 1_000_000_000 <= moment(r->0) <= moment(last),
        moment(last) == moment(late) + secs * 1_000_000_000,
{
    assert(moment(last) >= moment(now) + secs * 1_000_000_000);
}

/// Deadlines keep the order of their readings: of a reading that is not later, and for no more
/// seconds, there is a deadline where there is one of the later, and it is not later.
pub proof fn law_deadlines_keep_order(
    first: Instant,
    s: u64,
    a: Option<Instant>,
    second: Instant,
    t: u64,
    b: Instant,
)
    requires
        moment(first) <= moment(second),
        s <= t,
        ends_after(first, s, a),
        ends_after(second, t, Some(b)),
    ensures
        a is Some,
        moment(a->0) <= moment(b),
{
    assert(moment(b) >= moment(first) + s * 1_000_000_000);
}

// ---- times of day ----

/// The time of day of `ms` milliseconds since the epoch, as `hh:mm:ss.mmm` in UTC.
pub open spec fn time_of_day(ms: u64) -> Seq<char> {
    let s = ms / 1000 % 86_400;
    padded((s / 3600) as nat, 2) + seq![':'] + padded((s % 3600 / 60) as nat, 2) + seq![':']
        + padded((s % 60) as nat, 2) + seq!['.'] + padded((ms % 1000) as nat, 3)
}

/// Writes the time of day of a time in milliseconds.
pub fn clock(ms: u64) -> (r: String)
    ensures
        r@ == time_of_day(ms),
{
    let s: u64 = ms / 1000 % 86_400;
    let mut r = String::new();
    push_padded(&mut r, s / 3600, 2);
    r.push(':');
    push_padded(&mut r, s % 3600 / 60, 2);
    r.push(':');
    push_padded(&mut r, s % 60, 2);
    r.push('.');
    push_padded(&mut r, ms % 1000, 3);
    assert(r@ =~= time_of_day(ms));
    r
}

/// The seconds from `now` to the next full minute, from one to sixty.
pub open spec fn to_minute(now: u64) -> int {
    60 - now % 60
}

/// The countdown to the next big block: big blocks land on the minute.
pub fn next_big(now: u64) -> (r: u64)
    ensures
        r == to_minute(now),
        1 <= r <= 60,
{
    60 - now % 60
}

/// The countdown ends on a full minute, and on the first one after `now`.
pub proof fn law_countdown_ends_on_the_next_minute(now: u64)
    ensures
        (now + to_minute(now)) % 60 == 0,
        forall|later: int| now < later < now + to_minute(now) ==> #[trigger] (later % 60) != 0,
{
}

// ---- laws of the clock ----

/// A reading of the system clock counts whole milliseconds and whole seconds since the epoch; one
/// that failed counts none.
pub proof fn law_readings_count_from_the_epoch(
    d: Duration,
    e: SystemTimeError,
    ms: u64,
    s: u64,
    no_ms: u64,
    no_s: u64,
)
    requires
        call_ensures(stamp_ms, (Ok::<Duration, SystemTimeError>(d),), ms),
        call_ensures(stamp_s, (Ok::<Duration, SystemTimeError>(d),), s),
        call_ensures(stamp_ms, (Err::<Duration, SystemTimeError>(e),), no_ms),
        call_ensures(stamp_s, (Err::<Duration, SystemTimeError>(e),), no_s),
    ensures
        nanos(d) < 0x1_0000_0000_0000_0000 * 1_000_000 ==> ms * 1_000_000 <= nanos(d) < (ms + 1)
            * 1_000_000,
        s * 1_000_000_000 <= nanos(d) < (s + 1) * 1_000_000_000,
        no_ms == 0,
        no_s == 0,
{
}

/// A deadline is as many seconds after the reading as it is for.
pub proof fn law_deadlines_are_their_seconds_away(now: Instant, secs: u64, r: Option<Instant>)
    requires
        call_ensures(deadline_from, (&now, secs), r),
    ensures
        r matches Some(end) ==> moment(end) - moment(now) == secs * 1_000_000_000,
        secs == 0 ==> r == Some(now),
        r is None ==> forall|u: Instant| #[trigger] moment(u) - moment(now) < secs * 1_000_000_000,
{
}

/// The number that decimal digits write from place `i` on, `n` of them.
pub open spec fn number_at(s: Seq<char>, i: int, n: nat) -> int
    decreases n,
{
    if n == 0 {
        0
    } else {
        10 * number_at(s, i, (n - 1) as nat) + (s[i + n - 1] as int - 48)
    }
}

/// A time of day is written as twelve characters: hours, minutes, seconds and milliseconds, in
/// digits, with colons and a point between; and they are those of the time in milliseconds since
/// the epoch, days left out.
pub proof fn law_times_of_day_read_back(ms: u64, r: String, i: int)
    requires
        call_ensures(clock, (ms,), r),
    ensures
        r@.len() == 12,
        r@[2] == ':' && r@[5] == ':' && r@[8] == '.',
        0 <= i < 12 && i != 2 && i != 5 && i != 8 ==> '0' <= r@[i] <= '9',
        ((number_at(r@, 0, 2) * 60 + number_at(r@, 3, 2)) * 60 + number_at(r@, 6, 2)) * 1000
            + number_at(r@, 9, 3) == ms % 86_400_000,
        number_at(r@, 0, 2) < 24 && number_at(r@, 3, 2) < 60 && number_at(r@, 6, 2) < 60,
{
    reveal_with_fuel(padded, 4);
    reveal_with_fuel(number_at, 4);
    let s = ms / 1000 % 86_400;
    assert(ms % 86_400_000 == s * 1000 + ms % 1000);
    let h = (s / 3600) as nat;
    let m = (s % 3600 / 60) as nat;
    let t = (s % 60) as nat;
    let u = (ms % 1000) as nat;
    assert(s == (h * 60 + m) * 60 + t);
    assert(h < 24 && m < 60 && t < 60 && u < 1000);
    assert(r@ == time_of_day(ms));
    assert(padded(h, 2) =~= seq![digit((h / 10 % 10) as int), digit((h % 10) as int)]);
    assert(padded(m, 2) =~= seq![digit((m / 10 % 10) as int), digit((m % 10) as int)]);
    assert(padded(t, 2) =~= seq![digit((t / 10 % 10) as int), digit((t % 10) as int)]);
    assert(padded(u, 3) =~= seq![
        digit((u / 10 / 10 % 10) as int),
        digit((u / 10 % 10) as int),
        digit((u % 10) as int),
    ]);
    assert(u / 10 / 10 % 10 == u / 100);
    assert(h / 10 * 10 + h % 10 == h);
    assert(number_at(r@, 0, 2) == h);
    assert(number_at(r@, 3, 2) == m);
    assert(number_at(r@, 6, 2) == t);
    assert(number_at(r@, 9, 3) == u);
}

/// The countdown is from one to sixty seconds and ends on a full minute.
pub proof fn law_countdowns_end_on_a_minute(now: u64, r: u64)
    requires
        call_ensures(next_big, (now,), r),
    ensures
        1 <= r <= 60,
        (now + r) % 60 == 0,
        r == to_minute(now),
{
}

/// The wall clock in milliseconds and in seconds is that of a reading: whole ones since the epoch,
/// or zero where the reading failed.
pub proof fn law_the_wall_clock_counts_from_the_epoch(ms: u64, s: u64)
    requires
        call_ensures(wall_ms, (), ms),
        call_ensures(now_s, (), s),
    ensures
        exists|t: SystemTime| match #[trigger] from_epoch(t) {
            Ok(d) => nanos(d) < 0x1_0000_0000_0000_0000 * 1_000_000 ==> ms * 1_000_000 <= nanos(d)
                < (ms + 1) * 1_000_000,
            Err(_) => ms == 0,
        },
        exists|t: SystemTime| match #[trigger] from_epoch(t) {
            Ok(d) => s * 1_000_000_000 <= nanos(d) < (s + 1) * 1_000_000_000,
            Err(_) => s == 0,
        },
{
    let t = choose|t: SystemTime| ms == millis_of(#[trigger] from_epoch(t));
    assert(match from_epoch(t) {
        Ok(d) => nanos(d) < 0x1_0000_0000_0000_0000 * 1_000_000 ==> ms * 1_000_000 <= nanos(d) < (ms
            + 1) * 1_000_000,
        Err(_) => ms == 0,
    });
    let u = choose|u: SystemTime| s == seconds_of(#[trigger] from_epoch(u));
    assert(match from_epoch(u) {
        Ok(d) => s * 1_000_000_000 <= nanos(d) < (s + 1) * 1_000_000_000,
        Err(_) => s == 0,
    });
}

/// A deadline is its seconds after some reading of the clock.
pub proof fn law_a_deadline_is_its_seconds_from_a_reading(secs: u64, r: Option<Instant>)
    requires
        call_ensures(deadline, (secs,), r),
    ensures
        r matches Some(end) ==> exists|now: Instant|
            moment(end) == #[trigger] moment(now) + secs * 1_000_000_000,
{
    let now = choose|now: Instant| #[trigger] ends_after(now, secs, r);
    if let Some(end) = r {
        assert(moment(end) == moment(now) + secs * 1_000_000_000);
    }
}

} // verus!
