//! The current year, as the copyright line of the programs shows it.

use vstd::prelude::*;

verus! {

/// The clock reading `std::time::SystemTime`.
#[verifier::external_type_specification]
#[verifier::external_body]
pub struct ExSystemTime(std::time::SystemTime);

/// The error of a clock reading before the epoch.
#[verifier::external_type_specification]
#[verifier::external_body]
pub struct ExSystemTimeError(std::time::SystemTimeError);

/// `std::time::SystemTime::now`: the current time of the system clock. Nothing
/// is claimed of the value, which depends on the clock.
#[verifier::external_body]
fn current_time() -> std::time::SystemTime {
    std::time::SystemTime::now()
}

/// `SystemTime::duration_since` applied to the Unix epoch: the time elapsed since
/// the epoch, or an error for a time before it. Nothing is claimed of the value.
#[verifier::external_body]
fn elapsed_since_epoch(t: &std::time::SystemTime) -> std::result::Result<
    core::time::Duration,
    std::time::SystemTimeError,
> {
    t.duration_since(std::time::UNIX_EPOCH)
}

/// `Duration::as_secs`: the whole seconds of a duration. The duration is opaque
/// here, so nothing is claimed of the value.
#[verifier::external_body]
fn whole_seconds(d: &core::time::Duration) -> u64 {
    d.as_secs()
}

/// The seconds of a mean Gregorian year (365.2425 days).
pub const SECONDS_PER_YEAR: u64 = 31556952;

/// The year reached `secs` seconds after the start of 1970, counting years of
/// mean Gregorian length.
pub open spec fn year_of(secs: u64) -> int {
    secs / 31556952 + 1970
}

/// The year reached `secs` seconds after the start of 1970.
pub fn year_from_secs(secs: u64) -> (r: u64)
    ensures
        r == year_of(secs),
{
    secs / SECONDS_PER_YEAR + 1970
}

/// The year for a clock reading: `elapsed` whole seconds since the epoch, or
/// `None` for a clock set before the epoch, which counts as 0 seconds.
pub fn year_from_elapsed(elapsed: Option<u64>) -> (r: u64)
    ensures
        r == year_of(match elapsed {
            Some(s) => s,
            None => 0,
        }),
{
    let secs: u64 = match elapsed {
        Some(s) => s,
        None => 0,
    };
    year_from_secs(secs)
}

/// The current year by the system clock; a clock set before 1970 counts as 1970.
pub fn year_now() -> (r: u64)
    ensures
        exists|secs: u64| r == year_of(secs),
{
    let now = current_time();
    let elapsed = match elapsed_since_epoch(&now) {
        Ok(d) => Some(whole_seconds(&d)),
        Err(_) => None,
    };
    year_from_elapsed(elapsed)
}

/// The UTC instant (seconds since the epoch) at which the year `y` begins, for
/// `1970 <= y <= 2100`: 365 days a year, and a 366th day in every fourth year
/// from 1972 on (2100, the first exception, is not reached).
pub open spec fn new_year(y: int) -> int {
    86400 * (365 * (y - 1970) + (y - 1969) / 4)
}

/// Counting years of mean length gives the UTC calendar year, before 2100, for
/// every instant at least two days away from a new year.
pub proof fn lemma_year_of_is_calendar_year(t: u64, y: int)
    requires
        1970 <= y < 2100,
        new_year(y) + 172800 <= t,
        t + 172800 < new_year(y + 1),
    ensures
        year_of(t) == y,
{
    let a = y - 1970;
    let q = (a + 1) / 4;
    let q1 = (a + 2) / 4;
    assert(4 * q <= a + 1 && a + 1 < 4 * q + 4);
    assert(4 * q1 <= a + 2 && a + 2 < 4 * q1 + 4);
    assert(new_year(y) == 86400 * (365 * a + q));
    assert(new_year(y + 1) == 86400 * (365 * (a + 1) + q1));
    assert(31556952 * a <= t);
    assert(t < 31556952 * (a + 1));
    assert((t as int) / 31556952 == a) by (nonlinear_arith)
        requires
            31556952 * a <= t,
            t < 31556952 * (a + 1),
            0 <= a,
    ;
}

} // verus!
