use vstd::prelude::*;
use std::time::{Duration, SystemTime, SystemTimeError};

verus! {

#[verifier::external_type_specification]
#[verifier::external_body]
pub struct ExSystemTime(SystemTime);

#[verifier::external_type_specification]
#[verifier::external_body]
pub struct ExSystemTimeError(SystemTimeError);

/// Relies on `SystemTime::now`: the system clock's current time. Nothing is
/// known of the value.
pub assume_specification[ SystemTime::now ]() -> SystemTime;

/// Relies on `SystemTime::duration_since`: the time from `earlier` to `t`,
/// or an error when `earlier` is later. Which of the two comes is not known
/// here.
pub assume_specification[ SystemTime::duration_since ](
    t: &SystemTime,
    earlier: SystemTime,
) -> Result<Duration, SystemTimeError>;

/// Relies on `Duration::as_nanos`: the whole length in nanoseconds.
pub assume_specification[ Duration::as_nanos ](d: &Duration) -> u128;

/// Holds the time it was last started at.
pub struct Stopwatch {
    start_time: SystemTime,
}

/// The whole number of `unit`-nanosecond units in `elapsed` nanoseconds,
/// narrowed to `i64` as `as` does; 0 when the clock went backwards (`None`).
pub fn whole_units(elapsed: Option<u128>, unit: u128) -> (r: i64)
    requires
        unit > 0,
    ensures
        r == whole_units_spec(elapsed, unit),
{
    match elapsed {
        Some(n) => (n / unit) as i64,
        None => 0,
    }
}

/// The nanoseconds from `start` to now, or `None` when the clock went
/// backwards.
fn nanos_since(start: &SystemTime) -> Option<u128> {
    match SystemTime::now().duration_since(*start) {
        Ok(d) => Some(d.as_nanos()),
        Err(_) => None,
    }
}

impl Stopwatch {
    pub fn new() -> Stopwatch {
        Stopwatch { start_time: SystemTime::now() }
    }

    /// Starts timing again from now.
    pub fn start(&mut self) {
        self.start_time = SystemTime::now();
    }

    /// Whole milliseconds since the start, or 0 when the clock went back.
    pub fn elapsed_millis(&self) -> (r: i64)
        ensures
            exists|e: Option<u128>| r == #[trigger] whole_units_spec(e, 1_000_000),
    {
        let e = nanos_since(&self.start_time);
        let r = whole_units(e, 1_000_000);
        proof {
            assert(r == whole_units_spec(e, 1_000_000));
        }
        r
    }

    /// Whole nanoseconds since the start, or 0 when the clock went back.
    pub fn elapsed_nanos(&self) -> (r: i64)
        ensures
            exists|e: Option<u128>| r == #[trigger] whole_units_spec(e, 1),
    {
        let e = nanos_since(&self.start_time);
        let r = whole_units(e, 1);
        proof {
            assert(r == whole_units_spec(e, 1));
        }
        r
    }

    /// Whole microseconds since the start, or 0 when the clock went back.
    pub fn elapsed_micros(&self) -> (r: i64)
        ensures
            exists|e: Option<u128>| r == #[trigger] whole_units_spec(e, 1_000),
    {
        let e = nanos_since(&self.start_time);
        let r = whole_units(e, 1_000);
        proof {
            assert(r == whole_units_spec(e, 1_000));
        }
        r
    }
}

pub open spec fn whole_units_spec(elapsed: Option<u128>, unit: u128) -> i64 {
    match elapsed {
        Some(n) => (n / unit) as i64,
        None => 0,
    }
}

} // verus!
