use vstd::prelude::*;
use crate::model::Timestamp;

verus! {

/// The largest second count a `Timestamp` holds.
pub const MAX_SECS: i64 = 0x7fff_ffff_ffff_ffff;

/// A clock reading as the system gives it: whether the clock is at or after
/// the Unix epoch, and its distance from the epoch in whole seconds and the
/// nanoseconds past them.
#[derive(Clone, Copy, Debug, PartialEq, Eq, Structural)]
pub struct ClockReading {
    pub after_epoch: bool,
    pub secs: u64,
    pub nanos: u32,
}

/// Relies on `std::time::SystemTime::now` and `SystemTime::duration_since`
/// with the Unix epoch: the distance is returned either way, as `Ok` when the
/// clock is at or after the epoch and inside the error otherwise; the
/// sub-second part of a `Duration` is below one billion nanoseconds.
#[verifier::external_body]
fn read_clock() -> (r: ClockReading)
    ensures
        r.nanos < 1_000_000_000,
{
    match std::time::SystemTime::now().duration_since(std::time::UNIX_EPOCH) {
        Ok(d) => ClockReading { after_epoch: true, secs: d.as_secs(), nanos: d.subsec_nanos() },
        Err(e) => ClockReading { after_epoch: false, secs: e.duration().as_secs(), nanos: e.duration().subsec_nanos() },
    }
}

/// The point in time a clock reading stands for. Distances beyond what
/// `Timestamp` holds are cut at its limits.
pub open spec fn time_of(c: ClockReading) -> Timestamp {
    if c.after_epoch {
        Timestamp { secs: (if c.secs > MAX_SECS { MAX_SECS as int } else { c.secs as int }) as i64, nanos: c.nanos }
    } else if c.nanos == 0 {
        Timestamp { secs: (-(if c.secs > MAX_SECS { MAX_SECS as int } else { c.secs as int })) as i64, nanos: 0 }
    } else {
        Timestamp {
            secs: (-(if c.secs > MAX_SECS - 1 { MAX_SECS - 1 } else { c.secs as int }) - 1) as i64,
            nanos: (1_000_000_000 - c.nanos) as u32,
        }
    }
}

/// The point in time a clock reading stands for.
pub fn timestamp_from_clock(c: ClockReading) -> (r: Timestamp)
    requires
        c.nanos < 1_000_000_000,
    ensures
        r == time_of(c),
        r.nanos < 1_000_000_000,
{
    if c.after_epoch {
        let s: i64 = if c.secs > MAX_SECS as u64 { MAX_SECS } else { c.secs as i64 };
        Timestamp { secs: s, nanos: c.nanos }
    } else if c.nanos == 0 {
        let s: i64 = if c.secs > MAX_SECS as u64 { MAX_SECS } else { c.secs as i64 };
        Timestamp { secs: -s, nanos: 0 }
    } else {
        let s: i64 = if c.secs > (MAX_SECS - 1) as u64 { MAX_SECS - 1 } else { c.secs as i64 };
        Timestamp { secs: -s - 1, nanos: 1_000_000_000 - c.nanos }
    }
}

/// The current time.
pub fn current_time() -> (r: Timestamp)
    ensures
        r.nanos < 1_000_000_000,
{
    timestamp_from_clock(read_clock())
}

/// The last second of the year 9999.
pub const LAST_FOUR_DIGIT_YEAR_SECS: i64 = 253_402_300_799;

/// The time at `secs` seconds after the epoch written as `YYYYMMDD_HHMMSS`
/// in UTC.
pub uninterp spec fn stamp_text(secs: i64) -> Seq<char>;

/// Eight digits, an underscore, six digits.
pub open spec fn is_stamp_shape(s: Seq<char>) -> bool {
    &&& s.len() == 15
    &&& s[8] == '_'
    &&& forall|i: int| 0 <= i < 15 && i != 8 ==> '0' <= #[trigger] s[i] && s[i] <= '9'
}

/// Relies on `chrono::DateTime::from_timestamp`, which gives `None` for a
/// second count outside chrono's range, and on `DateTime::format` with
/// `%Y%m%d_%H%M%S`: year padded to four digits (signed only outside the
/// years 0 to 9999), then month, day, hour, minute and second as two digits
/// each.
#[verifier::external_body]
fn format_stamp(secs: i64) -> (r: Option<String>)
    ensures
        r is Some ==> r->0@ == stamp_text(secs),
        0 <= secs <= LAST_FOUR_DIGIT_YEAR_SECS ==> r is Some && is_stamp_shape(r->0@),
{
    match chrono::DateTime::from_timestamp(secs, 0) {
        Some(d) => Some(d.format("%Y%m%d_%H%M%S").to_string()),
        None => None,
    }
}

/// The time `t` written as `YYYYMMDD_HHMMSS` in UTC; `None` outside the
/// range of dates that can be written.
pub fn stamp_of(t: Timestamp) -> (r: Option<String>)
    ensures
        r is Some ==> r->0@ == stamp_text(t.secs),
        0 <= t.secs <= LAST_FOUR_DIGIT_YEAR_SECS ==> r is Some && is_stamp_shape(r->0@),
{
    format_stamp(t.secs)
}

} // verus!
