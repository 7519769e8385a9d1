//! The integer features of a transaction: when it happened, how long after
//! the previous one, and whether the merchant is known to the customer.
use vstd::prelude::*;
use crate::error::AppError;

verus! {

/// An instant in UTC: whole seconds since the Unix epoch and the nanoseconds
/// past them (from one to two billion during a leap second).
pub struct UtcInstant {
    secs: i64,
    nanos: u32,
}

impl UtcInstant {
    /// Seconds since the Unix epoch.
    pub closed spec fn secs(&self) -> i64 {
        self.secs
    }

    /// Nanoseconds past `secs`.
    pub closed spec fn nanos(&self) -> u32 {
        self.nanos
    }
}

/// What `chrono` reads from a date-time text: the instant, as whole seconds
/// since the epoch and nanoseconds past them, or the text of its error when
/// the input is not RFC 3339.
pub uninterp spec fn rfc3339_utc(input: Seq<char>) -> Result<(i64, u32), Seq<char>>;

/// Whole seconds, truncated toward zero, that `chrono` counts from the
/// instant `(earlier_secs, earlier_nanos)` to `(later_secs, later_nanos)`.
pub uninterp spec fn whole_seconds_between(
    later_secs: i64,
    later_nanos: u32,
    earlier_secs: i64,
    earlier_nanos: u32,
) -> i64;

/// The instant was read from some RFC 3339 text.
pub open spec fn is_parsed(t: UtcInstant) -> bool {
    exists|s: Seq<char>| rfc3339_utc(s) == Ok::<(i64, u32), Seq<char>>((t.secs(), t.nanos()))
}

/// Reads an RFC 3339 date-time with `chrono::DateTime::parse_from_rfc3339`
/// and converts it to UTC. The claim is only that the result is a function
/// of the text (named `rfc3339_utc`), with a sub-second part below two
/// billion nanoseconds, as `chrono::Timelike::nanosecond` documents; the
/// grammar and the error text are left to `chrono`.
#[verifier::external_body]
fn parse_utc(input: &str) -> (r: Result<UtcInstant, String>)
    ensures
        match r {
            Ok(t) => rfc3339_utc(input@) == Ok::<(i64, u32), Seq<char>>((t.secs(), t.nanos()))
                && t.nanos() < 2_000_000_000,
            Err(m) => rfc3339_utc(input@) == Err::<(i64, u32), Seq<char>>(m@),
        },
{
    match chrono::DateTime::parse_from_rfc3339(input) {
        Ok(t) => {
            let utc = t.with_timezone(&chrono::Utc);
            Ok(UtcInstant { secs: utc.timestamp(), nanos: utc.timestamp_subsec_nanos() })
        },
        Err(e) => Err(e.to_string()),
    }
}

/// Whole seconds from `earlier` to `later`, by `chrono`'s subtraction of
/// date-times and `TimeDelta::num_seconds`. Both instants were read by
/// `parse_utc`, so `DateTime::from_timestamp` rebuilds them (its
/// documentation promises the round trip with `timestamp` and
/// `timestamp_subsec_nanos`). The result is named `whole_seconds_between`.
#[verifier::external_body]
fn seconds_between(later: &UtcInstant, earlier: &UtcInstant) -> (s: i64)
    requires
        is_parsed(*later),
        is_parsed(*earlier),
    ensures
        s == whole_seconds_between(later.secs(), later.nanos(), earlier.secs(), earlier.nanos()),
{
    let a = chrono::DateTime::from_timestamp(later.secs, later.nanos).expect("parsed instant");
    let b = chrono::DateTime::from_timestamp(earlier.secs, earlier.nanos).expect("parsed instant");
    (a - b).num_seconds()
}

/// Hour of the day, in UTC, of an instant `secs` seconds after the epoch.
pub open spec fn hour_of(secs: int) -> int {
    (secs % 86400) / 3600
}

/// Day of the week, counted from Monday as 0, of an instant `secs` seconds
/// after the epoch (the epoch fell on a Thursday).
pub open spec fn weekday_of(secs: int) -> int {
    (secs / 86400 + 3) % 7
}

/// The time features of a transaction.
pub struct TimeFeatures {
    pub hour_of_day: u32,
    pub day_of_week: u32,
    pub seconds_since_last: Option<i64>,
}

/// The time features of a transaction requested at `requested_at`, whose
/// customer's previous transaction, if any, happened at `last_timestamp`.
/// Either text that is not RFC 3339 is an error, the request time first.
pub fn time_features(requested_at: &str, last_timestamp: Option<&str>) -> (r: Result<
    TimeFeatures,
    AppError,
>)
    ensures
        match rfc3339_utc(requested_at@) {
            Err(text) => r matches Err(AppError::DateTime(m)) && m@ == text,
            Ok(now) => match last_timestamp {
                None => r matches Ok(f) && f.hour_of_day == hour_of(now.0 as int)
                    && f.day_of_week == weekday_of(now.0 as int) && f.seconds_since_last is None,
                Some(last) => match rfc3339_utc(last@) {
                    Err(text) => r matches Err(AppError::DateTime(m)) && m@ == text,
                    Ok(before) => r matches Ok(f) && f.hour_of_day == hour_of(now.0 as int)
                        && f.day_of_week == weekday_of(now.0 as int) && f.seconds_since_last
                        == Some(whole_seconds_between(now.0, now.1, before.0, before.1)),
                },
            },
        },
{
    let now = match parse_utc(requested_at) {
        Ok(t) => t,
        Err(m) => return Err(AppError::DateTime(m)),
    };
    let secs_of_day = match now.secs.checked_rem_euclid(86400) {
        Some(v) => v,
        None => 0,
    };
    let days = match now.secs.checked_div_euclid(86400) {
        Some(v) => v,
        None => 0,
    };
    let weekday = match (days + 3).checked_rem_euclid(7) {
        Some(v) => v,
        None => 0,
    };
    let hour_of_day = (secs_of_day / 3600) as u32;
    let day_of_week = weekday as u32;
    let seconds_since_last = match last_timestamp {
        Some(text) => {
            let before = match parse_utc(text) {
                Ok(t) => t,
                Err(m) => return Err(AppError::DateTime(m)),
            };
            proof {
                assert(rfc3339_utc(requested_at@) == Ok::<(i64, u32), Seq<char>>(
                    (now.secs(), now.nanos()),
                ));
                assert(rfc3339_utc(text@) == Ok::<(i64, u32), Seq<char>>(
                    (before.secs(), before.nanos()),
                ));
            }
            Some(seconds_between(&now, &before))
        },
        None => None,
    };
    Ok(TimeFeatures { hour_of_day, day_of_week, seconds_since_last })
}

/// Whether `merchant_id` is missing from the customer's known merchants.
pub fn is_unknown_merchant(known_merchants: &Vec<String>, merchant_id: &String) -> (b: bool)
    ensures
        b == !(exists|i: int|
            0 <= i < known_merchants@.len() && (#[trigger] known_merchants@[i])@
                == merchant_id@),
{
    let mut i: usize = 0;
    while i < known_merchants.len()
        invariant
            i <= known_merchants@.len(),
            forall|j: int| 0 <= j < i ==> (#[trigger] known_merchants@[j])@ != merchant_id@,
        decreases known_merchants@.len() - i,
    {
        if known_merchants[i] == *merchant_id {
            return false;
        }
        i = i + 1;
    }
    true
}

} // verus!
