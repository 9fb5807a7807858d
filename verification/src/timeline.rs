//! Moving along the timeline: a timestamp some seconds after another, and
//! the seconds between two. The calendar arithmetic is chrono's.

use crate::calendar::lemma_at_own_seconds;
use crate::calendar::lemma_at_seconds_found;
use crate::calendar::lemma_order_by_fields;
use crate::calendar::lemma_shifted;
use crate::calendar::lemma_valid_seconds_bounded;
use crate::calendar::Timestamp;
use crate::calendar::MAX_SECONDS;
use crate::calendar::MAX_YEAR;
use crate::calendar::MIN_SECONDS;
use crate::calendar::MIN_YEAR;
use chrono::Datelike;
use chrono::Timelike;
use vstd::prelude::*;

verus! {

/// One more than the seconds between the first valid timestamp and the
/// last: a shift of this size or more leaves the valid range from anywhere
/// in it.
pub const MAX_SHIFT: i64 = 315_569_520_000;

/// Calls `chrono::NaiveDateTime::checked_add_signed` on the civil time
/// with the fields of `start` and a `chrono::TimeDelta` of `seconds` whole
/// seconds.
///
/// Trusted, not proved: chrono keeps a `NaiveDateTime` on the proleptic
/// Gregorian calendar without leap seconds, so the sum is the civil time
/// that lies `seconds` later on that timeline. chrono returns `None` only
/// when the sum leaves the years -262143 to 262142; from a start in the
/// years 0 to 9999 a shift of at most `MAX_SHIFT` seconds, about ten
/// thousand years, stays far inside them.
#[verifier::external_body]
fn civil_after(start: Timestamp, seconds: i64) -> (moved: Option<Timestamp>)
    requires
        start.is_valid(),
        -MAX_SHIFT <= seconds <= MAX_SHIFT,
    ensures
        moved is Some,
        moved->0.is_civil(),
        moved->0.unix_seconds() == start.unix_seconds() + seconds,
{
    let date = chrono::NaiveDate::from_ymd_opt(start.year, start.month, start.day)?;
    let from = date.and_hms_opt(start.hour, start.minute, start.second)?;
    let to = from.checked_add_signed(chrono::TimeDelta::try_seconds(seconds)?)?;
    Some(
        Timestamp {
            year: to.year(),
            month: to.month(),
            day: to.day(),
            hour: to.hour(),
            minute: to.minute(),
            second: to.second(),
        },
    )
}

/// Calls `chrono::NaiveDateTime::signed_duration_since` on the civil times
/// with the fields of `later` and of `earlier`, and reads the whole
/// seconds of the `chrono::TimeDelta` that comes back.
///
/// Trusted, not proved: the difference is counted on the proleptic
/// Gregorian calendar without leap seconds, and neither side has a
/// fraction of a second, so it is the difference of the two
/// `unix_seconds`.
#[verifier::external_body]
fn civil_seconds_between(later: Timestamp, earlier: Timestamp) -> (r: i64)
    requires
        later.is_valid(),
        earlier.is_valid(),
    ensures
        r == later.unix_seconds() - earlier.unix_seconds(),
{
    let a = chrono::NaiveDate::from_ymd_opt(later.year, later.month, later.day).unwrap();
    let b = chrono::NaiveDate::from_ymd_opt(earlier.year, earlier.month, earlier.day).unwrap();
    let a = a.and_hms_opt(later.hour, later.minute, later.second).unwrap();
    let b = b.and_hms_opt(earlier.hour, earlier.minute, earlier.second).unwrap();
    a.signed_duration_since(b).num_seconds()
}

impl Timestamp {
    /// The valid timestamp `seconds` after this one, or `None` where that
    /// moment lies before year 0 or after year 9999.
    pub fn checked_add_seconds(&self, seconds: i64) -> (r: Option<Timestamp>)
        requires
            self.is_valid(),
        ensures
            r == self.shifted(seconds as int),
            r is Some <==> MIN_SECONDS <= self.unix_seconds() + seconds <= MAX_SECONDS,
            r matches Some(t) ==> t.is_valid() && t.unix_seconds() == self.unix_seconds() + seconds,
    {
        proof {
            lemma_shifted(*self, seconds as int);
            lemma_valid_seconds_bounded(*self);
            lemma_at_seconds_found(self.unix_seconds() + seconds);
        }
        if seconds < -MAX_SHIFT || seconds > MAX_SHIFT {
            return None;
        }
        match civil_after(*self, seconds) {
            Some(t) => {
                if MIN_YEAR <= t.year && t.year <= MAX_YEAR {
                    proof {
                        lemma_at_own_seconds(t);
                    }
                    Some(t)
                } else {
                    proof {
                        if let Some(u) = self.shifted(seconds as int) {
                            lemma_order_by_fields(u, t);
                        }
                    }
                    None
                }
            },
            None => None,
        }
    }

    /// The seconds from this timestamp to `later`; negative where `later`
    /// is the earlier of the two.
    pub fn seconds_until(&self, later: &Timestamp) -> (r: i64)
        requires
            self.is_valid(),
            later.is_valid(),
        ensures
            r == later.unix_seconds() - self.unix_seconds(),
    {
        civil_seconds_between(*later, *self)
    }
}

} // verus!
