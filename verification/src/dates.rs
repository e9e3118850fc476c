//! Calendar dates, as the `time` crate represents them.

use crate::error::DateError;
use time::{Date, Duration};
use vstd::prelude::*;

verus! {

/// A date of the proleptic Gregorian calendar. What it holds is known to
/// the `time` crate alone.
#[verifier::external_type_specification]
#[verifier::external_body]
pub struct ExDate(time::Date);

/// A span of time, which may be negative. What it holds is known to the
/// `time` crate alone.
#[verifier::external_type_specification]
#[verifier::external_body]
pub struct ExDuration(time::Duration);

/// The date that lies `duration` after `date`, as `Date::checked_add` gives
/// it: `None` where that date cannot be represented.
pub uninterp spec fn date_after(date: Date, duration: Duration) -> Option<Date>;

/// `Date::checked_add`: the date that lies `duration` after `date`, or
/// `None` where the `time` crate has no such date. Which date that is, is
/// left to the crate; the contract only gives it its name.
#[verifier::external_body]
fn checked_add(date: Date, duration: Duration) -> (moved: Option<Date>)
    ensures
        moved == date_after(date, duration),
{
    date.checked_add(duration)
}

/// The date that lies `duration` after `date`; before it, if `duration` is
/// negative.
///
/// Where the date asked for is outside the range that `Date` can hold, the
/// result is `OutOfRange`.
pub fn add_days(duration: Duration, date: Date) -> (moved: Result<Date, DateError>)
    ensures
        moved == match date_after(date, duration) {
            Some(day) => Ok::<Date, DateError>(day),
            None => Err(DateError::OutOfRange),
        },
{
    match checked_add(date, duration) {
        Some(day) => Ok(day),
        None => Err(DateError::OutOfRange),
    }
}

} // verus!
