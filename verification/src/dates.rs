use vstd::prelude::*;

use chrono::NaiveDate;

verus! {

/// The calendar date of the `chrono` crate, carried as an opaque value.
#[verifier::external_type_specification]
#[verifier::external_body]
pub struct ExNaiveDate(chrono::NaiveDate);

/// Calls `==` of `chrono::NaiveDate`, which is derived on its single field:
/// two dates compare equal exactly when they are the same value.
#[verifier::external_body]
pub(crate) fn same_date(a: &NaiveDate, b: &NaiveDate) -> (r: bool)
    ensures
        r == (*a == *b),
{
    a == b
}

/// The calendar date before `date`, as `chrono::NaiveDate::pred_opt` gives
/// it: `None` only for the first representable date.
pub uninterp spec fn date_before(date: NaiveDate) -> Option<NaiveDate>;

/// The calendar date after `date`, as `chrono::NaiveDate::succ_opt` gives it:
/// `None` only for the last representable date.
pub uninterp spec fn date_after(date: NaiveDate) -> Option<NaiveDate>;

/// Calls `chrono::NaiveDate::pred_opt`, the previous calendar date, which is
/// `None` only for the first representable date. What is claimed: the result
/// depends on the date alone (it is `date_before` of it), and a date that
/// comes back differs from `date`.
#[verifier::external_body]
pub(crate) fn previous_day(date: &NaiveDate) -> (day: Option<NaiveDate>)
    ensures
        day == date_before(*date),
        day matches Some(previous) ==> previous != *date,
{
    date.pred_opt()
}

/// Calls `chrono::NaiveDate::succ_opt`, the next calendar date, which is
/// `None` only for the last representable date. What is claimed: the result
/// depends on the date alone (it is `date_after` of it), and a date that comes
/// back differs from `date`.
#[verifier::external_body]
pub(crate) fn following_day(date: &NaiveDate) -> (day: Option<NaiveDate>)
    ensures
        day == date_after(*date),
        day matches Some(next) ==> next != *date,
{
    date.succ_opt()
}

/// Why the calendar cannot move to another day.
#[derive(Debug, Clone, Copy, PartialEq, Eq, Structural)]
pub enum DayError {
    /// The shown date is the first one that can be represented.
    NoPreviousDay,
    /// The shown date is the last one that can be represented.
    NoFollowingDay,
}

impl DayError {
    /// Describes the error.
    pub fn message(&self) -> (message: &'static str)
        ensures
            message@ == match *self {
                DayError::NoPreviousDay => "calendar date has no representable previous day"@,
                DayError::NoFollowingDay => "calendar date has no representable following day"@,
            },
    {
        match self {
            DayError::NoPreviousDay => "calendar date has no representable previous day",
            DayError::NoFollowingDay => "calendar date has no representable following day",
        }
    }
}

/// The date before `date`, or the error when there is none.
pub open spec fn day_before_result(date: NaiveDate) -> Result<NaiveDate, DayError> {
    match date_before(date) {
        Some(previous) => Ok(previous),
        None => Err(DayError::NoPreviousDay),
    }
}

/// The date after `date`, or the error when there is none.
pub open spec fn day_after_result(date: NaiveDate) -> Result<NaiveDate, DayError> {
    match date_after(date) {
        Some(next) => Ok(next),
        None => Err(DayError::NoFollowingDay),
    }
}

/// The date before `date`, or the error when there is none.
pub fn day_before(date: &NaiveDate) -> (day: Result<NaiveDate, DayError>)
    ensures
        day == day_before_result(*date),
        day matches Ok(previous) ==> previous != *date,
        day matches Err(error) ==> error == DayError::NoPreviousDay,
{
    match previous_day(date) {
        Some(previous) => Ok(previous),
        None => Err(DayError::NoPreviousDay),
    }
}

/// The date after `date`, or the error when there is none.
pub fn day_after(date: &NaiveDate) -> (day: Result<NaiveDate, DayError>)
    ensures
        day == day_after_result(*date),
        day matches Ok(next) ==> next != *date,
        day matches Err(error) ==> error == DayError::NoFollowingDay,
{
    match following_day(date) {
        Some(next) => Ok(next),
        None => Err(DayError::NoFollowingDay),
    }
}

} // verus!
