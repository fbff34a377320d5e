//! Service dates: a request's `YYYY-MM-DD` date as a day number, and the day
//! before it, whose over-midnight trips reach into it.

use crate::text::{joined, joined_text, ValueError};
use chrono::{Datelike, NaiveDate};
use vstd::prelude::*;

verus! {

/// Days from the common era's first day to the calendar's first and last
/// dates (years -262143 and 262142).
pub const FIRST_DAY: i32 = -95_746_129;

pub const LAST_DAY: i32 = 95_745_399;

/// A date text read in a calendar format: its day number, or the reader's
/// words.
pub uninterp spec fn read_day(text: Seq<char>, format: Seq<char>) -> Result<i32, Seq<char>>;

/// `chrono::NaiveDate::parse_from_str`, the date as its number of days from
/// the common era. What a format accepts and how a refusal is worded is left
/// to the name; a date that comes back lies inside the calendar.
#[verifier::external_body]
fn parse_from_str(text: &str, format: &str) -> (day: Result<i32, String>)
    ensures
        match day {
            Ok(day) => read_day(text@, format@) == Ok::<i32, Seq<char>>(day) && FIRST_DAY <= day
                <= LAST_DAY,
            Err(reason) => read_day(text@, format@) == Err::<i32, Seq<char>>(reason@),
        },
{
    match NaiveDate::parse_from_str(text, format) {
        Ok(date) => Ok(date.num_days_from_ce()),
        Err(error) => Err(error.to_string()),
    }
}

/// `chrono::NaiveDate::pred_opt` on day numbers: the day before, except that
/// the calendar's first date has none.
#[verifier::external_body]
fn pred_opt(day: i32) -> (previous: Option<i32>)
    requires
        FIRST_DAY <= day <= LAST_DAY,
    ensures
        previous == if day == FIRST_DAY {
            None
        } else {
            Some((day - 1) as i32)
        },
{
    NaiveDate::from_num_days_from_ce_opt(day)?.pred_opt().map(|date| date.num_days_from_ce())
}

pub open spec fn date_format() -> Seq<char> {
    "%Y-%m-%d"@
}

pub open spec fn invalid_date_text(date: Seq<char>, reason: Seq<char>) -> Seq<char> {
    joined_text(seq!["invalid date '"@, date, "': "@, reason])
}

/// What follows from how a service date read: its day number, or an error
/// with the reader's reason.
pub open spec fn service_day_outcome(date: Seq<char>, read: Result<i32, Seq<char>>) -> Result<
    i32,
    Seq<char>,
> {
    match read {
        Ok(day) => Ok(day),
        Err(reason) => Err(invalid_date_text(date, reason)),
    }
}

/// What follows for the day before it: the calendar's first date has none.
pub open spec fn previous_day_outcome(date: Seq<char>, read: Result<i32, Seq<char>>) -> Result<
    i32,
    Seq<char>,
> {
    match service_day_outcome(date, read) {
        Ok(day) => if day == FIRST_DAY {
            Err("date '-262143-01-01' has no previous day"@)
        } else {
            Ok((day - 1) as i32)
        },
        Err(text) => Err(text),
    }
}

pub open spec fn read_view(read: Result<i32, String>) -> Result<i32, Seq<char>> {
    match read {
        Ok(day) => Ok(day),
        Err(reason) => Err(reason@),
    }
}

/// The day number of a date that read as given.
pub fn resolve_service_day(date: &str, read: Result<i32, String>) -> (day: Result<i32, ValueError>)
    ensures
        match service_day_outcome(date@, read_view(read)) {
            Ok(expected) => day == Ok::<i32, ValueError>(expected),
            Err(text) => day matches Err(error) && error.message@ == text,
        },
{
    match read {
        Ok(day) => Ok(day),
        Err(reason) => {
            let pieces: [&str; 4] = ["invalid date '", date, "': ", reason.as_str()];
            let text = joined(&pieces);
            assert(pieces@.map_values(|piece: &str| piece@) =~= seq![
                "invalid date '"@,
                date@,
                "': "@,
                reason@,
            ]);
            Err(ValueError::new(text))
        },
    }
}

/// The day number before a date that read as given.
pub fn resolve_previous_day(date: &str, read: Result<i32, String>) -> (day: Result<
    i32,
    ValueError,
>)
    requires
        read matches Ok(day) ==> FIRST_DAY <= day <= LAST_DAY,
    ensures
        match previous_day_outcome(date@, read_view(read)) {
            Ok(expected) => day == Ok::<i32, ValueError>(expected),
            Err(text) => day matches Err(error) && error.message@ == text,
        },
{
    match resolve_service_day(date, read) {
        Ok(day) => match pred_opt(day) {
            Some(previous) => Ok(previous),
            None => Err(ValueError::new("date '-262143-01-01' has no previous day".to_owned())),
        },
        Err(error) => Err(error),
    }
}

/// The day number of a `YYYY-MM-DD` service date.
pub fn service_day(date: &str) -> (day: Result<i32, ValueError>)
    ensures
        match service_day_outcome(date@, read_day(date@, date_format())) {
            Ok(expected) => day == Ok::<i32, ValueError>(expected),
            Err(text) => day matches Err(error) && error.message@ == text,
        },
{
    resolve_service_day(date, parse_from_str(date, "%Y-%m-%d"))
}

/// The day number of the day before a service date.
pub fn previous_service_day(date: &str) -> (day: Result<i32, ValueError>)
    ensures
        match previous_day_outcome(date@, read_day(date@, date_format())) {
            Ok(expected) => day == Ok::<i32, ValueError>(expected),
            Err(text) => day matches Err(error) && error.message@ == text,
        },
{
    resolve_previous_day(date, parse_from_str(date, "%Y-%m-%d"))
}

/// A service date is the day that was read, and its previous day the one
/// before, which only the calendar's first day lacks; a date that does not
/// read has neither.
pub proof fn law_previous_days_come_before(date: Seq<char>, read: Result<i32, Seq<char>>)
    requires
        read matches Ok(day) ==> FIRST_DAY <= day <= LAST_DAY,
    ensures
        service_day_outcome(date, read) is Ok <==> read is Ok,
        previous_day_outcome(date, read) is Ok <==> (read matches Ok(day) && day > FIRST_DAY),
        service_day_outcome(date, read) matches Ok(day) ==> read == Ok::<i32, Seq<char>>(day),
        previous_day_outcome(date, read) matches Ok(previous) ==> (service_day_outcome(date, read)
            matches Ok(day) && previous + 1 == day),
        read is Err ==> service_day_outcome(date, read) == previous_day_outcome(date, read),
{
}

} // verus!
