//! The current time, taken from the system clock. A clock reading cannot
//! be pinned down, but it has a floor: the clock source refuses times
//! before the Unix epoch, so the year is at least 1970 and the timestamp
//! at least zero. Each caller here states what holds of its result for
//! every reading the clock can report.

use vstd::prelude::*;
use chrono::Datelike;
use crate::entry::{Entry, sorted_by_date, wf_schedule};
use crate::parse::{
    dropped_lines, dropped_of, parse_schedule, sort_by_date_spec, valid_entries, DroppedLine,
};
use crate::query::{next_entry, next_index};

verus! {

/// Relies on chrono::Utc::now and chrono::Datelike::year: the current UTC
/// calendar year. `Utc::now` panics on a system time before the Unix
/// epoch, so a returned year is at least 1970.
#[verifier::external_body]
fn current_utc_year() -> (r: i32)
    ensures
        r >= 1970,
{
    chrono::Utc::now().year()
}

/// Relies on chrono::Utc::now and chrono::DateTime::timestamp: the current
/// time as seconds since the Unix epoch. `Utc::now` panics on a system
/// time before the Unix epoch, so the count is never negative.
#[verifier::external_body]
fn now_unix_timestamp() -> (r: i64)
    ensures
        r >= 0,
{
    chrono::Utc::now().timestamp()
}

/// Parses listing lines against the current UTC calendar year, whatever
/// year at or past 1970 the clock reports. In particular, a batch whose
/// lines are valid in every such year parses to entries, never to the
/// no-valid-entries outcome.
pub fn parse_schedule_now(lines: &Vec<String>) -> (r: Option<Vec<Entry>>)
    ensures
        match r {
            Some(es) => {
                &&& sorted_by_date(es.deep_view())
                &&& wf_schedule(es.deep_view())
                &&& exists|y: int|
                    {
                        &&& 1970 <= y
                        &&& #[trigger] valid_entries(lines.deep_view(), y).len() > 0
                        &&& es.deep_view() == sort_by_date_spec(
                            valid_entries(lines.deep_view(), y),
                        )
                    }
            },
            None => exists|y: int|
                1970 <= y && #[trigger] valid_entries(lines.deep_view(), y).len() == 0,
        },
{
    let year: i32 = current_utc_year();
    let r = parse_schedule(lines, year);
    proof {
        let y = year as int;
        match &r {
            Some(es) => {
                assert(valid_entries(lines.deep_view(), y).len() > 0);
            },
            None => {
                assert(valid_entries(lines.deep_view(), y).len() == 0);
            },
        }
    }
    r
}

/// Parses listing lines against the current UTC calendar year and also
/// hands back every dropped line with the reason it failed, for the
/// caller to log. Both parts speak of the same clock reading.
pub fn parse_schedule_now_logged(lines: &Vec<String>) -> (r: (
    Option<Vec<Entry>>,
    Vec<DroppedLine>,
))
    ensures
        match r.0 {
            Some(es) => sorted_by_date(es.deep_view()) && wf_schedule(es.deep_view()),
            None => true,
        },
        exists|y: int|
            {
                &&& 1970 <= y
                &&& #[trigger] r.1.deep_view() == dropped_of(lines.deep_view(), y)
                &&& match r.0 {
                    Some(es) => valid_entries(lines.deep_view(), y).len() > 0
                        && es.deep_view() == sort_by_date_spec(valid_entries(lines.deep_view(), y)),
                    None => valid_entries(lines.deep_view(), y).len() == 0,
                }
            },
{
    let year: i32 = current_utc_year();
    let parsed = parse_schedule(lines, year);
    let dropped = dropped_lines(lines, year);
    proof {
        let y = year as int;
        assert(dropped.deep_view() == dropped_of(lines.deep_view(), y));
    }
    (parsed, dropped)
}

/// First entry of the schedule strictly after the present moment,
/// whatever moment at or past the epoch the clock reports.
pub fn next_entry_now(es: &Vec<Entry>) -> (r: Option<usize>)
    requires
        wf_schedule(es.deep_view()),
    ensures
        match r {
            Some(i) => exists|now: int|
                now >= 0 && #[trigger] next_index(es.deep_view(), now) == Some(i as int),
            None => exists|now: int|
                now >= 0 && #[trigger] next_index(es.deep_view(), now) is None,
        },
{
    let now: i64 = now_unix_timestamp();
    let r = next_entry(es, now);
    proof {
        match r {
            Some(i) => {
                assert(next_index(es.deep_view(), now as int) == Some(i as int));
            },
            None => {
                assert(next_index(es.deep_view(), now as int) is None);
            },
        }
    }
    r
}

} // verus!
