//! The runtime state mirrored for other tools: whether a timer runs, on what,
//! and since when, to the second.
//!
//! The data files keep minutes; the mirror may keep the second a timer was
//! started at, as long as that second lies within the logged minute.
use vstd::prelude::*;

use chrono::{Datelike, Timelike};

use crate::calendar::{day_count, day_number, stamp_string, stamp_text, Date, DateTime};
use crate::config::copy_strings;
use crate::interval::{strs, Interval};
use crate::text::{chars_eq, chars_of};

verus! {

/// The mirrored state of the timer.
#[derive(Debug, PartialEq)]
pub struct State {
    /// Whether a timer is running.
    pub tracking: bool,
    pub project: Option<String>,
    pub tags: Vec<String>,
    pub description: Option<String>,
    /// The start, `YYYY-MM-DDTHH:MM:SS` in local time.
    pub start: Option<String>,
    /// Seconds since the start; only given for live queries.
    pub elapsed_seconds: Option<i64>,
}

/// The contents of an optional string.
pub open spec fn opt_view(o: Option<String>) -> Option<Seq<char>> {
    match o {
        Some(s) => Some(s@),
        None => None,
    }
}

/// The second a date and time stands for, counted across days.
pub open spec fn abs_seconds(dt: DateTime) -> int {
    day_number(dt.date) * 86400 + dt.second
}

fn abs_seconds_exec(dt: DateTime) -> (r: i64)
    requires
        dt.wf(),
    ensures
        r == abs_seconds(dt),
        -200_000_000_000_000 <= r <= 200_000_000_000_000,
{
    (day_count(dt.date) as i64) * 86400 + (dt.second as i64)
}

impl State {
    /// No timer is running.
    pub fn idle() -> (r: State)
        ensures
            !r.tracking,
            r.project is None,
            r.tags@.len() == 0,
            r.description is None,
            r.start is None,
            r.elapsed_seconds is None,
    {
        State {
            tracking: false,
            project: None,
            tags: Vec::new(),
            description: None,
            start: None,
            elapsed_seconds: None,
        }
    }

    /// The running entry `iv`, started at `start_dt` (which may carry
    /// seconds the data file does not).
    pub fn running(iv: &Interval, start_dt: DateTime) -> (r: State)
        ensures
            r.tracking,
            opt_view(r.project) == Some(iv.project@),
            strs(r.tags@) == strs(iv.tags@),
            opt_view(r.description) == (if iv.description@.len() == 0 {
                None
            } else {
                Some(iv.description@)
            }),
            opt_view(r.start) == Some(stamp_text(start_dt)),
            r.elapsed_seconds is None,
    {
        State {
            tracking: true,
            project: Some(iv.project.clone()),
            tags: copy_strings(&iv.tags),
            description: if iv.description.as_str().is_empty() {
                None
            } else {
                Some(iv.description.clone())
            },
            start: Some(stamp_string(start_dt)),
            elapsed_seconds: None,
        }
    }

    /// The same state with the seconds from `start_dt` to `now`, counted
    /// across days and never negative.
    pub fn with_elapsed(self, start_dt: DateTime, now: DateTime) -> (r: State)
        requires
            start_dt.wf(),
            now.wf(),
        ensures
            r.tracking == self.tracking,
            r.project == self.project,
            r.tags == self.tags,
            r.description == self.description,
            r.start == self.start,
            r.elapsed_seconds == Some(
                (if abs_seconds(now) >= abs_seconds(start_dt) {
                    abs_seconds(now) - abs_seconds(start_dt)
                } else {
                    0
                }) as i64,
            ),
    {
        let mut s = self;
        let d = abs_seconds_exec(now) - abs_seconds_exec(start_dt);
        s.elapsed_seconds = Some(
            if d > 0 {
                d
            } else {
                0
            },
        );
        s
    }
}

/// The start that refining `floor` with `candidate` gives.
pub open spec fn refined(floor: DateTime, candidate: Option<DateTime>) -> DateTime {
    match candidate {
        Some(c) => if abs_seconds(floor) <= abs_seconds(c) < abs_seconds(floor) + 60 {
            c
        } else {
            floor
        },
        None => floor,
    }
}

/// A start with seconds is taken only if it lies within the logged minute
/// that begins at `floor`; anything else belongs to another entry, and the
/// logged minute stands.
pub fn refine(floor: DateTime, candidate: Option<DateTime>) -> (r: DateTime)
    requires
        floor.wf(),
        candidate matches Some(c) ==> c.wf(),
    ensures
        r == refined(floor, candidate),
        abs_seconds(floor) <= abs_seconds(r) < abs_seconds(floor) + 60,
{
    match candidate {
        Some(c) => {
            let f = abs_seconds_exec(floor);
            let x = abs_seconds_exec(c);
            if f <= x && x < f + 60 {
                c
            } else {
                floor
            }
        },
        None => floor,
    }
}

// ---------------------------------------------------------------------------
// Reading the mirror back
// ---------------------------------------------------------------------------

/// What `serde_json::from_str` makes of a text, seen through the fields the
/// mirror is read by: `None` when the text is not JSON; otherwise `tracking`
/// as a boolean and `project` and `start` as strings, each `None` when absent
/// or of another type.
pub uninterp spec fn json_fields(text: Seq<char>) -> Option<
    (Option<bool>, Option<Seq<char>>, Option<Seq<char>>),
>;

/// The fields of a mirror as read from its text.
pub struct MirrorFields {
    pub tracking: Option<bool>,
    pub project: Option<String>,
    pub start: Option<String>,
}

/// Parses `text` with `serde_json::from_str` into a `serde_json::Value` and
/// reads its `tracking`, `project` and `start` fields with `Value::get`,
/// `Value::as_bool` and `Value::as_str`.
///
/// The contract names the result; nothing about JSON syntax is stated.
#[verifier::external_body]
fn read_mirror(text: &str) -> (r: Option<MirrorFields>)
    ensures
        match r {
            Some(f) => json_fields(text@) == Some((f.tracking, opt_view(f.project), opt_view(f.start))),
            None => json_fields(text@) is None,
        },
{
    let value: serde_json::Value = serde_json::from_str(text).ok()?;
    Some(
        MirrorFields {
            tracking: value.get("tracking").and_then(|v| v.as_bool()),
            project: value.get("project").and_then(|v| v.as_str()).map(|s| s.to_string()),
            start: value.get("start").and_then(|v| v.as_str()).map(|s| s.to_string()),
        },
    )
}

/// What chrono's `NaiveDateTime::parse_from_str` with `%Y-%m-%dT%H:%M:%S`
/// makes of a text: year, month, day and second of the day.
pub uninterp spec fn chrono_parse_stamp(s: Seq<char>) -> Option<(int, int, int, int)>;

/// The date and time of a stamp.
pub open spec fn stamp_parts(dt: DateTime) -> (int, int, int, int) {
    (dt.date.year as int, dt.date.month as int, dt.date.day as int, dt.second as int)
}

/// `NaiveDateTime::parse_from_str(s, "%Y-%m-%dT%H:%M:%S")`.
///
/// The contract names the result and states that a parsed value is a valid
/// date and time, as chrono's types guarantee.
#[verifier::external_body]
fn parse_stamp(s: &str) -> (r: Option<DateTime>)
    ensures
        match r {
            Some(dt) => chrono_parse_stamp(s@) == Some(stamp_parts(dt)) && dt.wf(),
            None => chrono_parse_stamp(s@) is None,
        },
{
    chrono::NaiveDateTime::parse_from_str(s, "%Y-%m-%dT%H:%M:%S").ok().map(
        |dt| DateTime {
            date: Date { year: dt.year(), month: dt.month(), day: dt.day() },
            second: dt.num_seconds_from_midnight(),
        },
    )
}

/// The start a mirror text records for a running timer on `project`.
pub open spec fn carried_spec(text: Seq<char>, project: Seq<char>) -> Option<(int, int, int, int)> {
    match json_fields(text) {
        None => None,
        Some((tracking, p, start)) => if tracking != Some(true) {
            None
        } else if p != Some(project) {
            None
        } else {
            match start {
                None => None,
                Some(s) => chrono_parse_stamp(s),
            }
        },
    }
}

/// The start recorded in a mirror text, if the mirror says a timer on
/// `project` is running. A text that is not JSON, or misses a field, gives
/// nothing.
pub fn carried_start(text: &str, project: &str) -> (r: Option<DateTime>)
    ensures
        match r {
            Some(dt) => carried_spec(text@, project@) == Some(stamp_parts(dt)) && dt.wf()
                && from_parts(stamp_parts(dt)) == dt,
            None => carried_spec(text@, project@) is None,
        },
{
    let fields = match read_mirror(text) {
        Some(f) => f,
        None => return None,
    };
    match fields.tracking {
        Some(true) => {},
        _ => return None,
    }
    match &fields.project {
        Some(p) => {
            if !chars_eq(&chars_of(p.as_str()), &chars_of(project)) {
                return None;
            }
        },
        None => return None,
    }
    match &fields.start {
        Some(s) => parse_stamp(s.as_str()),
        None => None,
    }
}

/// The date and time that a year, month, day and second of the day name.
pub open spec fn from_parts(t: (int, int, int, int)) -> DateTime {
    DateTime { date: Date { year: t.0 as i32, month: t.1 as u32, day: t.2 as u32 }, second: t.3 as u32 }
}

/// The contents of an optional string slice.
pub open spec fn opt_view_str(o: Option<&str>) -> Option<Seq<char>> {
    match o {
        Some(s) => Some(s@),
        None => None,
    }
}

/// The candidate start with seconds: the one just stamped, else the one the
/// mirror text records for the same project.
pub open spec fn candidate_spec(
    project: Seq<char>,
    stamped: Option<DateTime>,
    state_text: Option<Seq<char>>,
) -> Option<DateTime> {
    match stamped {
        Some(s) => Some(s),
        None => match state_text {
            Some(t) => match carried_spec(t, project) {
                Some(c) => Some(from_parts(c)),
                None => None,
            },
            None => None,
        },
    }
}

/// The start of the logged minute of an entry.
pub open spec fn floor_of(date: Date, start: crate::calendar::Time) -> DateTime {
    DateTime { date, second: (start.mins() * 60) as u32 }
}

/// The instant a running entry began, as [`resolve_start`] finds it.
pub open spec fn start_spec(iv: &Interval, stamped: Option<DateTime>, state_text: Option<&str>) -> DateTime {
    refined(floor_of(iv.date, iv.start), candidate_spec(iv.project@, stamped, opt_view_str(state_text)))
}

/// The instant a running entry began, seconds included: the stamp of the
/// command that just started it, else the start the mirror already records
/// for it (`state_text`), each only if it lies within the logged minute;
/// otherwise the logged minute itself.
pub fn resolve_start(iv: &Interval, stamped: Option<DateTime>, state_text: Option<&str>) -> (r:
    DateTime)
    requires
        iv.date.wf(),
        iv.start.wf(),
        stamped matches Some(s) ==> s.wf(),
    ensures
        r == start_spec(iv, stamped, state_text),
        abs_seconds(floor_of(iv.date, iv.start)) <= abs_seconds(r) < abs_seconds(
            floor_of(iv.date, iv.start),
        ) + 60,
{
    let floor = DateTime::at(iv.date, iv.start);
    let candidate = match stamped {
        Some(s) => Some(s),
        None => match state_text {
            Some(t) => carried_start(t, iv.project.as_str()),
            None => None,
        },
    };
    assert(candidate == candidate_spec(iv.project@, stamped, opt_view_str(state_text)));
    refine(floor, candidate)
}

/// The state to mirror: the running entry, started as [`resolve_start`]
/// finds, or idle when nothing runs.
pub fn mirror_state(running: Option<&Interval>, stamped: Option<DateTime>, state_text: Option<&str>) -> (r:
    State)
    requires
        running matches Some(iv) ==> iv.date.wf() && iv.start.wf(),
        stamped matches Some(s) ==> s.wf(),
    ensures
        r.tracking == (running is Some),
        running is None ==> r.project is None && r.start is None && r.tags@.len() == 0
            && r.description is None,
        running matches Some(iv) ==> opt_view(r.project) == Some(iv.project@) && strs(r.tags@)
            == strs(iv.tags@) && opt_view(r.start) == Some(
            stamp_text(start_spec(iv, stamped, state_text)),
        ) && opt_view(r.description) == (if iv.description@.len() == 0 {
            None
        } else {
            Some(iv.description@)
        }),
        r.elapsed_seconds is None,
{
    match running {
        Some(iv) => {
            let dt = resolve_start(iv, stamped, state_text);
            State::running(iv, dt)
        },
        None => State::idle(),
    }
}

} // verus!
