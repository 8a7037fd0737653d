//! Named periods (`today`, `week`, ...) as date ranges with a heading.
use vstd::prelude::*;

use crate::calendar::{
    add_days, chrono_add_days, chrono_day_number, day_number, first_date, lemma_after_first_year, lemma_day_exists, lemma_day_number_lt, min_year, valid_ymd, chrono_iso_week, chrono_weekday, date_text, iso_week,
    month_abbrev, month_abbrev_text, month_name, month_name_text, push_date, two, two_chars,
    weekday, weekday_abbrev, weekday_abbrev_text, year_chars, year_text, Date,
};
use crate::text::{append_chars, append_str, chars_eq, chars_of, dec, dec_chars, int_chars, int_str, string_of};

verus! {

/// A range of dates, both ends included, with a heading for it.
pub struct DateRange {
    pub start: Date,
    pub end: Date,
    pub label: String,
}

/// The date `n` days after `d`, as chrono computes it.
pub open spec fn date_add(d: Date, n: int) -> Option<Date> {
    match chrono_add_days(d.year as int, d.month as int, d.day as int, n) {
        Some(t) => Some(Date { year: t.0 as i32, month: t.1 as u32, day: t.2 as u32 }),
        None => None,
    }
}

/// The day of the week of `d`, Monday = 0.
pub open spec fn weekday_of(d: Date) -> int {
    chrono_weekday(d.year as int, d.month as int, d.day as int)
}

/// The ISO week number of `d`.
pub open spec fn iso_week_number(d: Date) -> int {
    chrono_iso_week(d.year as int, d.month as int, d.day as int).1
}

/// The Monday on or before `d`.
pub open spec fn monday_of(d: Date) -> Option<Date> {
    date_add(d, -weekday_of(d))
}

/// `<prefix> (YYYY-MM-DD, Www)`.
pub open spec fn day_label(prefix: Seq<char>, d: Date) -> Seq<char> {
    prefix + " ("@ + date_text(d) + ", "@ + weekday_abbrev_text(weekday_of(d)) + ")"@
}

/// `Mmm DD`.
pub open spec fn month_day(d: Date) -> Seq<char> {
    month_abbrev_text(d.month as int) + " "@ + two(d.day as int)
}

/// `Week N (Mmm DD to Mmm DD)`.
pub open spec fn week_label(week: int, a: Date, b: Date) -> Seq<char> {
    "Week "@ + dec(week as nat) + " ("@ + month_day(a) + " to "@ + month_day(b) + ")"@
}

/// What each period resolves to: start, end and heading; `None` for a
/// period name that is not known or a date chrono cannot represent.
pub open spec fn resolve_spec(period: Seq<char>, today: Date) -> Option<(Date, Date, Seq<char>)> {
    if period == "today"@ {
        Some((today, today, day_label("Today"@, today)))
    } else if period == "yesterday"@ {
        match date_add(today, -1) {
            Some(y) => Some((y, y, day_label("Yesterday"@, y))),
            None => None,
        }
    } else if period == "week"@ {
        match monday_of(today) {
            Some(m) => Some((m, today, week_label(iso_week_number(today), m, today))),
            None => None,
        }
    } else if period == "last-week"@ {
        match monday_of(today) {
            Some(m) => match date_add(m, -7) {
                Some(m0) => match date_add(m0, 6) {
                    Some(s) => Some((m0, s, week_label(iso_week_number(m0), m0, s))),
                    None => None,
                },
                None => None,
            },
            None => None,
        }
    } else if period == "month"@ {
        Some(
            (
                Date { day: 1, ..today },
                today,
                month_name_text(today.month as int) + " "@ + year_text(today.year as int),
            ),
        )
    } else if period == "year"@ {
        Some((Date { month: 1, day: 1, ..today }, today, int_str(today.year as int)))
    } else {
        None
    }
}

/// What a date `n` days later is: a valid date whose day count is `n` more.
proof fn lemma_date_add(d: Date, n: int)
    ensures
        date_add(d, n) matches Some(x) ==> x.wf() && day_number(x) == day_number(d) + n,
{
    let target = chrono_day_number(d.year as int, d.month as int, d.day as int) + n;
    if exists|t: (int, int, int)| valid_ymd(t.0, t.1, t.2) && chrono_day_number(t.0, t.1, t.2) == target {
        let t = choose|t: (int, int, int)|
            valid_ymd(t.0, t.1, t.2) && chrono_day_number(t.0, t.1, t.2) == target;
        let x = Date { year: t.0 as i32, month: t.1 as u32, day: t.2 as u32 };
        assert(x.year as int == t.0 && x.month as int == t.1 && x.day as int == t.2);
        assert(date_add(d, n) == Some(x));
    }
}

/// The day of the week is 0 (Monday) to 6.
proof fn lemma_weekday_range(d: Date)
    ensures
        0 <= weekday_of(d) < 7,
{
    reveal(crate::calendar::chrono_weekday);
}

/// Every period that resolves runs forward and ends no later than today:
/// its start is not after its end, and its end is not after `today`.
/// `today` is that one day; `yesterday` the day before; `week` runs from
/// the Monday of this week, at most six days back; `last-week` runs from
/// the Monday seven days before that to the Sunday six days after it;
/// `month` and `year` begin on the first of the month and on January 1.
pub proof fn law_resolve_order(period: Seq<char>, today: Date)
    requires
        today.wf(),
    ensures
        resolve_spec(period, today) matches Some((s, e, l)) ==> {
            &&& s.wf() && e.wf()
            &&& day_number(s) <= day_number(e) <= day_number(today)
            &&& !e.lt(s) && !today.lt(e)
            &&& period == "today"@ ==> s == today && e == today
            &&& period == "yesterday"@ ==> s == e && day_number(s) == day_number(today) - 1
            &&& period == "week"@ ==> e == today && weekday_of(s) == 0 && day_number(today) - 6
                <= day_number(s) && day_number(s) == day_number(today) - weekday_of(today)
            &&& period == "last-week"@ ==> weekday_of(s) == 0 && day_number(s) == day_number(today)
                - weekday_of(today) - 7 && day_number(e) == day_number(s) + 6
            &&& period == "month"@ ==> e == today && s == Date { day: 1, ..today }
            &&& period == "year"@ ==> e == today && s == Date { month: 1, day: 1, ..today }
        },
{
    reveal_strlit("today");
    reveal_strlit("yesterday");
    reveal_strlit("week");
    reveal_strlit("last-week");
    reveal_strlit("month");
    reveal_strlit("year");
    assert("today"@.len() == 5 && "today"@[0] == 't');
    assert("yesterday"@.len() == 9 && "yesterday"@[0] == 'y');
    assert("week"@.len() == 4 && "week"@[0] == 'w');
    assert("last-week"@.len() == 9 && "last-week"@[0] == 'l');
    assert("month"@.len() == 5 && "month"@[0] == 'm');
    assert("year"@.len() == 4 && "year"@[0] == 'y');
    if let Some((s, e, l)) = resolve_spec(period, today) {
        lemma_weekday_range(today);
        if period == "today"@ {
        } else if period == "yesterday"@ {
            lemma_date_add(today, -1);
        } else if period == "week"@ {
            lemma_date_add(today, -weekday_of(today));
            let m = monday_of(today)->0;
            assert(weekday_of(m) == 0) by {
                reveal(crate::calendar::chrono_weekday);
                let k = day_number(today) - 1;
                let q = k / 7;
                assert(weekday_of(today) == k % 7);
                assert(day_number(m) - 1 == k - k % 7);
                assert(k - k % 7 == q * 7);
                vstd::arithmetic::div_mod::lemma_mod_multiples_basic(q, 7);
                assert((day_number(m) - 1) % 7 == 0);
            }
            assert(s == m);
            assert(day_number(today) - 6 <= day_number(s));
        } else if period == "last-week"@ {
            lemma_date_add(today, -weekday_of(today));
            let m = monday_of(today)->0;
            lemma_date_add(m, -7);
            let m0 = date_add(m, -7)->0;
            lemma_date_add(m0, 6);
            assert(weekday_of(m0) == 0) by {
                reveal(crate::calendar::chrono_weekday);
                let k = day_number(today) - 1;
                let q = k / 7;
                assert(weekday_of(today) == k % 7);
                assert(day_number(m0) - 1 == k - k % 7 - 7);
                assert(k - k % 7 - 7 == (q - 1) * 7);
                vstd::arithmetic::div_mod::lemma_mod_multiples_basic(q - 1, 7);
            }
        } else if period == "month"@ {
        } else {
        }
        lemma_day_number_lt(s, e);
        lemma_day_number_lt(e, today);
        lemma_day_number_lt(s, today);
    }
}

/// A date `n` days after `d` exists when its day count lies between
/// chrono's first date and a valid date `e`.
proof fn lemma_date_add_some(d: Date, n: int, e: Date)
    requires
        d.wf(),
        e.wf(),
        day_number(first_date()) <= day_number(d) + n <= day_number(e),
    ensures
        date_add(d, n) is Some,
{
    lemma_day_exists(e, day_number(d) + n);
}

/// Each of the six period names resolves, and nothing else does, for any
/// day after chrono's earliest year.
pub proof fn law_resolve_known(period: Seq<char>, today: Date)
    requires
        today.wf(),
        today.year > min_year(),
    ensures
        resolve_spec(period, today) is Some <==> known_period(period),
{
    lemma_after_first_year(today);
    lemma_weekday_range(today);
    let w = weekday_of(today);
    lemma_date_add_some(today, -1, today);
    lemma_date_add_some(today, -w, today);
    lemma_date_add(today, -w);
    if let Some(m) = monday_of(today) {
        lemma_date_add_some(m, -7, today);
        lemma_date_add(m, -7);
        if let Some(m0) = date_add(m, -7) {
            lemma_date_add_some(m0, 6, today);
        }
    }
}

/// The date `n` days after `d`, or an error when chrono cannot represent it.
fn shift(d: Date, n: i32) -> (r: Result<Date, String>)
    requires
        d.wf(),
    ensures
        r matches Ok(x) ==> date_add(d, n as int) == Some(x) && x.wf(),
        r is Err ==> date_add(d, n as int) is None,
        r matches Err(e) ==> e@ == "date out of range"@,
{
    match add_days(d, n) {
        Some(x) => Ok(x),
        None => Err(crate::text::owned("date out of range")),
    }
}

/// `<prefix> (YYYY-MM-DD, Www)`.
fn day_label_string(prefix: &str, d: Date) -> (r: String)
    requires
        d.wf(),
    ensures
        r@ == day_label(prefix@, d),
{
    let mut v: Vec<char> = Vec::new();
    append_str(&mut v, prefix);
    append_str(&mut v, " (");
    push_date(&mut v, d);
    append_str(&mut v, ", ");
    append_str(&mut v, weekday_abbrev(weekday(d)));
    append_str(&mut v, ")");
    assert(v@ =~= day_label(prefix@, d));
    string_of(&v)
}

/// Appends `Mmm DD`.
fn push_month_day(v: &mut Vec<char>, d: Date)
    requires
        d.wf(),
    ensures
        final(v)@ == old(v)@ + month_day(d),
{
    append_str(v, month_abbrev(d.month));
    append_str(v, " ");
    let dd = two_chars(d.day);
    append_chars(v, &dd);
    assert(final(v)@ =~= old(v)@ + month_day(d));
}

/// `Week N (Mmm DD to Mmm DD)`.
fn week_label_string(week: u32, a: Date, b: Date) -> (r: String)
    requires
        a.wf(),
        b.wf(),
    ensures
        r@ == week_label(week as int, a, b),
{
    let mut v: Vec<char> = Vec::new();
    append_str(&mut v, "Week ");
    let w = dec_chars(week as u64);
    append_chars(&mut v, &w);
    append_str(&mut v, " (");
    push_month_day(&mut v, a);
    append_str(&mut v, " to ");
    push_month_day(&mut v, b);
    append_str(&mut v, ")");
    assert(v@ =~= week_label(week as int, a, b));
    string_of(&v)
}

/// The Monday on or before `d`.
fn week_start(d: Date) -> (r: Result<Date, String>)
    requires
        d.wf(),
    ensures
        r matches Ok(x) ==> monday_of(d) == Some(x) && x.wf(),
        r is Err ==> monday_of(d) is None,
        r matches Err(e) ==> e@ == "date out of range"@,
{
    let w = weekday(d);
    shift(d, -(w as i32))
}

/// The period names `resolve` knows.
pub open spec fn known_period(p: Seq<char>) -> bool {
    p == "today"@ || p == "yesterday"@ || p == "week"@ || p == "last-week"@ || p == "month"@ || p
        == "year"@
}

/// Resolves a period name against `today`: `today`, `yesterday`, `week`
/// (Monday to today), `last-week` (the previous Monday to Sunday), `month`
/// (the first to today), `year` (January 1 to today); anything else is an
/// error.
pub fn resolve(period: &str, today: Date) -> (r: Result<DateRange, String>)
    requires
        today.wf(),
    ensures
        match resolve_spec(period@, today) {
            Some((s, e, l)) => r matches Ok(x) && x.start == s && x.end == e && x.label@ == l,
            None => r matches Err(m) && m@ == (if known_period(period@) {
                "date out of range"@
            } else {
                "unknown period '"@ + period@ + "'. Use: today, yesterday, week, last-week, month, year"@
            }),
        },
{
    let p = chars_of(period);
    if chars_eq(&p, &chars_of("today")) {
        let label = day_label_string("Today", today);
        Ok(DateRange { start: today, end: today, label })
    } else if chars_eq(&p, &chars_of("yesterday")) {
        let d = shift(today, -1)?;
        let label = day_label_string("Yesterday", d);
        Ok(DateRange { start: d, end: d, label })
    } else if chars_eq(&p, &chars_of("week")) {
        let monday = week_start(today)?;
        let (_, w) = iso_week(today);
        let label = week_label_string(w, monday, today);
        Ok(DateRange { start: monday, end: today, label })
    } else if chars_eq(&p, &chars_of("last-week")) {
        let this_monday = week_start(today)?;
        let monday = shift(this_monday, -7)?;
        let sunday = shift(monday, 6)?;
        let (_, w) = iso_week(monday);
        let label = week_label_string(w, monday, sunday);
        Ok(DateRange { start: monday, end: sunday, label })
    } else if chars_eq(&p, &chars_of("month")) {
        let first = Date { year: today.year, month: today.month, day: 1 };
        let mut v: Vec<char> = Vec::new();
        append_str(&mut v, month_name(today.month));
        append_str(&mut v, " ");
        let y = year_chars(today.year);
        append_chars(&mut v, &y);
        Ok(DateRange { start: first, end: today, label: string_of(&v) })
    } else if chars_eq(&p, &chars_of("year")) {
        let first = Date { year: today.year, month: 1, day: 1 };
        let y = int_chars(today.year as i64);
        Ok(DateRange { start: first, end: today, label: string_of(&y) })
    } else {
        let mut v: Vec<char> = Vec::new();
        append_str(&mut v, "unknown period '");
        append_chars(&mut v, &p);
        append_str(&mut v, "'. Use: today, yesterday, week, last-week, month, year");
        Err(string_of(&v))
    }
}

} // verus!
