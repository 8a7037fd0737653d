//! The decisions the tracking commands take before they touch the data files:
//! whether a timer may be closed at a time, how long an injected entry is,
//! where a filled gap starts, and the lines they print.
use vstd::prelude::*;

use crate::calendar::{date_text, day_count, day_number, push_date, push_time, time_text, Date, Time};
use crate::config::{copy_strings, join_path, path_join, preset_keys, resolve_preset_spec, Config};
use crate::parse::{
    energy_and_desc, energy_desc_error, parse_energy_and_desc, parse_start_args, start_args,
    start_args_error,
};
use crate::datafile::{all_digit_chars, is_week_filename, is_week_name, iso_of, week_filepath, week_name};
use crate::format::{duration_str, duration_str_text};
use crate::interval::{line_error, meta_text, minutes_between, msg3, parse_line, push_meta, strs, Interval};
use crate::text::{
    all_digits, append_chars, find, append_str, chars_eq, chars_of, dec, is_digit, dec_chars, parse_i64, parse_i64_chars, split_once,
    split_once_chars, string_of, owned, strip_suffix, strip_suffix_chars, trim, trim_chars,
};

verus! {

// ---------------------------------------------------------------------------
// Closing a running timer
// ---------------------------------------------------------------------------

/// Whole days from `from` to `to`.
pub open spec fn elapsed_days(from: Date, to: Date) -> int {
    day_number(to) - day_number(from)
}

/// A timer started at `start` on `start_date` can be closed at `end` on
/// `end_date`: on the same day at or after the start, or on the next day
/// before the start time. Entries are shorter than a day.
pub open spec fn closes_within_a_day(start_date: Date, start: Time, end_date: Date, end: Time) -> bool {
    let days = elapsed_days(start_date, end_date);
    (days == 0 && end.mins() >= start.mins()) || (days == 1 && end.mins() < start.mins())
}

/// The message for a close time that does not fit.
pub open spec fn close_time_msg(start_date: Date, start: Time, end_date: Date, end: Time) -> Seq<
    char,
> {
    "end time "@ + time_text(end) + " on "@ + date_text(end_date)
        + " cannot close a timer started at "@ + time_text(start) + " on "@ + date_text(start_date)
        + "; intervals must be shorter than 24 hours (use 'teum edit' to correct it)"@
}

/// Checks that the running `interval` can be closed at `end_time` on `end_date`.
pub fn validate_close_time(interval: &Interval, end_date: Date, end_time: Time) -> (r: Result<
    (),
    String,
>)
    requires
        interval.date.wf(),
        interval.start.wf(),
        end_date.wf(),
        end_time.wf(),
    ensures
        r is Ok <==> closes_within_a_day(interval.date, interval.start, end_date, end_time),
        r matches Err(e) ==> e@ == close_time_msg(interval.date, interval.start, end_date, end_time),
{
    let from = day_count(interval.date) as i64;
    let to = day_count(end_date) as i64;
    let days = to - from;
    let representable = if days == 0 {
        end_time.minutes() >= interval.start.minutes()
    } else if days == 1 {
        end_time.minutes() < interval.start.minutes()
    } else {
        false
    };
    if representable {
        Ok(())
    } else {
        let mut v: Vec<char> = Vec::new();
        append_str(&mut v, "end time ");
        push_time(&mut v, end_time);
        append_str(&mut v, " on ");
        push_date(&mut v, end_date);
        append_str(&mut v, " cannot close a timer started at ");
        push_time(&mut v, interval.start);
        append_str(&mut v, " on ");
        push_date(&mut v, interval.date);
        append_str(
            &mut v,
            "; intervals must be shorter than 24 hours (use 'teum edit' to correct it)",
        );
        assert(v@ =~= close_time_msg(interval.date, interval.start, end_date, end_time));
        Err(string_of(&v))
    }
}

/// An energy level given to `stop` must be 1 to 5.
pub fn check_energy(energy: Option<u8>) -> (r: Result<(), String>)
    ensures
        r is Ok <==> (energy matches Some(e) ==> 1 <= e <= 5),
        r matches Err(msg) ==> energy matches Some(e) && msg@ == "energy level "@ + dec(e as nat)
            + " out of range (use 1-5)"@,
{
    match energy {
        Some(e) => {
            if 1 <= e && e <= 5 {
                Ok(())
            } else {
                let d = dec_chars(e as u64);
                Err(msg3("energy level ", &d, " out of range (use 1-5)"))
            }
        },
        None => Ok(()),
    }
}

// ---------------------------------------------------------------------------
// Durations for `inject`
// ---------------------------------------------------------------------------

/// Unicode lowercase of a string, as `str::to_lowercase` computes it.
pub uninterp spec fn unicode_lowercase(s: Seq<char>) -> Seq<char>;

/// A character of the ASCII range.
pub open spec fn is_ascii(c: char) -> bool {
    (c as u32) < 0x80
}

/// The lowercase of an ASCII character: `A` to `Z` become `a` to `z`.
pub open spec fn ascii_lower(c: char) -> char {
    if 'A' <= c && c <= 'Z' {
        ((c as u32) + 32) as char
    } else {
        c
    }
}

/// `str::to_lowercase`.
///
/// The result is named. Of the mapping (the Unicode `Lowercase` property
/// and its special cases) only the ASCII part is stated: a string of ASCII
/// characters keeps its length, `A` to `Z` become `a` to `z`, and every other
/// character stays.
#[verifier::external_body]
fn lowercase(s: &str) -> (r: String)
    ensures
        r@ == unicode_lowercase(s@),
        (forall|i: int| 0 <= i < s@.len() ==> is_ascii(#[trigger] s@[i])) ==> r@ == s@.map_values(
            |c: char| ascii_lower(c),
        ),
{
    s.to_lowercase()
}

/// `invalid duration '<s>'`.
pub open spec fn invalid_duration_msg(s: Seq<char>) -> Seq<char> {
    "invalid duration '"@ + s + "'"@
}

/// Hours and minutes combined, or the error for a total that does not fit or
/// is not positive.
pub open spec fn duration_total(hours: int, minutes: int) -> Result<int, Seq<char>> {
    let t = hours * 60 + minutes;
    if !(i64::MIN <= hours * 60 <= i64::MAX) || !(i64::MIN <= t <= i64::MAX) {
        Err("duration is too large"@)
    } else if t <= 0 {
        Err("duration must be positive"@)
    } else {
        Ok(t)
    }
}

/// A number of a duration: one or more digits, no sign, read as `i64`.
pub open spec fn duration_number(s: Seq<char>) -> Option<i64> {
    if s.len() > 0 && all_digits(s) {
        parse_i64(s)
    } else {
        None
    }
}

/// The minutes written by `s` (already trimmed and lowercased): `<N>m`,
/// `<H>h` or `<H>h<M>m`, where each number is digits only and fits `i64`.
pub open spec fn duration_minutes_spec(s: Seq<char>) -> Result<int, Seq<char>> {
    match split_once(s, seq!['h']) {
        Some((h, rest)) => match duration_number(h) {
            None => Err(invalid_duration_msg(s)),
            Some(hours) => if rest.len() == 0 {
                duration_total(hours as int, 0)
            } else {
                match strip_suffix(rest, seq!['m']) {
                    None => Err(invalid_duration_msg(s) + " — expected format like 1h30m"@),
                    Some(m) => match duration_number(m) {
                        None => Err(invalid_duration_msg(s)),
                        Some(minutes) => duration_total(hours as int, minutes as int),
                    },
                }
            },
        },
        None => match strip_suffix(s, seq!['m']) {
            None => Err(invalid_duration_msg(s) + " — use format like 30m or 1h30m"@),
            Some(m) => match duration_number(m) {
                None => Err(invalid_duration_msg(s)),
                Some(minutes) => duration_total(0, minutes as int),
            },
        },
    }
}

/// A number of a duration, digits only.
fn duration_number_exec(s: &[char]) -> (r: Option<i64>)
    ensures
        r == duration_number(s@),
{
    if s.len() > 0 && all_digit_chars(s) {
        parse_i64_chars(s)
    } else {
        None
    }
}

/// The result of an executable duration parse, related to its specification.
pub open spec fn duration_result_is(r: Result<i64, String>, spec: Result<int, Seq<char>>) -> bool {
    match r {
        Ok(v) => spec == Ok::<int, Seq<char>>(v as int),
        Err(e) => spec == Err::<int, Seq<char>>(e@),
    }
}

fn duration_total_exec(hours: i64, minutes: i64) -> (r: Result<i64, String>)
    ensures
        duration_result_is(r, duration_total(hours as int, minutes as int)),
{
    match hours.checked_mul(60) {
        None => Err(owned("duration is too large")),
        Some(h) => match h.checked_add(minutes) {
            None => Err(owned("duration is too large")),
            Some(t) => {
                if t <= 0 {
                    Err(owned("duration must be positive"))
                } else {
                    Ok(t)
                }
            },
        },
    }
}

/// The minutes a duration written in lowercase stands for, or the error that
/// says why it is not one.
pub fn duration_minutes(s: &str) -> (r: Result<i64, String>)
    ensures
        duration_result_is(r, duration_minutes_spec(s@)),
{
    let c = chars_of(s);
    let h_pat = ['h'];
    let m_pat = ['m'];
    assert(h_pat@ =~= seq!['h']);
    assert(m_pat@ =~= seq!['m']);
    match split_once_chars(&c, &h_pat) {
        Some((h, rest)) => match duration_number_exec(&h) {
            None => Err(msg3("invalid duration '", &c, "'")),
            Some(hours) => {
                if rest.len() == 0 {
                    duration_total_exec(hours, 0)
                } else {
                    match strip_suffix_chars(&rest, &m_pat) {
                        None => {
                            let mut v: Vec<char> = Vec::new();
                            append_str(&mut v, "invalid duration '");
                            append_chars(&mut v, &c);
                            append_str(&mut v, "' — expected format like 1h30m");
                            assert(v@ =~= invalid_duration_msg(s@)
                                + " — expected format like 1h30m"@) by {
                                assert("' — expected format like 1h30m"@ =~= "'"@
                                    + " — expected format like 1h30m"@) by {
                                    reveal_strlit("' — expected format like 1h30m");
                                    reveal_strlit("'");
                                    reveal_strlit(" — expected format like 1h30m");
                                }
                            }
                            Err(string_of(&v))
                        },
                        Some(m) => match duration_number_exec(&m) {
                            None => Err(msg3("invalid duration '", &c, "'")),
                            Some(minutes) => duration_total_exec(hours, minutes),
                        },
                    }
                }
            },
        },
        None => match strip_suffix_chars(&c, &m_pat) {
            None => {
                let mut v: Vec<char> = Vec::new();
                append_str(&mut v, "invalid duration '");
                append_chars(&mut v, &c);
                append_str(&mut v, "' — use format like 30m or 1h30m");
                assert(v@ =~= invalid_duration_msg(s@) + " — use format like 30m or 1h30m"@) by {
                    assert("' — use format like 30m or 1h30m"@ =~= "'"@
                        + " — use format like 30m or 1h30m"@) by {
                        reveal_strlit("' — use format like 30m or 1h30m");
                        reveal_strlit("'");
                        reveal_strlit(" — use format like 30m or 1h30m");
                    }
                }
                Err(string_of(&v))
            },
            Some(m) => match duration_number_exec(&m) {
                None => Err(msg3("invalid duration '", &c, "'")),
                Some(minutes) => duration_total_exec(0, minutes),
            },
        },
    }
}

/// The minutes of a duration argument such as `30m`, `1h` or `1h30m`: trimmed
/// and lowercased, then read by [`duration_minutes`].
pub fn parse_duration(s: &str) -> (r: Result<i64, String>)
    ensures
        duration_result_is(r, duration_minutes_spec(unicode_lowercase(trim(s@)))),
        (forall|i: int| 0 <= i < trim(s@).len() ==> is_ascii(#[trigger] trim(s@)[i]))
            ==> duration_result_is(
            r,
            duration_minutes_spec(trim(s@).map_values(|c: char| ascii_lower(c))),
        ),
        r matches Ok(v) ==> v > 0 && duration_form(unicode_lowercase(trim(s@))),
{
    proof {
        law_duration_form(unicode_lowercase(trim(s@)));
    }
    let c = chars_of(s);
    let t = trim_chars(&c);
    let ts = string_of(&t);
    let lower = lowercase(ts.as_str());
    duration_minutes(lower.as_str())
}

/// The forms a duration is written in: `<N>m`, `<H>h` or `<H>h<M>m`, each
/// number one or more digits, with no sign.
pub open spec fn duration_form(s: Seq<char>) -> bool {
    ||| s.len() >= 2 && s.last() == 'm' && all_digits(s.drop_last())
    ||| s.len() >= 2 && s.last() == 'h' && all_digits(s.drop_last())
    ||| exists|k: int|
        1 <= k && k + 2 < s.len() && #[trigger] s[k] == 'h' && s.last() == 'm' && all_digits(s.subrange(0, k))
            && all_digits(s.subrange(k + 1, s.len() - 1))
}

/// A duration that is accepted is written in one of the documented forms,
/// digits only, and stands for a positive number of minutes.
pub proof fn law_duration_form(s: Seq<char>)
    ensures
        duration_minutes_spec(s) matches Ok(v) ==> duration_form(s) && v > 0,
{
    if let Ok(v) = duration_minutes_spec(s) {
        let hp = seq!['h'];
        let mp = seq!['m'];
        match split_once(s, hp) {
            Some((h, rest)) => {
                crate::text::lemma_find_from_bounds(s, hp, 0);
                let i = find(s, hp)->0;
                assert(s.subrange(i, i + 1) == hp);
                assert(s[i] == 'h') by {
                    assert(s.subrange(i, i + 1)[0] == s[i]);
                }
                assert(h == s.subrange(0, i));
                if rest.len() == 0 {
                    assert(s.len() == i + 1);
                    assert(s.drop_last() =~= h);
                } else {
                    let m = strip_suffix(rest, mp)->0;
                    assert(rest.subrange(rest.len() - 1, rest.len() as int) == mp);
                    assert(rest[rest.len() - 1] == 'm') by {
                        assert(rest.subrange(rest.len() - 1, rest.len() as int)[0] == rest[rest.len() - 1]);
                    }
                    assert(s.last() == 'm') by {
                        assert(rest[rest.len() - 1] == s[s.len() - 1]);
                    }
                    assert(s.subrange(i + 1, s.len() - 1) =~= m);
                    assert(1 <= i && i + 2 < s.len() && s[i] == 'h' && s.last() == 'm' && all_digits(
                        s.subrange(0, i),
                    ) && all_digits(s.subrange(i + 1, s.len() - 1)));
                }
            },
            None => {
                let m = strip_suffix(s, mp)->0;
                assert(s.subrange(s.len() - 1, s.len() as int) == mp);
                assert(s.last() == 'm') by {
                    assert(s.subrange(s.len() - 1, s.len() as int)[0] == s[s.len() - 1]);
                }
                assert(s.drop_last() =~= m);
            },
        }
    }
}

/// The message when an injected entry would start before midnight.
pub open spec fn cross_midnight_msg() -> Seq<char> {
    "injection would cross midnight — use 'teum add' instead"@
}

/// The start of an entry of `minutes` minutes that ends at `now`, on the same day.
pub fn inject_start(now: Time, minutes: i64) -> (r: Result<Time, String>)
    requires
        now.wf(),
        minutes > 0,
    ensures
        r is Ok <==> minutes <= now.mins(),
        r matches Ok(t) ==> t.wf() && t.mins() == now.mins() - minutes,
        r matches Err(e) ==> e@ == cross_midnight_msg(),
{
    let start = now.minutes() - minutes;
    if start < 0 {
        Err(owned("injection would cross midnight — use 'teum add' instead"))
    } else {
        Ok(Time::from_minutes(start))
    }
}

/// What `inject` does to the entry before the injected one.
#[derive(Debug, Clone, Copy, PartialEq, Eq, Structural)]
pub enum Trim {
    /// Close the running timer at the injected start.
    CloseRunning,
    /// Move the end of the last closed entry back to the injected start.
    TrimPrevious,
    /// Leave the previous entries alone.
    Nothing,
}

/// What happens to the entry before an injected one that starts at `start`
/// on `date`: a running timer is closed there (if it can be), otherwise the
/// last closed entry is trimmed when its end time is after `start`.
pub fn inject_trim(open: Option<&Interval>, last: Option<&Interval>, date: Date, start: Time) -> (r:
    Result<Trim, String>)
    requires
        date.wf(),
        start.wf(),
        open matches Some(o) ==> o.date.wf() && o.start.wf(),
        last matches Some(l) ==> (l.end matches Some(e) ==> e.wf()),
    ensures
        match open {
            Some(o) => if closes_within_a_day(o.date, o.start, date, start) {
                r == Ok::<Trim, String>(Trim::CloseRunning)
            } else {
                r matches Err(e) && e@ == close_time_msg(o.date, o.start, date, start)
            },
            None => match last {
                Some(l) => if l.end matches Some(e) && e.mins() > start.mins() {
                    r == Ok::<Trim, String>(Trim::TrimPrevious)
                } else {
                    r == Ok::<Trim, String>(Trim::Nothing)
                },
                None => r == Ok::<Trim, String>(Trim::Nothing),
            },
        },
{
    match open {
        Some(o) => {
            match validate_close_time(o, date, start) {
                Ok(()) => Ok(Trim::CloseRunning),
                Err(e) => Err(e),
            }
        },
        None => match last {
            Some(l) => match l.end {
                Some(e) => {
                    if e.minutes() > start.minutes() {
                        Ok(Trim::TrimPrevious)
                    } else {
                        Ok(Trim::Nothing)
                    }
                },
                None => Ok(Trim::Nothing),
            },
            None => Ok(Trim::Nothing),
        },
    }
}

// ---------------------------------------------------------------------------
// Filling the gap since the last entry
// ---------------------------------------------------------------------------

/// The start of a `fill` entry, or why there is no gap to fill.
pub open spec fn fill_start_spec(running: bool, last: Option<(Date, Option<Time>)>, today: Date, now: Time, cont: bool) -> Result<Time, Seq<char>> {
    if running {
        Err("a timer is running — there is no gap to fill (use 'teum stop' first)"@)
    } else {
        match last {
            None => Err("no previous interval — use 'teum add' instead"@),
            Some((d, end)) => if d != today {
                Err("last interval ended on "@ + date_text(d)
                    + " — filling across days is not supported, use 'teum add'"@)
            } else {
                match end {
                    None => Err("internal error: last closed interval has no end"@),
                    Some(e) => if e.mins() > now.mins() {
                        Err("last interval ends at "@ + time_text(e) + ", which is in the future"@)
                    } else if !cont && e.mins() == now.mins() {
                        Err("last interval ended just now — nothing to fill"@)
                    } else {
                        Ok(e)
                    },
                }
            },
        }
    }
}

/// Where a `fill` entry starts: at the end of the last closed entry of today,
/// which must not be after `now` (nor at `now` unless the entry stays running).
pub fn fill_start(running: bool, last: Option<&Interval>, today: Date, now: Time, cont: bool) -> (r:
    Result<Time, String>)
    requires
        now.wf(),
        last matches Some(l) ==> (l.end matches Some(e) ==> e.wf()),
    ensures
        match fill_start_spec(
            running,
            match last {
                Some(l) => Some((l.date, l.end)),
                None => None,
            },
            today,
            now,
            cont,
        ) {
            Ok(t) => r == Ok::<Time, String>(t),
            Err(m) => r matches Err(e) && e@ == m,
        },
{
    if running {
        return Err(owned("a timer is running — there is no gap to fill (use 'teum stop' first)"));
    }
    match last {
        None => Err(owned("no previous interval — use 'teum add' instead")),
        Some(l) => {
            if l.date != today {
                let mut v: Vec<char> = Vec::new();
                append_str(&mut v, "last interval ended on ");
                push_date(&mut v, l.date);
                append_str(&mut v, " — filling across days is not supported, use 'teum add'");
                return Err(string_of(&v));
            }
            match l.end {
                None => Err(owned("internal error: last closed interval has no end")),
                Some(e) => {
                    if e.minutes() > now.minutes() {
                        let mut v: Vec<char> = Vec::new();
                        append_str(&mut v, "last interval ends at ");
                        push_time(&mut v, e);
                        append_str(&mut v, ", which is in the future");
                        Err(string_of(&v))
                    } else if !cont && e.minutes() == now.minutes() {
                        Err(owned("last interval ended just now — nothing to fill"))
                    } else {
                        Ok(e)
                    }
                },
            }
        },
    }
}

// ---------------------------------------------------------------------------
// Which file `edit` opens
// ---------------------------------------------------------------------------

/// A week `edit` accepts: one whose file name `<target>.txt` is a week file
/// name that the scans of the data directory read.
pub open spec fn is_edit_week(t: Seq<char>) -> bool {
    is_week_name(t + ".txt"@)
}

/// The file `edit` opens for `target`: the current week's file for
/// `current`, otherwise the file of the week `target` names.
pub fn edit_path(data_dir: &str, target: &str, today: Date) -> (r: Result<String, String>)
    requires
        today.wf(),
    ensures
        target@ == "current"@ ==> (r matches Ok(p) && p@ == path_join(
            data_dir@,
            week_name(iso_of(today).0, iso_of(today).1),
        )),
        target@ != "current"@ ==> (r is Ok <==> is_edit_week(target@)),
        target@ != "current"@ && is_edit_week(target@) ==> (r matches Ok(p) && p@ == path_join(
            data_dir@,
            target@ + ".txt"@,
        )),
        r matches Err(e) ==> e@ == "invalid target '"@ + target@
            + "' — expected 'current' or YYYY-wWW (e.g., 2030-w02)"@,
{
    let t = chars_of(target);
    let cur = chars_of("current");
    if chars_eq(&t, &cur) {
        return Ok(week_filepath(data_dir, today));
    }
    let mut name: Vec<char> = Vec::new();
    append_chars(&mut name, &t);
    append_str(&mut name, ".txt");
    let ns = string_of(&name);
    let valid = is_week_filename(ns.as_str());
    if !valid {
        return Err(msg3("invalid target '", &t, "' — expected 'current' or YYYY-wWW (e.g., 2030-w02)"));
    }
    let d = chars_of(data_dir);
    Ok(string_of(&join_path(&d, ns.as_str())))
}

// ---------------------------------------------------------------------------
// What a new entry is about
// ---------------------------------------------------------------------------

/// Project, tags, energy level and description of a new entry: from the
/// preset `preset` selects and the energy and description in `args`, or,
/// without a preset, from `@project #tag !N description` in `args`.
pub fn entry_fields(config: &Config, preset: Option<&str>, args: &[String]) -> (r: Result<
    (String, Vec<String>, Option<u8>, String),
    String,
>)
    ensures
        match preset {
            Some(name) => match resolve_preset_spec(preset_keys(config.presets@), name@) {
                Err(m) => r matches Err(e) && e@ == m,
                Ok(i) => match energy_and_desc(strs(args@)) {
                    None => r matches Err(e) && e@ == energy_desc_error(strs(args@)),
                    Some((en, d)) => r matches Ok((p, t, e, dd)) && p@ == config.presets@[i].1.project@
                        && strs(t@) == strs(config.presets@[i].1.tags@) && e == en && dd@ == d,
                },
            },
            None => match start_args(strs(args@)) {
                None => r matches Err(e) && e@ == start_args_error(strs(args@)),
                Some((p0, t0, e0, d0)) => r matches Ok((p, t, e, d)) && p@ == p0 && strs(t@) == t0 && e
                    == e0 && d@ == d0,
            },
        },
{
    match preset {
        Some(name) => {
            let p = match config.resolve_preset(name) {
                Ok(p) => p,
                Err(e) => return Err(e),
            };
            let (energy, desc) = match parse_energy_and_desc(args) {
                Ok(x) => x,
                Err(e) => return Err(e),
            };
            Ok((p.project.clone(), copy_strings(&p.tags), energy, desc))
        },
        None => parse_start_args(args),
    }
}

/// The entry a line given to `add` stands for: a complete entry, with an end.
pub fn add_line(line: &str) -> (r: Result<Interval, String>)
    ensures
        match parse_line(line@) {
            None => r matches Err(e) && e@ == line_error(line@),
            Some(iv) => if iv.end is None {
                r matches Err(e) && e@ == "cannot add an open interval (no end time)"@
            } else {
                r matches Ok(x) && x@ == iv && x@.wf()
            },
        },
{
    let iv = match Interval::parse(line) {
        Ok(iv) => iv,
        Err(e) => return Err(e),
    };
    if iv.is_open() {
        return Err(owned("cannot add an open interval (no end time)"));
    }
    Ok(iv)
}

} // verus!
