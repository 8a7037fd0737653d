use teum::calendar::{Date, Time};
use teum::commands::{
    add_line, check_energy, edit_path, entry_fields, fill_start, inject_start, inject_trim,
    parse_duration, validate_close_time, Trim,
};
use teum::config::{Config, Preset};
use teum::interval::Interval;

fn date(year: i32, month: u32, day: u32) -> Date {
    Date { year, month, day }
}

fn time(hour: u32, minute: u32) -> Time {
    Time { hour, minute }
}

fn open(date: Date, hour: u32) -> Interval {
    Interval {
        date,
        start: time(hour, 0),
        end: None,
        project: "focus".into(),
        tags: vec![],
        energy: None,
        description: String::new(),
    }
}

fn closed(date: Date, start: Time, end: Time) -> Interval {
    Interval { end: Some(end), start, ..open(date, 0) }
}

#[test]
fn parse_minutes() {
    assert_eq!(parse_duration("30m").unwrap(), 30);
    assert_eq!(parse_duration("90m").unwrap(), 90);
}

#[test]
fn parse_hours() {
    assert_eq!(parse_duration("1h").unwrap(), 60);
    assert_eq!(parse_duration("2h").unwrap(), 120);
}

#[test]
fn parse_hours_and_minutes() {
    assert_eq!(parse_duration("1h30m").unwrap(), 90);
    assert_eq!(parse_duration("2h15m").unwrap(), 135);
}

#[test]
fn reject_invalid_durations() {
    assert!(parse_duration("").is_err());
    assert!(parse_duration("abc").is_err());
    assert!(parse_duration("0m").is_err());
    assert!(parse_duration("h30m").is_err());
    assert!(parse_duration("30mjunk").is_err());
    assert!(parse_duration("1h30mgarbage").is_err());
}

#[test]
fn close_time_rejects_same_day_backwards_and_multiday_intervals() {
    let monday = date(2030, 1, 7);
    let timer = open(monday, 15);
    assert!(validate_close_time(&timer, monday, time(14, 0)).is_err());
    assert!(validate_close_time(&timer, date(2030, 1, 9), time(14, 0)).is_err());
}

#[test]
fn close_time_allows_real_cross_midnight_interval() {
    let monday = date(2030, 1, 7);
    let timer = open(monday, 23);
    assert!(validate_close_time(&timer, date(2030, 1, 8), time(1, 0)).is_ok());
}

// Further checks of the command decisions.

#[test]
fn duration_errors_say_why() {
    assert_eq!(parse_duration(" 1H30M ").unwrap(), 90);
    assert_eq!(parse_duration("abc").unwrap_err(), "invalid duration 'abc' — use format like 30m or 1h30m");
    assert_eq!(parse_duration("1h30").unwrap_err(), "invalid duration '1h30' — expected format like 1h30m");
    assert_eq!(parse_duration("xh").unwrap_err(), "invalid duration 'xh'");
    assert_eq!(parse_duration("0m").unwrap_err(), "duration must be positive");
    assert_eq!(parse_duration("-1h").unwrap_err(), "invalid duration '-1h'");
    assert_eq!(parse_duration("+30m").unwrap_err(), "invalid duration '+30m'");
    assert_eq!(parse_duration("1h-30m").unwrap_err(), "invalid duration '1h-30m'");
    assert_eq!(parse_duration("0h0m").unwrap_err(), "duration must be positive");
    assert_eq!(parse_duration("9223372036854775807h").unwrap_err(), "duration is too large");
}

#[test]
fn close_time_message() {
    let timer = open(date(2030, 1, 7), 15);
    assert_eq!(
        validate_close_time(&timer, date(2030, 1, 7), time(14, 0)).unwrap_err(),
        "end time 14:00 on 2030-01-07 cannot close a timer started at 15:00 on 2030-01-07; \
         intervals must be shorter than 24 hours (use 'teum edit' to correct it)"
    );
    assert!(validate_close_time(&timer, date(2030, 1, 7), time(15, 0)).is_ok());
}

#[test]
fn energy_for_stop() {
    assert!(check_energy(None).is_ok());
    assert!(check_energy(Some(5)).is_ok());
    assert_eq!(check_energy(Some(6)).unwrap_err(), "energy level 6 out of range (use 1-5)");
    assert!(check_energy(Some(0)).is_err());
}

#[test]
fn inject_start_and_trim() {
    assert_eq!(inject_start(time(10, 0), 90).unwrap(), time(8, 30));
    assert_eq!(
        inject_start(time(1, 0), 61).unwrap_err(),
        "injection would cross midnight — use 'teum add' instead"
    );
    let d = date(2030, 1, 7);
    let running = open(d, 9);
    assert_eq!(inject_trim(Some(&running), None, d, time(9, 30)).unwrap(), Trim::CloseRunning);
    assert!(inject_trim(Some(&running), None, d, time(8, 30)).is_err());
    let last = closed(d, time(8, 0), time(10, 0));
    assert_eq!(inject_trim(None, Some(&last), d, time(9, 30)).unwrap(), Trim::TrimPrevious);
    assert_eq!(inject_trim(None, Some(&last), d, time(10, 0)).unwrap(), Trim::Nothing);
    assert_eq!(inject_trim(None, None, d, time(10, 0)).unwrap(), Trim::Nothing);
}

#[test]
fn fill_starts_at_the_last_end() {
    let d = date(2030, 1, 7);
    let last = closed(d, time(8, 0), time(10, 0));
    assert_eq!(fill_start(false, Some(&last), d, time(11, 0), false).unwrap(), time(10, 0));
    assert_eq!(
        fill_start(true, Some(&last), d, time(11, 0), false).unwrap_err(),
        "a timer is running — there is no gap to fill (use 'teum stop' first)"
    );
    assert_eq!(fill_start(false, None, d, time(11, 0), false).unwrap_err(), "no previous interval — use 'teum add' instead");
    assert_eq!(
        fill_start(false, Some(&last), date(2030, 1, 8), time(11, 0), false).unwrap_err(),
        "last interval ended on 2030-01-07 — filling across days is not supported, use 'teum add'"
    );
    assert_eq!(
        fill_start(false, Some(&last), d, time(9, 0), false).unwrap_err(),
        "last interval ends at 10:00, which is in the future"
    );
    assert_eq!(fill_start(false, Some(&last), d, time(10, 0), false).unwrap_err(), "last interval ended just now — nothing to fill");
    assert_eq!(fill_start(false, Some(&last), d, time(10, 0), true).unwrap(), time(10, 0));
}

#[test]
fn entry_fields_from_preset_or_arguments() {
    let mut config = Config::default();
    config.presets.push(("build".into(), Preset { project: "focus".into(), tags: vec!["build".into()] }));
    let args: Vec<String> = vec!["!4".into(), "proto".into()];
    let (p, t, e, d) = entry_fields(&config, Some("bu"), &args).unwrap();
    assert_eq!((p.as_str(), t, e, d.as_str()), ("focus", vec!["build".to_string()], Some(4), "proto"));
    assert_eq!(entry_fields(&config, Some("x"), &args).unwrap_err(), "unknown preset 'x'");
    let args: Vec<String> = vec!["@side".into(), "notes".into()];
    let (p, t, e, d) = entry_fields(&config, None, &args).unwrap();
    assert_eq!((p.as_str(), t.len(), e, d.as_str()), ("side", 0, None, "notes"));
}

#[test]
fn edit_targets() {
    let today = date(2030, 1, 9);
    assert_eq!(edit_path("/data", "current", today).unwrap(), "/data/2030-w02.txt");
    assert_eq!(edit_path("/data", "2029-w52", today).unwrap(), "/data/2029-w52.txt");
    // A week the data scans would ignore is no target either.
    assert!(edit_path("/data", "2030-w99", today).unwrap_err().contains("invalid target"));
    assert_eq!(
        edit_path("/data", "w52", today).unwrap_err(),
        "invalid target 'w52' — expected 'current' or YYYY-wWW (e.g., 2030-w02)"
    );
}

#[test]
fn add_needs_a_closed_entry() {
    let iv = add_line("2030-01-07 09:00 - 10:00 | @work | done").unwrap();
    assert_eq!(iv.end, Some(time(10, 0)));
    assert_eq!(
        add_line("2030-01-07 09:00 -       | @work | open").unwrap_err(),
        "cannot add an open interval (no end time)"
    );
    assert!(add_line("not an entry").is_err());
}
