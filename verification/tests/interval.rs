use teum::calendar::{date_string, time_string, Date, Time};
use teum::interval::{validate_name, Interval};

fn date(year: i32, month: u32, day: u32) -> Date {
    Date { year, month, day }
}

fn time(hour: u32, minute: u32) -> Time {
    Time { hour, minute }
}

#[test]
fn parse_full_interval() {
    let line = "2030-01-07 09:00 - 09:45 | @work #planning | sprint review";
    let iv = Interval::parse(line).unwrap();
    assert_eq!(iv.date, date(2030, 1, 7));
    assert_eq!(iv.start, time(9, 0));
    assert_eq!(iv.end, Some(time(9, 45)));
    assert_eq!(iv.project, "work");
    assert_eq!(iv.tags, vec!["planning"]);
    assert_eq!(iv.description, "sprint review");
}

#[test]
fn parse_open_interval() {
    let line = "2030-01-07 15:15 -       | @work #coding | parser refactor";
    let iv = Interval::parse(line).unwrap();
    assert!(iv.is_open());
    assert_eq!(iv.project, "work");
    assert_eq!(iv.tags, vec!["coding"]);
    assert_eq!(iv.description, "parser refactor");
}

#[test]
fn reject_open_interval_without_dash() {
    let line = "2030-01-07 15:15 | @work #coding | missing separator";
    assert!(Interval::parse(line).is_err());
}

#[test]
fn parse_no_description() {
    let line = "2030-01-07 09:45 - 10:30 | @personal #errands |";
    let iv = Interval::parse(line).unwrap();
    assert_eq!(iv.description, "");
    assert_eq!(iv.project, "personal");
}

#[test]
fn parse_multiple_tags() {
    let line = "2030-01-07 13:00 - 14:30 | @work #writing #review | draft";
    let iv = Interval::parse(line).unwrap();
    assert_eq!(iv.tags, vec!["writing", "review"]);
}

#[test]
fn parse_no_tags() {
    let line = "2030-01-07 13:00 - 14:30 | @work | thinking";
    let iv = Interval::parse(line).unwrap();
    assert!(iv.tags.is_empty());
    assert_eq!(iv.project, "work");
}

#[test]
fn round_trip() {
    let line = "2030-01-07 09:00 - 09:45 | @work #planning | sprint review";
    let iv = Interval::parse(line).unwrap();
    let serialized = iv.serialize();
    let iv2 = Interval::parse(&serialized).unwrap();
    assert_eq!(iv, iv2);
}

#[test]
fn round_trip_open() {
    let line = "2030-01-07 15:15 -       | @work #coding | parser refactor";
    let iv = Interval::parse(line).unwrap();
    let serialized = iv.serialize();
    let iv2 = Interval::parse(&serialized).unwrap();
    assert_eq!(iv, iv2);
}

#[test]
fn round_trip_no_description() {
    let line = "2030-01-07 09:45 - 10:30 | @personal #errands |";
    let iv = Interval::parse(line).unwrap();
    let serialized = iv.serialize();
    let iv2 = Interval::parse(&serialized).unwrap();
    assert_eq!(iv, iv2);
}

#[test]
fn duration_simple() {
    let line = "2030-01-07 09:00 - 10:30 | @work #writing | draft";
    let iv = Interval::parse(line).unwrap();
    assert_eq!(iv.duration(), Some(90));
}

#[test]
fn duration_cross_midnight() {
    let line = "2030-01-07 23:30 - 00:15 | @work #writing | late night";
    let iv = Interval::parse(line).unwrap();
    assert_eq!(iv.duration(), Some(45));
}

#[test]
fn duration_open() {
    let line = "2030-01-07 15:15 -       | @work #coding | wip";
    let iv = Interval::parse(line).unwrap();
    assert_eq!(iv.duration(), None);
}

#[test]
fn parse_with_energy() {
    let line = "2030-01-07 09:00 - 10:30 | @work #writing !4 | draft";
    let iv = Interval::parse(line).unwrap();
    assert_eq!(iv.energy, Some(4));
    assert_eq!(iv.project, "work");
    assert_eq!(iv.tags, vec!["writing"]);
}

#[test]
fn parse_without_energy() {
    let line = "2030-01-07 09:00 - 10:30 | @work #writing | draft";
    let iv = Interval::parse(line).unwrap();
    assert_eq!(iv.energy, None);
}

#[test]
fn round_trip_with_energy() {
    let line = "2030-01-07 09:00 - 10:30 | @work #writing !3 | draft";
    let iv = Interval::parse(line).unwrap();
    let serialized = iv.serialize();
    let iv2 = Interval::parse(&serialized).unwrap();
    assert_eq!(iv, iv2);
}

#[test]
fn reject_invalid_energy() {
    let line = "2030-01-07 09:00 - 10:30 | @work !0 | bad";
    assert!(Interval::parse(line).is_err());
    let line = "2030-01-07 09:00 - 10:30 | @work !6 | bad";
    assert!(Interval::parse(line).is_err());
}

#[test]
fn reject_duplicate_energy() {
    let line = "2030-01-07 09:00 - 10:30 | @work !3 !4 | bad";
    assert!(Interval::parse(line).is_err());
}

#[test]
fn reject_invalid_names() {
    assert!(Interval::parse("2030-01-07 09:00 - 10:00 | @Focus | bad").is_err());
    assert!(Interval::parse("2030-01-07 09:00 - 10:00 | @work #code_review | bad").is_err());
}

#[test]
fn stale_open_interval_has_no_report_duration() {
    let iv = Interval::parse("2030-01-07 09:00 -       | @work | stale").unwrap();
    let today = date(2030, 1, 8);
    let now = time(10, 0);
    assert_eq!(iv.report_duration(today, now), None);
}

#[test]
fn reject_multiple_projects() {
    let line = "2030-01-07 09:00 - 10:00 | @work @personal | confused";
    assert!(Interval::parse(line).is_err());
}

#[test]
fn reject_missing_project() {
    let line = "2030-01-07 09:00 - 10:00 | #coding | no project";
    assert!(Interval::parse(line).is_err());
}

// Further checks of the entry format.

#[test]
fn serialize_writes_the_documented_line() {
    let iv = Interval::parse("2030-01-07 09:00 - 11:00 | @focus #build !4 | prototype").unwrap();
    assert_eq!(iv.serialize(), "2030-01-07 09:00 - 11:00 | @focus #build !4 | prototype");
    let open = Interval::parse("2030-01-07 15:15 -       | @focus #planning | roadmap").unwrap();
    assert_eq!(open.serialize(), "2030-01-07 15:15 -       | @focus #planning | roadmap");
    let bare = Interval::parse("2030-01-07 09:45 - 10:30 | @personal |").unwrap();
    assert_eq!(bare.serialize(), "2030-01-07 09:45 - 10:30 | @personal |");
}

#[test]
fn parse_reports_the_reason() {
    assert_eq!(Interval::parse("   ").unwrap_err(), "empty line");
    let err = Interval::parse("2030-01-07 09:00 - 10:00 | @Focus | bad").unwrap_err();
    assert!(err.contains("invalid project name 'Focus'"), "{err}");
}

#[test]
fn running_entry_counts_until_now_on_its_day() {
    let iv = Interval::parse("2030-01-19 09:00 -       | @focus | live").unwrap();
    assert_eq!(iv.report_duration(date(2030, 1, 19), time(9, 30)), Some(30));
    assert_eq!(iv.duration_until(time(8, 30)), 1410);
}

#[test]
fn name_validation_messages() {
    assert!(validate_name("deep-work2", "tag").is_ok());
    assert_eq!(validate_name("", "project").unwrap_err(), "empty project name");
    assert_eq!(
        validate_name("Code_Review", "tag").unwrap_err(),
        "invalid tag name 'Code_Review' (use lowercase letters, numbers, and hyphens)"
    );
}

#[test]
fn date_and_time_text() {
    assert_eq!(date_string(date(2030, 1, 7)), "2030-01-07");
    assert_eq!(time_string(time(9, 5)), "09:05");
}

#[test]
fn date_and_time_errors_give_chrono_reason() {
    assert_eq!(
        Interval::parse("2030-13-01 09:00 - 10:00 | @x").unwrap_err(),
        "invalid date '2030-13-01': input is out of range"
    );
    assert_eq!(
        Interval::parse("2030-01-07 25:00 - 26:00 | @x").unwrap_err(),
        "invalid time '25:00': input is out of range"
    );
    assert_eq!(
        Interval::parse("2030-01-07 09:00 - 10:xx | @x").unwrap_err(),
        "invalid end time '10:xx': input contains invalid characters"
    );
}
