use teum::calendar::{Date, Time};
use teum::doctor::{check_entry, check_sequence, describe, doctor_findings, doctor_report, Finding};
use teum::interval::Interval;

fn parse_date(s: &str) -> Date {
    let p: Vec<&str> = s.split('-').collect();
    Date { year: p[0].parse().unwrap(), month: p[1].parse().unwrap(), day: p[2].parse().unwrap() }
}

fn parse_time(s: &str) -> Time {
    let p: Vec<&str> = s.split(':').collect();
    Time { hour: p[0].parse().unwrap(), minute: p[1].parse().unwrap() }
}

fn iv(date: &str, start: &str, end: Option<&str>) -> Interval {
    Interval {
        date: parse_date(date),
        start: parse_time(start),
        end: end.map(parse_time),
        project: "focus".into(),
        tags: vec![],
        energy: None,
        description: String::new(),
    }
}

fn notes(findings: &[Finding]) -> String {
    findings.iter().map(|f| f.note.clone()).collect::<Vec<_>>().join(" | ")
}

const TODAY: &str = "2030-01-09";

fn today() -> Date {
    parse_date(TODAY)
}

#[test]
fn flags_the_overnight_runaway_but_not_a_short_late_session() {
    let mut found = Vec::new();
    // A timer started in the evening and noticed the next morning.
    check_entry("2030-w02.txt", &iv("2030-01-07", "17:18", Some("09:58")), today(), &mut found);
    assert!(notes(&found).contains("forgotten timer"), "{}", notes(&found));

    let mut ok = Vec::new();
    check_entry("2030-w02.txt", &iv("2030-01-07", "23:30", Some("00:15")), today(), &mut ok);
    assert!(ok.is_empty(), "{}", notes(&ok));
}

#[test]
fn a_long_workday_block_is_not_a_runaway() {
    let mut found = Vec::new();
    check_entry("2030-w02.txt", &iv("2030-01-07", "09:00", Some("17:00")), today(), &mut found);
    assert!(found.is_empty(), "{}", notes(&found));
}

#[test]
fn flags_zero_duration_and_misfiled_and_stale_open() {
    let mut found = Vec::new();
    check_entry("2030-w02.txt", &iv("2030-01-07", "15:14", Some("15:14")), today(), &mut found);
    assert!(notes(&found).contains("same minute"));

    let mut misfiled = Vec::new();
    check_entry("2030-w01.txt", &iv("2030-01-07", "09:00", Some("10:00")), today(), &mut misfiled);
    assert!(notes(&misfiled).contains("2030-w02.txt"));

    let mut stale = Vec::new();
    check_entry("2030-w02.txt", &iv("2030-01-07", "09:00", None), today(), &mut stale);
    assert!(notes(&stale).contains("past day"));

    // The timer running right now is not stale.
    let mut live = Vec::new();
    check_entry("2030-w02.txt", &iv(TODAY, "09:00", None), today(), &mut live);
    assert!(live.is_empty(), "{}", notes(&live));
}

#[test]
fn flags_overlap_and_disorder_but_accepts_touching_entries() {
    let mut overlap = Vec::new();
    check_sequence(
        "2030-w02.txt",
        &vec![iv("2030-01-07", "09:00", Some("10:00")), iv("2030-01-07", "09:30", Some("10:30"))],
        &mut overlap,
    );
    assert!(notes(&overlap).contains("overlaps"), "{}", notes(&overlap));

    let mut disorder = Vec::new();
    check_sequence(
        "2030-w02.txt",
        &vec![iv("2030-01-07", "10:07", Some("10:30")), iv("2030-01-07", "09:30", Some("10:00"))],
        &mut disorder,
    );
    assert!(notes(&disorder).contains("out of order"));

    // Back-to-back entries share an instant and must stay quiet.
    let mut touching = Vec::new();
    check_sequence(
        "2030-w02.txt",
        &vec![iv("2030-01-07", "09:00", Some("10:00")), iv("2030-01-07", "10:00", Some("11:00"))],
        &mut touching,
    );
    assert!(touching.is_empty(), "{}", notes(&touching));
}

// Further checks of the findings and their report.

#[test]
fn exact_notes_and_descriptions() {
    assert_eq!(describe(&iv("2030-01-07", "09:00", None)), "2030-01-07 09:00 -       @focus");
    let mut found = Vec::new();
    check_entry("2030-w02.txt", &iv("2030-01-07", "17:18", Some("09:58")), today(), &mut found);
    assert_eq!(found[0].note, "overnight run of 16:40 — likely a forgotten timer");
    assert_eq!(found[0].entry, "2030-01-07 17:18 - 09:58 @focus");
    let mut overlap = Vec::new();
    check_sequence(
        "2030-w02.txt",
        &vec![iv("2030-01-07", "09:00", Some("10:00")), iv("2030-01-07", "09:30", Some("10:30"))],
        &mut overlap,
    );
    assert_eq!(overlap[0].note, "overlaps the previous entry by 0:30");
}

#[test]
fn all_files_and_the_report() {
    let files: Vec<(String, Result<Vec<Interval>, String>)> = vec![
        ("2030-w01.txt".into(), Err("2030-w01.txt:1: empty line".into())),
        ("2030-w02.txt".into(), Ok(vec![iv("2030-01-07", "09:00", None), iv("2030-01-08", "09:00", None)])),
    ];
    let (findings, checked) = doctor_findings(&files, today());
    assert_eq!(checked, 2);
    let all = notes(&findings);
    assert!(all.contains("2030-w01.txt:1: empty line"), "{all}");
    assert!(all.contains("one of 2 open timers; only one may run"), "{all}");
    let (text, outcome) = doctor_report(&findings, checked, 2);
    assert!(text.starts_with("2030-w01.txt\n  unreadable"), "{text}");
    assert_eq!(outcome.unwrap_err(), format!("{} issue(s) across 2 entries in 2 files", findings.len()));

    let (text, outcome) = doctor_report(&Vec::new(), 5, 1);
    assert_eq!(text, "5 entries in 1 files, nothing to report.\n");
    assert!(outcome.is_ok());
}

#[test]
fn finding_new_keeps_its_parts() {
    let f = Finding::new("2030-w02.txt", "entry".to_string(), "note".to_string());
    assert_eq!((f.file.as_str(), f.entry.as_str(), f.note.as_str()), ("2030-w02.txt", "entry", "note"));
}
