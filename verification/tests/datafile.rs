use teum::calendar::{Date, Time};
use teum::datafile::{
    close_open_text, entry_line, find_last_closed, find_open, is_week_filename, parse_entries,
    remove_open_text, trim_last_end_text, week_filename, week_filepath, week_files,
};
use teum::interval::Interval;

fn date(year: i32, month: u32, day: u32) -> Date {
    Date { year, month, day }
}

fn time(hour: u32, minute: u32) -> Time {
    Time { hour, minute }
}

fn entry(date: Date, start: Time, end: Option<Time>, project: &str, tags: &[&str], description: &str) -> Interval {
    Interval {
        date,
        start,
        end,
        project: project.into(),
        tags: tags.iter().map(|t| t.to_string()).collect(),
        energy: None,
        description: description.into(),
    }
}

/// Appends an entry to a week file's text, as `append_interval` writes it.
fn append(content: &mut String, iv: &Interval) {
    content.push_str(&entry_line(iv));
}

#[test]
fn week_filename_format() {
    let date = date(2030, 1, 7); // Monday of week 2
    assert_eq!(week_filename(date), "2030-w02.txt");
}

#[test]
fn append_and_read() {
    let d = date(2030, 1, 7);
    let path = week_filepath("/data", d);
    let iv = entry(d, time(9, 0), Some(time(10, 0)), "work", &["coding"], "test");
    let mut content = String::new();
    append(&mut content, &iv);
    let intervals = parse_entries(&content, &path).unwrap();
    assert_eq!(intervals.len(), 1);
    assert_eq!(intervals[0], iv);
}

#[test]
fn find_and_close_open() {
    let d = date(2030, 1, 7);
    let path = week_filepath("/data", d);
    let iv = entry(d, time(15, 0), None, "work", &["coding"], "wip");
    let mut content = String::new();
    append(&mut content, &iv);

    let files = vec![(path.clone(), parse_entries(&content, &path).unwrap())];
    let found = find_open(&files, d).unwrap();
    assert!(found.is_some());

    let end = time(16, 30);
    let (closed, new_content) = close_open_text(&content, end, None).unwrap();
    assert_eq!(closed.end, Some(end));

    let files = vec![(path.clone(), parse_entries(&new_content, &path).unwrap())];
    let found = find_open(&files, d).unwrap();
    assert!(found.is_none());
}

#[test]
fn remove_open_interval() {
    let d = date(2030, 1, 7);
    let path = week_filepath("/data", d);
    let closed_iv = entry(d, time(9, 0), Some(time(10, 0)), "work", &[], "done");
    let open_iv = entry(d, time(15, 0), None, "work", &["coding"], "cancel me");
    let mut content = String::new();
    append(&mut content, &closed_iv);
    append(&mut content, &open_iv);

    let (removed, new_content) = remove_open_text(&content).unwrap();
    assert_eq!(removed.description, "cancel me");

    let intervals = parse_entries(&new_content, &path).unwrap();
    assert_eq!(intervals.len(), 1);
    assert_eq!(intervals[0].description, "done");
}

#[test]
fn finds_open_interval_older_than_previous_week() {
    let old_date = date(2030, 1, 7);
    let today = date(2030, 2, 4);
    let path = week_filepath("/data", old_date);
    let iv = entry(old_date, time(9, 0), None, "focus", &[], "forgotten");
    let mut content = String::new();
    append(&mut content, &iv);

    let files = vec![(path.clone(), parse_entries(&content, &path).unwrap())];
    let (found, found_path) = find_open(&files, today).unwrap().unwrap();
    assert_eq!(found, iv);
    assert_eq!(found_path, path);
}

#[test]
fn rejects_multiple_open_intervals() {
    let first_date = date(2030, 1, 7);
    let second_date = date(2030, 1, 14);
    let mut files = Vec::new();
    for (d, description) in [(first_date, "first"), (second_date, "second")] {
        let path = week_filepath("/data", d);
        let mut content = String::new();
        append(&mut content, &entry(d, time(9, 0), None, "focus", &[], description));
        files.push((path.clone(), parse_entries(&content, &path).unwrap()));
    }
    let err = find_open(&files, second_date).unwrap_err();
    assert!(err.contains("2 open intervals"));
}

// Further checks of the week files.

#[test]
fn week_file_names_and_paths() {
    assert_eq!(week_filename(date(2029, 12, 31)), "2030-w01.txt");
    assert_eq!(week_filename(date(2027, 1, 1)), "2026-w53.txt");
    assert_eq!(week_filepath("/data/", date(2030, 1, 7)), "/data/2030-w02.txt");
    assert!(is_week_filename("2030-w02.txt"));
    assert!(!is_week_filename("2030-w54.txt"));
    assert!(!is_week_filename("notes.txt"));
    let names: Vec<String> = vec!["2030-w03.txt".into(), "current.json".into(), "2030-w01.txt".into()];
    assert_eq!(week_files(&names), vec!["2030-w01.txt".to_string(), "2030-w03.txt".to_string()]);
}

#[test]
fn parse_error_names_file_and_line() {
    let content = "# comment\n\n2030-01-07 09:00 - 10:00 | @Work | bad\n";
    let err = parse_entries(content, "/data/2030-w02.txt").unwrap_err();
    assert!(err.starts_with("/data/2030-w02.txt:3: "), "{err}");
}

#[test]
fn trim_moves_the_last_end_back() {
    let d = date(2030, 1, 7);
    let mut content = String::new();
    append(&mut content, &entry(d, time(9, 0), Some(time(10, 0)), "work", &[], "a"));
    let (trimmed, new_content) = trim_last_end_text(&content, time(9, 30)).unwrap().unwrap();
    assert_eq!(trimmed.end, Some(time(9, 30)));
    assert_eq!(new_content, "2030-01-07 09:00 - 09:30 | @work | a\n");
    assert!(trim_last_end_text(&content, time(8, 0)).is_err());
}

#[test]
fn last_closed_entry_across_files() {
    let d1 = date(2030, 1, 7);
    let d2 = date(2030, 1, 14);
    let a = entry(d1, time(9, 0), Some(time(10, 0)), "work", &[], "a");
    let b = entry(d2, time(8, 0), Some(time(9, 0)), "side", &[], "b");
    let files = vec![
        (week_filepath("/data", d1), vec![a.clone()]),
        (week_filepath("/data", d2), vec![b.clone()]),
    ];
    assert_eq!(find_last_closed(&files, d2), Some(b));
    assert_eq!(find_last_closed(&files, d1), Some(a));
}

#[test]
fn closing_rewrites_only_the_running_entry() {
    let d = date(2030, 1, 7);
    let mut content = String::from("# week two\n");
    append(&mut content, &entry(d, time(8, 0), Some(time(9, 0)), "side", &[], "a"));
    append(&mut content, &entry(d, time(9, 0), None, "focus", &["build"], "b"));
    content.push_str("\n");
    append(&mut content, &entry(d, time(7, 0), Some(time(7, 30)), "work", &[], "c"));
    let before = parse_entries(&content, "f").unwrap();
    let (closed, text) = close_open_text(&content, time(10, 15), Some(4)).unwrap();
    let after = parse_entries(&text, "f").unwrap();
    let mut expected = before.clone();
    expected[1] = closed.clone();
    assert_eq!(after, expected);
    assert_eq!(closed.end, Some(time(10, 15)));
    assert_eq!(closed.energy, Some(4));
    assert!(text.starts_with("# week two\n"));
}

#[test]
fn removing_and_trimming_read_back() {
    let d = date(2030, 1, 7);
    let mut content = String::new();
    append(&mut content, &entry(d, time(8, 0), Some(time(9, 0)), "side", &[], "a"));
    append(&mut content, &entry(d, time(9, 0), None, "focus", &[], "b"));
    let (removed, text) = remove_open_text(&content).unwrap();
    assert_eq!(removed.description, "b");
    assert_eq!(parse_entries(&text, "f").unwrap(), vec![entry(d, time(8, 0), Some(time(9, 0)), "side", &[], "a")]);

    let (trimmed, text) = trim_last_end_text(&text, time(8, 45)).unwrap().unwrap();
    assert_eq!(parse_entries(&text, "f").unwrap(), vec![trimmed]);

    let mut only = String::new();
    append(&mut only, &entry(d, time(9, 0), None, "focus", &[], "b"));
    let (_, text) = remove_open_text(&only).unwrap();
    assert_eq!(text, "");
}

#[test]
fn running_entry_dated_after_today_is_an_error() {
    let d = date(2030, 1, 10);
    let path = week_filepath("/data", d);
    let files = vec![(path.clone(), vec![entry(d, time(9, 0), None, "focus", &[], "early")])];
    assert_eq!(
        find_open(&files, date(2030, 1, 9)).unwrap_err(),
        "open interval starts in the future (2030-01-10 09:00:00 in /data/2030-w02.txt)"
    );
}
