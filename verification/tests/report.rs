use teum::calendar::{iso_week, weekday, Date, Time};
use teum::config::Config;
use teum::interval::Interval;
use teum::report::{aggregate, earliest_week_start, esc, parse_week_filename, report_range, stale_warnings};

fn parse_date(s: &str) -> Date {
    let p: Vec<&str> = s.split('-').collect();
    Date { year: p[0].parse().unwrap(), month: p[1].parse().unwrap(), day: p[2].parse().unwrap() }
}

fn iv(date: &str, mins: u32, project: &str, tags: &[&str]) -> Interval {
    let end = 9 * 60 + mins;
    Interval {
        date: parse_date(date),
        start: Time { hour: 9, minute: 0 },
        end: Some(Time { hour: (end / 60) % 24, minute: end % 60 }),
        project: project.to_string(),
        tags: tags.iter().map(|s| s.to_string()).collect(),
        energy: None,
        description: String::new(),
    }
}

fn cfg() -> Config {
    Config::default()
}

#[test]
fn buckets_and_indices() {
    let now = Time { hour: 23, minute: 0 };
    let today = Date { year: 2030, month: 1, day: 11 };
    let ivs = vec![
        iv("2030-01-07", 120, "focus", &["build"]),
        iv("2030-01-07", 60, "support", &["routine"]),
        iv("2030-01-07", 30, "support", &["highlight"]),
        iv("2030-01-07", 45, "side", &["build"]),
        iv("2030-01-07", 90, "personal", &["highlight"]),
    ];
    let weeks = aggregate(&ivs, &cfg(), today, now);
    assert_eq!(weeks.len(), 1);
    let w = &weeks[0];
    assert_eq!(w.total, 255);
    assert_eq!(w.focus, 120);
    assert_eq!(w.support, 90);
    assert_eq!(w.highlight, 30);
    assert_eq!(w.side, 45);
    assert_eq!(w.priority, 150);
    let priority_fraction = w.priority as f64 / w.total as f64;
    let focus_to_support = (w.focus - w.support) as f64 / (w.focus + w.support) as f64;
    assert!((priority_fraction - 150.0 / 255.0).abs() < 1e-9);
    assert!((focus_to_support - 30.0 / 210.0).abs() < 1e-9);
}

#[test]
fn configured_group_names_are_used() {
    let mut config = cfg();
    config.report_groups.push(("focus".into(), vec!["project-a".into()]));
    config.report_groups.push(("excluded".into(), vec!["off-clock".into()]));
    let today = Date { year: 2030, month: 1, day: 11 };
    let now = Time { hour: 23, minute: 0 };
    let intervals = vec![iv("2030-01-07", 60, "project-a", &[]), iv("2030-01-07", 30, "off-clock", &["highlight"])];

    let weeks = aggregate(&intervals, &config, today, now);

    assert_eq!(weeks[0].total, 60);
    assert_eq!(weeks[0].focus, 60);
    assert_eq!(weeks[0].priority, 60);
}

#[test]
fn stale_open_timer_is_skipped_not_extrapolated() {
    let today = Date { year: 2030, month: 1, day: 19 };
    let now = Time { hour: 12, minute: 0 };
    // An open timer from a past day (no end): must contribute zero.
    let mut open = iv("2030-01-12", 0, "support", &["routine"]);
    open.end = None;
    let closed = iv("2030-01-12", 90, "support", &["routine"]);
    let weeks = aggregate(&vec![open, closed], &cfg(), today, now);
    assert_eq!(weeks.len(), 1);
    assert_eq!(weeks[0].support, 90);
}

#[test]
fn live_open_timer_today_is_counted() {
    let today = Date { year: 2030, month: 1, day: 19 };
    let now = Time { hour: 9, minute: 30 };
    let mut open = iv("2030-01-19", 0, "focus", &["build"]);
    open.start = Time { hour: 9, minute: 0 };
    open.end = None;
    let weeks = aggregate(&vec![open], &cfg(), today, now);
    assert_eq!(weeks[0].focus, 30);
}

#[test]
fn parses_week_filenames() {
    let d = parse_week_filename("2030-w02.txt").unwrap();
    assert_eq!(iso_week(d).1, 2);
    assert_eq!(weekday(d), 0);
    assert!(parse_week_filename("current.json").is_none());
    assert!(parse_week_filename("2030-w02.lock").is_none());
    assert!(parse_week_filename("notes.txt").is_none());
    assert!(parse_week_filename("-2147483648-w01.txt").is_none());
    assert_eq!(parse_week_filename("2026-w53.txt"), Some(Date { year: 2026, month: 12, day: 28 }));
    assert!(parse_week_filename("2025-w53.txt").is_none());
    assert_eq!(parse_week_filename("2026-w01.txt"), Some(Date { year: 2025, month: 12, day: 29 }));
    assert!(parse_week_filename("2147483647-w53.txt").is_none());
}

// Further checks of the weekly report.

#[test]
fn weeks_come_in_order_with_their_mondays() {
    let today = Date { year: 2030, month: 2, day: 1 };
    let now = Time { hour: 12, minute: 0 };
    let ivs = vec![
        iv("2030-01-15", 60, "focus", &[]),
        iv("2029-12-31", 30, "side", &[]),
        iv("2030-01-16", 15, "focus", &["highlight"]),
    ];
    let weeks = aggregate(&ivs, &cfg(), today, now);
    assert_eq!(weeks.len(), 2);
    assert_eq!((weeks[0].year, weeks[0].week), (2030, 1));
    assert_eq!(weeks[0].monday, Date { year: 2029, month: 12, day: 31 });
    assert_eq!((weeks[1].year, weeks[1].week), (2030, 3));
    assert_eq!(weeks[1].monday, Date { year: 2030, month: 1, day: 14 });
    assert_eq!(weeks[1].focus, 75);
    assert_eq!(weeks[1].priority, 75);
    assert_eq!(weeks[1].highlight, 15);
}

#[test]
fn configured_highlight_tags_count() {
    let mut config = cfg();
    config.highlight_tags = Some(vec!["deep".into()]);
    let today = Date { year: 2030, month: 1, day: 11 };
    let now = Time { hour: 23, minute: 0 };
    let weeks = aggregate(&vec![iv("2030-01-07", 40, "side", &["deep"]), iv("2030-01-07", 20, "side", &["highlight"])], &config, today, now);
    assert_eq!(weeks[0].highlight, 40);
    assert_eq!(weeks[0].priority, 40);
    assert_eq!(weeks[0].total, 60);
}

#[test]
fn earliest_week_and_range() {
    let names: Vec<String> = vec!["2030-w03.txt".into(), "current.json".into(), "2029-w52.txt".into()];
    let earliest = earliest_week_start(&names);
    assert_eq!(earliest, Some(Date { year: 2029, month: 12, day: 24 }));
    let today = Date { year: 2030, month: 1, day: 20 };
    let (start, end, label) = report_range("all", today, earliest).unwrap();
    assert_eq!((start, end, label.as_str()), (Date { year: 2029, month: 12, day: 24 }, today, "all time"));
    let (start, _, _) = report_range("month", today, earliest).unwrap();
    assert_eq!(start, Date { year: 2030, month: 1, day: 1 });
    assert!(report_range("fortnight", today, None).is_err());
}

#[test]
fn html_escapes_and_stale_warnings() {
    assert_eq!(esc("a<b & c>d"), "a&lt;b &amp; c&gt;d");
    let mut open = iv("2030-01-07", 0, "focus", &[]);
    open.end = None;
    let warnings = stale_warnings(&vec![open, iv("2030-01-07", 30, "side", &[])], Date { year: 2030, month: 1, day: 9 });
    assert_eq!(warnings, vec!["warning: unclosed timer 2030-01-07 09:00:00 | @focus — skipped (close it to count)".to_string()]);
}

#[test]
fn chart_legend() {
    assert_eq!(
        teum::report::legend(&[("focus", "#3b6fd4"), ("a<b", "#c0392b")]),
        "<div class=\"legend\"><span class=\"dot\" style=\"background:#3b6fd4\"></span>focus\
         <span class=\"dot\" style=\"background:#c0392b\"></span>a&lt;b</div>"
    );
}

#[test]
fn iso_weeks_at_year_ends() {
    assert_eq!(iso_week(Date { year: 2027, month: 1, day: 1 }), (2026, 53));
    assert_eq!(iso_week(Date { year: 2024, month: 12, day: 30 }), (2025, 1));
    assert_eq!(weekday(Date { year: 1970, month: 1, day: 1 }), 3);
}
