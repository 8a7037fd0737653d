use teum::calendar::{Date, Time};
use teum::config::Config;
use teum::interval::Interval;
use teum::summary::{summarize, summary_rows, summary_totals};

fn entry(project: &str, start: (u32, u32), end: Option<(u32, u32)>, energy: Option<u8>) -> Interval {
    Interval {
        date: Date { year: 2030, month: 1, day: 7 },
        start: Time { hour: start.0, minute: start.1 },
        end: end.map(|(h, m)| Time { hour: h, minute: m }),
        project: project.into(),
        tags: vec![],
        energy,
        description: String::new(),
    }
}

#[test]
fn totals_per_project_in_name_order() {
    let ivs = vec![
        entry("support", (9, 0), Some((10, 30)), Some(3)),
        entry("focus", (11, 0), Some((13, 0)), Some(4)),
        entry("focus", (14, 0), Some((16, 0)), None),
        entry("side", (16, 0), None, Some(5)),
    ];
    let rows = summarize(&ivs, None, Date { year: 2030, month: 1, day: 7 }, Time { hour: 17, minute: 30 });
    let names: Vec<&str> = rows.iter().map(|r| r.project.as_str()).collect();
    assert_eq!(names, vec!["focus", "side", "support"]);
    assert_eq!(rows[0].minutes, 240);
    assert_eq!(rows[0].energies, vec![4]);
    assert_eq!(rows[1].minutes, 90);
    assert_eq!(rows[2].minutes, 90);
    assert_eq!(rows[2].energies, vec![3]);
}

#[test]
fn group_filter_and_unknown_group() {
    let mut config = Config::default();
    config.report_groups.push(("billable".into(), vec!["focus".into()]));
    let ivs = vec![entry("support", (9, 0), Some((10, 0)), None), entry("focus", (10, 0), Some((10, 45)), None)];
    let today = Date { year: 2030, month: 1, day: 7 };
    let now = Time { hour: 12, minute: 0 };
    let rows = summary_rows(&ivs, &config, Some("billable"), today, now).unwrap();
    assert_eq!(rows.len(), 1);
    assert_eq!((rows[0].project.as_str(), rows[0].minutes), ("focus", 45));
    assert_eq!(summary_rows(&ivs, &config, Some("nope"), today, now).unwrap_err(), "unknown report group 'nope'");
    assert_eq!(summary_rows(&ivs, &config, None, today, now).unwrap().len(), 2);
}

#[test]
fn stale_running_timer_counts_nothing() {
    let ivs = vec![entry("focus", (9, 0), Some((10, 0)), None), entry("side", (16, 0), None, Some(2))];
    let next_day = Date { year: 2030, month: 1, day: 8 };
    let rows = summarize(&ivs, None, next_day, Time { hour: 17, minute: 0 });
    assert_eq!(rows.len(), 2);
    assert_eq!((rows[0].project.as_str(), rows[0].minutes), ("focus", 60));
    assert_eq!((rows[1].project.as_str(), rows[1].minutes), ("side", 0));
    assert_eq!(rows[1].energies, vec![2]);
}

#[test]
fn totals_under_the_rows() {
    let ivs = vec![
        entry("focus", (9, 0), Some((10, 0)), None),
        entry("side", (10, 0), Some((10, 30)), Some(3)),
        entry("focus", (11, 0), Some((11, 15)), None),
        entry("admin", (16, 0), None, None),
    ];
    let next_day = Date { year: 2030, month: 1, day: 8 };
    let rows = summarize(&ivs, None, next_day, Time { hour: 17, minute: 0 });
    assert_eq!(summary_totals(&rows), (Some(105), 75, true));
    assert_eq!(summary_totals(&Vec::new()), (Some(0), 0, false));
}
