use teum::calendar::{Date, DateTime, Time};
use teum::config::{Config, Env, Preset};
use teum::display::{banner, log_text, meta_string, midnight_note, presets_text, span_line, status_text};
use teum::interval::Interval;

fn entry(start: (u32, u32), end: Option<(u32, u32)>, description: &str) -> Interval {
    Interval {
        date: Date { year: 2030, month: 1, day: 7 },
        start: Time { hour: start.0, minute: start.1 },
        end: end.map(|(h, m)| Time { hour: h, minute: m }),
        project: "focus".into(),
        tags: vec!["build".into()],
        energy: Some(4),
        description: description.into(),
    }
}

#[test]
fn banners_and_spans() {
    let iv = entry((9, 0), Some((10, 30)), "prototype");
    assert_eq!(meta_string(&iv, true), "@focus #build !4");
    assert_eq!(meta_string(&iv, false), "@focus #build");
    assert_eq!(banner("Stopped: ", "         ", &iv, true), "Stopped: @focus #build !4\n         prototype\n");
    assert_eq!(span_line(iv.start, iv.end.unwrap(), 90), "09:00 - 10:30 (1:30)");
    assert_eq!(midnight_note(&iv), "note: timer crossed midnight (started 09:00 on 2030-01-07)");
}

#[test]
fn log_lists_entries_and_total() {
    let today = Date { year: 2030, month: 1, day: 7 };
    let ivs = vec![entry((9, 0), Some((10, 30)), "prototype"), entry((11, 0), None, "")];
    let text = log_text("Today", &ivs, today, Time { hour: 11, minute: 15 });
    let lines: Vec<&str> = text.lines().collect();
    assert_eq!(lines[0], "Today");
    assert_eq!(lines[1], "");
    assert_eq!(lines[2], format!("  09:00 - 10:30  {:<30}{:<30} {:>5}", "@focus #build !4", "  prototype", "1:30"));
    assert_eq!(lines[3], format!("  11:00 - ...    {:<30}{:<30} {:>5} (running)", "@focus #build !4", "", "0:15"));
    assert_eq!(lines[5], format!("  {:>76}", "1:45"));
    assert_eq!(log_text("Today", &vec![], today, Time { hour: 1, minute: 0 }), "Today\n  (no entries)\n");
}

#[test]
fn status_running_and_idle() {
    let iv = entry((9, 0), None, "prototype");
    let now = DateTime { date: Date { year: 2030, month: 1, day: 9 }, second: 10 * 3600 + 24 * 60 };
    let (text, warning) = status_text(Some(&iv), None, now);
    assert_eq!(text, "Tracking: @focus #build\n          prototype\nStarted:  09:00 (2d 1h 24m ago)\n");
    assert_eq!(
        warning.unwrap(),
        "⚠  open timer started 2 days ago (2030-01-07). Likely a runaway — `teum stop` or `teum cancel`."
    );
    let last = entry((9, 0), Some((10, 0)), "");
    let (text, warning) = status_text(None, Some(&last), now);
    assert_eq!(text, "No active tracking.\nLast:     09:00 - 10:00 | @focus #build\n");
    assert!(warning.is_none());
}

#[test]
fn presets_listing() {
    let env = Env { home: Some("/home/u".into()), xdg_config_home: None, xdg_data_home: None };
    let mut config = Config::default();
    let text = presets_text(&config, &env).unwrap();
    assert!(text.ends_with("\nNo presets configured. Add some to /home/u/.config/teum/config.toml\n"), "{text}");
    config.presets.push(("meet".into(), Preset { project: "support".into(), tags: vec!["meeting".into()] }));
    config.presets.push(("build".into(), Preset { project: "focus".into(), tags: vec!["build".into()] }));
    let text = presets_text(&config, &env).unwrap();
    assert!(text.ends_with("Presets:\n  build  @focus #build\n  meet   @support #meeting\n"), "{text}");
}
