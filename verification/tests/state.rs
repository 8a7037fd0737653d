use teum::calendar::{Date, DateTime, Time};
use teum::interval::Interval;
use teum::state::{carried_start, mirror_state, refine, resolve_start, State};

fn sample_open() -> Interval {
    Interval {
        date: Date { year: 2030, month: 1, day: 8 },
        start: Time { hour: 9, minute: 0 },
        end: None,
        project: "focus".into(),
        tags: vec!["build".into()],
        energy: None,
        description: "prototype".into(),
    }
}

fn floor_of(iv: &Interval) -> DateTime {
    DateTime::at(iv.date, iv.start)
}

fn plus(dt: DateTime, seconds: u32) -> DateTime {
    DateTime { date: dt.date, second: dt.second + seconds }
}

#[test]
fn interval_state_has_iso_start_and_no_elapsed() {
    let iv = sample_open();
    let state = State::running(&iv, floor_of(&iv));
    assert!(state.tracking);
    assert_eq!(state.project.as_deref(), Some("focus"));
    assert_eq!(state.start.as_deref(), Some("2030-01-08T09:00:00"));
    // The persisted state holds no elapsed count, so it cannot go stale.
    assert!(state.elapsed_seconds.is_none());
}

#[test]
fn elapsed_counts_full_days_not_just_clock() {
    // A synthetic multi-day interval catches time-only subtraction bugs.
    let now = DateTime { date: Date { year: 2030, month: 1, day: 13 }, second: 10 * 3600 + 24 * 60 };
    let iv = sample_open();
    let state = State::running(&iv, floor_of(&iv)).with_elapsed(floor_of(&iv), now);
    let secs = state.elapsed_seconds.unwrap();
    // 5 days + 1h24m, not 1h24m.
    assert!(secs > 5 * 24 * 3600, "expected multi-day elapsed, got {secs}");
}

#[test]
fn sub_minute_start_survives_inside_the_logged_minute() {
    let iv = sample_open();
    let stamped = plus(floor_of(&iv), 50);
    assert_eq!(refine(floor_of(&iv), Some(stamped)), stamped);
}

#[test]
fn start_from_another_minute_is_ignored() {
    let iv = sample_open();
    let floor = floor_of(&iv);
    // A stale mirror (an earlier entry) and an out-of-range later stamp both
    // lose to the ledger.
    let earlier = DateTime { date: floor.date, second: floor.second - 1 };
    assert_eq!(refine(floor, Some(earlier)), floor);
    assert_eq!(refine(floor, Some(plus(floor, 60))), floor);
    assert_eq!(refine(floor, None), floor);
}

#[test]
fn carried_start_reads_only_a_matching_running_mirror() {
    let iv = sample_open();
    // No mirror file: nothing to carry.
    assert_eq!(resolve_start(&iv, None, None), floor_of(&iv));
    assert_eq!(carried_start("{\"tracking\": false}", "focus"), None);
    assert_eq!(carried_start("not json at all", "focus"), None);
    assert_eq!(
        carried_start("{\"tracking\": true, \"project\": \"other\", \"start\": \"2030-01-08T09:00:50\"}", "focus"),
        None
    );
    assert_eq!(
        carried_start("{\"tracking\": true, \"project\": \"focus\", \"start\": \"2030-01-08T09:00:50\"}", "focus"),
        Some(DateTime { date: Date { year: 2030, month: 1, day: 8 }, second: 9 * 3600 + 50 })
    );
}

// Further checks of the mirror.

#[test]
fn idle_state_is_minimal() {
    let s = State::idle();
    assert!(!s.tracking);
    assert!(s.project.is_none() && s.start.is_none() && s.elapsed_seconds.is_none() && s.tags.is_empty());
}

#[test]
fn mirror_keeps_seconds_within_the_minute() {
    let iv = sample_open();
    let text = "{\"tracking\": true, \"project\": \"focus\", \"start\": \"2030-01-08T09:00:50\"}";
    let s = mirror_state(Some(&iv), None, Some(text));
    assert_eq!(s.start.as_deref(), Some("2030-01-08T09:00:50"));
    assert_eq!(s.description.as_deref(), Some("prototype"));
    let stale = "{\"tracking\": true, \"project\": \"focus\", \"start\": \"2030-01-07T09:00:50\"}";
    let s = mirror_state(Some(&iv), None, Some(stale));
    assert_eq!(s.start.as_deref(), Some("2030-01-08T09:00:00"));
    let stamped = plus(floor_of(&iv), 7);
    let s = mirror_state(Some(&iv), Some(stamped), Some(stale));
    assert_eq!(s.start.as_deref(), Some("2030-01-08T09:00:07"));
    assert!(!mirror_state(None, None, None).tracking);
}

#[test]
fn elapsed_never_negative() {
    let iv = sample_open();
    let before = DateTime { date: Date { year: 2030, month: 1, day: 7 }, second: 0 };
    let s = State::idle().with_elapsed(floor_of(&iv), before);
    assert_eq!(s.elapsed_seconds, Some(0));
}
