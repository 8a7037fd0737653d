use teum::calendar::Date;
use teum::period::resolve;

fn date(year: i32, month: u32, day: u32) -> Date {
    Date { year, month, day }
}

#[test]
fn today_range() {
    let r = resolve("today", date(2030, 1, 9)).unwrap();
    assert_eq!(r.start, date(2030, 1, 9));
    assert_eq!(r.end, date(2030, 1, 9));
}

#[test]
fn week_range() {
    // January 9, 2030 is a Wednesday.
    let r = resolve("week", date(2030, 1, 9)).unwrap();
    assert_eq!(r.start, date(2030, 1, 7));
    assert_eq!(r.end, date(2030, 1, 9));
}

#[test]
fn last_week_range() {
    let r = resolve("last-week", date(2030, 1, 9)).unwrap();
    assert_eq!(r.start, date(2029, 12, 31));
    assert_eq!(r.end, date(2030, 1, 6));
}

#[test]
fn month_range() {
    let r = resolve("month", date(2030, 1, 9)).unwrap();
    assert_eq!(r.start, date(2030, 1, 1));
    assert_eq!(r.end, date(2030, 1, 9));
}

#[test]
fn unknown_period() {
    assert!(resolve("biweekly", date(2030, 1, 9)).is_err());
}

#[test]
fn period_labels() {
    assert_eq!(resolve("today", date(2030, 1, 9)).unwrap().label, "Today (2030-01-09, Wed)");
    let y = resolve("yesterday", date(2030, 1, 1)).unwrap();
    assert_eq!(y.start, date(2029, 12, 31));
    let year = resolve("year", date(2030, 5, 9)).unwrap();
    assert_eq!(year.start, date(2030, 1, 1));
    assert_eq!(year.end, date(2030, 5, 9));
}

#[test]
fn periods_end_no_later_than_today() {
    let today = date(2030, 1, 1);
    for p in ["today", "yesterday", "week", "last-week", "month", "year"] {
        let r = resolve(p, today).unwrap();
        let key = |d: Date| (d.year, d.month, d.day);
        assert!(key(r.start) <= key(r.end), "{p}");
        assert!(key(r.end) <= key(today), "{p}");
    }
    let w = resolve("week", today).unwrap();
    assert_eq!(w.start, date(2029, 12, 31));
}
