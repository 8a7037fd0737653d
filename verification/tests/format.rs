use teum::format::{duration_ago, duration_long, duration_str};

#[test]
fn durations() {
    assert_eq!(duration_str(90), "1:30");
    assert_eq!(duration_str(5), "0:05");
    assert_eq!(duration_long(240), "4h 00m");
    assert_eq!(duration_long(45), "45m");
    assert_eq!(duration_ago(5 * 86400 + 84 * 60), "5d 1h 24m");
    assert_eq!(duration_ago(-30), "0m");
}
