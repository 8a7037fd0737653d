use teum::calendar::Time;
use teum::parse::{parse_energy_and_desc, parse_start_args, parse_time_or, truncate_to_minutes};

#[test]
fn preset_args_reject_invalid_and_duplicate_energy() {
    assert!(parse_energy_and_desc(&["!6".into()]).is_err());
    assert!(parse_energy_and_desc(&["!3".into(), "!4".into()]).is_err());
}

#[test]
fn explicit_args_reject_invalid_names() {
    assert!(parse_start_args(&["@Focus".into()]).is_err());
    assert!(parse_start_args(&["@focus".into(), "#code_review".into()]).is_err());
}

#[test]
fn start_args_split_metadata_from_description() {
    let args: Vec<String> = vec!["@focus".into(), "#build".into(), "!4".into(), "proto".into(), "type".into()];
    let (project, tags, energy, desc) = parse_start_args(&args).unwrap();
    assert_eq!(project, "focus");
    assert_eq!(tags, vec!["build"]);
    assert_eq!(energy, Some(4));
    assert_eq!(desc, "proto type");
}

#[test]
fn start_args_need_exactly_one_project() {
    assert!(parse_start_args(&["#build".into(), "x".into()]).is_err());
    assert!(parse_start_args(&["@a".into(), "@b".into()]).is_err());
}

#[test]
fn energy_and_description_after_a_preset() {
    let args: Vec<String> = vec!["!2".into(), "weekly".into(), "sync".into()];
    assert_eq!(parse_energy_and_desc(&args).unwrap(), (Some(2), "weekly sync".to_string()));
    assert_eq!(parse_energy_and_desc(&[]).unwrap(), (None, String::new()));
}

#[test]
fn time_override_or_clock() {
    assert_eq!(parse_time_or(Some("07:05"), 0).unwrap(), Time { hour: 7, minute: 5 });
    assert!(parse_time_or(Some("7h"), 0).is_err());
    assert_eq!(parse_time_or(None, 10 * 3600 + 58 * 60 + 50).unwrap(), Time { hour: 10, minute: 58 });
    assert_eq!(truncate_to_minutes(86399), Time { hour: 23, minute: 59 });
}

#[test]
fn energy_anywhere_and_words_in_order() {
    let args: Vec<String> = vec!["fix".into(), "!4".into(), "@bug".into()];
    assert_eq!(parse_energy_and_desc(&args).unwrap(), (Some(4), "fix @bug".to_string()));
}

#[test]
fn metadata_stops_at_first_plain_word() {
    let args: Vec<String> = vec!["#a".into(), "@p".into(), "!2".into(), "notes".into(), "#b".into()];
    let (project, tags, energy, desc) = parse_start_args(&args).unwrap();
    assert_eq!(project, "p");
    assert_eq!(tags, vec!["a".to_string()]);
    assert_eq!(energy, Some(2));
    assert_eq!(desc, "notes #b");
    assert!(parse_start_args(&["@p".into(), "!2".into(), "!3".into()]).is_err());
}

#[test]
fn at_time_error_gives_chrono_reason() {
    assert_eq!(parse_time_or(Some("9h"), 0).unwrap_err(), "invalid time '9h': input contains invalid characters");
}
