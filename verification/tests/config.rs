use teum::config::{config_path, Config, Env, Preset};

fn preset(project: &str, tags: &[&str]) -> Preset {
    Preset { project: project.to_string(), tags: tags.iter().map(|t| t.to_string()).collect() }
}

fn env() -> Env {
    Env { home: Some("/home/u".into()), xdg_config_home: None, xdg_data_home: None }
}

#[test]
fn parse_config() {
    // A configuration as the TOML file would give it, built field by field.
    let mut config = Config::default();
    config.data_dir = Some("~/my-data/teum".into());
    config.sync = Some("git".into());
    config.auto_commit = Some(true);
    config.auto_push = Some(false);
    config.presets.push(("dev".into(), preset("work", &["coding"])));
    config.presets.push(("oss".into(), preset("side-project", &[])));
    config.report_groups.push(("billable".into(), vec!["work".into(), "consulting".into()]));
    assert_eq!(config.data_dir, Some("~/my-data/teum".into()));
    assert_eq!(config.sync, Some("git".into()));
    assert_eq!(config.auto_commit, Some(true));
    assert_eq!(config.auto_push, Some(false));
    assert_eq!(config.presets.len(), 2);
    let dev = config.resolve_preset("dev").unwrap();
    assert_eq!(dev.project, "work");
    assert_eq!(dev.tags, vec!["coding"]);
    assert_eq!(config.report_group("billable").unwrap(), &vec!["work".to_string(), "consulting".to_string()]);
    assert!(config.validate().is_ok());
    assert_eq!(config.data_dir(&env()).unwrap(), "/home/u/my-data/teum");
}

#[test]
fn highlight_tags_default_and_override() {
    let config = Config::default();
    assert_eq!(config.highlight_tags(), vec!["highlight".to_string()]);

    let mut config = Config::default();
    config.highlight_tags = Some(vec!["deep".into(), "improving".into()]);
    config.validate().unwrap();
    assert_eq!(config.highlight_tags(), vec!["deep".to_string(), "improving".to_string()]);

    let mut config = Config::default();
    config.highlight_tags = Some(vec!["Bad Tag".into()]);
    assert!(config.validate().is_err());
}

#[test]
fn empty_config() {
    let config = Config::default();
    assert!(config.data_dir.is_none());
    assert!(config.presets.is_empty());
}

#[test]
fn preset_resolution() {
    let mut config = Config::default();
    config.presets.push(("dev".into(), preset("work", &["coding"])));
    config.presets.push(("design".into(), preset("work", &["design"])));
    // Exact match
    let p = config.resolve_preset("dev").unwrap();
    assert_eq!(p.project, "work");
    assert_eq!(p.tags, vec!["coding"]);
    // Prefix match (unique)
    let p = config.resolve_preset("des").unwrap();
    assert_eq!(p.tags, vec!["design"]);
    // Ambiguous prefix
    assert!(config.resolve_preset("de").unwrap_err().contains("ambiguous"));
    // No match
    assert!(config.resolve_preset("nonexistent").is_err());
}

#[test]
fn validation_rejects_unknown_sync_and_invalid_preset_names() {
    let mut config = Config::default();
    config.sync = Some("cloud".into());
    assert!(config.validate().is_err());

    let mut config = Config::default();
    config.presets.push(("bad".into(), preset("Private_Project", &[])));
    assert!(config.validate().is_err());
}

#[test]
fn ambiguous_preset_lists_candidates_in_order() {
    let mut config = Config::default();
    config.presets.push(("design".into(), preset("work", &[])));
    config.presets.push(("dev".into(), preset("work", &[])));
    assert_eq!(config.resolve_preset("d").unwrap_err(), "ambiguous preset 'd': matches design, dev");
    assert_eq!(config.resolve_preset("x").unwrap_err(), "unknown preset 'x'");
}

#[test]
fn paths_follow_xdg_and_home() {
    let config = Config::default();
    assert_eq!(config.data_dir(&env()).unwrap(), "/home/u/.local/share/teum");
    assert_eq!(config_path(&env()).unwrap(), "/home/u/.config/teum/config.toml");
    assert_eq!(config.state_path(&env()).unwrap(), "/home/u/.config/teum/current.json");
    let xdg = Env { home: None, xdg_config_home: Some("/x/cfg".into()), xdg_data_home: Some("/x/data".into()) };
    assert_eq!(config.data_dir(&xdg).unwrap(), "/x/data/teum");
    assert_eq!(config.report_path(&xdg).unwrap(), "/x/cfg/teum/report.html");
    let nowhere = Env { home: None, xdg_config_home: None, xdg_data_home: None };
    assert!(config.data_dir(&nowhere).is_err());
}
