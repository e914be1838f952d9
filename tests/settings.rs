use pgit::config::{get_config_value, merge_hashmaps, Config, ConfigEntry};
use pgit::init::initial_branch;

fn entry(section: &str, key: &str, value: Option<&str>) -> ConfigEntry {
    ConfigEntry {
        section: section.to_string(),
        key: key.to_string(),
        value: value.map(|v| v.to_string()),
    }
}

#[test]
fn merge_keeps_first_and_adds_missing() {
    let a = Config {
        entries: vec![entry("core", "bare", Some("false")), entry("user", "name", Some("A"))],
    };
    let b = Config {
        entries: vec![
            entry("user", "name", Some("B")),
            entry("user", "email", Some("b@x")),
            entry("init", "defaultbranch", Some("main")),
        ],
    };
    let m = merge_hashmaps(a, b);
    assert_eq!(
        m.entries,
        vec![
            entry("core", "bare", Some("false")),
            entry("user", "name", Some("A")),
            entry("user", "email", Some("b@x")),
            entry("init", "defaultbranch", Some("main")),
        ]
    );
}

#[test]
fn merge_with_empty() {
    let a = Config { entries: vec![] };
    let b = Config { entries: vec![entry("s", "k", None)] };
    assert_eq!(merge_hashmaps(a, b).entries, vec![entry("s", "k", None)]);
}

#[test]
fn config_value_lookup() {
    let c = Config {
        entries: vec![
            entry("init", "defaultbranch", Some("main")),
            entry("core", "editor", None),
            entry("init", "defaultbranch", Some("later")),
        ],
    };
    assert_eq!(get_config_value("init.defaultbranch".to_string(), &c), "main");
    assert_eq!(get_config_value("core.editor".to_string(), &c), "");
    assert_eq!(get_config_value("core.pager".to_string(), &c), "");
    assert_eq!(get_config_value("init".to_string(), &c), "");
    assert_eq!(get_config_value("init.defaultbranch.extra".to_string(), &c), "main");
}

#[test]
fn config_section_without_dot_matches_empty_key() {
    let c = Config { entries: vec![entry("solo", "", Some("v"))] };
    assert_eq!(get_config_value("solo".to_string(), &c), "v");
}

#[test]
fn duplicate_settings_are_not_well_formed() {
    let ok = Config { entries: vec![entry("a", "k", None), entry("a", "j", None), entry("b", "k", None)] };
    assert!(ok.well_formed());
    let dup = Config { entries: vec![entry("a", "k", None), entry("b", "k", None), entry("a", "k", Some("v"))] };
    assert!(!dup.well_formed());
    let merged = merge_hashmaps(ok, Config { entries: vec![entry("a", "k", Some("x")), entry("c", "z", None)] });
    assert!(merged.well_formed());
    assert_eq!(merged.entries.len(), 4);
}

#[test]
fn initial_branch_choice() {
    assert_eq!(initial_branch(Some("dev".to_string()), "main".to_string()), "dev");
    assert_eq!(initial_branch(None, "main".to_string()), "main");
    assert_eq!(initial_branch(None, String::new()), "master");
}
