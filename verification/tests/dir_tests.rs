use fan_control::config::Config;
use fan_control::dir_manager::{add_toml_extension, comparable_texts, config_name_of, remove_toml_extension, ConfigError, ConfigNames, DirManager};
use fan_control::directories;
use fan_control::settings::{Settings, SettingsState};

fn names(v: &[&str]) -> Vec<String> {
    v.iter().map(|s| s.to_string()).collect()
}

#[test]
fn toml_extension_added_once() {
    assert_eq!(add_toml_extension("cfg"), "cfg.toml");
    assert_eq!(add_toml_extension("cfg.toml"), "cfg.toml");
    assert_eq!(remove_toml_extension("cfg.toml"), "cfg");
    assert_eq!(remove_toml_extension("cfg"), "cfg");
    assert_eq!(remove_toml_extension(".toml"), "");
    assert_eq!(directories::add_toml_ext("a"), "a.toml");
    assert_eq!(directories::remove_toml_ext("a.toml.toml"), "a.toml");
}

#[test]
fn names_are_sorted_naturally() {
    let c = ConfigNames::from_names(names(&["b10", "a", "b9"]));
    assert_eq!(c.data, names(&["a", "b9", "b10"]));
    let d = ConfigNames::from_names(names(&["B", "a"]));
    assert_eq!(d.data, names(&["a", "B"]));
}

#[test]
fn add_inserts_where_the_search_stops() {
    let mut c = ConfigNames::from_names(names(&["b10", "a", "b9"]));
    c.add("b2.toml");
    assert_eq!(c.data, names(&["a", "b9", "b10", "b2"]));
    let mut e = ConfigNames::from_names(Vec::new());
    e.add("x");
    assert_eq!(e.data, names(&["x"]));
}

#[test]
fn remove_takes_the_first_match() {
    let mut c = ConfigNames::from_names(names(&["a", "b", "c"]));
    c.remove("b.toml");
    assert_eq!(c.data, names(&["a", "c"]));
    c.remove("zz");
    assert_eq!(c.data, names(&["a", "c"]));
}

#[test]
fn names_lookups() {
    let c = ConfigNames::from_names(names(&["a", "b"]));
    assert!(c.contains("a.toml"));
    assert!(!c.contains("z"));
    assert_eq!(c.index_of("b"), Some(1));
    assert_eq!(c.index_of("z"), None);
    assert_eq!(c.names().len(), 2);
    assert!(!c.is_empty());
    assert!(ConfigNames::from_names(Vec::new()).is_empty());
}

#[test]
fn create_refuses_blank_and_taken_names() {
    let c = ConfigNames::from_names(names(&["a"]));
    assert!(!c.is_valid_create(" x"));
    assert!(!c.is_valid_create("x "));
    assert!(!c.is_valid_create(""));
    assert!(!c.is_valid_create("a"));
    assert!(!c.is_valid_create("a.toml"));
    assert!(c.is_valid_create("new"));
}

#[test]
fn rename_allows_the_same_name() {
    let c = ConfigNames::from_names(names(&["a", "b"]));
    assert!(c.is_valid_name(&Some("a".to_string()), "a.toml"));
    assert!(!c.is_valid_name(&None, "a"));
    assert!(!c.is_valid_name(&Some("b".to_string()), "a"));
    assert!(c.is_valid_name(&None, "c"));
    assert!(!c.is_valid_name(&None, "c "));
}

fn manager() -> DirManager {
    DirManager::new(
        "/conf".to_string(),
        "/state".to_string(),
        ConfigNames::from_names(names(&["a"])),
        Settings::default(),
        SettingsState::default(),
    )
}

#[test]
fn change_config_records_the_loaded_one() {
    let mut m = manager();
    let r = m.change_config(Some("a".into()), Some(Ok(Config::default())));
    assert_eq!(r.unwrap().unwrap().0, "a");
    assert_eq!(m.settings().current_config, Some("a".to_string()));
    let r = m.change_config(Some("b".into()), Some(Err(ConfigError::Io("gone".into()))));
    assert!(matches!(r, Err(ConfigError::Io(_))));
    assert_eq!(m.settings().current_config, Some("a".to_string()));
    let r = m.change_config(None, None);
    assert!(r.unwrap().is_none());
    assert_eq!(m.settings().current_config, None);
}

#[test]
fn create_config_adds_the_name() {
    let mut m = manager();
    let r = m.create_config("new.toml", Err(ConfigError::TomlSerialization("bad".into())));
    assert!(matches!(r, Err(ConfigError::TomlSerialization(_))));
    assert_eq!(m.config_names.data, names(&["a"]));
    assert!(m.create_config("new", Ok(())).is_ok());
    assert!(m.config_names.contains("new"));
    assert_eq!(m.settings().current_config, Some("new".to_string()));
    assert!(m.state().show_flatpak_dialog);
}

#[test]
fn listed_names_keep_a_none_entry() {
    let mut c = directories::ConfigNames::new("None".into(), names(&["x", "y"]));
    assert_eq!(c.index(), 0);
    assert!(c.get_current().is_none());
    assert!(c.is_empty());
    assert_eq!(c.names().to_vec(), names(&["x", "y"]));
    c.set_index("y");
    assert_eq!(c.index(), 2);
    assert_eq!(c.get_current().unwrap(), "y");
    assert_eq!(c.get(1).unwrap(), "x");
    assert!(c.get(0).is_none());
    assert_eq!(c.index_of("x"), Some(1));
    assert!(c.contains("x.toml"));
    let removed = c.remove_current();
    assert_eq!(removed, "y");
    assert_eq!(c.index(), 0);
    c.add("w.toml");
    assert_eq!(c.get_current().unwrap(), "w");
    assert_eq!(c.data.len(), 3);
    let r = c.remove(1);
    assert_eq!(c.data.len(), 2);
    assert!(r == "x" || r == "w");
}

#[test]
fn directory_paths() {
    let m = directories::DirManager {
        config_dir_path: "/conf".into(),
        config_names: directories::ConfigNames::new("None".into(), names(&["a"])),
        settings: Settings::default(),
    };
    assert_eq!(m.settings_file_path(), "/conf/settings.toml");
    assert_eq!(m.hardware_file_path(), "/conf/hardware.toml");
    assert_eq!(m.config_file_path("a"), "/conf/a.toml");
    assert_eq!(directories::join_path("/conf/", "x"), "/conf/x");
    assert_eq!(directories::join_path("", "x"), "x");
}

#[test]
fn directory_change_and_create() {
    let mut m = directories::DirManager {
        config_dir_path: "/conf".into(),
        config_names: directories::ConfigNames::new("None".into(), names(&["a"])),
        settings: Settings::default(),
    };
    let r = m.change_config(1, Some(Ok(Config::default())));
    assert_eq!(r.unwrap().unwrap().0, "a");
    assert_eq!(m.settings.current_config, Some("a".to_string()));
    let r = m.change_config(0, None);
    assert!(r.unwrap().is_none());
    assert_eq!(m.settings.current_config, None);
    assert!(m.create_config("z", Err("disk".into())).is_err());
    assert!(m.create_config("z", Ok(())).is_ok());
    assert_eq!(m.settings.current_config, Some("z".to_string()));
    assert_eq!(m.config_names.index(), 0);
    assert_eq!(m.config_names.data, names(&["z", "None", "a"]));
}

#[test]
fn added_name_found_then_gone_after_removal() {
    let mut c = ConfigNames::from_names(names(&["fan2", "fan10"]));
    assert!(!c.contains("fan3"));
    c.add("fan3.toml");
    assert!(c.contains("fan3"));
    assert!(c.contains("fan10"));
    assert_eq!(c.names().len(), 3);
    c.remove("fan3");
    assert!(!c.contains("fan3.toml"));
    assert!(c.contains("fan2") && c.contains("fan10"));
}

#[test]
fn non_ascii_names_compare() {
    assert!(comparable_texts("Température", "fan2"));
    assert!(comparable_texts("fan12345678901234567890", "fan2"));
    assert!(comparable_texts("fan12345678901234567890", "fan12345678901234567890"));
    assert!(comparable_texts("fan00000000000000000000001", "fan00000000000000000000002"));
    assert!(!comparable_texts("fan99999999999999999999", "fan99999999999999999999"));
    assert!(comparable_texts("fan1", "fan1844674407370955161600"));
    assert!(comparable_texts("fan18446744073709551615", "fan18446744073709551615"));
    assert!(!comparable_texts("fan18446744073709551616", "fan00000000000000000000"));
    assert!(comparable_texts("fan99999999999999999999", "fan1"));
    let c = ConfigNames::checked_from_names(names(&["Température", "fan2", "fan10"])).unwrap();
    assert_eq!(c.names().len(), 3);
    assert!(ConfigNames::checked_from_names(names(&["a99999999999999999999"])).is_some());
    assert!(ConfigNames::checked_from_names(names(&["a99999999999999999999", "b"])).is_some());
    assert!(ConfigNames::checked_from_names(names(&["a99999999999999999999", "b99999999999999999999"])).is_none());
    let mut c = c;
    assert!(c.checked_add("b.toml"));
    assert!(c.contains("b"));
    let mut d = ConfigNames::checked_from_names(names(&["fan99999999999999999999"])).unwrap();
    assert!(!d.checked_add("fan99999999999999999998"));
    assert!(!d.contains("fan99999999999999999998"));
    assert!(d.checked_add("fan2.toml"));
    assert_eq!(d.names().len(), 2);
}

#[test]
fn config_files_name_configurations() {
    assert_eq!(config_name_of("settings.toml"), None);
    assert_eq!(config_name_of("hardware.toml"), None);
    assert_eq!(config_name_of("fan2.toml"), Some("fan2".to_string()));
    assert_eq!(config_name_of("notes"), Some("notes".to_string()));
    assert_eq!(config_name_of("Settings.toml"), Some("Settings".to_string()));
}

#[test]
fn save_and_remove_config_bookkeeping() {
    let mut dm = manager();
    assert!(matches!(dm.checked_save_config("x", Ok(())), Some(Err(ConfigError::NoName))));
    dm.settings.current_config = Some("a".to_string());
    let r = dm.checked_save_config("b.toml", Ok(()));
    assert!(matches!(r, Some(Ok(()))));
    assert!(dm.config_names.contains("b"));
    assert!(!dm.config_names.contains("a"));
    assert_eq!(dm.settings.current_config.as_deref(), Some("b.toml"));
    let r = dm.checked_save_config("c", Err(ConfigError::NoName));
    assert!(matches!(r, Some(Err(ConfigError::NoName))));
    assert!(dm.config_names.contains("b"));
    assert!(!dm.remove_config("zzz"));
    assert!(dm.remove_config("b.toml"));
    assert!(!dm.config_names.contains("b"));
    assert!(dm.settings.current_config.is_none());
}

#[test]
fn config_names_from_directory_files() {
    let files = vec![
        ("fan10.toml".to_string(), true),
        ("settings.toml".to_string(), true),
        ("broken.toml".to_string(), false),
        ("hardware.toml".to_string(), true),
        ("fan2.toml".to_string(), true),
        ("notes".to_string(), true),
    ];
    let c = ConfigNames::from_files(files).unwrap();
    assert_eq!(c.names(), &vec!["fan2".to_string(), "fan10".to_string(), "notes".to_string()]);
    let files = vec![("a99999999999999999999.toml".to_string(), true), ("b99999999999999999999".to_string(), true)];
    assert!(ConfigNames::from_files(files).is_none());
    assert!(ConfigNames::from_files(Vec::new()).unwrap().names().is_empty());
}

#[test]
fn save_config_compares_only_with_the_other_names() {
    let mut dm = DirManager::new(
        "/conf".to_string(),
        "/state".to_string(),
        ConfigNames::from_names(names(&["a99999999999999999999", "c"])),
        Settings::default(),
        SettingsState::default(),
    );
    dm.settings.current_config = Some("a99999999999999999999".to_string());
    let r = dm.checked_save_config("b99999999999999999999", Ok(()));
    assert!(matches!(r, Some(Ok(()))));
    assert!(dm.config_names.contains("b99999999999999999999"));
    assert!(!dm.config_names.contains("a99999999999999999999"));
    dm.settings.current_config = Some("c".to_string());
    assert!(dm.checked_save_config("d99999999999999999999", Ok(())).is_none());
    assert!(dm.config_names.contains("c"));
}

#[test]
fn dir_manager_from_directory_files() {
    let files = vec![
        ("fan10.toml".to_string(), true),
        ("settings.toml".to_string(), true),
        ("fan2.toml".to_string(), true),
        ("broken.toml".to_string(), false),
    ];
    let dm = DirManager::from_directory(
        "/conf".to_string(),
        "/state".to_string(),
        files.clone(),
        Settings::default(),
        SettingsState::default(),
        &Some("fan2.toml".to_string()),
    )
    .unwrap();
    assert_eq!(dm.config_names.names(), &vec!["fan2".to_string(), "fan10".to_string()]);
    assert_eq!(dm.settings().current_config.as_deref(), Some("fan2"));
    assert_eq!(dm.config_dir_path, "/conf");
    let dm = DirManager::from_directory(
        "/conf".to_string(),
        "/state".to_string(),
        files.clone(),
        Settings::default(),
        SettingsState::default(),
        &Some("broken".to_string()),
    )
    .unwrap();
    assert_eq!(dm.settings().current_config, None);
    let mut settings = Settings::default();
    settings.current_config = Some("fan10".to_string());
    let dm = DirManager::from_directory("/c".to_string(), "/s".to_string(), files, settings, SettingsState::default(), &None)
        .unwrap();
    assert_eq!(dm.settings().current_config.as_deref(), Some("fan10"));
}
