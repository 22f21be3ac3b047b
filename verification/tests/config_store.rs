use mood::config::MoodConfig;
use mood::error::MoodError;
use mood::{get_config_file_path, get_default_journal_dir};

#[test]
fn default_config_points_into_the_config_dir() {
    let config = MoodConfig::default_in("/home/someone/.config/mood");
    assert_eq!(config.journal_path, "/home/someone/.config/mood/journal.ron");
}

#[test]
fn config_paths_are_derived_from_the_config_dir() {
    assert_eq!(get_config_file_path("/cfg/mood"), "/cfg/mood/config.ron");
    assert_eq!(get_default_journal_dir("/cfg/mood"), "/cfg/mood");
}

#[test]
fn config_serialize_exact_text() {
    let config = MoodConfig { journal_path: String::from("/tmp/j.ron") };
    assert_eq!(config.serialize(), "(journal_path:\"/tmp/j.ron\")");
}

#[test]
fn config_round_trip_preserves_the_path() {
    let config = MoodConfig {
        journal_path: String::from("/odd \"dir\"/with \\ backslash/journal.ron"),
    };
    let text = config.serialize();
    let back = MoodConfig::deserialize(&text).expect("a serialized config parses back");
    assert_eq!(back.journal_path, config.journal_path);
}

#[test]
fn config_deserialize_rejects_malformed_text() {
    let err = MoodConfig::deserialize("nope").unwrap_err();
    assert!(matches!(err, MoodError::ConfigFileError(_)));
    assert!(MoodConfig::deserialize("(journal_path:\"/a").is_err());
    assert!(MoodConfig::deserialize("(journal_path:\"/a\")x").is_err());
}

#[test]
fn config_init_defaults_or_parses() {
    let fresh = MoodConfig::init(None, "/cfg/mood").expect("no file means the default config");
    assert_eq!(fresh.journal_path, "/cfg/mood/journal.ron");

    let loaded = MoodConfig::init(Some("(journal_path:\"/elsewhere/j.ron\")"), "/cfg/mood")
        .expect("a well-formed file loads");
    assert_eq!(loaded.journal_path, "/elsewhere/j.ron");

    assert!(MoodConfig::init(Some("broken"), "/cfg/mood").is_err());
}

#[test]
fn update_journal_path_strips_trailing_newlines() {
    let mut config = MoodConfig { journal_path: String::from("/old.ron") };
    assert!(config.update_journal_path("/new/journal.ron\n\n"));
    assert_eq!(config.journal_path, "/new/journal.ron");
}

#[test]
fn update_journal_path_rejects_unusable_text() {
    let mut config = MoodConfig { journal_path: String::from("/old.ron") };
    assert!(!config.update_journal_path("\n"));
    assert_eq!(config.journal_path, "/old.ron");
    assert!(!config.update_journal_path("bad\0path"));
    assert_eq!(config.journal_path, "/old.ron");
}
