use plugin_manager::config::{settings_file_name, settings_temp_name};
use plugin_manager::resolver::{first_step, is_game_executable, is_skipped_entry, names_match, volume_roots};
use plugin_manager::{next_action, settings_root, Config, ResolveAction, ResolveEvent, ResolveStep, SettingsRoot};

#[test]
fn stored_directory_used_without_scan() {
    assert_eq!(first_step(), ResolveStep::ReadConfig);
    let action = next_action(ResolveEvent::ConfigRead(Some("Z:/gone/svencoop".to_string())));
    assert_eq!(action, ResolveAction::UseStored("Z:/gone/svencoop".to_string()));
}

#[test]
fn nothing_found_is_not_found() {
    let mut action = next_action(ResolveEvent::ConfigRead(None));
    assert_eq!(action, ResolveAction::Probe(ResolveStep::ProbeWorkingDir));
    action = next_action(ResolveEvent::WorkingDirProbed { dir: "C:/work".to_string(), has_marker: false });
    assert_eq!(action, ResolveAction::Probe(ResolveStep::ScanVolumes));
    action = next_action(ResolveEvent::VolumesScanned { target: None, target_exists: false });
    assert_eq!(action, ResolveAction::Probe(ResolveStep::ProbeProgramDir));
    action = next_action(ResolveEvent::ProgramDirProbed { dir: "C:/bin".to_string(), has_marker: false });
    assert_eq!(action, ResolveAction::NotFound);
}

#[test]
fn working_directory_with_marker_wins() {
    let action = next_action(ResolveEvent::WorkingDirProbed { dir: "C:/game/svencoop".to_string(), has_marker: true });
    assert_eq!(action, ResolveAction::UseDiscovered("C:/game/svencoop".to_string()));
}

#[test]
fn scan_hit_needs_existing_target() {
    let hit = next_action(ResolveEvent::VolumesScanned { target: Some("D:/sc/svencoop".to_string()), target_exists: true });
    assert_eq!(hit, ResolveAction::UseDiscovered("D:/sc/svencoop".to_string()));
    let gone = next_action(ResolveEvent::VolumesScanned { target: Some("D:/sc/svencoop".to_string()), target_exists: false });
    assert_eq!(gone, ResolveAction::Probe(ResolveStep::ProbeProgramDir));
    let own = next_action(ResolveEvent::ProgramDirProbed { dir: "E:/x".to_string(), has_marker: true });
    assert_eq!(own, ResolveAction::UseDiscovered("E:/x".to_string()));
}

#[test]
fn scan_name_tests_ignore_ascii_case() {
    assert!(is_game_executable("SvenCoop.EXE"));
    assert!(!is_game_executable("svencoop.ex"));
    assert!(is_skipped_entry("$RECYCLE.BIN"));
    assert!(!is_skipped_entry("Recycle.Bin"));
    assert!(names_match("abc", "ABC"));
    assert!(!names_match("abc", "abd"));
    assert!(!names_match("\u{e9}", "\u{c9}"));
}

#[test]
fn volume_roots_in_order() {
    assert_eq!(volume_roots(), vec!["A:/", "B:/", "C:/", "D:/", "E:/", "F:/"]);
}

#[test]
fn settings_location() {
    assert_eq!(settings_root(Some("L".to_string()), Some("R".to_string())), SettingsRoot::Local("L".to_string()));
    assert_eq!(settings_root(None, Some("R".to_string())), SettingsRoot::Roaming("R".to_string()));
    assert_eq!(settings_root(None, None), SettingsRoot::WorkingDir);
    assert_eq!(settings_file_name("app"), "app.toml");
    assert_eq!(settings_temp_name("app"), "app.toml.tmp");
}

#[test]
fn config_default_is_empty() {
    assert!(Config::default().svencoopdir.is_none());
    assert_eq!(Config::with_dir("d".to_string()).svencoopdir.as_deref(), Some("d"));
}
