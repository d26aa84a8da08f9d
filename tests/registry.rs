use plugin_manager::{
    is_script_file, EditableFields, PluginEntry, PluginRegistry, PluginState, ValidationError,
};

#[test]
fn add_rejects_empty_and_duplicate() {
    let mut reg = PluginRegistry::new();
    assert_eq!(reg.add("", "foo").unwrap_err(), ValidationError::EmptyName);
    assert_eq!(reg.add("foo", "").unwrap_err(), ValidationError::EmptyScript);
    assert_eq!(reg.add("   ", " \t").unwrap_err(), ValidationError::EmptyName);
    assert!(reg.add("dup", "x").is_ok());
    assert_eq!(reg.add("dup", "x").unwrap_err(), ValidationError::DuplicateName);
    assert_eq!(reg.add("  dup ", "y").unwrap_err(), ValidationError::DuplicateName);
    assert_eq!(reg.len(), 1);
}

#[test]
fn add_trims_and_defaults() {
    let mut reg = PluginRegistry::new();
    let p = reg.add("  aim \t", " aim_plugin ").unwrap();
    assert_eq!(p.name, "aim");
    assert_eq!(p.script, "aim_plugin");
    assert_eq!(p.state, PluginState::Enabled);
    assert_eq!(p.adminlevel, 0);
    assert_eq!(p.concommandns, "");
    assert!(reg.contains_key("aim"));
    assert!(!reg.contains_key("  aim \t"));
}

#[test]
fn add_plugin_validates() {
    assert_eq!(PluginEntry::add_plugin(" ", "s").unwrap_err(), ValidationError::EmptyName);
    assert_eq!(PluginEntry::add_plugin("n", "\n").unwrap_err(), ValidationError::EmptyScript);
    let p = PluginEntry::add_plugin(" n ", " s ").unwrap();
    assert_eq!((p.name.as_str(), p.script.as_str()), ("n", "s"));
}

#[test]
fn toggle_flips_and_keeps_removed() {
    let mut p = PluginEntry::new("a", "b");
    p.toggle_state();
    assert_eq!(p.state, PluginState::Disabled);
    p.toggle_state();
    assert_eq!(p.state, PluginState::Enabled);
    p.state = PluginState::Removed;
    p.toggle_state();
    assert_eq!(p.state, PluginState::Removed);
}

#[test]
fn registry_toggle_missing_is_noop() {
    let mut reg = PluginRegistry::new();
    assert!(!reg.toggle_state("none"));
    assert!(reg.add("a", "b").is_ok());
    assert!(reg.toggle_state("a"));
    assert_eq!(reg.get("a").unwrap().state, PluginState::Disabled);
}

#[test]
fn remove_reports_presence() {
    let mut reg = PluginRegistry::new();
    assert!(reg.add("a", "b").is_ok());
    assert!(!reg.remove("z"));
    assert!(reg.remove("a"));
    assert!(!reg.remove("a"));
    assert_eq!(reg.len(), 0);
}

#[test]
fn update_fields_overwrites_editable() {
    let mut reg = PluginRegistry::new();
    assert!(reg.add("a", "b").is_ok());
    let f = EditableFields {
        script: "s2".to_string(),
        concommandns: "ns".to_string(),
        adminlevel: 1,
        maps_included: "m1".to_string(),
        maps_excluded: "m2".to_string(),
    };
    assert!(reg.update_fields("a", f.clone()));
    let p = reg.get("a").unwrap();
    assert_eq!(p.name, "a");
    assert_eq!(p.script, "s2");
    assert_eq!(p.concommandns, "ns");
    assert_eq!(p.adminlevel, 1);
    assert_eq!(p.maps_included, "m1");
    assert_eq!(p.maps_excluded, "m2");
    assert!(!reg.update_fields("zz", f));
}

#[test]
fn list_sorted_ignores_ascii_case() {
    let mut reg = PluginRegistry::new();
    for n in ["bravo", "Alpha", "charlie", "ALPHA2", "Bravo1"] {
        assert!(reg.add(n, "s").is_ok());
    }
    let names: Vec<String> = reg.list_sorted().into_iter().map(|p| p.name).collect();
    assert_eq!(names, vec!["Alpha", "ALPHA2", "bravo", "Bravo1", "charlie"]);
}

#[test]
fn list_sorted_empty() {
    assert!(PluginRegistry::new().list_sorted().is_empty());
}

#[test]
fn merge_later_wins() {
    let mut a = plugin_manager::load_plugins(
        "\"plugin\"\n{\n\"name\" \"x\"\n\"script\" \"one\"\n}\n",
        PluginState::Enabled,
    );
    let b = plugin_manager::load_plugins(
        "\"plugin\"\n{\n\"name\" \"x\"\n\"script\" \"two\"\n}\n\"plugin\"\n{\n\"name\" \"y\"\n\"script\" \"y\"\n}\n",
        PluginState::Disabled,
    );
    a.merge(&b);
    assert_eq!(a.len(), 2);
    assert_eq!(a.get("x").unwrap().script, "two");
    assert_eq!(a.get("x").unwrap().state, PluginState::Disabled);
}

#[test]
fn well_formed_needs_non_blank_fields() {
    assert!(PluginEntry::new("a", "b").is_well_formed());
    assert!(!PluginEntry::new(" ", "b").is_well_formed());
    assert!(!PluginEntry::new("a", "\t").is_well_formed());
}

#[test]
fn script_file_extension() {
    assert!(is_script_file("aim.as"));
    assert!(!is_script_file("aim.as.txt"));
    assert!(!is_script_file("as"));
    assert!(is_script_file(".as"));
}

#[test]
fn positional_access_follows_storage_order() {
    let mut reg = PluginRegistry::new();
    assert!(reg.add("first", "a").is_ok());
    assert!(reg.add("second", "b").is_ok());
    assert_eq!(reg.find("second"), Some(1));
    assert_eq!(reg.find("third"), None);
    assert_eq!(reg.key_at(0), "first");
    assert_eq!(reg.plugin_at(1).script, "b");
}
