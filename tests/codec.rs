use plugin_manager::{
    load_plugins, serialize_plugins, EditableFields, PluginEntry, PluginRegistry, PluginState,
};

fn block(name: &str, script: &str, level: &str) -> String {
    format!(
        "\n        \"plugin\"\n        {{\n            \"name\" \"{}\"\n            \"script\" \"{}\"\n            \"concommandns\" \"\"\n            \"adminlevel\" \"{}\"\n            \"maps_included\" \"\"\n            \"maps_excluded\" \"\"\n        }}\n        ",
        name, script, level
    )
}

#[test]
fn parses_minimal_block() {
    let text = "\"plugin\"\n{\n\"name\" \"aim\"\n\"script\" \"aim_plugin\"\n}";
    let reg = load_plugins(text, PluginState::Enabled);
    assert_eq!(reg.len(), 1);
    let p = reg.get("aim").expect("record under its name");
    assert_eq!(p.name, "aim");
    assert_eq!(p.script, "aim_plugin");
    assert_eq!(p.adminlevel, 0);
    assert_eq!(p.state, PluginState::Enabled);
    assert_eq!(p.concommandns, "");
    assert_eq!(p.maps_included, "");
    assert_eq!(p.maps_excluded, "");
}

#[test]
fn serializes_by_state() {
    let mut reg = PluginRegistry::new();
    assert!(reg.add("aim", "aim_plugin").is_ok());
    assert!(reg.add("bhop", "bhop_plugin").is_ok());
    assert!(reg.toggle_state("bhop"));
    let enabled = serialize_plugins(&reg, PluginState::Enabled);
    let disabled = serialize_plugins(&reg, PluginState::Disabled);
    assert_eq!(enabled, format!("\"plugins\"\n{{\n{}}}\n", block("aim", "aim_plugin", "0")));
    assert_eq!(
        disabled,
        format!("\"disabled_plugins\"\n{{\n{}}}\n", block("bhop", "bhop_plugin", "0"))
    );
}

#[test]
fn empty_registry_serializes_to_envelope() {
    let reg = PluginRegistry::new();
    assert_eq!(serialize_plugins(&reg, PluginState::Enabled), "\"plugins\"\n{\n}\n");
    assert_eq!(serialize_plugins(&reg, PluginState::Disabled), "\"disabled_plugins\"\n{\n}\n");
}

#[test]
fn round_trip_keeps_records() {
    let mut reg = PluginRegistry::new();
    assert!(reg.add("aim", "aim_plugin").is_ok());
    assert!(reg.add("Zeta", "zeta").is_ok());
    assert!(reg.add("off", "off_script").is_ok());
    assert!(reg.toggle_state("off"));
    let fields = EditableFields {
        script: "aim_v2".to_string(),
        concommandns: "aimns".to_string(),
        adminlevel: 2,
        maps_included: "map1 map2".to_string(),
        maps_excluded: "map3".to_string(),
    };
    assert!(reg.update_fields("aim", fields));
    let text = serialize_plugins(&reg, PluginState::Enabled);
    let back = load_plugins(&text, PluginState::Enabled);
    assert_eq!(back.len(), 2);
    let aim = back.get("aim").unwrap();
    assert_eq!(aim.script, "aim_v2");
    assert_eq!(aim.concommandns, "aimns");
    assert_eq!(aim.adminlevel, 2);
    assert_eq!(aim.maps_included, "map1 map2");
    assert_eq!(aim.maps_excluded, "map3");
    assert_eq!(back.get("Zeta").unwrap().script, "zeta");
    assert!(back.get("off").is_none());
    assert_eq!(serialize_plugins(&back, PluginState::Enabled), text);
}

#[test]
fn saving_twice_is_identical() {
    let mut reg = PluginRegistry::new();
    assert!(reg.add("aim", "aim_plugin").is_ok());
    assert!(reg.add("bhop", "bhop_plugin").is_ok());
    let first = serialize_plugins(&reg, PluginState::Enabled);
    let second = serialize_plugins(&reg, PluginState::Enabled);
    assert_eq!(first, second);
    assert_eq!(
        serialize_plugins(&reg, PluginState::Disabled),
        serialize_plugins(&reg, PluginState::Disabled)
    );
}

fn level_of(value: &str) -> i8 {
    let text = format!("\"plugin\"\n{{\n\"name\" \"x\"\n\"adminlevel\" \"{}\"\n}}\n", value);
    load_plugins(&text, PluginState::Enabled).get("x").unwrap().adminlevel
}

#[test]
fn admin_level_defaults_to_zero() {
    assert_eq!(level_of("abc"), 0);
    assert_eq!(level_of(""), 0);
    assert_eq!(level_of("5"), 0);
    assert_eq!(level_of("300"), 0);
    assert_eq!(level_of("-2"), 0);
    assert_eq!(level_of("1.5"), 0);
    assert_eq!(level_of(" 1"), 0);
    assert_eq!(level_of("+"), 0);
}

#[test]
fn admin_level_reads_domain_values() {
    assert_eq!(level_of("0"), 0);
    assert_eq!(level_of("1"), 1);
    assert_eq!(level_of("2"), 2);
    assert_eq!(level_of("-1"), -1);
    assert_eq!(level_of("+1"), 1);
    assert_eq!(level_of("002"), 2);
}

#[test]
fn admin_level_missing_value_is_zero() {
    let text = "\"plugin\"\n{\n\"name\" \"x\"\n\"adminlevel\"\n}\n";
    assert_eq!(load_plugins(text, PluginState::Enabled).get("x").unwrap().adminlevel, 0);
}

#[test]
fn unnamed_blocks_kept_and_not_written() {
    let text = "\"plugin\"\n{\n\"script\" \"a\"\n}\n\"plugin\"\n{\n\"script\" \"b\"\n}\n\"plugin\"\n{\n\"name\" \"c\"\n\"script\" \"c\"\n}\n";
    let reg = load_plugins(text, PluginState::Enabled);
    assert_eq!(reg.len(), 3);
    let first = reg.get("\"unnamed 0\"").unwrap();
    let second = reg.get("\"unnamed 1\"").unwrap();
    assert_eq!(first.name, "");
    assert_eq!(first.script, "a");
    assert_eq!(second.script, "b");
    assert!(!first.is_well_formed());
    assert_eq!(
        serialize_plugins(&reg, PluginState::Enabled),
        format!("\"plugins\"\n{{\n{}}}\n", block("c", "c", "0"))
    );
}

#[test]
fn later_block_replaces_earlier() {
    let text = "\"plugin\"\n{\n\"name\" \"a\"\n\"script\" \"one\"\n}\n\"plugin\"\n{\n\"name\" \"a\"\n\"script\" \"two\"\n}\n";
    let reg = load_plugins(text, PluginState::Disabled);
    assert_eq!(reg.len(), 1);
    assert_eq!(reg.get("a").unwrap().script, "two");
    assert_eq!(reg.get("a").unwrap().state, PluginState::Disabled);
}

#[test]
fn parses_indented_file_with_crlf_and_unknown_keys() {
    let text = "\"plugins\"\r\n{\r\n    \"plugin\"\r\n    {\r\n        \"name\" \"aim\"\r\n        \"colour\" \"red\"\r\n        \"script\" \"aim_plugin\"\r\n        \"maps_excluded\" \"de_dust\"\r\n    }\r\n}\r\n";
    let reg = load_plugins(text, PluginState::Enabled);
    assert_eq!(reg.len(), 1);
    let p = reg.get("aim").unwrap();
    assert_eq!(p.script, "aim_plugin");
    assert_eq!(p.maps_excluded, "de_dust");
}

#[test]
fn unterminated_block_reads_to_end() {
    let text = "\"plugin\"\n{\n\"name\" \"x\"\n\"script\" \"y\"";
    let reg = load_plugins(text, PluginState::Enabled);
    assert_eq!(reg.get("x").unwrap().script, "y");
}

#[test]
fn empty_text_gives_empty_registry() {
    assert_eq!(load_plugins("", PluginState::Enabled).len(), 0);
}

#[test]
fn write_plugin_exact_block() {
    let mut p = PluginEntry::new("aim", "aim_plugin");
    p.adminlevel = -1;
    assert_eq!(p.write_plugin(), block("aim", "aim_plugin", "-1"));
    p.state = PluginState::Removed;
    assert_eq!(p.write_plugin(), "");
    let blank = PluginEntry::new("  ", "x");
    assert_eq!(blank.write_plugin(), "");
}
