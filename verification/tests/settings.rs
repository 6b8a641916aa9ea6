use photo_gallery::settings::{
    clear_stored_folder, delete_setting, get_eyedropper_active, get_gallery_style,
    get_histogram_active, get_setting, get_show_hex, get_stored_folder, get_theme,
    set_eyedropper_active, set_gallery_style, set_histogram_active, set_setting, set_show_hex,
    set_theme, SettingValue, SettingsStore,
};

#[test]
fn set_then_get_returns_string_value() {
    let mut store = SettingsStore::new();
    set_setting(&mut store, "greeting", SettingValue::Text("hello".to_string()));
    assert_eq!(
        get_setting(&store, "greeting"),
        Some(&SettingValue::Text("hello".to_string()))
    );
}

#[test]
fn set_then_get_returns_bool_value() {
    let mut store = SettingsStore::new();
    set_setting(&mut store, "flag", SettingValue::Flag(true));
    assert_eq!(get_setting(&store, "flag"), Some(&SettingValue::Flag(true)));
    set_setting(&mut store, "flag", SettingValue::Flag(false));
    assert_eq!(get_setting(&store, "flag"), Some(&SettingValue::Flag(false)));
}

#[test]
fn delete_then_get_is_not_found() {
    let mut store = SettingsStore::new();
    set_setting(&mut store, "key", SettingValue::Text("value".to_string()));
    delete_setting(&mut store, "key");
    assert_eq!(get_setting(&store, "key"), None);
}

#[test]
fn delete_of_absent_key_is_harmless() {
    let mut store = SettingsStore::new();
    set_setting(&mut store, "kept", SettingValue::Flag(true));
    delete_setting(&mut store, "missing");
    assert_eq!(get_setting(&store, "kept"), Some(&SettingValue::Flag(true)));
    assert_eq!(get_setting(&store, "missing"), None);
}

#[test]
fn set_overwrites_previous_value() {
    let mut store = SettingsStore::new();
    set_setting(&mut store, "key", SettingValue::Text("old".to_string()));
    set_setting(&mut store, "key", SettingValue::Text("new".to_string()));
    assert_eq!(
        get_setting(&store, "key"),
        Some(&SettingValue::Text("new".to_string()))
    );
    assert_eq!(store.entries().len(), 1);
}

#[test]
fn theme_defaults_to_auto_then_reads_back() {
    let mut store = SettingsStore::new();
    assert_eq!(get_theme(&store), "auto");
    set_theme("dark".to_string(), &mut store);
    assert_eq!(get_theme(&store), "dark");
}

#[test]
fn theme_of_wrong_type_falls_back_to_auto() {
    let mut store = SettingsStore::new();
    set_setting(&mut store, "theme", SettingValue::Flag(true));
    assert_eq!(get_theme(&store), "auto");
}

#[test]
fn show_hex_defaults_to_true() {
    let mut store = SettingsStore::new();
    assert!(get_show_hex(&store));
    set_show_hex(false, &mut store);
    assert!(!get_show_hex(&store));
}

#[test]
fn eyedropper_defaults_to_false() {
    let mut store = SettingsStore::new();
    assert!(!get_eyedropper_active(&store));
    set_eyedropper_active(true, &mut store);
    assert!(get_eyedropper_active(&store));
}

#[test]
fn histogram_defaults_to_false() {
    let mut store = SettingsStore::new();
    assert!(!get_histogram_active(&store));
    set_histogram_active(true, &mut store);
    assert!(get_histogram_active(&store));
}

#[test]
fn gallery_style_defaults_to_default() {
    let mut store = SettingsStore::new();
    assert_eq!(get_gallery_style(&store), "default");
    set_gallery_style("grid".to_string(), &mut store);
    assert_eq!(get_gallery_style(&store), "grid");
}

#[test]
fn stored_folder_roundtrip_and_clear() {
    let mut store = SettingsStore::new();
    assert_eq!(get_stored_folder(&store), None);
    set_setting(
        &mut store,
        "selectedFolder",
        SettingValue::Text("/photos".to_string()),
    );
    assert_eq!(get_stored_folder(&store), Some("/photos".to_string()));
    clear_stored_folder(&mut store);
    assert_eq!(get_stored_folder(&store), None);
}

#[test]
fn stored_folder_of_wrong_type_reads_as_none() {
    let mut store = SettingsStore::new();
    set_setting(&mut store, "selectedFolder", SettingValue::Other);
    assert_eq!(get_stored_folder(&store), None);
}

#[test]
fn entries_reflect_the_document() {
    let mut store = SettingsStore::new();
    set_setting(&mut store, "a", SettingValue::Text("one".to_string()));
    set_setting(&mut store, "b", SettingValue::Flag(false));
    delete_setting(&mut store, "a");
    let pairs = store.entries();
    assert_eq!(pairs.len(), 1);
    assert_eq!(pairs[0].0, "b");
    assert_eq!(pairs[0].1, SettingValue::Flag(false));
}
