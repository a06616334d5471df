use opencli::build::config::PackageTarget;
use opencli::package::config_manager::{ConfigManager, LegacyPluginsField};
use opencli::package::lock::{InstalledPackage, PackageLock};

fn manager() -> ConfigManager {
    ConfigManager::new("/ws")
}

#[test]
fn manager_paths() {
    let m = manager();
    assert_eq!(m.workspace_root, "/ws");
    assert_eq!(m.config_path, "/ws/config.json");
}

#[test]
fn merging_string_form_with_new_plugins() {
    // the legacy string form "a, b" merged with ["b", "c"]
    let m = manager();
    let current = LegacyPluginsField::Text(String::from("a, b"));
    let new_names = vec![String::from("b"), String::from("c")];
    let r = m.apply_legacy_update(&current, &new_names);
    match r {
        LegacyPluginsField::Items(items) => {
            assert_eq!(items, vec![String::from("a"), String::from("b"), String::from("c")]);
        },
        _ => panic!("expected the array form"),
    }
}

#[test]
fn removing_last_plugin_deletes_field() {
    let m = manager();
    let current = LegacyPluginsField::Items(vec![String::from("onlyplugin")]);
    let r = m.apply_legacy_removal(&current, &vec![String::from("onlyplugin")]);
    assert!(matches!(r, LegacyPluginsField::Absent));
}

#[test]
fn removal_keeps_other_plugins_in_order() {
    let m = manager();
    let current = LegacyPluginsField::Items(vec![
        String::from("c"),
        String::from("a"),
        String::from("b"),
    ]);
    let r = m.apply_legacy_removal(&current, &vec![String::from("a")]);
    match r {
        LegacyPluginsField::Items(items) => {
            assert_eq!(items, vec![String::from("c"), String::from("b")]);
        },
        _ => panic!("expected the array form"),
    }
}

#[test]
fn update_is_idempotent_on_concrete_values() {
    let m = manager();
    let names = vec![String::from("alpha"), String::from("beta")];
    let current = LegacyPluginsField::Text(String::from("beta gamma"));
    let once = m.apply_legacy_update(&current, &names);
    let twice = m.apply_legacy_update(&once, &names);
    match (once, twice) {
        (LegacyPluginsField::Items(a), LegacyPluginsField::Items(b)) => {
            assert_eq!(a, b);
            assert_eq!(
                a,
                vec![String::from("alpha"), String::from("beta"), String::from("gamma")]
            );
        },
        _ => panic!("expected the array form twice"),
    }
}

#[test]
fn string_to_plugin_array_comma_form() {
    let m = manager();
    let r = m.string_to_plugin_array("a, b , ,c");
    assert_eq!(r, vec![String::from("a"), String::from("b"), String::from("c")]);
}

#[test]
fn string_to_plugin_array_whitespace_form() {
    let m = manager();
    let r = m.string_to_plugin_array("  a\tb  c ");
    assert_eq!(r, vec![String::from("a"), String::from("b"), String::from("c")]);
}

#[test]
fn merge_plugin_arrays_sorts_and_dedups() {
    let m = manager();
    let a = vec![String::from("zeta"), String::from("alpha")];
    let b = vec![String::from("alpha"), String::from("mid")];
    let r = m.merge_plugin_arrays(&a, &b);
    assert_eq!(r, vec![String::from("alpha"), String::from("mid"), String::from("zeta")]);
}

#[test]
fn extract_binary_name_strips_suffixes() {
    let m = manager();
    let r = m.extract_binary_name_from_path("/srv/plugins/streamer.so");
    assert_eq!(r, Some(String::from("streamer")));
    let r2 = m.extract_binary_name_from_path("/srv/plugins/chat.dll");
    assert_eq!(r2, Some(String::from("chat")));
}

#[test]
fn extract_binary_name_requires_plugins_segment_and_suffix() {
    let m = manager();
    assert_eq!(m.extract_binary_name_from_path("/srv/components/x.so"), None);
    assert_eq!(m.extract_binary_name_from_path("/srv/plugins/readme.txt"), None);
}

#[test]
fn extract_legacy_plugin_names_from_lock() {
    let m = manager();
    let mut lock = PackageLock::new();
    lock.upsert(InstalledPackage {
        repo: String::from("o/streamer"),
        version: String::from("v2.9.6"),
        target: Some(PackageTarget::Plugins),
        files: vec![String::from("/srv/plugins/streamer.so"), String::from("/srv/inc/streamer.inc")],
    });
    lock.upsert(InstalledPackage {
        repo: String::from("o/comp"),
        version: String::from("v1.0.0"),
        target: Some(PackageTarget::Components),
        files: vec![String::from("/srv/components/comp.so")],
    });
    lock.upsert(InstalledPackage {
        repo: String::from("o/another"),
        version: String::from("v0.1.0"),
        target: Some(PackageTarget::Plugins),
        files: vec![String::from("/srv/plugins/another.dll")],
    });
    let names = m.extract_legacy_plugin_names(&lock);
    assert_eq!(names, vec![String::from("another"), String::from("streamer")]);
}

#[test]
fn update_of_absent_field_takes_names_as_given() {
    let m = manager();
    let names = vec![String::from("a"), String::from("b")];
    let r = m.apply_legacy_update(&LegacyPluginsField::Absent, &names);
    match r {
        LegacyPluginsField::Items(items) => assert_eq!(items, names),
        _ => panic!("expected the array form"),
    }
}

#[test]
fn removal_leaves_other_shapes_alone() {
    let m = manager();
    let r = m.apply_legacy_removal(&LegacyPluginsField::Other, &vec![String::from("a")]);
    assert!(matches!(r, LegacyPluginsField::Other));
    let r2 = m.apply_legacy_removal(&LegacyPluginsField::Absent, &vec![String::from("a")]);
    assert!(matches!(r2, LegacyPluginsField::Absent));
}
