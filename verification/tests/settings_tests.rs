use startup_manager::codec::{load_settings, save_settings};
use startup_manager::settings::{AppSettings, SettingsStore};

fn fresh_store() -> SettingsStore {
    SettingsStore::new(AppSettings::default())
}

#[test]
fn auto_minimize_set_semantics() {
    let mut store = fresh_store();
    assert!(!store.is_auto_minimize_enabled("a"));
    store.set_auto_minimize("a", true);
    store.set_auto_minimize("b", true);
    store.set_auto_minimize("a", true);
    assert!(store.is_auto_minimize_enabled("a"));
    assert!(store.is_auto_minimize_enabled("b"));
    assert_eq!(store.get_settings().auto_minimize_items.len(), 2);
    store.set_auto_minimize("a", false);
    assert!(!store.is_auto_minimize_enabled("a"));
    assert!(store.is_auto_minimize_enabled("b"));
}

/// Setting the default behavior removes the entry entirely; reading it
/// back still yields the default.
#[test]
fn default_behavior_restores_by_removal() {
    let mut store = fresh_store();
    store.set_minimize_behavior("id1", "close");
    assert_eq!(store.get_minimize_behavior("id1"), "close");
    assert_eq!(store.get_settings().minimize_behaviors.len(), 1);
    store.set_minimize_behavior("id1", "minimize");
    assert_eq!(store.get_minimize_behavior("id1"), "minimize");
    assert_eq!(store.get_settings().minimize_behaviors.len(), 0);
}

#[test]
fn process_name_mapping_is_trimmed_lowercased_and_removable() {
    let mut store = fresh_store();
    store.set_process_name_mapping("id1", Some("  MyApp  ".to_string()));
    assert_eq!(store.get_process_name_mapping("id1"), Some("myapp".to_string()));
    store.set_process_name_mapping("id1", Some("   ".to_string()));
    assert_eq!(store.get_process_name_mapping("id1"), None);
    store.set_process_name_mapping("id1", Some("App2".to_string()));
    store.set_process_name_mapping("id1", None);
    assert_eq!(store.get_process_name_mapping("id1"), None);
    assert_eq!(store.get_settings().process_name_mappings.len(), 0);
}

#[test]
fn delay_defaults_to_zero_and_clears_on_none() {
    let mut store = fresh_store();
    assert_eq!(store.get_minimize_delay("id1"), 0);
    store.set_minimize_delay("id1", Some(7));
    assert_eq!(store.get_minimize_delay("id1"), 7);
    store.set_minimize_delay("id1", Some(0));
    assert_eq!(store.get_minimize_delay("id1"), 0);
    assert_eq!(store.get_settings().minimize_delays.len(), 1);
    store.set_minimize_delay("id1", None);
    assert_eq!(store.get_settings().minimize_delays.len(), 0);
}

#[test]
fn session_state_is_case_normalized_and_survives_reset() {
    let mut store = fresh_store();
    store.mark_as_minimized("FooApp");
    assert!(store.was_minimized_this_session("fooapp"));
    assert!(store.was_minimized_this_session("FOOAPP"));
    assert!(!store.was_minimized_this_session("other"));
    store.record_minimize_time("id1", 1234);
    store.set_auto_exit_enabled(true);
    assert!(store.is_auto_exit_enabled());
    store.reset_settings();
    assert!(!store.is_auto_exit_enabled());
    assert_eq!(store.get_settings().auto_minimize_items.len(), 0);
    // session containers are distinct stores: a policy reset keeps them
    assert!(store.was_minimized_this_session("fooapp"));
    let times = store.get_all_minimize_times();
    assert_eq!(times, vec![("id1".to_string(), 1234u64)]);
}

fn sample_settings() -> AppSettings {
    AppSettings {
        auto_minimize_items: vec!["aaaa".to_string(), "bbbb".to_string()],
        process_name_mappings: vec![("aaaa".to_string(), "myproc".to_string())],
        minimize_behaviors: vec![("bbbb".to_string(), "close".to_string())],
        minimize_delays: vec![("aaaa".to_string(), 5u32), ("bbbb".to_string(), 0u32)],
        auto_exit_after_minimize: true,
    }
}

/// Saving and loading round-trip the exact settings value.
#[test]
fn save_then_load_round_trips() {
    let s = sample_settings();
    let text = save_settings(&s);
    let back = load_settings(Some(text.as_str()));
    assert_eq!(back.auto_minimize_items, s.auto_minimize_items);
    assert_eq!(back.process_name_mappings, s.process_name_mappings);
    assert_eq!(back.minimize_behaviors, s.minimize_behaviors);
    assert_eq!(back.minimize_delays, s.minimize_delays);
    assert_eq!(back.auto_exit_after_minimize, s.auto_exit_after_minimize);
}

/// The round trip also holds with everything empty, and with strings that
/// need escaping.
#[test]
fn save_then_load_round_trips_edge_values() {
    let empty = AppSettings::default();
    let back = load_settings(Some(save_settings(&empty).as_str()));
    assert_eq!(back.auto_minimize_items.len(), 0);
    assert_eq!(back.process_name_mappings.len(), 0);
    assert_eq!(back.minimize_behaviors.len(), 0);
    assert_eq!(back.minimize_delays.len(), 0);
    assert!(!back.auto_exit_after_minimize);

    let tricky = AppSettings {
        auto_minimize_items: vec!["quote\"back\\slash".to_string(), "tab\tnl\n".to_string()],
        process_name_mappings: Vec::new(),
        minimize_behaviors: Vec::new(),
        minimize_delays: vec![("k".to_string(), u32::MAX)],
        auto_exit_after_minimize: false,
    };
    let back = load_settings(Some(save_settings(&tricky).as_str()));
    assert_eq!(back.auto_minimize_items, tricky.auto_minimize_items);
    assert_eq!(back.minimize_delays, tricky.minimize_delays);
}

#[test]
fn rendered_form_is_the_expected_json() {
    let text = save_settings(&AppSettings::default());
    assert_eq!(
        text,
        "{\"auto_minimize_items\":[],\"process_name_mappings\":{},\"minimize_behaviors\":{},\"minimize_delays\":{},\"auto_exit_after_minimize\":false}"
    );
}

/// Absence and corruption both fall back to the all-defaults policy.
#[test]
fn load_falls_back_on_absence_and_corruption() {
    let absent = load_settings(None);
    assert_eq!(absent.auto_minimize_items.len(), 0);
    assert!(!absent.auto_exit_after_minimize);
    let garbage = load_settings(Some("{not json"));
    assert_eq!(garbage.auto_minimize_items.len(), 0);
    let truncated = load_settings(Some("{\"auto_minimize_items\":[\"a\""));
    assert_eq!(truncated.auto_minimize_items.len(), 0);
    let trailing = load_settings(
        Some(
            "{\"auto_minimize_items\":[],\"process_name_mappings\":{},\"minimize_behaviors\":{},\"minimize_delays\":{},\"auto_exit_after_minimize\":false}x",
        ),
    );
    assert_eq!(trailing.auto_minimize_items.len(), 0);
}
