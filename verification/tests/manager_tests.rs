use startup_manager::item::StartupItem;
use startup_manager::manager::{
    apply_folder_action, apply_registry_delete, apply_registry_toggle, delete_folder_item,
    delete_registry_item, delete_startup_item, parse_registry_location, toggle_folder_item,
    toggle_registry_item, toggle_startup_item, DeletePlan, FolderAction, StartupError, TogglePlan,
};
use startup_manager::registry::{Hive, HiveState, RegistrySnapshot, RegValueEntry};
use startup_manager::scanner::scan_registry_items;
use startup_manager::scanner::FileOracle;

fn item(name: &str, source_type: &str, location: &str) -> StartupItem {
    StartupItem {
        id: "0000000000000000".to_string(),
        name: name.to_string(),
        description: None,
        path: String::new(),
        command: String::new(),
        icon: None,
        source: String::new(),
        source_type: source_type.to_string(),
        source_location: location.to_string(),
        enabled: true,
        valid: false,
    }
}

fn utf16le(s: &str) -> Vec<u8> {
    let mut out = Vec::new();
    for w in s.encode_utf16() {
        out.push((w & 0xff) as u8);
        out.push((w >> 8) as u8);
    }
    out
}

fn empty_oracle() -> FileOracle {
    FileOracle {
        existing: Vec::new(),
        icons: Vec::new(),
        descriptions: Vec::new(),
        shortcut_targets: Vec::new(),
    }
}

#[test]
fn parse_registry_location_recognizes_hives() {
    let r = parse_registry_location("HKEY_CURRENT_USER\\Software\\Run").unwrap();
    assert!(matches!(r.0, Hive::CurrentUser));
    assert_eq!(r.1, "Software\\Run");
    let r = parse_registry_location("HKEY_LOCAL_MACHINE\\Software\\Run").unwrap();
    assert!(matches!(r.0, Hive::LocalMachine));
    assert!(parse_registry_location("C:\\Startup").is_none());
}

#[test]
fn registry_toggle_plans_write_the_approval_flag() {
    let it = item(
        "Foo",
        "registry",
        "HKEY_CURRENT_USER\\Software\\Microsoft\\Windows\\CurrentVersion\\Run",
    );
    let plan = toggle_registry_item(&it, false).unwrap();
    assert!(matches!(plan.hive, Hive::CurrentUser));
    assert!(!plan.run_once);
    assert_eq!(
        plan.approval_path,
        "Software\\Microsoft\\Windows\\CurrentVersion\\Explorer\\StartupApproved\\Run"
    );
    assert_eq!(plan.value_name, "Foo");
    assert_eq!(plan.value_data[0], 3u8);
    assert_eq!(plan.value_data.len(), 12);
    let plan_on = toggle_registry_item(&it, true).unwrap();
    assert_eq!(plan_on.value_data[0], 2u8);
}

#[test]
fn registry_toggle_on_unparsable_location_is_not_found() {
    let it = item("Foo", "registry", "SOMEWHERE\\Run");
    assert!(matches!(toggle_registry_item(&it, true), Err(StartupError::NotFound)));
}

/// Scenario: a run value disabled by toggle shows up disabled on the next
/// scan while the run value itself is unchanged.
#[test]
fn toggled_off_registry_item_scans_as_disabled() {
    let mut snap = RegistrySnapshot {
        current_user: HiveState {
            run: Some(vec![RegValueEntry {
                name: "Foo".to_string(),
                is_string: true,
                data: utf16le("C:\\Apps\\foo.exe --flag"),
            }]),
            run_once: None,
            approved_run: None,
            approved_run_once: None,
        },
        local_machine: HiveState {
            run: None,
            run_once: None,
            approved_run: None,
            approved_run_once: None,
        },
    };
    let oracle = empty_oracle();
    let before = scan_registry_items(&snap, &oracle);
    assert!(before[0].enabled);
    let plan = toggle_registry_item(&before[0], false).unwrap();
    apply_registry_toggle(&mut snap, &plan);
    let after = scan_registry_items(&snap, &oracle);
    assert_eq!(after.len(), 1);
    assert!(!after[0].enabled);
    assert_eq!(after[0].command, "C:\\Apps\\foo.exe --flag");
    // the run value was never touched
    assert_eq!(snap.current_user.run.as_ref().unwrap().len(), 1);
    assert_eq!(snap.current_user.run.as_ref().unwrap()[0].name, "Foo");
}

/// Applying the same toggle twice leaves the store exactly as one
/// application left it.
#[test]
fn registry_toggle_is_idempotent() {
    let it = item(
        "Foo",
        "registry",
        "HKEY_CURRENT_USER\\Software\\Microsoft\\Windows\\CurrentVersion\\Run",
    );
    let mut snap1 = RegistrySnapshot {
        current_user: HiveState {
            run: None,
            run_once: None,
            approved_run: None,
            approved_run_once: None,
        },
        local_machine: HiveState {
            run: None,
            run_once: None,
            approved_run: None,
            approved_run_once: None,
        },
    };
    let plan = toggle_registry_item(&it, false).unwrap();
    apply_registry_toggle(&mut snap1, &plan);
    let once = snap1.current_user.approved_run.clone().unwrap();
    let plan2 = toggle_registry_item(&it, false).unwrap();
    apply_registry_toggle(&mut snap1, &plan2);
    let twice = snap1.current_user.approved_run.clone().unwrap();
    assert_eq!(once, twice);
}

/// Scenario: a disabled shortcut is renamed with the marker, and toggling
/// again in either direction is a no-op or undoes it exactly.
#[test]
fn folder_toggle_renames_and_is_idempotent() {
    let it = item("Bar", "folder", "C:\\Startup");
    let mut entries = vec!["Bar.lnk".to_string()];
    let act = toggle_folder_item(&it, false, &entries).unwrap();
    match &act {
        FolderAction::Rename { from, to } => {
            assert_eq!(from, "Bar.lnk");
            assert_eq!(to, "Bar.lnk.disabled");
        },
        _ => panic!("expected a rename"),
    }
    apply_folder_action(&mut entries, &act);
    assert_eq!(entries, vec!["Bar.lnk.disabled".to_string()]);
    // second disable: already in the requested state
    let again = toggle_folder_item(&it, false, &entries).unwrap();
    assert!(matches!(again, FolderAction::AlreadyInState));
    apply_folder_action(&mut entries, &again);
    assert_eq!(entries, vec!["Bar.lnk.disabled".to_string()]);
    // enable strips the marker
    let enable = toggle_folder_item(&it, true, &entries).unwrap();
    apply_folder_action(&mut entries, &enable);
    assert_eq!(entries, vec!["Bar.lnk".to_string()]);
    let enable_again = toggle_folder_item(&it, true, &entries).unwrap();
    assert!(matches!(enable_again, FolderAction::AlreadyInState));
}

#[test]
fn folder_toggle_without_matching_entry_is_not_found() {
    let it = item("Bar", "folder", "C:\\Startup");
    let entries = vec!["Other.exe".to_string()];
    assert!(matches!(toggle_folder_item(&it, false, &entries), Err(StartupError::NotFound)));
}

#[test]
fn delete_plans() {
    let reg = item(
        "Foo",
        "registry",
        "HKEY_LOCAL_MACHINE\\Software\\Microsoft\\Windows\\CurrentVersion\\RunOnce",
    );
    let plan = delete_registry_item(&reg).unwrap();
    assert!(matches!(plan.hive, Hive::LocalMachine));
    assert!(plan.run_once);
    assert_eq!(plan.key_path, "Software\\Microsoft\\Windows\\CurrentVersion\\RunOnce");
    assert_eq!(
        plan.approval_path,
        "Software\\Microsoft\\Windows\\CurrentVersion\\Explorer\\StartupApproved\\RunOnce"
    );
    let fol = item("Bar", "folder", "C:\\Startup");
    let entries = vec!["Bar.lnk.disabled".to_string()];
    assert_eq!(delete_folder_item(&fol, &entries).unwrap(), "Bar.lnk.disabled");
    let empty: Vec<String> = Vec::new();
    assert!(matches!(delete_folder_item(&fol, &empty), Err(StartupError::NotFound)));
}

#[test]
fn dispatch_follows_source_type() {
    let reg = item(
        "Foo",
        "registry",
        "HKEY_CURRENT_USER\\Software\\Microsoft\\Windows\\CurrentVersion\\Run",
    );
    let entries: Vec<String> = Vec::new();
    assert!(matches!(toggle_startup_item(&reg, true, &entries), Ok(TogglePlan::Registry(_))));
    assert!(matches!(delete_startup_item(&reg, &entries), Ok(DeletePlan::Registry(_))));
    let fol = item("Bar", "folder", "C:\\Startup");
    let fentries = vec!["Bar.exe".to_string()];
    assert!(matches!(toggle_startup_item(&fol, false, &fentries), Ok(TogglePlan::Folder(_))));
    assert!(matches!(delete_startup_item(&fol, &fentries), Ok(DeletePlan::Folder(_))));
}

#[test]
fn error_messages_name_the_failure() {
    assert_eq!(StartupError::NotFound.message(), "startup item not found");
    assert_eq!(
        StartupError::AccessDenied.message(),
        "access denied; administrator rights may be needed"
    );
    assert_eq!(StartupError::IoError("disk".to_string()).message(), "io error: disk");
    assert_eq!(
        StartupError::RegistryError("key".to_string()).message(),
        "registry error: key"
    );
}

/// Executing a registry delete removes the run value and its shadow entry;
/// deleting a vanished value reports a backing-store error and changes
/// nothing.
#[test]
fn registry_delete_removes_value_and_shadow() {
    let it = item(
        "Foo",
        "registry",
        "HKEY_CURRENT_USER\\Software\\Microsoft\\Windows\\CurrentVersion\\Run",
    );
    let mut snap = RegistrySnapshot {
        current_user: HiveState {
            run: Some(vec![
                RegValueEntry {
                    name: "Foo".to_string(),
                    is_string: true,
                    data: utf16le("C:\\Apps\\foo.exe"),
                },
                RegValueEntry {
                    name: "Other".to_string(),
                    is_string: true,
                    data: utf16le("C:\\o.exe"),
                },
            ]),
            run_once: None,
            approved_run: Some(vec![("Foo".to_string(), vec![3u8, 0, 0, 0])]),
            approved_run_once: None,
        },
        local_machine: HiveState {
            run: None,
            run_once: None,
            approved_run: None,
            approved_run_once: None,
        },
    };
    let plan = delete_registry_item(&it).unwrap();
    assert!(apply_registry_delete(&mut snap, &plan).is_ok());
    let run = snap.current_user.run.as_ref().unwrap();
    assert_eq!(run.len(), 1);
    assert_eq!(run[0].name, "Other");
    assert_eq!(snap.current_user.approved_run.as_ref().unwrap().len(), 0);
    // a second delete of the same value finds nothing to remove
    let again = apply_registry_delete(&mut snap, &plan);
    assert!(matches!(again, Err(StartupError::RegistryError(_))));
    assert_eq!(snap.current_user.run.as_ref().unwrap().len(), 1);
}
