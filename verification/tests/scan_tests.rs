use startup_manager::item::StartupItem;
use startup_manager::manager::{apply_folder_action, toggle_folder_item};
use startup_manager::registry::{HiveState, RegValueEntry, RegistrySnapshot};
use startup_manager::scanner::{
    get_all_startup_items, parse_command_path, scan_registry_items, scan_startup_folder_items,
    FileOracle, FolderSnapshot,
};
use startup_manager::ids::generate_id;

fn utf16le(s: &str) -> Vec<u8> {
    let mut out = Vec::new();
    for w in s.encode_utf16() {
        out.push((w & 0xff) as u8);
        out.push((w >> 8) as u8);
    }
    out
}

fn reg_value(name: &str, command: &str) -> RegValueEntry {
    RegValueEntry { name: name.to_string(), is_string: true, data: utf16le(command) }
}

fn empty_hive() -> HiveState {
    HiveState { run: None, run_once: None, approved_run: None, approved_run_once: None }
}

fn oracle_with(existing: &[&str]) -> FileOracle {
    FileOracle {
        existing: existing.iter().map(|s| s.to_string()).collect(),
        icons: Vec::new(),
        descriptions: Vec::new(),
        shortcut_targets: Vec::new(),
    }
}

/// A registry run value with no approval-shadow entry yields one enabled
/// registry item with the quoted-path-free executable resolved.
#[test]
fn registry_run_value_without_shadow_is_enabled() {
    let snap = RegistrySnapshot {
        current_user: HiveState {
            run: Some(vec![reg_value("Foo", "C:\\Apps\\foo.exe --flag")]),
            run_once: None,
            approved_run: None,
            approved_run_once: None,
        },
        local_machine: empty_hive(),
    };
    let oracle = oracle_with(&["C:\\Apps\\foo.exe"]);
    let items = scan_registry_items(&snap, &oracle);
    assert_eq!(items.len(), 1);
    let item = &items[0];
    assert_eq!(item.name, "Foo");
    assert_eq!(item.path, "C:\\Apps\\foo.exe");
    assert_eq!(item.command, "C:\\Apps\\foo.exe --flag");
    assert_eq!(item.source_type, "registry");
    assert!(item.enabled);
    assert!(item.valid);
    assert_eq!(
        item.source_location,
        "HKEY_CURRENT_USER\\Software\\Microsoft\\Windows\\CurrentVersion\\Run"
    );
}

/// A shadow value whose first byte is 3 disables the item; 2 keeps it
/// enabled; the run value itself is untouched by the flag.
#[test]
fn approval_shadow_first_byte_decides_enabled() {
    let disabled_bytes = vec![3u8, 0, 0, 0, 0, 0, 0, 0, 0, 0, 0, 0];
    let enabled_bytes = vec![2u8, 0, 0, 0, 0, 0, 0, 0, 0, 0, 0, 0];
    let snap = RegistrySnapshot {
        current_user: HiveState {
            run: Some(vec![reg_value("A", "C:\\a.exe"), reg_value("B", "C:\\b.exe")]),
            run_once: None,
            approved_run: Some(vec![
                ("A".to_string(), disabled_bytes),
                ("B".to_string(), enabled_bytes),
            ]),
            approved_run_once: None,
        },
        local_machine: empty_hive(),
    };
    let oracle = oracle_with(&[]);
    let items = scan_registry_items(&snap, &oracle);
    assert_eq!(items.len(), 2);
    assert!(!items[0].enabled);
    assert!(items[1].enabled);
    assert!(!items[0].valid);
}

/// Non-string values and values whose decoded command is empty are
/// skipped.
#[test]
fn unusable_registry_values_are_skipped() {
    let snap = RegistrySnapshot {
        current_user: HiveState {
            run: Some(vec![
                RegValueEntry { name: "Bin".to_string(), is_string: false, data: vec![1, 2] },
                reg_value("Empty", ""),
                reg_value("Nuls", "\u{0}\u{0}"),
                reg_value("Ok", "C:\\x.exe"),
            ]),
            run_once: None,
            approved_run: None,
            approved_run_once: None,
        },
        local_machine: empty_hive(),
    };
    let items = scan_registry_items(&snap, &oracle_with(&[]));
    assert_eq!(items.len(), 1);
    assert_eq!(items[0].name, "Ok");
}

#[test]
fn parse_command_path_forms() {
    assert_eq!(parse_command_path("\"C:\\Program Files\\App.exe\" --x"), "C:\\Program Files\\App.exe");
    assert_eq!(parse_command_path("C:\\APPS\\TOOL.EXE /q"), "C:\\APPS\\TOOL.EXE");
    assert_eq!(parse_command_path("  C:\\a\\b.exe  "), "C:\\a\\b.exe");
    assert_eq!(parse_command_path("rundll32 something,Entry"), "rundll32");
    assert_eq!(parse_command_path(""), "");
}

/// The id is a pure function of (source_location, name): equal inputs give
/// the identical id, different names give different ids here.
#[test]
fn ids_are_deterministic() {
    let a1 = generate_id("HKEY_CURRENT_USER\\Run", "Foo");
    let a2 = generate_id("HKEY_CURRENT_USER\\Run", "Foo");
    let b = generate_id("HKEY_CURRENT_USER\\Run", "Bar");
    assert_eq!(a1, a2);
    assert_ne!(a1, b);
    assert_eq!(a1.len(), 16);
}

/// Folder entries: the disabled suffix is stripped and recorded, hidden
/// names are skipped, shortcuts resolve through the oracle, and non-
/// executables are skipped.
#[test]
fn folder_scan_classifies_entries() {
    let folder = FolderSnapshot {
        location: "C:\\Startup".to_string(),
        source_name: "user startup folder".to_string(),
        entries: vec![
            "Bar.lnk".to_string(),
            "Tool.exe.disabled".to_string(),
            ".hidden.exe".to_string(),
            "notes.txt".to_string(),
        ],
    };
    let oracle = FileOracle {
        existing: vec!["C:\\Apps\\bar.exe".to_string()],
        icons: Vec::new(),
        descriptions: Vec::new(),
        shortcut_targets: vec![
            ("C:\\Startup\\Bar.lnk".to_string(), "C:\\Apps\\bar.exe".to_string()),
        ],
    };
    let items = scan_startup_folder_items(&vec![folder], &oracle);
    assert_eq!(items.len(), 2);
    assert_eq!(items[0].name, "Bar");
    assert_eq!(items[0].path, "C:\\Apps\\bar.exe");
    assert!(items[0].enabled);
    assert!(items[0].valid);
    assert_eq!(items[0].source_type, "folder");
    assert_eq!(items[1].name, "Tool");
    assert!(!items[1].enabled);
    assert_eq!(items[1].path, "C:\\Startup\\Tool.exe.disabled");
}

/// Scenario: a disabled shortcut is renamed with the marker and the next
/// scan reports it disabled under its bare name.
#[test]
fn renamed_shortcut_scans_as_disabled() {
    let item = StartupItem {
        id: "0000000000000000".to_string(),
        name: "Bar".to_string(),
        description: None,
        path: "C:\\Apps\\bar.exe".to_string(),
        command: "C:\\Apps\\bar.exe".to_string(),
        icon: None,
        source: "user startup folder".to_string(),
        source_type: "folder".to_string(),
        source_location: "C:\\Startup".to_string(),
        enabled: true,
        valid: true,
    };
    let mut entries = vec!["Bar.lnk".to_string()];
    let act = toggle_folder_item(&item, false, &entries).unwrap();
    apply_folder_action(&mut entries, &act);
    assert_eq!(entries, vec!["Bar.lnk.disabled".to_string()]);
    let folder = FolderSnapshot {
        location: "C:\\Startup".to_string(),
        source_name: "user startup folder".to_string(),
        entries,
    };
    let oracle = oracle_with(&[]);
    let items = scan_startup_folder_items(&vec![folder], &oracle);
    assert_eq!(items.len(), 1);
    assert_eq!(items[0].name, "Bar");
    assert!(!items[0].enabled);
}

/// The combined scan is sorted case-insensitively by name.
#[test]
fn combined_scan_is_sorted_by_name() {
    let snap = RegistrySnapshot {
        current_user: HiveState {
            run: Some(vec![reg_value("zeta", "C:\\z.exe"), reg_value("Alpha", "C:\\a.exe")]),
            run_once: None,
            approved_run: None,
            approved_run_once: None,
        },
        local_machine: empty_hive(),
    };
    let folder = FolderSnapshot {
        location: "C:\\Startup".to_string(),
        source_name: "user startup folder".to_string(),
        entries: vec!["Middle.exe".to_string()],
    };
    let items = get_all_startup_items(&snap, &vec![folder], &oracle_with(&[]));
    let names: Vec<String> = items.iter().map(|i: &StartupItem| i.name.clone()).collect();
    assert_eq!(names, vec!["Alpha".to_string(), "Middle".to_string(), "zeta".to_string()]);
}
