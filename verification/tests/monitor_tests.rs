use startup_manager::monitor::{
    find_and_minimize_windows, get_process_name_from_path, Monitor, WindowInfo,
};
use startup_manager::settings::{AppSettings, SettingsStore};

fn fresh_store() -> SettingsStore {
    SettingsStore::new(AppSettings::default())
}

fn window(handle: u64, name: &str) -> WindowInfo {
    WindowInfo { handle, process_name: name.to_string() }
}

#[test]
fn process_name_from_path_takes_the_lowercased_stem() {
    assert_eq!(get_process_name_from_path("C:\\Apps\\FooBar.exe"), "foobar");
    assert_eq!(get_process_name_from_path("C:/apps/Tool.Tar.exe"), "tool.tar");
    assert_eq!(get_process_name_from_path("bare"), "bare");
    assert_eq!(get_process_name_from_path("C:\\Apps\\"), "");
}

#[test]
fn registration_keeps_the_last_default_name() {
    let mut mon = Monitor::new();
    let store = fresh_store();
    mon.add_monitored_item("id1", "C:\\Apps\\One.exe");
    mon.add_monitored_item("id1", "C:\\Apps\\Two.exe");
    mon.add_monitored_item("id2", "C:\\Apps\\Other.exe");
    assert_eq!(mon.monitored_items.len(), 2);
    // nothing is active until the policy opts items in
    assert_eq!(mon.get_monitor_status(&store).1, 0);
}

#[test]
fn start_is_exactly_once_and_stop_clears() {
    let mut mon = Monitor::new();
    assert!(mon.start_monitor(true));
    assert!(mon.is_autostart);
    assert!(mon.running);
    assert!(!mon.start_monitor(false));
    assert!(mon.is_autostart);
    mon.stop_monitor();
    assert!(!mon.running);
}

#[test]
fn active_set_uses_override_and_delay() {
    let mut mon = Monitor::new();
    let mut store = fresh_store();
    mon.add_monitored_item("id1", "C:\\Apps\\Foo.exe");
    mon.add_monitored_item("id2", "C:\\Apps\\Bar.exe");
    store.set_auto_minimize("id1", true);
    store.set_process_name_mapping("id1", Some("RealProc".to_string()));
    store.set_minimize_delay("id1", Some(3));
    let procs = mon.get_processes_to_monitor(&store);
    assert_eq!(procs.len(), 1);
    assert_eq!(procs[0].0, "realproc");
    assert_eq!(procs[0].1, "id1");
    assert_eq!(procs[0].2, 3);
    let status = mon.get_monitor_status(&store);
    assert_eq!(status.1, 1);
}

/// Two registered items resolving to the same process name produce at
/// most one action for that name, even with several windows of it.
#[test]
fn one_action_per_process_name() {
    let mut store = fresh_store();
    store.set_minimize_behavior("id2", "close");
    let targets = vec![
        ("shared".to_string(), "id1".to_string()),
        ("shared".to_string(), "id2".to_string()),
    ];
    let windows = vec![window(11, "Shared.exe"), window(12, "shared.exe"), window(13, "other")];
    let (cmds, results) = find_and_minimize_windows(&targets, &windows, &store);
    assert_eq!(cmds.len(), 1);
    assert_eq!(cmds[0].handle, 11);
    assert!(!cmds[0].close);
    assert_eq!(results, vec![("shared".to_string(), "id1".to_string())]);
}

/// A process already acted on this session is never matched again.
#[test]
fn session_set_suppresses_further_actions() {
    let mut store = fresh_store();
    store.mark_as_minimized("shared");
    let targets = vec![("shared".to_string(), "id1".to_string())];
    let windows = vec![window(11, "shared.exe")];
    let (cmds, results) = find_and_minimize_windows(&targets, &windows, &store);
    assert_eq!(cmds.len(), 0);
    assert_eq!(results.len(), 0);
}

/// Scenario: an opted-in item with no configured delay, with a live
/// window: within one tick the window is hidden, the name enters the
/// session set and the item leaves the monitored set.
#[test]
fn immediate_item_is_acted_on_within_one_tick() {
    let mut mon = Monitor::new();
    let mut store = fresh_store();
    mon.add_monitored_item("id1", "C:\\Apps\\Foo.exe");
    store.set_auto_minimize("id1", true);
    mon.start_monitor(false);
    let windows = vec![window(42, "foo.exe")];
    let r = mon.poll_tick(&mut store, 1_000, &windows);
    assert_eq!(r.commands.len(), 1);
    assert_eq!(r.commands[0].handle, 42);
    assert!(!r.commands[0].close);
    assert!(!r.exit_host);
    assert!(store.was_minimized_this_session("foo"));
    assert_eq!(mon.monitored_items.len(), 0);
    let times = store.get_all_minimize_times();
    assert_eq!(times, vec![("id1".to_string(), 1_000u64)]);
}

/// The configured behavior decides hide versus close.
#[test]
fn close_behavior_requests_close() {
    let mut mon = Monitor::new();
    let mut store = fresh_store();
    mon.add_monitored_item("id1", "C:\\Apps\\Foo.exe");
    store.set_auto_minimize("id1", true);
    store.set_minimize_behavior("id1", "close");
    mon.start_monitor(false);
    let windows = vec![window(7, "foo.exe")];
    let r = mon.poll_tick(&mut store, 0, &windows);
    assert_eq!(r.commands.len(), 1);
    assert!(r.commands[0].close);
}

/// With a delay of two seconds, ticks before the deadline act on nothing;
/// the first tick at or past it acts exactly once; later ticks are quiet.
#[test]
fn delayed_item_fires_exactly_once_after_the_delay() {
    let mut mon = Monitor::new();
    let mut store = fresh_store();
    mon.add_monitored_item("id1", "C:\\Apps\\Foo.exe");
    store.set_auto_minimize("id1", true);
    store.set_minimize_delay("id1", Some(2));
    mon.start_monitor(false);
    let windows = vec![window(9, "foo.exe")];
    // scheduling tick: no action yet
    let r0 = mon.poll_tick(&mut store, 10_000, &windows);
    assert_eq!(r0.commands.len(), 0);
    assert_eq!(mon.delayed_tasks.len(), 1);
    assert_eq!(mon.delayed_tasks[0].0, "foo");
    assert_eq!(mon.delayed_tasks[0].1.1, 12_000);
    // one second in: still nothing
    let r1 = mon.poll_tick(&mut store, 11_000, &windows);
    assert_eq!(r1.commands.len(), 0);
    assert!(!r1.stopped);
    // deadline reached: exactly one action
    let r2 = mon.poll_tick(&mut store, 12_000, &windows);
    assert_eq!(r2.commands.len(), 1);
    assert_eq!(r2.commands[0].handle, 9);
    assert!(store.was_minimized_this_session("foo"));
    assert_eq!(mon.delayed_tasks.len(), 0);
    // afterwards: nothing left, the loop stops
    let r3 = mon.poll_tick(&mut store, 13_000, &windows);
    assert_eq!(r3.commands.len(), 0);
    assert!(r3.stopped);
}

/// The host exits only when auto-exit is on, the run was boot-launched,
/// and no active or delayed work remains; each single negation keeps it
/// alive.
#[test]
fn auto_exit_requires_all_three_conditions() {
    let windows: Vec<WindowInfo> = Vec::new();
    // all three hold: work done (item already in session), no delays
    let mut mon = Monitor::new();
    let mut store = fresh_store();
    mon.add_monitored_item("id1", "C:\\Apps\\Foo.exe");
    store.set_auto_minimize("id1", true);
    store.set_auto_exit_enabled(true);
    store.mark_as_minimized("foo");
    mon.start_monitor(true);
    let r = mon.poll_tick(&mut store, 0, &windows);
    assert!(r.exit_host);

    // auto-exit disabled
    let mut mon = Monitor::new();
    let mut store = fresh_store();
    mon.add_monitored_item("id1", "C:\\Apps\\Foo.exe");
    store.set_auto_minimize("id1", true);
    store.mark_as_minimized("foo");
    mon.start_monitor(true);
    let r = mon.poll_tick(&mut store, 0, &windows);
    assert!(!r.exit_host);
    assert!(r.stopped);

    // not boot-launched
    let mut mon = Monitor::new();
    let mut store = fresh_store();
    mon.add_monitored_item("id1", "C:\\Apps\\Foo.exe");
    store.set_auto_minimize("id1", true);
    store.set_auto_exit_enabled(true);
    store.mark_as_minimized("foo");
    mon.start_monitor(false);
    let r = mon.poll_tick(&mut store, 0, &windows);
    assert!(!r.exit_host);

    // delayed work still pending
    let mut mon = Monitor::new();
    let mut store = fresh_store();
    mon.add_monitored_item("id1", "C:\\Apps\\Foo.exe");
    mon.add_monitored_item("id2", "C:\\Apps\\Bar.exe");
    store.set_auto_minimize("id1", true);
    store.set_auto_minimize("id2", true);
    store.set_minimize_delay("id2", Some(60));
    store.set_auto_exit_enabled(true);
    store.mark_as_minimized("foo");
    mon.start_monitor(true);
    // first tick schedules bar; second tick sees foo handled, bar pending
    let r = mon.poll_tick(&mut store, 0, &windows);
    assert!(!r.exit_host);
    let r = mon.poll_tick(&mut store, 1_000, &windows);
    assert!(!r.exit_host);
    assert!(!r.stopped);
}

/// With nothing registered the loop stops on its first tick.
#[test]
fn empty_monitor_stops_immediately() {
    let mut mon = Monitor::new();
    let mut store = fresh_store();
    mon.start_monitor(false);
    let r = mon.poll_tick(&mut store, 0, &Vec::new());
    assert!(r.stopped);
    assert!(!mon.running);
    assert!(!r.exit_host);
}

/// Two items resolving to the same process name yield a single delayed
/// task for that name.
#[test]
fn same_process_name_keeps_one_delayed_task() {
    let mut mon = Monitor::new();
    let mut store = fresh_store();
    mon.add_monitored_item("id1", "C:\\Apps\\Shared.exe");
    mon.add_monitored_item("id2", "C:\\Other\\Shared.exe");
    store.set_auto_minimize("id1", true);
    store.set_auto_minimize("id2", true);
    store.set_minimize_delay("id1", Some(5));
    store.set_minimize_delay("id2", Some(9));
    mon.start_monitor(false);
    let r = mon.poll_tick(&mut store, 1_000, &Vec::new());
    assert_eq!(r.commands.len(), 0);
    assert_eq!(mon.delayed_tasks.len(), 1);
    assert_eq!(mon.delayed_tasks[0].0, "shared");
}

/// Two immediate items with the same process name act on it once; the
/// session set blocks the second.
#[test]
fn same_process_name_acts_once_per_session() {
    let mut mon = Monitor::new();
    let mut store = fresh_store();
    mon.add_monitored_item("id1", "C:\\Apps\\Shared.exe");
    mon.add_monitored_item("id2", "C:\\Other\\Shared.exe");
    store.set_auto_minimize("id1", true);
    store.set_auto_minimize("id2", true);
    mon.start_monitor(false);
    let windows = vec![window(21, "shared.exe"), window(22, "shared.exe")];
    let r = mon.poll_tick(&mut store, 0, &windows);
    assert_eq!(r.commands.len(), 1);
    assert_eq!(r.commands[0].handle, 21);
    // nothing more happens for this name, even across later ticks
    let r2 = mon.poll_tick(&mut store, 1_000, &windows);
    assert_eq!(r2.commands.len(), 0);
}
