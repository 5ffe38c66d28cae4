//! The background window/process monitor.
//!
//! The monitor holds the registered items (id to default process name) and
//! the pending delayed tasks (process name to item id and deadline). The
//! caller drives it: once per second it enumerates the visible top-level
//! windows with their owning process names, reads the clock, and calls
//! `poll_tick`; the tick decides everything — which delayed tasks are due,
//! which active items to schedule or act on now, which windows to hide or
//! close, when the loop stops and when the host process may exit — and
//! hands back the window commands for the caller to perform.

use vstd::prelude::*;
use vstd::string::*;
use crate::assoc::{
    assoc_contains, assoc_get, assoc_remove, assoc_set, contains_key, distinct_keys, insert_name,
    lookup, remove_key, set_contains, set_key,
};
use crate::settings::{behavior_of, delay_of, SettingsModel, SettingsStore};
use crate::text;
use crate::text::{lemma_lower_idempotent, lower, trim_end_matches_spec};

verus! {

/// Clock values are milliseconds since an epoch; any real clock is far
/// below this bound, which keeps deadline arithmetic within `u64`.
pub const MS_LIMIT: u64 = 0x4000000000000000;

/// One visible top-level window, as the platform reports it: an opaque
/// handle and the owning process's name.
pub struct WindowInfo {
    pub handle: u64,
    pub process_name: String,
}

/// The mathematical content of a `WindowInfo`.
pub struct WindowModel {
    pub handle: u64,
    pub process_name: Seq<char>,
}

impl View for WindowInfo {
    type V = WindowModel;

    open spec fn view(&self) -> WindowModel {
        WindowModel { handle: self.handle, process_name: self.process_name@ }
    }
}

impl DeepView for WindowInfo {
    type V = WindowModel;

    open spec fn deep_view(&self) -> WindowModel {
        self.view()
    }
}

/// What to do to one window: ask it to close, or hide it.
#[derive(Clone, Copy, PartialEq, Eq, Structural, Debug)]
pub struct WindowCommand {
    pub handle: u64,
    /// True: request a cooperative close. False: minimize, a
    /// non-destructive visibility change.
    pub close: bool,
}

/// What one poll tick decided.
pub struct TickResult {
    /// The window actions to perform, in decision order.
    pub commands: Vec<WindowCommand>,
    /// All suppression work is done, auto-exit is on and this run was
    /// boot-launched: the host process should exit.
    pub exit_host: bool,
    /// Nothing is left to do: the poll loop should end.
    pub stopped: bool,
}

/// The monitor's working state.
pub struct Monitor {
    /// Whether the poll loop is (to be) running.
    pub running: bool,
    /// Whether this run of the host was launched by the boot mechanism.
    pub is_autostart: bool,
    /// Item id to the default process name derived from its executable.
    pub monitored_items: Vec<(String, String)>,
    /// Process name to (item id, deadline in ms) — at most one pending
    /// delayed task per process name.
    pub delayed_tasks: Vec<(String, (String, u64))>,
}

/// A process name as the monitor matches it: the executable suffix
/// stripped, then lowercased.
pub open spec fn normalized_name(s: Seq<char>) -> Seq<char> {
    lower(trim_end_matches_spec(s, ".exe"@))
}

pub fn normalize_name(s: &str) -> (r: String)
    ensures
        r@ == normalized_name(s@),
{
    proof {
        reveal_strlit(".exe");
    }
    let stripped = text::trim_end_matches(s, ".exe");
    text::lower_str(stripped.as_str())
}

/// The last path separator in a path.
pub open spec fn last_sep(s: Seq<char>) -> Option<int>
    decreases s.len(),
{
    if s.len() == 0 {
        None
    } else if s.last() == '\\' || s.last() == '/' {
        Some(s.len() - 1)
    } else {
        last_sep(s.drop_last())
    }
}

/// The file-name component of a path.
pub open spec fn file_name_of(path: Seq<char>) -> Seq<char> {
    match last_sep(path) {
        Some(i) => path.skip(i + 1),
        None => path,
    }
}

/// The file name without its final extension.
pub open spec fn file_stem_of(path: Seq<char>) -> Seq<char> {
    let name = file_name_of(path);
    match crate::scanner::last_dot(name) {
        Some(i) => if i > 0 {
            name.take(i)
        } else {
            name
        },
        None => name,
    }
}

/// The default process name an executable path registers: its file stem,
/// lowercased.
pub open spec fn default_process_name(path: Seq<char>) -> Seq<char> {
    lower(file_stem_of(path))
}

fn not_sep_at(s: &str, i: usize) -> (r: bool)
    requires
        i < s@.len(),
    ensures
        r == (s@[i as int] != '\\' && s@[i as int] != '/'),
{
    let c = s.get_char(i);
    c != '\\' && c != '/'
}

/// Extracts the lowercased file stem of an executable path.
pub fn get_process_name_from_path(path: &str) -> (r: String)
    ensures
        r@ == default_process_name(path@),
{
    let n = path.unicode_len();
    let mut j = n;
    proof {
        assert(path@.take(n as int) =~= path@);
    }
    while j > 0 && not_sep_at(path, j - 1)
        invariant
            n == path@.len(),
            j <= n,
            last_sep(path@) == last_sep(path@.take(j as int)),
        decreases j,
    {
        proof {
            let t = path@.take(j as int);
            assert(t.last() == path@[j - 1]);
            assert(t.drop_last() =~= path@.take(j - 1));
        }
        j = j - 1;
    }
    proof {
        if j == 0 {
            assert(path@.take(0) =~= Seq::<char>::empty());
            assert(last_sep(path@) is None);
            assert(path@.skip(0) =~= path@);
        } else {
            let t = path@.take(j as int);
            assert(t.last() == path@[j - 1]);
            assert(last_sep(path@) == Some(j - 1));
        }
    }
    let name = text::substring(path, j, n);
    proof {
        assert(name@ == file_name_of(path@));
    }
    let nn = name.unicode_len();
    let mut k = nn;
    proof {
        assert(name@.take(nn as int) =~= name@);
    }
    while k > 0 && name.as_str().get_char(k - 1) != '.'
        invariant
            nn == name@.len(),
            k <= nn,
            crate::scanner::last_dot(name@) == crate::scanner::last_dot(name@.take(k as int)),
        decreases k,
    {
        proof {
            let t = name@.take(k as int);
            assert(t.last() == name@[k - 1]);
            assert(t.drop_last() =~= name@.take(k - 1));
        }
        k = k - 1;
    }
    let stem: String;
    if k == 0 {
        proof {
            assert(name@.take(0) =~= Seq::<char>::empty());
            assert(crate::scanner::last_dot(name@) is None);
        }
        stem = name;
    } else {
        proof {
            let t = name@.take(k as int);
            assert(t.last() == name@[k - 1]);
            assert(crate::scanner::last_dot(name@) == Some(k - 1));
        }
        if k - 1 > 0 {
            stem = text::substring(name.as_str(), 0, k - 1);
        } else {
            stem = name;
        }
    }
    proof {
        assert(stem@ == file_stem_of(path@));
    }
    text::lower_str(stem.as_str())
}

impl Monitor {
    /// Maps keep at most one binding per key.
    pub open spec fn wf(&self) -> bool {
        &&& distinct_keys(self.monitored_items.deep_view())
        &&& distinct_keys(self.delayed_tasks.deep_view())
    }

    /// A stopped monitor with nothing registered.
    pub fn new() -> (r: Monitor)
        ensures
            r.wf(),
            !r.running,
            !r.is_autostart,
            r.monitored_items.deep_view() == Seq::<(Seq<char>, Seq<char>)>::empty(),
            r.delayed_tasks.deep_view() == Seq::<(Seq<char>, (Seq<char>, u64))>::empty(),
    {
        let r = Monitor {
            running: false,
            is_autostart: false,
            monitored_items: Vec::new(),
            delayed_tasks: Vec::new(),
        };
        proof {
            assert(r.monitored_items.deep_view() =~= Seq::<(Seq<char>, Seq<char>)>::empty());
            assert(r.delayed_tasks.deep_view() =~= Seq::<(Seq<char>, (Seq<char>, u64))>::empty());
        }
        r
    }

    /// Registers an item for monitoring under the process name derived
    /// from its executable; a later registration with the same id
    /// overwrites the default (last scan wins). A path that yields an
    /// empty name registers nothing.
    pub fn add_monitored_item(&mut self, item_id: &str, exe_path: &str)
        requires
            old(self).wf(),
        ensures
            final(self).wf(),
            final(self).running == old(self).running,
            final(self).is_autostart == old(self).is_autostart,
            final(self).delayed_tasks == old(self).delayed_tasks,
            default_process_name(exe_path@).len() > 0 ==> {
                &&& lookup(final(self).monitored_items.deep_view(), item_id@) == Some(
                    default_process_name(exe_path@),
                )
                &&& forall|j: Seq<char>|
                    j != item_id@ ==> #[trigger] lookup(final(self).monitored_items.deep_view(), j)
                        == lookup(old(self).monitored_items.deep_view(), j)
            },
            default_process_name(exe_path@).len() == 0 ==> final(self).monitored_items == old(
                self,
            ).monitored_items,
    {
        let process_name = get_process_name_from_path(exe_path);
        if process_name.unicode_len() > 0 {
            assoc_set(&mut self.monitored_items, item_id, process_name);
        }
    }

    /// Stops the poll loop; it observes the flag on its next tick.
    pub fn stop_monitor(&mut self)
        ensures
            !final(self).running,
            final(self).is_autostart == old(self).is_autostart,
            final(self).monitored_items == old(self).monitored_items,
            final(self).delayed_tasks == old(self).delayed_tasks,
    {
        self.running = false;
    }

    /// Starts the monitor; a start while already running is a safe no-op
    /// and reports false. Records whether this run was boot-launched,
    /// which gates auto-exit later.
    pub fn start_monitor(&mut self, autostart: bool) -> (r: bool)
        ensures
            old(self).running ==> !r && *final(self) == *old(self),
            !old(self).running ==> {
                &&& r
                &&& final(self).running
                &&& final(self).is_autostart == autostart
                &&& final(self).monitored_items == old(self).monitored_items
                &&& final(self).delayed_tasks == old(self).delayed_tasks
            },
    {
        if self.running {
            return false;
        }
        self.running = true;
        self.is_autostart = autostart;
        true
    }
}

/// The effective process name of an item: the configured override if one
/// exists, else the registered default.
pub open spec fn effective_name(s: SettingsModel, id: Seq<char>, dflt: Seq<char>) -> Seq<char> {
    match lookup(s.process_name_mappings, id) {
        Some(n) => n,
        None => dflt,
    }
}

/// The active set: registered items opted into suppression, as
/// (effective process name, item id, configured delay) triples, in
/// registration order.
pub open spec fn processes_spec(items: Seq<(Seq<char>, Seq<char>)>, s: SettingsModel) -> Seq<
    (Seq<char>, Seq<char>, u32),
>
    decreases items.len(),
{
    if items.len() == 0 {
        Seq::empty()
    } else {
        let head = if s.auto_minimize_items.contains(items[0].0) {
            seq![
                (effective_name(s, items[0].0, items[0].1), items[0].0, delay_of(s, items[0].0)),
            ]
        } else {
            Seq::<(Seq<char>, Seq<char>, u32)>::empty()
        };
        head + processes_spec(items.drop_first(), s)
    }
}

proof fn lemma_processes_concat(
    a: Seq<(Seq<char>, Seq<char>)>,
    b: Seq<(Seq<char>, Seq<char>)>,
    s: SettingsModel,
)
    ensures
        processes_spec(a + b, s) == processes_spec(a, s) + processes_spec(b, s),
    decreases a.len(),
{
    if a.len() == 0 {
        assert(a + b =~= b);
        assert(Seq::<(Seq<char>, Seq<char>, u32)>::empty() + processes_spec(b, s)
            =~= processes_spec(b, s));
    } else {
        assert((a + b).drop_first() =~= a.drop_first() + b);
        lemma_processes_concat(a.drop_first(), b, s);
        assert((a + b)[0] == a[0]);
        let h = if s.auto_minimize_items.contains(a[0].0) {
            seq![(effective_name(s, a[0].0, a[0].1), a[0].0, delay_of(s, a[0].0))]
        } else {
            Seq::<(Seq<char>, Seq<char>, u32)>::empty()
        };
        assert(h + (processes_spec(a.drop_first(), s) + processes_spec(b, s)) =~= (h
            + processes_spec(a.drop_first(), s)) + processes_spec(b, s));
    }
}

proof fn lemma_processes_single(p: (Seq<char>, Seq<char>), s: SettingsModel)
    ensures
        processes_spec(seq![p], s) == if s.auto_minimize_items.contains(p.0) {
            seq![(effective_name(s, p.0, p.1), p.0, delay_of(s, p.0))]
        } else {
            Seq::<(Seq<char>, Seq<char>, u32)>::empty()
        },
{
    let single = seq![p];
    assert(single.drop_first() =~= Seq::<(Seq<char>, Seq<char>)>::empty());
    assert(single[0] == p);
    let h = if s.auto_minimize_items.contains(p.0) {
        seq![(effective_name(s, p.0, p.1), p.0, delay_of(s, p.0))]
    } else {
        Seq::<(Seq<char>, Seq<char>, u32)>::empty()
    };
    assert(processes_spec(Seq::<(Seq<char>, Seq<char>)>::empty(), s) =~= Seq::<
        (Seq<char>, Seq<char>, u32),
    >::empty());
    assert(processes_spec(single, s) =~= h + processes_spec(
        Seq::<(Seq<char>, Seq<char>)>::empty(),
        s,
    ));
    assert(h + Seq::<(Seq<char>, Seq<char>, u32)>::empty() =~= h);
}

/// Every active triple carries its item's configured delay and effective
/// name.
pub proof fn lemma_processes_delay(items: Seq<(Seq<char>, Seq<char>)>, s: SettingsModel)
    ensures
        forall|k: int|
            0 <= k < processes_spec(items, s).len() ==> {
                let t = #[trigger] processes_spec(items, s)[k];
                t.2 == delay_of(s, t.1) && s.auto_minimize_items.contains(t.1)
            },
    decreases items.len(),
{
    if items.len() > 0 {
        lemma_processes_delay(items.drop_first(), s);
        let h = if s.auto_minimize_items.contains(items[0].0) {
            seq![
                (effective_name(s, items[0].0, items[0].1), items[0].0, delay_of(s, items[0].0)),
            ]
        } else {
            Seq::<(Seq<char>, Seq<char>, u32)>::empty()
        };
        assert(forall|k: int|
            0 <= k < processes_spec(items.drop_first(), s).len()
                ==> #[trigger] processes_spec(items, s)[k + h.len()] == processes_spec(
                items.drop_first(),
                s,
            )[k]);
    }
}

impl Monitor {
    /// The active set right now, as plain values.
    pub fn get_processes_to_monitor(&self, store: &SettingsStore) -> (r: Vec<
        (String, String, u32),
    >)
        ensures
            r.deep_view() == processes_spec(self.monitored_items.deep_view(), store.settings@),
    {
        let ghost mv = self.monitored_items.deep_view();
        let ghost s = store.settings@;
        let mut r: Vec<(String, String, u32)> = Vec::new();
        proof {
            assert(mv.take(0) =~= Seq::<(Seq<char>, Seq<char>)>::empty());
            assert(r.deep_view() =~= Seq::<(Seq<char>, Seq<char>, u32)>::empty());
        }
        let n = self.monitored_items.len();
        let mut i: usize = 0;
        while i < n
            invariant
                n == self.monitored_items@.len(),
                mv == self.monitored_items.deep_view(),
                mv.len() == n,
                s == store.settings@,
                i <= n,
                r.deep_view() == processes_spec(mv.take(i as int), s),
            decreases n - i,
        {
            proof {
                assert(mv[i as int] == self.monitored_items@[i as int].deep_view());
            }
            let ghost prev = r.deep_view();
            let item_id = &self.monitored_items[i].0;
            let dflt = &self.monitored_items[i].1;
            if store.is_auto_minimize_enabled(item_id.as_str()) {
                let name = match store.get_process_name_mapping(item_id.as_str()) {
                    Some(n) => n,
                    None => dflt.clone(),
                };
                let delay = store.get_minimize_delay(item_id.as_str());
                let triple = (name, item_id.clone(), delay);
                proof {
                    assert(triple.deep_view() == (
                        effective_name(s, mv[i as int].0, mv[i as int].1),
                        mv[i as int].0,
                        delay_of(s, mv[i as int].0),
                    ));
                }
                r.push(triple);
                proof {
                    let rv = r.deep_view();
                    assert(rv =~= prev + seq![
                        (
                            effective_name(s, mv[i as int].0, mv[i as int].1),
                            mv[i as int].0,
                            delay_of(s, mv[i as int].0),
                        ),
                    ]) by {
                        assert(rv.len() == prev.len() + 1);
                        assert(forall|a: int|
                            0 <= a < rv.len() ==> #[trigger] rv[a] == r@[a].deep_view());
                        assert(forall|a: int|
                            0 <= a < prev.len() ==> #[trigger] rv[a] == prev[a]);
                    }
                }
            } else {
                proof {
                    assert(r.deep_view() =~= prev + Seq::<(Seq<char>, Seq<char>, u32)>::empty());
                }
            }
            proof {
                assert(mv.take(i + 1) =~= mv.take(i as int) + seq![mv[i as int]]);
                lemma_processes_concat(mv.take(i as int), seq![mv[i as int]], s);
                lemma_processes_single(mv[i as int], s);
            }
            i = i + 1;
        }
        proof {
            assert(mv.take(n as int) =~= mv);
        }
        r
    }

    /// Reports whether the loop runs and how many registered items are
    /// policy-active, recomputed on demand.
    pub fn get_monitor_status(&self, store: &SettingsStore) -> (r: (bool, usize))
        ensures
            r.0 == self.running,
            r.1 == processes_spec(self.monitored_items.deep_view(), store.settings@).len(),
    {
        let procs = self.get_processes_to_monitor(store);
        (self.running, procs.len())
    }
}

/// Which windows get acted on: walking the windows in order, a window is
/// matched when its normalized process name is a target, was not acted on
/// this session, and no earlier window of the same process name was
/// already matched — at most one action per process name.
pub open spec fn matches_from(
    windows: Seq<WindowModel>,
    targets: Seq<(Seq<char>, Seq<char>)>,
    session: Seq<Seq<char>>,
    seen: Seq<Seq<char>>,
) -> Seq<(u64, Seq<char>, Seq<char>)>
    decreases windows.len(),
{
    if windows.len() == 0 {
        Seq::empty()
    } else {
        let pn = normalized_name(windows[0].process_name);
        match lookup(targets, pn) {
            Some(id) => if !session.contains(pn) && !seen.contains(pn) {
                seq![(windows[0].handle, pn, id)] + matches_from(
                    windows.drop_first(),
                    targets,
                    session,
                    seen.push(pn),
                )
            } else {
                matches_from(windows.drop_first(), targets, session, seen)
            },
            None => matches_from(windows.drop_first(), targets, session, seen),
        }
    }
}

/// The matches of a full pass over the windows.
pub open spec fn matches_spec(
    windows: Seq<WindowModel>,
    targets: Seq<(Seq<char>, Seq<char>)>,
    session: Seq<Seq<char>>,
) -> Seq<(u64, Seq<char>, Seq<char>)> {
    matches_from(windows, targets, session, Seq::empty())
}

/// Matched process names are pairwise distinct, never in the session set,
/// never in `seen`, and already case-normalized: one action per process
/// name, and never a second one in the same session.
pub proof fn lemma_matches_distinct(
    windows: Seq<WindowModel>,
    targets: Seq<(Seq<char>, Seq<char>)>,
    session: Seq<Seq<char>>,
    seen: Seq<Seq<char>>,
)
    ensures
        ({
            let ms = matches_from(windows, targets, session, seen);
            &&& forall|i: int, j: int| 0 <= i < j < ms.len() ==> (#[trigger] ms[i]).1 != (
            #[trigger] ms[j]).1
            &&& forall|i: int| 0 <= i < ms.len() ==> !session.contains((#[trigger] ms[i]).1)
            &&& forall|i: int| 0 <= i < ms.len() ==> !seen.contains((#[trigger] ms[i]).1)
            &&& forall|i: int|
                0 <= i < ms.len() ==> lower((#[trigger] ms[i]).1) == ms[i].1
        }),
    decreases windows.len(),
{
    let ms = matches_from(windows, targets, session, seen);
    if windows.len() == 0 {
        assert(ms =~= Seq::<(u64, Seq<char>, Seq<char>)>::empty());
    } else {
        let pn = normalized_name(windows[0].process_name);
        lemma_lower_idempotent(trim_end_matches_spec(windows[0].process_name, ".exe"@));
        match lookup(targets, pn) {
            Some(id) => {
                if !session.contains(pn) && !seen.contains(pn) {
                    lemma_matches_distinct(windows.drop_first(), targets, session, seen.push(pn));
                    let rest = matches_from(windows.drop_first(), targets, session, seen.push(pn));
                    let m0 = (windows[0].handle, pn, id);
                    assert(ms == seq![m0] + rest);
                    assert(ms.len() == 1 + rest.len());
                    assert(ms[0] == m0);
                    assert forall|i: int| 1 <= i < ms.len() implies #[trigger] ms[i] == rest[i
                        - 1] by {}
                    assert(seen.push(pn)[seen.len() as int] == pn);
                    assert(seen.push(pn).contains(pn));
                    assert forall|j: Seq<char>|
                        seen.contains(j) implies seen.push(pn).contains(j) by {
                        let w = choose|w: int| 0 <= w < seen.len() && seen[w] == j;
                        assert(seen.push(pn)[w] == j);
                    }
                    assert forall|i: int, j: int| 0 <= i < j < ms.len() implies (
                    #[trigger] ms[i]).1 != (#[trigger] ms[j]).1 by {
                        assert(ms[j] == rest[j - 1]);
                        assert(!seen.push(pn).contains(rest[j - 1].1));
                        if i > 0 {
                            assert(ms[i] == rest[i - 1]);
                        }
                    }
                    assert forall|i: int|
                        0 <= i < ms.len() implies !session.contains((#[trigger] ms[i]).1) by {
                        if i > 0 {
                            assert(ms[i] == rest[i - 1]);
                        }
                    }
                    assert forall|i: int|
                        0 <= i < ms.len() implies !seen.contains((#[trigger] ms[i]).1) by {
                        if i > 0 {
                            assert(ms[i] == rest[i - 1]);
                            assert(!seen.push(pn).contains(rest[i - 1].1));
                        }
                    }
                    assert forall|i: int|
                        0 <= i < ms.len() implies lower((#[trigger] ms[i]).1) == ms[i].1 by {
                        if i > 0 {
                            assert(ms[i] == rest[i - 1]);
                        }
                    }
                } else {
                    lemma_matches_distinct(windows.drop_first(), targets, session, seen);
                    assert(ms == matches_from(windows.drop_first(), targets, session, seen));
                }
            },
            None => {
                lemma_matches_distinct(windows.drop_first(), targets, session, seen);
                assert(ms == matches_from(windows.drop_first(), targets, session, seen));
            },
        }
    }
}

/// The commands the matches call for, under the configured behaviors.
pub open spec fn commands_of(ms: Seq<(u64, Seq<char>, Seq<char>)>, s: SettingsModel) -> Seq<
    WindowCommand,
> {
    ms.map_values(
        |m: (u64, Seq<char>, Seq<char>)|
            WindowCommand { handle: m.0, close: behavior_of(s, m.2) == "close"@ },
    )
}

/// The (process name, item id) pairs of the matches.
pub open spec fn results_of(ms: Seq<(u64, Seq<char>, Seq<char>)>) -> Seq<(Seq<char>, Seq<char>)> {
    ms.map_values(|m: (u64, Seq<char>, Seq<char>)| (m.1, m.2))
}

/// Decides which of the given windows to act on and how, for the given
/// `(process name, item id)` targets. Returns the window commands and the
/// `(process name, item id)` pairs that were matched. Nothing is mutated
/// here; the caller performs the commands and records the results.
pub fn find_and_minimize_windows(
    targets: &Vec<(String, String)>,
    windows: &Vec<WindowInfo>,
    store: &SettingsStore,
) -> (r: (Vec<WindowCommand>, Vec<(String, String)>))
    ensures
        ({
            let ms = matches_spec(
                windows.deep_view(),
                targets.deep_view(),
                store.minimized_this_session.deep_view(),
            );
            r.0@ == commands_of(ms, store.settings@) && r.1.deep_view() == results_of(ms)
        }),
{
    let ghost wv = windows.deep_view();
    let ghost tv = targets.deep_view();
    let ghost sess = store.minimized_this_session.deep_view();
    let ghost full = matches_spec(wv, tv, sess);
    let mut cmds: Vec<WindowCommand> = Vec::new();
    let mut results: Vec<(String, String)> = Vec::new();
    let mut seen: Vec<String> = Vec::new();
    let ghost collected = Seq::<(u64, Seq<char>, Seq<char>)>::empty();
    proof {
        assert(seen.deep_view() =~= Seq::<Seq<char>>::empty());
        assert(wv.skip(0) =~= wv);
        assert(collected + matches_from(wv.skip(0), tv, sess, seen.deep_view()) =~= full);
    }
    let n = windows.len();
    let mut i: usize = 0;
    let ghost mut collected_g = collected;
    while i < n
        invariant
            n == windows@.len(),
            wv == windows.deep_view(),
            tv == targets.deep_view(),
            sess == store.minimized_this_session.deep_view(),
            full == matches_spec(wv, tv, sess),
            wv.len() == n,
            i <= n,
            cmds@.len() == collected_g.len(),
            results@.len() == collected_g.len(),
            forall|a: int|
                0 <= a < collected_g.len() ==> #[trigger] cmds@[a] == (WindowCommand {
                    handle: collected_g[a].0,
                    close: behavior_of(store.settings@, collected_g[a].2) == "close"@,
                }),
            forall|a: int|
                0 <= a < collected_g.len() ==> (#[trigger] results@[a]).0@ == collected_g[a].1
                    && results@[a].1@ == collected_g[a].2,
            collected_g + matches_from(wv.skip(i as int), tv, sess, seen.deep_view()) == full,
        decreases n - i,
    {
        proof {
            assert(wv[i as int] == windows@[i as int]@);
        }
        let ghost rest = wv.skip(i as int);
        let ghost seen0 = seen.deep_view();
        proof {
            assert(rest[0] == wv[i as int]);
            assert(rest.drop_first() =~= wv.skip(i + 1));
        }
        let pn = normalize_name(windows[i].process_name.as_str());
        match assoc_get(targets, pn.as_str()) {
            Some(id_ref) => {
                let in_session = set_contains(&store.minimized_this_session, pn.as_str());
                let in_seen = set_contains(&seen, pn.as_str());
                if !in_session && !in_seen {
                    let id = id_ref.clone();
                    let behavior = store.get_minimize_behavior(id.as_str());
                    let close = text::str_eq(behavior.as_str(), "close");
                    let ghost m = (windows@[i as int].handle, pn@, id@);
                    let handle = windows[i].handle;
                    cmds.push(WindowCommand { handle, close });
                    results.push((pn.clone(), id.clone()));
                    seen.push(pn);
                    proof {
                        let prev_g = collected_g;
                        collected_g = collected_g.push(m);
                        assert(forall|a: int|
                            0 <= a < prev_g.len() ==> #[trigger] collected_g[a] == prev_g[a]);
                        assert(collected_g[prev_g.len() as int] == m);
                        assert(seen.deep_view() =~= seen0.push(m.1)) by {
                            let sv = seen.deep_view();
                            assert(sv.len() == seen0.len() + 1);
                            assert(forall|a: int|
                                0 <= a < sv.len() ==> #[trigger] sv[a] == seen@[a]@);
                            assert(forall|a: int|
                                0 <= a < seen0.len() ==> #[trigger] sv[a] == seen0[a]);
                        }
                        assert(matches_from(rest, tv, sess, seen0) == seq![m] + matches_from(
                            rest.drop_first(),
                            tv,
                            sess,
                            seen0.push(m.1),
                        ));
                        assert(prev_g + (seq![m] + matches_from(
                            wv.skip(i + 1),
                            tv,
                            sess,
                            seen0.push(m.1),
                        )) =~= collected_g + matches_from(wv.skip(i + 1), tv, sess, seen0.push(m.1)));
                    }
                } else {
                    proof {
                        assert(matches_from(rest, tv, sess, seen0) == matches_from(
                            wv.skip(i + 1),
                            tv,
                            sess,
                            seen0,
                        ));
                    }
                }
            },
            None => {
                proof {
                    assert(matches_from(rest, tv, sess, seen0) == matches_from(
                        wv.skip(i + 1),
                        tv,
                        sess,
                        seen0,
                    ));
                }
            },
        }
        i = i + 1;
    }
    proof {
        assert(wv.skip(n as int) =~= Seq::<WindowModel>::empty());
        assert(collected_g + Seq::<(u64, Seq<char>, Seq<char>)>::empty() =~= collected_g);
        assert(collected_g == full);
        assert(cmds@ =~= commands_of(full, store.settings@));
        assert(results.deep_view() =~= results_of(full)) by {
            let rv = results.deep_view();
            assert(forall|a: int| 0 <= a < rv.len() ==> #[trigger] rv[a] == results@[a].deep_view());
        }
    }
    (cmds, results)
}

/// The tasks still pending after `now`: those whose deadline lies ahead.
pub open spec fn remaining_tasks(
    tasks: Seq<(Seq<char>, (Seq<char>, u64))>,
    now: u64,
) -> Seq<(Seq<char>, (Seq<char>, u64))>
    decreases tasks.len(),
{
    if tasks.len() == 0 {
        Seq::empty()
    } else {
        (if tasks[0].1.1 > now {
            seq![tasks[0]]
        } else {
            Seq::<(Seq<char>, (Seq<char>, u64))>::empty()
        }) + remaining_tasks(tasks.drop_first(), now)
    }
}

/// The `(process name, item id)` targets of the tasks due at `now`.
pub open spec fn due_targets(tasks: Seq<(Seq<char>, (Seq<char>, u64))>, now: u64) -> Seq<
    (Seq<char>, Seq<char>),
>
    decreases tasks.len(),
{
    if tasks.len() == 0 {
        Seq::empty()
    } else {
        (if tasks[0].1.1 <= now {
            seq![(tasks[0].0, tasks[0].1.0)]
        } else {
            Seq::<(Seq<char>, Seq<char>)>::empty()
        }) + due_targets(tasks.drop_first(), now)
    }
}

/// Splitting at an index distributes over both filters.
proof fn lemma_split_tasks_concat(
    a: Seq<(Seq<char>, (Seq<char>, u64))>,
    b: Seq<(Seq<char>, (Seq<char>, u64))>,
    now: u64,
)
    ensures
        remaining_tasks(a + b, now) == remaining_tasks(a, now) + remaining_tasks(b, now),
        due_targets(a + b, now) == due_targets(a, now) + due_targets(b, now),
    decreases a.len(),
{
    if a.len() == 0 {
        assert(a + b =~= b);
        assert(Seq::<(Seq<char>, (Seq<char>, u64))>::empty() + remaining_tasks(b, now)
            =~= remaining_tasks(b, now));
        assert(Seq::<(Seq<char>, Seq<char>)>::empty() + due_targets(b, now) =~= due_targets(
            b,
            now,
        ));
    } else {
        assert((a + b).drop_first() =~= a.drop_first() + b);
        lemma_split_tasks_concat(a.drop_first(), b, now);
        assert((a + b)[0] == a[0]);
        let hr = if a[0].1.1 > now {
            seq![a[0]]
        } else {
            Seq::<(Seq<char>, (Seq<char>, u64))>::empty()
        };
        let hd = if a[0].1.1 <= now {
            seq![(a[0].0, a[0].1.0)]
        } else {
            Seq::<(Seq<char>, Seq<char>)>::empty()
        };
        assert(hr + (remaining_tasks(a.drop_first(), now) + remaining_tasks(b, now)) =~= (hr
            + remaining_tasks(a.drop_first(), now)) + remaining_tasks(b, now));
        assert(hd + (due_targets(a.drop_first(), now) + due_targets(b, now)) =~= (hd + due_targets(
            a.drop_first(),
            now,
        )) + due_targets(b, now));
    }
}

proof fn lemma_split_tasks_single(t: (Seq<char>, (Seq<char>, u64)), now: u64)
    ensures
        remaining_tasks(seq![t], now) == if t.1.1 > now {
            seq![t]
        } else {
            Seq::<(Seq<char>, (Seq<char>, u64))>::empty()
        },
        due_targets(seq![t], now) == if t.1.1 <= now {
            seq![(t.0, t.1.0)]
        } else {
            Seq::<(Seq<char>, Seq<char>)>::empty()
        },
{
    let single = seq![t];
    assert(single.drop_first() =~= Seq::<(Seq<char>, (Seq<char>, u64))>::empty());
    assert(single[0] == t);
    assert(remaining_tasks(Seq::<(Seq<char>, (Seq<char>, u64))>::empty(), now) =~= Seq::<
        (Seq<char>, (Seq<char>, u64)),
    >::empty());
    assert(due_targets(Seq::<(Seq<char>, (Seq<char>, u64))>::empty(), now) =~= Seq::<
        (Seq<char>, Seq<char>),
    >::empty());
    if t.1.1 > now {
        assert(remaining_tasks(single, now) =~= seq![t]);
        assert(due_targets(single, now) =~= Seq::<(Seq<char>, Seq<char>)>::empty());
    } else {
        assert(remaining_tasks(single, now) =~= Seq::<(Seq<char>, (Seq<char>, u64))>::empty());
        assert(due_targets(single, now) =~= seq![(t.0, t.1.0)]);
    }
}

/// With one binding per key, what survives a deadline pass is exactly the
/// not-yet-due binding of each key.
pub proof fn lemma_remaining_lookup(tasks: Seq<(Seq<char>, (Seq<char>, u64))>, now: u64)
    requires
        distinct_keys(tasks),
    ensures
        distinct_keys(remaining_tasks(tasks, now)),
        forall|p: Seq<char>|
            #[trigger] lookup(remaining_tasks(tasks, now), p) == (match lookup(tasks, p) {
                Some(t) => if t.1 > now {
                    Some(t)
                } else {
                    None
                },
                None => None,
            }),
    decreases tasks.len(),
{
    let r = remaining_tasks(tasks, now);
    if tasks.len() == 0 {
        assert(r =~= Seq::<(Seq<char>, (Seq<char>, u64))>::empty());
        assert(forall|p: Seq<char>| #[trigger] lookup(r, p) is None);
    } else {
        let rest = tasks.drop_first();
        assert(forall|a: int| 0 <= a < rest.len() ==> #[trigger] rest[a] == tasks[a + 1]);
        lemma_remaining_lookup(rest, now);
        let h = if tasks[0].1.1 > now {
            seq![tasks[0]]
        } else {
            Seq::<(Seq<char>, (Seq<char>, u64))>::empty()
        };
        assert(r == h + remaining_tasks(rest, now));
        assert forall|p: Seq<char>| true implies #[trigger] lookup(r, p) == (match lookup(
            tasks,
            p,
        ) {
            Some(t) => if t.1 > now {
                Some(t)
            } else {
                None
            },
            None => None,
        }) by {
            let rr = remaining_tasks(rest, now);
            crate::assoc::lemma_lookup_concat(h, rr, p);
            if p == tasks[0].0 {
                assert(lookup(tasks, p) == Some(tasks[0].1));
            } else {
                assert(lookup(tasks, p) == lookup(rest, p));
            }
            if h.len() > 0 {
                assert(h[0] == tasks[0]);
                assert(h.drop_first() =~= Seq::<(Seq<char>, (Seq<char>, u64))>::empty());
                assert(lookup(h, p) == if p == tasks[0].0 {
                    Some(tasks[0].1)
                } else {
                    None
                }) by {
                    assert(lookup(Seq::<(Seq<char>, (Seq<char>, u64))>::empty(), p) is None);
                }
            } else {
                assert(lookup(h, p) is None);
            }
            if p == tasks[0].0 && tasks[0].1.1 <= now {
                // the key's only binding was due and dropped
                assert(forall|a: int| 0 <= a < rest.len() ==> (#[trigger] rest[a]).0 != p);
                crate::assoc::lemma_lookup_none(rest, p);
                assert(lookup(rest, p) is None);
            }
        }
        assert(distinct_keys(r)) by {
            crate::assoc::lemma_lookup_none(rest, tasks[0].0);
            lemma_remaining_distinct_helper(tasks, now);
        }
    }
}

proof fn lemma_remaining_distinct_helper(tasks: Seq<(Seq<char>, (Seq<char>, u64))>, now: u64)
    requires
        distinct_keys(tasks),
        tasks.len() > 0,
        distinct_keys(remaining_tasks(tasks.drop_first(), now)),
        forall|p: Seq<char>|
            #[trigger] lookup(remaining_tasks(tasks.drop_first(), now), p) == (match lookup(
                tasks.drop_first(),
                p,
            ) {
                Some(t) => if t.1 > now {
                    Some(t)
                } else {
                    None
                },
                None => None,
            }),
    ensures
        distinct_keys(remaining_tasks(tasks, now)),
{
    let rest = tasks.drop_first();
    let rr = remaining_tasks(rest, now);
    let r = remaining_tasks(tasks, now);
    assert(forall|a: int| 0 <= a < rest.len() ==> #[trigger] rest[a] == tasks[a + 1]);
    if tasks[0].1.1 > now {
        assert(r == seq![tasks[0]] + rr);
        assert(forall|a: int| 0 <= a < rr.len() ==> #[trigger] r[a + 1] == rr[a]);
        assert(r[0] == tasks[0]);
        // the head's key does not recur in the tail, so not in its filtrate
        assert forall|a: int| 0 <= a < rr.len() implies (#[trigger] rr[a]).0 != tasks[0].0 by {
            crate::assoc::lemma_lookup_none(rest, tasks[0].0);
            if lookup(rest, tasks[0].0) is None {
                crate::assoc::lemma_lookup_none(rr, tasks[0].0);
                assert(lookup(rr, tasks[0].0) is None);
            }
        }
        assert forall|i: int, j: int| 0 <= i < j < r.len() implies (#[trigger] r[i]).0 != (
        #[trigger] r[j]).0 by {
            if i > 0 {
                assert(r[i] == rr[i - 1]);
            }
            assert(r[j] == rr[j - 1]);
        }
    } else {
        assert(r =~= rr);
    }
}

/// A task whose deadline lies ahead survives the pass untouched and is
/// not among the due targets: nothing acts on it before its time.
pub proof fn lemma_pending_task_survives(
    tasks: Seq<(Seq<char>, (Seq<char>, u64))>,
    now: u64,
    p: Seq<char>,
)
    requires
        distinct_keys(tasks),
        lookup(tasks, p) is Some,
        lookup(tasks, p).unwrap().1 > now,
    ensures
        lookup(remaining_tasks(tasks, now), p) == lookup(tasks, p),
        forall|k: int| 0 <= k < due_targets(tasks, now).len() ==> (#[trigger] due_targets(
            tasks,
            now,
        )[k]).0 != p,
    decreases tasks.len(),
{
    lemma_remaining_lookup(tasks, now);
    let rest = tasks.drop_first();
    assert(forall|a: int| 0 <= a < rest.len() ==> #[trigger] rest[a] == tasks[a + 1]);
    let d = due_targets(tasks, now);
    if tasks[0].0 == p {
        // the binding sits at the head and is not due
        assert(tasks[0].1.1 > now);
        assert(d == due_targets(rest, now));
        crate::assoc::lemma_lookup_none(rest, p);
        lemma_due_keys_absent(rest, now, p);
    } else {
        if tasks[0].1.1 <= now {
            assert(d == seq![(tasks[0].0, tasks[0].1.0)] + due_targets(rest, now));
            lemma_pending_task_survives(rest, now, p);
            assert(forall|a: int|
                0 <= a < due_targets(rest, now).len() ==> #[trigger] d[a + 1] == due_targets(
                    rest,
                    now,
                )[a]);
            assert(d[0].0 != p);
        } else {
            assert(due_targets(tasks, now) == due_targets(rest, now));
            lemma_pending_task_survives(rest, now, p);
        }
    }
}

/// A key bound nowhere yields no due target.
proof fn lemma_due_keys_absent(tasks: Seq<(Seq<char>, (Seq<char>, u64))>, now: u64, p: Seq<char>)
    requires
        forall|a: int| 0 <= a < tasks.len() ==> (#[trigger] tasks[a]).0 != p,
    ensures
        forall|k: int| 0 <= k < due_targets(tasks, now).len() ==> (#[trigger] due_targets(
            tasks,
            now,
        )[k]).0 != p,
    decreases tasks.len(),
{
    if tasks.len() > 0 {
        let rest = tasks.drop_first();
        assert(forall|a: int| 0 <= a < rest.len() ==> #[trigger] rest[a] == tasks[a + 1]);
        lemma_due_keys_absent(rest, now, p);
        let d = due_targets(tasks, now);
        if tasks[0].1.1 <= now {
            assert(d == seq![(tasks[0].0, tasks[0].1.0)] + due_targets(rest, now));
            assert(forall|a: int|
                0 <= a < due_targets(rest, now).len() ==> #[trigger] d[a + 1] == due_targets(
                    rest,
                    now,
                )[a]);
        } else {
            assert(d == due_targets(rest, now));
        }
    }
}

/// When every deadline lies ahead, nothing is due.
pub proof fn lemma_no_task_due(tasks: Seq<(Seq<char>, (Seq<char>, u64))>, now: u64)
    requires
        forall|a: int| 0 <= a < tasks.len() ==> (#[trigger] tasks[a]).1.1 > now,
    ensures
        due_targets(tasks, now).len() == 0,
    decreases tasks.len(),
{
    if tasks.len() > 0 {
        let rest = tasks.drop_first();
        assert(forall|a: int| 0 <= a < rest.len() ==> #[trigger] rest[a] == tasks[a + 1]);
        lemma_no_task_due(rest, now);
        assert(tasks[0].1.1 > now);
        assert(due_targets(tasks, now) == Seq::<(Seq<char>, Seq<char>)>::empty() + due_targets(
            rest,
            now,
        ));
        assert(Seq::<(Seq<char>, Seq<char>)>::empty() + due_targets(rest, now) =~= due_targets(
            rest,
            now,
        ));
    }
}

/// With no targets, no window matches.
pub proof fn lemma_matches_no_targets(
    windows: Seq<WindowModel>,
    session: Seq<Seq<char>>,
    seen: Seq<Seq<char>>,
)
    ensures
        matches_from(windows, Seq::empty(), session, seen).len() == 0,
    decreases windows.len(),
{
    if windows.len() > 0 {
        let pn = normalized_name(windows[0].process_name);
        assert(lookup(Seq::<(Seq<char>, Seq<char>)>::empty(), pn) is None);
        lemma_matches_no_targets(windows.drop_first(), session, seen);
    }
}

/// At most one delayed task per process name: two bindings of the same
/// name are the same binding.
pub proof fn lemma_at_most_one_delayed(m: Monitor, p: Seq<char>, i: int, j: int)
    requires
        m.wf(),
        0 <= i < m.delayed_tasks.deep_view().len(),
        0 <= j < m.delayed_tasks.deep_view().len(),
        m.delayed_tasks.deep_view()[i].0 == p,
        m.delayed_tasks.deep_view()[j].0 == p,
    ensures
        i == j,
{
}

/// Is some pair's id this id?
pub open spec fn has_id(rs: Seq<(Seq<char>, Seq<char>)>, id: Seq<char>) -> bool {
    exists|k: int| 0 <= k < rs.len() && (#[trigger] rs[k]).1 == id
}

/// Is some pair's process name this name?
pub open spec fn has_name(rs: Seq<(Seq<char>, Seq<char>)>, name: Seq<char>) -> bool {
    exists|k: int| 0 <= k < rs.len() && (#[trigger] rs[k]).0 == name
}

proof fn lemma_has_step(rs: Seq<(Seq<char>, Seq<char>)>, i: int)
    requires
        0 <= i < rs.len(),
    ensures
        forall|x: Seq<char>| #[trigger] has_id(rs.take(i + 1), x) == (has_id(rs.take(i), x)
            || rs[i].1 == x),
        forall|x: Seq<char>| #[trigger] has_name(rs.take(i + 1), x) == (has_name(rs.take(i), x)
            || rs[i].0 == x),
{
    assert forall|x: Seq<char>| #[trigger] has_id(rs.take(i + 1), x) == (has_id(rs.take(i), x)
        || rs[i].1 == x) by {
        if has_id(rs.take(i), x) {
            let k = choose|k: int| 0 <= k < rs.take(i).len() && (#[trigger] rs.take(i)[k]).1 == x;
            assert(rs.take(i + 1)[k].1 == x);
        }
        if rs[i].1 == x {
            assert(rs.take(i + 1)[i].1 == x);
        }
        if has_id(rs.take(i + 1), x) {
            let k = choose|k: int|
                0 <= k < rs.take(i + 1).len() && (#[trigger] rs.take(i + 1)[k]).1 == x;
            if k < i {
                assert(rs.take(i)[k].1 == x);
            }
        }
    }
    assert forall|x: Seq<char>| #[trigger] has_name(rs.take(i + 1), x) == (has_name(
        rs.take(i),
        x,
    ) || rs[i].0 == x) by {
        if has_name(rs.take(i), x) {
            let k = choose|k: int| 0 <= k < rs.take(i).len() && (#[trigger] rs.take(i)[k]).0 == x;
            assert(rs.take(i + 1)[k].0 == x);
        }
        if rs[i].0 == x {
            assert(rs.take(i + 1)[i].0 == x);
        }
        if has_name(rs.take(i + 1), x) {
            let k = choose|k: int|
                0 <= k < rs.take(i + 1).len() && (#[trigger] rs.take(i + 1)[k]).0 == x;
            if k < i {
                assert(rs.take(i)[k].0 == x);
            }
        }
    }
}

/// The state one tick threads: the commands decided so far and the
/// session, execution-time and monitored maps as they stand.
pub struct TickState {
    pub commands: Seq<WindowCommand>,
    pub session: Seq<Seq<char>>,
    pub times: Seq<(Seq<char>, u64)>,
    pub monitored: Seq<(Seq<char>, Seq<char>)>,
}

/// What recording a list of `(process name, item id)` results does: each
/// name enters the session set, each id gets the timestamp and leaves the
/// monitored set, in order.
pub open spec fn record_results(st: TickState, rs: Seq<(Seq<char>, Seq<char>)>, now: u64) -> TickState
    decreases rs.len(),
{
    if rs.len() == 0 {
        st
    } else {
        record_results(
            TickState {
                commands: st.commands,
                session: insert_name(st.session, rs[0].0),
                times: set_key(st.times, rs[0].1, now),
                monitored: remove_key(st.monitored, rs[0].1),
            },
            rs.drop_first(),
            now,
        )
    }
}

/// Recording one more result is one more step of the fold.
proof fn lemma_record_results_push(
    st: TickState,
    rs: Seq<(Seq<char>, Seq<char>)>,
    x: (Seq<char>, Seq<char>),
    now: u64,
)
    ensures
        record_results(st, rs.push(x), now) == ({
            let mid = record_results(st, rs, now);
            TickState {
                commands: mid.commands,
                session: insert_name(mid.session, x.0),
                times: set_key(mid.times, x.1, now),
                monitored: remove_key(mid.monitored, x.1),
            }
        }),
    decreases rs.len(),
{
    if rs.len() == 0 {
        let stepped = TickState {
            commands: st.commands,
            session: insert_name(st.session, x.0),
            times: set_key(st.times, x.1, now),
            monitored: remove_key(st.monitored, x.1),
        };
        assert(rs.push(x)[0] == x);
        assert(rs.push(x).drop_first() =~= Seq::<(Seq<char>, Seq<char>)>::empty());
        assert(record_results(st, rs.push(x), now) == record_results(
            stepped,
            rs.push(x).drop_first(),
            now,
        ));
        assert(record_results(stepped, rs.push(x).drop_first(), now) == stepped);
        assert(record_results(st, rs, now) == st);
    } else {
        let stepped = TickState {
            commands: st.commands,
            session: insert_name(st.session, rs[0].0),
            times: set_key(st.times, rs[0].1, now),
            monitored: remove_key(st.monitored, rs[0].1),
        };
        assert(rs.push(x)[0] == rs[0]);
        assert(rs.push(x).drop_first() =~= rs.drop_first().push(x));
        assert(record_results(st, rs.push(x), now) == record_results(
            stepped,
            rs.drop_first().push(x),
            now,
        ));
        assert(record_results(st, rs, now) == record_results(stepped, rs.drop_first(), now));
        lemma_record_results_push(stepped, rs.drop_first(), x, now);
    }
}

/// Recording never touches the commands, and the recorded maps depend
/// only on the maps, not on the commands carried alongside.
proof fn lemma_record_results_frame(
    a: TickState,
    b: TickState,
    rs: Seq<(Seq<char>, Seq<char>)>,
    now: u64,
)
    requires
        a.session == b.session,
        a.times == b.times,
        a.monitored == b.monitored,
    ensures
        record_results(a, rs, now).commands == a.commands,
        record_results(b, rs, now).commands == b.commands,
        record_results(a, rs, now).session == record_results(b, rs, now).session,
        record_results(a, rs, now).times == record_results(b, rs, now).times,
        record_results(a, rs, now).monitored == record_results(b, rs, now).monitored,
    decreases rs.len(),
{
    if rs.len() > 0 {
        lemma_record_results_frame(
            TickState {
                commands: a.commands,
                session: insert_name(a.session, rs[0].0),
                times: set_key(a.times, rs[0].1, now),
                monitored: remove_key(a.monitored, rs[0].1),
            },
            TickState {
                commands: b.commands,
                session: insert_name(b.session, rs[0].0),
                times: set_key(b.times, rs[0].1, now),
                monitored: remove_key(b.monitored, rs[0].1),
            },
            rs.drop_first(),
            now,
        );
    }
}

/// Records what was acted on: each matched process name enters the
/// session set, each matched item gets its execution time stamped and
/// leaves the monitored set — one-shot per item per session.
fn apply_match_results(
    monitored: &mut Vec<(String, String)>,
    store: &mut SettingsStore,
    results: &Vec<(String, String)>,
    now_ms: u64,
)
    requires
        distinct_keys(old(monitored).deep_view()),
        old(store).wf(),
        forall|k: int|
            0 <= k < results.deep_view().len() ==> crate::text::lower(
                (#[trigger] results.deep_view()[k]).0,
            ) == results.deep_view()[k].0,
    ensures
        distinct_keys(final(monitored).deep_view()),
        final(store).wf(),
        final(store).settings == old(store).settings,
        forall|id: Seq<char>|
            #[trigger] lookup(final(monitored).deep_view(), id) == if has_id(
                results.deep_view(),
                id,
            ) {
                None
            } else {
                lookup(old(monitored).deep_view(), id)
            },
        forall|j: Seq<char>|
            #[trigger] final(store).minimized_this_session.deep_view().contains(j) == (old(
                store,
            ).minimized_this_session.deep_view().contains(j) || has_name(results.deep_view(), j)),
        forall|id: Seq<char>|
            #[trigger] lookup(final(store).minimize_exec_times.deep_view(), id) == if has_id(
                results.deep_view(),
                id,
            ) {
                Some(now_ms)
            } else {
                lookup(old(store).minimize_exec_times.deep_view(), id)
            },
        results.deep_view().len() == 0 ==> *final(monitored) == *old(monitored) && *final(store)
            == *old(store),
        ({
            let stf = record_results(
                TickState {
                    commands: Seq::empty(),
                    session: old(store).minimized_this_session.deep_view(),
                    times: old(store).minimize_exec_times.deep_view(),
                    monitored: old(monitored).deep_view(),
                },
                results.deep_view(),
                now_ms,
            );
            &&& final(monitored).deep_view() == stf.monitored
            &&& final(store).minimized_this_session.deep_view() == stf.session
            &&& final(store).minimize_exec_times.deep_view() == stf.times
        }),
{
    let ghost st0 = TickState {
        commands: Seq::empty(),
        session: old(store).minimized_this_session.deep_view(),
        times: old(store).minimize_exec_times.deep_view(),
        monitored: old(monitored).deep_view(),
    };
    let ghost rv = results.deep_view();
    proof {
        assert(rv.take(0) =~= Seq::<(Seq<char>, Seq<char>)>::empty());
        assert(forall|x: Seq<char>| !has_id(rv.take(0), x));
        assert(forall|x: Seq<char>| !has_name(rv.take(0), x));
        assert(record_results(st0, rv.take(0), now_ms) == st0);
    }
    let n = results.len();
    let mut i: usize = 0;
    while i < n
        invariant
            n == results@.len(),
            rv == results.deep_view(),
            rv.len() == n,
            i <= n,
            n == 0 ==> *monitored == *old(monitored) && *store == *old(store),
            distinct_keys(monitored.deep_view()),
            store.wf(),
            store.settings == old(store).settings,
            forall|k: int| 0 <= k < n ==> crate::text::lower((#[trigger] rv[k]).0) == rv[k].0,
            forall|id: Seq<char>|
                #[trigger] lookup(monitored.deep_view(), id) == if has_id(rv.take(i as int), id) {
                    None
                } else {
                    lookup(old(monitored).deep_view(), id)
                },
            forall|j: Seq<char>|
                #[trigger] store.minimized_this_session.deep_view().contains(j) == (old(
                    store,
                ).minimized_this_session.deep_view().contains(j) || has_name(rv.take(i as int), j)),
            forall|id: Seq<char>|
                #[trigger] lookup(store.minimize_exec_times.deep_view(), id) == if has_id(
                    rv.take(i as int),
                    id,
                ) {
                    Some(now_ms)
                } else {
                    lookup(old(store).minimize_exec_times.deep_view(), id)
                },
            monitored.deep_view() == record_results(st0, rv.take(i as int), now_ms).monitored,
            store.minimized_this_session.deep_view() == record_results(
                st0,
                rv.take(i as int),
                now_ms,
            ).session,
            store.minimize_exec_times.deep_view() == record_results(
                st0,
                rv.take(i as int),
                now_ms,
            ).times,
        decreases n - i,
    {
        proof {
            assert(rv[i as int] == results@[i as int].deep_view());
        }
        let pn = &results[i].0;
        let id = &results[i].1;
        store.mark_as_minimized(pn.as_str());
        store.record_minimize_time(id.as_str(), now_ms);
        assoc_remove(monitored, id.as_str());
        proof {
            lemma_has_step(rv, i as int);
            assert(crate::text::lower(pn@) == pn@);
            assert(rv.take(i + 1) =~= rv.take(i as int).push(rv[i as int]));
            lemma_record_results_push(st0, rv.take(i as int), rv[i as int], now_ms);
        }
        i = i + 1;
    }
    proof {
        assert(rv.take(n as int) =~= rv);
    }
}

/// The active triples still awaiting work: those whose process name is
/// neither already handled this session nor already pending.
pub open spec fn pending_active(
    active: Seq<(Seq<char>, Seq<char>, u32)>,
    session: Seq<Seq<char>>,
    delayed: Seq<(Seq<char>, (Seq<char>, u64))>,
) -> Seq<(Seq<char>, Seq<char>, u32)>
    decreases active.len(),
{
    if active.len() == 0 {
        Seq::empty()
    } else {
        (if !session.contains(active[0].0) && !contains_key(delayed, active[0].0) {
            seq![active[0]]
        } else {
            Seq::<(Seq<char>, Seq<char>, u32)>::empty()
        }) + pending_active(active.drop_first(), session, delayed)
    }
}

proof fn lemma_pending_active_concat(
    a: Seq<(Seq<char>, Seq<char>, u32)>,
    b: Seq<(Seq<char>, Seq<char>, u32)>,
    session: Seq<Seq<char>>,
    delayed: Seq<(Seq<char>, (Seq<char>, u64))>,
)
    ensures
        pending_active(a + b, session, delayed) == pending_active(a, session, delayed)
            + pending_active(b, session, delayed),
    decreases a.len(),
{
    if a.len() == 0 {
        assert(a + b =~= b);
        assert(Seq::<(Seq<char>, Seq<char>, u32)>::empty() + pending_active(b, session, delayed)
            =~= pending_active(b, session, delayed));
    } else {
        assert((a + b).drop_first() =~= a.drop_first() + b);
        lemma_pending_active_concat(a.drop_first(), b, session, delayed);
        assert((a + b)[0] == a[0]);
        let h = if !session.contains(a[0].0) && !contains_key(delayed, a[0].0) {
            seq![a[0]]
        } else {
            Seq::<(Seq<char>, Seq<char>, u32)>::empty()
        };
        assert(h + (pending_active(a.drop_first(), session, delayed) + pending_active(
            b,
            session,
            delayed,
        )) =~= (h + pending_active(a.drop_first(), session, delayed)) + pending_active(
            b,
            session,
            delayed,
        ));
    }
}

proof fn lemma_pending_active_single(
    p: (Seq<char>, Seq<char>, u32),
    session: Seq<Seq<char>>,
    delayed: Seq<(Seq<char>, (Seq<char>, u64))>,
)
    ensures
        pending_active(seq![p], session, delayed) == if !session.contains(p.0) && !contains_key(
            delayed,
            p.0,
        ) {
            seq![p]
        } else {
            Seq::<(Seq<char>, Seq<char>, u32)>::empty()
        },
{
    let single = seq![p];
    assert(single.drop_first() =~= Seq::<(Seq<char>, Seq<char>, u32)>::empty());
    assert(single[0] == p);
    let h = if !session.contains(p.0) && !contains_key(delayed, p.0) {
        seq![p]
    } else {
        Seq::<(Seq<char>, Seq<char>, u32)>::empty()
    };
    assert(pending_active(Seq::<(Seq<char>, Seq<char>, u32)>::empty(), session, delayed) =~= Seq::<
        (Seq<char>, Seq<char>, u32),
    >::empty());
    assert(pending_active(single, session, delayed) =~= h + pending_active(
        Seq::<(Seq<char>, Seq<char>, u32)>::empty(),
        session,
        delayed,
    ));
    assert(h + Seq::<(Seq<char>, Seq<char>, u32)>::empty() =~= h);
}

/// What working through the awaiting triples does: a delayed item leaves
/// the pending map to its scheduler (stated separately); an immediate item
/// is matched against the windows under the session as it then stands,
/// its commands appended and its matches recorded.
pub open spec fn run_pending(
    st: TickState,
    tc: Seq<(Seq<char>, Seq<char>, u32)>,
    windows: Seq<WindowModel>,
    s: SettingsModel,
    now: u64,
) -> TickState
    decreases tc.len(),
{
    if tc.len() == 0 {
        st
    } else {
        let st2 = if tc[0].2 == 0 {
            let ms = matches_spec(windows, seq![(tc[0].0, tc[0].1)], st.session);
            record_results(
                TickState { commands: st.commands + commands_of(ms, s), ..st },
                results_of(ms),
                now,
            )
        } else {
            st
        };
        run_pending(st2, tc.drop_first(), windows, s, now)
    }
}

/// Working one more triple is one more step of the fold.
proof fn lemma_run_pending_push(
    st: TickState,
    tc: Seq<(Seq<char>, Seq<char>, u32)>,
    x: (Seq<char>, Seq<char>, u32),
    windows: Seq<WindowModel>,
    s: SettingsModel,
    now: u64,
)
    ensures
        run_pending(st, tc.push(x), windows, s, now) == ({
            let mid = run_pending(st, tc, windows, s, now);
            if x.2 == 0 {
                let ms = matches_spec(windows, seq![(x.0, x.1)], mid.session);
                record_results(
                    TickState { commands: mid.commands + commands_of(ms, s), ..mid },
                    results_of(ms),
                    now,
                )
            } else {
                mid
            }
        }),
    decreases tc.len(),
{
    if tc.len() == 0 {
        assert(tc.push(x)[0] == x);
        assert(tc.push(x).drop_first() =~= Seq::<(Seq<char>, Seq<char>, u32)>::empty());
        assert(run_pending(st, tc, windows, s, now) == st);
        let st2 = if x.2 == 0 {
            let ms = matches_spec(windows, seq![(x.0, x.1)], st.session);
            record_results(
                TickState { commands: st.commands + commands_of(ms, s), ..st },
                results_of(ms),
                now,
            )
        } else {
            st
        };
        assert(run_pending(st, tc.push(x), windows, s, now) == run_pending(
            st2,
            tc.push(x).drop_first(),
            windows,
            s,
            now,
        ));
        assert(run_pending(st2, tc.push(x).drop_first(), windows, s, now) == st2);
    } else {
        assert(tc.push(x)[0] == tc[0]);
        assert(tc.push(x).drop_first() =~= tc.drop_first().push(x));
        let st2 = if tc[0].2 == 0 {
            let ms = matches_spec(windows, seq![(tc[0].0, tc[0].1)], st.session);
            record_results(
                TickState { commands: st.commands + commands_of(ms, s), ..st },
                results_of(ms),
                now,
            )
        } else {
            st
        };
        assert(run_pending(st, tc.push(x), windows, s, now) == run_pending(
            st2,
            tc.drop_first().push(x),
            windows,
            s,
            now,
        ));
        assert(run_pending(st, tc, windows, s, now) == run_pending(
            st2,
            tc.drop_first(),
            windows,
            s,
            now,
        ));
        lemma_run_pending_push(st2, tc.drop_first(), x, windows, s, now);
    }
}

/// No later triple of the same process name follows index `k`.
pub open spec fn last_of_name(tc: Seq<(Seq<char>, Seq<char>, u32)>, k: int) -> bool {
    forall|j: int| k < j < tc.len() ==> (#[trigger] tc[j]).0 != tc[k].0
}

impl Monitor {
    /// Resolves the delayed tasks whose deadline has passed: removes them
    /// from the pending map and executes their action now. Tasks not yet
    /// due stay untouched — no action happens before its time.
    pub fn process_delayed_tasks(
        &mut self,
        store: &mut SettingsStore,
        now_ms: u64,
        windows: &Vec<WindowInfo>,
    ) -> (cmds: Vec<WindowCommand>)
        requires
            old(self).wf(),
            old(store).wf(),
        ensures
            final(self).wf(),
            final(store).wf(),
            final(self).running == old(self).running,
            final(self).is_autostart == old(self).is_autostart,
            final(store).settings == old(store).settings,
            final(self).delayed_tasks.deep_view() == remaining_tasks(
                old(self).delayed_tasks.deep_view(),
                now_ms,
            ),
            due_targets(old(self).delayed_tasks.deep_view(), now_ms).len() == 0 ==> cmds@.len()
                == 0 && final(self).monitored_items == old(self).monitored_items && *final(store)
                == *old(store),
            ({
                let due = due_targets(old(self).delayed_tasks.deep_view(), now_ms);
                let ms = matches_spec(
                    windows.deep_view(),
                    due,
                    old(store).minimized_this_session.deep_view(),
                );
                let stf = record_results(
                    TickState {
                        commands: commands_of(ms, old(store).settings@),
                        session: old(store).minimized_this_session.deep_view(),
                        times: old(store).minimize_exec_times.deep_view(),
                        monitored: old(self).monitored_items.deep_view(),
                    },
                    results_of(ms),
                    now_ms,
                );
                &&& final(self).monitored_items.deep_view() == stf.monitored
                &&& final(store).minimized_this_session.deep_view() == stf.session
                &&& final(store).minimize_exec_times.deep_view() == stf.times
                &&& cmds@ == stf.commands
                &&& cmds@ == commands_of(ms, old(store).settings@)
                &&& forall|id: Seq<char>|
                    #[trigger] lookup(final(self).monitored_items.deep_view(), id) == if has_id(
                        results_of(ms),
                        id,
                    ) {
                        None
                    } else {
                        lookup(old(self).monitored_items.deep_view(), id)
                    }
                &&& forall|j: Seq<char>|
                    #[trigger] final(store).minimized_this_session.deep_view().contains(j) == (old(
                        store,
                    ).minimized_this_session.deep_view().contains(j) || has_name(
                        results_of(ms),
                        j,
                    ))
                &&& forall|id: Seq<char>|
                    #[trigger] lookup(final(store).minimize_exec_times.deep_view(), id) == if has_id(
                        results_of(ms),
                        id,
                    ) {
                        Some(now_ms)
                    } else {
                        lookup(old(store).minimize_exec_times.deep_view(), id)
                    }
            }),
    {
        let ghost tv = self.delayed_tasks.deep_view();
        let mut keep: Vec<(String, (String, u64))> = Vec::new();
        let mut due: Vec<(String, String)> = Vec::new();
        proof {
            assert(tv.take(0) =~= Seq::<(Seq<char>, (Seq<char>, u64))>::empty());
            assert(keep.deep_view() =~= remaining_tasks(tv.take(0), now_ms));
            assert(due.deep_view() =~= due_targets(tv.take(0), now_ms));
        }
        let n = self.delayed_tasks.len();
        let mut i: usize = 0;
        while i < n
            invariant
                n == self.delayed_tasks@.len(),
                tv == self.delayed_tasks.deep_view(),
                tv.len() == n,
                i <= n,
                keep.deep_view() == remaining_tasks(tv.take(i as int), now_ms),
                due.deep_view() == due_targets(tv.take(i as int), now_ms),
            decreases n - i,
        {
            proof {
                assert(tv[i as int] == self.delayed_tasks@[i as int].deep_view());
            }
            let ghost kprev = keep.deep_view();
            let ghost dprev = due.deep_view();
            let entry = &self.delayed_tasks[i];
            if entry.1.1 <= now_ms {
                due.push((entry.0.clone(), entry.1.0.clone()));
                proof {
                    let dv = due.deep_view();
                    assert(dv =~= dprev + seq![(tv[i as int].0, tv[i as int].1.0)]) by {
                        assert(dv.len() == dprev.len() + 1);
                        assert(forall|a: int|
                            0 <= a < dv.len() ==> #[trigger] dv[a] == due@[a].deep_view());
                        assert(forall|a: int|
                            0 <= a < dprev.len() ==> #[trigger] dv[a] == dprev[a]);
                    }
                    assert(keep.deep_view() =~= kprev + Seq::<
                        (Seq<char>, (Seq<char>, u64)),
                    >::empty());
                }
            } else {
                keep.push((entry.0.clone(), (entry.1.0.clone(), entry.1.1)));
                proof {
                    let kv = keep.deep_view();
                    assert(kv =~= kprev + seq![tv[i as int]]) by {
                        assert(kv.len() == kprev.len() + 1);
                        assert(forall|a: int|
                            0 <= a < kv.len() ==> #[trigger] kv[a] == keep@[a].deep_view());
                        assert(forall|a: int|
                            0 <= a < kprev.len() ==> #[trigger] kv[a] == kprev[a]);
                    }
                    assert(due.deep_view() =~= dprev + Seq::<(Seq<char>, Seq<char>)>::empty());
                }
            }
            proof {
                assert(tv.take(i + 1) =~= tv.take(i as int) + seq![tv[i as int]]);
                lemma_split_tasks_concat(tv.take(i as int), seq![tv[i as int]], now_ms);
                lemma_split_tasks_single(tv[i as int], now_ms);
            }
            i = i + 1;
        }
        proof {
            assert(tv.take(n as int) =~= tv);
            lemma_remaining_lookup(tv, now_ms);
        }
        self.delayed_tasks = keep;
        let (cmds, results) = find_and_minimize_windows(&due, windows, store);
        proof {
            lemma_matches_distinct(
                windows.deep_view(),
                due.deep_view(),
                store.minimized_this_session.deep_view(),
                Seq::empty(),
            );
            let ms = matches_spec(
                windows.deep_view(),
                due.deep_view(),
                store.minimized_this_session.deep_view(),
            );
            assert(forall|k: int|
                0 <= k < results_of(ms).len() ==> #[trigger] results_of(ms)[k] == (
                ms[k].1,
                ms[k].2,
            ));
            assert(forall|k: int|
                0 <= k < results.deep_view().len() ==> crate::text::lower(
                    (#[trigger] results.deep_view()[k]).0,
                ) == results.deep_view()[k].0);
        }
        proof {
            let due_v = due_targets(tv, now_ms);
            if due_v.len() == 0 {
                assert(due.deep_view() =~= Seq::<(Seq<char>, Seq<char>)>::empty());
                lemma_matches_no_targets(
                    windows.deep_view(),
                    store.minimized_this_session.deep_view(),
                    Seq::empty(),
                );
                let ms0 = matches_spec(
                    windows.deep_view(),
                    due.deep_view(),
                    store.minimized_this_session.deep_view(),
                );
                assert(results_of(ms0).len() == 0);
                assert(commands_of(ms0, store.settings@).len() == 0);
                assert(results.deep_view().len() == 0);
            }
        }
        apply_match_results(&mut self.monitored_items, store, &results, now_ms);
        proof {
            let ms0 = matches_spec(
                windows.deep_view(),
                due.deep_view(),
                old(store).minimized_this_session.deep_view(),
            );
            lemma_record_results_frame(
                TickState {
                    commands: commands_of(ms0, old(store).settings@),
                    session: old(store).minimized_this_session.deep_view(),
                    times: old(store).minimize_exec_times.deep_view(),
                    monitored: old(self).monitored_items.deep_view(),
                },
                TickState {
                    commands: Seq::empty(),
                    session: old(store).minimized_this_session.deep_view(),
                    times: old(store).minimize_exec_times.deep_view(),
                    monitored: old(self).monitored_items.deep_view(),
                },
                results_of(ms0),
                now_ms,
            );
        }
        cmds
    }

    /// One pass of the poll loop: resolve due delayed tasks, compute the
    /// active set, schedule delayed items and act on immediate ones, and
    /// decide whether the loop stops and whether the host should exit.
    ///
    /// The whole pass is pinned down: the due matches are executed and
    /// recorded first; the awaiting active triples are then worked through
    /// in order, immediate ones matched, commanded and recorded, delayed
    /// ones scheduled at `now + 1000 * delay`; the loop stops exactly when
    /// no active item awaits work and no task is pending; and the host
    /// exits exactly when, in addition, some item is active, auto-exit is
    /// on and this run was boot-launched.
    pub fn poll_tick(
        &mut self,
        store: &mut SettingsStore,
        now_ms: u64,
        windows: &Vec<WindowInfo>,
    ) -> (r: TickResult)
        requires
            old(self).wf(),
            old(store).wf(),
            now_ms < MS_LIMIT,
        ensures
            final(self).wf(),
            final(store).wf(),
            final(store).settings == old(store).settings,
            final(self).is_autostart == old(self).is_autostart,
            // session names only accumulate within a run
            forall|j: Seq<char>|
                old(store).minimized_this_session.deep_view().contains(j) ==> #[trigger] final(
                    store
                ).minimized_this_session.deep_view().contains(j),
            // every pending task either survived with its old deadline,
            // still ahead, or was scheduled now at now + 1000 * delay
            forall|p: Seq<char>|
                #[trigger] contains_key(final(self).delayed_tasks.deep_view(), p) ==> ({
                    let t = lookup(final(self).delayed_tasks.deep_view(), p).unwrap();
                    ||| (lookup(old(self).delayed_tasks.deep_view(), p) == Some(t) && t.1 > now_ms)
                    ||| (delay_of(old(store).settings@, t.0) > 0 && t.1 == now_ms + 1000 * (
                    delay_of(old(store).settings@, t.0) as u64))
                }),
            // the whole pass, exactly
            ({
                let s0 = old(store).settings@;
                let dt0 = old(self).delayed_tasks.deep_view();
                let ms1 = matches_spec(
                    windows.deep_view(),
                    due_targets(dt0, now_ms),
                    old(store).minimized_this_session.deep_view(),
                );
                let st1 = record_results(
                    TickState {
                        commands: commands_of(ms1, s0),
                        session: old(store).minimized_this_session.deep_view(),
                        times: old(store).minimize_exec_times.deep_view(),
                        monitored: old(self).monitored_items.deep_view(),
                    },
                    results_of(ms1),
                    now_ms,
                );
                let active = processes_spec(st1.monitored, s0);
                let dt1 = remaining_tasks(dt0, now_ms);
                let tc = pending_active(active, st1.session, dt1);
                let stf = run_pending(st1, tc, windows.deep_view(), s0, now_ms);
                &&& r.commands@ == stf.commands
                &&& final(store).minimized_this_session.deep_view() == stf.session
                &&& final(store).minimize_exec_times.deep_view() == stf.times
                &&& final(self).monitored_items.deep_view() == stf.monitored
                // every awaiting delayed item is scheduled, its last
                // occurrence deciding the binding
                &&& forall|k: int|
                    0 <= k < tc.len() && (#[trigger] tc[k]).2 > 0 && last_of_name(tc, k) ==> ({
                        let t = lookup(final(self).delayed_tasks.deep_view(), tc[k].0);
                        &&& t is Some
                        &&& t.unwrap().0 == tc[k].1
                        &&& t.unwrap().1 == now_ms + 1000 * (tc[k].2 as int)
                    })
                // the loop stops exactly when nothing awaits and nothing
                // is pending
                &&& r.stopped == (tc.len() == 0 && dt1.len() == 0)
                // the host exits exactly when, in addition, some item is
                // active, auto-exit is on and this run was boot-launched
                &&& r.exit_host == (active.len() > 0 && tc.len() == 0 && dt1.len() == 0
                    && s0.auto_exit_after_minimize && old(self).is_autostart)
            }),
            r.stopped ==> !final(self).running && final(self).delayed_tasks.deep_view().len() == 0,
            !r.stopped ==> final(self).running == old(self).running,
    {
        let ghost s = store.settings@;
        let ghost wv = windows.deep_view();
        let ghost dt0 = old(self).delayed_tasks.deep_view();
        let mut commands = self.process_delayed_tasks(store, now_ms, windows);
        let ghost dt1v = self.delayed_tasks.deep_view();
        proof {
            lemma_remaining_lookup(dt0, now_ms);
        }
        let ghost mv2 = self.monitored_items.deep_view();
        let ghost st1 = ({
            let ms1 = matches_spec(wv, due_targets(dt0, now_ms), old(store).minimized_this_session.deep_view());
            record_results(
                TickState {
                    commands: commands_of(ms1, s),
                    session: old(store).minimized_this_session.deep_view(),
                    times: old(store).minimize_exec_times.deep_view(),
                    monitored: old(self).monitored_items.deep_view(),
                },
                results_of(ms1),
                now_ms,
            )
        });
        proof {
            assert(commands@ == st1.commands);
            assert(store.minimized_this_session.deep_view() == st1.session);
            assert(store.minimize_exec_times.deep_view() == st1.times);
            assert(mv2 == st1.monitored);
        }
        let ghost sess1 = st1.session;
        let processes = self.get_processes_to_monitor(store);
        let ghost procs = processes.deep_view();
        proof {
            lemma_processes_delay(mv2, s);
        }
        // exclude processes already handled this session or already pending
        let mut to_check: Vec<(String, String, u32)> = Vec::new();
        proof {
            assert(procs.take(0) =~= Seq::<(Seq<char>, Seq<char>, u32)>::empty());
            assert(to_check.deep_view() =~= pending_active(procs.take(0), sess1, dt1v));
        }
        let np = processes.len();
        let mut i: usize = 0;
        while i < np
            invariant
                np == processes@.len(),
                procs == processes.deep_view(),
                procs.len() == np,
                sess1 == store.minimized_this_session.deep_view(),
                dt1v == self.delayed_tasks.deep_view(),
                i <= np,
                to_check.deep_view() == pending_active(procs.take(i as int), sess1, dt1v),
                forall|k: int|
                    0 <= k < i ==> store.minimized_this_session.deep_view().contains(
                        (#[trigger] procs[k]).0,
                    ) || contains_key(self.delayed_tasks.deep_view(), procs[k].0)
                        || to_check.deep_view().contains(procs[k]),
                forall|k: int|
                    0 <= k < to_check.deep_view().len() ==> procs.contains(
                        #[trigger] to_check.deep_view()[k],
                    ),
            decreases np - i,
        {
            proof {
                assert(procs[i as int] == processes@[i as int].deep_view());
            }
            let ghost tcprev = to_check.deep_view();
            let pn = &processes[i].0;
            let in_session = set_contains(&store.minimized_this_session, pn.as_str());
            let in_delayed = assoc_contains(&self.delayed_tasks, pn.as_str());
            if !in_session && !in_delayed {
                to_check.push(
                    (processes[i].0.clone(), processes[i].1.clone(), processes[i].2),
                );
                proof {
                    let tcv = to_check.deep_view();
                    assert(tcv.len() == tcprev.len() + 1);
                    assert(forall|a: int|
                        0 <= a < tcv.len() ==> #[trigger] tcv[a] == to_check@[a].deep_view());
                    assert(forall|a: int| 0 <= a < tcprev.len() ==> #[trigger] tcv[a] == tcprev[a]);
                    assert(tcv[tcprev.len() as int] == procs[i as int]);
                    assert(tcv =~= tcprev + seq![procs[i as int]]);
                    assert(forall|k: int|
                        0 <= k < tcprev.len() ==> tcv.contains(#[trigger] tcprev[k])) by {
                        assert(forall|k: int|
                            0 <= k < tcprev.len() ==> tcv[k] == #[trigger] tcprev[k]);
                    }
                }
            } else {
                proof {
                    assert(to_check.deep_view() =~= tcprev + Seq::<
                        (Seq<char>, Seq<char>, u32),
                    >::empty());
                }
            }
            proof {
                assert(procs.take(i + 1) =~= procs.take(i as int) + seq![procs[i as int]]);
                lemma_pending_active_concat(
                    procs.take(i as int),
                    seq![procs[i as int]],
                    sess1,
                    dt1v,
                );
                lemma_pending_active_single(procs[i as int], sess1, dt1v);
            }
            i = i + 1;
        }
        proof {
            assert(procs.take(np as int) =~= procs);
        }
        let ghost tc = to_check.deep_view();
        let mut exit_host = false;
        let mut stopped = false;
        if processes.len() > 0 {
            if to_check.len() > 0 {
                proof {
                    assert forall|kk: int| 0 <= kk < tc.len() implies (#[trigger] tc[kk]).2
                        == delay_of(s, tc[kk].1) by {
                        assert(procs.contains(tc[kk]));
                        let w = choose|w: int| 0 <= w < procs.len() && procs[w] == tc[kk];
                        assert(procs[w].2 == delay_of(s, procs[w].1));
                    }
                    assert(tc.take(0) =~= Seq::<(Seq<char>, Seq<char>, u32)>::empty());
                    assert(run_pending(st1, tc.take(0), wv, s, now_ms) == st1);
                }
                let nt = to_check.len();
                let mut k: usize = 0;
                while k < nt
                    invariant
                        nt == to_check@.len(),
                        tc == to_check.deep_view(),
                        tc.len() == nt,
                        k <= nt,
                        now_ms < MS_LIMIT,
                        self.wf(),
                        store.wf(),
                        s == old(store).settings@,
                        store.settings == old(store).settings,
                        self.is_autostart == old(self).is_autostart,
                        self.running == old(self).running,
                        wv == windows.deep_view(),
                        forall|kk: int|
                            0 <= kk < tc.len() ==> (#[trigger] tc[kk]).2 == delay_of(s, tc[kk].1),
                        commands@ == run_pending(st1, tc.take(k as int), wv, s, now_ms).commands,
                        store.minimized_this_session.deep_view() == run_pending(
                            st1,
                            tc.take(k as int),
                            wv,
                            s,
                            now_ms,
                        ).session,
                        store.minimize_exec_times.deep_view() == run_pending(
                            st1,
                            tc.take(k as int),
                            wv,
                            s,
                            now_ms,
                        ).times,
                        self.monitored_items.deep_view() == run_pending(
                            st1,
                            tc.take(k as int),
                            wv,
                            s,
                            now_ms,
                        ).monitored,
                        forall|kk: int|
                            0 <= kk < k && (#[trigger] tc[kk]).2 > 0 && last_of_name(tc, kk)
                                ==> ({
                                let t = lookup(self.delayed_tasks.deep_view(), tc[kk].0);
                                &&& t is Some
                                &&& t.unwrap().0 == tc[kk].1
                                &&& t.unwrap().1 == now_ms + 1000 * (tc[kk].2 as int)
                            }),
                        forall|j: Seq<char>|
                            old(store).minimized_this_session.deep_view().contains(j)
                                ==> #[trigger] store.minimized_this_session.deep_view().contains(
                                j,
                            ),
                        forall|p: Seq<char>|
                            #[trigger] contains_key(self.delayed_tasks.deep_view(), p) ==> ({
                                let t = lookup(self.delayed_tasks.deep_view(), p).unwrap();
                                ||| (lookup(old(self).delayed_tasks.deep_view(), p) == Some(t)
                                    && t.1 > now_ms)
                                ||| (delay_of(s, t.0) > 0 && t.1 == now_ms + 1000 * (delay_of(
                                    s,
                                    t.0,
                                ) as u64))
                            }),
                    decreases nt - k,
                {
                    proof {
                        assert(tc[k as int] == to_check@[k as int].deep_view());
                        assert(tc.take(k + 1) =~= tc.take(k as int).push(tc[k as int]));
                        lemma_run_pending_push(st1, tc.take(k as int), tc[k as int], wv, s, now_ms);
                    }
                    let ghost mid = run_pending(st1, tc.take(k as int), wv, s, now_ms);
                    let delay = to_check[k].2;
                    if delay > 0 {
                        let deadline = now_ms + 1000 * (delay as u64);
                        let pair = (to_check[k].1.clone(), deadline);
                        proof {
                            assert(pair.deep_view() == (tc[k as int].1, deadline));
                        }
                        let ghost before = self.delayed_tasks.deep_view();
                        assoc_set(&mut self.delayed_tasks, to_check[k].0.as_str(), pair);
                        proof {
                            let key = tc[k as int].0;
                            let dv = self.delayed_tasks.deep_view();
                            assert forall|p: Seq<char>|
                                #[trigger] contains_key(dv, p) implies ({
                                let t = lookup(dv, p).unwrap();
                                ||| (lookup(old(self).delayed_tasks.deep_view(), p) == Some(t)
                                    && t.1 > now_ms)
                                ||| (delay_of(s, t.0) > 0 && t.1 == now_ms + 1000 * (delay_of(
                                    s,
                                    t.0,
                                ) as u64))
                            }) by {
                                if p == key {
                                    assert(lookup(dv, p) == Some((tc[k as int].1, deadline)));
                                    assert(delay_of(s, tc[k as int].1) == tc[k as int].2);
                                } else {
                                    assert(lookup(dv, p) == lookup(before, p));
                                    assert(contains_key(before, p));
                                }
                            }
                            assert forall|kk: int|
                                0 <= kk < k + 1 && (#[trigger] tc[kk]).2 > 0 && last_of_name(
                                    tc,
                                    kk,
                                ) implies ({
                                let t = lookup(dv, tc[kk].0);
                                &&& t is Some
                                &&& t.unwrap().0 == tc[kk].1
                                &&& t.unwrap().1 == now_ms + 1000 * (tc[kk].2 as int)
                            }) by {
                                if kk < k {
                                    assert(tc[k as int].0 != tc[kk].0);
                                    assert(lookup(dv, tc[kk].0) == lookup(before, tc[kk].0));
                                } else {
                                    assert(lookup(dv, key) == Some((tc[k as int].1, deadline)));
                                }
                            }
                        }
                    } else {
                        let target: Vec<(String, String)> = vec![
                            (to_check[k].0.clone(), to_check[k].1.clone()),
                        ];
                        proof {
                            assert(target.deep_view() =~= seq![(tc[k as int].0, tc[k as int].1)]) by {
                                assert(target.deep_view().len() == 1);
                                assert(target.deep_view()[0] == target@[0].deep_view());
                            }
                        }
                        let (mut c2, results) = find_and_minimize_windows(
                            &target,
                            windows,
                            store,
                        );
                        proof {
                            lemma_matches_distinct(
                                wv,
                                target.deep_view(),
                                store.minimized_this_session.deep_view(),
                                Seq::empty(),
                            );
                            let ms = matches_spec(
                                wv,
                                target.deep_view(),
                                store.minimized_this_session.deep_view(),
                            );
                            assert(forall|w: int|
                                0 <= w < results_of(ms).len() ==> #[trigger] results_of(ms)[w] == (
                                ms[w].1,
                                ms[w].2,
                            ));
                            assert(forall|w: int|
                                0 <= w < results.deep_view().len() ==> crate::text::lower(
                                    (#[trigger] results.deep_view()[w]).0,
                                ) == results.deep_view()[w].0);
                        }
                        let ghost pre_session = store.minimized_this_session.deep_view();
                        let ghost pre_times = store.minimize_exec_times.deep_view();
                        let ghost pre_mon = self.monitored_items.deep_view();
                        apply_match_results(&mut self.monitored_items, store, &results, now_ms);
                        commands.append(&mut c2);
                        proof {
                            let ms = matches_spec(wv, seq![(tc[k as int].0, tc[k as int].1)], mid.session);
                            lemma_record_results_frame(
                                TickState {
                                    commands: mid.commands + commands_of(ms, s),
                                    session: pre_session,
                                    times: pre_times,
                                    monitored: pre_mon,
                                },
                                TickState {
                                    commands: Seq::empty(),
                                    session: pre_session,
                                    times: pre_times,
                                    monitored: pre_mon,
                                },
                                results_of(ms),
                                now_ms,
                            );
                        }
                    }
                    k = k + 1;
                }
                proof {
                    assert(tc.take(nt as int) =~= tc);
                }
            } else {
                let has_delayed = self.delayed_tasks.len() > 0;
                if !has_delayed && store.is_auto_exit_enabled() && self.is_autostart {
                    exit_host = true;
                }
                if !has_delayed {
                    self.running = false;
                    stopped = true;
                }
                proof {
                    assert(tc.len() == 0);
                    assert(run_pending(st1, tc, wv, s, now_ms) == st1);
                }
            }
        } else {
            let has_delayed = self.delayed_tasks.len() > 0;
            if !has_delayed {
                self.running = false;
                stopped = true;
            }
            proof {
                assert(procs =~= Seq::<(Seq<char>, Seq<char>, u32)>::empty());
                assert(tc.len() == 0);
                assert(run_pending(st1, tc, wv, s, now_ms) == st1);
            }
        }
        TickResult { commands, exit_host, stopped }
    }
}

} // verus!
