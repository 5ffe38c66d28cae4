//! Policy settings and session state.
//!
//! `AppSettings` is the persisted policy: which items are opted into
//! post-launch suppression, per-item process-name overrides, per-item
//! behavior overrides and per-item delays, and the global auto-exit flag.
//! Absence of a key in any map means the default policy (not opted in,
//! behavior "minimize", no delay). `SettingsStore` pairs the in-memory
//! policy with the session-scoped containers that track what has already
//! been acted upon in this process run; the session containers are never
//! persisted and survive a policy reset.
//!
//! Persistence itself (reading and writing the settings file) is the
//! caller's: the store only transforms in-memory state, and the codec
//! module renders and parses the persisted form.

use vstd::prelude::*;
use vstd::string::*;
use crate::assoc::{
    insert_name,
    assoc_get, assoc_remove, assoc_set, clone_string_pairs, clone_strings, clone_u32_pairs,
    clone_u64_pairs, distinct_keys, lookup, set_contains, set_insert, set_remove,
};
use crate::text;

verus! {

/// The mathematical content of an `AppSettings` value.
pub struct SettingsModel {
    pub auto_minimize_items: Seq<Seq<char>>,
    pub process_name_mappings: Seq<(Seq<char>, Seq<char>)>,
    pub minimize_behaviors: Seq<(Seq<char>, Seq<char>)>,
    pub minimize_delays: Seq<(Seq<char>, u32)>,
    pub auto_exit_after_minimize: bool,
}

/// Persisted policy. Every map is an association list free of duplicate
/// keys; a missing key means the default.
pub struct AppSettings {
    /// Ids of startup items opted into post-launch suppression.
    pub auto_minimize_items: Vec<String>,
    /// Item id to the lowercase process name to watch for, where the
    /// configured executable differs from the observed process.
    pub process_name_mappings: Vec<(String, String)>,
    /// Item id to "close"; a missing entry means "minimize".
    pub minimize_behaviors: Vec<(String, String)>,
    /// Item id to delay in whole seconds before the action is applied.
    pub minimize_delays: Vec<(String, u32)>,
    /// When the host was launched at boot, exit it once all suppression
    /// work is done.
    pub auto_exit_after_minimize: bool,
}

impl View for AppSettings {
    type V = SettingsModel;

    open spec fn view(&self) -> SettingsModel {
        SettingsModel {
            auto_minimize_items: self.auto_minimize_items.deep_view(),
            process_name_mappings: self.process_name_mappings.deep_view(),
            minimize_behaviors: self.minimize_behaviors.deep_view(),
            minimize_delays: self.minimize_delays.deep_view(),
            auto_exit_after_minimize: self.auto_exit_after_minimize,
        }
    }
}

/// The all-defaults policy.
pub open spec fn default_model() -> SettingsModel {
    SettingsModel {
        auto_minimize_items: Seq::empty(),
        process_name_mappings: Seq::empty(),
        minimize_behaviors: Seq::empty(),
        minimize_delays: Seq::empty(),
        auto_exit_after_minimize: false,
    }
}

/// The behavior configured for an item: the override if present, else
/// the default "minimize".
pub open spec fn behavior_of(m: SettingsModel, id: Seq<char>) -> Seq<char> {
    match lookup(m.minimize_behaviors, id) {
        Some(b) => b,
        None => "minimize"@,
    }
}

/// The delay configured for an item, in seconds; missing means zero.
pub open spec fn delay_of(m: SettingsModel, id: Seq<char>) -> u32 {
    match lookup(m.minimize_delays, id) {
        Some(d) => d,
        None => 0,
    }
}

impl AppSettings {
    /// Set semantics for the opt-in list, map semantics for the maps.
    pub open spec fn wf(&self) -> bool {
        &&& self@.auto_minimize_items.no_duplicates()
        &&& distinct_keys(self@.process_name_mappings)
        &&& distinct_keys(self@.minimize_behaviors)
        &&& distinct_keys(self@.minimize_delays)
    }

    /// A field-for-field copy.
    pub fn duplicate(&self) -> (r: AppSettings)
        ensures
            r@ == self@,
    {
        AppSettings {
            auto_minimize_items: clone_strings(&self.auto_minimize_items),
            process_name_mappings: clone_string_pairs(&self.process_name_mappings),
            minimize_behaviors: clone_string_pairs(&self.minimize_behaviors),
            minimize_delays: clone_u32_pairs(&self.minimize_delays),
            auto_exit_after_minimize: self.auto_exit_after_minimize,
        }
    }
}

impl Default for AppSettings {
    /// The all-defaults policy value.
    fn default() -> (r: AppSettings)
        ensures
            r@ == default_model(),
            r.wf(),
    {
        let r = AppSettings {
            auto_minimize_items: Vec::new(),
            process_name_mappings: Vec::new(),
            minimize_behaviors: Vec::new(),
            minimize_delays: Vec::new(),
            auto_exit_after_minimize: false,
        };
        proof {
            assert(r@.auto_minimize_items =~= Seq::<Seq<char>>::empty());
            assert(r@.process_name_mappings =~= Seq::<(Seq<char>, Seq<char>)>::empty());
            assert(r@.minimize_behaviors =~= Seq::<(Seq<char>, Seq<char>)>::empty());
            assert(r@.minimize_delays =~= Seq::<(Seq<char>, u32)>::empty());
        }
        r
    }
}

/// In-memory policy cache plus the session-scoped containers.
pub struct SettingsStore {
    /// The current policy.
    pub settings: AppSettings,
    /// Lowercase process names already acted upon in this session.
    pub minimized_this_session: Vec<String>,
    /// Item id to the timestamp (ms) of its last executed action.
    pub minimize_exec_times: Vec<(String, u64)>,
}

impl SettingsStore {
    pub open spec fn wf(&self) -> bool {
        &&& self.settings.wf()
        &&& self.minimized_this_session.deep_view().no_duplicates()
        &&& distinct_keys(self.minimize_exec_times.deep_view())
    }

    /// Everything but the given policy starts empty.
    pub fn new(settings: AppSettings) -> (r: SettingsStore)
        requires
            settings.wf(),
        ensures
            r.wf(),
            r.settings@ == settings@,
            r.minimized_this_session.deep_view() == Seq::<Seq<char>>::empty(),
            r.minimize_exec_times.deep_view() == Seq::<(Seq<char>, u64)>::empty(),
    {
        let r = SettingsStore {
            settings,
            minimized_this_session: Vec::new(),
            minimize_exec_times: Vec::new(),
        };
        proof {
            assert(r.minimized_this_session.deep_view() =~= Seq::<Seq<char>>::empty());
            assert(r.minimize_exec_times.deep_view() =~= Seq::<(Seq<char>, u64)>::empty());
        }
        r
    }

    /// A snapshot of the current policy.
    pub fn get_settings(&self) -> (r: AppSettings)
        ensures
            r@ == self.settings@,
    {
        self.settings.duplicate()
    }

    /// Opts an item into or out of post-launch suppression. Nothing else
    /// changes.
    pub fn set_auto_minimize(&mut self, item_id: &str, enabled: bool)
        requires
            old(self).wf(),
        ensures
            final(self).wf(),
            final(self).settings@.auto_minimize_items.contains(item_id@) == enabled,
            forall|j: Seq<char>|
                j != item_id@ ==> #[trigger] final(self).settings@.auto_minimize_items.contains(j)
                    == old(self).settings@.auto_minimize_items.contains(j),
            final(self).settings@.process_name_mappings == old(self).settings@.process_name_mappings,
            final(self).settings@.minimize_behaviors == old(self).settings@.minimize_behaviors,
            final(self).settings@.minimize_delays == old(self).settings@.minimize_delays,
            final(self).settings@.auto_exit_after_minimize == old(self).settings@.auto_exit_after_minimize,
            final(self).minimized_this_session == old(self).minimized_this_session,
            final(self).minimize_exec_times == old(self).minimize_exec_times,
    {
        if enabled {
            set_insert(&mut self.settings.auto_minimize_items, item_id);
        } else {
            set_remove(&mut self.settings.auto_minimize_items, item_id);
        }
    }

    /// Is the item opted into suppression?
    pub fn is_auto_minimize_enabled(&self, item_id: &str) -> (r: bool)
        ensures
            r == self.settings@.auto_minimize_items.contains(item_id@),
    {
        set_contains(&self.settings.auto_minimize_items, item_id)
    }

    /// Records that a process name was acted upon in this session. The
    /// name is case-normalized before it is stored.
    pub fn mark_as_minimized(&mut self, process_name: &str)
        requires
            old(self).wf(),
        ensures
            final(self).wf(),
            final(self).minimized_this_session.deep_view() == insert_name(
                old(self).minimized_this_session.deep_view(),
                text::lower(process_name@),
            ),
            final(self).minimized_this_session.deep_view().contains(text::lower(process_name@)),
            forall|j: Seq<char>|
                j != text::lower(process_name@) ==> #[trigger] final(self).minimized_this_session.deep_view().contains(j) == old(self).minimized_this_session.deep_view().contains(j),
            final(self).settings == old(self).settings,
            final(self).minimize_exec_times == old(self).minimize_exec_times,
    {
        let lowered = text::lower_str(process_name);
        set_insert(&mut self.minimized_this_session, lowered.as_str());
    }

    /// Was this (case-normalized) process name already acted upon?
    pub fn was_minimized_this_session(&self, process_name: &str) -> (r: bool)
        ensures
            r == self.minimized_this_session.deep_view().contains(text::lower(process_name@)),
    {
        let lowered = text::lower_str(process_name);
        set_contains(&self.minimized_this_session, lowered.as_str())
    }

    /// Overrides the process name to watch for an item. A `None` or an
    /// all-whitespace name removes the override; a real name is stored
    /// trimmed and case-normalized.
    pub fn set_process_name_mapping(&mut self, item_id: &str, process_name: Option<String>)
        requires
            old(self).wf(),
        ensures
            final(self).wf(),
            ({
                let entry = lookup(final(self).settings@.process_name_mappings, item_id@);
                match process_name {
                    Some(name) => if text::trimmed(name@).len() > 0 {
                        entry == Some(text::lower(text::trimmed(name@)))
                    } else {
                        entry is None
                    },
                    None => entry is None,
                }
            }),
            forall|j: Seq<char>|
                j != item_id@ ==> #[trigger] lookup(final(self).settings@.process_name_mappings, j)
                    == lookup(old(self).settings@.process_name_mappings, j),
            final(self).settings@.auto_minimize_items == old(self).settings@.auto_minimize_items,
            final(self).settings@.minimize_behaviors == old(self).settings@.minimize_behaviors,
            final(self).settings@.minimize_delays == old(self).settings@.minimize_delays,
            final(self).settings@.auto_exit_after_minimize == old(self).settings@.auto_exit_after_minimize,
            final(self).minimized_this_session == old(self).minimized_this_session,
            final(self).minimize_exec_times == old(self).minimize_exec_times,
    {
        match process_name {
            Some(name) => {
                let t = text::trim(name.as_str());
                if t.unicode_len() > 0 {
                    let lowered = text::lower_str(t.as_str());
                    assoc_set(&mut self.settings.process_name_mappings, item_id, lowered);
                } else {
                    assoc_remove(&mut self.settings.process_name_mappings, item_id);
                }
            },
            None => {
                assoc_remove(&mut self.settings.process_name_mappings, item_id);
            },
        }
    }

    /// The configured process-name override, if any.
    pub fn get_process_name_mapping(&self, item_id: &str) -> (r: Option<String>)
        ensures
            match r {
                Some(name) => lookup(self.settings@.process_name_mappings, item_id@) == Some(
                    name@,
                ),
                None => lookup(self.settings@.process_name_mappings, item_id@) is None,
            },
    {
        match assoc_get(&self.settings.process_name_mappings, item_id) {
            Some(name) => Some(name.clone()),
            None => None,
        }
    }

    /// Sets the behavior for an item. Setting the default "minimize"
    /// removes the override entry entirely instead of storing the default
    /// literal, so reading it back still yields the default.
    pub fn set_minimize_behavior(&mut self, item_id: &str, behavior: &str)
        requires
            old(self).wf(),
        ensures
            final(self).wf(),
            behavior@ == "minimize"@ ==> lookup(
                final(self).settings@.minimize_behaviors,
                item_id@,
            ) is None,
            behavior@ != "minimize"@ ==> lookup(
                final(self).settings@.minimize_behaviors,
                item_id@,
            ) == Some(behavior@),
            behavior_of(final(self).settings@, item_id@) == behavior@,
            forall|j: Seq<char>|
                j != item_id@ ==> #[trigger] lookup(final(self).settings@.minimize_behaviors, j)
                    == lookup(old(self).settings@.minimize_behaviors, j),
            final(self).settings@.auto_minimize_items == old(self).settings@.auto_minimize_items,
            final(self).settings@.process_name_mappings == old(self).settings@.process_name_mappings,
            final(self).settings@.minimize_delays == old(self).settings@.minimize_delays,
            final(self).settings@.auto_exit_after_minimize == old(self).settings@.auto_exit_after_minimize,
            final(self).minimized_this_session == old(self).minimized_this_session,
            final(self).minimize_exec_times == old(self).minimize_exec_times,
    {
        if text::str_eq(behavior, "minimize") {
            assoc_remove(&mut self.settings.minimize_behaviors, item_id);
        } else {
            assoc_set(&mut self.settings.minimize_behaviors, item_id, behavior.to_owned());
        }
    }

    /// The behavior for an item; the default is "minimize".
    pub fn get_minimize_behavior(&self, item_id: &str) -> (r: String)
        ensures
            r@ == behavior_of(self.settings@, item_id@),
    {
        match assoc_get(&self.settings.minimize_behaviors, item_id) {
            Some(b) => b.clone(),
            None => String::from_str("minimize"),
        }
    }

    /// Sets or clears the delay, in whole seconds, for an item.
    pub fn set_minimize_delay(&mut self, item_id: &str, delay: Option<u32>)
        requires
            old(self).wf(),
        ensures
            final(self).wf(),
            lookup(final(self).settings@.minimize_delays, item_id@) == delay,
            forall|j: Seq<char>|
                j != item_id@ ==> #[trigger] lookup(final(self).settings@.minimize_delays, j)
                    == lookup(old(self).settings@.minimize_delays, j),
            final(self).settings@.auto_minimize_items == old(self).settings@.auto_minimize_items,
            final(self).settings@.process_name_mappings == old(self).settings@.process_name_mappings,
            final(self).settings@.minimize_behaviors == old(self).settings@.minimize_behaviors,
            final(self).settings@.auto_exit_after_minimize == old(self).settings@.auto_exit_after_minimize,
            final(self).minimized_this_session == old(self).minimized_this_session,
            final(self).minimize_exec_times == old(self).minimize_exec_times,
    {
        match delay {
            Some(d) => {
                assoc_set(&mut self.settings.minimize_delays, item_id, d);
            },
            None => {
                assoc_remove(&mut self.settings.minimize_delays, item_id);
            },
        }
    }

    /// The delay for an item, in seconds; the default is zero.
    pub fn get_minimize_delay(&self, item_id: &str) -> (r: u32)
        ensures
            r == delay_of(self.settings@, item_id@),
    {
        match assoc_get(&self.settings.minimize_delays, item_id) {
            Some(d) => *d,
            None => 0,
        }
    }

    pub fn is_auto_exit_enabled(&self) -> (r: bool)
        ensures
            r == self.settings@.auto_exit_after_minimize,
    {
        self.settings.auto_exit_after_minimize
    }

    pub fn set_auto_exit_enabled(&mut self, enabled: bool)
        requires
            old(self).wf(),
        ensures
            final(self).wf(),
            final(self).settings@.auto_exit_after_minimize == enabled,
            final(self).settings@.auto_minimize_items == old(self).settings@.auto_minimize_items,
            final(self).settings@.process_name_mappings == old(self).settings@.process_name_mappings,
            final(self).settings@.minimize_behaviors == old(self).settings@.minimize_behaviors,
            final(self).settings@.minimize_delays == old(self).settings@.minimize_delays,
            final(self).minimized_this_session == old(self).minimized_this_session,
            final(self).minimize_exec_times == old(self).minimize_exec_times,
    {
        self.settings.auto_exit_after_minimize = enabled;
    }

    /// Resets the policy to all defaults. The session containers are
    /// distinct stores: a policy reset never touches them.
    pub fn reset_settings(&mut self)
        requires
            old(self).wf(),
        ensures
            final(self).wf(),
            final(self).settings@ == default_model(),
            final(self).minimized_this_session == old(self).minimized_this_session,
            final(self).minimize_exec_times == old(self).minimize_exec_times,
    {
        self.settings = AppSettings::default();
    }

    /// Records when an item's action was executed.
    pub fn record_minimize_time(&mut self, item_id: &str, now_ms: u64)
        requires
            old(self).wf(),
        ensures
            final(self).wf(),
            final(self).minimize_exec_times.deep_view() == crate::assoc::set_key(
                old(self).minimize_exec_times.deep_view(),
                item_id@,
                now_ms,
            ),
            lookup(final(self).minimize_exec_times.deep_view(), item_id@) == Some(now_ms),
            forall|j: Seq<char>|
                j != item_id@ ==> #[trigger] lookup(final(self).minimize_exec_times.deep_view(), j)
                    == lookup(old(self).minimize_exec_times.deep_view(), j),
            final(self).settings == old(self).settings,
            final(self).minimized_this_session == old(self).minimized_this_session,
    {
        assoc_set(&mut self.minimize_exec_times, item_id, now_ms);
    }

    /// A snapshot of every recorded execution time.
    pub fn get_all_minimize_times(&self) -> (r: Vec<(String, u64)>)
        ensures
            r@ == self.minimize_exec_times@,
    {
        clone_u64_pairs(&self.minimize_exec_times)
    }
}

} // verus!
