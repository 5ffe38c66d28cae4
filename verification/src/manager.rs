//! Enable, disable and delete startup entries at their source.
//!
//! The functions here decide; they do not touch the platform. Each takes
//! a `StartupItem` (and, for folder entries, the current directory
//! listing) and returns a mutation plan: which approval value to write,
//! which file to rename or remove, or which registry value to delete. The
//! caller executes the plan against the real backing store; the
//! `apply_*` functions mirror that execution on the plain-value model, so
//! that what a plan does to the store is itself stated and provable.
//!
//! Registry entries are never toggled by removing the run value: the plan
//! writes a binary approval flag into the parallel "approved" shadow
//! location, mirroring the platform's own startup-approval mechanism.
//! Folder entries are toggled by adding or stripping a disabled-marker
//! extension on the file name.

use vstd::prelude::*;
use vstd::string::*;
use crate::assoc::{assoc_set, lemma_set_key_idempotent, set_key};
use crate::registry::run_view;
use crate::item::StartupItem;
use crate::assoc::{assoc_remove, remove_key};
use crate::registry::{clone_approved, clone_bytes, clone_values, Hive, HiveState, RegValueModel, RegistrySnapshot};
use crate::text;
use crate::text::{
    lemma_trim_end_append, lemma_trim_end_no_suffix, replace_all_spec, trim_end_matches_spec,
};

verus! {

/// Why a mutation could not be carried out.
#[derive(Debug)]
pub enum StartupError {
    /// The entry vanished between scan and action; rescan.
    NotFound,
    /// Insufficient privilege; the caller may offer elevation.
    AccessDenied,
    /// A filesystem failure, with the underlying message.
    IoError(String),
    /// A backing-store failure, with the underlying message.
    RegistryError(String),
}

impl StartupError {
    /// A short English rendering for logs and messages.
    pub fn message(&self) -> (r: String)
        ensures
            self is NotFound ==> r@ == "startup item not found"@,
            self is AccessDenied ==> r@ == "access denied; administrator rights may be needed"@,
            self is IoError ==> r@ == "io error: "@ + self.arrow_IoError_0()@,
            self is RegistryError ==> r@ == "registry error: "@ + self.arrow_RegistryError_0()@,
    {
        match self {
            StartupError::NotFound => String::from_str("startup item not found"),
            StartupError::AccessDenied => String::from_str(
                "access denied; administrator rights may be needed",
            ),
            StartupError::IoError(m) => text::concat2("io error: ", m.as_str()),
            StartupError::RegistryError(m) => text::concat2("registry error: ", m.as_str()),
        }
    }
}

/// Does `p` occur in `s`?
pub open spec fn contains_sub(s: Seq<char>, p: Seq<char>) -> bool {
    exists|j: int| 0 <= j && j + p.len() <= s.len() && #[trigger] s.subrange(j, j + p.len()) == p
}

pub fn contains_sub_exec(s: &str, p: &str) -> (r: bool)
    requires
        p@.len() > 0,
    ensures
        r == contains_sub(s@, p@),
{
    text::find_sub(s, p).is_some()
}

/// How a location string splits into a hive and a key path.
pub open spec fn parse_location_spec(loc: Seq<char>) -> Option<(Hive, Seq<char>)> {
    if "HKEY_CURRENT_USER\\"@.is_prefix_of(loc) {
        Some((Hive::CurrentUser, replace_all_spec(loc, "HKEY_CURRENT_USER\\"@, Seq::empty())))
    } else if "HKEY_LOCAL_MACHINE\\"@.is_prefix_of(loc) {
        Some((Hive::LocalMachine, replace_all_spec(loc, "HKEY_LOCAL_MACHINE\\"@, Seq::empty())))
    } else {
        None
    }
}

/// Splits a source location such as `HKEY_CURRENT_USER\...\Run` into the
/// hive and the key path under it.
pub fn parse_registry_location(location: &str) -> (r: Option<(Hive, String)>)
    ensures
        match r {
            Some(pair) => parse_location_spec(location@) == Some((pair.0, pair.1@)),
            None => parse_location_spec(location@) is None,
        },
{
    proof {
        reveal_strlit("HKEY_CURRENT_USER\\");
        reveal_strlit("HKEY_LOCAL_MACHINE\\");
        reveal_strlit("");
    }
    if text::starts_with(location, "HKEY_CURRENT_USER\\") {
        let path = text::replace_all(location, "HKEY_CURRENT_USER\\", "");
        proof {
            assert(""@ =~= Seq::<char>::empty());
        }
        Some((Hive::CurrentUser, path))
    } else if text::starts_with(location, "HKEY_LOCAL_MACHINE\\") {
        let path = text::replace_all(location, "HKEY_LOCAL_MACHINE\\", "");
        proof {
            assert(""@ =~= Seq::<char>::empty());
        }
        Some((Hive::LocalMachine, path))
    } else {
        None
    }
}

/// The approval-shadow key path for a run key path.
pub open spec fn approval_path_spec(p: Seq<char>) -> Seq<char> {
    if contains_sub(p, "RunOnce"@) {
        replace_all_spec(p, "RunOnce"@, "Explorer\\StartupApproved\\RunOnce"@)
    } else {
        replace_all_spec(p, "Run"@, "Explorer\\StartupApproved\\Run"@)
    }
}

pub fn approval_path_for(reg_path: &str) -> (r: String)
    ensures
        r@ == approval_path_spec(reg_path@),
{
    proof {
        reveal_strlit("RunOnce");
        reveal_strlit("Run");
    }
    if contains_sub_exec(reg_path, "RunOnce") {
        text::replace_all(reg_path, "RunOnce", "Explorer\\StartupApproved\\RunOnce")
    } else {
        text::replace_all(reg_path, "Run", "Explorer\\StartupApproved\\Run")
    }
}

/// The raw approval value: first byte 2 for enabled, 3 for disabled,
/// eleven zero bytes after it.
pub open spec fn approval_bytes(enable: bool) -> Seq<u8> {
    seq![if enable { 2u8 } else { 3u8 }, 0u8, 0u8, 0u8, 0u8, 0u8, 0u8, 0u8, 0u8, 0u8, 0u8, 0u8]
}

fn approval_bytes_exec(enable: bool) -> (r: Vec<u8>)
    ensures
        r@ == approval_bytes(enable),
{
    let mut v: Vec<u8> = Vec::new();
    if enable {
        v.push(2u8);
    } else {
        v.push(3u8);
    }
    let mut i: usize = 0;
    while i < 11
        invariant
            i <= 11,
            v@.len() == i + 1,
            v@[0] == if enable { 2u8 } else { 3u8 },
            forall|j: int| 1 <= j < v@.len() ==> v@[j] == 0u8,
        decreases 11 - i,
    {
        v.push(0u8);
        i = i + 1;
    }
    proof {
        assert(v@ =~= approval_bytes(enable));
    }
    v
}

/// What writing an approval flag means: which shadow value to set, where.
pub struct RegistryTogglePlan {
    pub hive: Hive,
    /// Whether the entry lives under a run-once key; decides which shadow
    /// location receives the flag.
    pub run_once: bool,
    /// The shadow key path, for the executor.
    pub approval_path: String,
    pub value_name: String,
    pub value_data: Vec<u8>,
}

/// The approval write that enabling or disabling this item calls for.
pub open spec fn is_registry_toggle_plan(
    plan: RegistryTogglePlan,
    item: StartupItem,
    enable: bool,
) -> bool {
    &&& parse_location_spec(item.source_location@) is Some
    &&& {
        let (hive, path) = parse_location_spec(item.source_location@).unwrap();
        &&& plan.hive == hive
        &&& plan.run_once == contains_sub(path, "RunOnce"@)
        &&& plan.approval_path@ == approval_path_spec(path)
        &&& plan.value_name@ == item.name@
        &&& plan.value_data@ == approval_bytes(enable)
    }
}

/// Computes the approval write that enables or disables a registry entry.
/// The run value itself is never touched.
pub fn toggle_registry_item(item: &StartupItem, enable: bool) -> (r: Result<
    RegistryTogglePlan,
    StartupError,
>)
    ensures
        match r {
            Ok(plan) => is_registry_toggle_plan(plan, *item, enable),
            Err(e) => e is NotFound && parse_location_spec(item.source_location@) is None,
        },
{
    let parsed = parse_registry_location(item.source_location.as_str());
    match parsed {
        Some((hive, reg_path)) => {
            proof {
                reveal_strlit("RunOnce");
            }
            let run_once = contains_sub_exec(reg_path.as_str(), "RunOnce");
            let approval_path = approval_path_for(reg_path.as_str());
            Ok(
                RegistryTogglePlan {
                    hive,
                    run_once,
                    approval_path,
                    value_name: item.name.clone(),
                    value_data: approval_bytes_exec(enable),
                },
            )
        },
        None => Err(StartupError::NotFound),
    }
}

/// The view of an approval shadow: absent keys read as empty.
pub open spec fn approved_view(a: Option<Vec<(String, Vec<u8>)>>) -> Seq<(Seq<char>, Seq<u8>)> {
    match a {
        Some(v) => v.deep_view(),
        None => Seq::empty(),
    }
}

/// Writes an approval value into one hive, creating the shadow key if it
/// is absent. Nothing else in the hive changes.
fn apply_toggle_to_hive(h: &mut HiveState, run_once: bool, name: &str, data: Vec<u8>)
    requires
        old(h).wf(),
    ensures
        final(h).wf(),
        final(h).run == old(h).run,
        final(h).run_once == old(h).run_once,
        run_once ==> {
            &&& final(h).approved_run == old(h).approved_run
            &&& final(h).approved_run_once is Some
            &&& approved_view(final(h).approved_run_once) == set_key(
                approved_view(old(h).approved_run_once),
                name@,
                data@,
            )
        },
        !run_once ==> {
            &&& final(h).approved_run_once == old(h).approved_run_once
            &&& final(h).approved_run is Some
            &&& approved_view(final(h).approved_run) == set_key(
                approved_view(old(h).approved_run),
                name@,
                data@,
            )
        },
{
    if run_once {
        let mut list: Vec<(String, Vec<u8>)> = match &h.approved_run_once {
            Some(v) => clone_approved(v),
            None => Vec::new(),
        };
        proof {
            assert(list.deep_view() =~= approved_view(old(h).approved_run_once));
            assert(data.deep_view() =~= data@);
        }
        assoc_set(&mut list, name, data);
        h.approved_run_once = Some(list);
    } else {
        let mut list: Vec<(String, Vec<u8>)> = match &h.approved_run {
            Some(v) => clone_approved(v),
            None => Vec::new(),
        };
        proof {
            assert(list.deep_view() =~= approved_view(old(h).approved_run));
            assert(data.deep_view() =~= data@);
        }
        assoc_set(&mut list, name, data);
        h.approved_run = Some(list);
    }
}

/// What executing a registry toggle plan does to the store: the shadow
/// value is written (the key created if needed) and nothing else moves.
pub fn apply_registry_toggle(snap: &mut RegistrySnapshot, plan: &RegistryTogglePlan)
    requires
        old(snap).wf(),
    ensures
        final(snap).wf(),
        ({
            let oldh = if plan.hive is CurrentUser {
                old(snap).current_user
            } else {
                old(snap).local_machine
            };
            let newh = if plan.hive is CurrentUser {
                final(snap).current_user
            } else {
                final(snap).local_machine
            };
            &&& newh.run == oldh.run
            &&& newh.run_once == oldh.run_once
            &&& (plan.run_once ==> newh.approved_run == oldh.approved_run
                && approved_view(newh.approved_run_once) == set_key(
                approved_view(oldh.approved_run_once),
                plan.value_name@,
                plan.value_data@,
            ))
            &&& (!plan.run_once ==> newh.approved_run_once == oldh.approved_run_once
                && approved_view(newh.approved_run) == set_key(
                approved_view(oldh.approved_run),
                plan.value_name@,
                plan.value_data@,
            ))
        }),
        plan.hive is CurrentUser ==> final(snap).local_machine == old(snap).local_machine,
        plan.hive is LocalMachine ==> final(snap).current_user == old(snap).current_user,
{
    let data = clone_bytes(&plan.value_data);
    match plan.hive {
        Hive::CurrentUser => {
            apply_toggle_to_hive(&mut snap.current_user, plan.run_once, plan.value_name.as_str(), data);
        },
        Hive::LocalMachine => {
            apply_toggle_to_hive(&mut snap.local_machine, plan.run_once, plan.value_name.as_str(), data);
        },
    }
}

/// Applying the same approval write twice leaves the shadow exactly as
/// one application left it.
pub proof fn lemma_registry_toggle_idempotent(
    approved: Seq<(Seq<char>, Seq<u8>)>,
    name: Seq<char>,
    enable: bool,
)
    requires
        crate::assoc::distinct_keys(approved),
    ensures
        set_key(set_key(approved, name, approval_bytes(enable)), name, approval_bytes(enable))
            == set_key(approved, name, approval_bytes(enable)),
{
    lemma_set_key_idempotent(approved, name, approval_bytes(enable));
}

/// Does a directory entry belong to the named item? The disabled marker
/// is ignored, then the name must be a prefix of the base name or equal
/// to it once a shortcut or executable extension is stripped.
pub open spec fn folder_match(entry: Seq<char>, item_name: Seq<char>) -> bool {
    let base = trim_end_matches_spec(entry, ".disabled"@);
    ||| item_name.is_prefix_of(base)
    ||| trim_end_matches_spec(base, ".lnk"@) == item_name
    ||| trim_end_matches_spec(base, ".exe"@) == item_name
}

pub fn folder_match_exec(entry: &str, item_name: &str) -> (r: bool)
    ensures
        r == folder_match(entry@, item_name@),
{
    proof {
        reveal_strlit(".disabled");
        reveal_strlit(".lnk");
        reveal_strlit(".exe");
    }
    let base = text::trim_end_matches(entry, ".disabled");
    if text::starts_with(base.as_str(), item_name) {
        return true;
    }
    let no_lnk = text::trim_end_matches(base.as_str(), ".lnk");
    if text::str_eq(no_lnk.as_str(), item_name) {
        return true;
    }
    let no_exe = text::trim_end_matches(base.as_str(), ".exe");
    text::str_eq(no_exe.as_str(), item_name)
}

/// The index of the first directory entry that belongs to the item.
pub open spec fn first_folder_match(entries: Seq<Seq<char>>, item_name: Seq<char>) -> Option<int>
    decreases entries.len(),
{
    if entries.len() == 0 {
        None
    } else if folder_match(entries[0], item_name) {
        Some(0int)
    } else {
        match first_folder_match(entries.drop_first(), item_name) {
            Some(i) => Some(i + 1),
            None => None,
        }
    }
}

/// A match at `i` with none before it is the first match.
pub proof fn lemma_first_folder_match_at(entries: Seq<Seq<char>>, i: int, item_name: Seq<char>)
    requires
        0 <= i < entries.len(),
        folder_match(entries[i], item_name),
        forall|j: int| 0 <= j < i ==> !folder_match(#[trigger] entries[j], item_name),
    ensures
        first_folder_match(entries, item_name) == Some(i),
    decreases i,
{
    if i > 0 {
        assert(!folder_match(entries[0], item_name));
        lemma_first_folder_match_at(entries.drop_first(), i - 1, item_name);
    }
}

/// No match anywhere means no first match.
pub proof fn lemma_first_folder_match_none(entries: Seq<Seq<char>>, item_name: Seq<char>)
    requires
        forall|j: int|
            0 <= j < entries.len() ==> !folder_match(#[trigger] entries[j], item_name),
    ensures
        first_folder_match(entries, item_name) is None,
    decreases entries.len(),
{
    if entries.len() > 0 {
        lemma_first_folder_match_none(entries.drop_first(), item_name);
    }
}

/// What toggling does to one directory entry.
pub enum FolderAction {
    /// The entry already has the requested state.
    AlreadyInState,
    /// Rename the file `from` to `to` within the startup folder.
    Rename { from: String, to: String },
}

/// The mathematical content of a `FolderAction`.
pub enum FolderActionModel {
    AlreadyInState,
    Rename { from: Seq<char>, to: Seq<char> },
}

impl View for FolderAction {
    type V = FolderActionModel;

    open spec fn view(&self) -> FolderActionModel {
        match self {
            FolderAction::AlreadyInState => FolderActionModel::AlreadyInState,
            FolderAction::Rename { from, to } => FolderActionModel::Rename {
                from: from@,
                to: to@,
            },
        }
    }
}

/// The action a toggle takes on the matched entry.
pub open spec fn toggle_action_spec(entry: Seq<char>, enable: bool) -> FolderActionModel {
    let disabled = ".disabled"@.is_suffix_of(entry);
    if enable && disabled {
        FolderActionModel::Rename { from: entry, to: trim_end_matches_spec(entry, ".disabled"@) }
    } else if !enable && !disabled {
        FolderActionModel::Rename { from: entry, to: entry + ".disabled"@ }
    } else {
        FolderActionModel::AlreadyInState
    }
}

/// The full decision for a folder toggle: `None` means no entry of the
/// item's name exists any more.
pub open spec fn toggle_folder_spec(
    entries: Seq<Seq<char>>,
    item_name: Seq<char>,
    enable: bool,
) -> Option<FolderActionModel> {
    match first_folder_match(entries, item_name) {
        Some(i) => Some(toggle_action_spec(entries[i], enable)),
        None => None,
    }
}

/// Decides how to enable or disable a folder entry, given the current
/// directory listing. A no-op when the entry already has the requested
/// state; `NotFound` when no entry of that name remains.
pub fn toggle_folder_item(item: &StartupItem, enable: bool, entries: &Vec<String>) -> (r: Result<
    FolderAction,
    StartupError,
>)
    ensures
        match r {
            Ok(act) => toggle_folder_spec(entries.deep_view(), item.name@, enable) == Some(act@),
            Err(e) => e is NotFound && toggle_folder_spec(
                entries.deep_view(),
                item.name@,
                enable,
            ) is None,
        },
{
    let ghost dv = entries.deep_view();
    let n = entries.len();
    let mut i: usize = 0;
    while i < n
        invariant
            n == entries@.len(),
            dv == entries.deep_view(),
            dv.len() == n,
            i <= n,
            forall|j: int| 0 <= j < i ==> !folder_match(#[trigger] dv[j], item.name@),
        decreases n - i,
    {
        proof {
            assert(dv[i as int] == entries@[i as int]@);
        }
        if folder_match_exec(entries[i].as_str(), item.name.as_str()) {
            proof {
                lemma_first_folder_match_at(dv, i as int, item.name@);
            }
            proof {
                reveal_strlit(".disabled");
            }
            let file_name = entries[i].as_str();
            let is_disabled = text::ends_with(file_name, ".disabled");
            if enable && is_disabled {
                return Ok(
                    FolderAction::Rename {
                        from: file_name.to_owned(),
                        to: text::trim_end_matches(file_name, ".disabled"),
                    },
                );
            } else if !enable && !is_disabled {
                return Ok(
                    FolderAction::Rename {
                        from: file_name.to_owned(),
                        to: text::concat2(file_name, ".disabled"),
                    },
                );
            } else {
                return Ok(FolderAction::AlreadyInState);
            }
        }
        i = i + 1;
    }
    proof {
        lemma_first_folder_match_none(dv, item.name@);
    }
    Err(StartupError::NotFound)
}

/// The listing with the first entry equal to `from` renamed to `to`.
pub open spec fn rename_first(entries: Seq<Seq<char>>, from: Seq<char>, to: Seq<char>) -> Seq<
    Seq<char>,
>
    decreases entries.len(),
{
    if entries.len() == 0 {
        entries
    } else if entries[0] == from {
        seq![to] + entries.drop_first()
    } else {
        seq![entries[0]] + rename_first(entries.drop_first(), from, to)
    }
}

/// What a folder action does to the directory listing.
pub open spec fn apply_action_spec(entries: Seq<Seq<char>>, act: FolderActionModel) -> Seq<
    Seq<char>,
> {
    match act {
        FolderActionModel::AlreadyInState => entries,
        FolderActionModel::Rename { from, to } => rename_first(entries, from, to),
    }
}

/// Renaming replaces exactly the first occurrence.
pub proof fn lemma_rename_first_at(
    entries: Seq<Seq<char>>,
    i: int,
    from: Seq<char>,
    to: Seq<char>,
)
    requires
        0 <= i < entries.len(),
        entries[i] == from,
        forall|j: int| 0 <= j < i ==> entries[j] != from,
    ensures
        rename_first(entries, from, to) == entries.update(i, to),
    decreases i,
{
    if i == 0 {
        assert(seq![to] + entries.drop_first() =~= entries.update(0, to));
    } else {
        assert(entries[0] != from);
        lemma_rename_first_at(entries.drop_first(), i - 1, from, to);
        assert(entries.drop_first().update(i - 1, to) =~= entries.update(i, to).drop_first());
        assert(seq![entries[0]] + entries.update(i, to).drop_first() =~= entries.update(i, to));
    }
}

/// Executes a folder action on the (modeled) directory listing.
pub fn apply_folder_action(entries: &mut Vec<String>, act: &FolderAction)
    ensures
        final(entries).deep_view() == apply_action_spec(old(entries).deep_view(), act@),
{
    match act {
        FolderAction::AlreadyInState => {
            proof {
                assert(act@ is AlreadyInState);
            }
        },
        FolderAction::Rename { from, to } => {
            proof {
                assert(act@ == (FolderActionModel::Rename { from: from@, to: to@ }));
            }
            let ghost dv = old(entries).deep_view();
            let n = entries.len();
            let mut i: usize = 0;
            while i < n
                invariant
                    n == entries@.len(),
                    dv == entries.deep_view(),
                    dv.len() == n,
                    *entries == *old(entries),
                    act@ == (FolderActionModel::Rename { from: from@, to: to@ }),
                    i <= n,
                    forall|j: int| 0 <= j < i ==> dv[j] != from@,
                decreases n - i,
            {
                proof {
                    assert(dv[i as int] == entries@[i as int]@);
                }
                if text::str_eq(entries[i].as_str(), from.as_str()) {
                    entries.remove(i);
                    entries.insert(i, to.clone());
                    proof {
                        let fv = entries.deep_view();
                        assert(fv =~= dv.update(i as int, to@)) by {
                            assert(fv.len() == dv.len());
                            assert(forall|a: int|
                                0 <= a < fv.len() ==> #[trigger] fv[a] == entries@[a]@);
                            assert(forall|a: int|
                                0 <= a < i ==> #[trigger] entries@[a] == old(entries)@[a]);
                            assert(forall|a: int|
                                i < a < fv.len() ==> #[trigger] entries@[a] == old(entries)@[a]);
                        }
                        lemma_rename_first_at(dv, i as int, from@, to@);
                        assert(apply_action_spec(dv, act@) == rename_first(dv, from@, to@));
                    }
                    return ;
                }
                i = i + 1;
            }
            proof {
                lemma_rename_noop(dv, from@, to@);
                assert(apply_action_spec(dv, act@) == rename_first(dv, from@, to@));
            }
        },
    }
}

/// Renaming an absent name changes nothing.
proof fn lemma_rename_noop(entries: Seq<Seq<char>>, from: Seq<char>, to: Seq<char>)
    requires
        forall|j: int| 0 <= j < entries.len() ==> entries[j] != from,
    ensures
        rename_first(entries, from, to) == entries,
    decreases entries.len(),
{
    if entries.len() > 0 {
        assert(forall|j: int|
            0 <= j < entries.drop_first().len() ==> entries.drop_first()[j] == entries[j + 1]);
        lemma_rename_noop(entries.drop_first(), from, to);
        assert(seq![entries[0]] + entries.drop_first() =~= entries);
    }
}

/// Toggling a folder entry is idempotent: once the rename has been
/// applied, the same toggle decides `AlreadyInState`, whose application
/// changes nothing. The second state equals the first.
pub proof fn lemma_toggle_folder_idempotent(
    entries: Seq<Seq<char>>,
    item_name: Seq<char>,
    enable: bool,
    act: FolderActionModel,
)
    requires
        toggle_folder_spec(entries, item_name, enable) == Some(act),
    ensures
        toggle_folder_spec(apply_action_spec(entries, act), item_name, enable) == Some(
            FolderActionModel::AlreadyInState,
        ) || toggle_folder_spec(apply_action_spec(entries, act), item_name, enable) == Some(act),
        apply_action_spec(apply_action_spec(entries, act), toggle_folder_spec(
            apply_action_spec(entries, act),
            item_name,
            enable,
        ).unwrap()) == apply_action_spec(entries, act),
{
    reveal_strlit(".disabled");
    let i = first_folder_match(entries, item_name).unwrap();
    lemma_first_folder_match_props(entries, item_name);
    let entry = entries[i];
    let disabled = ".disabled"@.is_suffix_of(entry);
    if enable && disabled {
        let to = trim_end_matches_spec(entry, ".disabled"@);
        lemma_second_toggle_already(entries, i, item_name, enable, to);
    } else if !enable && !disabled {
        let to = entry + ".disabled"@;
        lemma_second_toggle_already(entries, i, item_name, enable, to);
    } else {
        // already in state: the action is the identity, so the second
        // decision equals the first and applies to nothing
        assert(apply_action_spec(entries, act) == entries);
    }
}

/// Facts about the first match: it matches, and nothing before it does.
proof fn lemma_first_folder_match_props(entries: Seq<Seq<char>>, item_name: Seq<char>)
    requires
        first_folder_match(entries, item_name) is Some,
    ensures
        ({
            let i = first_folder_match(entries, item_name).unwrap();
            &&& 0 <= i < entries.len()
            &&& folder_match(entries[i], item_name)
            &&& forall|j: int| 0 <= j < i ==> !folder_match(#[trigger] entries[j], item_name)
        }),
    decreases entries.len(),
{
    if entries.len() > 0 && !folder_match(entries[0], item_name) {
        lemma_first_folder_match_props(entries.drop_first(), item_name);
        let i = first_folder_match(entries, item_name).unwrap();
        assert(entries.drop_first()[i - 1] == entries[i]);
        assert(forall|j: int|
            1 <= j < i ==> entries[j] == entries.drop_first()[j - 1]);
    }
}

/// After the rename at the first match, the same toggle finds the renamed
/// entry at the same index, already in the requested state.
proof fn lemma_second_toggle_already(
    entries: Seq<Seq<char>>,
    i: int,
    item_name: Seq<char>,
    enable: bool,
    to: Seq<char>,
)
    requires
        0 <= i < entries.len(),
        folder_match(entries[i], item_name),
        forall|j: int| 0 <= j < i ==> !folder_match(#[trigger] entries[j], item_name),
        toggle_action_spec(entries[i], enable) == (FolderActionModel::Rename {
            from: entries[i],
            to,
        }),
    ensures
        toggle_folder_spec(rename_first(entries, entries[i], to), item_name, enable) == Some(
            FolderActionModel::AlreadyInState,
        ),
{
    reveal_strlit(".disabled");
    let entry = entries[i];
    let disabled = ".disabled"@.is_suffix_of(entry);
    // entries before i do not even match the item, so they differ from the
    // matched entry
    assert(forall|j: int| 0 <= j < i ==> entries[j] != entry);
    lemma_rename_first_at(entries, i, entry, to);
    let updated = entries.update(i, to);
    // the renamed entry resolves to the same base name, so it still matches
    assert(trim_end_matches_spec(to, ".disabled"@) == trim_end_matches_spec(
        entry,
        ".disabled"@,
    )) by {
        if enable && disabled {
            lemma_trim_end_no_suffix(entry, ".disabled"@);
        } else {
            lemma_trim_end_append(entry, ".disabled"@);
        }
    }
    assert(folder_match(updated[i], item_name));
    assert(forall|j: int| 0 <= j < i ==> updated[j] == entries[j]);
    lemma_first_folder_match_at(updated, i, item_name);
    // and it now carries exactly the requested state
    if enable && disabled {
        lemma_trim_end_no_suffix(entry, ".disabled"@);
        assert(!".disabled"@.is_suffix_of(to));
    } else {
        assert(to.subrange(to.len() - ".disabled"@.len(), to.len() as int) =~= ".disabled"@);
        assert(".disabled"@.is_suffix_of(to));
    }
}

/// Which registry value a delete removes, and which shadow value goes
/// with it (best effort).
pub struct RegistryDeletePlan {
    pub hive: Hive,
    pub run_once: bool,
    /// The run key path holding the value to delete.
    pub key_path: String,
    pub value_name: String,
    /// The shadow key path whose value of the same name should also be
    /// removed, failures swallowed.
    pub approval_path: String,
}

/// The run-value delete (with shadow cleanup) this item calls for.
pub open spec fn is_registry_delete_plan(plan: RegistryDeletePlan, item: StartupItem) -> bool {
    &&& parse_location_spec(item.source_location@) is Some
    &&& {
        let (hive, path) = parse_location_spec(item.source_location@).unwrap();
        &&& plan.hive == hive
        &&& plan.run_once == contains_sub(path, "RunOnce"@)
        &&& plan.key_path@ == path
        &&& plan.value_name@ == item.name@
        &&& plan.approval_path@ == approval_path_spec(path)
    }
}

/// Computes the delete of a registry entry's run value, with the
/// best-effort cleanup of its approval shadow.
pub fn delete_registry_item(item: &StartupItem) -> (r: Result<RegistryDeletePlan, StartupError>)
    ensures
        match r {
            Ok(plan) => is_registry_delete_plan(plan, *item),
            Err(e) => e is NotFound && parse_location_spec(item.source_location@) is None,
        },
{
    let parsed = parse_registry_location(item.source_location.as_str());
    match parsed {
        Some((hive, reg_path)) => {
            proof {
                reveal_strlit("RunOnce");
            }
            let run_once = contains_sub_exec(reg_path.as_str(), "RunOnce");
            let approval_path = approval_path_for(reg_path.as_str());
            Ok(
                RegistryDeletePlan {
                    hive,
                    run_once,
                    key_path: reg_path,
                    value_name: item.name.clone(),
                    approval_path,
                },
            )
        },
        None => Err(StartupError::NotFound),
    }
}

/// Picks the folder entry a delete removes: the first entry of the
/// item's name, whatever its disabled state.
pub fn delete_folder_item(item: &StartupItem, entries: &Vec<String>) -> (r: Result<
    String,
    StartupError,
>)
    ensures
        match r {
            Ok(name) => {
                &&& first_folder_match(entries.deep_view(), item.name@) is Some
                &&& name@ == entries.deep_view()[first_folder_match(
                    entries.deep_view(),
                    item.name@,
                ).unwrap()]
            },
            Err(e) => e is NotFound && first_folder_match(
                entries.deep_view(),
                item.name@,
            ) is None,
        },
{
    let ghost dv = entries.deep_view();
    let n = entries.len();
    let mut i: usize = 0;
    while i < n
        invariant
            n == entries@.len(),
            dv == entries.deep_view(),
            dv.len() == n,
            i <= n,
            forall|j: int| 0 <= j < i ==> !folder_match(#[trigger] dv[j], item.name@),
        decreases n - i,
    {
        proof {
            assert(dv[i as int] == entries@[i as int]@);
        }
        if folder_match_exec(entries[i].as_str(), item.name.as_str()) {
            proof {
                lemma_first_folder_match_at(dv, i as int, item.name@);
            }
            return Ok(entries[i].clone());
        }
        i = i + 1;
    }
    proof {
        lemma_first_folder_match_none(dv, item.name@);
    }
    Err(StartupError::NotFound)
}

/// A toggle plan for either kind of entry.
pub enum TogglePlan {
    Registry(RegistryTogglePlan),
    Folder(FolderAction),
}

/// A delete plan for either kind of entry.
pub enum DeletePlan {
    Registry(RegistryDeletePlan),
    /// The file name to remove from the startup folder.
    Folder(String),
}

/// Dispatches a toggle on the item's source type. `folder_entries` is the
/// current listing of the item's folder; it is ignored for registry
/// items.
pub fn toggle_startup_item(item: &StartupItem, enable: bool, folder_entries: &Vec<String>) -> (r:
    Result<TogglePlan, StartupError>)
    ensures
        item.source_type@ == "registry"@ ==> match r {
            Ok(plan) => plan is Registry && is_registry_toggle_plan(
                plan.arrow_Registry_0(),
                *item,
                enable,
            ),
            Err(e) => e is NotFound && parse_location_spec(item.source_location@) is None,
        },
        item.source_type@ != "registry"@ ==> match r {
            Ok(plan) => plan is Folder && toggle_folder_spec(
                folder_entries.deep_view(),
                item.name@,
                enable,
            ) == Some(plan.arrow_Folder_0()@),
            Err(e) => e is NotFound && toggle_folder_spec(
                folder_entries.deep_view(),
                item.name@,
                enable,
            ) is None,
        },
{
    if text::str_eq(item.source_type.as_str(), "registry") {
        match toggle_registry_item(item, enable) {
            Ok(plan) => Ok(TogglePlan::Registry(plan)),
            Err(e) => Err(e),
        }
    } else {
        match toggle_folder_item(item, enable, folder_entries) {
            Ok(act) => Ok(TogglePlan::Folder(act)),
            Err(e) => Err(e),
        }
    }
}

/// Dispatches a delete on the item's source type.
pub fn delete_startup_item(item: &StartupItem, folder_entries: &Vec<String>) -> (r: Result<
    DeletePlan,
    StartupError,
>)
    ensures
        item.source_type@ == "registry"@ ==> match r {
            Ok(plan) => plan is Registry && is_registry_delete_plan(plan.arrow_Registry_0(), *item),
            Err(e) => e is NotFound && parse_location_spec(item.source_location@) is None,
        },
        item.source_type@ != "registry"@ ==> match r {
            Ok(plan) => plan is Folder && first_folder_match(
                folder_entries.deep_view(),
                item.name@,
            ) is Some && plan.arrow_Folder_0()@ == folder_entries.deep_view()[first_folder_match(
                folder_entries.deep_view(),
                item.name@,
            ).unwrap()],
            Err(e) => e is NotFound && first_folder_match(
                folder_entries.deep_view(),
                item.name@,
            ) is None,
        },
{
    if text::str_eq(item.source_type.as_str(), "registry") {
        match delete_registry_item(item) {
            Ok(plan) => Ok(DeletePlan::Registry(plan)),
            Err(e) => Err(e),
        }
    } else {
        match delete_folder_item(item, folder_entries) {
            Ok(name) => Ok(DeletePlan::Folder(name)),
            Err(e) => Err(e),
        }
    }
}

/// Removes the first entry of the item's name from the (modeled)
/// directory listing; mirrors executing a folder delete plan.
pub fn apply_folder_delete(entries: &mut Vec<String>, file_name: &str)
    ensures
        ({
            let dv = old(entries).deep_view();
            match first_name_index(dv, file_name@) {
                Some(i) => final(entries).deep_view() == dv.remove(i),
                None => final(entries).deep_view() == dv,
            }
        }),
{
    let ghost dv = old(entries).deep_view();
    let n = entries.len();
    let mut i: usize = 0;
    while i < n
        invariant
            n == entries@.len(),
            dv == entries.deep_view(),
            dv.len() == n,
            *entries == *old(entries),
            i <= n,
            forall|j: int| 0 <= j < i ==> dv[j] != file_name@,
        decreases n - i,
    {
        proof {
            assert(dv[i as int] == entries@[i as int]@);
        }
        if text::str_eq(entries[i].as_str(), file_name) {
            entries.remove(i);
            proof {
                lemma_first_name_index_at(dv, i as int, file_name@);
                let fv = entries.deep_view();
                assert(fv =~= dv.remove(i as int)) by {
                    assert(fv.len() == dv.len() - 1);
                    assert(forall|a: int|
                        0 <= a < fv.len() ==> #[trigger] fv[a] == entries@[a]@);
                    assert(forall|a: int| 0 <= a < i ==> #[trigger] entries@[a] == old(entries)@[a]);
                    assert(forall|a: int|
                        i <= a < fv.len() ==> #[trigger] entries@[a] == old(entries)@[a + 1]);
                }
            }
            return ;
        }
        i = i + 1;
    }
    proof {
        lemma_first_name_index_none(dv, file_name@);
    }
}

/// The index of the first entry equal to `name`.
pub open spec fn first_name_index(entries: Seq<Seq<char>>, name: Seq<char>) -> Option<int>
    decreases entries.len(),
{
    if entries.len() == 0 {
        None
    } else if entries[0] == name {
        Some(0int)
    } else {
        match first_name_index(entries.drop_first(), name) {
            Some(i) => Some(i + 1),
            None => None,
        }
    }
}

proof fn lemma_first_name_index_at(entries: Seq<Seq<char>>, i: int, name: Seq<char>)
    requires
        0 <= i < entries.len(),
        entries[i] == name,
        forall|j: int| 0 <= j < i ==> entries[j] != name,
    ensures
        first_name_index(entries, name) == Some(i),
    decreases i,
{
    if i > 0 {
        lemma_first_name_index_at(entries.drop_first(), i - 1, name);
    }
}

proof fn lemma_first_name_index_none(entries: Seq<Seq<char>>, name: Seq<char>)
    requires
        forall|j: int| 0 <= j < entries.len() ==> entries[j] != name,
    ensures
        first_name_index(entries, name) is None,
    decreases entries.len(),
{
    if entries.len() > 0 {
        assert(forall|j: int|
            0 <= j < entries.drop_first().len() ==> entries.drop_first()[j] == entries[j + 1]);
        lemma_first_name_index_none(entries.drop_first(), name);
    }
}

/// The index of the first run value bearing this name.
pub open spec fn first_value_idx(vals: Seq<RegValueModel>, name: Seq<char>) -> Option<int>
    decreases vals.len(),
{
    if vals.len() == 0 {
        None
    } else if vals[0].name == name {
        Some(0int)
    } else {
        match first_value_idx(vals.drop_first(), name) {
            Some(i) => Some(i + 1),
            None => None,
        }
    }
}

proof fn lemma_first_value_idx_at(vals: Seq<RegValueModel>, i: int, name: Seq<char>)
    requires
        0 <= i < vals.len(),
        vals[i].name == name,
        forall|j: int| 0 <= j < i ==> (#[trigger] vals[j]).name != name,
    ensures
        first_value_idx(vals, name) == Some(i),
    decreases i,
{
    if i > 0 {
        lemma_first_value_idx_at(vals.drop_first(), i - 1, name);
    }
}

proof fn lemma_first_value_idx_none(vals: Seq<RegValueModel>, name: Seq<char>)
    requires
        forall|j: int| 0 <= j < vals.len() ==> (#[trigger] vals[j]).name != name,
    ensures
        first_value_idx(vals, name) is None,
    decreases vals.len(),
{
    if vals.len() > 0 {
        assert(forall|j: int|
            0 <= j < vals.drop_first().len() ==> #[trigger] vals.drop_first()[j] == vals[j + 1]);
        lemma_first_value_idx_none(vals.drop_first(), name);
    }
}

/// The run values with the first value of this name removed.
pub open spec fn remove_value_named(vals: Seq<RegValueModel>, name: Seq<char>) -> Seq<
    RegValueModel,
> {
    match first_value_idx(vals, name) {
        Some(i) => vals.remove(i),
        None => vals,
    }
}

/// Deletes the named run value from one hive: the value leaves the run
/// key, and the matching approval-shadow value goes with it when that
/// shadow exists (failures there are swallowed). An absent key or value
/// is a backing-store error and changes nothing.
fn delete_from_hive(h: &mut HiveState, run_once: bool, name: &str) -> (r: Result<
    (),
    StartupError,
>)
    requires
        old(h).wf(),
    ensures
        final(h).wf(),
        match r {
            Ok(u) => {
                &&& run_once ==> {
                    &&& old(h).run_once is Some
                    &&& first_value_idx(run_view(old(h).run_once), name@) is Some
                    &&& final(h).run_once is Some
                    &&& run_view(final(h).run_once) == remove_value_named(
                        run_view(old(h).run_once),
                        name@,
                    )
                    &&& final(h).run == old(h).run
                    &&& final(h).approved_run == old(h).approved_run
                    &&& (old(h).approved_run_once is Some ==> final(h).approved_run_once is Some
                        && approved_view(final(h).approved_run_once) == remove_key(
                        approved_view(old(h).approved_run_once),
                        name@,
                    ))
                    &&& (old(h).approved_run_once is None ==> final(h).approved_run_once is None)
                }
                &&& !run_once ==> {
                    &&& old(h).run is Some
                    &&& first_value_idx(run_view(old(h).run), name@) is Some
                    &&& final(h).run is Some
                    &&& run_view(final(h).run) == remove_value_named(run_view(old(h).run), name@)
                    &&& final(h).run_once == old(h).run_once
                    &&& final(h).approved_run_once == old(h).approved_run_once
                    &&& (old(h).approved_run is Some ==> final(h).approved_run is Some
                        && approved_view(final(h).approved_run) == remove_key(
                        approved_view(old(h).approved_run),
                        name@,
                    ))
                    &&& (old(h).approved_run is None ==> final(h).approved_run is None)
                }
            },
            Err(e) => {
                &&& e is RegistryError
                &&& *final(h) == *old(h)
                &&& (run_once ==> old(h).run_once is None || first_value_idx(
                    run_view(old(h).run_once),
                    name@,
                ) is None)
                &&& (!run_once ==> old(h).run is None || first_value_idx(
                    run_view(old(h).run),
                    name@,
                ) is None)
            },
        },
{
    let mut vals: Vec<crate::registry::RegValueEntry> = if run_once {
        match &h.run_once {
            Some(v) => clone_values(v),
            None => {
                return Err(StartupError::RegistryError(String::from_str("run key not found")));
            },
        }
    } else {
        match &h.run {
            Some(v) => clone_values(v),
            None => {
                return Err(StartupError::RegistryError(String::from_str("run key not found")));
            },
        }
    };
    let ghost vv = vals.deep_view();
    let n = vals.len();
    let mut i: usize = 0;
    while i < n
        invariant
            n == vals@.len(),
            vv == vals.deep_view(),
            vv.len() == n,
            *h == *old(h),
            h.wf(),
            run_once ==> old(h).run_once is Some && run_view(old(h).run_once) == vv,
            !run_once ==> old(h).run is Some && run_view(old(h).run) == vv,
            i <= n,
            forall|j: int| 0 <= j < i ==> (#[trigger] vv[j]).name != name@,
        decreases n - i,
    {
        proof {
            assert(vv[i as int] == vals@[i as int].deep_view());
        }
        if text::str_eq(vals[i].name.as_str(), name) {
            proof {
                lemma_first_value_idx_at(vv, i as int, name@);
            }
            vals.remove(i);
            proof {
                let fv = vals.deep_view();
                assert(fv =~= vv.remove(i as int)) by {
                    assert(fv.len() == vv.len() - 1);
                    assert(forall|a: int| 0 <= a < fv.len() ==> #[trigger] fv[a] == vals@[a].deep_view());
                    assert(forall|a: int| 0 <= a < i ==> #[trigger] fv[a] == vv[a]);
                    assert(forall|a: int| i <= a < fv.len() ==> #[trigger] fv[a] == vv[a + 1]);
                }
            }
            if run_once {
                let shadow: Option<Vec<(String, Vec<u8>)>> = match &h.approved_run_once {
                    Some(a) => {
                        let c = clone_approved(a);
                        proof {
                            assert(c.deep_view() == approved_view(old(h).approved_run_once));
                        }
                        Some(c)
                    },
                    None => None,
                };
                h.run_once = Some(vals);
                match shadow {
                    Some(mut a) => {
                        proof {
                            assert(old(h).approved_run_once is Some);
                            assert(a.deep_view() == approved_view(old(h).approved_run_once));
                        }
                        assoc_remove(&mut a, name);
                        h.approved_run_once = Some(a);
                    },
                    None => {
                        proof {
                            assert(old(h).approved_run_once is None);
                        }
                    },
                }
            } else {
                let shadow: Option<Vec<(String, Vec<u8>)>> = match &h.approved_run {
                    Some(a) => {
                        let c = clone_approved(a);
                        proof {
                            assert(c.deep_view() == approved_view(old(h).approved_run));
                        }
                        Some(c)
                    },
                    None => None,
                };
                h.run = Some(vals);
                match shadow {
                    Some(mut a) => {
                        proof {
                            assert(old(h).approved_run is Some);
                            assert(a.deep_view() == approved_view(old(h).approved_run));
                        }
                        assoc_remove(&mut a, name);
                        h.approved_run = Some(a);
                    },
                    None => {
                        proof {
                            assert(old(h).approved_run is None);
                        }
                    },
                }
            }
            return Ok(());
        }
        i = i + 1;
    }
    proof {
        lemma_first_value_idx_none(vv, name@);
    }
    Err(StartupError::RegistryError(String::from_str("run value not found")))
}

/// What executing a registry delete plan does to the store: the named run
/// value leaves its key, its shadow value goes best-effort, nothing else
/// moves. An absent key or value reports a backing-store error and leaves
/// the store untouched.
pub fn apply_registry_delete(snap: &mut RegistrySnapshot, plan: &RegistryDeletePlan) -> (r: Result<
    (),
    StartupError,
>)
    requires
        old(snap).wf(),
    ensures
        final(snap).wf(),
        plan.hive is CurrentUser ==> final(snap).local_machine == old(snap).local_machine,
        plan.hive is LocalMachine ==> final(snap).current_user == old(snap).current_user,
        ({
            let oldh = if plan.hive is CurrentUser {
                old(snap).current_user
            } else {
                old(snap).local_machine
            };
            let newh = if plan.hive is CurrentUser {
                final(snap).current_user
            } else {
                final(snap).local_machine
            };
            match r {
                Ok(u) => {
                    &&& plan.run_once ==> {
                        &&& oldh.run_once is Some
                        &&& first_value_idx(run_view(oldh.run_once), plan.value_name@) is Some
                        &&& run_view(newh.run_once) == remove_value_named(
                            run_view(oldh.run_once),
                            plan.value_name@,
                        )
                        &&& newh.run == oldh.run
                        &&& newh.approved_run == oldh.approved_run
                        &&& (oldh.approved_run_once is Some ==> approved_view(
                            newh.approved_run_once,
                        ) == remove_key(approved_view(oldh.approved_run_once), plan.value_name@))
                        &&& (oldh.approved_run_once is None ==> newh.approved_run_once is None)
                    }
                    &&& !plan.run_once ==> {
                        &&& oldh.run is Some
                        &&& first_value_idx(run_view(oldh.run), plan.value_name@) is Some
                        &&& run_view(newh.run) == remove_value_named(
                            run_view(oldh.run),
                            plan.value_name@,
                        )
                        &&& newh.run_once == oldh.run_once
                        &&& newh.approved_run_once == oldh.approved_run_once
                        &&& (oldh.approved_run is Some ==> approved_view(newh.approved_run)
                            == remove_key(approved_view(oldh.approved_run), plan.value_name@))
                        &&& (oldh.approved_run is None ==> newh.approved_run is None)
                    }
                },
                Err(e) => {
                    &&& e is RegistryError
                    &&& *final(snap) == *old(snap)
                    &&& (plan.run_once ==> oldh.run_once is None || first_value_idx(
                        run_view(oldh.run_once),
                        plan.value_name@,
                    ) is None)
                    &&& (!plan.run_once ==> oldh.run is None || first_value_idx(
                        run_view(oldh.run),
                        plan.value_name@,
                    ) is None)
                },
            }
        }),
{
    match plan.hive {
        Hive::CurrentUser => delete_from_hive(
            &mut snap.current_user,
            plan.run_once,
            plan.value_name.as_str(),
        ),
        Hive::LocalMachine => delete_from_hive(
            &mut snap.local_machine,
            plan.run_once,
            plan.value_name.as_str(),
        ),
    }
}

} // verus!
