//! Building the normalized entity list from backing-store snapshots.
//!
//! The scanner is a pure function from the current backing-store state to
//! a list of `StartupItem`s. The caller enumerates the platform (run keys,
//! startup folders, per-path file facts) into plain values; everything the
//! scanner decides — how a command line resolves to an executable path,
//! which entries are enabled, skipped or renamed-disabled, what identity
//! an entry gets, and the final order — is verified here.

use vstd::prelude::*;
use vstd::multiset::Multiset;
use vstd::seq_lib::lemma_multiset_commutative;
use vstd::string::*;
use crate::assoc::{assoc_get, lookup, set_contains};
use crate::ids::{generate_id, id_of};
use crate::item::{ItemModel, SourceType, StartupItem};
use crate::registry::{run_view, RegValueEntry, RegValueModel, RegistrySnapshot};
use crate::text;
use crate::text::{
    find_char_from, find_sub_from, find_ws_from, lemma_lex_le_total, lemma_lex_le_trans, lex_le,
    lower, trim_end_matches_spec, trimmed, trimmed_char,
};

verus! {

/// What the platform reports about files: which paths exist, the icon and
/// description each path yields, and what each shortcut resolves to. A
/// path missing from a map simply has no icon, no description, no target —
/// the failures are non-fatal and read as `None`.
pub struct FileOracle {
    pub existing: Vec<String>,
    pub icons: Vec<(String, String)>,
    pub descriptions: Vec<(String, String)>,
    pub shortcut_targets: Vec<(String, String)>,
}

/// The mathematical content of a `FileOracle`.
pub struct OracleModel {
    pub existing: Seq<Seq<char>>,
    pub icons: Seq<(Seq<char>, Seq<char>)>,
    pub descriptions: Seq<(Seq<char>, Seq<char>)>,
    pub shortcut_targets: Seq<(Seq<char>, Seq<char>)>,
}

impl View for FileOracle {
    type V = OracleModel;

    open spec fn view(&self) -> OracleModel {
        OracleModel {
            existing: self.existing.deep_view(),
            icons: self.icons.deep_view(),
            descriptions: self.descriptions.deep_view(),
            shortcut_targets: self.shortcut_targets.deep_view(),
        }
    }
}

impl FileOracle {
    /// An oracle that knows nothing: no path exists, nothing resolves.
    pub fn unknowing() -> (r: FileOracle)
        ensures
            r@.existing == Seq::<Seq<char>>::empty(),
            r@.icons == Seq::<(Seq<char>, Seq<char>)>::empty(),
            r@.descriptions == Seq::<(Seq<char>, Seq<char>)>::empty(),
            r@.shortcut_targets == Seq::<(Seq<char>, Seq<char>)>::empty(),
    {
        let r = FileOracle {
            existing: Vec::new(),
            icons: Vec::new(),
            descriptions: Vec::new(),
            shortcut_targets: Vec::new(),
        };
        proof {
            assert(r@.existing =~= Seq::<Seq<char>>::empty());
            assert(r@.icons =~= Seq::<(Seq<char>, Seq<char>)>::empty());
            assert(r@.descriptions =~= Seq::<(Seq<char>, Seq<char>)>::empty());
            assert(r@.shortcut_targets =~= Seq::<(Seq<char>, Seq<char>)>::empty());
        }
        r
    }

    /// The icon payload recorded for a path, if any.
    pub fn extract_icon_base64(&self, exe_path: &str) -> (r: Option<String>)
        ensures
            match r {
                Some(s) => lookup(self@.icons, exe_path@) == Some(s@),
                None => lookup(self@.icons, exe_path@) is None,
            },
    {
        match assoc_get(&self.icons, exe_path) {
            Some(s) => Some(s.clone()),
            None => None,
        }
    }

    /// The file description recorded for a path, if any.
    pub fn get_file_description(&self, path: &str) -> (r: Option<String>)
        ensures
            match r {
                Some(s) => lookup(self@.descriptions, path@) == Some(s@),
                None => lookup(self@.descriptions, path@) is None,
            },
    {
        match assoc_get(&self.descriptions, path) {
            Some(s) => Some(s.clone()),
            None => None,
        }
    }

    /// Whether a path existed when the oracle was gathered.
    pub fn path_exists(&self, path: &str) -> (r: bool)
        ensures
            r == self@.existing.contains(path@),
    {
        set_contains(&self.existing, path)
    }

    /// The target a shortcut file resolves to, if resolution succeeded.
    pub fn resolve_shortcut(&self, lnk_path: &str) -> (r: Option<String>)
        ensures
            match r {
                Some(s) => lookup(self@.shortcut_targets, lnk_path@) == Some(s@),
                None => lookup(self@.shortcut_targets, lnk_path@) is None,
            },
    {
        match assoc_get(&self.shortcut_targets, lnk_path) {
            Some(s) => Some(s.clone()),
            None => None,
        }
    }
}

/// How a raw launch command resolves to an executable path: a quoted
/// command takes the quoted text; otherwise everything up to and
/// including the first ".exe" (case-insensitively); otherwise the first
/// whitespace-separated token.
pub open spec fn parse_command_path_spec(c: Seq<char>) -> Seq<char> {
    let t = trimmed(c);
    if t.len() > 0 && t[0] == '"' && find_char_from(t, '"', 1) is Some {
        t.subrange(1, find_char_from(t, '"', 1).unwrap())
    } else if find_sub_from(lower(t), ".exe"@, 0) is Some {
        t.take(find_sub_from(lower(t), ".exe"@, 0).unwrap() + 4)
    } else if find_ws_from(t, 0) is Some {
        t.take(find_ws_from(t, 0).unwrap())
    } else {
        t
    }
}

pub fn parse_command_path(command: &str) -> (r: String)
    ensures
        r@ == parse_command_path_spec(command@),
{
    proof {
        reveal_strlit(".exe");
    }
    let t = text::trim(command);
    let n = t.unicode_len();
    if n > 0 && t.as_str().get_char(0) == '"' {
        match text::find_char(t.as_str(), '"', 1) {
            Some(q) => {
                return text::substring(t.as_str(), 1, q);
            },
            None => {},
        }
    }
    let lowered = text::lower_str(t.as_str());
    match text::find_sub_at(lowered.as_str(), ".exe") {
        Some(p) => {
            return text::substring(t.as_str(), 0, p + 4);
        },
        None => {},
    }
    match text::find_ws(t.as_str()) {
        Some(w) => text::substring(t.as_str(), 0, w),
        None => t,
    }
}

/// One UTF-16 code unit from its two little-endian bytes.
pub open spec fn word_of(lo: u8, hi: u8) -> u16 {
    (lo as u16) | ((hi as u16) << 8)
}

/// The UTF-16 code units of a little-endian byte string; a trailing odd
/// byte is dropped.
pub open spec fn words_of(bytes: Seq<u8>) -> Seq<u16> {
    Seq::new(bytes.len() / 2, |i: int| word_of(bytes[2 * i], bytes[2 * i + 1]))
}

pub fn words_exec(bytes: &Vec<u8>) -> (r: Vec<u16>)
    ensures
        r@ == words_of(bytes@),
{
    let n = bytes.len() / 2;
    let mut r: Vec<u16> = Vec::new();
    let mut i: usize = 0;
    while i < n
        invariant
            n == bytes@.len() / 2,
            bytes@.len() <= usize::MAX,
            i <= n,
            r@.len() == i,
            forall|j: int| 0 <= j < i ==> r@[j] == word_of(bytes@[2 * j], bytes@[2 * j + 1]),
        decreases n - i,
    {
        proof {
            assert(2 * i + 1 < bytes@.len());
        }
        let idx = 2 * i;
        let lo = bytes[idx];
        let hi = bytes[idx + 1];
        r.push((lo as u16) | ((hi as u16) << 8));
        i = i + 1;
    }
    proof {
        assert(r@ =~= words_of(bytes@));
    }
    r
}

/// What a sequence of UTF-16 code units reads as, with invalid units
/// replaced; the result depends on the code units alone.
pub uninterp spec fn utf16_lossy_of(words: Seq<u16>) -> Seq<char>;

/// Relies on String::from_utf16_lossy: decodes UTF-16, replacing invalid
/// data with the replacement character; a pure function of the code units.
#[verifier::external_body]
fn utf16_lossy(words: &Vec<u16>) -> (r: String)
    ensures
        r@ == utf16_lossy_of(words@),
{
    String::from_utf16_lossy(words.as_slice())
}

/// The command string carried by a raw registry value: its bytes read as
/// UTF-16LE, with NUL padding trimmed from both ends.
pub open spec fn command_of(data: Seq<u8>) -> Seq<char> {
    trimmed_char(utf16_lossy_of(words_of(data)), '\0')
}

fn decode_command(data: &Vec<u8>) -> (r: String)
    ensures
        r@ == command_of(data@),
{
    let words = words_exec(data);
    let decoded = utf16_lossy(&words);
    text::trim_char(decoded.as_str(), '\0')
}

/// Is this name flagged disabled in the approval shadow? The first byte
/// of its raw value decides: 3 means disabled, anything else (or no
/// entry, or an empty value) reads as enabled.
pub open spec fn disabled_in(approved: Seq<(Seq<char>, Seq<u8>)>, name: Seq<char>) -> bool {
    match lookup(approved, name) {
        Some(bytes) => bytes.len() > 0 && bytes[0] == 3,
        None => false,
    }
}

pub fn is_item_disabled(approved: &Option<Vec<(String, Vec<u8>)>>, name: &str) -> (r: bool)
    ensures
        r == disabled_in(crate::manager::approved_view(*approved), name@),
{
    match approved {
        Some(list) => match assoc_get(list, name) {
            Some(bytes) => {
                proof {
                    assert(bytes.deep_view() =~= bytes@);
                }
                bytes.len() > 0 && bytes[0] == 3
            },
            None => false,
        },
        None => false,
    }
}

/// The item a registry run value yields.
pub open spec fn reg_item_model(
    v: RegValueModel,
    approved: Seq<(Seq<char>, Seq<u8>)>,
    location: Seq<char>,
    label: Seq<char>,
    o: OracleModel,
) -> ItemModel {
    let command = command_of(v.data);
    let path = parse_command_path_spec(command);
    ItemModel {
        id: id_of(location, v.name),
        name: v.name,
        description: lookup(o.descriptions, path),
        path: path,
        command: command,
        icon: lookup(o.icons, path),
        source: label,
        source_type: "registry"@,
        source_location: location,
        enabled: !disabled_in(approved, v.name),
        valid: o.existing.contains(path),
    }
}

/// The items of one run key, in value order: string-typed values whose
/// decoded command is nonempty; everything else is skipped.
pub open spec fn reg_items_of(
    values: Seq<RegValueModel>,
    approved: Seq<(Seq<char>, Seq<u8>)>,
    location: Seq<char>,
    label: Seq<char>,
    o: OracleModel,
) -> Seq<ItemModel>
    decreases values.len(),
{
    if values.len() == 0 {
        Seq::empty()
    } else {
        let head = if values[0].is_string && command_of(values[0].data).len() > 0 {
            seq![reg_item_model(values[0], approved, location, label, o)]
        } else {
            Seq::<ItemModel>::empty()
        };
        head + reg_items_of(values.drop_first(), approved, location, label, o)
    }
}

proof fn lemma_reg_items_concat(
    a: Seq<RegValueModel>,
    b: Seq<RegValueModel>,
    approved: Seq<(Seq<char>, Seq<u8>)>,
    location: Seq<char>,
    label: Seq<char>,
    o: OracleModel,
)
    ensures
        reg_items_of(a + b, approved, location, label, o) == reg_items_of(
            a,
            approved,
            location,
            label,
            o,
        ) + reg_items_of(b, approved, location, label, o),
    decreases a.len(),
{
    if a.len() == 0 {
        assert(a + b =~= b);
        assert(Seq::<ItemModel>::empty() + reg_items_of(b, approved, location, label, o)
            =~= reg_items_of(b, approved, location, label, o));
    } else {
        assert((a + b).drop_first() =~= a.drop_first() + b);
        lemma_reg_items_concat(a.drop_first(), b, approved, location, label, o);
        assert((a + b)[0] == a[0]);
        let h = if a[0].is_string && command_of(a[0].data).len() > 0 {
            seq![reg_item_model(a[0], approved, location, label, o)]
        } else {
            Seq::<ItemModel>::empty()
        };
        assert(h + (reg_items_of(a.drop_first(), approved, location, label, o) + reg_items_of(
            b,
            approved,
            location,
            label,
            o,
        )) =~= (h + reg_items_of(a.drop_first(), approved, location, label, o)) + reg_items_of(
            b,
            approved,
            location,
            label,
            o,
        ));
    }
}

/// The item one raw value yields, if it is usable.
fn scan_reg_value(
    entry: &RegValueEntry,
    approved: &Option<Vec<(String, Vec<u8>)>>,
    location: &str,
    label: &str,
    oracle: &FileOracle,
) -> (r: Option<StartupItem>)
    ensures
        ({
            let av = crate::manager::approved_view(*approved);
            match r {
                Some(item) => entry@.is_string && command_of(entry@.data).len() > 0 && item@
                    == reg_item_model(entry@, av, location@, label@, oracle@),
                None => !(entry@.is_string && command_of(entry@.data).len() > 0),
            }
        }),
{
    if !entry.is_string {
        return None;
    }
    let command = decode_command(&entry.data);
    if command.unicode_len() == 0 {
        return None;
    }
    let path = parse_command_path(command.as_str());
    let enabled = !is_item_disabled(approved, entry.name.as_str());
    let icon = oracle.extract_icon_base64(path.as_str());
    let description = oracle.get_file_description(path.as_str());
    let valid = oracle.path_exists(path.as_str());
    Some(
        StartupItem {
            id: generate_id(location, entry.name.as_str()),
            name: entry.name.clone(),
            description,
            path,
            command,
            icon,
            source: label.to_owned(),
            source_type: SourceType::Registry.to_string(),
            source_location: location.to_owned(),
            enabled,
            valid,
        },
    )
}

/// Scans one run key, appending its items in value order.
fn scan_one_registry_source(
    values: &Option<Vec<RegValueEntry>>,
    approved: &Option<Vec<(String, Vec<u8>)>>,
    location: &str,
    label: &str,
    oracle: &FileOracle,
    out: &mut Vec<StartupItem>,
)
    ensures
        final(out).deep_view() == old(out).deep_view() + reg_items_of(
            run_view(*values),
            crate::manager::approved_view(*approved),
            location@,
            label@,
            oracle@,
        ),
{
    let ghost base = old(out).deep_view();
    let ghost av = crate::manager::approved_view(*approved);
    match values {
        None => {
            proof {
                assert(run_view(*values) =~= Seq::<RegValueModel>::empty());
                assert(base + Seq::<ItemModel>::empty() =~= base);
            }
        },
        Some(vals) => {
            let ghost vv = vals.deep_view();
            proof {
                assert(vv.take(0) =~= Seq::<RegValueModel>::empty());
                assert(base + Seq::<ItemModel>::empty() =~= base);
            }
            let n = vals.len();
            let mut i: usize = 0;
            while i < n
                invariant
                    n == vals@.len(),
                    vv == vals.deep_view(),
                    vv.len() == n,
                    av == crate::manager::approved_view(*approved),
                    i <= n,
                    out.deep_view() == base + reg_items_of(
                        vv.take(i as int),
                        av,
                        location@,
                        label@,
                        oracle@,
                    ),
                decreases n - i,
            {
                proof {
                    assert(vv[i as int] == vals@[i as int]@);
                }
                let ghost prev = out.deep_view();
                match scan_reg_value(&vals[i], approved, location, label, oracle) {
                    Some(item) => {
                        let ghost m = item@;
                        out.push(item);
                        proof {
                            assert(out.deep_view() =~= prev + seq![m]) by {
                                let ov = out.deep_view();
                                assert(ov.len() == prev.len() + 1);
                                assert(forall|a: int|
                                    0 <= a < ov.len() ==> #[trigger] ov[a] == out@[a].deep_view());
                                assert(forall|a: int|
                                    0 <= a < prev.len() ==> #[trigger] ov[a] == prev[a]);
                            }
                        }
                    },
                    None => {
                        proof {
                            assert(out.deep_view() =~= prev + Seq::<ItemModel>::empty());
                        }
                    },
                }
                proof {
                    assert(vv.take(i + 1) =~= vv.take(i as int) + seq![vv[i as int]]);
                    lemma_reg_items_concat(
                        vv.take(i as int),
                        seq![vv[i as int]],
                        av,
                        location@,
                        label@,
                        oracle@,
                    );
                    lemma_reg_items_single(vv[i as int], av, location@, label@, oracle@);
                }
                i = i + 1;
            }
            proof {
                assert(vv.take(n as int) =~= vv);
            }
        },
    }
}

/// Unfolds the item list of a single value.
proof fn lemma_reg_items_single(
    v: RegValueModel,
    approved: Seq<(Seq<char>, Seq<u8>)>,
    location: Seq<char>,
    label: Seq<char>,
    o: OracleModel,
)
    ensures
        reg_items_of(seq![v], approved, location, label, o) == if v.is_string && command_of(
            v.data,
        ).len() > 0 {
            seq![reg_item_model(v, approved, location, label, o)]
        } else {
            Seq::<ItemModel>::empty()
        },
{
    let single = seq![v];
    assert(single.drop_first() =~= Seq::<RegValueModel>::empty());
    assert(single[0] == v);
    assert(single.len() == 1);
    let h = if v.is_string && command_of(v.data).len() > 0 {
        seq![reg_item_model(v, approved, location, label, o)]
    } else {
        Seq::<ItemModel>::empty()
    };
    assert(reg_items_of(Seq::<RegValueModel>::empty(), approved, location, label, o)
        =~= Seq::<ItemModel>::empty());
    assert(reg_items_of(single, approved, location, label, o) =~= h + reg_items_of(
        Seq::<RegValueModel>::empty(),
        approved,
        location,
        label,
        o,
    ));
    assert(h + Seq::<ItemModel>::empty() =~= h);
}

/// Toggling never rewrites what a scan reads from the run values: after
/// an approval flag for `name` is written, the key's items keep their
/// ids, names, commands, paths and every other field, and only the
/// entries called `name` change their enabled flag — to the written one.
pub proof fn lemma_scan_after_toggle(
    values: Seq<RegValueModel>,
    approved: Seq<(Seq<char>, Seq<u8>)>,
    name: Seq<char>,
    enable: bool,
    location: Seq<char>,
    label: Seq<char>,
    o: OracleModel,
)
    requires
        crate::assoc::distinct_keys(approved),
    ensures
        ({
            let before = reg_items_of(values, approved, location, label, o);
            let after = reg_items_of(
                values,
                crate::assoc::set_key(approved, name, crate::manager::approval_bytes(enable)),
                location,
                label,
                o,
            );
            &&& after.len() == before.len()
            &&& forall|i: int|
                0 <= i < before.len() ==> {
                    let b = #[trigger] before[i];
                    let a = #[trigger] after[i];
                    &&& a.id == b.id
                    &&& a.name == b.name
                    &&& a.description == b.description
                    &&& a.path == b.path
                    &&& a.command == b.command
                    &&& a.icon == b.icon
                    &&& a.source == b.source
                    &&& a.source_type == b.source_type
                    &&& a.source_location == b.source_location
                    &&& a.valid == b.valid
                    &&& a.enabled == (if b.name == name {
                        enable
                    } else {
                        b.enabled
                    })
                }
        }),
    decreases values.len(),
{
    let approved2 = crate::assoc::set_key(approved, name, crate::manager::approval_bytes(enable));
    crate::assoc::lemma_lookup_set_key(approved, name, crate::manager::approval_bytes(enable));
    let before = reg_items_of(values, approved, location, label, o);
    let after = reg_items_of(values, approved2, location, label, o);
    if values.len() == 0 {
        assert(before =~= Seq::<ItemModel>::empty());
        assert(after =~= Seq::<ItemModel>::empty());
    } else {
        lemma_scan_after_toggle(values.drop_first(), approved, name, enable, location, label, o);
        let restb = reg_items_of(values.drop_first(), approved, location, label, o);
        let resta = reg_items_of(values.drop_first(), approved2, location, label, o);
        let usable = values[0].is_string && command_of(values[0].data).len() > 0;
        if usable {
            let b0 = reg_item_model(values[0], approved, location, label, o);
            let a0 = reg_item_model(values[0], approved2, location, label, o);
            assert(before == seq![b0] + restb);
            assert(after == seq![a0] + resta);
            assert(a0.enabled == (if b0.name == name {
                enable
            } else {
                b0.enabled
            })) by {
                if values[0].name == name {
                    assert(lookup(approved2, name) == Some(
                        crate::manager::approval_bytes(enable),
                    ));
                    assert(crate::manager::approval_bytes(enable).len() == 12);
                    assert(crate::manager::approval_bytes(enable)[0] == (if enable {
                        2u8
                    } else {
                        3u8
                    }));
                } else {
                    assert(lookup(approved2, values[0].name) == lookup(approved, values[0].name));
                }
            }
            assert(forall|i: int| 0 <= i < restb.len() ==> #[trigger] before[i + 1] == restb[i]);
            assert(forall|i: int| 0 <= i < resta.len() ==> #[trigger] after[i + 1] == resta[i]);
        } else {
            assert(before == Seq::<ItemModel>::empty() + restb);
            assert(after == Seq::<ItemModel>::empty() + resta);
            assert(before =~= restb);
            assert(after =~= resta);
        }
    }
}

/// The four run locations, in scan order.
pub open spec fn hkcu_run_location() -> Seq<char> {
    "HKEY_CURRENT_USER\\Software\\Microsoft\\Windows\\CurrentVersion\\Run"@
}

pub open spec fn hkcu_run_once_location() -> Seq<char> {
    "HKEY_CURRENT_USER\\Software\\Microsoft\\Windows\\CurrentVersion\\RunOnce"@
}

pub open spec fn hklm_run_location() -> Seq<char> {
    "HKEY_LOCAL_MACHINE\\Software\\Microsoft\\Windows\\CurrentVersion\\Run"@
}

pub open spec fn hklm_run_once_location() -> Seq<char> {
    "HKEY_LOCAL_MACHINE\\Software\\Microsoft\\Windows\\CurrentVersion\\RunOnce"@
}

/// Every item the registry yields, across the four run locations, in
/// order: current-user run, current-user run-once, all-users run,
/// all-users run-once. The enabled flag of every entry is read from its
/// hive's approved-run shadow.
pub open spec fn scan_registry_spec(snap: RegistrySnapshot, o: OracleModel) -> Seq<ItemModel> {
    let cu = crate::manager::approved_view(snap.current_user.approved_run);
    let lm = crate::manager::approved_view(snap.local_machine.approved_run);
    reg_items_of(run_view(snap.current_user.run), cu, hkcu_run_location(), "HKCU\\...\\Run"@, o)
        + reg_items_of(
        run_view(snap.current_user.run_once),
        cu,
        hkcu_run_once_location(),
        "HKCU\\...\\RunOnce"@,
        o,
    ) + reg_items_of(run_view(snap.local_machine.run), lm, hklm_run_location(), "HKLM\\...\\Run"@, o)
        + reg_items_of(
        run_view(snap.local_machine.run_once),
        lm,
        hklm_run_once_location(),
        "HKLM\\...\\RunOnce"@,
        o,
    )
}

/// Scans the registry snapshot into items, one per usable run value.
pub fn scan_registry_items(snap: &RegistrySnapshot, oracle: &FileOracle) -> (r: Vec<StartupItem>)
    ensures
        r.deep_view() == scan_registry_spec(*snap, oracle@),
{
    let mut out: Vec<StartupItem> = Vec::new();
    proof {
        assert(out.deep_view() =~= Seq::<ItemModel>::empty());
    }
    scan_one_registry_source(
        &snap.current_user.run,
        &snap.current_user.approved_run,
        "HKEY_CURRENT_USER\\Software\\Microsoft\\Windows\\CurrentVersion\\Run",
        "HKCU\\...\\Run",
        oracle,
        &mut out,
    );
    scan_one_registry_source(
        &snap.current_user.run_once,
        &snap.current_user.approved_run,
        "HKEY_CURRENT_USER\\Software\\Microsoft\\Windows\\CurrentVersion\\RunOnce",
        "HKCU\\...\\RunOnce",
        oracle,
        &mut out,
    );
    scan_one_registry_source(
        &snap.local_machine.run,
        &snap.local_machine.approved_run,
        "HKEY_LOCAL_MACHINE\\Software\\Microsoft\\Windows\\CurrentVersion\\Run",
        "HKLM\\...\\Run",
        oracle,
        &mut out,
    );
    scan_one_registry_source(
        &snap.local_machine.run_once,
        &snap.local_machine.approved_run,
        "HKEY_LOCAL_MACHINE\\Software\\Microsoft\\Windows\\CurrentVersion\\RunOnce",
        "HKLM\\...\\RunOnce",
        oracle,
        &mut out,
    );
    proof {
        let cu = crate::manager::approved_view(snap.current_user.approved_run);
        let lm = crate::manager::approved_view(snap.local_machine.approved_run);
        let a = reg_items_of(
            run_view(snap.current_user.run),
            cu,
            hkcu_run_location(),
            "HKCU\\...\\Run"@,
            oracle@,
        );
        let b = reg_items_of(
            run_view(snap.current_user.run_once),
            cu,
            hkcu_run_once_location(),
            "HKCU\\...\\RunOnce"@,
            oracle@,
        );
        let c = reg_items_of(
            run_view(snap.local_machine.run),
            lm,
            hklm_run_location(),
            "HKLM\\...\\Run"@,
            oracle@,
        );
        let d = reg_items_of(
            run_view(snap.local_machine.run_once),
            lm,
            hklm_run_once_location(),
            "HKLM\\...\\RunOnce"@,
            oracle@,
        );
        assert(out.deep_view() == (((Seq::<ItemModel>::empty() + a) + b) + c) + d);
        assert((((Seq::<ItemModel>::empty() + a) + b) + c) + d =~= a + b + c + d);
    }
    out
}

/// One startup folder as listed by the caller: where it is, its human
/// label, and the file names in it, in directory order. A folder that
/// does not exist is simply not passed in.
pub struct FolderSnapshot {
    pub location: String,
    pub source_name: String,
    pub entries: Vec<String>,
}

/// The mathematical content of a `FolderSnapshot`.
pub struct FolderModel {
    pub location: Seq<char>,
    pub source_name: Seq<char>,
    pub entries: Seq<Seq<char>>,
}

impl View for FolderSnapshot {
    type V = FolderModel;

    open spec fn view(&self) -> FolderModel {
        FolderModel {
            location: self.location@,
            source_name: self.source_name@,
            entries: self.entries.deep_view(),
        }
    }
}

impl DeepView for FolderSnapshot {
    type V = FolderModel;

    open spec fn deep_view(&self) -> FolderModel {
        self.view()
    }
}

/// The index of the last '.' in a file name, if any.
pub open spec fn last_dot(s: Seq<char>) -> Option<int>
    decreases s.len(),
{
    if s.len() == 0 {
        None
    } else if s.last() == '.' {
        Some(s.len() - 1)
    } else {
        last_dot(s.drop_last())
    }
}

/// The extension of a file name: what follows the last '.'.
pub open spec fn extension_of(s: Seq<char>) -> Option<Seq<char>> {
    match last_dot(s) {
        Some(i) => Some(s.skip(i + 1)),
        None => None,
    }
}

/// The extension of a file name, as an owned string.
pub fn extension_exec(s: &str) -> (r: Option<String>)
    ensures
        match r {
            Some(e) => extension_of(s@) == Some(e@),
            None => extension_of(s@) is None,
        },
{
    let n = s.unicode_len();
    let mut j = n;
    proof {
        assert(s@.take(n as int) =~= s@);
    }
    while j > 0
        invariant
            n == s@.len(),
            j <= n,
            last_dot(s@) == last_dot(s@.take(j as int)),
        decreases j,
    {
        proof {
            let t = s@.take(j as int);
            assert(t.last() == s@[j - 1]);
            assert(t.drop_last() =~= s@.take(j - 1));
        }
        if s.get_char(j - 1) == '.' {
            proof {
                assert(last_dot(s@) == Some(j - 1));
            }
            return Some(text::substring(s, j, n));
        }
        j = j - 1;
    }
    proof {
        assert(s@.take(0) =~= Seq::<char>::empty());
    }
    None
}

/// The name a folder entry carries once its disabled marker is stripped,
/// and whether it was marked disabled.
pub open spec fn stripped_name(entry: Seq<char>) -> Seq<char> {
    if ".disabled"@.is_suffix_of(entry) {
        trim_end_matches_spec(entry, ".disabled"@)
    } else {
        entry
    }
}

/// The item a folder entry yields, if any: hidden names and files that
/// are neither shortcuts nor executables are skipped.
pub open spec fn folder_item_model(
    entry: Seq<char>,
    location: Seq<char>,
    source_name: Seq<char>,
    o: OracleModel,
) -> Option<ItemModel> {
    let actual = stripped_name(entry);
    let enabled = !".disabled"@.is_suffix_of(entry);
    let full = location + "\\"@ + entry;
    if actual.len() > 0 && actual[0] == '.' {
        None
    } else if extension_of(actual) is Some && lower(extension_of(actual).unwrap()) == "lnk"@ {
        let target = match lookup(o.shortcut_targets, full) {
            Some(t) => t,
            None => full,
        };
        Some(folder_item_fields(
            entry,
            trim_end_matches_spec(actual, ".lnk"@),
            target,
            location,
            source_name,
            enabled,
            o,
        ))
    } else if extension_of(actual) is Some && lower(extension_of(actual).unwrap()) == "exe"@ {
        Some(folder_item_fields(
            entry,
            trim_end_matches_spec(actual, ".exe"@),
            full,
            location,
            source_name,
            enabled,
            o,
        ))
    } else {
        None
    }
}

/// The fields common to both folder-item kinds.
pub open spec fn folder_item_fields(
    entry: Seq<char>,
    display_name: Seq<char>,
    target: Seq<char>,
    location: Seq<char>,
    source_name: Seq<char>,
    enabled: bool,
    o: OracleModel,
) -> ItemModel {
    ItemModel {
        id: id_of(location, entry),
        name: display_name,
        description: lookup(o.descriptions, target),
        path: target,
        command: target,
        icon: lookup(o.icons, target),
        source: source_name,
        source_type: "folder"@,
        source_location: location,
        enabled: enabled,
        valid: o.existing.contains(target),
    }
}

/// The items of one folder, in entry order.
pub open spec fn folder_items_of(
    entries: Seq<Seq<char>>,
    location: Seq<char>,
    source_name: Seq<char>,
    o: OracleModel,
) -> Seq<ItemModel>
    decreases entries.len(),
{
    if entries.len() == 0 {
        Seq::empty()
    } else {
        let head = match folder_item_model(entries[0], location, source_name, o) {
            Some(m) => seq![m],
            None => Seq::<ItemModel>::empty(),
        };
        head + folder_items_of(entries.drop_first(), location, source_name, o)
    }
}

proof fn lemma_folder_items_concat(
    a: Seq<Seq<char>>,
    b: Seq<Seq<char>>,
    location: Seq<char>,
    source_name: Seq<char>,
    o: OracleModel,
)
    ensures
        folder_items_of(a + b, location, source_name, o) == folder_items_of(
            a,
            location,
            source_name,
            o,
        ) + folder_items_of(b, location, source_name, o),
    decreases a.len(),
{
    if a.len() == 0 {
        assert(a + b =~= b);
        assert(Seq::<ItemModel>::empty() + folder_items_of(b, location, source_name, o)
            =~= folder_items_of(b, location, source_name, o));
    } else {
        assert((a + b).drop_first() =~= a.drop_first() + b);
        lemma_folder_items_concat(a.drop_first(), b, location, source_name, o);
        assert((a + b)[0] == a[0]);
        let h = match folder_item_model(a[0], location, source_name, o) {
            Some(m) => seq![m],
            None => Seq::<ItemModel>::empty(),
        };
        assert(h + (folder_items_of(a.drop_first(), location, source_name, o) + folder_items_of(
            b,
            location,
            source_name,
            o,
        )) =~= (h + folder_items_of(a.drop_first(), location, source_name, o)) + folder_items_of(
            b,
            location,
            source_name,
            o,
        ));
    }
}

proof fn lemma_folder_items_single(
    entry: Seq<char>,
    location: Seq<char>,
    source_name: Seq<char>,
    o: OracleModel,
)
    ensures
        folder_items_of(seq![entry], location, source_name, o) == match folder_item_model(
            entry,
            location,
            source_name,
            o,
        ) {
            Some(m) => seq![m],
            None => Seq::<ItemModel>::empty(),
        },
{
    let single = seq![entry];
    assert(single.drop_first() =~= Seq::<Seq<char>>::empty());
    assert(single[0] == entry);
    let h = match folder_item_model(entry, location, source_name, o) {
        Some(m) => seq![m],
        None => Seq::<ItemModel>::empty(),
    };
    assert(folder_items_of(Seq::<Seq<char>>::empty(), location, source_name, o)
        =~= Seq::<ItemModel>::empty());
    assert(folder_items_of(single, location, source_name, o) =~= h + folder_items_of(
        Seq::<Seq<char>>::empty(),
        location,
        source_name,
        o,
    ));
    assert(h + Seq::<ItemModel>::empty() =~= h);
}

/// The item one folder entry yields, if any.
fn scan_folder_entry(
    entry: &str,
    location: &str,
    source_name: &str,
    oracle: &FileOracle,
) -> (r: Option<StartupItem>)
    ensures
        match r {
            Some(item) => folder_item_model(entry@, location@, source_name@, oracle@) == Some(
                item@,
            ),
            None => folder_item_model(entry@, location@, source_name@, oracle@) is None,
        },
{
    proof {
        reveal_strlit(".disabled");
        reveal_strlit(".lnk");
        reveal_strlit(".exe");
        reveal_strlit("lnk");
        reveal_strlit("exe");
        reveal_strlit("\\");
    }
    let disabled_suffix = text::ends_with(entry, ".disabled");
    let actual = if disabled_suffix {
        text::trim_end_matches(entry, ".disabled")
    } else {
        entry.to_owned()
    };
    let enabled = !disabled_suffix;
    if actual.unicode_len() > 0 && actual.as_str().get_char(0) == '.' {
        return None;
    }
    let full = text::concat3(location, "\\", entry);
    let ext = match extension_exec(actual.as_str()) {
        Some(e) => e,
        None => {
            return None;
        },
    };
    let ext_lower = text::lower_str(ext.as_str());
    if text::str_eq(ext_lower.as_str(), "lnk") {
        let target = match oracle.resolve_shortcut(full.as_str()) {
            Some(t) => t,
            None => full,
        };
        let display_name = text::trim_end_matches(actual.as_str(), ".lnk");
        Some(build_folder_item(entry, display_name, target, location, source_name, enabled, oracle))
    } else if text::str_eq(ext_lower.as_str(), "exe") {
        let display_name = text::trim_end_matches(actual.as_str(), ".exe");
        Some(build_folder_item(entry, display_name, full, location, source_name, enabled, oracle))
    } else {
        None
    }
}

/// Assembles one folder item from its decided fields.
fn build_folder_item(
    entry: &str,
    display_name: String,
    target: String,
    location: &str,
    source_name: &str,
    enabled: bool,
    oracle: &FileOracle,
) -> (r: StartupItem)
    ensures
        r@ == folder_item_fields(
            entry@,
            display_name@,
            target@,
            location@,
            source_name@,
            enabled,
            oracle@,
        ),
{
    let icon = oracle.extract_icon_base64(target.as_str());
    let description = oracle.get_file_description(target.as_str());
    let valid = oracle.path_exists(target.as_str());
    StartupItem {
        id: generate_id(location, entry),
        name: display_name,
        description,
        path: target.clone(),
        command: target,
        icon,
        source: source_name.to_owned(),
        source_type: SourceType::Folder.to_string(),
        source_location: location.to_owned(),
        enabled,
        valid,
    }
}

/// Every item the given startup folders yield, folder by folder.
pub open spec fn scan_folders_spec(folders: Seq<FolderModel>, o: OracleModel) -> Seq<ItemModel>
    decreases folders.len(),
{
    if folders.len() == 0 {
        Seq::empty()
    } else {
        folder_items_of(folders[0].entries, folders[0].location, folders[0].source_name, o)
            + scan_folders_spec(folders.drop_first(), o)
    }
}

/// Scans the given startup folders into items: one per shortcut or
/// executable entry, with the disabled marker stripped from the name and
/// recorded in the enabled flag.
pub fn scan_startup_folder_items(folders: &Vec<FolderSnapshot>, oracle: &FileOracle) -> (r: Vec<
    StartupItem,
>)
    ensures
        r.deep_view() == scan_folders_spec(folders.deep_view(), oracle@),
{
    let ghost fv = folders.deep_view();
    let mut out: Vec<StartupItem> = Vec::new();
    proof {
        assert(out.deep_view() =~= Seq::<ItemModel>::empty());
        assert(fv.take(0) =~= Seq::<FolderModel>::empty());
    }
    let nf = folders.len();
    let mut f: usize = 0;
    while f < nf
        invariant
            nf == folders@.len(),
            fv == folders.deep_view(),
            fv.len() == nf,
            f <= nf,
            out.deep_view() == scan_folders_spec(fv.take(f as int), oracle@),
        decreases nf - f,
    {
        proof {
            assert(fv[f as int] == folders@[f as int]@);
        }
        let folder = &folders[f];
        let ghost ev = folder.entries.deep_view();
        let ghost folder_base = out.deep_view();
        proof {
            assert(ev.take(0) =~= Seq::<Seq<char>>::empty());
            assert(folder_base + Seq::<ItemModel>::empty() =~= folder_base);
        }
        let n = folder.entries.len();
        let mut i: usize = 0;
        while i < n
            invariant
                n == folder.entries@.len(),
                ev == folder.entries.deep_view(),
                ev.len() == n,
                i <= n,
                out.deep_view() == folder_base + folder_items_of(
                    ev.take(i as int),
                    folder.location@,
                    folder.source_name@,
                    oracle@,
                ),
            decreases n - i,
        {
            proof {
                assert(ev[i as int] == folder.entries@[i as int]@);
            }
            let ghost prev = out.deep_view();
            match scan_folder_entry(
                folder.entries[i].as_str(),
                folder.location.as_str(),
                folder.source_name.as_str(),
                oracle,
            ) {
                Some(item) => {
                    let ghost m = item@;
                    out.push(item);
                    proof {
                        assert(out.deep_view() =~= prev + seq![m]) by {
                            let ov = out.deep_view();
                            assert(ov.len() == prev.len() + 1);
                            assert(forall|a: int|
                                0 <= a < ov.len() ==> #[trigger] ov[a] == out@[a].deep_view());
                            assert(forall|a: int|
                                0 <= a < prev.len() ==> #[trigger] ov[a] == prev[a]);
                        }
                    }
                },
                None => {
                    proof {
                        assert(out.deep_view() =~= prev + Seq::<ItemModel>::empty());
                    }
                },
            }
            proof {
                assert(ev.take(i + 1) =~= ev.take(i as int) + seq![ev[i as int]]);
                lemma_folder_items_concat(
                    ev.take(i as int),
                    seq![ev[i as int]],
                    folder.location@,
                    folder.source_name@,
                    oracle@,
                );
                lemma_folder_items_single(
                    ev[i as int],
                    folder.location@,
                    folder.source_name@,
                    oracle@,
                );
            }
            i = i + 1;
        }
        proof {
            assert(ev.take(n as int) =~= ev);
            assert(fv.take(f + 1) =~= fv.take(f as int) + seq![fv[f as int]]);
            lemma_scan_folders_concat(fv.take(f as int), seq![fv[f as int]], oracle@);
            lemma_scan_folders_single(fv[f as int], oracle@);
        }
        f = f + 1;
    }
    proof {
        assert(fv.take(nf as int) =~= fv);
    }
    out
}

proof fn lemma_scan_folders_concat(a: Seq<FolderModel>, b: Seq<FolderModel>, o: OracleModel)
    ensures
        scan_folders_spec(a + b, o) == scan_folders_spec(a, o) + scan_folders_spec(b, o),
    decreases a.len(),
{
    if a.len() == 0 {
        assert(a + b =~= b);
        assert(Seq::<ItemModel>::empty() + scan_folders_spec(b, o) =~= scan_folders_spec(b, o));
    } else {
        assert((a + b).drop_first() =~= a.drop_first() + b);
        lemma_scan_folders_concat(a.drop_first(), b, o);
        assert((a + b)[0] == a[0]);
        let h = folder_items_of(a[0].entries, a[0].location, a[0].source_name, o);
        assert(h + (scan_folders_spec(a.drop_first(), o) + scan_folders_spec(b, o)) =~= (h
            + scan_folders_spec(a.drop_first(), o)) + scan_folders_spec(b, o));
    }
}

proof fn lemma_scan_folders_single(fm: FolderModel, o: OracleModel)
    ensures
        scan_folders_spec(seq![fm], o) == folder_items_of(fm.entries, fm.location, fm.source_name, o),
{
    let single = seq![fm];
    assert(single.drop_first() =~= Seq::<FolderModel>::empty());
    assert(single[0] == fm);
    assert(scan_folders_spec(Seq::<FolderModel>::empty(), o) =~= Seq::<ItemModel>::empty());
    assert(scan_folders_spec(single, o) =~= folder_items_of(
        fm.entries,
        fm.location,
        fm.source_name,
        o,
    ) + scan_folders_spec(Seq::<FolderModel>::empty(), o));
    assert(folder_items_of(fm.entries, fm.location, fm.source_name, o) + Seq::<
        ItemModel,
    >::empty() =~= folder_items_of(fm.entries, fm.location, fm.source_name, o));
}

/// Case-insensitive name order on items.
pub open spec fn item_le(a: ItemModel, b: ItemModel) -> bool {
    lex_le(lower(a.name), lower(b.name))
}

/// Nondecreasing in the case-insensitive name order.
pub open spec fn sorted_items(s: Seq<ItemModel>) -> bool {
    forall|i: int, j: int| 0 <= i < j < s.len() ==> item_le(#[trigger] s[i], #[trigger] s[j])
}

fn item_le_exec(a: &StartupItem, b: &StartupItem) -> (r: bool)
    ensures
        r == item_le(a@, b@),
{
    let la = text::lower_str(a.name.as_str());
    let lb = text::lower_str(b.name.as_str());
    text::str_le(la.as_str(), lb.as_str())
}

/// Inserts one item into a sorted vector, keeping it sorted.
fn insert_sorted(out: &mut Vec<StartupItem>, x: StartupItem)
    requires
        sorted_items(old(out).deep_view()),
    ensures
        sorted_items(final(out).deep_view()),
        final(out).deep_view().to_multiset() == old(out).deep_view().to_multiset().insert(x@),
{
    broadcast use vstd::seq_lib::group_to_multiset_ensures;

    let ghost odv = old(out).deep_view();
    let ghost xm = x@;
    let n = out.len();
    let mut p: usize = 0;
    while p < n && item_le_exec(&out[p], &x)
        invariant
            n == out@.len(),
            *out == *old(out),
            odv == out.deep_view(),
            odv.len() == n,
            xm == x@,
            p <= n,
            forall|k: int| 0 <= k < p ==> item_le(#[trigger] odv[k], xm),
        decreases n - p,
    {
        proof {
            assert(odv[p as int] == out@[p as int]@);
        }
        p = p + 1;
    }
    proof {
        if p < n {
            assert(odv[p as int] == out@[p as int]@);
        }
    }
    out.insert(p, x);
    proof {
        let odv2 = out.deep_view();
        assert(odv2 =~= odv.take(p as int) + (seq![xm] + odv.skip(p as int))) by {
            assert(odv2.len() == odv.len() + 1);
            assert(forall|a: int|
                0 <= a < odv2.len() ==> #[trigger] odv2[a] == out@[a].deep_view());
        }
        assert(forall|a: int| 0 <= a < p ==> #[trigger] odv2[a] == odv[a]);
        assert(odv2[p as int] == xm);
        assert(forall|a: int| p < a < odv2.len() ==> #[trigger] odv2[a] == odv[a - 1]);
        // x goes before the first element it does not dominate
        if p < n {
            lemma_lex_le_total(lower(odv[p as int].name), lower(xm.name));
            assert(item_le(xm, odv[p as int]));
        }
        assert forall|i: int, j: int| 0 <= i < j < odv2.len() implies item_le(
            #[trigger] odv2[i],
            #[trigger] odv2[j],
        ) by {
            if i < p && j < p {
                assert(item_le(odv[i], odv[j]));
            } else if i < p && j == p {
                assert(item_le(odv[i], xm));
            } else if i < p && j > p {
                assert(item_le(odv[i], odv[j - 1]));
            } else if i == p && j > p {
                if p < n {
                    if j - 1 == p {
                        assert(item_le(xm, odv[p as int]));
                    } else {
                        assert(item_le(odv[p as int], odv[j - 1]));
                        lemma_lex_le_trans(
                            lower(xm.name),
                            lower(odv[p as int].name),
                            lower(odv[j - 1].name),
                        );
                    }
                }
            } else if i > p && j > p {
                assert(item_le(odv[i - 1], odv[j - 1]));
            }
        }
        // the multiset gained exactly x
        lemma_multiset_commutative(odv.take(p as int), seq![xm] + odv.skip(p as int));
        lemma_multiset_commutative(seq![xm], odv.skip(p as int));
        lemma_multiset_commutative(odv.take(p as int), odv.skip(p as int));
        assert(odv.take(p as int) + odv.skip(p as int) =~= odv);
        assert(seq![xm].to_multiset() =~= Multiset::<ItemModel>::empty().insert(xm)) by {
            broadcast use vstd::multiset::group_multiset_axioms;

            let e = Seq::<ItemModel>::empty();
            e.to_multiset_ensures();
            assert(e.to_multiset() =~= Multiset::<ItemModel>::empty()) by {
                e.to_multiset_ensures();
                assert forall|a: ItemModel| e.to_multiset().count(a) == 0 by {
                    assert(!e.contains(a));
                }
            }
            assert(seq![xm] =~= e.push(xm));
            assert(e.push(xm).to_multiset() == e.to_multiset().insert(xm));
        }
        assert(odv2.to_multiset() =~= odv.to_multiset().insert(xm)) by {
            broadcast use vstd::multiset::group_multiset_axioms;

            assert(odv2.to_multiset() == odv.take(p as int).to_multiset().add(
                (seq![xm] + odv.skip(p as int)).to_multiset(),
            ));
            assert((seq![xm] + odv.skip(p as int)).to_multiset() == seq![xm].to_multiset().add(
                odv.skip(p as int).to_multiset(),
            ));
            assert(odv.to_multiset() == odv.take(p as int).to_multiset().add(
                odv.skip(p as int).to_multiset(),
            ));
        }
    }
}

/// Sorts items by name, case-insensitively. The result holds exactly the
/// given items.
pub fn sort_items(items: Vec<StartupItem>) -> (r: Vec<StartupItem>)
    ensures
        sorted_items(r.deep_view()),
        r.deep_view().to_multiset() == items.deep_view().to_multiset(),
{
    broadcast use vstd::seq_lib::group_to_multiset_ensures;

    let ghost goal = items.deep_view().to_multiset();
    let mut rest = items;
    let mut out: Vec<StartupItem> = Vec::new();
    proof {
        assert(out.deep_view() =~= Seq::<ItemModel>::empty());
        assert(out.deep_view().to_multiset().add(rest.deep_view().to_multiset())
            =~= rest.deep_view().to_multiset());
    }
    loop
        invariant
            goal == items.deep_view().to_multiset(),
            sorted_items(out.deep_view()),
            out.deep_view().to_multiset().add(rest.deep_view().to_multiset()) == goal,
        decreases rest@.len(),
    {
        let ghost rdv = rest.deep_view();
        let popped = rest.pop();
        match popped {
            Some(x) => {
                proof {
                    broadcast use vstd::multiset::group_multiset_axioms;

                    assert(rdv.len() > 0);
                    assert(rest.deep_view() =~= rdv.drop_last()) by {
                        assert(rest.deep_view().len() == rdv.len() - 1);
                        assert(forall|a: int|
                            0 <= a < rest@.len() ==> #[trigger] rest.deep_view()[a]
                                == rest@[a].deep_view());
                    }
                    assert(x@ == rdv.last());
                    rdv.drop_last().to_multiset_ensures();
                    assert(rdv =~= rdv.drop_last().push(rdv.last()));
                    assert(rdv.to_multiset() == rdv.drop_last().to_multiset().insert(rdv.last()));
                    assert(out.deep_view().to_multiset().insert(x@).add(
                        rest.deep_view().to_multiset(),
                    ) =~= out.deep_view().to_multiset().add(
                        rest.deep_view().to_multiset().insert(x@),
                    ));
                }
                insert_sorted(&mut out, x);
            },
            None => {
                proof {
                    broadcast use vstd::multiset::group_multiset_axioms;

                    assert(rdv.len() == 0);
                    assert(rest.deep_view() =~= Seq::<ItemModel>::empty());
                    rdv.to_multiset_ensures();
                    assert(rdv.to_multiset() =~= Multiset::<ItemModel>::empty()) by {
                        rdv.to_multiset_ensures();
                        assert forall|a: ItemModel| rdv.to_multiset().count(a) == 0 by {
                            assert(!rdv.contains(a));
                        }
                    }
                    assert(out.deep_view().to_multiset().add(rdv.to_multiset())
                        =~= out.deep_view().to_multiset());
                }
                return out;
            },
        }
    }
}

/// Everything: registry items and folder items, sorted case-insensitively
/// by name.
pub fn get_all_startup_items(
    snap: &RegistrySnapshot,
    folders: &Vec<FolderSnapshot>,
    oracle: &FileOracle,
) -> (r: Vec<StartupItem>)
    ensures
        sorted_items(r.deep_view()),
        r.deep_view().to_multiset() == (scan_registry_spec(*snap, oracle@) + scan_folders_spec(
            folders.deep_view(),
            oracle@,
        )).to_multiset(),
{
    let mut all = scan_registry_items(snap, oracle);
    let ghost rdv = all.deep_view();
    let mut folder_items = scan_startup_folder_items(folders, oracle);
    let ghost fdv = folder_items.deep_view();
    all.append(&mut folder_items);
    proof {
        assert(all.deep_view() =~= rdv + fdv) by {
            let av = all.deep_view();
            assert(av.len() == rdv.len() + fdv.len());
            assert(forall|a: int| 0 <= a < av.len() ==> #[trigger] av[a] == all@[a].deep_view());
        }
    }
    sort_items(all)
}

} // verus!
