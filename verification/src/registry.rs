//! A plain-value model of the run-key backing store.
//!
//! A hive holds two run locations (immediate and run-once) and, for each,
//! a parallel "approved" shadow location whose raw values carry a binary
//! enabled/disabled flag. A key that does not exist is `None`; an existing
//! key is the list of its values in enumeration order. The caller reads
//! this snapshot from the platform and hands it in; the scanner interprets
//! it and the manager's apply functions mirror what executing a mutation
//! plan does to it.

use vstd::prelude::*;
use vstd::string::*;
use crate::assoc::distinct_keys;

verus! {

/// The two registry scopes the scanner covers.
#[derive(Clone, Copy, PartialEq, Eq, Structural, Debug)]
pub enum Hive {
    CurrentUser,
    LocalMachine,
}

/// One raw registry value: its name, whether its type is a string type,
/// and its raw bytes (UTF-16LE code units for string types).
pub struct RegValueEntry {
    pub name: String,
    pub is_string: bool,
    pub data: Vec<u8>,
}

/// The mathematical content of a raw registry value.
pub struct RegValueModel {
    pub name: Seq<char>,
    pub is_string: bool,
    pub data: Seq<u8>,
}

impl View for RegValueEntry {
    type V = RegValueModel;

    open spec fn view(&self) -> RegValueModel {
        RegValueModel { name: self.name@, is_string: self.is_string, data: self.data@ }
    }
}

impl DeepView for RegValueEntry {
    type V = RegValueModel;

    open spec fn deep_view(&self) -> RegValueModel {
        self.view()
    }
}

/// The values of a run key; an absent key reads as no values.
pub open spec fn run_view(k: Option<Vec<RegValueEntry>>) -> Seq<RegValueModel> {
    match k {
        Some(v) => v.deep_view(),
        None => Seq::empty(),
    }
}

/// The run-related keys of one hive.
pub struct HiveState {
    pub run: Option<Vec<RegValueEntry>>,
    pub run_once: Option<Vec<RegValueEntry>>,
    pub approved_run: Option<Vec<(String, Vec<u8>)>>,
    pub approved_run_once: Option<Vec<(String, Vec<u8>)>>,
}

/// Everything the scanner and manager read from or write to the registry.
pub struct RegistrySnapshot {
    pub current_user: HiveState,
    pub local_machine: HiveState,
}

pub open spec fn approved_wf(a: Option<Vec<(String, Vec<u8>)>>) -> bool {
    match a {
        Some(v) => distinct_keys(v.deep_view()),
        None => true,
    }
}

impl HiveState {
    /// Approval shadows never bind a name twice.
    pub open spec fn wf(&self) -> bool {
        approved_wf(self.approved_run) && approved_wf(self.approved_run_once)
    }

    /// A hive with none of the keys present.
    pub fn empty() -> (r: HiveState)
        ensures
            r.wf(),
            r.run is None,
            r.run_once is None,
            r.approved_run is None,
            r.approved_run_once is None,
    {
        HiveState { run: None, run_once: None, approved_run: None, approved_run_once: None }
    }
}

impl RegistrySnapshot {
    pub open spec fn wf(&self) -> bool {
        self.current_user.wf() && self.local_machine.wf()
    }

    pub fn empty() -> (r: RegistrySnapshot)
        ensures
            r.wf(),
            r.current_user.run is None,
            r.current_user.run_once is None,
            r.current_user.approved_run is None,
            r.current_user.approved_run_once is None,
            r.local_machine.run is None,
            r.local_machine.run_once is None,
            r.local_machine.approved_run is None,
            r.local_machine.approved_run_once is None,
    {
        RegistrySnapshot { current_user: HiveState::empty(), local_machine: HiveState::empty() }
    }
}

/// A copy of a byte vector.
pub fn clone_bytes(v: &Vec<u8>) -> (r: Vec<u8>)
    ensures
        r@ == v@,
{
    let mut r: Vec<u8> = Vec::new();
    let n = v.len();
    let mut i: usize = 0;
    while i < n
        invariant
            n == v@.len(),
            i <= n,
            r@ == v@.take(i as int),
        decreases n - i,
    {
        r.push(v[i]);
        proof {
            assert(v@.take(i + 1) =~= v@.take(i as int).push(v@[i as int]));
        }
        i = i + 1;
    }
    proof {
        assert(v@.take(n as int) =~= v@);
    }
    r
}

/// A copy of an approval list, pair for pair.
pub fn clone_approved(v: &Vec<(String, Vec<u8>)>) -> (r: Vec<(String, Vec<u8>)>)
    ensures
        r.deep_view() == v.deep_view(),
{
    let mut r: Vec<(String, Vec<u8>)> = Vec::new();
    let n = v.len();
    let mut i: usize = 0;
    while i < n
        invariant
            n == v@.len(),
            i <= n,
            r@.len() == i,
            r.deep_view() == v.deep_view().take(i as int),
        decreases n - i,
    {
        let s0 = v[i].0.clone();
        let b0 = clone_bytes(&v[i].1);
        proof {
            assert(b0.deep_view() =~= v@[i as int].1.deep_view());
        }
        r.push((s0, b0));
        proof {
            let rv = r.deep_view();
            let vv = v.deep_view();
            assert(forall|a: int| 0 <= a < r@.len() ==> #[trigger] rv[a] == r@[a].deep_view());
            assert(forall|a: int| 0 <= a < v@.len() ==> #[trigger] vv[a] == v@[a].deep_view());
            assert(rv[i as int] == v@[i as int].deep_view());
            assert(rv =~= vv.take(i + 1));
        }
        i = i + 1;
    }
    proof {
        assert(v.deep_view().take(n as int) =~= v.deep_view());
    }
    r
}

/// A copy of a run key's value list, value for value.
pub fn clone_values(v: &Vec<RegValueEntry>) -> (r: Vec<RegValueEntry>)
    ensures
        r.deep_view() == v.deep_view(),
{
    let mut r: Vec<RegValueEntry> = Vec::new();
    let n = v.len();
    let mut i: usize = 0;
    while i < n
        invariant
            n == v@.len(),
            i <= n,
            r@.len() == i,
            r.deep_view() == v.deep_view().take(i as int),
        decreases n - i,
    {
        let name = v[i].name.clone();
        let data = clone_bytes(&v[i].data);
        let entry = RegValueEntry { name, is_string: v[i].is_string, data };
        proof {
            assert(entry.deep_view() == v@[i as int].deep_view());
        }
        r.push(entry);
        proof {
            let rv = r.deep_view();
            let vv = v.deep_view();
            assert(forall|a: int| 0 <= a < r@.len() ==> #[trigger] rv[a] == r@[a].deep_view());
            assert(forall|a: int| 0 <= a < v@.len() ==> #[trigger] vv[a] == v@[a].deep_view());
            assert(rv =~= vv.take(i + 1));
        }
        i = i + 1;
    }
    proof {
        assert(v.deep_view().take(n as int) =~= v.deep_view());
    }
    r
}

} // verus!
