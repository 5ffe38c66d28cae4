//! The normalized startup-entry entity.

use vstd::prelude::*;
use vstd::string::*;

verus! {

/// Which backing store an entry came from.
#[derive(Clone, Copy, PartialEq, Eq, Structural, Debug)]
pub enum SourceType {
    Registry,
    Folder,
}

impl SourceType {
    /// The label stored in `StartupItem::source_type`.
    pub open spec fn label(&self) -> Seq<char> {
        match self {
            SourceType::Registry => "registry"@,
            SourceType::Folder => "folder"@,
        }
    }

    pub fn to_string(&self) -> (r: String)
        ensures
            r@ == self.label(),
    {
        match self {
            SourceType::Registry => String::from_str("registry"),
            SourceType::Folder => String::from_str("folder"),
        }
    }
}

/// The mathematical content of a `StartupItem`.
pub struct ItemModel {
    pub id: Seq<char>,
    pub name: Seq<char>,
    pub description: Option<Seq<char>>,
    pub path: Seq<char>,
    pub command: Seq<char>,
    pub icon: Option<Seq<char>>,
    pub source: Seq<char>,
    pub source_type: Seq<char>,
    pub source_location: Seq<char>,
    pub enabled: bool,
    pub valid: bool,
}

/// One normalized startup entry, an immutable snapshot taken at scan time.
pub struct StartupItem {
    /// Stable identity: a content hash of `(source_location, name)`.
    pub id: String,
    /// Display name, derived from the value name or file name.
    pub name: String,
    /// Human description reported by the platform for the executable.
    pub description: Option<String>,
    /// The resolved executable path.
    pub path: String,
    /// The raw launch command as found in the backing store.
    pub command: String,
    /// A self-describing image payload for the executable's icon.
    pub icon: Option<String>,
    /// Human label of the backing location.
    pub source: String,
    /// "registry" or "folder".
    pub source_type: String,
    /// Mechanism-specific locator of the backing location.
    pub source_location: String,
    /// On/off state as read from the backing store at scan time.
    pub enabled: bool,
    /// Whether the resolved executable existed on disk at scan time.
    pub valid: bool,
}

impl View for StartupItem {
    type V = ItemModel;

    open spec fn view(&self) -> ItemModel {
        ItemModel {
            id: self.id@,
            name: self.name@,
            description: match self.description {
                Some(d) => Some(d@),
                None => None,
            },
            path: self.path@,
            command: self.command@,
            icon: match self.icon {
                Some(i) => Some(i@),
                None => None,
            },
            source: self.source@,
            source_type: self.source_type@,
            source_location: self.source_location@,
            enabled: self.enabled,
            valid: self.valid,
        }
    }
}

impl DeepView for StartupItem {
    type V = ItemModel;

    open spec fn deep_view(&self) -> ItemModel {
        self.view()
    }
}

} // verus!
