//! Records of what a branch changed, what it saw first, and what a commit reports.

use vstd::prelude::*;
use vstd::string::*;

use crate::text::{opt_text, same, Text};

verus! {

#[derive(Clone, Copy, Debug, PartialEq, Eq, Structural)]
pub enum InheritanceMode {
    /// Resolve inherited paths recursively from the parent/base at lookup time.
    /// Branch creation is O(1) and does not scan or copy the inherited tree.
    Lazy,
    /// Recursively snapshot the visible parent tree into this branch's inherited directory
    /// at branch creation time.
    Snapshot,
}

impl Default for InheritanceMode {
    fn default() -> (r: InheritanceMode)
        ensures
            r == InheritanceMode::Lazy,
    {
        InheritanceMode::Lazy
    }
}

#[derive(Clone, Copy, Debug, PartialEq, Eq, Structural)]
pub enum BranchState {
    Open,
    Frozen,
}

impl Default for BranchState {
    fn default() -> (r: BranchState)
        ensures
            r == BranchState::Open,
    {
        BranchState::Open
    }
}

/// One line of a branch's difference to what it inherits.
#[derive(Clone, Debug)]
pub struct DiffEntry {
    pub op: String,
    pub path: String,
    pub kind: String,
    pub bytes: u64,
}

pub struct DiffView {
    pub op: Text,
    pub path: Text,
    pub kind: Text,
    pub bytes: u64,
}

impl View for DiffEntry {
    type V = DiffView;

    open spec fn view(&self) -> DiffView {
        DiffView { op: self.op@, path: self.path@, kind: self.kind@, bytes: self.bytes }
    }
}

pub open spec fn diff_views(v: Seq<DiffEntry>) -> Seq<DiffView> {
    v.map_values(|e: DiffEntry| e@)
}

/// What a branch is and what it changed.
#[derive(Clone, Debug)]
pub struct BranchStatus {
    pub name: String,
    pub parent: Option<String>,
    pub inheritance: InheritanceMode,
    pub state: BranchState,
    pub parent_version_at_fork: u64,
    pub commit_count: u64,
    pub delta_entries: usize,
    pub tombstones: usize,
    pub diff: Vec<DiffEntry>,
}

/// What kind of entry a path resolves to.
#[derive(Clone, Copy, Debug, PartialEq, Eq, Structural)]
pub enum FileKind {
    Dir,
    Symlink,
    File,
    Other,
}

/// What the filesystem reports of an entry, without following a symbolic link.
#[derive(Clone, Copy, Debug, PartialEq, Eq, Structural)]
pub struct Meta {
    pub kind: FileKind,
    pub len: u64,
    /// Modification time in nanoseconds since the epoch, where it can be told.
    pub mtime_ns: Option<i128>,
}

/// What stood at a path at some moment.
#[derive(Clone, Debug)]
pub struct PathIdentity {
    pub exists: bool,
    pub kind: String,
    pub bytes: u64,
    pub mtime_ns: Option<i128>,
}

pub struct IdentityView {
    pub exists: bool,
    pub kind: Text,
    pub bytes: u64,
    pub mtime_ns: Option<i128>,
}

impl View for PathIdentity {
    type V = IdentityView;

    open spec fn view(&self) -> IdentityView {
        IdentityView {
            exists: self.exists,
            kind: self.kind@,
            bytes: self.bytes,
            mtime_ns: self.mtime_ns,
        }
    }
}

/// The name of a kind of entry.
pub open spec fn kind_name(kind: FileKind) -> Text {
    match kind {
        FileKind::Dir => "dir"@,
        FileKind::Symlink => "symlink"@,
        FileKind::File => "file"@,
        FileKind::Other => "other"@,
    }
}

/// The identity of what was found at a path; only a regular file has a length that counts.
pub open spec fn identity_of(found: Option<Meta>) -> IdentityView {
    match found {
        None => IdentityView { exists: false, kind: "missing"@, bytes: 0, mtime_ns: None },
        Some(m) => IdentityView {
            exists: true,
            kind: kind_name(m.kind),
            bytes: if m.kind == FileKind::File {
                m.len
            } else {
                0
            },
            mtime_ns: m.mtime_ns,
        },
    }
}

impl PathIdentity {
    pub fn missing() -> (r: PathIdentity)
        ensures
            r@ == identity_of(None),
    {
        PathIdentity { exists: false, kind: "missing".to_owned(), bytes: 0, mtime_ns: None }
    }

    /// The identity of what the filesystem reported at a path, if anything.
    pub fn from_path(found: Option<Meta>) -> (r: PathIdentity)
        ensures
            r@ == identity_of(found),
    {
        match found {
            None => PathIdentity::missing(),
            Some(m) => {
                let kind = match m.kind {
                    FileKind::Dir => "dir",
                    FileKind::Symlink => "symlink",
                    FileKind::File => "file",
                    FileKind::Other => "other",
                };
                PathIdentity {
                    exists: true,
                    kind: kind.to_owned(),
                    bytes: if m.kind == FileKind::File {
                        m.len
                    } else {
                        0
                    },
                    mtime_ns: m.mtime_ns,
                }
            },
        }
    }

    /// Whether two identities agree in every field.
    pub fn same_as(&self, other: &PathIdentity) -> (r: bool)
        ensures
            r == (self@ == other@),
    {
        let same_time = match (self.mtime_ns, other.mtime_ns) {
            (Some(a), Some(b)) => a == b,
            (None, None) => true,
            _ => false,
        };
        self.exists == other.exists && same(self.kind.as_str(), other.kind.as_str()) && self.bytes
            == other.bytes && same_time
    }

    pub fn duplicate(&self) -> (r: PathIdentity)
        ensures
            r@ == self@,
    {
        PathIdentity {
            exists: self.exists,
            kind: self.kind.clone(),
            bytes: self.bytes,
            mtime_ns: self.mtime_ns,
        }
    }
}

/// What a branch inherited at a path when it first touched it.
#[derive(Clone, Debug)]
pub struct TouchRecord {
    pub path: String,
    pub base_at_first_touch: PathIdentity,
    pub base_content_key: Option<String>,
}

pub struct TouchView {
    pub path: Text,
    pub base: IdentityView,
    pub key: Option<Text>,
}

impl View for TouchRecord {
    type V = TouchView;

    open spec fn view(&self) -> TouchView {
        TouchView {
            path: self.path@,
            base: self.base_at_first_touch@,
            key: opt_text(self.base_content_key),
        }
    }
}

impl TouchRecord {
    pub fn duplicate(&self) -> (r: TouchRecord)
        ensures
            r@ == self@,
    {
        let key = match &self.base_content_key {
            Some(k) => Some(k.clone()),
            None => None,
        };
        TouchRecord {
            path: self.path.clone(),
            base_at_first_touch: self.base_at_first_touch.duplicate(),
            base_content_key: key,
        }
    }
}

/// A path whose changes on both sides were merged.
#[derive(Clone, Debug)]
pub struct CommitAutoMerge {
    pub path: String,
    pub resolution: String,
}

/// A path that changed on both sides and where the committed branch won.
#[derive(Clone, Debug)]
pub struct CommitConflict {
    pub path: String,
    pub session_action: String,
    pub resolution: String,
    pub reason: String,
    pub base_at_first_touch: PathIdentity,
    pub base_at_commit: PathIdentity,
}

/// What a commit reports.
#[derive(Clone, Debug)]
pub struct CommitOutcome {
    pub parent: String,
    pub auto_merges: Vec<CommitAutoMerge>,
    pub conflicts: Vec<CommitConflict>,
}

pub struct AutoMergeView {
    pub path: Text,
    pub resolution: Text,
}

pub struct ConflictView {
    pub path: Text,
    pub session_action: Text,
    pub resolution: Text,
    pub reason: Text,
    pub base_at_first_touch: IdentityView,
    pub base_at_commit: IdentityView,
}

pub struct OutcomeView {
    pub parent: Text,
    pub auto_merges: Seq<AutoMergeView>,
    pub conflicts: Seq<ConflictView>,
}

impl View for CommitAutoMerge {
    type V = AutoMergeView;

    open spec fn view(&self) -> AutoMergeView {
        AutoMergeView { path: self.path@, resolution: self.resolution@ }
    }
}

impl View for CommitConflict {
    type V = ConflictView;

    open spec fn view(&self) -> ConflictView {
        ConflictView {
            path: self.path@,
            session_action: self.session_action@,
            resolution: self.resolution@,
            reason: self.reason@,
            base_at_first_touch: self.base_at_first_touch@,
            base_at_commit: self.base_at_commit@,
        }
    }
}

impl View for CommitOutcome {
    type V = OutcomeView;

    open spec fn view(&self) -> OutcomeView {
        OutcomeView {
            parent: self.parent@,
            auto_merges: self.auto_merges@.map_values(|m: CommitAutoMerge| m@),
            conflicts: self.conflicts@.map_values(|c: CommitConflict| c@),
        }
    }
}

} // verus!
