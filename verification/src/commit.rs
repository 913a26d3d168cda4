//! Committing a leaf branch into its parent.

use vstd::prelude::*;
use vstd::string::*;

use crate::branch::{content_key, touch_content_key, Branch, BranchMetadata, BranchView};
use crate::changes::{end_fault, lemma_told_same};
use crate::errors::{BranchError, ErrorView};
use crate::journal::{insert_text, remove_text, snapshot_text};
use crate::lookup::Forest;
use crate::manager::{forest, next, next_of, root_first, BranchManager, Invalidation, ManagerView};
use crate::merge::{
    is_text, merged, read_bounded_text, readable_as_text, try_three_way_text_merge,
};
use crate::paths::{
    deleted, deleted_by, hidden, located, location_views, Location, LocationView, Place, PlaceView,
};
use crate::records::{
    identity_of, AutoMergeView, CommitAutoMerge, CommitConflict, CommitOutcome, ConflictView,
    IdentityView, Meta, OutcomeView, PathIdentity,
};
use crate::text::{same, texts, trim_start_slashes, without_leading_slashes, Text};
use crate::tree::{file_paths, file_texts, file_views, DeltaFile, DeltaFileView};

verus! {

/// Why a branch cannot be committed, or `None` if it can.
pub open spec fn commit_fault(m: Forest, name: Text) -> Option<ErrorView> {
    match end_fault(m, name) {
        Some(e) => Some(e),
        None => if m.dom().contains(m[name].parent->0) {
            None
        } else {
            Some(ErrorView::NotFound(m[name].parent->0))
        },
    }
}

/// Whether commits went into the parent since the branch was forked.
pub open spec fn parent_moved(m: Forest, name: Text) -> bool {
    m[m[name].parent->0].commit_count != m[name].parent_version_at_fork
}

/// A commit that may go ahead.
pub struct CommitStart {
    pub branch: String,
    pub parent: String,
    pub parent_changed: bool,
    /// The paths that the branch deletes.
    pub tombstones: Vec<String>,
}

/// What was found where a file of the delta will go, and the texts that a merge needs.
pub struct SeenWrite {
    /// What the branch inherits at the path now.
    pub current: Option<Meta>,
    pub current_bytes: Vec<u8>,
    /// The inherited text that was kept at the first touch, if it could be read.
    pub base: Option<Vec<u8>>,
    /// The file of the delta itself.
    pub session: Option<Meta>,
    pub session_bytes: Vec<u8>,
}

pub struct SeenWriteView {
    pub current: Option<Meta>,
    pub current_bytes: Seq<u8>,
    pub base: Option<Seq<u8>>,
    pub session: Option<Meta>,
    pub session_bytes: Seq<u8>,
}

impl View for SeenWrite {
    type V = SeenWriteView;

    open spec fn view(&self) -> SeenWriteView {
        SeenWriteView {
            current: self.current,
            current_bytes: self.current_bytes@,
            base: match self.base {
                Some(b) => Some(b@),
                None => None,
            },
            session: self.session,
            session_bytes: self.session_bytes@,
        }
    }
}

pub open spec fn seen_views(v: Seq<SeenWrite>) -> Seq<SeenWriteView> {
    v.map_values(|w: SeenWrite| w@)
}

/// What was inherited at a path when it was first touched; nothing if no touch is recorded.
pub open spec fn base_of(b: BranchView, path: Text) -> IdentityView {
    if b.touches.dom().contains(path) {
        b.touches[path].base
    } else {
        identity_of(None)
    }
}

pub open spec fn key_of(b: BranchView, path: Text) -> Option<Text> {
    if b.touches.dom().contains(path) {
        b.touches[path].key
    } else {
        None
    }
}

/// A conflict in which the committed branch wins.
pub open spec fn conflict(
    path: Text,
    action: Text,
    base: IdentityView,
    current: IdentityView,
) -> ConflictView {
    ConflictView {
        path,
        session_action: action,
        resolution: "session_won"@,
        reason: "parent_changed_after_first_touch"@,
        base_at_first_touch: base,
        base_at_commit: current,
    }
}

/// What a deletion conflicts with: what the branch inherits at the path is not what it was at the
/// first touch.
pub open spec fn delete_conflict(b: BranchView, path: Text, current: Option<Meta>) -> Option<
    ConflictView,
> {
    if base_of(b, path) == identity_of(current) {
        None
    } else {
        Some(conflict(path, "delete"@, base_of(b, path), identity_of(current)))
    }
}

/// Whether a changed file is a candidate for a merge: it was a file, it is a file, and all three
/// texts are at hand.
pub open spec fn may_merge(b: BranchView, path: Text, w: SeenWriteView) -> bool {
    &&& base_of(b, path) != identity_of(w.current)
    &&& base_of(b, path).kind == "file"@
    &&& identity_of(w.current).kind == "file"@
    &&& key_of(b, path) is Some
    &&& w.base is Some
    &&& readable_as_text(w.session) && is_text(w.session_bytes)
    &&& readable_as_text(w.current) && is_text(w.current_bytes)
}

/// The text that a clean merge gives a path.
pub open spec fn clean_merge(b: BranchView, path: Text, w: SeenWriteView) -> Option<Seq<u8>> {
    if may_merge(b, path, w) {
        merged(w.base->0, w.current_bytes, w.session_bytes)
    } else {
        None
    }
}

/// What a written file conflicts with: the path changed under it and no clean merge is possible.
pub open spec fn write_conflict(b: BranchView, path: Text, w: SeenWriteView) -> Option<ConflictView> {
    if base_of(b, path) == identity_of(w.current) || clean_merge(b, path, w) is Some {
        None
    } else {
        Some(
            conflict(
                path,
                if base_of(b, path).exists {
                    "modify"@
                } else {
                    "create"@
                },
                base_of(b, path),
                identity_of(w.current),
            ),
        )
    }
}

pub open spec fn delete_conflicts(b: BranchView, paths: Seq<Text>, seen: Seq<Option<Meta>>) -> Seq<
    ConflictView,
>
    decreases paths.len(),
{
    if paths.len() == 0 {
        seq![]
    } else {
        let n = paths.len() - 1;
        let rest = delete_conflicts(b, paths.drop_last(), seen);
        match delete_conflict(b, paths[n], seen[n]) {
            Some(c) => rest.push(c),
            None => rest,
        }
    }
}

pub open spec fn write_conflicts(b: BranchView, paths: Seq<Text>, seen: Seq<SeenWriteView>) -> Seq<
    ConflictView,
>
    decreases paths.len(),
{
    if paths.len() == 0 {
        seq![]
    } else {
        let n = paths.len() - 1;
        let rest = write_conflicts(b, paths.drop_last(), seen);
        match write_conflict(b, paths[n], seen[n]) {
            Some(c) => rest.push(c),
            None => rest,
        }
    }
}

pub open spec fn auto_merges(b: BranchView, paths: Seq<Text>, seen: Seq<SeenWriteView>) -> Seq<
    AutoMergeView,
>
    decreases paths.len(),
{
    if paths.len() == 0 {
        seq![]
    } else {
        let n = paths.len() - 1;
        let rest = auto_merges(b, paths.drop_last(), seen);
        match clean_merge(b, paths[n], seen[n]) {
            Some(_) => rest.push(
                AutoMergeView { path: paths[n], resolution: "clean_text_merge"@ },
            ),
            None => rest,
        }
    }
}

/// What a commit reports: nothing but the parent if nothing went into the parent meanwhile.
pub open spec fn report(
    m: Forest,
    name: Text,
    deleted: Seq<Text>,
    seen_deletes: Seq<Option<Meta>>,
    written: Seq<Text>,
    seen_writes: Seq<SeenWriteView>,
) -> OutcomeView {
    let b = m[name];
    if parent_moved(m, name) {
        OutcomeView {
            parent: b.parent->0,
            auto_merges: auto_merges(b, written, seen_writes),
            conflicts: delete_conflicts(b, deleted, seen_deletes) + write_conflicts(
                b,
                written,
                seen_writes,
            ),
        }
    } else {
        OutcomeView { parent: b.parent->0, auto_merges: seq![], conflicts: seq![] }
    }
}

/// What a commit puts at a written path in place of the file of the delta.
pub open spec fn replacement(m: Forest, name: Text, path: Text, w: SeenWriteView) -> Option<Seq<u8>> {
    if parent_moved(m, name) {
        clean_merge(m[name], path, w)
    } else {
        None
    }
}

pub open spec fn opt_bytes(o: Option<Vec<u8>>) -> Option<Seq<u8>> {
    match o {
        Some(v) => Some(v@),
        None => None,
    }
}

/// What a commit reports, and the merged texts, one place for each written file.
pub struct Assessment {
    pub outcome: CommitOutcome,
    pub merged: Vec<Option<Vec<u8>>>,
}

/// Where the content of a file comes from that a commit copies.
pub enum CopySource {
    /// A file of the delta of a branch, by the bytes of its path in the delta.
    Delta { branch: String, raw: Vec<u8> },
    /// A text that was merged.
    Merged(Location),
}

pub enum CopySourceView {
    Delta { branch: Text, raw: Seq<u8> },
    Merged(LocationView),
}

impl View for CopySource {
    type V = CopySourceView;

    open spec fn view(&self) -> CopySourceView {
        match *self {
            CopySource::Delta { branch, raw } => CopySourceView::Delta {
                branch: branch@,
                raw: raw@,
            },
            CopySource::Merged(l) => CopySourceView::Merged(l@),
        }
    }
}

impl CopySource {
    pub fn duplicate(&self) -> (r: CopySource)
        ensures
            r@ == self@,
    {
        match self {
            CopySource::Delta { branch, raw } => CopySource::Delta {
                branch: branch.clone(),
                raw: copied(raw),
            },
            CopySource::Merged(l) => CopySource::Merged(l.duplicate()),
        }
    }
}

/// A file that a commit copies into the destination.
pub struct CopyJob {
    pub rel_path: String,
    pub source: CopySource,
}

/// What a commit does to the place that it goes into: first the deletions, then the copies.
pub struct CommitPlan {
    pub root: Place,
    pub deletes: Vec<String>,
    pub copies: Vec<CopyJob>,
}

/// The place that a commit into `parent` goes to.
pub open spec fn target(parent: Text) -> PlaceView {
    if parent == "main"@ {
        PlaceView::Base
    } else {
        PlaceView::Files(parent)
    }
}

/// Where the content of a written file comes from.
pub open spec fn source_of(
    branch: Text,
    file: DeltaFileView,
    merged_text: bool,
) -> CopySourceView {
    if merged_text {
        CopySourceView::Merged(
            LocationView { place: PlaceView::MergeContent(branch), rel: content_key(file.path) },
        )
    } else {
        CopySourceView::Delta { branch, raw: file.raw }
    }
}

/// The deletions of a branch after a commit into it: a path that the child deleted is deleted if
/// the branch inherits it and not deleted otherwise, and a path that the child wrote is not
/// deleted.
pub open spec fn tombs_after(
    parent_tombs: Set<Text>,
    deleted: Seq<Text>,
    inherited: Seq<bool>,
    written: Seq<Text>,
) -> Set<Text> {
    Set::new(
        |t: Text|
            !written.contains(t) && if deleted.contains(t) {
                exists|i: int| 0 <= i < deleted.len() && #[trigger] deleted[i] == t && inherited[i]
            } else {
                parent_tombs.contains(t)
            },
    )
}

fn delete_conflict_of(branch: &Branch, path: &str, current: Option<Meta>) -> (r: Option<
    CommitConflict,
>)
    requires
        branch.wf(),
    ensures
        (match r {
            Some(c) => Some(c@),
            None => None,
        }) == delete_conflict(branch@, path@, current),
{
    let base = first_seen(branch, path);
    let now = PathIdentity::from_path(current);
    if base.same_as(&now) {
        None
    } else {
        Some(conflict_record(path, "delete", base, now))
    }
}

fn first_seen(branch: &Branch, path: &str) -> (r: PathIdentity)
    requires
        branch.wf(),
    ensures
        r@ == base_of(branch@, path@),
{
    match branch.get_touch_record(path) {
        Some(t) => t.base_at_first_touch,
        None => PathIdentity::missing(),
    }
}

fn conflict_record(path: &str, action: &str, base: PathIdentity, current: PathIdentity) -> (r:
    CommitConflict)
    ensures
        r@ == conflict(path@, action@, base@, current@),
{
    CommitConflict {
        path: path.to_owned(),
        session_action: action.to_owned(),
        resolution: "session_won".to_owned(),
        reason: "parent_changed_after_first_touch".to_owned(),
        base_at_first_touch: base,
        base_at_commit: current,
    }
}

fn copied(v: &Vec<u8>) -> (r: Vec<u8>)
    ensures
        r@ == v@,
{
    let r = v.clone();
    proof {
        assert(r@ =~= v@);
    }
    r
}

/// The text that a clean merge gives a path, if there is one.
pub fn clean_merge_of(branch: &Branch, path: &str, seen: &SeenWrite) -> (r: Option<Vec<u8>>)
    requires
        branch.wf(),
    ensures
        opt_bytes(r) == clean_merge(branch@, path@, seen@),
{
    let base = first_seen(branch, path);
    let now = PathIdentity::from_path(seen.current);
    if base.same_as(&now) {
        return None;
    }
    if !same(base.kind.as_str(), "file") || !same(now.kind.as_str(), "file") {
        return None;
    }
    let kept = match branch.get_touch_record(path) {
        Some(t) => branch.read_touch_base_content(&t).is_some(),
        None => false,
    };
    if !kept {
        return None;
    }
    match (
        &seen.base,
        read_bounded_text(seen.session, copied(&seen.session_bytes)),
        read_bounded_text(seen.current, copied(&seen.current_bytes)),
    ) {
        (Some(base_text), Some(session_text), Some(current_text)) => try_three_way_text_merge(
            base_text.as_slice(),
            current_text.as_slice(),
            session_text.as_slice(),
        ),
        _ => None,
    }
}

impl BranchManager {
    /// Checks that a branch can be committed.
    pub fn begin_commit(&self, branch_name: &str) -> (r: Result<CommitStart, BranchError>)
        requires
            self.wf(),
        ensures
            r is Ok <==> commit_fault(self@.branches, branch_name@) is None,
            r matches Err(e) ==> Some(e@) == commit_fault(self@.branches, branch_name@),
            r matches Ok(s) ==> {
                &&& s.branch@ == branch_name@
                &&& Some(s.parent@) == self@.branches[branch_name@].parent
                &&& s.parent_changed == parent_moved(self@.branches, branch_name@)
                &&& s.tombstones@ == self.branches@[branch_name@].tombstones@
            },
    {
        let parent_name = match self.ending(branch_name) {
            Ok(p) => p,
            Err(e) => {
                return Err(e);
            },
        };
        match (self.branches.get(branch_name), self.branches.get(parent_name.as_str())) {
            (Some(branch), Some(parent)) => {
                Ok(
                    CommitStart {
                        branch: branch_name.to_owned(),
                        parent: parent_name,
                        parent_changed: parent.commit_count != branch.parent_version_at_fork,
                        tombstones: branch.get_tombstones(),
                    },
                )
            },
            _ => Err(BranchError::NotFound(parent_name)),
        }
    }

    /// Reports what a commit merges and which conflicts it wins, given what was found at each
    /// path that the branch deletes (`seen_deletes`) and at each file of its delta
    /// (`seen_writes`).
    pub fn assess_commit(
        &self,
        branch_name: &str,
        seen_deletes: &Vec<Option<Meta>>,
        written: &Vec<String>,
        seen_writes: &Vec<SeenWrite>,
    ) -> (r: Assessment)
        requires
            self.wf(),
            commit_fault(self@.branches, branch_name@) is None,
            seen_deletes@.len() == self.branches@[branch_name@].tombstones@.len(),
            seen_writes@.len() == written@.len(),
        ensures
            r.outcome@ == report(
                self@.branches,
                branch_name@,
                texts(self.branches@[branch_name@].tombstones@),
                seen_deletes@,
                texts(written@),
                seen_views(seen_writes@),
            ),
            r.merged@.len() == written@.len(),
            forall|i: int|
                0 <= i < written@.len() ==> opt_bytes(#[trigger] r.merged@[i]) == replacement(
                    self@.branches,
                    branch_name@,
                    texts(written@)[i],
                    seen_views(seen_writes@)[i],
                ),
    {
        let ghost m = self@.branches;
        let ghost paths = texts(written@);
        let ghost seen = seen_views(seen_writes@);
        let mut conflicts: Vec<CommitConflict> = Vec::new();
        let mut merges: Vec<CommitAutoMerge> = Vec::new();
        let mut texts_out: Vec<Option<Vec<u8>>> = Vec::new();
        let start = match self.begin_commit(branch_name) {
            Ok(s) => s,
            Err(_) => {
                proof {
                    assert(false);
                }
                return Assessment {
                    outcome: CommitOutcome {
                        parent: String::new(),
                        auto_merges: merges,
                        conflicts,
                    },
                    merged: texts_out,
                };
            },
        };
        let branch = match self.branches.get(branch_name) {
            Some(b) => b,
            None => {
                proof {
                    assert(false);
                }
                return Assessment {
                    outcome: CommitOutcome {
                        parent: String::new(),
                        auto_merges: merges,
                        conflicts,
                    },
                    merged: texts_out,
                };
            },
        };
        let ghost b = branch@;
        let ghost gone = texts(branch.tombstones@);
        proof {
            assert(self.branches@.dom().contains(branch_name@));
            assert(conflict_views(conflicts@) =~= seq![]);
            assert(merge_views(merges@) =~= seq![]);
        }
        if !start.parent_changed {
            let mut k: usize = 0;
            while k < written.len()
                invariant
                    k <= written@.len(),
                    texts_out@.len() == k,
                    forall|i: int| 0 <= i < k ==> opt_bytes(#[trigger] texts_out@[i]) is None,
                decreases written@.len() - k,
            {
                texts_out.push(None);
                k = k + 1;
            }
            return Assessment {
                outcome: CommitOutcome {
                    parent: start.parent,
                    auto_merges: merges,
                    conflicts,
                },
                merged: texts_out,
            };
        }
        let mut i: usize = 0;
        proof {
            assert(gone.take(0) =~= seq![]);
        }
        while i < branch.tombstones.len()
            invariant
                i <= branch.tombstones@.len(),
                seen_deletes@.len() == branch.tombstones@.len(),
                branch.wf(),
                b == branch@,
                gone == texts(branch.tombstones@),
                conflict_views(conflicts@) == delete_conflicts(
                    b,
                    gone.take(i as int),
                    seen_deletes@,
                ),
            decreases branch.tombstones@.len() - i,
        {
            let ghost done = conflict_views(conflicts@);
            proof {
                assert(gone.take(i + 1).drop_last() =~= gone.take(i as int));
                assert(gone.take(i + 1)[i as int] == branch.tombstones@[i as int]@);
            }
            if let Some(c) = delete_conflict_of(
                branch,
                branch.tombstones[i].as_str(),
                seen_deletes[i],
            ) {
                let ghost one = c@;
                conflicts.push(c);
                proof {
                    assert(conflict_views(conflicts@) =~= done.push(one));
                }
            }
            i = i + 1;
        }
        let ghost deletions = delete_conflicts(b, gone, seen_deletes@);
        let mut k: usize = 0;
        proof {
            assert(gone.take(i as int) =~= gone);
            assert(paths.take(0) =~= seq![]);
            assert(conflict_views(conflicts@) =~= deletions + write_conflicts(
                b,
                paths.take(0),
                seen,
            ));
        }
        while k < written.len()
            invariant
                k <= written@.len(),
                seen_writes@.len() == written@.len(),
                branch.wf(),
                b == branch@,
                m == self@.branches,
                b == m[branch_name@],
                parent_moved(m, branch_name@),
                paths == texts(written@),
                seen == seen_views(seen_writes@),
                conflict_views(conflicts@) == deletions + write_conflicts(
                    b,
                    paths.take(k as int),
                    seen,
                ),
                merge_views(merges@) == auto_merges(b, paths.take(k as int), seen),
                texts_out@.len() == k,
                forall|j: int|
                    0 <= j < k ==> opt_bytes(#[trigger] texts_out@[j]) == replacement(
                        m,
                        branch_name@,
                        paths[j],
                        seen[j],
                    ),
            decreases written@.len() - k,
        {
            let ghost done = conflict_views(conflicts@);
            let ghost clean = merge_views(merges@);
            let path = written[k].as_str();
            proof {
                assert(paths[k as int] == path@);
                assert(seen[k as int] == seen_writes@[k as int]@);
                assert(paths.take(k + 1).drop_last() =~= paths.take(k as int));
                assert(paths.take(k + 1)[k as int] == path@);
            }
            let text = clean_merge_of(branch, path, &seen_writes[k]);
            let base = first_seen(branch, path);
            let now = PathIdentity::from_path(seen_writes[k].current);
            if text.is_some() {
                merges.push(
                    CommitAutoMerge {
                        path: path.to_owned(),
                        resolution: "clean_text_merge".to_owned(),
                    },
                );
                proof {
                    assert(merge_views(merges@) =~= clean.push(
                        AutoMergeView { path: path@, resolution: "clean_text_merge"@ },
                    ));
                }
            } else if !base.same_as(&now) {
                let action = if base.exists {
                    "modify"
                } else {
                    "create"
                };
                let c = conflict_record(path, action, base, now);
                let ghost one = c@;
                conflicts.push(c);
                proof {
                    assert(conflict_views(conflicts@) =~= done.push(one));
                    assert(done.push(one) =~= deletions + write_conflicts(
                        b,
                        paths.take(k as int),
                        seen,
                    ).push(one));
                }
            }
            texts_out.push(text);
            k = k + 1;
        }
        proof {
            assert(paths.take(k as int) =~= paths);
        }
        Assessment {
            outcome: CommitOutcome { parent: start.parent, auto_merges: merges, conflicts },
            merged: texts_out,
        }
    }
}

/// The relative paths of a commit plan's deletions.
pub open spec fn trimmed(paths: Seq<Text>) -> Seq<Text> {
    paths.map_values(|p: Text| trim_start_slashes(p))
}

/// Whether a plan is the one of a commit of `branch` into `parent`: each deleted path is deleted
/// in the place that the commit goes to, and each written file is copied there, from the merged
/// text where there is one.
pub open spec fn planned(
    plan: CommitPlan,
    branch: Text,
    parent: Text,
    deleted: Seq<Text>,
    files: Seq<DeltaFileView>,
    merged_texts: Seq<Option<Vec<u8>>>,
) -> bool {
    &&& plan.root@ == target(parent)
    &&& texts(plan.deletes@) == trimmed(deleted)
    &&& plan.copies@.len() == files.len()
    &&& forall|i: int|
        0 <= i < files.len() ==> (#[trigger] plan.copies@[i]).rel_path@ == files[i].path
            && plan.copies@[i].source@ == source_of(branch, files[i], merged_texts[i] is Some)
}

/// What a commit does to the place that it goes into.
pub fn plan_commit(
    start: &CommitStart,
    files: &Vec<DeltaFile>,
    merged_texts: &Vec<Option<Vec<u8>>>,
) -> (r: CommitPlan)
    requires
        merged_texts@.len() == files@.len(),
    ensures
        planned(
            r,
            start.branch@,
            start.parent@,
            texts(start.tombstones@),
            file_views(files@),
            merged_texts@,
        ),
{
    let root = if same(start.parent.as_str(), "main") {
        Place::Base
    } else {
        Place::Files(start.parent.clone())
    };
    let ghost gone = texts(start.tombstones@);
    let ghost views = file_views(files@);
    let mut deletes: Vec<String> = Vec::new();
    let mut i: usize = 0;
    proof {
        assert(texts(deletes@) =~= trimmed(gone.take(0)));
    }
    while i < start.tombstones.len()
        invariant
            i <= start.tombstones@.len(),
            gone == texts(start.tombstones@),
            texts(deletes@) == trimmed(gone.take(i as int)),
        decreases start.tombstones@.len() - i,
    {
        let ghost done = texts(deletes@);
        let rel = without_leading_slashes(start.tombstones[i].as_str()).to_owned();
        let ghost one = rel@;
        deletes.push(rel);
        proof {
            assert(texts(deletes@) =~= done.push(one));
            assert(trimmed(gone.take(i + 1)) =~= trimmed(gone.take(i as int)).push(one));
        }
        i = i + 1;
    }
    proof {
        assert(gone.take(i as int) =~= gone);
    }
    let mut copies: Vec<CopyJob> = Vec::new();
    let mut k: usize = 0;
    while k < files.len()
        invariant
            k <= files@.len(),
            merged_texts@.len() == files@.len(),
            views == file_views(files@),
            copies@.len() == k,
            forall|j: int|
                0 <= j < k ==> (#[trigger] copies@[j]).rel_path@ == views[j].path
                    && copies@[j].source@ == source_of(
                    start.branch@,
                    views[j],
                    merged_texts@[j] is Some,
                ),
        decreases files@.len() - k,
    {
        let path = files[k].path.as_str();
        let source = if merged_texts[k].is_some() {
            CopySource::Merged(
                Location {
                    place: Place::MergeContent(start.branch.clone()),
                    rel: touch_content_key(path),
                },
            )
        } else {
            CopySource::Delta { branch: start.branch.clone(), raw: copied(&files[k].raw) }
        };
        copies.push(CopyJob { rel_path: path.to_owned(), source });
        k = k + 1;
    }
    CommitPlan { root, deletes, copies }
}

/// The deltas of main that a commit into the base supersedes.
fn superseded(written: &Vec<String>, tombstones: &Vec<String>) -> (r: Vec<Location>)
    ensures
        location_views(r@) == (texts(written@) + texts(tombstones@)).map_values(
            |p: Text| located(PlaceView::Files("main"@), p),
        ),
{
    let ghost all = texts(written@) + texts(tombstones@);
    let ghost f = |p: Text| located(PlaceView::Files("main"@), p);
    let mut out: Vec<Location> = Vec::new();
    let mut i: usize = 0;
    proof {
        assert(location_views(out@) =~= all.take(0).map_values(f));
    }
    while i < written.len()
        invariant
            i <= written@.len(),
            all == texts(written@) + texts(tombstones@),
            f == (|p: Text| located(PlaceView::Files("main"@), p)),
            location_views(out@) == all.take(i as int).map_values(f),
        decreases written@.len() - i,
    {
        let ghost done = location_views(out@);
        let one = Location::at(Place::Files("main".to_owned()), written[i].as_str());
        let ghost v = one@;
        out.push(one);
        proof {
            assert(location_views(out@) =~= done.push(v));
            assert(all[i as int] == written@[i as int]@);
            assert(all.take(i + 1).map_values(f) =~= all.take(i as int).map_values(f).push(v));
        }
        i = i + 1;
    }
    let ghost n = written@.len() as int;
    let mut k: usize = 0;
    while k < tombstones.len()
        invariant
            k <= tombstones@.len(),
            n == written@.len(),
            all == texts(written@) + texts(tombstones@),
            f == (|p: Text| located(PlaceView::Files("main"@), p)),
            location_views(out@) == all.take(n + k).map_values(f),
        decreases tombstones@.len() - k,
    {
        let ghost done = location_views(out@);
        let one = Location::at(Place::Files("main".to_owned()), tombstones[k].as_str());
        let ghost v = one@;
        out.push(one);
        proof {
            assert(location_views(out@) =~= done.push(v));
            assert(all[n + k] == tombstones@[k as int]@);
            assert(all.take(n + k + 1).map_values(f) =~= all.take(n + k).map_values(f).push(v));
        }
        k = k + 1;
    }
    proof {
        assert(all.take(n + k) =~= all);
    }
    out
}

/// Whether a branch does not see what it inherits at a path.
pub open spec fn veiled(b: BranchView, path: Text) -> bool {
    deleted(b.tombs, path) || hidden(b.hide, path)
}

/// What is done to the delta of main once a commit into the base was published, in this order.
pub struct MainUpkeep {
    /// What is to be removed, with everything below: main's own entries at the changed paths.
    pub superseded: Vec<Location>,
    /// The written paths that are to be copied from the base, since main would not see them there.
    pub veiled: Vec<String>,
}

impl BranchManager {
    /// What a commit into the base changes in the delta of main; nothing for a commit into
    /// another branch.
    pub fn main_upkeep(&self, start: &CommitStart, written: &Vec<String>) -> (r: MainUpkeep)
        requires
            self.wf(),
        ensures
            location_views(r.superseded@) == if start.parent@ == "main"@ {
                (texts(written@) + texts(start.tombstones@)).map_values(
                    |p: Text| located(PlaceView::Files("main"@), p),
                )
            } else {
                seq![]
            },
            forall|p: Text| #[trigger]
                texts(r.veiled@).contains(p) <==> start.parent@ == "main"@ && texts(
                    written@,
                ).contains(p) && veiled(
                    (BranchView {
                        tombs: tombs_after(
                            self@.branches["main"@].tombs,
                            seq![],
                            seq![],
                            texts(written@),
                        ),
                        ..self@.branches["main"@]
                    }),
                    p,
                ),
    {
        let mut copies: Vec<String> = Vec::new();
        if !same(start.parent.as_str(), "main") {
            let none: Vec<Location> = Vec::new();
            proof {
                assert(location_views(none@) =~= seq![]);
                assert(texts(copies@) =~= seq![]);
            }
            return MainUpkeep { superseded: none, veiled: copies };
        }
        let (none, no_flags): (Vec<String>, Vec<bool>) = (Vec::new(), Vec::new());
        proof {
            assert(texts(none@) =~= seq![]);
            assert(no_flags@ =~= seq![]);
            assert(texts(copies@) =~= seq![]);
        }
        if let Some(main) = self.branches.get("main") {
            let tombs = merge_tombstones(&main.tombstones, &none, &no_flags, written);
            let ghost after = BranchView { tombs: texts(tombs@).to_set(), ..main@ };
            let ghost paths = texts(written@);
            let mut i: usize = 0;
            while i < written.len()
                invariant
                    i <= written@.len(),
                    paths == texts(written@),
                    after == (BranchView { tombs: texts(tombs@).to_set(), ..main@ }),
                    forall|p: Text| #[trigger]
                        texts(copies@).contains(p) <==> paths.take(i as int).contains(p)
                            && veiled(after, p),
                decreases written@.len() - i,
            {
                let ghost before = texts(copies@);
                let path = written[i].as_str();
                proof {
                    assert(paths.take(i + 1) =~= paths.take(i as int).push(path@));
                    lemma_push_contains(paths.take(i as int), path@);
                    lemma_push_contains(before, path@);
                }
                if deleted_by(&tombs, path) || main.is_hidden(path) {
                    copies.push(path.to_owned());
                    proof {
                        assert(texts(copies@) =~= before.push(path@));
                    }
                }
                i = i + 1;
            }
            proof {
                assert(paths.take(i as int) =~= paths);
            }
        }
        MainUpkeep { superseded: superseded(written, &start.tombstones), veiled: copies }
    }
}

proof fn lemma_push_contains(s: Seq<Text>, x: Text)
    ensures
        forall|y: Text| #[trigger] s.push(x).contains(y) <==> s.contains(y) || y == x,
{
    assert forall|y: Text| #[trigger] s.push(x).contains(y) <==> s.contains(y) || y == x by {
        if s.contains(y) {
            let j = choose|j: int| 0 <= j < s.len() && s[j] == y;
            assert(s.push(x)[j] == y);
        }
        if y == x {
            assert(s.push(x)[s.len() as int] == y);
        }
        if s.push(x).contains(y) && y != x {
            let j = choose|j: int| 0 <= j < s.push(x).len() && s.push(x)[j] == y;
            assert(s[j] == y);
        }
    }
}

/// The deletions of the parent after the commit.
fn merge_tombstones(
    parent: &Vec<String>,
    deleted: &Vec<String>,
    inherited: &Vec<bool>,
    written: &Vec<String>,
) -> (r: Vec<String>)
    requires
        texts(parent@).no_duplicates(),
        texts(deleted@).no_duplicates(),
        inherited@.len() == deleted@.len(),
    ensures
        texts(r@).no_duplicates(),
        texts(r@).to_set() == tombs_after(
            texts(parent@).to_set(),
            texts(deleted@),
            inherited@,
            texts(written@),
        ),
{
    let ghost was = texts(parent@).to_set();
    let ghost gone = texts(deleted@);
    let ghost paths = texts(written@);
    let mut out = parent.clone();
    proof {
        assert(out@ =~= parent@);
        assert(texts(out@).to_set() =~= tombs_after(was, gone.take(0), inherited@, seq![]));
    }
    let mut i: usize = 0;
    while i < deleted.len()
        invariant
            i <= deleted@.len(),
            inherited@.len() == deleted@.len(),
            gone == texts(deleted@),
            gone.no_duplicates(),
            texts(out@).no_duplicates(),
            texts(out@).to_set() == tombs_after(was, gone.take(i as int), inherited@, seq![]),
        decreases deleted@.len() - i,
    {
        let path = deleted[i].as_str();
        let ghost before = texts(out@).to_set();
        if inherited[i] {
            let _ = insert_text(&mut out, path);
        } else {
            let _ = remove_text(&mut out, path);
        }
        proof {
            let (a, b) = (gone.take(i as int), gone.take(i + 1));
            let t = gone[i as int];
            assert(t == path@);
            assert(b =~= a.push(t));
            assert(b[i as int] == t);
            let now = texts(out@).to_set();
            assert forall|x: Text| #[trigger] now.contains(x) == tombs_after(
                was,
                b,
                inherited@,
                seq![],
            ).contains(x) by {
                assert(before.contains(x) == tombs_after(was, a, inherited@, seq![]).contains(x));
                if x == t {
                    assert(b.contains(x));
                    if exists|j: int| 0 <= j < b.len() && #[trigger] b[j] == x && inherited@[j] {
                        let j = choose|j: int|
                            0 <= j < b.len() && #[trigger] b[j] == x && inherited@[j];
                        assert(gone[j] == gone[i as int]);
                    }
                } else {
                    if a.contains(x) {
                        let j = choose|j: int| 0 <= j < a.len() && a[j] == x;
                        assert(b[j] == x);
                    }
                    if b.contains(x) {
                        let j = choose|j: int| 0 <= j < b.len() && b[j] == x;
                        assert(a[j] == x);
                    }
                    if exists|j: int| 0 <= j < a.len() && #[trigger] a[j] == x && inherited@[j] {
                        let j = choose|j: int|
                            0 <= j < a.len() && #[trigger] a[j] == x && inherited@[j];
                        assert(b[j] == x);
                    }
                    if exists|j: int| 0 <= j < b.len() && #[trigger] b[j] == x && inherited@[j] {
                        let j = choose|j: int|
                            0 <= j < b.len() && #[trigger] b[j] == x && inherited@[j];
                        assert(a[j] == x);
                    }
                }
            }
            assert(now =~= tombs_after(was, b, inherited@, seq![]));
        }
        i = i + 1;
    }
    let mut k: usize = 0;
    proof {
        assert(gone.take(i as int) =~= gone);
        assert(paths.take(0) =~= seq![]);
    }
    while k < written.len()
        invariant
            k <= written@.len(),
            paths == texts(written@),
            texts(out@).no_duplicates(),
            texts(out@).to_set() == tombs_after(was, gone, inherited@, paths.take(k as int)),
        decreases written@.len() - k,
    {
        let ghost before = texts(out@).to_set();
        let _ = remove_text(&mut out, written[k].as_str());
        proof {
            let (a, b) = (paths.take(k as int), paths.take(k + 1));
            let t = paths[k as int];
            assert(t == written@[k as int]@);
            assert(b =~= a.push(t));
            let now = texts(out@).to_set();
            assert forall|x: Text| #[trigger] now.contains(x) == tombs_after(
                was,
                gone,
                inherited@,
                b,
            ).contains(x) by {
                if a.contains(x) {
                    let j = choose|j: int| 0 <= j < a.len() && a[j] == x;
                    assert(b[j] == x);
                }
                if b.contains(x) && x != t {
                    let j = choose|j: int| 0 <= j < b.len() && b[j] == x;
                    assert(a[j] == x);
                }
                if x == t {
                    assert(b[k as int] == x);
                }
            }
            assert(now =~= tombs_after(was, gone, inherited@, b));
        }
        k = k + 1;
    }
    proof {
        assert(paths.take(k as int) =~= paths);
    }
    out
}

/// What is to be stored for the parent after a commit into it: its metadata, and the snapshot of
/// its deletions, which takes the place of its log.
pub struct Recorded {
    pub metadata: BranchMetadata,
    pub snapshot: String,
}

/// What a parent is after a commit into it. What the child deleted is gone from the base, so it
/// leaves no mark on main.
pub open spec fn parent_after(
    m: Forest,
    name: Text,
    deleted: Seq<Text>,
    inherited: Seq<bool>,
    written: Seq<Text>,
) -> BranchView {
    let parent = m[name].parent->0;
    let was = m[parent];
    BranchView {
        tombs: if parent == "main"@ {
            tombs_after(was.tombs, seq![], seq![], written)
        } else {
            tombs_after(was.tombs, deleted, inherited, written)
        },
        commit_count: next(was.commit_count),
        ..was
    }
}

impl BranchManager {
    /// Records a published commit in the parent: counts it, stops deleting what the branch wrote,
    /// and for a parent other than main merges the deletions. `inherited` says of each path that
    /// the branch deletes whether the parent inherits it.
    pub fn record_commit(
        &mut self,
        branch_name: &str,
        inherited: &Vec<bool>,
        written: &Vec<String>,
    ) -> (r: Result<Recorded, BranchError>)
        requires
            old(self).wf(),
            commit_fault(old(self)@.branches, branch_name@) is None ==> inherited@.len() == old(
                self,
            ).branches@[branch_name@].tombstones@.len(),
        ensures
            final(self).wf(),
            r is Ok <==> commit_fault(old(self)@.branches, branch_name@) is None,
            r matches Err(e) ==> Some(e@) == commit_fault(old(self)@.branches, branch_name@)
                && final(self)@ == old(self)@,
            r matches Ok(rec) ==> {
                let m = old(self)@.branches;
                let parent = m[branch_name@].parent->0;
                let now = parent_after(
                    m,
                    branch_name@,
                    texts(old(self).branches@[branch_name@].tombstones@),
                    inherited@,
                    texts(written@),
                );
                &&& final(self)@ == old(self)@.with(parent, now)
                &&& rec.metadata@ == now.metadata()
                &&& rec.snapshot@ == snapshot_text(texts(final(self).branches@[parent].tombstones@))
            },
    {
        let start = match self.begin_commit(branch_name) {
            Ok(s) => s,
            Err(e) => {
                return Err(e);
            },
        };
        let ghost before = self.branches@;
        proof {
            assert(before.dom().contains(branch_name@));
            assert(before.dom().contains(start.parent@));
        }
        match self.branches.take(start.parent.as_str()) {
            None => Err(BranchError::NotFound(start.parent)),
            Some(parent) => {
                let mut parent = parent;
                let tombs = if same(start.parent.as_str(), "main") {
                    let (none, no_flags): (Vec<String>, Vec<bool>) = (Vec::new(), Vec::new());
                    proof {
                        assert(texts(none@) =~= seq![]);
                        assert(no_flags@ =~= seq![]);
                    }
                    merge_tombstones(&parent.tombstones, &none, &no_flags, written)
                } else {
                    merge_tombstones(&parent.tombstones, &start.tombstones, inherited, written)
                };
                let snapshot = parent.set_tombstones(&tombs);
                parent.commit_count = next_of(parent.commit_count);
                let metadata = parent.write_metadata();
                let ghost changed = parent;
                let _ = self.branches.put(start.parent.as_str(), parent);
                proof {
                    assert(forest(self.branches@) =~= forest(before).insert(
                        start.parent@,
                        changed@,
                    ));
                    assert(changed@ =~= parent_after(
                        forest(before),
                        branch_name@,
                        texts(before[branch_name@].tombstones@),
                        inherited@,
                        texts(written@),
                    ));
                }
                Ok(Recorded { metadata, snapshot })
            },
        }
    }
}

/// Everything that was found out for a commit.
pub struct CommitSeen {
    /// What the branch inherits at each path that it deletes.
    pub deletes: Vec<Option<Meta>>,
    /// The files of the delta.
    pub files: Vec<DeltaFile>,
    /// What was found for each of them.
    pub writes: Vec<SeenWrite>,
    /// Whether the parent inherits each path that the branch deletes.
    pub inherited: Vec<bool>,
    /// The bytes of the delta of the branch, which goes.
    pub freed: u64,
    /// The bytes of the delta of the parent before the commit.
    pub parent_before: u64,
    /// The bytes of the delta of the parent once the commit was published.
    pub parent_after: u64,
}

/// A commit that was made.
pub struct Committed {
    pub assessment: Assessment,
    pub plan: CommitPlan,
    pub recorded: Recorded,
    pub told: Vec<Invalidation>,
}

impl CommitSeen {
    /// Whether what was found covers every path of the branch.
    pub open spec fn covers(self, deleted: Seq<String>) -> bool {
        &&& self.deletes@.len() == deleted.len()
        &&& self.inherited@.len() == deleted.len()
        &&& self.writes@.len() == self.files@.len()
    }

    /// The paths of the files of the delta.
    pub open spec fn written(self) -> Seq<Text> {
        file_texts(file_views(self.files@))
    }

    /// By how much the commit changes the storage in use.
    pub open spec fn change(self) -> int {
        self.parent_after - self.parent_before - self.freed
    }
}

impl ManagerView {
    /// The state after a branch was committed: its parent has taken it up, it is gone, the storage
    /// in use has changed by `change` bytes, and every mount notices.
    pub open spec fn committed(
        self,
        name: Text,
        deleted: Seq<Text>,
        inherited: Seq<bool>,
        written: Seq<Text>,
        change: int,
    ) -> ManagerView {
        ManagerView {
            branches: committed_forest(self.branches, name, deleted, inherited, written),
            quota: self.quota.after(change),
            epoch: next(self.epoch),
            ..self
        }
    }
}

/// The branches after one of them was committed.
pub open spec fn committed_forest(
    m: Forest,
    name: Text,
    deleted: Seq<Text>,
    inherited: Seq<bool>,
    written: Seq<Text>,
) -> Forest {
    m.insert(m[name].parent->0, parent_after(m, name, deleted, inherited, written)).remove(name)
}

impl BranchManager {
    /// Commit a leaf branch whose changes were published, and say what belongs to it: the report,
    /// the changes to the place that it went into, what is to be stored, and what the kernel must
    /// drop.
    pub fn commit_with_report(&mut self, branch_name: &str, seen: &CommitSeen) -> (r: Result<
        Committed,
        BranchError,
    >)
        requires
            old(self).wf(),
            commit_fault(old(self)@.branches, branch_name@) is None ==> seen.covers(
                old(self).branches@[branch_name@].tombstones@,
            ),
        ensures
            final(self).wf(),
            r is Ok <==> commit_fault(old(self)@.branches, branch_name@) is None,
            r matches Err(e) ==> Some(e@) == commit_fault(old(self)@.branches, branch_name@)
                && final(self)@ == old(self)@,
            r matches Ok(c) ==> {
                let m = old(self)@.branches;
                let parent = m[branch_name@].parent->0;
                let gone = texts(old(self).branches@[branch_name@].tombstones@);
                let written = seen.written();
                let writes = seen_views(seen.writes@);
                &&& final(self)@ == old(self)@.committed(
                    branch_name@,
                    gone,
                    seen.inherited@,
                    written,
                    seen.change(),
                )
                &&& c.assessment.outcome@ == report(
                    m,
                    branch_name@,
                    gone,
                    seen.deletes@,
                    written,
                    writes,
                )
                &&& c.assessment.merged@.len() == written.len()
                &&& forall|i: int|
                    0 <= i < written.len() ==> opt_bytes(#[trigger] c.assessment.merged@[i])
                        == replacement(m, branch_name@, written[i], writes[i])
                &&& planned(
                    c.plan,
                    branch_name@,
                    parent,
                    gone,
                    file_views(seen.files@),
                    c.assessment.merged@,
                )
                &&& c.recorded.metadata@ == parent_after(
                    m,
                    branch_name@,
                    gone,
                    seen.inherited@,
                    written,
                ).metadata()
                &&& c.recorded.snapshot@ == snapshot_text(
                    texts(final(self).branches@[parent].tombstones@),
                )
                &&& forall|n: Invalidation| #[trigger]
                    c.told@.contains(n) <==> old(self)@.told(
                        if parent == "main"@ {
                            None
                        } else {
                            Some(set![branch_name@, parent])
                        },
                        n,
                    )
                &&& root_first(c.told@)
            },
    {
        let start = match self.begin_commit(branch_name) {
            Ok(s) => s,
            Err(e) => {
                return Err(e);
            },
        };
        let ghost before = self@;
        let ghost parent = start.parent@;
        proof {
            assert(self.branches@.dom().contains(branch_name@));
        }
        let written = file_paths(&seen.files);
        let assessment = self.assess_commit(branch_name, &seen.deletes, &written, &seen.writes);
        let plan = plan_commit(&start, &seen.files, &assessment.merged);
        let into_base = same(start.parent.as_str(), "main");
        let recorded = match self.record_commit(branch_name, &seen.inherited, &written) {
            Ok(rec) => rec,
            Err(e) => {
                return Err(e);
            },
        };
        self.drop_branch(branch_name);
        self.quota.sub(seen.freed);
        self.quota.sub(seen.parent_before);
        self.quota.add(seen.parent_after);
        proof {
            // The branch is not its own parent, so what was recorded in the parent stays.
            assert(crate::changes::leaf(before.branches, branch_name@));
            assert(before.branches.dom().contains(branch_name@));
            assert(parent != branch_name@);
        }
        let ghost ended = self@;
        let told = if into_base {
            self.announce_to_all()
        } else {
            let mut names: Vec<String> = Vec::new();
            names.push(branch_name.to_owned());
            names.push(start.parent.clone());
            proof {
                let all = seq![branch_name@, parent];
                assert(texts(names@) =~= all);
                assert(all[0] == branch_name@ && all[1] == parent);
                assert(texts(names@).to_set() =~= set![branch_name@, parent]);
            }
            self.announce(&names)
        };
        proof {
            let names = if parent == "main"@ {
                None
            } else {
                Some(set![branch_name@, parent])
            };
            assert forall|n: Invalidation| #[trigger] told@.contains(n) <==> before.told(
                names,
                n,
            ) by {
                lemma_told_same(ended, before, names, n);
            }
        }
        Ok(Committed { assessment, plan, recorded, told })
    }

    /// Commit a leaf branch into its immediate parent.
    /// Returns the parent branch name on success.
    pub fn commit(&mut self, branch_name: &str, seen: &CommitSeen) -> (r: Result<
        String,
        BranchError,
    >)
        requires
            old(self).wf(),
            commit_fault(old(self)@.branches, branch_name@) is None ==> seen.covers(
                old(self).branches@[branch_name@].tombstones@,
            ),
        ensures
            final(self).wf(),
            r is Ok <==> commit_fault(old(self)@.branches, branch_name@) is None,
            r matches Err(e) ==> Some(e@) == commit_fault(old(self)@.branches, branch_name@)
                && final(self)@ == old(self)@,
            r matches Ok(p) ==> {
                &&& Some(p@) == old(self)@.branches[branch_name@].parent
                &&& final(self)@ == old(self)@.committed(
                    branch_name@,
                    texts(old(self).branches@[branch_name@].tombstones@),
                    seen.inherited@,
                    seen.written(),
                    seen.change(),
                )
            },
    {
        match self.commit_with_report(branch_name, seen) {
            Ok(c) => Ok(c.assessment.outcome.parent),
            Err(e) => Err(e),
        }
    }
}

pub open spec fn conflict_views(v: Seq<CommitConflict>) -> Seq<ConflictView> {
    v.map_values(|c: CommitConflict| c@)
}

pub open spec fn merge_views(v: Seq<CommitAutoMerge>) -> Seq<AutoMergeView> {
    v.map_values(|c: CommitAutoMerge| c@)
}

/// A commit goes into the base where the parent is main, and into the delta of the parent else. It
/// deletes there what the branch deletes, and copies every file of the delta to its path: the file
/// itself by its place on disk, or the merged text where there is one.
pub proof fn law_commit_copies_the_delta(
    plan: CommitPlan,
    branch: Text,
    parent: Text,
    deleted: Seq<Text>,
    files: Seq<DeltaFileView>,
    merged_texts: Seq<Option<Vec<u8>>>,
    i: int,
)
    requires
        planned(plan, branch, parent, deleted, files, merged_texts),
    ensures
        plan.root@ is Base <==> parent == "main"@,
        parent != "main"@ ==> plan.root@ == PlaceView::Files(parent),
        plan.deletes@.len() == deleted.len(),
        0 <= i < deleted.len() && deleted[i].len() > 1 && deleted[i][0] == '/' && deleted[i][1]
            != '/' ==> plan.deletes@[i]@ == deleted[i].skip(1),
        plan.copies@.len() == files.len(),
        0 <= i < files.len() ==> {
            let c = plan.copies@[i];
            &&& c.rel_path@ == files[i].path
            &&& merged_texts[i] is None ==> c.source@ == (CopySourceView::Delta {
                branch,
                raw: files[i].raw,
            })
            &&& merged_texts[i] is Some ==> (c.source@ matches CopySourceView::Merged(l) && l.place
                == PlaceView::MergeContent(branch))
        },
{
    if 0 <= i < files.len() {
        assert(plan.copies@[i].rel_path@ == files[i].path);
    }
    assert(texts(plan.deletes@).len() == trimmed(deleted).len());
    if 0 <= i < deleted.len() && deleted[i].len() > 1 && deleted[i][0] == '/' && deleted[i][1]
        != '/' {
        assert(texts(plan.deletes@)[i] == trimmed(deleted)[i]);
        let t = deleted[i].drop_first();
        assert(t =~= deleted[i].skip(1));
        assert(t[0] == deleted[i][1]);
        assert(trim_start_slashes(t) == t);
        assert(trim_start_slashes(deleted[i]) == trim_start_slashes(t));
    }
}

/// After a commit into a branch, a path that the child wrote is not deleted; of the other paths,
/// one that the child deleted is deleted exactly if the branch inherits it, and one that the child
/// did not delete is deleted exactly if it was.
pub proof fn law_deletions_after_a_commit(
    tombs: Set<Text>,
    deleted: Seq<Text>,
    inherited: Seq<bool>,
    written: Seq<Text>,
    t: Text,
    i: int,
)
    requires
        deleted.no_duplicates(),
    ensures
        ({
            let after = tombs_after(tombs, deleted, inherited, written);
            &&& written.contains(t) ==> !after.contains(t)
            &&& !written.contains(t) && 0 <= i < deleted.len() && deleted[i] == t
                ==> after.contains(t) == inherited[i]
            &&& !written.contains(t) && !deleted.contains(t) ==> after.contains(t)
                == tombs.contains(t)
        }),
{
    if 0 <= i < deleted.len() && deleted[i] == t {
        assert(deleted.contains(t));
    }
}

/// A commit counts in the parent, takes the branch away, and leaves every other branch as it is.
/// Of the parent nothing else changes but its deletions.
pub proof fn law_commit_counts_in_the_parent(
    m: Forest,
    name: Text,
    deleted: Seq<Text>,
    inherited: Seq<bool>,
    written: Seq<Text>,
)
    requires
        commit_fault(m, name) is None,
    ensures
        ({
            let parent = m[name].parent->0;
            let after = committed_forest(m, name, deleted, inherited, written);
            &&& !after.dom().contains(name)
            &&& after.dom().contains(parent)
            &&& m[parent].commit_count < u64::MAX ==> after[parent].commit_count
                == m[parent].commit_count + 1
            &&& after[parent].touches == m[parent].touches
            &&& after[parent].parent == m[parent].parent
            &&& after[parent].state == m[parent].state
            &&& after[parent].hide == m[parent].hide
            &&& forall|k: Text|
                k != name && k != parent ==> #[trigger] after.dom().contains(k) == m.dom().contains(
                    k,
                ) && (m.dom().contains(k) ==> after[k] == m[k])
        }),
{
    assert(end_fault(m, name) is None);
    let parent = m[name].parent->0;
    assert(parent != name) by {
        assert(crate::changes::leaf(m, name));
        assert(m.dom().contains(name));
    }
}

/// A branch can be committed exactly if it can be ended and its parent exists.
pub proof fn law_commits_need_a_parent(m: Forest, name: Text)
    ensures
        commit_fault(m, name) is None <==> end_fault(m, name) is None && m.dom().contains(
            m[name].parent->0,
        ),
        end_fault(m, name) is Some ==> commit_fault(m, name) == end_fault(m, name),
{
}

/// A commit changes nothing but the branches, the storage in use and the epoch: every mount shows
/// what it did, and what was opened stays known.
pub proof fn law_commit_leaves_mounts(
    mv: ManagerView,
    name: Text,
    deleted: Seq<Text>,
    inherited: Seq<bool>,
    written: Seq<Text>,
    change: int,
)
    ensures
        ({
            let after = mv.committed(name, deleted, inherited, written, change);
            &&& after.branches == committed_forest(mv.branches, name, deleted, inherited, written)
            &&& after.epoch != mv.epoch
            &&& after.mounts == mv.mounts && after.notifiers == mv.notifiers && after.opened
                == mv.opened
            &&& i64::MIN <= mv.quota.used + change <= i64::MAX ==> after.quota.used == mv.quota.used
                + change
        }),
{
}

} // verus!
