//! Changes to branches: their deletions, first touches and states, their end, and the report of
//! what they changed.

use std::collections::hash_map::DefaultHasher;
use std::hash::Hasher;

use vstd::prelude::*;
use vstd::std_specs::hash::DefaultHasherAdditionalSpecFns;
use vstd::string::*;
use vstd::utf8::encode_utf8;

use crate::branch::{Branch, BranchMetadata, BranchView};
use crate::errors::{BranchError, ErrorView};
use crate::journal::log_line;
use crate::lookup::Forest;
use crate::manager::{
    forest, next, next_of, root_first, BranchManager, Invalidation, ManagerView,
};
use crate::order::{sort_diff, sorted_diff};
use crate::records::{
    diff_views, BranchState, BranchStatus, DiffEntry, DiffView, FileKind, TouchRecord,
};
use crate::table::lemma_rows;
use crate::text::{opt_text, same, texts, Text};
use crate::tree::{collect_delta_diff, list_diff, DirEntry};

verus! {

/// How many locks the paths of a store share.
pub const PATH_LOCK_STRIPES: usize = 256;

/// What is hashed of a path of a branch, piece by piece: both names, each with a byte behind it
/// that no name holds.
pub open spec fn lock_key(branch: Text, path: Text) -> Seq<Seq<u8>> {
    seq![encode_utf8(branch), seq![0xffu8], encode_utf8(path), seq![0xffu8]]
}

/// The lock that a path of a branch takes: a path takes the same one every time.
pub fn path_lock(branch_name: &str, rel_path: &str) -> (r: usize)
    ensures
        r < PATH_LOCK_STRIPES,
        r == DefaultHasher::spec_finish(lock_key(branch_name@, rel_path@)) % 256,
{
    let end: [u8; 1] = [0xff];
    let mut hasher = DefaultHasher::new();
    hasher.write(branch_name.as_bytes());
    hasher.write(&end);
    hasher.write(rel_path.as_bytes());
    hasher.write(&end);
    proof {
        assert(end@ =~= seq![0xffu8]);
        assert(hasher@ =~= lock_key(branch_name@, rel_path@));
    }
    (hasher.finish() % 256) as usize
}

/// Why a branch that must not be main cannot be operated on, or `None` if it can.
pub open spec fn state_fault(m: Forest, name: Text) -> Option<ErrorView> {
    if name == "main"@ {
        Some(ErrorView::CannotOperateOnMain)
    } else if !m.dom().contains(name) {
        Some(ErrorView::NotFound(name))
    } else {
        None
    }
}

/// Whether no branch has `name` as its parent.
pub open spec fn leaf(m: Forest, name: Text) -> bool {
    forall|k: Text| #[trigger] m.dom().contains(k) ==> m[k].parent != Some(name)
}

/// Why a branch cannot be ended, or `None` if it can.
pub open spec fn end_fault(m: Forest, name: Text) -> Option<ErrorView> {
    match state_fault(m, name) {
        Some(e) => Some(e),
        None => if !leaf(m, name) {
            Some(ErrorView::NotALeaf(name))
        } else if m[name].parent is None {
            Some(ErrorView::NotFound(name))
        } else {
            None
        },
    }
}

impl ManagerView {
    /// The state with another description of one branch.
    pub open spec fn with(self, name: Text, b: BranchView) -> ManagerView {
        ManagerView { branches: self.branches.insert(name, b), ..self }
    }
}

/// The mode that a directory of the store is given so that it can be read and emptied, or `None`
/// if its owner has all access already.
pub fn owner_access(kind: FileKind, mode: u32) -> (r: Option<u32>)
    ensures
        r is Some <==> kind == FileKind::Dir && mode & 0o700 != 0o700,
        r matches Some(m) ==> m == mode | 0o700,
{
    if kind != FileKind::Dir || mode & 0o700 == 0o700 {
        None
    } else {
        Some(mode | 0o700)
    }
}

/// A mode that was widened gives its owner all access and leaves everything else as it was.
pub proof fn law_owner_access(mode: u32)
    ensures
        (mode | 0o700) & 0o700 == 0o700,
        (mode | 0o700) & !0o700 == mode & !0o700,
{
    assert((mode | 0o700) & 0o700 == 0o700) by (bit_vector);
    assert((mode | 0o700) & !0o700 == mode & !0o700) by (bit_vector);
}

/// What a branch status says of a deletion.
pub open spec fn delete_entry(path: Text) -> DiffView {
    DiffView { op: "delete"@, path, kind: "tombstone"@, bytes: 0 }
}

pub open spec fn delete_entries(paths: Seq<Text>) -> Seq<DiffView> {
    paths.map_values(|p: Text| delete_entry(p))
}

impl ManagerView {
    /// The state after a branch was aborted whose delta held `freed` bytes.
    pub open spec fn aborted(self, name: Text, freed: u64) -> ManagerView {
        ManagerView {
            branches: self.branches.remove(name),
            quota: self.quota.after(-(freed as int)),
            ..self
        }
    }
}

impl BranchManager {
    pub(crate) proof fn lemma_replaced(before: Map<Text, Branch>, name: Text, b: Branch)
        ensures
            forest(before.remove(name).insert(name, b)) == forest(before).insert(name, b@),
    {
        assert(forest(before.remove(name).insert(name, b)) =~= forest(before).insert(name, b@));
    }

    /// Deletes a path on a branch; the result is the line that the branch's log gains, if
    /// anything changed.
    pub fn add_tombstone(&mut self, branch_name: &str, path: &str) -> (r: Result<
        Option<String>,
        BranchError,
    >)
        requires
            old(self).wf(),
        ensures
            final(self).wf(),
            r is Ok <==> old(self)@.branches.dom().contains(branch_name@),
            r matches Err(e) ==> e@ == ErrorView::NotFound(branch_name@) && final(self)@ == old(
                self,
            )@,
            r matches Ok(line) ==> {
                let was = old(self)@.branches[branch_name@];
                &&& final(self)@ == old(self)@.with(
                    branch_name@,
                    BranchView { tombs: was.tombs.insert(path@), ..was },
                )
                &&& opt_text(line) == if was.tombs.contains(path@) {
                    None
                } else {
                    Some(log_line(true, path@))
                }
            },
    {
        let ghost before = self.branches@;
        match self.branches.take(branch_name) {
            None => {
                proof {
                    assert(self.branches@ =~= before);
                }
                Err(BranchError::NotFound(branch_name.to_owned()))
            },
            Some(branch) => {
                let mut branch = branch;
                let line = branch.add_tombstone(path);
                let ghost changed = branch;
                let _ = self.branches.put(branch_name, branch);
                proof {
                    BranchManager::lemma_replaced(before, branch_name@, changed);
                }
                Ok(line)
            },
        }
    }

    /// Stops deleting a path on a branch; the result is the line that the branch's log gains, if
    /// anything changed.
    pub fn remove_tombstone(&mut self, branch_name: &str, path: &str) -> (r: Result<
        Option<String>,
        BranchError,
    >)
        requires
            old(self).wf(),
        ensures
            final(self).wf(),
            r is Ok <==> old(self)@.branches.dom().contains(branch_name@),
            r matches Err(e) ==> e@ == ErrorView::NotFound(branch_name@) && final(self)@ == old(
                self,
            )@,
            r matches Ok(line) ==> {
                let was = old(self)@.branches[branch_name@];
                &&& final(self)@ == old(self)@.with(
                    branch_name@,
                    BranchView { tombs: was.tombs.remove(path@), ..was },
                )
                &&& opt_text(line) == if was.tombs.contains(path@) {
                    Some(log_line(false, path@))
                } else {
                    None
                }
            },
    {
        let ghost before = self.branches@;
        match self.branches.take(branch_name) {
            None => {
                proof {
                    assert(self.branches@ =~= before);
                }
                Err(BranchError::NotFound(branch_name.to_owned()))
            },
            Some(branch) => {
                let mut branch = branch;
                let line = branch.remove_tombstone(path);
                let ghost changed = branch;
                let _ = self.branches.put(branch_name, branch);
                proof {
                    BranchManager::lemma_replaced(before, branch_name@, changed);
                }
                Ok(line)
            },
        }
    }

    /// Records the first touch of a path on a branch; an earlier record of the path stays.
    pub fn record_first_touch(&mut self, branch_name: &str, record: &TouchRecord) -> (r: Result<
        (),
        BranchError,
    >)
        requires
            old(self).wf(),
        ensures
            final(self).wf(),
            r is Ok <==> old(self)@.branches.dom().contains(branch_name@),
            r matches Err(e) ==> e@ == ErrorView::NotFound(branch_name@) && final(self)@ == old(
                self,
            )@,
            r is Ok ==> {
                let was = old(self)@.branches[branch_name@];
                final(self)@ == old(self)@.with(branch_name@, was.touched(record@))
            },
    {
        let ghost before = self.branches@;
        match self.branches.take(branch_name) {
            None => {
                proof {
                    assert(self.branches@ =~= before);
                }
                Err(BranchError::NotFound(branch_name.to_owned()))
            },
            Some(branch) => {
                let mut branch = branch;
                branch.record_first_touch(record);
                let ghost changed = branch;
                let _ = self.branches.put(branch_name, branch);
                proof {
                    BranchManager::lemma_replaced(before, branch_name@, changed);
                }
                Ok(())
            },
        }
    }

    fn set_branch_state(&mut self, branch_name: &str, state: BranchState) -> (r: Result<
        BranchMetadata,
        BranchError,
    >)
        requires
            old(self).wf(),
        ensures
            final(self).wf(),
            r is Ok <==> state_fault(old(self)@.branches, branch_name@) is None,
            r matches Err(e) ==> Some(e@) == state_fault(old(self)@.branches, branch_name@)
                && final(self)@ == old(self)@,
            r matches Ok(meta) ==> {
                let now = BranchView { state, ..old(self)@.branches[branch_name@] };
                final(self)@ == old(self)@.with(branch_name@, now) && meta@ == now.metadata()
            },
    {
        if same(branch_name, "main") {
            return Err(BranchError::CannotOperateOnMain);
        }
        let ghost before = self.branches@;
        match self.branches.take(branch_name) {
            None => {
                proof {
                    assert(self.branches@ =~= before);
                }
                Err(BranchError::NotFound(branch_name.to_owned()))
            },
            Some(branch) => {
                let mut branch = branch;
                let meta = branch.set_state(state);
                let ghost changed = branch;
                let _ = self.branches.put(branch_name, branch);
                proof {
                    BranchManager::lemma_replaced(before, branch_name@, changed);
                }
                Ok(meta)
            },
        }
    }

    /// Makes a branch read-only; the result is the metadata that is to be written.
    pub fn freeze_branch(&mut self, branch_name: &str) -> (r: Result<BranchMetadata, BranchError>)
        requires
            old(self).wf(),
        ensures
            final(self).wf(),
            r is Ok <==> state_fault(old(self)@.branches, branch_name@) is None,
            r matches Err(e) ==> Some(e@) == state_fault(old(self)@.branches, branch_name@)
                && final(self)@ == old(self)@,
            r matches Ok(meta) ==> {
                let now = BranchView {
                    state: BranchState::Frozen,
                    ..old(self)@.branches[branch_name@]
                };
                final(self)@ == old(self)@.with(branch_name@, now) && meta@ == now.metadata()
            },
    {
        self.set_branch_state(branch_name, BranchState::Frozen)
    }

    /// Opens a branch for writing again; the result is the metadata that is to be written.
    pub fn thaw_branch(&mut self, branch_name: &str) -> (r: Result<BranchMetadata, BranchError>)
        requires
            old(self).wf(),
        ensures
            final(self).wf(),
            r is Ok <==> state_fault(old(self)@.branches, branch_name@) is None,
            r matches Err(e) ==> Some(e@) == state_fault(old(self)@.branches, branch_name@)
                && final(self)@ == old(self)@,
            r matches Ok(meta) ==> {
                let now = BranchView {
                    state: BranchState::Open,
                    ..old(self)@.branches[branch_name@]
                };
                final(self)@ == old(self)@.with(branch_name@, now) && meta@ == now.metadata()
            },
    {
        self.set_branch_state(branch_name, BranchState::Open)
    }

    /// Counts a change that every mount must notice, once it is stored, and tells what the kernel
    /// must drop for these branches.
    pub fn announce(&mut self, branch_names: &Vec<String>) -> (r: Vec<Invalidation>)
        requires
            old(self).wf(),
        ensures
            final(self).wf(),
            final(self)@ == (ManagerView { epoch: next(old(self)@.epoch), ..old(self)@ }),
            final(self).branches == old(self).branches,
            forall|n: Invalidation| #[trigger]
                r@.contains(n) <==> old(self)@.told(Some(texts(branch_names@).to_set()), n),
            root_first(r@),
    {
        self.epoch = next_of(self.epoch);
        let ghost now = self@;
        let r = self.invalidate_branches(branch_names);
        proof {
            assert forall|n: Invalidation| #[trigger] r@.contains(n) <==> old(self)@.told(
                Some(texts(branch_names@).to_set()),
                n,
            ) by {
                let names = Some(texts(branch_names@).to_set());
                lemma_told_same(now, old(self)@, names, n);
            }
        }
        r
    }

    /// Counts a change that every mount must notice, once it is stored, and tells what the kernel
    /// must drop for all mounts.
    pub fn announce_to_all(&mut self) -> (r: Vec<Invalidation>)
        requires
            old(self).wf(),
        ensures
            final(self).wf(),
            final(self)@ == (ManagerView { epoch: next(old(self)@.epoch), ..old(self)@ }),
            final(self).branches == old(self).branches,
            forall|n: Invalidation| #[trigger] r@.contains(n) <==> old(self)@.told(None, n),
            root_first(r@),
    {
        self.epoch = next_of(self.epoch);
        let ghost now = self@;
        let r = self.invalidate_all_mounts();
        proof {
            assert forall|n: Invalidation| #[trigger] r@.contains(n) <==> old(self)@.told(
                None,
                n,
            ) by {
                lemma_told_same(now, old(self)@, None, n);
            }
        }
        r
    }

    /// What a branch is and what it changed; `tree` is its delta directory as it was read.
    pub fn branch_status(&self, branch_name: &str, tree: &Vec<DirEntry>) -> (r: Result<
        BranchStatus,
        BranchError,
    >)
        requires
            self.wf(),
        ensures
            r is Ok <==> self@.branches.dom().contains(branch_name@),
            r matches Err(e) ==> e@ == ErrorView::NotFound(branch_name@),
            r matches Ok(s) ==> {
                let b = self@.branches[branch_name@];
                let deltas = list_diff(tree@, seq![]);
                let deletes = delete_entries(texts(self.branches@[branch_name@].tombstones@));
                &&& s.name@ == b.name
                &&& opt_text(s.parent) == b.parent
                &&& s.inheritance == b.inheritance
                &&& s.state == b.state
                &&& s.parent_version_at_fork == b.parent_version_at_fork
                &&& s.commit_count == b.commit_count
                &&& s.delta_entries == deltas.len()
                &&& s.tombstones == deletes.len()
                &&& sorted_diff(diff_views(s.diff@))
                &&& diff_views(s.diff@).to_multiset() == (deltas + deletes).to_multiset()
            },
    {
        match self.branches.get(branch_name) {
            None => Err(BranchError::NotFound(branch_name.to_owned())),
            Some(branch) => {
                let mut diff: Vec<DiffEntry> = Vec::new();
                let empty = String::new();
                proof {
                    assert(diff_views(diff@) =~= seq![]);
                    assert(empty@ =~= seq![]);
                }
                collect_delta_diff(tree, empty.as_str(), &mut diff);
                let ghost deltas = list_diff(tree@, seq![]);
                proof {
                    assert(diff_views(diff@) =~= deltas);
                }
                let delta_entries = diff.len();
                let ghost paths = texts(branch.tombstones@);
                let ghost deletes = delete_entries(paths);
                let mut i: usize = 0;
                while i < branch.tombstones.len()
                    invariant
                        i <= branch.tombstones@.len(),
                        paths == texts(branch.tombstones@),
                        deletes == delete_entries(paths),
                        diff_views(diff@) == deltas + deletes.take(i as int),
                    decreases branch.tombstones@.len() - i,
                {
                    let ghost done = diff_views(diff@);
                    diff.push(
                        DiffEntry {
                            op: "delete".to_owned(),
                            path: branch.tombstones[i].clone(),
                            kind: "tombstone".to_owned(),
                            bytes: 0,
                        },
                    );
                    proof {
                        assert(diff_views(diff@) =~= done.push(deletes[i as int]));
                        assert(deletes.take(i + 1) =~= deletes.take(i as int).push(
                            deletes[i as int],
                        ));
                        assert(diff_views(diff@) =~= deltas + deletes.take(i + 1));
                    }
                    i = i + 1;
                }
                proof {
                    assert(deletes.take(i as int) =~= deletes);
                }
                let parent = match &branch.parent {
                    Some(p) => Some(p.clone()),
                    None => None,
                };
                Ok(
                    BranchStatus {
                        name: branch.name.clone(),
                        parent,
                        inheritance: branch.inheritance,
                        state: branch.state(),
                        parent_version_at_fork: branch.parent_version_at_fork,
                        commit_count: branch.commit_count,
                        delta_entries,
                        tombstones: branch.tombstones.len(),
                        diff: sort_diff(diff),
                    },
                )
            },
        }
    }

    /// Returns true if no other branch has `name` as its parent.
    pub fn is_leaf(&self, name: &str) -> (r: bool)
        requires
            self.wf(),
        ensures
            r == leaf(self@.branches, name@),
    {
        let ghost m = self@.branches;
        let ghost rows = self.branches.rows@;
        proof {
            lemma_rows(self.branches);
        }
        let mut i: usize = 0;
        while i < self.branches.rows.len()
            invariant
                i <= self.branches.rows@.len(),
                m == self@.branches,
                rows == self.branches.rows@,
                forall|j: int|
                    0 <= j < rows.len() ==> self.branches@.dom().contains((#[trigger] rows[j]).0@)
                        && self.branches@[rows[j].0@] == rows[j].1,
                forall|j: int| 0 <= j < i ==> (#[trigger] rows[j]).1@.parent != Some(name@),
            decreases self.branches.rows@.len() - i,
        {
            if let Some(p) = &self.branches.rows[i].1.parent {
                if same(p.as_str(), name) {
                    proof {
                        assert(m.dom().contains(rows[i as int].0@));
                    }
                    return false;
                }
            }
            i = i + 1;
        }
        proof {
            assert forall|k: Text| #[trigger] m.dom().contains(k) implies m[k].parent != Some(
                name@,
            ) by {
                assert(self.branches@.dom().contains(k));
                let j = choose|j: int| 0 <= j < rows.len() && (#[trigger] rows[j]).0@ == k;
                assert(rows[j].1@.parent != Some(name@));
            }
        }
        true
    }

    /// The parent of a branch that can be ended.
    pub fn ending(&self, branch_name: &str) -> (r: Result<String, BranchError>)
        requires
            self.wf(),
        ensures
            r is Ok <==> end_fault(self@.branches, branch_name@) is None,
            r matches Err(e) ==> Some(e@) == end_fault(self@.branches, branch_name@),
            r matches Ok(p) ==> Some(p@) == self@.branches[branch_name@].parent,
    {
        if same(branch_name, "main") {
            return Err(BranchError::CannotOperateOnMain);
        }
        match self.branches.get(branch_name) {
            None => Err(BranchError::NotFound(branch_name.to_owned())),
            Some(branch) => {
                if !self.is_leaf(branch_name) {
                    return Err(BranchError::NotALeaf(branch_name.to_owned()));
                }
                match &branch.parent {
                    Some(p) => Ok(p.clone()),
                    None => Err(BranchError::NotFound(branch_name.to_owned())),
                }
            },
        }
    }

    /// Takes a branch other than main out of the store.
    pub fn drop_branch(&mut self, branch_name: &str)
        requires
            old(self).wf(),
            branch_name@ != "main"@,
        ensures
            final(self).wf(),
            final(self)@ == (ManagerView {
                branches: old(self)@.branches.remove(branch_name@),
                ..old(self)@
            }),
            final(self).branches@ == old(self).branches@.remove(branch_name@),
    {
        let ghost before = self.branches@;
        let _ = self.branches.take(branch_name);
        proof {
            assert(forest(before.remove(branch_name@)) =~= forest(before).remove(branch_name@));
        }
    }

    /// Abort a leaf branch, discarding only that branch, whose delta holds `freed` bytes. Returns
    /// the parent branch name, and what the kernel must drop once the directory of the branch is
    /// removed.
    pub fn abort(&mut self, branch_name: &str, freed: u64) -> (r: Result<
        (String, Vec<Invalidation>),
        BranchError,
    >)
        requires
            old(self).wf(),
        ensures
            final(self).wf(),
            r is Ok <==> end_fault(old(self)@.branches, branch_name@) is None,
            r matches Err(e) ==> Some(e@) == end_fault(old(self)@.branches, branch_name@)
                && final(self)@ == old(self)@,
            r matches Ok((parent, told)) ==> {
                &&& Some(parent@) == old(self)@.branches[branch_name@].parent
                &&& final(self)@ == old(self)@.aborted(branch_name@, freed)
                &&& forall|n: Invalidation| #[trigger]
                    told@.contains(n) <==> old(self)@.told(Some(set![branch_name@]), n)
                &&& root_first(told@)
            },
    {
        let parent = match self.ending(branch_name) {
            Ok(p) => p,
            Err(e) => {
                return Err(e);
            },
        };
        self.drop_branch(branch_name);
        self.quota.sub(freed);
        let mut names: Vec<String> = Vec::new();
        names.push(branch_name.to_owned());
        proof {
            assert(texts(names@) =~= seq![branch_name@]);
            assert(texts(names@).to_set() =~= set![branch_name@]) by {
                assert(seq![branch_name@][0] == branch_name@);
            }
        }
        let told = self.invalidate_branches(&names);
        proof {
            let names = Some(set![branch_name@]);
            assert forall|n: Invalidation| #[trigger] told@.contains(n) <==> old(self)@.told(
                names,
                n,
            ) by {
                lemma_told_same(self@, old(self)@, names, n);
            }
        }
        Ok((parent, told))
    }
}

/// What the kernel is told of depends on the notifiers and the opened inodes alone.
pub proof fn lemma_told_same(
    a: ManagerView,
    b: ManagerView,
    names: Option<Set<Text>>,
    n: Invalidation,
)
    requires
        a.notifiers == b.notifiers,
        a.opened == b.opened,
    ensures
        a.told(names, n) == b.told(names, n),
{
    if a.told(names, n) {
        let key = choose|key: (Text, Text)| #[trigger] a.tells_of(names, key, n);
        assert(b.tells_of(names, key, n));
    }
    if b.told(names, n) {
        let key = choose|key: (Text, Text)| #[trigger] b.tells_of(names, key, n);
        assert(a.tells_of(names, key, n));
    }
}

/// A branch can be ended exactly if it exists, is not main, has a parent, and no branch has it as
/// its parent.
pub proof fn law_only_leaves_end(m: Forest, name: Text)
    ensures
        end_fault(m, name) is None <==> {
            &&& m.dom().contains(name)
            &&& name != "main"@
            &&& m[name].parent is Some
            &&& forall|k: Text| #[trigger] m.dom().contains(k) ==> m[k].parent != Some(name)
        },
        name == "main"@ ==> end_fault(m, name) == Some(ErrorView::CannotOperateOnMain),
        name != "main"@ && !m.dom().contains(name) ==> end_fault(m, name) == Some(
            ErrorView::NotFound(name),
        ),
        name != "main"@ && m.dom().contains(name) && !leaf(m, name) ==> end_fault(m, name) == Some(
            ErrorView::NotALeaf(name),
        ),
{
}

/// An abort takes the branch away and frees what its delta held. Every other branch, every mount
/// and what was opened stay as they are, and no branch loses its parent.
pub proof fn law_abort_takes_one_branch(mv: ManagerView, name: Text, freed: u64)
    requires
        end_fault(mv.branches, name) is None,
    ensures
        ({
            let after = mv.aborted(name, freed);
            &&& !after.branches.dom().contains(name)
            &&& forall|k: Text|
                k != name ==> #[trigger] after.branches.dom().contains(k)
                    == mv.branches.dom().contains(k) && (mv.branches.dom().contains(k)
                    ==> after.branches[k] == mv.branches[k])
            &&& forall|k: Text| #[trigger]
                after.branches.dom().contains(k) && after.branches[k].parent is Some
                    && mv.branches.dom().contains(after.branches[k].parent->0)
                    ==> after.branches.dom().contains(after.branches[k].parent->0)
            &&& mv.quota.used - freed >= i64::MIN && mv.quota.used <= i64::MAX ==> after.quota.used
                == mv.quota.used - freed
            &&& after.mounts == mv.mounts && after.notifiers == mv.notifiers && after.opened
                == mv.opened
        }),
{
    assert(leaf(mv.branches, name));
}

/// The status of a branch lists a deletion as such, by its path.
pub proof fn law_status_lists_deletions(paths: Seq<Text>, i: int)
    requires
        0 <= i < paths.len(),
    ensures
        delete_entries(paths).len() == paths.len(),
        delete_entries(paths)[i] == (DiffView {
            op: "delete"@,
            path: paths[i],
            kind: "tombstone"@,
            bytes: 0,
        }),
{
}

} // verus!
