//! The branches of a store, the mounts that show them, and what the kernel must be told.

use vstd::prelude::*;
use vstd::string::*;

use crate::branch::{normalized_all, Branch, BranchMetadata, BranchView, StoredState};
use crate::errors::{BranchError, ErrorView};
use crate::lookup::Forest;
use crate::names::{name_fault, validate_branch_name};
use crate::quota::{QuotaView, StorageQuota};
use crate::records::{BranchState, InheritanceMode, TouchView};
use crate::table::{lemma_rows, Table};
use crate::text::{list_has, opt_text, texts, Text};

verus! {

/// The inode number of the root of a mount.
pub const ROOT_INO: u64 = 1;

/// A cached inode that the kernel is told to drop, through the notifier of one mount.
#[derive(Clone, Copy, Debug, PartialEq, Eq, Structural)]
pub struct Invalidation {
    pub notifier: u64,
    pub ino: u64,
}

/// The branches of a store, the mounts that show them, and the storage they use.
///
/// A notifier is known by a number that the owner of the mounts gives out.
pub struct BranchManager {
    pub branches: Table<Branch>,
    pub epoch: u64,
    /// Current branch per mount: the single source of truth.
    pub mounts: Table<String>,
    /// Notifiers for invalidating the kernel cache, by branch and then by mountpoint.
    pub notifiers: Table<Table<u64>>,
    /// Opened file inodes per branch, for cache invalidation.
    pub opened: Table<Vec<u64>>,
    /// Storage quota enforcement.
    pub quota: StorageQuota,
}

pub struct ManagerView {
    pub branches: Forest,
    pub epoch: u64,
    pub mounts: Map<Text, Text>,
    pub notifiers: Map<(Text, Text), u64>,
    pub opened: Map<Text, Set<u64>>,
    pub quota: QuotaView,
}

/// What the branches of a table are.
pub open spec fn forest(m: Map<Text, Branch>) -> Forest {
    m.map_values(|b: Branch| b@)
}

pub open spec fn notifier_map(n: Map<Text, Table<u64>>) -> Map<(Text, Text), u64> {
    Map::new(
        |k: (Text, Text)| n.dom().contains(k.0) && n[k.0]@.dom().contains(k.1),
        |k: (Text, Text)| n[k.0]@[k.1],
    )
}

impl View for BranchManager {
    type V = ManagerView;

    open spec fn view(&self) -> ManagerView {
        ManagerView {
            branches: forest(self.branches@),
            epoch: self.epoch,
            mounts: self.mounts@.map_values(|s: String| s@),
            notifiers: notifier_map(self.notifiers@),
            opened: self.opened@.map_values(|v: Vec<u64>| v@.to_set()),
            quota: self.quota@,
        }
    }
}

/// Whether each branch of a table is well formed and stands under the name of its directory.
pub open spec fn sound(m: Map<Text, Branch>) -> bool {
    forall|k: Text| #[trigger] m.dom().contains(k) ==> m[k].wf() && m[k].dir@ == k
}

pub open spec fn notifiers_sound(n: Map<Text, Table<u64>>) -> bool {
    forall|k: Text| #[trigger] n.dom().contains(k) ==> n[k].wf()
}

/// What a fresh main branch is.
pub open spec fn fresh_main(tombs: Set<Text>, touches: Map<Text, TouchView>) -> BranchView {
    BranchView {
        name: "main"@,
        dir: "main"@,
        parent: None,
        inheritance: InheritanceMode::Lazy,
        state: BranchState::Open,
        tombs,
        touches,
        commit_count: 0,
        parent_version_at_fork: 0,
        hide: seq![],
    }
}

/// Why a branch cannot be created, or `None` if it can.
pub open spec fn create_fault(m: Forest, name: Text, parent: Text) -> Option<ErrorView> {
    match name_fault(name) {
        Some(text) => Some(ErrorView::Invalid(text)),
        None => if m.dom().contains(name) {
            Some(ErrorView::AlreadyExists(name))
        } else if !m.dom().contains(parent) {
            Some(ErrorView::ParentNotFound(parent))
        } else {
            None
        },
    }
}

/// What a new branch is: open, on top of its parent's present version.
pub open spec fn forked(
    m: Forest,
    name: Text,
    parent: Text,
    inheritance: InheritanceMode,
    hide: Seq<Text>,
    tombs: Set<Text>,
    touches: Map<Text, TouchView>,
) -> BranchView {
    BranchView {
        name,
        dir: name,
        parent: Some(parent),
        inheritance,
        state: BranchState::Open,
        tombs,
        touches,
        commit_count: 0,
        parent_version_at_fork: m[parent].commit_count,
        hide: normalized_all(hide),
    }
}

/// The number after `n`, in 64 bits.
pub open spec fn next(n: u64) -> u64 {
    if n == u64::MAX {
        0
    } else {
        (n + 1) as u64
    }
}

pub fn next_of(n: u64) -> (r: u64)
    ensures
        r == next(n),
{
    if n == u64::MAX {
        0
    } else {
        n + 1
    }
}

impl BranchManager {
    pub open spec fn wf(self) -> bool {
        &&& self.branches.wf()
        &&& sound(self.branches@)
        &&& self.branches@.dom().contains("main"@)
        &&& self.mounts.wf()
        &&& self.notifiers.wf()
        &&& notifiers_sound(self.notifiers@)
        &&& self.opened.wf()
    }

    /// The manager of a store that holds these branches. A store without a main branch gets one;
    /// the result then is its metadata, which is to be written.
    pub fn new(loaded: Table<Branch>, main_stored: StoredState, quota: StorageQuota) -> (r: (
        BranchManager,
        Option<BranchMetadata>,
    ))
        requires
            loaded.wf(),
            sound(loaded@),
            main_stored.touches.wf(),
        ensures
            r.0.wf(),
            r.0@ == (ManagerView {
                branches: if loaded@.dom().contains("main"@) {
                    forest(loaded@)
                } else {
                    forest(loaded@).insert(
                        "main"@,
                        fresh_main(main_stored.tombs(), main_stored.first_touches()),
                    )
                },
                epoch: 0,
                mounts: Map::empty(),
                notifiers: Map::empty(),
                opened: Map::empty(),
                quota: quota@,
            }),
            r.1 is Some <==> !loaded@.dom().contains("main"@),
            r.1 matches Some(meta) ==> meta@ == fresh_main(
                main_stored.tombs(),
                main_stored.first_touches(),
            ).metadata(),
    {
        let mut branches = loaded;
        let mut metadata: Option<BranchMetadata> = None;
        if !branches.has("main") {
            let none: Vec<String> = Vec::new();
            proof {
                assert(texts(none@) =~= seq![]);
            }
            let main_branch = Branch::new(
                "main",
                None,
                0,
                InheritanceMode::Lazy,
                none,
                main_stored,
            );
            metadata = Some(main_branch.write_metadata());
            let _ = branches.put("main", main_branch);
        }
        let r = BranchManager {
            branches,
            epoch: 0,
            mounts: Table::new(),
            notifiers: Table::new(),
            opened: Table::new(),
            quota,
        };
        proof {
            let all = r@;
            if loaded@.dom().contains("main"@) {
                assert(all.branches =~= forest(loaded@));
            } else {
                assert(all.branches =~= forest(loaded@).insert(
                    "main"@,
                    fresh_main(main_stored.tombs(), main_stored.first_touches()),
                ));
            }
            assert(all.mounts =~= Map::<Text, Text>::empty());
            assert(all.notifiers =~= Map::<(Text, Text), u64>::empty());
            assert(all.opened =~= Map::<Text, Set<u64>>::empty());
        }
        (r, metadata)
    }

    /// Register a mount's initial branch.
    pub fn set_mount_branch(&mut self, mountpoint: &str, branch: &str)
        requires
            old(self).wf(),
        ensures
            final(self).wf(),
            final(self)@ == (ManagerView {
                mounts: old(self)@.mounts.insert(mountpoint@, branch@),
                ..old(self)@
            }),
    {
        let ghost before = self@.mounts;
        let _ = self.mounts.put(mountpoint, branch.to_owned());
        proof {
            assert(self@.mounts =~= before.insert(mountpoint@, branch@));
        }
    }

    /// Read the current branch for a mount.
    pub fn get_mount_branch(&self, mountpoint: &str) -> (r: Option<String>)
        requires
            self.wf(),
        ensures
            r is Some <==> self@.mounts.dom().contains(mountpoint@),
            r matches Some(b) ==> b@ == self@.mounts[mountpoint@],
    {
        match self.mounts.get(mountpoint) {
            Some(b) => Some(b.clone()),
            None => None,
        }
    }

    /// Takes the notifier of a mount out.
    fn take_notifier(&mut self, branch: &str, mountpoint: &str) -> (r: Option<u64>)
        requires
            old(self).wf(),
        ensures
            final(self).wf(),
            final(self)@ == (ManagerView {
                notifiers: old(self)@.notifiers.remove((branch@, mountpoint@)),
                ..old(self)@
            }),
            r is Some <==> old(self)@.notifiers.dom().contains((branch@, mountpoint@)),
            r matches Some(n) ==> n == old(self)@.notifiers[(branch@, mountpoint@)],
    {
        let ghost before = self@;
        match self.notifiers.take(branch) {
            Some(inner) => {
                let mut inner = inner;
                let taken = inner.take(mountpoint);
                let _ = self.notifiers.put(branch, inner);
                proof {
                    assert(self@.notifiers =~= before.notifiers.remove((branch@, mountpoint@)));
                }
                taken
            },
            None => {
                proof {
                    assert(self@.notifiers =~= before.notifiers.remove((branch@, mountpoint@)));
                }
                None
            },
        }
    }

    fn put_notifier(&mut self, branch: &str, mountpoint: &str, notifier: u64)
        requires
            old(self).wf(),
        ensures
            final(self).wf(),
            final(self)@ == (ManagerView {
                notifiers: old(self)@.notifiers.insert((branch@, mountpoint@), notifier),
                ..old(self)@
            }),
    {
        let ghost before = self@;
        let mut inner = match self.notifiers.take(branch) {
            Some(t) => t,
            None => Table::new(),
        };
        let _ = inner.put(mountpoint, notifier);
        let _ = self.notifiers.put(branch, inner);
        proof {
            assert(self@.notifiers =~= before.notifiers.insert((branch@, mountpoint@), notifier));
        }
    }

    /// Switch a mount's branch, re-keying its notifier.
    pub fn switch_mount_branch(&mut self, mountpoint: &str, new_branch: &str)
        requires
            old(self).wf(),
        ensures
            final(self).wf(),
            final(self)@ == old(self)@.switched(mountpoint@, new_branch@),
    {
        let ghost before = self@;
        let had = self.mounts.put(mountpoint, new_branch.to_owned());
        proof {
            assert(self@.mounts =~= before.mounts.insert(mountpoint@, new_branch@));
        }
        if let Some(old_branch) = had {
            match self.take_notifier(old_branch.as_str(), mountpoint) {
                Some(notifier) => {
                    self.put_notifier(new_branch, mountpoint, notifier);
                },
                None => {
                    proof {
                        assert(self@.notifiers =~= before.notifiers);
                    }
                },
            }
        }
    }

    /// Remove a mount's branch tracking and notifier.
    pub fn unregister_mount(&mut self, mountpoint: &str)
        requires
            old(self).wf(),
        ensures
            final(self).wf(),
            final(self)@ == old(self)@.unmounted(mountpoint@),
    {
        let ghost before = self@;
        let had = self.mounts.take(mountpoint);
        proof {
            assert(self@.mounts =~= before.mounts.remove(mountpoint@));
        }
        if let Some(old_branch) = had {
            let _ = self.take_notifier(old_branch.as_str(), mountpoint);
        } else {
            proof {
                assert(before.mounts.remove(mountpoint@) =~= before.mounts);
            }
        }
    }

    /// Checks that a branch can be created, and makes it, without adding it to the store.
    pub fn prepare_branch(
        &self,
        name: &str,
        parent: &str,
        inheritance: InheritanceMode,
        hide_paths: Vec<String>,
        stored: StoredState,
    ) -> (r: Result<Branch, BranchError>)
        requires
            self.wf(),
            stored.touches.wf(),
        ensures
            r is Ok <==> create_fault(self@.branches, name@, parent@) is None,
            r matches Err(e) ==> Some(e@) == create_fault(self@.branches, name@, parent@),
            r matches Ok(b) ==> b.wf() && b@ == forked(
                self@.branches,
                name@,
                parent@,
                inheritance,
                texts(hide_paths@),
                stored.tombs(),
                stored.first_touches(),
            ),
    {
        match validate_branch_name(name) {
            Err(e) => {
                return Err(e);
            },
            Ok(()) => {},
        }
        if self.branches.has(name) {
            return Err(BranchError::AlreadyExists(name.to_owned()));
        }
        match self.branches.get(parent) {
            None => Err(BranchError::ParentNotFound(parent.to_owned())),
            Some(parent_branch) => {
                let version = parent_branch.commit_count;
                Ok(Branch::new(name, Some(parent), version, inheritance, hide_paths, stored))
            },
        }
    }

    /// Adds a prepared branch to the store.
    pub fn add_branch(&mut self, branch: Branch)
        requires
            old(self).wf(),
            branch.wf(),
        ensures
            final(self).wf(),
            final(self)@ == (ManagerView {
                branches: old(self)@.branches.insert(branch@.dir, branch@),
                epoch: next(old(self)@.epoch),
                ..old(self)@
            }),
    {
        let ghost before = self@;
        let ghost added = branch@;
        let dir = branch.dir.clone();
        let _ = self.branches.put(dir.as_str(), branch);
        self.epoch = next_of(self.epoch);
        proof {
            assert(self@.branches =~= before.branches.insert(added.dir, added));
        }
    }

    pub fn create_branch(&mut self, name: &str, parent: &str, stored: StoredState) -> (r: Result<
        (),
        BranchError,
    >)
        requires
            old(self).wf(),
            stored.touches.wf(),
        ensures
            final(self).wf(),
            r is Ok <==> create_fault(old(self)@.branches, name@, parent@) is None,
            r matches Err(e) ==> Some(e@) == create_fault(old(self)@.branches, name@, parent@)
                && final(self)@ == old(self)@,
            r is Ok ==> final(self)@ == old(self)@.grown(
                forked(
                    old(self)@.branches,
                    name@,
                    parent@,
                    InheritanceMode::Lazy,
                    seq![],
                    stored.tombs(),
                    stored.first_touches(),
                ),
            ),
    {
        self.create_branch_with_mode(name, parent, InheritanceMode::Lazy, stored)
    }

    pub fn create_branch_with_mode(
        &mut self,
        name: &str,
        parent: &str,
        inheritance: InheritanceMode,
        stored: StoredState,
    ) -> (r: Result<(), BranchError>)
        requires
            old(self).wf(),
            stored.touches.wf(),
        ensures
            final(self).wf(),
            r is Ok <==> create_fault(old(self)@.branches, name@, parent@) is None,
            r matches Err(e) ==> Some(e@) == create_fault(old(self)@.branches, name@, parent@)
                && final(self)@ == old(self)@,
            r is Ok ==> final(self)@ == old(self)@.grown(
                forked(
                    old(self)@.branches,
                    name@,
                    parent@,
                    inheritance,
                    seq![],
                    stored.tombs(),
                    stored.first_touches(),
                ),
            ),
    {
        let none: Vec<String> = Vec::new();
        proof {
            assert(texts(none@) =~= seq![]);
        }
        self.create_branch_with_options(name, parent, inheritance, none, stored)
    }

    /// Creates a branch whose directory in the store holds `stored`.
    pub fn create_branch_with_options(
        &mut self,
        name: &str,
        parent: &str,
        inheritance: InheritanceMode,
        hide_paths: Vec<String>,
        stored: StoredState,
    ) -> (r: Result<(), BranchError>)
        requires
            old(self).wf(),
            stored.touches.wf(),
        ensures
            final(self).wf(),
            r is Ok <==> create_fault(old(self)@.branches, name@, parent@) is None,
            r matches Err(e) ==> Some(e@) == create_fault(old(self)@.branches, name@, parent@)
                && final(self)@ == old(self)@,
            r is Ok ==> final(self)@ == old(self)@.grown(
                forked(
                    old(self)@.branches,
                    name@,
                    parent@,
                    inheritance,
                    texts(hide_paths@),
                    stored.tombs(),
                    stored.first_touches(),
                ),
            ),
    {
        match self.prepare_branch(name, parent, inheritance, hide_paths, stored) {
            Err(e) => Err(e),
            Ok(branch) => {
                self.add_branch(branch);
                Ok(())
            },
        }
    }

    /// Branches are not handed out; they are reached through `with_branch`.
    pub fn get_branch(&self, _name: &str) -> (r: Option<&Branch>)
        ensures
            r is None,
    {
        None
    }

    /// Runs `f` on a branch.
    pub fn with_branch<F, R>(&self, name: &str, f: F) -> (r: Result<R, BranchError>) where
        F: FnOnce(&Branch) -> Result<R, BranchError>,

        requires
            self.wf(),
            self.branches@.dom().contains(name@) ==> call_requires(f, (&self.branches@[name@],)),
        ensures
            self.branches@.dom().contains(name@) ==> call_ensures(
                f,
                (&self.branches@[name@],),
                r,
            ),
            !self.branches@.dom().contains(name@) ==> (r matches Err(e) && e@
                == ErrorView::NotFound(name@)),
    {
        match self.branches.get(name) {
            Some(branch) => f(branch),
            None => Err(BranchError::NotFound(name.to_owned())),
        }
    }

    pub fn get_epoch(&self) -> (r: u64)
        ensures
            r == self@.epoch,
    {
        self.epoch
    }

    pub fn is_branch_valid(&self, name: &str) -> (r: bool)
        requires
            self.wf(),
        ensures
            r == self@.branches.dom().contains(name@),
    {
        self.branches.has(name)
    }

    /// Every branch with its parent, each once.
    pub fn list_branches(&self) -> (r: Vec<(String, Option<String>)>)
        requires
            self.wf(),
        ensures
            forall|i: int|
                0 <= i < r@.len() ==> self@.branches.dom().contains((#[trigger] r@[i]).0@)
                    && opt_text(r@[i].1) == self@.branches[r@[i].0@].parent,
            forall|k: Text| #[trigger]
                self@.branches.dom().contains(k) ==> exists|i: int|
                    0 <= i < r@.len() && (#[trigger] r@[i]).0@ == k,
            forall|i: int, j: int|
                0 <= i < j < r@.len() ==> (#[trigger] r@[i]).0@ != (#[trigger] r@[j]).0@,
    {
        let mut out: Vec<(String, Option<String>)> = Vec::new();
        let mut i: usize = 0;
        while i < self.branches.rows.len()
            invariant
                i <= self.branches.rows@.len(),
                out@.len() == i,
                forall|j: int|
                    0 <= j < i ==> (#[trigger] out@[j]).0@ == self.branches.rows@[j].0@ && opt_text(
                        out@[j].1,
                    ) == opt_text(self.branches.rows@[j].1.parent),
            decreases self.branches.rows@.len() - i,
        {
            let parent = match &self.branches.rows[i].1.parent {
                Some(p) => Some(p.clone()),
                None => None,
            };
            out.push((self.branches.rows[i].0.clone(), parent));
            i = i + 1;
        }
        proof {
            lemma_rows(self.branches);
            let rows = self.branches.rows@;
            assert forall|j: int| 0 <= j < out@.len() implies self@.branches.dom().contains(
                (#[trigger] out@[j]).0@,
            ) && opt_text(out@[j].1) == self@.branches[out@[j].0@].parent by {
                assert(self.branches@.dom().contains(rows[j].0@));
            }
            assert forall|k: Text| #[trigger] self@.branches.dom().contains(k) implies exists|j: int|
                0 <= j < out@.len() && (#[trigger] out@[j]).0@ == k by {
                assert(self.branches@.dom().contains(k));
                let j = choose|j: int| 0 <= j < rows.len() && (#[trigger] rows[j]).0@ == k;
                assert(out@[j].0@ == k);
            }
            assert forall|a: int, b: int| 0 <= a < b < out@.len() implies (#[trigger] out@[a]).0@ != (
            #[trigger] out@[b]).0@ by {
                let keys = crate::table::keys_of(rows);
                assert(keys[a] != keys[b]);
            }
        }
        out
    }

    /// Register a notifier for a mounted branch.
    pub fn register_notifier(&mut self, branch_name: &str, mountpoint: &str, notifier: u64)
        requires
            old(self).wf(),
        ensures
            final(self).wf(),
            final(self)@ == (ManagerView {
                notifiers: old(self)@.notifiers.insert((branch_name@, mountpoint@), notifier),
                ..old(self)@
            }),
    {
        self.put_notifier(branch_name, mountpoint, notifier);
    }

    /// Unregister a notifier when unmounting.
    pub fn unregister_notifier(&mut self, branch_name: &str, mountpoint: &str)
        requires
            old(self).wf(),
        ensures
            final(self).wf(),
            final(self)@ == (ManagerView {
                notifiers: old(self)@.notifiers.remove((branch_name@, mountpoint@)),
                ..old(self)@
            }),
    {
        let _ = self.take_notifier(branch_name, mountpoint);
    }

    /// Register an opened file inode for cache invalidation tracking.
    pub fn register_opened_inode(&mut self, branch_name: &str, ino: u64)
        requires
            old(self).wf(),
        ensures
            final(self).wf(),
            final(self)@ == old(self)@.with_opened(branch_name@, ino),
    {
        let ghost before = self@;
        let mut inodes = match self.opened.take(branch_name) {
            Some(v) => v,
            None => Vec::new(),
        };
        let ghost was = inodes@;
        inodes.push(ino);
        let ghost now = inodes@;
        let _ = self.opened.put(branch_name, inodes);
        proof {
            assert forall|x: u64| #[trigger] now.to_set().contains(x) == (was.to_set().contains(x)
                || x == ino) by {
                if was.contains(x) {
                    let j = choose|j: int| 0 <= j < was.len() && was[j] == x;
                    assert(now[j] == x);
                }
                if x == ino {
                    assert(now[was.len() as int] == x);
                }
            }
            assert(now.to_set() =~= was.to_set().insert(ino));
            if !before.opened.dom().contains(branch_name@) {
                assert(was.to_set() =~= Set::empty());
            }
            assert(self@.opened =~= before.with_opened(branch_name@, ino).opened);
        }
    }
}

/// Whether `names` asks for a branch; without names every branch is asked for.
pub open spec fn asked(names: Option<Set<Text>>, branch: Text) -> bool {
    match names {
        Some(s) => s.contains(branch),
        None => true,
    }
}

/// Whether each notifier is told of the root, which holds the directory cache, before anything
/// else.
pub open spec fn root_first(r: Seq<Invalidation>) -> bool {
    forall|i: int|
        0 <= i < r.len() && (#[trigger] r[i]).ino != ROOT_INO ==> exists|j: int|
            0 <= j < i && (#[trigger] r[j]).notifier == r[i].notifier && r[j].ino == ROOT_INO
}

/// Adds what one notifier is told of.
fn tell(out: &mut Vec<Invalidation>, notifier: u64, inodes: Option<&Vec<u64>>)
    requires
        root_first(old(out)@),
    ensures
        root_first(final(out)@),
        forall|n: Invalidation| #[trigger]
            final(out)@.contains(n) <==> old(out)@.contains(n) || (n.notifier == notifier && (n.ino
                == ROOT_INO || (inodes matches Some(v) && v@.contains(n.ino)))),
{
    let ghost before = out@;
    out.push(Invalidation { notifier, ino: ROOT_INO });
    let ghost at = before.len() as int;
    proof {
        assert forall|i: int| 0 <= i < out@.len() && (#[trigger] out@[i]).ino != ROOT_INO implies exists|j: int|
            0 <= j < i && (#[trigger] out@[j]).notifier == out@[i].notifier && out@[j].ino
                == ROOT_INO by {
            assert(before[i] == out@[i]);
            let j = choose|j: int|
                0 <= j < i && (#[trigger] before[j]).notifier == before[i].notifier && before[j].ino
                    == ROOT_INO;
            assert(out@[j] == before[j]);
        }
        assert forall|n: Invalidation| #[trigger] out@.contains(n) <==> before.contains(n) || (
        n.notifier == notifier && n.ino == ROOT_INO) by {
            lemma_pushed(before, Invalidation { notifier, ino: ROOT_INO }, n);
        }
    }
    if let Some(v) = inodes {
        let mut k: usize = 0;
        while k < v.len()
            invariant
                k <= v@.len(),
                root_first(out@),
                0 <= at < out@.len(),
                out@[at] == (Invalidation { notifier, ino: ROOT_INO }),
                forall|n: Invalidation| #[trigger]
                    out@.contains(n) <==> before.contains(n) || (n.notifier == notifier && (n.ino
                        == ROOT_INO || v@.take(k as int).contains(n.ino))),
            decreases v@.len() - k,
        {
            let ino = v[k];
            let ghost mid = out@;
            proof {
                assert(v@.take(k + 1) =~= v@.take(k as int).push(ino));
                assert forall|x: u64| #[trigger] v@.take(k + 1).contains(x) == (v@.take(
                    k as int,
                ).contains(x) || x == ino) by {
                    lemma_pushed(v@.take(k as int), ino, x);
                }
            }
            if ino != ROOT_INO {
                let told = Invalidation { notifier, ino };
                out.push(told);
                proof {
                    assert forall|n: Invalidation| #[trigger] out@.contains(n) <==> mid.contains(n)
                        || n == told by {
                        lemma_pushed(mid, told, n);
                    }
                    assert forall|i: int|
                        0 <= i < out@.len() && (#[trigger] out@[i]).ino != ROOT_INO implies exists|j: int|
                        0 <= j < i && (#[trigger] out@[j]).notifier == out@[i].notifier && out@[j].ino
                            == ROOT_INO by {
                        if i < mid.len() {
                            assert(mid[i] == out@[i]);
                            let j = choose|j: int|
                                0 <= j < i && (#[trigger] mid[j]).notifier == mid[i].notifier
                                    && mid[j].ino == ROOT_INO;
                            assert(out@[j] == mid[j]);
                        } else {
                            assert(out@[at] == mid[at]);
                        }
                    }
                }
            }
            k = k + 1;
        }
        proof {
            assert(v@.take(k as int) =~= v@);
        }
    }
}

proof fn lemma_pushed<T>(s: Seq<T>, x: T, y: T)
    ensures
        s.push(x).contains(y) == (s.contains(y) || y == x),
{
    let t = s.push(x);
    if s.contains(y) {
        let i = choose|i: int| 0 <= i < s.len() && s[i] == y;
        assert(t[i] == y);
    }
    if y == x {
        assert(t[s.len() as int] == y);
    }
    if t.contains(y) && y != x {
        let i = choose|i: int| 0 <= i < t.len() && t[i] == y;
        assert(s[i] == y);
    }
}

impl BranchManager {
    /// Whether the notifier in row `j` of row `i` is told of `n`.
    spec fn tells(self, names: Option<Set<Text>>, i: int, j: int, n: Invalidation) -> bool {
        let branch = self.notifiers.rows@[i].0@;
        &&& 0 <= i < self.notifiers.rows@.len()
        &&& 0 <= j < self.notifiers.rows@[i].1.rows@.len()
        &&& asked(names, branch)
        &&& self.notifiers.rows@[i].1.rows@[j].1 == n.notifier
        &&& n.ino == ROOT_INO || (self.opened@.dom().contains(branch)
            && self.opened@[branch]@.contains(n.ino))
    }

    proof fn lemma_told(self, names: Option<Set<Text>>, n: Invalidation)
        requires
            self.wf(),
        ensures
            self@.told(names, n) <==> exists|i: int, j: int| #[trigger] self.tells(names, i, j, n),
    {
        lemma_rows(self.notifiers);
        let rows = self.notifiers.rows@;
        if exists|i: int, j: int| #[trigger] self.tells(names, i, j, n) {
            let (i, j) = choose|i: int, j: int| #[trigger] self.tells(names, i, j, n);
            let inner = rows[i].1;
            assert(self.notifiers@.dom().contains(rows[i].0@));
            lemma_rows(inner);
            let key = (rows[i].0@, inner.rows@[j].0@);
            assert(self@.notifiers.dom().contains(key));
            assert(self@.tells_of(names, key, n));
        }
        if self@.told(names, n) {
            let key = choose|key: (Text, Text)| #[trigger] self@.tells_of(names, key, n);
            assert(self.notifiers@.dom().contains(key.0));
            let i = choose|i: int| 0 <= i < rows.len() && (#[trigger] rows[i]).0@ == key.0;
            let inner = rows[i].1;
            assert(self.notifiers@[key.0] == inner);
            lemma_rows(inner);
            assert(inner@.dom().contains(key.1));
            let j = choose|j: int|
                0 <= j < inner.rows@.len() && (#[trigger] inner.rows@[j]).0@ == key.1;
            assert(self.tells(names, i, j, n));
        }
    }

    /// What the kernel is to be told so that it drops its cache for the branches in `names`, or
    /// for every mounted branch.
    fn invalidations(&self, names: Option<&Vec<String>>) -> (r: Vec<Invalidation>)
        requires
            self.wf(),
        ensures
            forall|n: Invalidation| #[trigger]
                r@.contains(n) <==> self@.told(name_set(names), n),
            root_first(r@),
    {
        let ghost wanted = name_set(names);
        let mut out: Vec<Invalidation> = Vec::new();
        let mut i: usize = 0;
        while i < self.notifiers.rows.len()
            invariant
                i <= self.notifiers.rows@.len(),
                self.wf(),
                wanted == name_set(names),
                root_first(out@),
                forall|n: Invalidation| #[trigger]
                    out@.contains(n) <==> exists|a: int, b: int|
                        a < i && #[trigger] self.tells(wanted, a, b, n),
            decreases self.notifiers.rows@.len() - i,
        {
            let branch = self.notifiers.rows[i].0.as_str();
            let ghost start = out@;
            let chosen = match names {
                Some(v) => list_has(v, branch),
                None => true,
            };
            if chosen {
                let mut j: usize = 0;
                while j < self.notifiers.rows[i as usize].1.rows.len()
                    invariant
                        i < self.notifiers.rows@.len(),
                        j <= self.notifiers.rows@[i as int].1.rows@.len(),
                        self.wf(),
                        branch@ == self.notifiers.rows@[i as int].0@,
                        asked(wanted, branch@),
                        root_first(out@),
                        forall|n: Invalidation| #[trigger]
                            start.contains(n) <==> exists|a: int, b: int|
                                a < i && #[trigger] self.tells(wanted, a, b, n),
                        forall|n: Invalidation| #[trigger]
                            out@.contains(n) <==> start.contains(n) || exists|b: int|
                                b < j && #[trigger] self.tells(wanted, i as int, b, n),
                    decreases self.notifiers.rows@[i as int].1.rows@.len() - j,
                {
                    let notifier = self.notifiers.rows[i].1.rows[j].1;
                    let ghost mid = out@;
                    let inodes = self.opened.get(branch);
                    tell(&mut out, notifier, inodes);
                    proof {
                        assert forall|n: Invalidation| #[trigger] out@.contains(n) <==> start.contains(
                            n,
                        ) || exists|b: int|
                            b < j + 1 && #[trigger] self.tells(wanted, i as int, b, n) by {
                            assert(out@.contains(n) <==> mid.contains(n) || self.tells(
                                wanted,
                                i as int,
                                j as int,
                                n,
                            ));
                            if exists|b: int|
                                b < j + 1 && #[trigger] self.tells(wanted, i as int, b, n) {
                                let b = choose|b: int|
                                    b < j + 1 && #[trigger] self.tells(wanted, i as int, b, n);
                                if b < j {
                                    assert(mid.contains(n));
                                }
                            }
                        }
                    }
                    j = j + 1;
                }
            }
            proof {
                assert forall|n: Invalidation| #[trigger] out@.contains(n) <==> exists|a: int, b: int|
                    a < i + 1 && #[trigger] self.tells(wanted, a, b, n) by {
                    if exists|a: int, b: int| a < i + 1 && #[trigger] self.tells(wanted, a, b, n) {
                        let (a, b) = choose|a: int, b: int|
                            a < i + 1 && #[trigger] self.tells(wanted, a, b, n);
                        if a < i {
                            assert(start.contains(n));
                        }
                    }
                    if out@.contains(n) && start.contains(n) {
                        let (a, b) = choose|a: int, b: int|
                            a < i && #[trigger] self.tells(wanted, a, b, n);
                        assert(self.tells(wanted, a, b, n));
                    }
                }
            }
            i = i + 1;
        }
        proof {
            assert forall|n: Invalidation| #[trigger] out@.contains(n) <==> self@.told(
                wanted,
                n,
            ) by {
                self.lemma_told(wanted, n);
                if exists|a: int, b: int| #[trigger] self.tells(wanted, a, b, n) {
                    let (a, b) = choose|a: int, b: int| #[trigger] self.tells(wanted, a, b, n);
                    assert(a < i && self.tells(wanted, a, b, n));
                }
            }
        }
        out
    }

    /// What the kernel is to be told so that it drops its cache for all mounts.
    pub fn invalidate_all_mounts(&self) -> (r: Vec<Invalidation>)
        requires
            self.wf(),
        ensures
            forall|n: Invalidation| #[trigger] r@.contains(n) <==> self@.told(None, n),
            root_first(r@),
    {
        self.invalidations(None)
    }

    /// What the kernel is to be told so that it drops its cache for specific branches.
    pub fn invalidate_branches(&self, branch_names: &Vec<String>) -> (r: Vec<Invalidation>)
        requires
            self.wf(),
        ensures
            forall|n: Invalidation| #[trigger]
                r@.contains(n) <==> self@.told(Some(texts(branch_names@).to_set()), n),
            root_first(r@),
    {
        self.invalidations(Some(branch_names))
    }
}

/// The branches that are asked for.
pub open spec fn name_set(names: Option<&Vec<String>>) -> Option<Set<Text>> {
    match names {
        Some(v) => Some(texts(v@).to_set()),
        None => None,
    }
}

impl ManagerView {
    /// Whether the notifier of a mount, if its branch is asked for, is told of `n`: of the root,
    /// and of each inode that was opened on the branch.
    pub open spec fn tells_of(
        self,
        names: Option<Set<Text>>,
        key: (Text, Text),
        n: Invalidation,
    ) -> bool {
        &&& self.notifiers.dom().contains(key)
        &&& asked(names, key.0)
        &&& self.notifiers[key] == n.notifier
        &&& n.ino == ROOT_INO || (self.opened.dom().contains(key.0) && self.opened[key.0].contains(
            n.ino,
        ))
    }

    /// Whether the kernel is told of `n` when the cache of the branches in `names`, or of all, is
    /// dropped.
    pub open spec fn told(self, names: Option<Set<Text>>, n: Invalidation) -> bool {
        exists|key: (Text, Text)| #[trigger] self.tells_of(names, key, n)
    }

    /// The state after a branch was added.
    pub open spec fn grown(self, b: BranchView) -> ManagerView {
        ManagerView {
            branches: self.branches.insert(b.dir, b),
            epoch: next(self.epoch),
            ..self
        }
    }

    /// The state after a mount shows another branch: its notifier goes with it.
    pub open spec fn switched(self, mountpoint: Text, branch: Text) -> ManagerView {
        let was = self.mounts[mountpoint];
        ManagerView {
            mounts: self.mounts.insert(mountpoint, branch),
            notifiers: if self.mounts.dom().contains(mountpoint) && self.notifiers.dom().contains(
                (was, mountpoint),
            ) {
                self.notifiers.remove((was, mountpoint)).insert(
                    (branch, mountpoint),
                    self.notifiers[(was, mountpoint)],
                )
            } else {
                self.notifiers
            },
            ..self
        }
    }

    /// The state after a mount is gone, with the notifier of the branch that it showed.
    pub open spec fn unmounted(self, mountpoint: Text) -> ManagerView {
        if self.mounts.dom().contains(mountpoint) {
            ManagerView {
                mounts: self.mounts.remove(mountpoint),
                notifiers: self.notifiers.remove((self.mounts[mountpoint], mountpoint)),
                ..self
            }
        } else {
            self
        }
    }

    /// The state after an inode was opened on a branch.
    pub open spec fn with_opened(self, branch: Text, ino: u64) -> ManagerView {
        let was = if self.opened.dom().contains(branch) {
            self.opened[branch]
        } else {
            Set::empty()
        };
        ManagerView { opened: self.opened.insert(branch, was.insert(ino)), ..self }
    }
}

/// A branch is created exactly if its name is allowed and new and its parent exists.
pub proof fn law_branches_are_created_once(m: Forest, name: Text, parent: Text)
    ensures
        create_fault(m, name, parent) is None <==> name_fault(name) is None && !m.dom().contains(
            name,
        ) && m.dom().contains(parent),
        name_fault(name) is None && m.dom().contains(name) ==> create_fault(m, name, parent)
            == Some(ErrorView::AlreadyExists(name)),
        name_fault(name) is None && !m.dom().contains(name) && !m.dom().contains(parent)
            ==> create_fault(m, name, parent) == Some(ErrorView::ParentNotFound(parent)),
{
}

/// Creating a branch adds it and leaves every other branch as it is. The new branch takes writes,
/// stands on its parent, has no commits, and is not behind its parent. Every mount that was up to
/// date notices.
pub proof fn law_new_branch_starts_at_its_parent(
    mv: ManagerView,
    name: Text,
    parent: Text,
    inheritance: InheritanceMode,
    hide: Seq<Text>,
    tombs: Set<Text>,
    touches: Map<Text, TouchView>,
)
    requires
        create_fault(mv.branches, name, parent) is None,
    ensures
        ({
            let m = mv.branches;
            let b = forked(m, name, parent, inheritance, hide, tombs, touches);
            let after = mv.grown(b);
            &&& after.branches.dom() == m.dom().insert(name)
            &&& forall|k: Text| #[trigger] m.dom().contains(k) ==> after.branches[k] == m[k]
            &&& after.branches[name] == b
            &&& b.name == name && b.dir == name
            &&& b.parent == Some(parent)
            &&& b.inheritance == inheritance
            &&& b.state == BranchState::Open
            &&& b.tombs == tombs && b.touches == touches
            &&& b.commit_count == 0
            &&& after.branches[parent].commit_count == after.branches[name].parent_version_at_fork
            &&& after.epoch != mv.epoch
            &&& after.mounts == mv.mounts && after.quota == mv.quota
            &&& after.notifiers == mv.notifiers && after.opened == mv.opened
        }),
{
    let b = forked(mv.branches, name, parent, inheritance, hide, tombs, touches);
    assert(mv.grown(b).branches.dom() =~= mv.branches.dom().insert(name));
}

/// A mount that is switched shows the other branch, every other mount shows what it did, and the
/// notifier of the mount is told of the other branch from then on.
pub proof fn law_switch_moves_one_mount(
    mv: ManagerView,
    mountpoint: Text,
    branch: Text,
    other: Text,
    session: u64,
)
    requires
        other != mountpoint,
    ensures
        ({
            let after = mv.switched(mountpoint, branch);
            &&& after.mounts.dom().contains(mountpoint) && after.mounts[mountpoint] == branch
            &&& after.mounts.dom().contains(other) == mv.mounts.dom().contains(other)
            &&& mv.mounts.dom().contains(other) ==> after.mounts[other] == mv.mounts[other]
            &&& after.branches == mv.branches && after.epoch == mv.epoch && after.quota == mv.quota
            &&& forall|b: Text| #[trigger]
                after.notifiers.dom().contains((b, other)) == mv.notifiers.dom().contains(
                    (b, other),
                )
            &&& mv.mounts.dom().contains(mountpoint) && mv.notifiers.dom().contains(
                (mv.mounts[mountpoint], mountpoint),
            ) && mv.notifiers[(mv.mounts[mountpoint], mountpoint)] == session
                ==> after.notifiers.dom().contains((branch, mountpoint)) && after.notifiers[(
                branch,
                mountpoint,
            )] == session && (mv.mounts[mountpoint] != branch ==> !after.notifiers.dom().contains(
                (mv.mounts[mountpoint], mountpoint),
            ))
        }),
{
}

/// A mount that is gone shows nothing and is told nothing; every other mount is as it was.
pub proof fn law_unmount_forgets_one_mount(mv: ManagerView, mountpoint: Text, other: Text)
    requires
        other != mountpoint,
    ensures
        ({
            let after = mv.unmounted(mountpoint);
            &&& !after.mounts.dom().contains(mountpoint)
            &&& after.mounts.dom().contains(other) == mv.mounts.dom().contains(other)
            &&& mv.mounts.dom().contains(other) ==> after.mounts[other] == mv.mounts[other]
            &&& mv.mounts.dom().contains(mountpoint) ==> !after.notifiers.dom().contains(
                (mv.mounts[mountpoint], mountpoint),
            )
            &&& forall|b: Text| #[trigger]
                mv.notifiers.dom().contains((b, other)) ==> after.notifiers.dom().contains(
                    (b, other),
                ) && after.notifiers[(b, other)] == mv.notifiers[(b, other)]
            &&& after.branches == mv.branches && after.epoch == mv.epoch && after.quota == mv.quota
        }),
{
}

/// When the caches of branches are dropped, each mount that shows one of them is told of its root
/// and of every inode that was opened on the branch, and no other mount is told anything.
pub proof fn law_mounts_are_told(
    mv: ManagerView,
    branches: Set<Text>,
    branch: Text,
    mountpoint: Text,
    session: u64,
    ino: u64,
)
    requires
        mv.notifiers.dom().contains((branch, mountpoint)),
        mv.notifiers[(branch, mountpoint)] == session,
    ensures
        branches.contains(branch) ==> {
            &&& mv.told(Some(branches), Invalidation { notifier: session, ino: ROOT_INO })
            &&& mv.opened.dom().contains(branch) && mv.opened[branch].contains(ino) ==> mv.told(
                Some(branches),
                Invalidation { notifier: session, ino },
            )
        },
        mv.told(None, Invalidation { notifier: session, ino: ROOT_INO }),
        (forall|k: (Text, Text)| #[trigger]
            mv.notifiers.dom().contains(k) && mv.notifiers[k] == session ==> !branches.contains(k.0))
            ==> !mv.told(Some(branches), Invalidation { notifier: session, ino }),
{
    let root = Invalidation { notifier: session, ino: ROOT_INO };
    let opened = Invalidation { notifier: session, ino };
    assert(mv.tells_of(None, (branch, mountpoint), root));
    if branches.contains(branch) {
        assert(mv.tells_of(Some(branches), (branch, mountpoint), root));
        if mv.opened.dom().contains(branch) && mv.opened[branch].contains(ino) {
            assert(mv.tells_of(Some(branches), (branch, mountpoint), opened));
        }
    }
}

/// An inode that was opened on a branch is known as such from then on, and nothing else changes.
pub proof fn law_opened_inodes_are_known(
    mv: ManagerView,
    branch: Text,
    ino: u64,
    other: Text,
    another: u64,
)
    ensures
        ({
            let after = mv.with_opened(branch, ino);
            &&& after.opened.dom().contains(branch) && after.opened[branch].contains(ino)
            &&& another != ino ==> after.opened[branch].contains(another) == (
            mv.opened.dom().contains(branch) && mv.opened[branch].contains(another))
            &&& other != branch ==> after.opened.dom().contains(other) == mv.opened.dom().contains(
                other,
            ) && after.opened[other] == mv.opened[other]
            &&& after.branches == mv.branches && after.mounts == mv.mounts && after.notifiers
                == mv.notifiers
            &&& after.epoch == mv.epoch && after.quota == mv.quota
        }),
{
}

} // verus!
