//! What the operations on a mount aim at: which branch and path, or which error they answer.

use vstd::prelude::*;
use vstd::string::*;

use crate::context::{
    branch_path, branch_path_of, classify_path, context, ctl_name, ContextView, PathContext,
};
use crate::errors::Errno;
use crate::inode::{injective, path_of, InodeManager, Inodes, RESERVED_INO};
use crate::manager::{BranchManager, ManagerView, ROOT_INO};
use crate::paths::{join_rel, joined};
use crate::records::BranchState;
use crate::table::{lemma_rows, Table};
use crate::text::{drop_chars, opt_text, same, Text};

verus! {

/// The inode number of the control file of a mount.
pub const CTL_INO: u64 = 0xffff_ffff_ffff_fffe;

/// The first inode number of the control files of branches; the others follow downward.
pub const FIRST_BRANCH_CTL_INO: u64 = 18446744073708551615;

/// Which file is kept open from the last access. A kept file serves only its own inode, and only
/// in the epoch in which it was opened.
#[derive(Clone, Copy, Debug, PartialEq, Eq, Structural)]
pub struct FileCache {
    pub ino: u64,
    pub epoch: u64,
    pub held: bool,
}

impl FileCache {
    pub open spec fn serves(self, ino: u64, epoch: u64) -> bool {
        self.held && self.ino == ino && self.epoch == epoch
    }

    pub open spec fn without(self, ino: u64) -> FileCache {
        if self.ino == ino {
            FileCache { ino: 0, epoch: self.epoch, held: false }
        } else {
            self
        }
    }

    /// The cache once its file was let go.
    pub open spec fn emptied(self) -> FileCache {
        FileCache { ino: 0, epoch: self.epoch, held: false }
    }

    pub fn new() -> (r: FileCache)
        ensures
            r == (FileCache { ino: 0, epoch: 0, held: false }),
    {
        FileCache { ino: 0, epoch: 0, held: false }
    }

    /// Whether the kept file can be used for `ino`.
    pub fn get(&self, ino: u64, epoch: u64) -> (r: bool)
        ensures
            r == self.serves(ino, epoch),
    {
        self.held && self.ino == ino && self.epoch == epoch
    }

    /// Keeps another file.
    pub fn insert(&mut self, ino: u64, epoch: u64)
        ensures
            *final(self) == (FileCache { ino, epoch, held: true }),
    {
        self.ino = ino;
        self.epoch = epoch;
        self.held = true;
    }

    /// Lets the kept file go.
    pub fn clear(&mut self)
        ensures
            *final(self) == old(self).emptied(),
    {
        self.ino = 0;
        self.held = false;
    }

    /// Lets the kept file of `ino` go.
    pub fn invalidate_ino(&mut self, ino: u64)
        ensures
            *final(self) == old(self).without(ino),
    {
        if self.ino == ino {
            self.ino = 0;
            self.held = false;
        }
    }
}

/// One mount.
pub struct BranchFs {
    pub mountpoint: String,
    pub current_epoch: u64,
    pub inodes: InodeManager,
    /// The inode numbers of the control files of branches.
    pub branch_ctl_inodes: Table<u64>,
    pub next_ctl_ino: u64,
    pub uid: u32,
    pub gid: u32,
    /// The file of the last read.
    pub open_cache: FileCache,
    /// The file of the last write.
    pub write_cache: FileCache,
    pub passthrough_enabled: bool,
    /// Whether the control files and the `@branch` directories are shown. Agent mounts do not
    /// show them so that untrusted processes cannot switch/commit through the mounted filesystem.
    pub expose_control: bool,
}

pub struct FsView {
    pub mountpoint: Text,
    pub epoch: u64,
    pub inodes: Inodes,
    pub ctl: Inodes,
    pub uid: u32,
    pub gid: u32,
    pub open: FileCache,
    pub write: FileCache,
    pub passthrough: bool,
    pub expose: bool,
}

impl View for BranchFs {
    type V = FsView;

    open spec fn view(&self) -> FsView {
        FsView {
            mountpoint: self.mountpoint@,
            epoch: self.current_epoch,
            inodes: self.inodes@,
            ctl: self.branch_ctl_inodes@,
            uid: self.uid,
            gid: self.gid,
            open: self.open_cache,
            write: self.write_cache,
            passthrough: self.passthrough_enabled,
            expose: self.expose_control,
        }
    }
}

/// An entry that an operation works on.
pub struct Entry {
    pub branch: String,
    /// The path inside the branch.
    pub rel: String,
    /// The path inside the mount.
    pub inode_path: String,
    /// Whether it was reached through the branch that the mount shows, so that the mount's
    /// staleness counts.
    pub at_root: bool,
}

pub struct EntryView {
    pub branch: Text,
    pub rel: Text,
    pub inode_path: Text,
    pub at_root: bool,
}

impl View for Entry {
    type V = EntryView;

    open spec fn view(&self) -> EntryView {
        EntryView {
            branch: self.branch@,
            rel: self.rel@,
            inode_path: self.inode_path@,
            at_root: self.at_root,
        }
    }
}

/// What an operation aims at.
pub enum Target {
    Fail(Errno),
    /// The control file of the mount.
    RootCtl,
    /// The control file of a branch.
    BranchCtl(String),
    /// The directory of a branch.
    BranchDir(String),
    /// The file that is kept open.
    Cached,
    /// Nothing more is to be done.
    Done,
    Entry(Entry),
}

pub enum Goal {
    Fail(Errno),
    RootCtl,
    BranchCtl(Text),
    BranchDir(Text),
    Cached,
    Done,
    Entry(EntryView),
}

impl View for Target {
    type V = Goal;

    open spec fn view(&self) -> Goal {
        match self {
            Target::Fail(e) => Goal::Fail(*e),
            Target::RootCtl => Goal::RootCtl,
            Target::BranchCtl(b) => Goal::BranchCtl(b@),
            Target::BranchDir(b) => Goal::BranchDir(b@),
            Target::Cached => Goal::Cached,
            Target::Done => Goal::Done,
            Target::Entry(e) => Goal::Entry(e@),
        }
    }
}

/// The branch that a mount shows.
pub open spec fn current(f: FsView, mv: ManagerView) -> Text {
    if mv.mounts.dom().contains(f.mountpoint) {
        mv.mounts[f.mountpoint]
    } else {
        "main"@
    }
}

pub open spec fn valid(mv: ManagerView, branch: Text) -> bool {
    mv.branches.dom().contains(branch)
}

pub open spec fn writable(mv: ManagerView, branch: Text) -> bool {
    valid(mv, branch) && mv.branches[branch].state == BranchState::Open
}

/// Whether a mount lags behind: something was committed since, or its branch is gone.
pub open spec fn stale(f: FsView, mv: ManagerView) -> bool {
    mv.epoch != f.epoch || !valid(mv, current(f, mv))
}

/// What a path of a mount stands for. Where the controls are hidden, no name is special: every
/// path is one of the branch that the mount shows.
pub open spec fn stands_for(f: FsView, path: Text) -> ContextView {
    if f.expose {
        context(path)
    } else {
        ContextView::RootPath(path)
    }
}

/// The branch and the directory that a path of the mount stands for, if it lies in one of the
/// `@branch` directories.
pub open spec fn inside(f: FsView, path: Text) -> Option<(Text, Text)> {
    match stands_for(f, path) {
        ContextView::BranchDir(b) => Some((b, seq!['/'])),
        ContextView::BranchPath(b, r) => Some((b, r)),
        _ => None,
    }
}

pub open spec fn in_current(f: FsView, mv: ManagerView, path: Text) -> Goal {
    Goal::Entry(
        EntryView { branch: current(f, mv), rel: path, inode_path: path, at_root: true },
    )
}

pub open spec fn in_branch(branch: Text, rel: Text) -> Goal {
    Goal::Entry(
        EntryView { branch, rel, inode_path: branch_path(branch, rel), at_root: false },
    )
}

/// Whether a name stands for a branch directory.
pub open spec fn at_name(name: Text) -> bool {
    name.len() > 0 && name[0] == '@'
}

/// Looking up a name: control files and branch directories where controls are shown, the entries
/// of a branch directory, and the entries of the branch that the mount shows. A child branch is
/// reached below its parent's directory too.
pub open spec fn lookup_goal(f: FsView, mv: ManagerView, parent: u64, name: Text) -> Goal {
    match path_of(f.inodes, parent) {
        None => Goal::Fail(Errno::Enoent),
        Some(dir) => if dir == seq!['/'] {
            if f.expose && name == ctl_name() {
                Goal::RootCtl
            } else if f.expose && at_name(name) {
                if valid(mv, name.skip(1)) {
                    Goal::BranchDir(name.skip(1))
                } else {
                    Goal::Fail(Errno::Enoent)
                }
            } else if stale(f, mv) {
                Goal::Fail(Errno::Estale)
            } else {
                in_current(f, mv, joined(dir, name))
            }
        } else {
            match inside(f, dir) {
                Some((b, r)) => if f.expose && r == seq!['/'] && name == ctl_name() {
                    Goal::BranchCtl(b)
                } else if at_name(name) {
                    if f.expose && r == seq!['/'] && valid(mv, name.skip(1))
                        && mv.branches[name.skip(1)].parent == Some(b) {
                        Goal::BranchDir(name.skip(1))
                    } else {
                        Goal::Fail(Errno::Enoent)
                    }
                } else if !valid(mv, b) {
                    Goal::Fail(Errno::Enoent)
                } else {
                    in_branch(b, joined(r, name))
                },
                None => if stale(f, mv) {
                    Goal::Fail(Errno::Estale)
                } else {
                    in_current(f, mv, joined(dir, name))
                },
            }
        },
    }
}

/// The control file of a branch, if it is shown and the branch exists.
pub open spec fn shown_ctl(f: FsView, mv: ManagerView, branch: Text) -> Goal {
    if f.expose && valid(mv, branch) {
        Goal::BranchCtl(branch)
    } else {
        Goal::Fail(Errno::Enoent)
    }
}

pub open spec fn shown_root_ctl(f: FsView) -> Goal {
    if f.expose {
        Goal::RootCtl
    } else {
        Goal::Fail(Errno::Enoent)
    }
}

/// Asking for attributes. The root is not refused for staleness.
pub open spec fn getattr_goal(f: FsView, mv: ManagerView, ino: u64) -> Goal {
    if ino == CTL_INO {
        shown_root_ctl(f)
    } else {
        match path_of(f.ctl, ino) {
            Some(b) => shown_ctl(f, mv, b),
            None => match path_of(f.inodes, ino) {
                None => Goal::Fail(Errno::Enoent),
                Some(path) => match stands_for(f, path) {
                    ContextView::BranchDir(b) => if valid(mv, b) {
                        Goal::BranchDir(b)
                    } else {
                        Goal::Fail(Errno::Enoent)
                    },
                    ContextView::BranchCtl(b) => shown_ctl(f, mv, b),
                    ContextView::BranchPath(b, r) => if valid(mv, b) {
                        in_branch(b, r)
                    } else {
                        Goal::Fail(Errno::Enoent)
                    },
                    ContextView::RootCtl => shown_root_ctl(f),
                    ContextView::RootPath(p) => if ino != ROOT_INO && stale(f, mv) {
                        Goal::Fail(Errno::Estale)
                    } else {
                        in_current(f, mv, p)
                    },
                },
            },
        }
    }
}

/// What an inode number stands for.
pub open spec fn context_of(f: FsView, ino: u64) -> Option<ContextView> {
    if ino == ROOT_INO {
        Some(ContextView::RootPath(seq!['/']))
    } else if ino == CTL_INO {
        Some(ContextView::RootCtl)
    } else {
        match path_of(f.ctl, ino) {
            Some(b) => Some(ContextView::BranchCtl(b)),
            None => match path_of(f.inodes, ino) {
                Some(p) => Some(stands_for(f, p)),
                None => None,
            },
        }
    }
}

/// Whether an inode number stands for a path of a branch that does not exist any longer.
pub open spec fn ended(f: FsView, mv: ManagerView, ino: u64) -> bool {
    context_of(f, ino) matches Some(ContextView::BranchPath(b, _)) && !valid(mv, b)
}

/// Reading: the control file of the mount, or a file, from the kept one if it serves. A stale
/// mount reads nothing else, and nothing is read of a branch that has ended.
pub open spec fn read_goal(f: FsView, mv: ManagerView, ino: u64) -> Goal {
    if ino == CTL_INO {
        shown_root_ctl(f)
    } else if stale(f, mv) {
        Goal::Fail(Errno::Estale)
    } else if f.open.serves(ino, f.epoch) && !ended(f, mv, ino) {
        Goal::Cached
    } else {
        match context_of(f, ino) {
            Some(ContextView::BranchPath(b, r)) => if valid(mv, b) {
                in_branch(b, r)
            } else {
                Goal::Fail(Errno::Enoent)
            },
            Some(ContextView::BranchDir(_)) => Goal::Fail(Errno::Eisdir),
            Some(ContextView::BranchCtl(_)) => Goal::Fail(Errno::Eisdir),
            _ => match path_of(f.inodes, ino) {
                Some(p) => in_current(f, mv, p),
                None => Goal::Fail(Errno::Enoent),
            },
        }
    }
}

/// Writing: commands to a control file where these are shown, or a file, through the kept one if
/// it serves. A stale mount takes commands only, and nothing is written to a branch that has
/// ended.
pub open spec fn write_goal(f: FsView, mv: ManagerView, ino: u64) -> Goal {
    if ino == CTL_INO {
        if f.expose {
            Goal::RootCtl
        } else {
            Goal::Fail(Errno::Eperm)
        }
    } else {
        match path_of(f.ctl, ino) {
            Some(b) => if f.expose {
                Goal::BranchCtl(b)
            } else {
                Goal::Fail(Errno::Eperm)
            },
            None => if stale(f, mv) {
                Goal::Fail(Errno::Estale)
            } else if f.write.serves(ino, f.epoch) && !ended(f, mv, ino) {
                Goal::Cached
            } else {
                match path_of(f.inodes, ino) {
                    None => Goal::Fail(Errno::Enoent),
                    Some(path) => match stands_for(f, path) {
                        ContextView::BranchDir(_) => Goal::Fail(Errno::Eperm),
                        ContextView::BranchCtl(_) => Goal::Fail(Errno::Eperm),
                        ContextView::BranchPath(b, r) => if writable(mv, b) {
                            in_branch(b, r)
                        } else {
                            Goal::Fail(Errno::Erofs)
                        },
                        _ => in_current(f, mv, path),
                    },
                }
            },
        }
    }
}

/// Listing a directory.
pub open spec fn readdir_goal(f: FsView, mv: ManagerView, ino: u64) -> Goal {
    match path_of(f.inodes, ino) {
        None => Goal::Fail(Errno::Enoent),
        Some(path) => match stands_for(f, path) {
            ContextView::BranchDir(b) => if valid(mv, b) {
                Goal::BranchDir(b)
            } else {
                Goal::Fail(Errno::Enoent)
            },
            ContextView::BranchPath(b, r) => if valid(mv, b) {
                in_branch(b, r)
            } else {
                Goal::Fail(Errno::Enoent)
            },
            ContextView::RootPath(p) => if stale(f, mv) {
                Goal::Fail(Errno::Estale)
            } else {
                in_current(f, mv, p)
            },
            _ => Goal::Fail(Errno::Enotdir),
        },
    }
}

/// A new entry in a directory: its branch must exist and take writes.
pub open spec fn create_goal(f: FsView, mv: ManagerView, parent: u64, name: Text) -> Goal {
    match path_of(f.inodes, parent) {
        None => Goal::Fail(Errno::Enoent),
        Some(dir) => match stands_for(f, dir) {
            ContextView::BranchDir(b) => new_in_branch(mv, b, joined(seq!['/'], name)),
            ContextView::BranchPath(b, r) => new_in_branch(mv, b, joined(r, name)),
            ContextView::BranchCtl(_) => Goal::Fail(Errno::Eperm),
            ContextView::RootCtl => Goal::Fail(Errno::Eperm),
            ContextView::RootPath(p) => if writable(mv, current(f, mv)) {
                in_current(f, mv, joined(p, name))
            } else {
                Goal::Fail(Errno::Erofs)
            },
        },
    }
}

pub open spec fn new_in_branch(mv: ManagerView, branch: Text, rel: Text) -> Goal {
    if !valid(mv, branch) {
        Goal::Fail(Errno::Enoent)
    } else if !writable(mv, branch) {
        Goal::Fail(Errno::Erofs)
    } else {
        in_branch(branch, rel)
    }
}

/// Removing an entry: as making one, but control files and branch directories in a branch cannot
/// be removed.
pub open spec fn unlink_goal(f: FsView, mv: ManagerView, parent: u64, name: Text) -> Goal {
    match path_of(f.inodes, parent) {
        Some(dir) if inside(f, dir) is Some && (at_name(name) || name == ctl_name()) => Goal::Fail(
            Errno::Eperm,
        ),
        _ => create_goal(f, mv, parent, name),
    }
}

/// Opening: control files and branch directories open at once. Where the file is to be written,
/// its branch must take writes.
pub open spec fn open_goal(f: FsView, mv: ManagerView, ino: u64, wants_write: bool) -> Goal {
    if ino == CTL_INO || path_of(f.ctl, ino) is Some {
        Goal::Done
    } else {
        match path_of(f.inodes, ino) {
            None => Goal::Fail(Errno::Enoent),
            Some(path) => match stands_for(f, path) {
                ContextView::BranchDir(_) => Goal::Done,
                ContextView::BranchCtl(_) => Goal::Done,
                ContextView::BranchPath(b, r) => if wants_write && !writable(mv, b) {
                    Goal::Fail(Errno::Erofs)
                } else if !valid(mv, b) {
                    Goal::Fail(Errno::Enoent)
                } else {
                    in_branch(b, r)
                },
                _ => if stale(f, mv) {
                    Goal::Fail(Errno::Estale)
                } else {
                    in_current(f, mv, path)
                },
            },
        }
    }
}

/// Changing attributes: where something is to change, the branch must take writes.
pub open spec fn setattr_goal(f: FsView, mv: ManagerView, ino: u64, changes: bool) -> Goal {
    if ino == CTL_INO {
        shown_root_ctl(f)
    } else {
        match path_of(f.ctl, ino) {
            Some(b) => shown_ctl(f, mv, b),
            None => match path_of(f.inodes, ino) {
                None => Goal::Fail(Errno::Enoent),
                Some(path) => match stands_for(f, path) {
                    ContextView::BranchDir(_) => Goal::Fail(Errno::Eperm),
                    ContextView::BranchCtl(_) => Goal::Fail(Errno::Eperm),
                    ContextView::BranchPath(b, r) => if changes && !writable(mv, b) {
                        Goal::Fail(Errno::Erofs)
                    } else if !valid(mv, b) {
                        Goal::Fail(Errno::Enoent)
                    } else {
                        in_branch(b, r)
                    },
                    _ => if changes && !writable(mv, current(f, mv)) {
                        Goal::Fail(Errno::Erofs)
                    } else {
                        in_current(f, mv, path)
                    },
                },
            },
        }
    }
}

/// Reading a symbolic link.
pub open spec fn readlink_goal(f: FsView, mv: ManagerView, ino: u64) -> Goal {
    match context_of(f, ino) {
        Some(ContextView::BranchPath(b, r)) => if valid(mv, b) {
            in_branch(b, r)
        } else {
            Goal::Fail(Errno::Enoent)
        },
        Some(ContextView::RootPath(p)) => if stale(f, mv) {
            Goal::Fail(Errno::Estale)
        } else {
            in_current(f, mv, p)
        },
        _ => Goal::Fail(Errno::Einval),
    }
}

impl BranchFs {
    pub open spec fn wf(self) -> bool {
        &&& self.inodes.wf()
        &&& self.branch_ctl_inodes.wf()
        &&& injective(self.branch_ctl_inodes@)
        &&& RESERVED_INO <= self.next_ctl_ino <= FIRST_BRANCH_CTL_INO
        &&& forall|b: Text| #[trigger]
            self.branch_ctl_inodes@.dom().contains(b) ==> self.next_ctl_ino
                < self.branch_ctl_inodes@[b] <= FIRST_BRANCH_CTL_INO
    }

    pub fn new(
        manager: &BranchManager,
        mountpoint: &str,
        passthrough: bool,
        expose_control: bool,
        uid: u32,
        gid: u32,
    ) -> (r: BranchFs)
        ensures
            r.wf(),
            r@ == (FsView {
                mountpoint: mountpoint@,
                epoch: manager@.epoch,
                inodes: Map::<Text, u64>::empty().insert(seq!['/'], ROOT_INO),
                ctl: Map::empty(),
                uid,
                gid,
                open: FileCache { ino: 0, epoch: 0, held: false },
                write: FileCache { ino: 0, epoch: 0, held: false },
                passthrough,
                expose: expose_control,
            }),
            r.inodes.next_ino == 2,
            r.next_ctl_ino == FIRST_BRANCH_CTL_INO,
    {
        BranchFs {
            mountpoint: mountpoint.to_owned(),
            current_epoch: manager.get_epoch(),
            inodes: InodeManager::new(),
            branch_ctl_inodes: Table::new(),
            next_ctl_ino: FIRST_BRANCH_CTL_INO,
            uid,
            gid,
            open_cache: FileCache::new(),
            write_cache: FileCache::new(),
            passthrough_enabled: passthrough,
            expose_control,
        }
    }

    pub fn get_branch_name(&self, manager: &BranchManager) -> (r: String)
        requires
            manager.wf(),
        ensures
            r@ == current(self@, manager@),
    {
        match manager.get_mount_branch(self.mountpoint.as_str()) {
            Some(b) => b,
            None => "main".to_owned(),
        }
    }

    pub fn branch_writable(&self, manager: &BranchManager, branch: &str) -> (r: bool)
        requires
            manager.wf(),
        ensures
            r == writable(manager@, branch@),
    {
        manager.is_branch_writable(branch)
    }

    pub fn write_denied_error(&self, manager: &BranchManager, branch: &str) -> (r: Option<Errno>)
        requires
            manager.wf(),
        ensures
            r == if writable(manager@, branch@) {
                None
            } else {
                Some(Errno::Erofs)
            },
    {
        if self.branch_writable(manager, branch) {
            None
        } else {
            Some(Errno::Erofs)
        }
    }

    pub fn is_stale(&self, manager: &BranchManager) -> (r: bool)
        requires
            manager.wf(),
        ensures
            r == stale(self@, manager@),
    {
        let branch_name = self.get_branch_name(manager);
        manager.get_epoch() != self.current_epoch || !manager.is_branch_valid(
            branch_name.as_str(),
        )
    }

    /// Show another branch. Nothing that was known of paths holds any longer, and the files that
    /// are kept open are let go.
    pub fn switch_to_branch(&mut self, manager: &mut BranchManager, new_branch: &str)
        requires
            old(self).wf(),
            old(manager).wf(),
        ensures
            final(self).wf(),
            final(manager).wf(),
            final(manager)@ == old(manager)@.switched(old(self)@.mountpoint, new_branch@),
            final(self)@ == (FsView {
                epoch: old(manager)@.epoch,
                inodes: Map::<Text, u64>::empty().insert(seq!['/'], ROOT_INO),
                open: old(self)@.open.emptied(),
                write: old(self)@.write.emptied(),
                ..old(self)@
            }),
            stale(final(self)@, final(manager)@) == !valid(old(manager)@, new_branch@),
            final(self).inodes.next_ino == old(self).inodes.next_ino,
            final(self).next_ctl_ino == old(self).next_ctl_ino,
    {
        manager.switch_mount_branch(self.mountpoint.as_str(), new_branch);
        self.current_epoch = manager.get_epoch();
        self.inodes.clear();
        self.open_cache.clear();
        self.write_cache.clear();
    }

    /// Notices what other mounts did.
    pub fn catch_up(&mut self, manager: &BranchManager)
        requires
            old(self).wf(),
        ensures
            final(self).wf(),
            final(self)@ == (FsView { epoch: manager@.epoch, ..old(self)@ }),
            final(self).inodes == old(self).inodes,
            final(self).next_ctl_ino == old(self).next_ctl_ino,
    {
        self.current_epoch = manager.get_epoch();
    }

    /// The branch whose control file has this number.
    pub fn branch_for_ctl_ino(&self, ino: u64) -> (r: Option<String>)
        requires
            self.wf(),
        ensures
            opt_text(r) == path_of(self@.ctl, ino),
    {
        proof {
            lemma_rows(self.branch_ctl_inodes);
        }
        let ghost m = self.branch_ctl_inodes@;
        let ghost rows = self.branch_ctl_inodes.rows@;
        let mut i: usize = 0;
        while i < self.branch_ctl_inodes.rows.len()
            invariant
                i <= self.branch_ctl_inodes.rows@.len(),
                m == self.branch_ctl_inodes@,
                rows == self.branch_ctl_inodes.rows@,
                self.wf(),
                forall|j: int|
                    0 <= j < rows.len() ==> m.dom().contains((#[trigger] rows[j]).0@)
                        && m[rows[j].0@] == rows[j].1,
                forall|j: int| 0 <= j < i ==> (#[trigger] rows[j]).1 != ino,
            decreases self.branch_ctl_inodes.rows@.len() - i,
        {
            if self.branch_ctl_inodes.rows[i].1 == ino {
                proof {
                    assert(m.dom().contains(rows[i as int].0@));
                }
                return Some(self.branch_ctl_inodes.rows[i].0.clone());
            }
            i = i + 1;
        }
        proof {
            if exists|p: Text| #[trigger] m.dom().contains(p) && m[p] == ino {
                let p = choose|p: Text| #[trigger] m.dom().contains(p) && m[p] == ino;
                let j = choose|j: int| 0 <= j < rows.len() && (#[trigger] rows[j]).0@ == p;
                assert(rows[j].1 == ino);
            }
        }
        None
    }

    /// The number of the control file of a branch, a new one if it has none.
    pub fn get_or_create_branch_ctl_ino(&mut self, branch: &str) -> (r: u64)
        requires
            old(self).wf(),
            old(self).next_ctl_ino > RESERVED_INO,
        ensures
            final(self).wf(),
            final(self)@ == (FsView { ctl: old(self)@.ctl.insert(branch@, r), ..old(self)@ }),
            r == (if old(self)@.ctl.dom().contains(branch@) {
                old(self)@.ctl[branch@]
            } else {
                old(self).next_ctl_ino
            }),
            final(self).next_ctl_ino == old(self).next_ctl_ino - if old(self)@.ctl.dom().contains(
                branch@,
            ) {
                0int
            } else {
                1int
            },
            final(self).inodes == old(self).inodes,
    {
        if let Some(ino) = self.branch_ctl_inodes.get(branch) {
            let found = *ino;
            proof {
                assert(self@.ctl.insert(branch@, found) =~= self@.ctl);
            }
            return found;
        }
        let ino = self.next_ctl_ino;
        let _ = self.branch_ctl_inodes.put(branch, ino);
        self.next_ctl_ino = ino - 1;
        ino
    }

    /// What a path stands for.
    pub(crate) fn classify(&self, path: &str) -> (r: PathContext)
        ensures
            r@ == stands_for(self@, path@),
    {
        if self.expose_control {
            classify_path(path)
        } else {
            PathContext::RootPath(path.to_owned())
        }
    }

    /// What an inode number stands for.
    pub fn classify_ino(&self, ino: u64) -> (r: Option<PathContext>)
        requires
            self.wf(),
        ensures
            (match r {
                Some(c) => Some(c@),
                None => None,
            }) == context_of(self@, ino),
    {
        proof {
            reveal_strlit("/");
            assert("/"@ =~= seq!['/']);
        }
        if ino == ROOT_INO {
            return Some(PathContext::RootPath("/".to_owned()));
        }
        if ino == CTL_INO {
            return Some(PathContext::RootCtl);
        }
        if let Some(branch) = self.branch_for_ctl_ino(ino) {
            return Some(PathContext::BranchCtl(branch));
        }
        match self.inodes.get_path(ino) {
            Some(path) => Some(self.classify(path.as_str())),
            None => None,
        }
    }

    /// Whether an inode number stands for a path of a branch that does not exist any longer.
    fn has_ended(&self, manager: &BranchManager, ino: u64) -> (r: bool)
        requires
            self.wf(),
            manager.wf(),
        ensures
            r == ended(self@, manager@, ino),
    {
        match self.classify_ino(ino) {
            Some(PathContext::BranchPath(branch, _)) => !manager.is_branch_valid(branch.as_str()),
            _ => false,
        }
    }

    fn entry_in_current(&self, manager: &BranchManager, path: &str) -> (r: Target)
        requires
            manager.wf(),
        ensures
            r@ == in_current(self@, manager@, path@),
    {
        Target::Entry(
            Entry {
                branch: self.get_branch_name(manager),
                rel: path.to_owned(),
                inode_path: path.to_owned(),
                at_root: true,
            },
        )
    }

    fn current_unless_stale(&self, manager: &BranchManager, path: &str) -> (r: Target)
        requires
            manager.wf(),
        ensures
            r@ == if stale(self@, manager@) {
                Goal::Fail(Errno::Estale)
            } else {
                in_current(self@, manager@, path@)
            },
    {
        if self.is_stale(manager) {
            Target::Fail(Errno::Estale)
        } else {
            self.entry_in_current(manager, path)
        }
    }

    fn branch_if_valid(&self, manager: &BranchManager, branch: &str, rel: &str) -> (r: Target)
        requires
            manager.wf(),
        ensures
            r@ == if valid(manager@, branch@) {
                in_branch(branch@, rel@)
            } else {
                Goal::Fail(Errno::Enoent)
            },
    {
        if manager.is_branch_valid(branch) {
            entry_in_branch(branch, rel)
        } else {
            Target::Fail(Errno::Enoent)
        }
    }

    fn ctl_if_shown(&self, manager: &BranchManager, branch: String) -> (r: Target)
        requires
            manager.wf(),
        ensures
            r@ == shown_ctl(self@, manager@, branch@),
    {
        if self.expose_control && manager.is_branch_valid(branch.as_str()) {
            Target::BranchCtl(branch)
        } else {
            Target::Fail(Errno::Enoent)
        }
    }

    fn root_ctl_if_shown(&self) -> (r: Target)
        ensures
            r@ == shown_root_ctl(self@),
    {
        if self.expose_control {
            Target::RootCtl
        } else {
            Target::Fail(Errno::Enoent)
        }
    }

    /// Aims at a name in a directory.
    pub fn lookup(&self, manager: &BranchManager, parent: u64, name: &str) -> (r: Target)
        requires
            self.wf(),
            manager.wf(),
        ensures
            r@ == lookup_goal(self@, manager@, parent, name@),
    {
        proof {
            reveal_strlit("/");
            assert("/"@ =~= seq!['/']);
        }
        let dir = match self.inodes.get_path(parent) {
            Some(p) => p,
            None => {
                return Target::Fail(Errno::Enoent);
            },
        };
        let is_ctl = same(name, ".branchfs_ctl");
        let is_at = starts_at(name);
        if same(dir.as_str(), "/") {
            if self.expose_control && is_ctl {
                return Target::RootCtl;
            }
            if self.expose_control && is_at {
                let branch = drop_chars(name, 1);
                return if manager.is_branch_valid(branch) {
                    Target::BranchDir(branch.to_owned())
                } else {
                    Target::Fail(Errno::Enoent)
                };
            }
            return self.current_unless_stale(manager, join_rel(dir.as_str(), name).as_str());
        }
        match branch_of(self.classify(dir.as_str())) {
            Some((branch, rel)) => {
                let at_branch_root = same(rel.as_str(), "/");
                if self.expose_control && at_branch_root && is_ctl {
                    return Target::BranchCtl(branch);
                }
                if is_at {
                    let child = drop_chars(name, 1);
                    return if self.expose_control && at_branch_root && is_child(
                        manager,
                        child,
                        branch.as_str(),
                    ) {
                        Target::BranchDir(child.to_owned())
                    } else {
                        Target::Fail(Errno::Enoent)
                    };
                }
                self.branch_if_valid(
                    manager,
                    branch.as_str(),
                    join_rel(rel.as_str(), name).as_str(),
                )
            },
            None => self.current_unless_stale(manager, join_rel(dir.as_str(), name).as_str()),
        }
    }

    /// Aims at what an inode number stands for, to report its attributes.
    pub fn getattr(&self, manager: &BranchManager, ino: u64) -> (r: Target)
        requires
            self.wf(),
            manager.wf(),
        ensures
            r@ == getattr_goal(self@, manager@, ino),
    {
        if ino == CTL_INO {
            return self.root_ctl_if_shown();
        }
        if let Some(branch) = self.branch_for_ctl_ino(ino) {
            return self.ctl_if_shown(manager, branch);
        }
        let path = match self.inodes.get_path(ino) {
            Some(p) => p,
            None => {
                return Target::Fail(Errno::Enoent);
            },
        };
        match self.classify(path.as_str()) {
            PathContext::BranchDir(branch) => {
                if manager.is_branch_valid(branch.as_str()) {
                    Target::BranchDir(branch)
                } else {
                    Target::Fail(Errno::Enoent)
                }
            },
            PathContext::BranchCtl(branch) => self.ctl_if_shown(manager, branch),
            PathContext::BranchPath(branch, rel) => self.branch_if_valid(
                manager,
                branch.as_str(),
                rel.as_str(),
            ),
            PathContext::RootCtl => self.root_ctl_if_shown(),
            PathContext::RootPath(p) => {
                if ino != ROOT_INO {
                    self.current_unless_stale(manager, p.as_str())
                } else {
                    self.entry_in_current(manager, p.as_str())
                }
            },
        }
    }

    /// What is answered when the entry that `getattr` aimed at is not there: the root is a
    /// directory all the same.
    pub fn attr_of_missing(&self, ino: u64) -> (r: Result<(), Errno>)
        ensures
            r is Ok <==> ino == ROOT_INO,
            r matches Err(e) ==> e == Errno::Enoent,
    {
        if ino == ROOT_INO {
            Ok(())
        } else {
            Err(Errno::Enoent)
        }
    }

    /// Aims at a file to read.
    pub fn read(&self, manager: &BranchManager, ino: u64) -> (r: Target)
        requires
            self.wf(),
            manager.wf(),
        ensures
            r@ == read_goal(self@, manager@, ino),
    {
        if ino == CTL_INO {
            return self.root_ctl_if_shown();
        }
        if self.is_stale(manager) {
            return Target::Fail(Errno::Estale);
        }
        if self.open_cache.get(ino, self.current_epoch) && !self.has_ended(manager, ino) {
            return Target::Cached;
        }
        match self.classify_ino(ino) {
            Some(PathContext::BranchPath(branch, rel)) => self.branch_if_valid(
                manager,
                branch.as_str(),
                rel.as_str(),
            ),
            Some(PathContext::BranchDir(_)) => Target::Fail(Errno::Eisdir),
            Some(PathContext::BranchCtl(_)) => Target::Fail(Errno::Eisdir),
            _ => match self.inodes.get_path(ino) {
                Some(path) => self.entry_in_current(manager, path.as_str()),
                None => Target::Fail(Errno::Enoent),
            },
        }
    }

    /// Aims at a file to write. The file that is kept for reading may lie elsewhere afterwards,
    /// so it is let go.
    pub fn write(&mut self, manager: &BranchManager, ino: u64) -> (r: Target)
        requires
            old(self).wf(),
            manager.wf(),
        ensures
            final(self).wf(),
            final(self)@ == (FsView { open: old(self)@.open.without(ino), ..old(self)@ }),
            final(self).inodes == old(self).inodes,
            r@ == write_goal(final(self)@, manager@, ino),
    {
        self.open_cache.invalidate_ino(ino);
        if ino == CTL_INO {
            return if self.expose_control {
                Target::RootCtl
            } else {
                Target::Fail(Errno::Eperm)
            };
        }
        if let Some(branch) = self.branch_for_ctl_ino(ino) {
            return if self.expose_control {
                Target::BranchCtl(branch)
            } else {
                Target::Fail(Errno::Eperm)
            };
        }
        if self.is_stale(manager) {
            return Target::Fail(Errno::Estale);
        }
        if self.write_cache.get(ino, self.current_epoch) && !self.has_ended(manager, ino) {
            return Target::Cached;
        }
        let path = match self.inodes.get_path(ino) {
            Some(p) => p,
            None => {
                return Target::Fail(Errno::Enoent);
            },
        };
        match self.classify(path.as_str()) {
            PathContext::BranchDir(_) => Target::Fail(Errno::Eperm),
            PathContext::BranchCtl(_) => Target::Fail(Errno::Eperm),
            PathContext::BranchPath(branch, rel) => {
                match self.write_denied_error(manager, branch.as_str()) {
                    Some(e) => Target::Fail(e),
                    None => entry_in_branch(branch.as_str(), rel.as_str()),
                }
            },
            _ => self.entry_in_current(manager, path.as_str()),
        }
    }

    /// Aims at a directory to list.
    pub fn readdir(&self, manager: &BranchManager, ino: u64) -> (r: Target)
        requires
            self.wf(),
            manager.wf(),
        ensures
            r@ == readdir_goal(self@, manager@, ino),
    {
        let path = match self.inodes.get_path(ino) {
            Some(p) => p,
            None => {
                return Target::Fail(Errno::Enoent);
            },
        };
        match self.classify(path.as_str()) {
            PathContext::BranchDir(branch) => {
                if manager.is_branch_valid(branch.as_str()) {
                    Target::BranchDir(branch)
                } else {
                    Target::Fail(Errno::Enoent)
                }
            },
            PathContext::BranchPath(branch, rel) => self.branch_if_valid(
                manager,
                branch.as_str(),
                rel.as_str(),
            ),
            PathContext::RootPath(p) => self.current_unless_stale(manager, p.as_str()),
            _ => Target::Fail(Errno::Enotdir),
        }
    }

    fn new_entry_in_branch(&self, manager: &BranchManager, branch: &str, rel: &str) -> (r: Target)
        requires
            manager.wf(),
        ensures
            r@ == new_in_branch(manager@, branch@, rel@),
    {
        if !manager.is_branch_valid(branch) {
            return Target::Fail(Errno::Enoent);
        }
        match self.write_denied_error(manager, branch) {
            Some(e) => Target::Fail(e),
            None => entry_in_branch(branch, rel),
        }
    }

    /// Aims at a new file, directory or symbolic link.
    pub fn create(&self, manager: &BranchManager, parent: u64, name: &str) -> (r: Target)
        requires
            self.wf(),
            manager.wf(),
        ensures
            r@ == create_goal(self@, manager@, parent, name@),
    {
        proof {
            reveal_strlit("/");
            assert("/"@ =~= seq!['/']);
        }
        let dir = match self.inodes.get_path(parent) {
            Some(p) => p,
            None => {
                return Target::Fail(Errno::Enoent);
            },
        };
        match self.classify(dir.as_str()) {
            PathContext::BranchDir(branch) => self.new_entry_in_branch(
                manager,
                branch.as_str(),
                join_rel("/", name).as_str(),
            ),
            PathContext::BranchPath(branch, rel) => self.new_entry_in_branch(
                manager,
                branch.as_str(),
                join_rel(rel.as_str(), name).as_str(),
            ),
            PathContext::BranchCtl(_) => Target::Fail(Errno::Eperm),
            PathContext::RootCtl => Target::Fail(Errno::Eperm),
            PathContext::RootPath(p) => {
                let branch = self.get_branch_name(manager);
                match self.write_denied_error(manager, branch.as_str()) {
                    Some(e) => Target::Fail(e),
                    None => self.entry_in_current(
                        manager,
                        join_rel(p.as_str(), name).as_str(),
                    ),
                }
            },
        }
    }

    /// Aims at an entry to remove.
    pub fn unlink(&self, manager: &BranchManager, parent: u64, name: &str) -> (r: Target)
        requires
            self.wf(),
            manager.wf(),
        ensures
            r@ == unlink_goal(self@, manager@, parent, name@),
    {
        if let Some(dir) = self.inodes.get_path(parent) {
            if branch_of(self.classify(dir.as_str())).is_some() && (starts_at(name) || same(
                name,
                ".branchfs_ctl",
            )) {
                return Target::Fail(Errno::Eperm);
            }
        }
        self.create(manager, parent, name)
    }

    /// Aims at a file to open.
    pub fn open(&self, manager: &BranchManager, ino: u64, wants_write: bool) -> (r: Target)
        requires
            self.wf(),
            manager.wf(),
        ensures
            r@ == open_goal(self@, manager@, ino, wants_write),
    {
        if ino == CTL_INO || self.branch_for_ctl_ino(ino).is_some() {
            return Target::Done;
        }
        let path = match self.inodes.get_path(ino) {
            Some(p) => p,
            None => {
                return Target::Fail(Errno::Enoent);
            },
        };
        match self.classify(path.as_str()) {
            PathContext::BranchDir(_) => Target::Done,
            PathContext::BranchCtl(_) => Target::Done,
            PathContext::BranchPath(branch, rel) => {
                if wants_write && !self.branch_writable(manager, branch.as_str()) {
                    return Target::Fail(Errno::Erofs);
                }
                self.branch_if_valid(manager, branch.as_str(), rel.as_str())
            },
            _ => self.current_unless_stale(manager, path.as_str()),
        }
    }

    /// Whether a file that `open` found may be opened; through the branch that the mount shows
    /// this is asked last.
    pub fn open_found(&self, manager: &BranchManager, entry: &Entry, wants_write: bool) -> (r: Result<
        (),
        Errno,
    >)
        requires
            manager.wf(),
        ensures
            r is Err <==> wants_write && !writable(manager@, entry@.branch),
            r matches Err(e) ==> e == Errno::Erofs,
    {
        if wants_write {
            match self.write_denied_error(manager, entry.branch.as_str()) {
                Some(e) => Err(e),
                None => Ok(()),
            }
        } else {
            Ok(())
        }
    }

    /// Aims at a file whose attributes are to change. Files that are kept open are let go where
    /// the size changes.
    pub fn setattr(
        &mut self,
        manager: &BranchManager,
        ino: u64,
        resizes: bool,
        changes_other: bool,
    ) -> (r: Target)
        requires
            old(self).wf(),
            manager.wf(),
        ensures
            final(self).wf(),
            final(self)@ == (if resizes {
                FsView {
                    open: old(self)@.open.without(ino),
                    write: old(self)@.write.without(ino),
                    ..old(self)@
                }
            } else {
                old(self)@
            }),
            final(self).inodes == old(self).inodes,
            r@ == setattr_goal(final(self)@, manager@, ino, resizes || changes_other),
    {
        if resizes {
            self.open_cache.invalidate_ino(ino);
            self.write_cache.invalidate_ino(ino);
        }
        let changes = resizes || changes_other;
        if ino == CTL_INO {
            return self.root_ctl_if_shown();
        }
        if let Some(branch) = self.branch_for_ctl_ino(ino) {
            return self.ctl_if_shown(manager, branch);
        }
        let path = match self.inodes.get_path(ino) {
            Some(p) => p,
            None => {
                return Target::Fail(Errno::Enoent);
            },
        };
        match self.classify(path.as_str()) {
            PathContext::BranchDir(_) => Target::Fail(Errno::Eperm),
            PathContext::BranchCtl(_) => Target::Fail(Errno::Eperm),
            PathContext::BranchPath(branch, rel) => {
                if changes && !self.branch_writable(manager, branch.as_str()) {
                    return Target::Fail(Errno::Erofs);
                }
                self.branch_if_valid(manager, branch.as_str(), rel.as_str())
            },
            _ => {
                let branch = self.get_branch_name(manager);
                if changes && !self.branch_writable(manager, branch.as_str()) {
                    return Target::Fail(Errno::Erofs);
                }
                self.entry_in_current(manager, path.as_str())
            },
        }
    }

    /// Aims at a symbolic link to read.
    pub fn readlink(&self, manager: &BranchManager, ino: u64) -> (r: Target)
        requires
            self.wf(),
            manager.wf(),
        ensures
            r@ == readlink_goal(self@, manager@, ino),
    {
        match self.classify_ino(ino) {
            Some(PathContext::BranchPath(branch, rel)) => self.branch_if_valid(
                manager,
                branch.as_str(),
                rel.as_str(),
            ),
            Some(PathContext::RootPath(p)) => self.current_unless_stale(manager, p.as_str()),
            _ => Target::Fail(Errno::Einval),
        }
    }
}

fn entry_in_branch(branch: &str, rel: &str) -> (r: Target)
    ensures
        r@ == in_branch(branch@, rel@),
{
    Target::Entry(
        Entry {
            branch: branch.to_owned(),
            rel: rel.to_owned(),
            inode_path: branch_path_of(branch, rel),
            at_root: false,
        },
    )
}

fn starts_at(name: &str) -> (r: bool)
    ensures
        r == at_name(name@),
{
    !name.is_empty() && name.get_char(0) == '@'
}

/// The branch and the directory that a context stands for.
fn branch_of(c: PathContext) -> (r: Option<(String, String)>)
    ensures
        (match r {
            Some((b, d)) => Some((b@, d@)),
            None => None,
        }) == (match c@ {
            ContextView::BranchDir(b) => Some((b, seq!['/'])),
            ContextView::BranchPath(b, p) => Some((b, p)),
            _ => None,
        }),
{
    proof {
        reveal_strlit("/");
        assert("/"@ =~= seq!['/']);
    }
    match c {
        PathContext::BranchDir(b) => Some((b, "/".to_owned())),
        PathContext::BranchPath(b, p) => Some((b, p)),
        _ => None,
    }
}

/// Whether `child` is a branch whose parent is `parent`.
fn is_child(manager: &BranchManager, child: &str, parent: &str) -> (r: bool)
    requires
        manager.wf(),
    ensures
        r == (valid(manager@, child@) && manager@.branches[child@].parent == Some(parent@)),
{
    match manager.branches.get(child) {
        Some(b) => match &b.parent {
            Some(p) => same(p.as_str(), parent),
            None => false,
        },
        None => false,
    }
}

/// A file that is kept open serves its own inode in its own epoch and nothing else. Once it is let
/// go it serves nothing, and letting go of another inode's file changes nothing.
pub proof fn law_kept_files_serve_their_inode(c: FileCache, ino: u64, epoch: u64, other: u64)
    ensures
        c.serves(ino, epoch) <==> c.held && c.ino == ino && c.epoch == epoch,
        !c.emptied().serves(ino, epoch),
        !c.without(ino).serves(ino, epoch),
        other != ino ==> c.without(other).serves(ino, epoch) == c.serves(ino, epoch),
{
}

} // verus!
