//! What a mount promises: when it refuses to work on, what it hides, and what it writes to.

use vstd::prelude::*;

use crate::branch::BranchView;
use crate::changes::{end_fault, state_fault};
use crate::commit::commit_fault;
use crate::context::{branch_path, ctl_name, first_slash, ContextView};
use crate::control::request_branch;
use crate::errors::Errno;
use crate::fs::{
    create_goal, current, ended, getattr_goal, lookup_goal, open_goal, read_goal, readdir_goal,
    readlink_goal, setattr_goal, stale, stands_for, unlink_goal, valid, writable, write_goal,
    EntryView, FsView, Goal, CTL_INO,
};
use crate::inode::{path_of, Inodes};
use crate::manager::{next, ManagerView, ROOT_INO};
use crate::operations::{
    branch_item, branch_paths, child_path_of, numbered_path, shown_branch, ItemView,
};
use crate::paths::joined;
use crate::records::{BranchState, FileKind};
use crate::rename::{forgotten, reached, rename_goal, RenameGoal};
use crate::text::Text;

verus! {

/// A commit anywhere makes every mount that was up to date stale.
pub proof fn law_commit_makes_mounts_stale(
    f: FsView,
    mv: ManagerView,
    name: Text,
    deleted: Seq<Text>,
    inherited: Seq<bool>,
    written: Seq<Text>,
    change: int,
)
    requires
        commit_fault(mv.branches, name) is None,
        f.epoch == mv.epoch,
    ensures
        stale(f, mv.committed(name, deleted, inherited, written, change)),
{
    assert(next(mv.epoch) != mv.epoch);
}

/// An abort makes the mounts that show the branch stale, and no other.
pub proof fn law_abort_makes_its_mounts_stale(f: FsView, mv: ManagerView, name: Text, freed: u64)
    requires
        end_fault(mv.branches, name) is None,
    ensures
        ({
            let after = mv.aborted(name, freed);
            &&& current(f, mv) == name ==> stale(f, after)
            &&& current(f, mv) != name ==> stale(f, after) == stale(f, mv)
        }),
{
    let after = mv.aborted(name, freed);
    assert(current(f, after) == current(f, mv));
}

/// A stale mount reads and writes no file, lists no directory of the branch that it shows, and
/// opens nothing there.
pub proof fn law_stale_mounts_refuse(f: FsView, mv: ManagerView, ino: u64)
    requires
        stale(f, mv),
        ino != CTL_INO,
        path_of(f.ctl, ino) is None,
    ensures
        read_goal(f, mv, ino) == Goal::Fail(Errno::Estale),
        write_goal(f, mv, ino) == Goal::Fail(Errno::Estale),
        path_of(f.inodes, ino) matches Some(p) && stands_for(f, p) is RootPath ==> {
            &&& readdir_goal(f, mv, ino) == Goal::Fail(Errno::Estale)
            &&& forall|w: bool| open_goal(f, mv, ino, w) == Goal::Fail(Errno::Estale)
            &&& ino != ROOT_INO ==> getattr_goal(f, mv, ino) == Goal::Fail(Errno::Estale)
        },
{
}

/// Nothing of a branch that has ended is read or written any more, not even through a file that is
/// kept open.
pub proof fn law_ended_branches_are_not_served(f: FsView, mv: ManagerView, ino: u64)
    requires
        ended(f, mv, ino),
    ensures
        read_goal(f, mv, ino) is Fail,
        write_goal(f, mv, ino) is Fail,
        readlink_goal(f, mv, ino) is Fail,
{
}

/// Whether an operation leads nowhere but to the branch that the mount shows.
pub open spec fn stays_home(f: FsView, mv: ManagerView, g: Goal) -> bool {
    &&& !(g is RootCtl)
    &&& !(g is BranchCtl)
    &&& !(g is BranchDir)
    &&& g matches Goal::Entry(e) ==> e.branch == current(f, mv) && e.at_root
}

/// A mount that hides its controls leads to no control file and to no branch but the one that it
/// shows, whatever the names are, and takes no commands and no requests, whatever file they are
/// sent to.
pub proof fn law_hidden_controls_are_out_of_reach(
    f: FsView,
    mv: ManagerView,
    ino: u64,
    name: Text,
    newparent: u64,
    newname: Text,
    flag: bool,
)
    requires
        !f.expose,
    ensures
        request_branch(f, mv, ino) is Err,
        path_of(f.ctl, ino) is Some ==> write_goal(f, mv, ino) is Fail,
        getattr_goal(f, mv, CTL_INO) == Goal::Fail(Errno::Enoent),
        read_goal(f, mv, CTL_INO) == Goal::Fail(Errno::Enoent),
        write_goal(f, mv, CTL_INO) == Goal::Fail(Errno::Eperm),
        stays_home(f, mv, lookup_goal(f, mv, ino, name)),
        stays_home(f, mv, getattr_goal(f, mv, ino)),
        stays_home(f, mv, read_goal(f, mv, ino)),
        stays_home(f, mv, write_goal(f, mv, ino)),
        stays_home(f, mv, readdir_goal(f, mv, ino)),
        stays_home(f, mv, create_goal(f, mv, ino, name)),
        stays_home(f, mv, unlink_goal(f, mv, ino, name)),
        stays_home(f, mv, open_goal(f, mv, ino, flag)),
        stays_home(f, mv, setattr_goal(f, mv, ino, flag)),
        stays_home(f, mv, readlink_goal(f, mv, ino)),
        rename_goal(f, mv, ino, name, newparent, newname) matches RenameGoal::Move { src, dst }
            ==> src.branch == current(f, mv) && dst.branch == current(f, mv),
{
}

/// Entries are made, removed, renamed and changed only in branches that take writes.
pub proof fn law_only_open_branches_change(
    f: FsView,
    mv: ManagerView,
    ino: u64,
    name: Text,
    newparent: u64,
    newname: Text,
)
    ensures
        create_goal(f, mv, ino, name) matches Goal::Entry(e) ==> writable(mv, e.branch),
        unlink_goal(f, mv, ino, name) matches Goal::Entry(e) ==> writable(mv, e.branch),
        setattr_goal(f, mv, ino, true) matches Goal::Entry(e) ==> writable(mv, e.branch),
        write_goal(f, mv, ino) matches Goal::Entry(e) ==> e.at_root || writable(mv, e.branch),
        open_goal(f, mv, ino, true) matches Goal::Entry(e) ==> e.at_root || writable(
            mv,
            e.branch,
        ),
        rename_goal(f, mv, ino, name, newparent, newname) matches RenameGoal::Move { src, dst }
            ==> src.branch == dst.branch && writable(mv, src.branch),
{
}

/// A frozen branch is not writable until it is thawed.
pub proof fn law_frozen_branches_are_read_only(mv: ManagerView, branch: Text)
    requires
        valid(mv, branch),
    ensures
        writable(mv, branch) <==> mv.branches[branch].state != BranchState::Frozen,
{
}

/// Freezing and thawing a branch is noticed: once the change is announced, every mount that was up
/// to date is stale, and the branch takes writes exactly if it was thawed.
pub proof fn law_freezing_is_noticed(
    f: FsView,
    mv: ManagerView,
    branch: Text,
    state: BranchState,
)
    requires
        state_fault(mv.branches, branch) is None,
        f.epoch == mv.epoch,
    ensures
        ({
            let changed = mv.with(branch, BranchView { state, ..mv.branches[branch] });
            let told = ManagerView { epoch: next(changed.epoch), ..changed };
            &&& stale(f, told)
            &&& writable(told, branch) <==> state == BranchState::Open
            &&& forall|other: Text|
                other != branch ==> (#[trigger] writable(told, other) <==> writable(mv, other))
        }),
{
}

/// A nested branch is reached at `/@child` and at `/@parent/@child`, and both lead to the same
/// directory.
pub proof fn law_nested_branches_are_reached_twice(
    f: FsView,
    mv: ManagerView,
    dir: u64,
    parent: Text,
    child: Text,
)
    requires
        f.expose,
        path_of(f.inodes, ROOT_INO) == Some(seq!['/']),
        path_of(f.inodes, dir) == Some(branch_path(parent, seq![])),
        !parent.contains('/'),
        valid(mv, child),
        mv.branches[child].parent == Some(parent),
    ensures
        lookup_goal(f, mv, ROOT_INO, seq!['@'] + child) == Goal::BranchDir(child),
        lookup_goal(f, mv, dir, seq!['@'] + child) == Goal::BranchDir(child),
{
    let name = seq!['@'] + child;
    assert(name.skip(1) =~= child);
    assert(name[0] == '@');
    assert(name != ctl_name()) by {
        reveal_strlit(".branchfs_ctl");
        assert(ctl_name()[0] == '.');
    }
    crate::context::law_branch_paths_read_back(parent, seq!['/', 'x']);
    assert(branch_path(parent, seq![]) != seq!['/']) by {
        reveal_strlit("/@");
        assert(branch_path(parent, seq![]).len() >= 2);
    }
}

/// Whether a path of the mount is the path `rel` of `branch`: the mount shows its own branch at its
/// root, and every branch `b` below `/@b` where it shows its controls.
pub open spec fn leads_to(
    f: FsView,
    mv: ManagerView,
    path: Text,
    branch: Text,
    rel: Text,
    at_root: bool,
) -> bool {
    if f.expose && path.len() >= 2 && path[0] == '/' && path[1] == '@' {
        &&& !at_root
        &&& !branch.contains('/')
        &&& rel.len() == 0 || rel[0] == '/'
        &&& path == seq!['/', '@'] + branch + rel
    } else {
        &&& at_root
        &&& branch == if mv.mounts.dom().contains(f.mountpoint) {
            mv.mounts[f.mountpoint]
        } else {
            "main"@
        }
        &&& rel == path
    }
}

/// Whether an entry is the one with that path in the mount.
pub open spec fn is_entry_at(f: FsView, mv: ManagerView, path: Text, e: EntryView) -> bool {
    e.inode_path == path && leads_to(f, mv, path, e.branch, e.rel, e.at_root)
}

/// Whether an entry is the child `name` of the directory `dir` of the mount: its path in the mount
/// is that of the directory, a slash and the name, and so is its path in the branch that the
/// directory belongs to. The root has no second slash.
pub open spec fn is_child_of(
    f: FsView,
    mv: ManagerView,
    dir: Text,
    name: Text,
    e: EntryView,
) -> bool {
    &&& e.inode_path == if dir == seq!['/'] {
        seq!['/'] + name
    } else {
        dir + seq!['/'] + name
    }
    &&& exists|r: Text|
        #[trigger] leads_to(f, mv, dir, e.branch, r, e.at_root) && e.rel == if r == seq!['/'] {
            seq!['/'] + name
        } else {
            r + seq!['/'] + name
        }
}

/// Whether a path is one that directories are numbered by: absolute, and without a slash at its
/// end unless it is the root.
pub open spec fn whole_dir(dir: Text) -> bool {
    dir.len() > 0 && dir[0] == '/' && (dir.last() != '/' || dir.len() == 1)
}

/// Whether a path is that of a control file.
pub open spec fn is_control(path: Text) -> bool {
    exists|d: Text| path == #[trigger] (d + seq!['/'] + ".branchfs_ctl"@)
}

proof fn lemma_slash_end(t: Text)
    ensures
        0 <= first_slash(t) <= t.len(),
        !t.take(first_slash(t)).contains('/'),
        first_slash(t) < t.len() ==> t[first_slash(t)] == '/',
    decreases t.len(),
{
    if t.len() > 0 && t[0] != '/' {
        let u = t.drop_first();
        lemma_slash_end(u);
        let k = first_slash(t);
        assert(t.take(k).drop_first() =~= u.take(k - 1));
        if t.take(k).contains('/') {
            let j = choose|j: int| 0 <= j < k && t.take(k)[j] == '/';
            assert(u.take(k - 1)[j - 1] == '/');
        }
    }
}

/// What a path stands for, told by where it leads.
proof fn lemma_stands_for(f: FsView, mv: ManagerView, path: Text)
    ensures
        match stands_for(f, path) {
            ContextView::BranchDir(b) => f.expose && leads_to(f, mv, path, b, seq![], false)
                && path == branch_path(b, seq![]),
            ContextView::BranchCtl(b) => f.expose && path == branch_path(
                b,
                seq!['/'] + ctl_name(),
            ),
            ContextView::BranchPath(b, r) => f.expose && leads_to(f, mv, path, b, r, false)
                && path == branch_path(b, r) && r.len() > 0,
            ContextView::RootCtl => f.expose && leads_to(
                f,
                mv,
                path,
                current(f, mv),
                path,
                true,
            ) && path == seq!['/'] + ctl_name(),
            ContextView::RootPath(p) => p == path && leads_to(
                f,
                mv,
                path,
                current(f, mv),
                path,
                true,
            ),
        },
{
    reveal_strlit("/@");
    reveal_strlit(".branchfs_ctl");
    if f.expose && "/@"@.is_prefix_of(path) {
        let t = path.skip(2);
        let k = first_slash(t);
        lemma_slash_end(t);
        assert(path[0] == "/@"@[0] && path[1] == "/@"@[1]);
        assert(path =~= branch_path(t.take(k), t.skip(k)));
        assert(path =~= seq!['/', '@'] + t.take(k) + t.skip(k));
        if t.skip(k).len() == 0 {
            assert(t.skip(k) =~= seq![]);
        }
    } else if f.expose && path.len() >= 2 && path[0] == '/' && path[1] == '@' {
        assert("/@"@ =~= path.take(2));
    }
}

/// A path leads to one branch and one path in it.
pub proof fn law_paths_lead_to_one_place(
    f: FsView,
    mv: ManagerView,
    path: Text,
    b1: Text,
    r1: Text,
    a1: bool,
    b2: Text,
    r2: Text,
    a2: bool,
)
    requires
        leads_to(f, mv, path, b1, r1, a1),
        leads_to(f, mv, path, b2, r2, a2),
    ensures
        b1 == b2 && r1 == r2 && a1 == a2,
{
    if !a1 {
        let t = path.skip(2);
        assert(t =~= b1 + r1);
        assert(t =~= b2 + r2);
        if b1.len() < b2.len() {
            assert(t[b1.len() as int] == r1[0]);
            assert(b2[b1.len() as int] == '/');
            assert(b2.contains('/'));
        } else if b2.len() < b1.len() {
            assert(t[b2.len() as int] == r2[0]);
            assert(b1[b2.len() as int] == '/');
            assert(b1.contains('/'));
        }
        assert(b1 =~= t.take(b1.len() as int));
        assert(b2 =~= t.take(b2.len() as int));
        assert(r1 =~= t.skip(b1.len() as int));
        assert(r2 =~= t.skip(b2.len() as int));
    }
}

/// Whatever an operation on a number works on is the entry at the path that the number stands for.
pub proof fn law_operations_work_on_the_numbered_path(
    f: FsView,
    mv: ManagerView,
    ino: u64,
    flag: bool,
)
    requires
        path_of(f.inodes, ROOT_INO) == Some(seq!['/']),
    ensures
        ({
            let at = path_of(f.inodes, ino);
            let right = |g: Goal| g matches Goal::Entry(e) ==> at is Some && is_entry_at(
                f,
                mv,
                at->0,
                e,
            );
            &&& right(getattr_goal(f, mv, ino))
            &&& right(read_goal(f, mv, ino))
            &&& right(write_goal(f, mv, ino))
            &&& right(readdir_goal(f, mv, ino))
            &&& right(open_goal(f, mv, ino, flag))
            &&& right(setattr_goal(f, mv, ino, flag))
            &&& right(readlink_goal(f, mv, ino))
        }),
{
    lemma_stands_for(f, mv, seq!['/']);
    assert(stands_for(f, seq!['/']) == ContextView::RootPath(seq!['/'])) by {
        reveal_strlit("/@");
        reveal_strlit(".branchfs_ctl");
        assert(seq!['/'].len() != (seq!['/'] + ctl_name()).len());
    }
    if let Some(path) = path_of(f.inodes, ino) {
        lemma_stands_for(f, mv, path);
    }
}

/// A file that is numbered is served as the entry at its path, whatever branch the mount shows:
/// an up-to-date mount gives its attributes, reads it, opens it, follows it as a link and lists it
/// as that entry, and where its branch takes writes, writes and changes it as that entry. Reading
/// and writing use the kept file where that is the one.
pub proof fn law_numbered_entries_are_served(f: FsView, mv: ManagerView, ino: u64, e: EntryView)
    requires
        path_of(f.inodes, ino) == Some(e.inode_path),
        ino != ROOT_INO,
        ino != CTL_INO,
        path_of(f.ctl, ino) is None,
        is_entry_at(f, mv, e.inode_path, e),
        e.rel.len() > 0,
        f.expose ==> e.rel != seq!['/'] + ".branchfs_ctl"@,
        f.epoch == mv.epoch,
        mv.branches.dom().contains(current(f, mv)),
        mv.branches.dom().contains(e.branch),
    ensures
        getattr_goal(f, mv, ino) == Goal::Entry(e),
        open_goal(f, mv, ino, false) == Goal::Entry(e),
        readlink_goal(f, mv, ino) == Goal::Entry(e),
        readdir_goal(f, mv, ino) == Goal::Entry(e),
        setattr_goal(f, mv, ino, false) == Goal::Entry(e),
        read_goal(f, mv, ino) == if f.open.held && f.open.ino == ino && f.open.epoch == f.epoch {
            Goal::Cached
        } else {
            Goal::Entry(e)
        },
        mv.branches[e.branch].state == BranchState::Open ==> {
            &&& open_goal(f, mv, ino, true) == Goal::Entry(e)
            &&& setattr_goal(f, mv, ino, true) == Goal::Entry(e)
            &&& write_goal(f, mv, ino) == if f.write.held && f.write.ino == ino && f.write.epoch
                == f.epoch {
                Goal::Cached
            } else {
                Goal::Entry(e)
            }
        },
{
    let path = e.inode_path;
    lemma_stands_for(f, mv, path);
    lemma_leads_back(f, mv, path, e.branch, e.rel, e.at_root);
}

/// What a path stands for that leads to a path of a branch.
proof fn lemma_leads_back(
    f: FsView,
    mv: ManagerView,
    path: Text,
    branch: Text,
    rel: Text,
    at_root: bool,
)
    requires
        leads_to(f, mv, path, branch, rel, at_root),
        f.expose ==> rel != seq!['/'] + ctl_name(),
    ensures
        at_root ==> stands_for(f, path) == ContextView::RootPath(path) && branch == current(f, mv),
        !at_root && rel.len() > 0 ==> stands_for(f, path) == ContextView::BranchPath(branch, rel),
        !at_root && rel.len() == 0 ==> stands_for(f, path) == ContextView::BranchDir(branch),
        !at_root ==> path == branch_path(branch, rel),
{
    reveal_strlit("/@");
    if at_root {
        if "/@"@.is_prefix_of(path) {
            assert(path[0] == "/@"@[0] && path[1] == "/@"@[1]);
        }
    } else {
        assert("/@"@ =~= seq!['/', '@']);
        assert(path == branch_path(branch, rel));
        if rel.len() > 0 {
            crate::context::law_branch_paths_read_back(branch, rel);
        } else {
            crate::context::law_branch_paths_read_back(branch, seq!['/', 'x']);
            assert(rel =~= seq![]);
        }
    }
}

/// Whatever an operation on a name in a directory works on is the child of that name of the
/// directory that the number stands for. That holds of both ends of a rename, which stays in one
/// branch.
pub proof fn law_operations_work_on_the_named_child(
    f: FsView,
    mv: ManagerView,
    parent: u64,
    name: Text,
    newparent: u64,
    newname: Text,
)
    requires
        forall|p: Text| #[trigger] f.inodes.dom().contains(p) ==> whole_dir(p),
        f.expose ==> (path_of(f.inodes, parent) matches Some(dir) ==> !is_control(dir)),
    ensures
        ({
            let dir = path_of(f.inodes, parent);
            let newdir = path_of(f.inodes, newparent);
            let right = |g: Goal| g matches Goal::Entry(e) ==> dir is Some && is_child_of(
                f,
                mv,
                dir->0,
                name,
                e,
            );
            &&& right(lookup_goal(f, mv, parent, name))
            &&& right(create_goal(f, mv, parent, name))
            &&& right(unlink_goal(f, mv, parent, name))
            &&& rename_goal(f, mv, parent, name, newparent, newname) matches RenameGoal::Move {
                src,
                dst,
            } ==> {
                &&& dir is Some && is_child_of(f, mv, dir->0, name, src)
                &&& newdir is Some && is_child_of(f, mv, newdir->0, newname, dst)
                &&& src.branch == dst.branch
                &&& src.at_root == dst.at_root
            }
        }),
{
    if let Some(dir) = path_of(f.inodes, parent) {
        lemma_children(f, mv, dir, name);
        assert(f.inodes.dom().contains(dir));
        lemma_stands_for(f, mv, dir);
        if let ContextView::BranchCtl(b) = stands_for(f, dir) {
            let d = "/@"@ + b;
            assert(dir =~= d + seq!['/'] + ".branchfs_ctl"@);
        }
        if let ContextView::RootCtl = stands_for(f, dir) {
            let d: Text = seq![];
            assert(dir =~= d + seq!['/'] + ".branchfs_ctl"@);
        }
    }
    if let Some(dir) = path_of(f.inodes, newparent) {
        lemma_children(f, mv, dir, newname);
        assert(f.inodes.dom().contains(dir));
    }
}

/// The children of a directory, in the branch that the directory belongs to.
proof fn lemma_children(f: FsView, mv: ManagerView, dir: Text, name: Text)
    requires
        whole_dir(dir),
    ensures
        match stands_for(f, dir) {
            ContextView::BranchDir(b) => is_child_of(
                f,
                mv,
                dir,
                name,
                reached(b, joined(seq!['/'], name), false),
            ),
            ContextView::BranchPath(b, r) => is_child_of(
                f,
                mv,
                dir,
                name,
                reached(b, joined(r, name), false),
            ),
            ContextView::RootPath(p) => is_child_of(
                f,
                mv,
                dir,
                name,
                reached(current(f, mv), joined(p, name), true),
            ),
            _ => true,
        },
        dir == seq!['/'] ==> stands_for(f, dir) == ContextView::RootPath(dir),
{
    lemma_stands_for(f, mv, dir);
    reveal_strlit("/@");
    match stands_for(f, dir) {
        ContextView::BranchDir(b) => {
            let e = reached(b, joined(seq!['/'], name), false);
            assert(dir =~= "/@"@ + b);
            assert(e.inode_path =~= dir + seq!['/'] + name);
            let r: Text = seq![];
            assert(leads_to(f, mv, dir, e.branch, r, e.at_root));
            assert(r.len() != seq!['/'].len());
            assert(e.rel =~= r + seq!['/'] + name);
            assert(dir.len() >= 2);
            assert(is_child_of(f, mv, dir, name, e));
        },
        ContextView::BranchPath(b, r) => {
            let e = reached(b, joined(r, name), false);
            assert(r.last() == dir.last());
            assert(r != seq!['/']);
            assert(e.inode_path =~= dir + seq!['/'] + name);
            assert(leads_to(f, mv, dir, e.branch, r, e.at_root));
            assert(dir.len() >= 2);
            assert(is_child_of(f, mv, dir, name, e));
        },
        ContextView::RootPath(p) => {
            let e = reached(current(f, mv), joined(p, name), true);
            assert(leads_to(f, mv, dir, e.branch, dir, e.at_root));
            assert(is_child_of(f, mv, dir, name, e));
        },
        _ => {},
    }
    if dir == seq!['/'] {
        reveal_strlit(".branchfs_ctl");
        assert(dir.len() != (seq!['/'] + ctl_name()).len());
    }
}

/// Looking up an ordinary name in a directory of an up-to-date mount always leads to the child of
/// that name, for directories at every depth and in every branch that exists.
pub proof fn law_lookup_finds_the_child(
    f: FsView,
    mv: ManagerView,
    parent: u64,
    dir: Text,
    branch: Text,
    rel: Text,
    at_root: bool,
    name: Text,
)
    requires
        path_of(f.inodes, parent) == Some(dir),
        whole_dir(dir),
        leads_to(f, mv, dir, branch, rel, at_root),
        f.expose ==> rel != seq!['/'] + ".branchfs_ctl"@,
        at_root ==> f.epoch == mv.epoch,
        mv.branches.dom().contains(branch),
        f.expose ==> name != ".branchfs_ctl"@ && !(name.len() > 0 && name[0] == '@'),
    ensures
        lookup_goal(f, mv, parent, name) matches Goal::Entry(e) && is_child_of(
            f,
            mv,
            dir,
            name,
            e,
        ),
        mv.branches[branch].state == BranchState::Open ==> {
            &&& create_goal(f, mv, parent, name) matches Goal::Entry(e) && is_child_of(
                f,
                mv,
                dir,
                name,
                e,
            )
            &&& unlink_goal(f, mv, parent, name) matches Goal::Entry(e) && is_child_of(
                f,
                mv,
                dir,
                name,
                e,
            )
        },
{
    lemma_leads_back(f, mv, dir, branch, rel, at_root);
    lemma_children(f, mv, dir, name);
}

/// A rename between two directories of one branch that takes writes goes ahead, and one between
/// directories of different branches is refused.
pub proof fn law_rename_goes_ahead_in_one_branch(
    f: FsView,
    mv: ManagerView,
    parent: u64,
    from: Text,
    src_rel: Text,
    name: Text,
    newparent: u64,
    to: Text,
    dst_rel: Text,
    newname: Text,
    branch: Text,
    other: Text,
    at_root: bool,
    other_root: bool,
)
    requires
        path_of(f.inodes, parent) == Some(from),
        path_of(f.inodes, newparent) == Some(to),
        leads_to(f, mv, from, branch, src_rel, at_root),
        leads_to(f, mv, to, other, dst_rel, other_root),
        f.expose ==> src_rel != seq!['/'] + ".branchfs_ctl"@,
        f.expose ==> dst_rel != seq!['/'] + ".branchfs_ctl"@,
    ensures
        ({
            let g = rename_goal(f, mv, parent, name, newparent, newname);
            &&& branch == other && at_root == other_root && mv.branches.dom().contains(branch)
                && mv.branches[branch].state == BranchState::Open ==> g is Move
            &&& branch == other && at_root == other_root && mv.branches.dom().contains(branch)
                && mv.branches[branch].state != BranchState::Open ==> g == RenameGoal::Fail(
                Errno::Erofs,
            )
            &&& at_root != other_root || branch != other ==> g == RenameGoal::Fail(Errno::Exdev)
        }),
{
    lemma_leads_back(f, mv, from, branch, src_rel, at_root);
    lemma_leads_back(f, mv, to, other, dst_rel, other_root);
}

/// Where a mount shows its controls, its control file is found at its root and that of a branch in
/// the directory of the branch, a branch is found at the root by its name behind an `@` exactly if
/// it exists, and in the directory of another branch exactly if that is its parent.
pub proof fn law_control_names_are_found(
    f: FsView,
    mv: ManagerView,
    dir: u64,
    above: Text,
    branch: Text,
)
    requires
        f.expose,
        path_of(f.inodes, ROOT_INO) == Some(seq!['/']),
        path_of(f.inodes, dir) == Some(seq!['/', '@'] + above),
        !above.contains('/'),
    ensures
        lookup_goal(f, mv, ROOT_INO, ".branchfs_ctl"@) == Goal::RootCtl,
        lookup_goal(f, mv, dir, ".branchfs_ctl"@) == Goal::BranchCtl(above),
        lookup_goal(f, mv, ROOT_INO, seq!['@'] + branch) == if mv.branches.dom().contains(branch) {
            Goal::BranchDir(branch)
        } else {
            Goal::Fail(Errno::Enoent)
        },
        lookup_goal(f, mv, dir, seq!['@'] + branch) == if mv.branches.dom().contains(branch)
            && mv.branches[branch].parent == Some(above) {
            Goal::BranchDir(branch)
        } else {
            Goal::Fail(Errno::Enoent)
        },
{
    reveal_strlit(".branchfs_ctl");
    reveal_strlit("/@");
    let name = seq!['@'] + branch;
    assert(name.skip(1) =~= branch);
    assert(name[0] == '@');
    assert(name != ctl_name()) by {
        assert(ctl_name()[0] == '.');
    }
    assert(seq!['/', '@'] + above =~= branch_path(above, seq![]));
    crate::context::law_branch_paths_read_back(above, seq!['/', 'x']);
    assert((seq!['/', '@'] + above).len() != seq!['/'].len());
}

/// A number that stands for nothing is not found, whatever is asked of it.
pub proof fn law_unknown_numbers_are_not_found(
    f: FsView,
    mv: ManagerView,
    ino: u64,
    name: Text,
    other: u64,
    newname: Text,
    flag: bool,
)
    requires
        path_of(f.inodes, ino) is None,
        path_of(f.ctl, ino) is None,
        ino != CTL_INO,
        ino != ROOT_INO,
        f.epoch == mv.epoch,
        mv.branches.dom().contains(current(f, mv)),
    ensures
        lookup_goal(f, mv, ino, name) == Goal::Fail(Errno::Enoent),
        create_goal(f, mv, ino, name) == Goal::Fail(Errno::Enoent),
        unlink_goal(f, mv, ino, name) == Goal::Fail(Errno::Enoent),
        rename_goal(f, mv, ino, name, other, newname) == RenameGoal::Fail(Errno::Enoent),
        rename_goal(f, mv, other, name, ino, newname) == RenameGoal::Fail(Errno::Enoent),
        getattr_goal(f, mv, ino) == Goal::Fail(Errno::Enoent),
        readdir_goal(f, mv, ino) == Goal::Fail(Errno::Enoent),
        open_goal(f, mv, ino, flag) == Goal::Fail(Errno::Enoent),
        setattr_goal(f, mv, ino, flag) == Goal::Fail(Errno::Enoent),
        !f.open.held ==> read_goal(f, mv, ino) == Goal::Fail(Errno::Enoent),
        !f.write.held ==> write_goal(f, mv, ino) == Goal::Fail(Errno::Enoent),
        readlink_goal(f, mv, ino) == Goal::Fail(Errno::Einval),
{
}

/// What lies in a branch that does not exist is not found, and what lies in one that takes no
/// writes is neither made nor changed.
pub proof fn law_branches_must_exist_and_take_writes(
    f: FsView,
    mv: ManagerView,
    ino: u64,
    dir: u64,
    branch: Text,
    rel: Text,
    name: Text,
)
    requires
        f.expose,
        path_of(f.inodes, ino) == Some(seq!['/', '@'] + branch + rel),
        path_of(f.inodes, dir) == Some(seq!['/', '@'] + branch),
        ino != ROOT_INO,
        ino != CTL_INO,
        path_of(f.ctl, ino) is None,
        !branch.contains('/'),
        rel.len() > 0,
        rel[0] == '/',
        rel != seq!['/'] + ".branchfs_ctl"@,
        f.epoch == mv.epoch,
        mv.branches.dom().contains(current(f, mv)),
        !(name.len() > 0 && name[0] == '@'),
        name != ".branchfs_ctl"@,
    ensures
        !mv.branches.dom().contains(branch) ==> {
            &&& getattr_goal(f, mv, ino) == Goal::Fail(Errno::Enoent)
            &&& read_goal(f, mv, ino) == Goal::Fail(Errno::Enoent)
            &&& readdir_goal(f, mv, ino) == Goal::Fail(Errno::Enoent)
            &&& readlink_goal(f, mv, ino) == Goal::Fail(Errno::Enoent)
            &&& open_goal(f, mv, ino, false) == Goal::Fail(Errno::Enoent)
            &&& lookup_goal(f, mv, dir, name) == Goal::Fail(Errno::Enoent)
            &&& create_goal(f, mv, dir, name) == Goal::Fail(Errno::Enoent)
            &&& unlink_goal(f, mv, dir, name) == Goal::Fail(Errno::Enoent)
        },
        mv.branches.dom().contains(branch) && mv.branches[branch].state == BranchState::Frozen ==> {
            &&& create_goal(f, mv, dir, name) == Goal::Fail(Errno::Erofs)
            &&& unlink_goal(f, mv, dir, name) == Goal::Fail(Errno::Erofs)
            &&& open_goal(f, mv, ino, true) == Goal::Fail(Errno::Erofs)
            &&& setattr_goal(f, mv, ino, true) == Goal::Fail(Errno::Erofs)
            &&& !f.write.held ==> write_goal(f, mv, ino) == Goal::Fail(Errno::Erofs)
        },
{
    let path = seq!['/', '@'] + branch + rel;
    assert(path.len() >= 2 && path[0] == '/' && path[1] == '@');
    assert(leads_to(f, mv, path, branch, rel, false));
    lemma_leads_back(f, mv, path, branch, rel, false);
    let d = seq!['/', '@'] + branch;
    let none: Text = seq![];
    assert(d =~= seq!['/', '@'] + branch + none);
    assert(leads_to(f, mv, d, branch, none, false));
    assert(none.len() != (seq!['/'] + ctl_name()).len());
    lemma_leads_back(f, mv, d, branch, none, false);
    assert(d.len() != seq!['/'].len());
}

/// The root of a mount is never refused: its attributes are those of the root of the branch that
/// the mount shows.
pub proof fn law_root_is_always_there(f: FsView, mv: ManagerView)
    requires
        path_of(f.inodes, ROOT_INO) == Some(seq!['/']),
        path_of(f.ctl, ROOT_INO) is None,
    ensures
        getattr_goal(f, mv, ROOT_INO) matches Goal::Entry(e) && is_entry_at(f, mv, seq!['/'], e),
{
    lemma_children(f, mv, seq!['/'], seq![]);
    lemma_stands_for(f, mv, seq!['/']);
}

/// A mount is stale exactly if something was announced since it last caught up or the branch that
/// it shows is gone.
pub proof fn law_mounts_go_stale(f: FsView, mv: ManagerView, branch: Text)
    requires
        mv.mounts.dom().contains(f.mountpoint) ==> mv.mounts[f.mountpoint] == branch,
        !mv.mounts.dom().contains(f.mountpoint) ==> branch == "main"@,
    ensures
        stale(f, mv) <==> f.epoch != mv.epoch || !mv.branches.dom().contains(branch),
        current(f, mv) == branch,
{
}

/// A name that a directory lists is numbered by the path under which looking it up finds it.
pub proof fn law_listed_names_are_found(
    f: FsView,
    mv: ManagerView,
    ino: u64,
    dir: Text,
    name: Text,
    listed: EntryView,
)
    requires
        path_of(f.inodes, ino) == Some(dir),
        whole_dir(dir),
        ino != ROOT_INO ==> dir != seq!['/'],
        f.expose ==> !is_control(dir),
        readdir_goal(f, mv, ino) == Goal::Entry(listed) || (exists|b: Text| readdir_goal(f, mv, ino)
            == Goal::BranchDir(b) && listed == (EntryView {
            branch: b,
            rel: seq!['/'],
            inode_path: dir,
            at_root: false,
        })),
    ensures
        lookup_goal(f, mv, ino, name) matches Goal::Entry(e) ==> e.inode_path == child_path_of(
            listed,
            name,
        ) && e.branch == listed.branch && e.at_root == listed.at_root,
        child_path_of(listed, name) == if dir == seq!['/'] {
            seq!['/'] + name
        } else {
            dir + seq!['/'] + name
        },
{
    lemma_children(f, mv, dir, name);
    lemma_stands_for(f, mv, dir);
    reveal_strlit("/@");
}

/// At the root of a mount all branches but main have their directories, and the directory of a
/// branch holds those that were forked from it.
pub proof fn law_branches_are_shown_by_parent(mv: ManagerView, above: Text, name: Text)
    ensures
        shown_branch(mv, None, name) <==> mv.branches.dom().contains(name) && name != "main"@,
        shown_branch(mv, Some(above), name) <==> mv.branches.dom().contains(name)
            && mv.branches[name].parent == Some(above),
{
}

/// A stale mount looks up no name in the branch that it shows and follows no link there, and a
/// mount whose branch takes no writes makes and removes nothing there.
pub proof fn law_refusals_at_the_root(
    f: FsView,
    mv: ManagerView,
    ino: u64,
    path: Text,
    name: Text,
)
    requires
        path_of(f.inodes, ino) == Some(path),
        path_of(f.inodes, ROOT_INO) == Some(seq!['/']),
        ino != CTL_INO,
        path_of(f.ctl, ino) is None,
        leads_to(f, mv, path, current(f, mv), path, true),
        f.expose ==> path != seq!['/'] + ".branchfs_ctl"@,
        f.expose ==> name != ".branchfs_ctl"@ && !(name.len() > 0 && name[0] == '@'),
    ensures
        f.epoch != mv.epoch || !mv.branches.dom().contains(current(f, mv)) ==> {
            &&& lookup_goal(f, mv, ino, name) == Goal::Fail(Errno::Estale)
            &&& readlink_goal(f, mv, ino) == Goal::Fail(Errno::Estale)
        },
        !(mv.branches.dom().contains(current(f, mv)) && mv.branches[current(f, mv)].state
            == BranchState::Open) ==> {
            &&& create_goal(f, mv, ino, name) == Goal::Fail(Errno::Erofs)
            &&& unlink_goal(f, mv, ino, name) == Goal::Fail(Errno::Erofs)
            &&& setattr_goal(f, mv, ino, true) == Goal::Fail(Errno::Erofs)
        },
{
    lemma_leads_back(f, mv, path, current(f, mv), path, true);
}

/// The directory of a branch is served as that directory while the branch exists: it has
/// attributes, is listed and opens, but it is neither read nor written nor changed, and neither
/// its control file nor the branches in it are removed.
pub proof fn law_branch_directories_are_served(
    f: FsView,
    mv: ManagerView,
    ino: u64,
    branch: Text,
    name: Text,
    flag: bool,
)
    requires
        f.expose,
        path_of(f.inodes, ino) == Some(seq!['/', '@'] + branch),
        !branch.contains('/'),
        ino != ROOT_INO,
        ino != CTL_INO,
        path_of(f.ctl, ino) is None,
        f.epoch == mv.epoch,
        mv.branches.dom().contains(current(f, mv)),
    ensures
        getattr_goal(f, mv, ino) == if mv.branches.dom().contains(branch) {
            Goal::BranchDir(branch)
        } else {
            Goal::Fail(Errno::Enoent)
        },
        readdir_goal(f, mv, ino) == if mv.branches.dom().contains(branch) {
            Goal::BranchDir(branch)
        } else {
            Goal::Fail(Errno::Enoent)
        },
        open_goal(f, mv, ino, flag) == Goal::Done,
        !f.open.held ==> read_goal(f, mv, ino) == Goal::Fail(Errno::Eisdir),
        !f.write.held ==> write_goal(f, mv, ino) == Goal::Fail(Errno::Eperm),
        setattr_goal(f, mv, ino, flag) == Goal::Fail(Errno::Eperm),
        unlink_goal(f, mv, ino, ".branchfs_ctl"@) == Goal::Fail(Errno::Eperm),
        unlink_goal(f, mv, ino, seq!['@'] + name) == Goal::Fail(Errno::Eperm),
{
    let d = seq!['/', '@'] + branch;
    let none: Text = seq![];
    assert(d =~= seq!['/', '@'] + branch + none);
    assert(d[0] == '/' && d[1] == '@');
    assert(leads_to(f, mv, d, branch, none, false));
    assert(none.len() != (seq!['/'] + ctl_name()).len());
    lemma_leads_back(f, mv, d, branch, none, false);
    assert((seq!['@'] + name)[0] == '@');
}

/// Where a mount shows its controls, its own control file has attributes, is read and takes
/// commands, stale or not. The control file of a branch takes commands for that branch, and has
/// attributes while the branch exists.
pub proof fn law_control_files_are_served(
    f: FsView,
    mv: ManagerView,
    ino: u64,
    branch: Text,
    flag: bool,
)
    requires
        f.expose,
        path_of(f.ctl, ino) == Some(branch),
        ino != CTL_INO,
    ensures
        getattr_goal(f, mv, CTL_INO) == Goal::RootCtl,
        read_goal(f, mv, CTL_INO) == Goal::RootCtl,
        write_goal(f, mv, CTL_INO) == Goal::RootCtl,
        open_goal(f, mv, CTL_INO, flag) == Goal::Done,
        setattr_goal(f, mv, CTL_INO, flag) == Goal::RootCtl,
        write_goal(f, mv, ino) == Goal::BranchCtl(branch),
        open_goal(f, mv, ino, flag) == Goal::Done,
        getattr_goal(f, mv, ino) == if mv.branches.dom().contains(branch) {
            Goal::BranchCtl(branch)
        } else {
            Goal::Fail(Errno::Enoent)
        },
        setattr_goal(f, mv, ino, flag) == getattr_goal(f, mv, ino),
{
}

/// The directory of a branch is numbered by its path in the mount, and an entry by its own. A
/// directory lists a branch by its name behind an `@`, with the number of its directory.
pub proof fn law_targets_are_numbered_by_their_paths(
    inodes: Inodes,
    branch: Text,
    e: EntryView,
    names: Seq<Text>,
    i: int,
)
    requires
        0 <= i < names.len(),
    ensures
        numbered_path(Goal::BranchDir(branch)) == seq!['/', '@'] + branch,
        numbered_path(Goal::Entry(e)) == e.inode_path,
        branch_item(inodes, branch) == (ItemView {
            ino: inodes[seq!['/', '@'] + branch],
            kind: FileKind::Dir,
            name: seq!['@'] + branch,
        }),
        branch_paths(names).len() == names.len(),
        branch_paths(names)[i] == seq!['/', '@'] + names[i],
{
    reveal_strlit("/@");
    let none: Text = seq![];
    assert("/@"@ =~= seq!['/', '@']);
    assert(branch_path(branch, none) =~= seq!['/', '@'] + branch);
    assert(branch_path(names[i], none) =~= seq!['/', '@'] + names[i]);
}

/// A path that is forgotten has no number any more, and every other path keeps its own. The root
/// is never forgotten.
pub proof fn law_forgetting_takes_one_number(m: Inodes, p: Text, q: Text)
    ensures
        p != seq!['/'] ==> !forgotten(m, p).dom().contains(p),
        q != p || q == seq!['/'] ==> forgotten(m, p).dom().contains(q) == m.dom().contains(q) && (
        m.dom().contains(q) ==> forgotten(m, p)[q] == m[q]),
{
}

} // verus!
