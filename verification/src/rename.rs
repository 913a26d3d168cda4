//! Renaming entries inside one branch.

use vstd::prelude::*;
use vstd::string::*;

use crate::branch::BranchView;
use crate::context::{branch_path, branch_path_of, ContextView, PathContext};
use crate::errors::{BranchError, Errno};
use crate::fs::{current, stands_for, valid, writable, BranchFs, Entry, EntryView, FsView};
use crate::inode::{path_of, Inodes};
use crate::journal::{
    appended, law_log_replays, log_line, one_line, stored_tombstones, whole_lines,
};
use crate::laws::{lemma_inherited_frame, same_outside};
use crate::lookup::{law_resolution_order, resolved, rooted, Forest};
use crate::manager::{BranchManager, ManagerView};
use crate::operations::late;
use crate::paths::{join_rel, joined, located, LocationView, PlaceView};
use crate::text::{opt_text, same, texts, Text};
use crate::writes::{frozen_error, write_fault};

verus! {

/// The flag that forbids a rename to replace an entry.
pub const RENAME_NOREPLACE: u32 = 1;

/// Whether a rename must not replace an entry; other flags are not supported.
pub fn rename_flags(flags: u32) -> (r: Result<bool, Errno>)
    ensures
        r is Ok <==> flags == 0 || flags == RENAME_NOREPLACE,
        r matches Ok(b) ==> b == (flags == RENAME_NOREPLACE),
        r matches Err(e) ==> e == Errno::Einval,
{
    if flags == 0 {
        Ok(false)
    } else if flags == RENAME_NOREPLACE {
        Ok(true)
    } else {
        Err(Errno::Einval)
    }
}

/// Where a directory lies: in a branch of its own, or in the branch that the mount shows.
pub open spec fn side(f: FsView, path: Text) -> Option<(Option<Text>, Text)> {
    match stands_for(f, path) {
        ContextView::BranchDir(b) => Some((Some(b), seq!['/'])),
        ContextView::BranchPath(b, r) => Some((Some(b), r)),
        ContextView::RootPath(p) => Some((None, p)),
        _ => None,
    }
}

fn side_of(fs: &BranchFs, path: &str) -> (r: Option<(Option<String>, String)>)
    ensures
        (match r {
            Some((b, d)) => Some((opt_text(b), d@)),
            None => None,
        }) == side(fs@, path@),
{
    proof {
        reveal_strlit("/");
        assert("/"@ =~= seq!['/']);
    }
    match fs.classify(path) {
        PathContext::BranchDir(b) => Some((Some(b), "/".to_owned())),
        PathContext::BranchPath(b, r) => Some((Some(b), r)),
        PathContext::RootPath(p) => Some((None, p)),
        _ => None,
    }
}

/// What a rename aims at.
pub enum Renaming {
    Fail(Errno),
    Move { src: Entry, dst: Entry },
}

pub enum RenameGoal {
    Fail(Errno),
    Move { src: EntryView, dst: EntryView },
}

impl View for Renaming {
    type V = RenameGoal;

    open spec fn view(&self) -> RenameGoal {
        match self {
            Renaming::Fail(e) => RenameGoal::Fail(*e),
            Renaming::Move { src, dst } => RenameGoal::Move { src: src@, dst: dst@ },
        }
    }
}

/// A path of a branch, as the mount reaches it.
pub open spec fn reached(branch: Text, rel: Text, at_root: bool) -> EntryView {
    EntryView {
        branch,
        rel,
        inode_path: if at_root {
            rel
        } else {
            branch_path(branch, rel)
        },
        at_root,
    }
}

fn reach(branch: &str, rel: String, at_root: bool) -> (r: Entry)
    ensures
        r@ == reached(branch@, rel@, at_root),
{
    let inode_path = if at_root {
        rel.clone()
    } else {
        branch_path_of(branch, rel.as_str())
    };
    Entry { branch: branch.to_owned(), rel, inode_path, at_root }
}

/// Renaming: both directories must lie in the same branch, which must exist and take writes.
pub open spec fn rename_goal(
    f: FsView,
    mv: crate::manager::ManagerView,
    parent: u64,
    name: Text,
    newparent: u64,
    newname: Text,
) -> RenameGoal {
    match (path_of(f.inodes, parent), path_of(f.inodes, newparent)) {
        (Some(from), Some(to)) => match (side(f, from), side(f, to)) {
            (Some((a, src_dir)), Some((b, dst_dir))) => if a != b {
                RenameGoal::Fail(Errno::Exdev)
            } else {
                let branch = match a {
                    Some(named) => named,
                    None => current(f, mv),
                };
                if a is Some && !valid(mv, branch) {
                    RenameGoal::Fail(Errno::Enoent)
                } else if !writable(mv, branch) {
                    RenameGoal::Fail(Errno::Erofs)
                } else {
                    RenameGoal::Move {
                        src: reached(branch, joined(src_dir, name), a is None),
                        dst: reached(branch, joined(dst_dir, newname), a is None),
                    }
                }
            },
            _ => RenameGoal::Fail(Errno::Eperm),
        },
        _ => RenameGoal::Fail(Errno::Enoent),
    }
}

/// A numbering without a path; the root is never forgotten.
pub open spec fn forgotten(m: Inodes, p: Text) -> Inodes {
    if p == seq!['/'] {
        m
    } else {
        m.remove(p)
    }
}

impl BranchFs {
    /// Aims at the two ends of a rename.
    pub fn rename(
        &self,
        manager: &BranchManager,
        parent: u64,
        name: &str,
        newparent: u64,
        newname: &str,
    ) -> (r: Renaming)
        requires
            self.wf(),
            manager.wf(),
        ensures
            r@ == rename_goal(self@, manager@, parent, name@, newparent, newname@),
    {
        let (from, to) = match (self.inodes.get_path(parent), self.inodes.get_path(newparent)) {
            (Some(from), Some(to)) => (from, to),
            _ => {
                return Renaming::Fail(Errno::Enoent);
            },
        };
        let sides = (side_of(self, from.as_str()), side_of(self, to.as_str()));
        let ((a, src_dir), (b, dst_dir)) = match sides {
            (Some(x), Some(y)) => (x, y),
            _ => {
                return Renaming::Fail(Errno::Eperm);
            },
        };
        let same_side = match (&a, &b) {
            (None, None) => true,
            (Some(x), Some(y)) => same(x.as_str(), y.as_str()),
            _ => false,
        };
        if !same_side {
            return Renaming::Fail(Errno::Exdev);
        }
        let at_root = a.is_none();
        let branch = match a {
            Some(named) => named,
            None => self.get_branch_name(manager),
        };
        if !at_root && !manager.is_branch_valid(branch.as_str()) {
            return Renaming::Fail(Errno::Enoent);
        }
        if let Some(e) = self.write_denied_error(manager, branch.as_str()) {
            return Renaming::Fail(e);
        }
        Renaming::Move {
            src: reach(branch.as_str(), join_rel(src_dir.as_str(), name), at_root),
            dst: reach(branch.as_str(), join_rel(dst_dir.as_str(), newname), at_root),
        }
    }

    /// Ends a rename: the old path is forgotten, the new one gets a new number, and files that
    /// are kept open for it are let go.
    pub fn finish_rename(&mut self, manager: &BranchManager, src: &Entry, dst: &Entry) -> (r: Result<
        u64,
        Errno,
    >)
        requires
            old(self).wf(),
            old(self).inodes.room(1),
            manager.wf(),
        ensures
            final(self).wf(),
            final(self).inodes.next_ino >= old(self).inodes.next_ino,
            r is Err <==> late(old(self)@, manager@, src@),
            r matches Err(e) ==> e == Errno::Estale && final(self)@ == old(self)@,
            r matches Ok(ino) ==> {
                let kept = forgotten(
                    forgotten(old(self)@.inodes, src@.inode_path),
                    dst@.inode_path,
                );
                &&& final(self)@ == (FsView {
                    inodes: kept.insert(dst@.inode_path, ino),
                    open: old(self)@.open.without(ino),
                    write: old(self)@.write.without(ino),
                    ..old(self)@
                })
                &&& dst@.inode_path != seq!['/'] ==> ino == old(self).inodes.next_ino
            },
    {
        match self.finish(manager, src) {
            Err(e) => {
                return Err(e);
            },
            Ok(()) => {},
        }
        self.inodes.remove(src.inode_path.as_str());
        self.inodes.remove(dst.inode_path.as_str());
        let ino = self.inodes.get_or_create(dst.inode_path.as_str());
        self.open_cache.invalidate_ino(ino);
        self.write_cache.invalidate_ino(ino);
        Ok(ino)
    }
}

/// Whether a rename may go ahead, once it is known what stands at its two ends.
pub fn may_rename(src_found: bool, dst_found: bool, noreplace: bool) -> (r: Result<(), Errno>)
    ensures
        r is Ok <==> src_found && !(noreplace && dst_found),
        r matches Err(e) ==> e == if src_found {
            Errno::Eexist
        } else {
            Errno::Enoent
        },
{
    if !src_found {
        return Err(Errno::Enoent);
    }
    if noreplace && dst_found {
        return Err(Errno::Eexist);
    }
    Ok(())
}

/// The lines that a rename adds to the log of deletions.
pub open spec fn rename_lines(tombs: Set<Text>, src: Text, dst: Text, dst_existed: bool) -> Seq<Text> {
    let first = if tombs.contains(src) {
        seq![]
    } else {
        seq![log_line(true, src)]
    };
    let marked = tombs.insert(src);
    let second = if dst_existed && !marked.contains(dst) {
        seq![log_line(true, dst)]
    } else {
        seq![]
    };
    let third = if dst_existed || marked.contains(dst) {
        seq![log_line(false, dst)]
    } else {
        seq![]
    };
    first + second + third
}

fn add_line(lines: &mut Vec<String>, line: Option<String>)
    ensures
        texts(final(lines)@) == texts(old(lines)@) + match opt_text(line) {
            Some(t) => seq![t],
            None => seq![],
        },
{
    let ghost before = texts(lines@);
    match line {
        Some(l) => {
            let ghost t = l@;
            lines.push(l);
            proof {
                assert(texts(lines@) =~= before + seq![t]);
            }
        },
        None => {
            proof {
                assert(before + seq![] =~= before);
            }
        },
    }
}

impl BranchManager {
    /// Records a rename inside a branch: the old path is deleted, the new one is not. `freed` are
    /// the bytes of the delta that the entry took the place of, if there was one. The result is
    /// what the branch's log gains.
    pub fn record_rename(
        &mut self,
        branch_name: &str,
        src: &str,
        dst: &str,
        dst_existed: bool,
        freed: Option<u64>,
    ) -> (r: Result<Vec<String>, BranchError>)
        requires
            old(self).wf(),
        ensures
            final(self).wf(),
            r is Ok <==> write_fault(old(self)@.branches, branch_name@) is None,
            r matches Err(e) ==> Some(e@) == write_fault(old(self)@.branches, branch_name@)
                && final(self)@ == old(self)@,
            r matches Ok(lines) ==> {
                let was = old(self)@.branches[branch_name@];
                &&& final(self)@ == (ManagerView {
                    quota: match freed {
                        Some(n) => old(self)@.quota.after(-(n as int)),
                        None => old(self)@.quota,
                    },
                    ..old(self)@.with(
                        branch_name@,
                        BranchView { tombs: was.tombs.insert(src@).remove(dst@), ..was },
                    )
                })
                &&& texts(lines@) == rename_lines(was.tombs, src@, dst@, dst_existed)
            },
    {
        let ghost before = self@;
        let ghost was = self@.branches[branch_name@];
        if let Some(branch) = self.branches.get(branch_name) {
            if !branch.is_writable() {
                return Err(frozen_error(branch_name));
            }
        }
        let mut lines: Vec<String> = Vec::new();
        proof {
            assert(texts(lines@) =~= seq![]);
        }
        match self.add_tombstone(branch_name, src) {
            Ok(line) => add_line(&mut lines, line),
            Err(e) => {
                return Err(e);
            },
        }
        let ghost marked = was.tombs.insert(src@);
        if dst_existed {
            match self.add_tombstone(branch_name, dst) {
                Ok(line) => add_line(&mut lines, line),
                Err(e) => {
                    proof {
                        assert(false);
                    }
                    return Err(e);
                },
            }
        }
        match self.remove_tombstone(branch_name, dst) {
            Ok(line) => add_line(&mut lines, line),
            Err(e) => {
                proof {
                    assert(false);
                }
                return Err(e);
            },
        }
        proof {
            let now = BranchView { tombs: marked.remove(dst@), ..was };
            assert(marked.insert(dst@).remove(dst@) =~= marked.remove(dst@));
            assert(self@.branches =~= before.branches.insert(branch_name@, now));
            assert(texts(lines@) =~= rename_lines(was.tombs, src@, dst@, dst_existed));
        }
        if let Some(bytes) = freed {
            self.quota.sub(bytes);
        }
        Ok(lines)
    }
}

/// A renamed entry is found at its new path and no longer at its old one.
pub proof fn law_rename_moves(m: Forest, d: Set<LocationView>, b: Text, src: Text, dst: Text)
    requires
        rooted(m, b),
        m.dom().contains(b),
        located(PlaceView::Files(b), src) != located(PlaceView::Files(b), dst),
    ensures
        ({
            let was = m[b];
            let now = BranchView { tombs: was.tombs.insert(src).remove(dst), ..was };
            let m2 = m.insert(b, now);
            let d2 = d.remove(located(PlaceView::Files(b), src)).insert(
                located(PlaceView::Files(b), dst),
            );
            &&& resolved(m2, d2, b, src) == Ok::<Option<LocationView>, Text>(None)
            &&& resolved(m2, d2, b, dst) == Ok::<Option<LocationView>, Text>(
                Some(located(PlaceView::Files(b), dst)),
            )
        }),
{
    let was = m[b];
    let now = BranchView { tombs: was.tombs.insert(src).remove(dst), ..was };
    let m2 = m.insert(b, now);
    let d2 = d.remove(located(PlaceView::Files(b), src)).insert(located(PlaceView::Files(b), dst));
    assert(same_outside(d, d2, set![b]));
    lemma_inherited_frame(m, d, b, now, d2, src);
    law_resolution_order(m2, d2, b, src);
    law_resolution_order(m2, d2, b, dst);
    assert(now.tombs.contains(src));
}

/// The lines that a rename adds to the log have the effect that the rename has: read again, the
/// store deletes the old path and no longer deletes the new one.
pub proof fn law_rename_survives_restart(
    snapshot: Text,
    log: Text,
    src: Text,
    dst: Text,
    dst_existed: bool,
)
    requires
        whole_lines(log),
        one_line(src),
        one_line(dst),
    ensures
        ({
            let tombs = stored_tombstones(snapshot, log);
            stored_tombstones(
                snapshot,
                appended(log, rename_lines(tombs, src, dst, dst_existed)),
            ) == tombs.insert(src).remove(dst)
        }),
{
    let tombs = stored_tombstones(snapshot, log);
    let lines = rename_lines(tombs, src, dst, dst_existed);
    let marked = tombs.insert(src);
    reveal_with_fuel(appended, 4);
    let l1 = if tombs.contains(src) {
        log
    } else {
        law_log_replays(snapshot, log, true, src);
        log + log_line(true, src)
    };
    assert(stored_tombstones(snapshot, l1) =~= marked);
    let l2 = if dst_existed && !marked.contains(dst) {
        law_log_replays(snapshot, l1, true, dst);
        l1 + log_line(true, dst)
    } else {
        l1
    };
    let l3 = if dst_existed || marked.contains(dst) {
        law_log_replays(snapshot, l2, false, dst);
        l2 + log_line(false, dst)
    } else {
        l2
    };
    assert(stored_tombstones(snapshot, l3) =~= marked.remove(dst));
    let first = if tombs.contains(src) {
        Seq::<Text>::empty()
    } else {
        seq![log_line(true, src)]
    };
    let second = if dst_existed && !marked.contains(dst) {
        seq![log_line(true, dst)]
    } else {
        Seq::<Text>::empty()
    };
    let third = if dst_existed || marked.contains(dst) {
        seq![log_line(false, dst)]
    } else {
        Seq::<Text>::empty()
    };
    lemma_appended_one(log, first);
    lemma_appended_one(l1, second);
    lemma_appended_one(l2, third);
    lemma_appended_concat(log, first, second);
    lemma_appended_concat(log, first + second, third);
    assert(lines =~= first + second + third);
}

proof fn lemma_appended_one(log: Text, lines: Seq<Text>)
    requires
        lines.len() <= 1,
    ensures
        appended(log, lines) == if lines.len() == 0 {
            log
        } else {
            log + lines[0]
        },
{
    if lines.len() == 1 {
        assert(lines.drop_last() =~= seq![]);
        reveal_with_fuel(appended, 2);
    }
}

proof fn lemma_appended_concat(log: Text, a: Seq<Text>, b: Seq<Text>)
    ensures
        appended(log, a + b) == appended(appended(log, a), b),
    decreases b.len(),
{
    if b.len() == 0 {
        assert(a + b =~= a);
    } else {
        assert((a + b).drop_last() =~= a + b.drop_last());
        lemma_appended_concat(log, a, b.drop_last());
    }
}

} // verus!
