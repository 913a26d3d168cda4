//! What the operations on a mount do once they know what they aim at: the numbers that entries
//! get, what a directory lists, and how an operation ends.

use vstd::prelude::*;
use vstd::string::*;

use crate::context::{branch_path, branch_path_of, ctl_name};
use crate::errors::{BranchError, Errno, ErrorView};
use crate::fs::{
    stale, valid, writable, BranchFs, Entry, EntryView, FsView, Goal, Target, CTL_INO,
};
use crate::inode::{numbered, Inodes, RESERVED_INO};
use crate::lookup::{first_present, outcome, resolved, rooted, Search};
use crate::manager::{BranchManager, ManagerView};
use crate::paths::{join_rel, joined, LocationView};
use crate::records::FileKind;
use crate::table::lemma_rows;
use crate::text::{concat, opt_text, same, texts, Text};

verus! {

/// The path of a mount that a target is numbered by.
pub open spec fn numbered_path(goal: Goal) -> Text {
    match goal {
        Goal::BranchDir(b) => branch_path(b, seq![]),
        Goal::Entry(e) => e.inode_path,
        _ => seq![],
    }
}

/// Whether a target stands for something that has a number.
pub open spec fn has_number(goal: Goal) -> bool {
    goal is RootCtl || goal is BranchCtl || goal is BranchDir || goal is Entry
}

/// One line of a directory listing.
pub struct DirItem {
    pub ino: u64,
    pub kind: FileKind,
    pub name: String,
}

pub struct ItemView {
    pub ino: u64,
    pub kind: FileKind,
    pub name: Text,
}

impl View for DirItem {
    type V = ItemView;

    open spec fn view(&self) -> ItemView {
        ItemView { ino: self.ino, kind: self.kind, name: self.name@ }
    }
}

/// A name that was found in a directory, with the kind of its entry.
pub struct FoundName {
    pub name: String,
    pub kind: FileKind,
}

/// The paths of a mount that the names of a directory are numbered by.
pub open spec fn child_paths(dir: EntryView, found: Seq<FoundName>) -> Seq<Text> {
    found.map_values(|n: FoundName| child_path_of(dir, n.name@))
}

/// The path of a mount at which a child of a directory is found.
pub open spec fn child_path_of(dir: EntryView, name: Text) -> Text {
    if dir.at_root {
        joined(dir.rel, name)
    } else {
        branch_path(dir.branch, joined(dir.rel, name))
    }
}

/// The directories of the branches that are shown in a directory: at the root of a mount all but
/// main, in the directory of a branch its children.
pub open spec fn shown_branch(mv: ManagerView, above: Option<Text>, name: Text) -> bool {
    &&& mv.branches.dom().contains(name)
    &&& match above {
        None => name != "main"@,
        Some(b) => mv.branches[name].parent == Some(b),
    }
}

/// What an unsuccessful or late operation is answered with.
pub open spec fn late(f: FsView, mv: ManagerView, e: EntryView) -> bool {
    e.at_root && stale(f, mv)
}

impl BranchFs {
    /// Whether `n` more paths and one more control file can be numbered.
    pub open spec fn room(self, n: int) -> bool {
        self.inodes.room(n) && self.next_ctl_ino > RESERVED_INO
    }

    pub fn has_room(&self, n: u64) -> (r: bool)
        requires
            self.wf(),
        ensures
            r == self.room(n as int),
    {
        self.inodes.has_room(n) && self.next_ctl_ino > RESERVED_INO
    }

    /// The number of what was aimed at.
    pub fn enter(&mut self, target: &Target) -> (r: u64)
        requires
            old(self).wf(),
            old(self).room(1),
            has_number(target@),
        ensures
            final(self).wf(),
            match target@ {
                Goal::RootCtl => r == CTL_INO && final(self)@ == old(self)@,
                Goal::BranchCtl(b) => {
                    &&& final(self)@ == (FsView { ctl: old(self)@.ctl.insert(b, r), ..old(self)@ })
                    &&& r == (if old(self)@.ctl.dom().contains(b) {
                        old(self)@.ctl[b]
                    } else {
                        old(self).next_ctl_ino
                    })
                },
                goal => {
                    let p = numbered_path(goal);
                    &&& final(self)@ == (FsView {
                        inodes: old(self)@.inodes.insert(p, r),
                        ..old(self)@
                    })
                    &&& r == (if old(self)@.inodes.dom().contains(p) {
                        old(self)@.inodes[p]
                    } else {
                        old(self).inodes.next_ino
                    })
                },
            },
            target@ is BranchCtl ==> final(self).inodes == old(self).inodes,
            old(self).inodes.next_ino <= final(self).inodes.next_ino <= old(self).inodes.next_ino
                + 1,
    {
        match target {
            Target::BranchCtl(b) => self.get_or_create_branch_ctl_ino(b.as_str()),
            Target::BranchDir(b) => {
                let path = branch_path_of(b.as_str(), "");
                proof {
                    reveal_strlit("");
                    assert(""@ =~= seq![]);
                }
                self.inodes.get_or_create(path.as_str())
            },
            Target::Entry(e) => self.inodes.get_or_create(e.inode_path.as_str()),
            _ => CTL_INO,
        }
    }

    /// Where an entry may lie, in the order in which to look; nowhere if its branch is gone.
    pub fn search(&self, manager: &BranchManager, entry: &Entry) -> (r: Search)
        requires
            manager.wf(),
            rooted(manager@.branches, entry@.branch),
        ensures
            forall|d: Set<LocationView>| #[trigger]
                outcome(r@, d) == if valid(manager@, entry@.branch) {
                    resolved(manager@.branches, d, entry@.branch, entry@.rel)
                } else {
                    Ok::<Option<LocationView>, Text>(None)
                },
    {
        match manager.resolve_path(entry.branch.as_str(), entry.rel.as_str()) {
            Ok(s) => s,
            Err(_) => {
                let s = Search::nowhere();
                proof {
                    assert forall|d: Set<LocationView>| #[trigger] outcome(s@, d) == Ok::<
                        Option<LocationView>,
                        Text,
                    >(None) by {
                        assert(first_present(s@.places, d) is None);
                    }
                }
                s
            },
        }
    }

    /// Ends an operation on an entry that was not changed: the mount must not have gone stale
    /// meanwhile.
    pub fn finish(&self, manager: &BranchManager, entry: &Entry) -> (r: Result<(), Errno>)
        requires
            manager.wf(),
        ensures
            r is Err <==> late(self@, manager@, entry@),
            r matches Err(e) ==> e == Errno::Estale,
    {
        if entry.at_root && self.is_stale(manager) {
            Err(Errno::Estale)
        } else {
            Ok(())
        }
    }

    /// Ends the making of an entry: it gets its number, unless the mount went stale meanwhile and
    /// the entry is to be removed again.
    pub fn finish_new(&mut self, manager: &BranchManager, entry: &Entry) -> (r: Result<u64, Errno>)
        requires
            old(self).wf(),
            old(self).room(1),
            manager.wf(),
        ensures
            final(self).wf(),
            final(self).inodes.next_ino >= old(self).inodes.next_ino,
            r is Err <==> late(old(self)@, manager@, entry@),
            r matches Err(e) ==> e == Errno::Estale && final(self)@ == old(self)@,
            r matches Ok(ino) ==> {
                let p = entry@.inode_path;
                &&& final(self)@ == (FsView {
                    inodes: old(self)@.inodes.insert(p, ino),
                    ..old(self)@
                })
                &&& ino == (if old(self)@.inodes.dom().contains(p) {
                    old(self)@.inodes[p]
                } else {
                    old(self).inodes.next_ino
                })
            },
    {
        match self.finish(manager, entry) {
            Err(e) => Err(e),
            Ok(()) => Ok(self.inodes.get_or_create(entry.inode_path.as_str())),
        }
    }

    /// Ends the removal of an entry: its number is forgotten. Through the branch that the mount
    /// shows a removal that failed is answered like one that came too late.
    pub fn finish_unlink(&mut self, manager: &BranchManager, entry: &Entry, removed: bool) -> (r:
        Result<(), Errno>)
        requires
            old(self).wf(),
            manager.wf(),
        ensures
            final(self).wf(),
            final(self).inodes.next_ino == old(self).inodes.next_ino,
            r is Ok <==> removed && !late(old(self)@, manager@, entry@),
            r matches Err(e) ==> final(self)@ == old(self)@ && e == if entry@.at_root {
                Errno::Estale
            } else {
                Errno::Eio
            },
            r is Ok && entry@.inode_path != seq!['/'] ==> final(self)@ == (FsView {
                inodes: old(self)@.inodes.remove(entry@.inode_path),
                ..old(self)@
            }),
            r is Ok && entry@.inode_path == seq!['/'] ==> final(self)@ == old(self)@,
    {
        if entry.at_root {
            if !removed || self.is_stale(manager) {
                return Err(Errno::Estale);
            }
        } else if !removed {
            return Err(Errno::Eio);
        }
        self.inodes.remove(entry.inode_path.as_str());
        Ok(())
    }

    /// Ends a write: what the file has grown by is counted, unless the mount went stale
    /// meanwhile. A write through the kept file has no entry and is not asked again.
    pub fn finish_write(
        &self,
        manager: &mut BranchManager,
        entry: Option<&Entry>,
        old_size: u64,
        end: u64,
    ) -> (r: Result<(), Errno>)
        requires
            old(manager).wf(),
        ensures
            final(manager).wf(),
            r is Err <==> (entry matches Some(e) && late(self@, old(manager)@, e@)),
            r matches Err(e) ==> e == Errno::Estale && final(manager)@ == old(manager)@,
            r is Ok ==> final(manager)@ == (ManagerView {
                quota: if end > old_size {
                    old(manager)@.quota.after(end - old_size)
                } else {
                    old(manager)@.quota
                },
                ..old(manager)@
            }),
    {
        if let Some(e) = entry {
            match self.finish(manager, e) {
                Err(errno) => {
                    return Err(errno);
                },
                Ok(()) => {},
            }
        }
        manager.note_growth(old_size, end);
        Ok(())
    }
}

impl Entry {
    /// An entry of this directory.
    pub fn child(&self, name: &str) -> (r: Entry)
        ensures
            r@ == (EntryView {
                branch: self@.branch,
                rel: joined(self@.rel, name@),
                inode_path: child_path_of(self@, name@),
                at_root: self@.at_root,
            }),
    {
        let rel = join_rel(self.rel.as_str(), name);
        let inode_path = if self.at_root {
            rel.clone()
        } else {
            branch_path_of(self.branch.as_str(), rel.as_str())
        };
        Entry { branch: self.branch.clone(), rel, inode_path, at_root: self.at_root }
    }
}

/// The directory of a branch as an entry: the root of the branch.
pub fn branch_root(branch: &str) -> (r: Entry)
    ensures
        r@ == (EntryView {
            branch: branch@,
            rel: seq!['/'],
            inode_path: branch_path(branch@, seq![]),
            at_root: false,
        }),
{
    proof {
        reveal_strlit("/");
        assert("/"@ =~= seq!['/']);
        reveal_strlit("");
        assert(""@ =~= seq![]);
    }
    Entry {
        branch: branch.to_owned(),
        rel: "/".to_owned(),
        inode_path: branch_path_of(branch, ""),
        at_root: false,
    }
}

/// Numbering one more path.
proof fn lemma_numbered_next(was: Inodes, next: int, paths: Seq<Text>, i: int)
    requires
        0 <= i < paths.len(),
    ensures
        numbered(was, next, paths.take(i + 1)) == ({
            let (mid, n) = numbered(was, next, paths.take(i));
            if mid.dom().contains(paths[i]) {
                (mid, n)
            } else {
                (mid.insert(paths[i], n as u64), n + 1)
            }
        }),
{
    assert(paths.take(i + 1).drop_last() =~= paths.take(i));
}

impl BranchFs {
    /// Lists a directory: itself, the one above it, and the names that were found in it, each of
    /// which gets a number.
    pub fn list_names(&mut self, ino: u64, dir: &Entry, found: &Vec<FoundName>) -> (r: Vec<DirItem>)
        requires
            old(self).wf(),
            old(self).inodes.room(found@.len() as int),
        ensures
            final(self).wf(),
            final(self)@ == (FsView { inodes: final(self)@.inodes, ..old(self)@ }),
            final(self).next_ctl_ino == old(self).next_ctl_ino,
            (final(self)@.inodes, final(self).inodes.next_ino as int) == numbered(
                old(self)@.inodes,
                old(self).inodes.next_ino as int,
                child_paths(dir@, found@),
            ),
            r@.len() == found@.len() + 2,
            r@[0]@ == (ItemView { ino, kind: FileKind::Dir, name: seq!['.'] }),
            r@[1]@ == (ItemView { ino, kind: FileKind::Dir, name: seq!['.', '.'] }),
            forall|i: int|
                0 <= i < found@.len() ==> (#[trigger] r@[i + 2])@ == (ItemView {
                    ino: final(self)@.inodes[child_paths(dir@, found@)[i]],
                    kind: found@[i].kind,
                    name: found@[i].name@,
                }),
    {
        proof {
            reveal_strlit(".");
            reveal_strlit("..");
            assert("."@ =~= seq!['.']);
            assert(".."@ =~= seq!['.', '.']);
        }
        let ghost was = self@;
        let ghost first = self.inodes.next_ino;
        let ghost paths = child_paths(dir@, found@);
        let mut out: Vec<DirItem> = Vec::new();
        out.push(DirItem { ino, kind: FileKind::Dir, name: ".".to_owned() });
        out.push(DirItem { ino, kind: FileKind::Dir, name: "..".to_owned() });
        let mut i: usize = 0;
        while i < found.len()
            invariant
                i <= found@.len(),
                self.wf(),
                self@ == (FsView { inodes: self@.inodes, ..was }),
                self.next_ctl_ino == old(self).next_ctl_ino,
                self.inodes.next_ino <= first + i,
                first + found@.len() <= RESERVED_INO,
                paths == child_paths(dir@, found@),
                (self@.inodes, self.inodes.next_ino as int) == numbered(
                    was.inodes,
                    first as int,
                    paths.take(i as int),
                ),
                out@.len() == i + 2,
                out@[0]@ == (ItemView { ino, kind: FileKind::Dir, name: seq!['.'] }),
                out@[1]@ == (ItemView { ino, kind: FileKind::Dir, name: seq!['.', '.'] }),
                forall|j: int|
                    0 <= j < i ==> self@.inodes.dom().contains(#[trigger] paths[j]) && out@[j
                        + 2]@ == (ItemView {
                        ino: self@.inodes[paths[j]],
                        kind: found@[j].kind,
                        name: found@[j].name@,
                    }),
            decreases found@.len() - i,
        {
            let child = dir.child(found[i].name.as_str());
            let ghost mid = self@.inodes;
            let ghost sofar = out@;
            let number = self.inodes.get_or_create(child.inode_path.as_str());
            out.push(DirItem { ino: number, kind: found[i].kind, name: found[i].name.clone() });
            proof {
                assert(paths[i as int] == child.inode_path@);
                lemma_numbered_next(was.inodes, first as int, paths, i as int);
                if mid.dom().contains(paths[i as int]) {
                    assert(self@.inodes =~= mid);
                }
                assert forall|j: int| 0 <= j < i + 1 implies self@.inodes.dom().contains(
                    #[trigger] paths[j],
                ) && out@[j + 2]@ == (ItemView {
                    ino: self@.inodes[paths[j]],
                    kind: found@[j].kind,
                    name: found@[j].name@,
                }) by {
                    if j < i {
                        assert(mid.dom().contains(paths[j]));
                        assert(out@[j + 2] == sofar[j + 2]);
                    }
                }
            }
            i = i + 1;
        }
        proof {
            assert(paths.take(i as int) =~= paths);
            assert forall|j: int| 0 <= j < found@.len() implies (#[trigger] out@[j + 2])@ == (
            ItemView {
                ino: self@.inodes[child_paths(dir@, found@)[j]],
                kind: found@[j].kind,
                name: found@[j].name@,
            }) by {
                assert(self@.inodes.dom().contains(paths[j]));
            }
        }
        out
    }
}

/// How the directory of a branch is listed.
pub open spec fn branch_item(inodes: Inodes, name: Text) -> ItemView {
    ItemView {
        ino: inodes[branch_path(name, seq![])],
        kind: FileKind::Dir,
        name: seq!['@'] + name,
    }
}

/// The paths of a mount at which these branches are found.
pub open spec fn branch_paths(names: Seq<Text>) -> Seq<Text> {
    names.map_values(|n: Text| branch_path(n, seq![]))
}

/// Whether a list holds exactly the branches that are shown in a directory, each once.
pub open spec fn shown_branches(mv: ManagerView, above: Option<Text>, names: Seq<Text>) -> bool {
    &&& names.no_duplicates()
    &&& forall|n: Text| #[trigger] names.contains(n) <==> shown_branch(mv, above, n)
}

impl BranchManager {
    /// The branches whose directories are shown at the root of a mount, or in the directory of
    /// the branch `above`.
    pub fn shown_in(&self, above: Option<&str>) -> (r: Vec<String>)
        requires
            self.wf(),
        ensures
            shown_branches(self@, opt_str(above), texts(r@)),
            r@.len() <= self.branches.rows@.len(),
    {
        let ghost over = opt_str(above);
        let ghost mv = self@;
        let ghost rows = self.branches.rows@;
        proof {
            lemma_rows(self.branches);
        }
        let mut out: Vec<String> = Vec::new();
        let mut i: usize = 0;
        while i < self.branches.rows.len()
            invariant
                i <= self.branches.rows@.len(),
                self.wf(),
                mv == self@,
                rows == self.branches.rows@,
                over == opt_str(above),
                out@.len() <= i,
                texts(out@).no_duplicates(),
                forall|j: int|
                    0 <= j < rows.len() ==> self.branches@.dom().contains((#[trigger] rows[j]).0@)
                        && self.branches@[rows[j].0@] == rows[j].1,
                forall|n: Text| #[trigger]
                    texts(out@).contains(n) <==> shown_branch(mv, over, n) && exists|j: int|
                        0 <= j < i && (#[trigger] rows[j]).0@ == n,
            decreases self.branches.rows@.len() - i,
        {
            let ghost before = texts(out@);
            let name = self.branches.rows[i].0.as_str();
            let shown = match above {
                None => !same(name, "main"),
                Some(b) => match &self.branches.rows[i].1.parent {
                    Some(p) => same(p.as_str(), b),
                    None => false,
                },
            };
            proof {
                assert(rows[i as int].0@ == name@);
                assert(self.branches@.dom().contains(rows[i as int].0@));
                assert(shown == shown_branch(mv, over, name@));
                if before.contains(name@) {
                    let j = choose|j: int| 0 <= j < i && (#[trigger] rows[j]).0@ == name@;
                    let keys = crate::table::keys_of(rows);
                    assert(keys[j] == keys[i as int]);
                }
            }
            if shown {
                out.push(name.to_owned());
                proof {
                    assert(texts(out@) =~= before.push(name@));
                }
            }
            proof {
                let now = texts(out@);
                assert forall|n: Text| #[trigger] now.contains(n) <==> shown_branch(mv, over, n)
                    && exists|j: int| 0 <= j < i + 1 && (#[trigger] rows[j]).0@ == n by {
                    if before.contains(n) {
                        let k = choose|k: int| 0 <= k < before.len() && before[k] == n;
                        assert(now[k] == n);
                        let j = choose|j: int| 0 <= j < i && (#[trigger] rows[j]).0@ == n;
                        assert(rows[j].0@ == n);
                    }
                    if shown && n == name@ {
                        assert(now[before.len() as int] == n);
                    }
                    if now.contains(n) && !before.contains(n) {
                        let k = choose|k: int| 0 <= k < now.len() && now[k] == n;
                        if k < before.len() {
                            assert(before[k] == n);
                        }
                    }
                    if exists|j: int| 0 <= j < i + 1 && (#[trigger] rows[j]).0@ == n {
                        let j = choose|j: int| 0 <= j < i + 1 && (#[trigger] rows[j]).0@ == n;
                        if j < i {
                            assert(rows[j].0@ == n);
                        }
                    }
                }
            }
            i = i + 1;
        }
        proof {
            assert forall|n: Text| #[trigger] texts(out@).contains(n) <==> shown_branch(
                mv,
                over,
                n,
            ) by {
                if shown_branch(mv, over, n) {
                    assert(self.branches@.dom().contains(n));
                    let j = choose|j: int| 0 <= j < rows.len() && (#[trigger] rows[j]).0@ == n;
                    assert(rows[j].0@ == n);
                }
            }
        }
        out
    }
}

/// The characters of an optional string slice.
pub open spec fn opt_str(o: Option<&str>) -> Option<Text> {
    match o {
        Some(s) => Some(s@),
        None => None,
    }
}

/// Whether an item lists the control file of a mount, or of the branch `above`.
pub open spec fn lists_ctl(
    item: ItemView,
    above: Option<Text>,
    was: Inodes,
    next: u64,
    now: Inodes,
) -> bool {
    &&& item.kind == FileKind::File
    &&& item.name == ctl_name()
    &&& above is None ==> item.ino == CTL_INO && now == was
    &&& above matches Some(b) ==> now == was.insert(b, item.ino) && item.ino
        == if was.dom().contains(b) {
        was[b]
    } else {
        next
    }
}

/// Whether a listing holds, after the control file, the directories of the branches `names`, each
/// with its number, and these are the branches that are shown.
pub open spec fn lists_branches(
    items: Seq<DirItem>,
    mv: ManagerView,
    above: Option<Text>,
    names: Seq<Text>,
    was: Inodes,
    next: int,
    now: Inodes,
    next_now: int,
) -> bool {
    &&& shown_branches(mv, above, names)
    &&& items.len() == names.len() + 1
    &&& (now, next_now) == numbered(was, next, branch_paths(names))
    &&& forall|i: int|
        0 <= i < names.len() ==> (#[trigger] items[i + 1])@ == branch_item(now, names[i])
}

impl BranchFs {
    /// Lists the control file and the branch directories that a directory shows: the root of a
    /// mount, or the directory of the branch `above`. A mount that hides its controls shows none.
    pub fn list_controls(&mut self, manager: &BranchManager, above: Option<&str>) -> (r: Vec<DirItem>)
        requires
            old(self).wf(),
            manager.wf(),
            old(self).room(manager.branches.rows@.len() as int),
        ensures
            final(self).wf(),
            final(self)@ == (FsView {
                inodes: final(self)@.inodes,
                ctl: final(self)@.ctl,
                ..old(self)@
            }),
            !old(self)@.expose ==> r@.len() == 0 && final(self)@ == old(self)@,
            old(self)@.expose ==> r@.len() > 0 && lists_ctl(
                r@[0]@,
                opt_str(above),
                old(self)@.ctl,
                old(self).next_ctl_ino,
                final(self)@.ctl,
            ),
            old(self)@.expose ==> exists|names: Seq<Text>| #[trigger]
                lists_branches(
                    r@,
                    manager@,
                    opt_str(above),
                    names,
                    old(self)@.inodes,
                    old(self).inodes.next_ino as int,
                    final(self)@.inodes,
                    final(self).inodes.next_ino as int,
                ),
    {
        let mut out: Vec<DirItem> = Vec::new();
        if !self.expose_control {
            return out;
        }
        let ghost was = self@;
        let ghost first = self.inodes.next_ino;
        let ctl_ino = match above {
            None => CTL_INO,
            Some(b) => self.get_or_create_branch_ctl_ino(b),
        };
        let ghost ctl = self@.ctl;
        out.push(DirItem { ino: ctl_ino, kind: FileKind::File, name: ".branchfs_ctl".to_owned() });
        let shown = manager.shown_in(above);
        let ghost names = texts(shown@);
        let ghost paths = branch_paths(names);
        let mut i: usize = 0;
        proof {
            reveal_strlit("@");
            assert("@"@ =~= seq!['@']);
            reveal_strlit("");
            assert(""@ =~= seq![]);
        }
        while i < shown.len()
            invariant
                i <= shown@.len(),
                self.wf(),
                self@ == (FsView { inodes: self@.inodes, ctl, ..was }),
                "@"@ == seq!['@'],
                ""@ == Seq::<char>::empty(),
                self.inodes.next_ino <= first + i,
                first + shown@.len() <= RESERVED_INO,
                names == texts(shown@),
                paths == branch_paths(names),
                (self@.inodes, self.inodes.next_ino as int) == numbered(
                    was.inodes,
                    first as int,
                    paths.take(i as int),
                ),
                out@.len() == i + 1,
                out@[0]@ == (ItemView { ino: ctl_ino, kind: FileKind::File, name: ctl_name() }),
                forall|j: int|
                    0 <= j < i ==> self@.inodes.dom().contains(#[trigger] paths[j]) && out@[j
                        + 1]@ == branch_item(self@.inodes, names[j]),
            decreases shown@.len() - i,
        {
            let path = branch_path_of(shown[i].as_str(), "");
            let ghost mid = self@.inodes;
            let ghost sofar = out@;
            let number = self.inodes.get_or_create(path.as_str());
            out.push(
                DirItem {
                    ino: number,
                    kind: FileKind::Dir,
                    name: concat("@", shown[i].as_str()),
                },
            );
            proof {
                assert(names[i as int] == shown@[i as int]@);
                assert(paths[i as int] == path@);
                lemma_numbered_next(was.inodes, first as int, paths, i as int);
                if mid.dom().contains(paths[i as int]) {
                    assert(self@.inodes =~= mid);
                }
                assert forall|j: int| 0 <= j < i + 1 implies self@.inodes.dom().contains(
                    #[trigger] paths[j],
                ) && out@[j + 1]@ == branch_item(self@.inodes, names[j]) by {
                    if j < i {
                        assert(mid.dom().contains(paths[j]));
                        assert(out@[j + 1] == sofar[j + 1]);
                    }
                }
            }
            i = i + 1;
        }
        proof {
            assert(paths.take(i as int) =~= paths);
            assert forall|j: int| 0 <= j < names.len() implies (#[trigger] out@[j + 1])@
                == branch_item(self@.inodes, names[j]) by {
                assert(self@.inodes.dom().contains(paths[j]));
            }
            assert(lists_branches(
                out@,
                manager@,
                opt_str(above),
                names,
                was.inodes,
                first as int,
                self@.inodes,
                self.inodes.next_ino as int,
            ));
        }
        out
    }
}

/// A directory that is listed.
pub struct Listed {
    pub dir: Entry,
    /// Whether the control file and branch directories are listed too: at the root of the mount
    /// and in the directory of a branch.
    pub controls: bool,
    /// The branch whose directory it is.
    pub above: Option<String>,
}

/// Which directory is listed, once it is known what was aimed at.
pub fn listed(target: Target) -> (r: Result<Listed, Errno>)
    ensures
        match target@ {
            Goal::Fail(e) => r == Err::<Listed, Errno>(e),
            Goal::BranchDir(b) => r matches Ok(l) && l.dir@ == (EntryView {
                branch: b,
                rel: seq!['/'],
                inode_path: branch_path(b, seq![]),
                at_root: false,
            }) && l.controls && opt_text(l.above) == Some(b),
            Goal::Entry(e) => r matches Ok(l) && l.dir@ == e && l.controls == (e.at_root && e.rel
                == seq!['/']) && l.above is None,
            _ => r == Err::<Listed, Errno>(Errno::Enotdir),
        },
{
    match target {
        Target::Fail(e) => Err(e),
        Target::BranchDir(b) => {
            let dir = branch_root(b.as_str());
            Ok(Listed { dir, controls: true, above: Some(b) })
        },
        Target::Entry(e) => {
            proof {
                reveal_strlit("/");
                assert("/"@ =~= seq!['/']);
            }
            let controls = e.at_root && same(e.rel.as_str(), "/");
            Ok(Listed { dir: e, controls, above: None })
        },
        _ => Err(Errno::Enotdir),
    }
}

/// The file that the kernel is handed when an entry is opened, so that it reads and writes the
/// file without asking.
#[derive(Clone, Copy, Debug, PartialEq, Eq, Structural)]
pub enum Backing {
    /// None; reads and writes are asked for.
    Asked,
    /// The file as it is found.
    Read,
    /// The file of the delta.
    Write,
}

impl BranchFs {
    /// Which file the kernel is handed for an entry of a branch, where `writes` tells whether the
    /// entry is opened for writing.
    pub fn backing(&self, manager: &BranchManager, branch: &str, writes: bool) -> (r: Result<
        Backing,
        Errno,
    >)
        requires
            manager.wf(),
        ensures
            r == (if !self@.passthrough {
                Ok::<Backing, Errno>(Backing::Asked)
            } else if !writes {
                Ok::<Backing, Errno>(Backing::Read)
            } else if writable(manager@, branch@) {
                Ok::<Backing, Errno>(Backing::Write)
            } else {
                Err::<Backing, Errno>(Errno::Erofs)
            }),
    {
        if !self.passthrough_enabled {
            return Ok(Backing::Asked);
        }
        if !writes {
            return Ok(Backing::Read);
        }
        match self.write_denied_error(manager, branch) {
            Some(e) => Err(e),
            None => Ok(Backing::Write),
        }
    }
}

/// What becomes of a change of size when no delta could be made: only a full storage is reported,
/// anything else shows in the attributes that are answered.
pub fn resize_refused(e: &BranchError) -> (r: Result<(), Errno>)
    ensures
        r == (if e@ == ErrorView::Io(Errno::Enospc) {
            Err::<(), Errno>(Errno::Enospc)
        } else {
            Ok::<(), Errno>(())
        }),
{
    match e {
        BranchError::Io(errno) if *errno == Errno::Enospc => Err(Errno::Enospc),
        _ => Ok(()),
    }
}

/// The bytes of a file that a write covers, from its offset to its end.
pub fn write_span(offset: i64, len: u64) -> (r: Result<(u64, u64), Errno>)
    ensures
        r is Ok <==> 0 <= offset && offset + len <= u64::MAX,
        r matches Ok((start, end)) ==> start == offset && end == offset + len,
        r matches Err(e) ==> e == if offset < 0 {
            Errno::Einval
        } else {
            Errno::Efbig
        },
{
    if offset < 0 {
        return Err(Errno::Einval);
    }
    let start: u64 = offset as u64;
    match start.checked_add(len) {
        Some(end) => Ok((start, end)),
        None => Err(Errno::Efbig),
    }
}

/// The part of a control file that a read covers.
pub open spec fn slice(bytes: Seq<u8>, offset: i64, size: u32) -> Seq<u8> {
    if offset < 0 || offset >= bytes.len() {
        seq![]
    } else if offset + size <= bytes.len() {
        bytes.subrange(offset as int, offset + size)
    } else {
        bytes.skip(offset as int)
    }
}

/// Reads the control file of a mount: the name of the branch that it shows.
pub fn read_ctl(branch: &str, offset: i64, size: u32) -> (r: Vec<u8>)
    ensures
        r@ == slice(vstd::utf8::encode_utf8(branch@), offset, size),
{
    let bytes = branch.as_bytes();
    let mut out: Vec<u8> = Vec::new();
    if offset < 0 {
        return out;
    }
    let start: u64 = offset as u64;
    let len: usize = bytes.len();
    if start >= len as u64 {
        return out;
    }
    let mut i: usize = start as usize;
    let mut left: u32 = size;
    let ghost from = i as int;
    while i < len && left > 0
        invariant
            len == bytes@.len(),
            0 <= from <= i <= len,
            left == size - (i - from),
            out@ == bytes@.subrange(from, i as int),
        decreases left,
    {
        out.push(bytes[i]);
        proof {
            assert(out@ =~= bytes@.subrange(from, i + 1));
        }
        i = i + 1;
        left = left - 1;
    }
    proof {
        assert(bytes@.skip(from) =~= bytes@.subrange(from, len as int));
    }
    out
}

/// The permissions of a new entry.
pub fn masked_mode(mode: u32, umask: u32) -> (r: u32)
    ensures
        r == mode & !umask,
{
    mode & !umask
}

/// Reading a control file in pieces gives its bytes: a read covers what is there from its offset
/// on, as far as it asks, and nothing beyond the end.
pub proof fn law_reads_cover_their_span(bytes: Seq<u8>, offset: i64, size: u32, i: int)
    requires
        0 <= offset,
    ensures
        ({
            let r = slice(bytes, offset, size);
            &&& r.len() <= size
            &&& offset >= bytes.len() ==> r.len() == 0
            &&& offset < bytes.len() && offset + size <= bytes.len() ==> r.len() == size
            &&& offset < bytes.len() && offset + size > bytes.len() ==> r.len() == bytes.len()
                - offset
            &&& 0 <= i < r.len() ==> r[i] == bytes[offset + i]
        }),
{
}

} // verus!
