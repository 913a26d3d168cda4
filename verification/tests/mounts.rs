//! The operations on a mount.

use branchfs::branch::StoredState;
use branchfs::commit::CommitSeen;
use branchfs::errors::{BranchError, Errno};
use branchfs::fs::{BranchFs, Entry, Target, CTL_INO};
use branchfs::manager::{BranchManager, Invalidation, ROOT_INO};
use branchfs::operations::{branch_root, listed, resize_refused, Backing, FoundName};
use branchfs::quota::StorageQuota;
use branchfs::records::{FileKind, InheritanceMode};
use branchfs::rename::Renaming;
use branchfs::table::Table;

fn test_manager() -> BranchManager {
    BranchManager::new(Table::new(), StoredState::nothing(), StorageQuota::new(None)).0
}

fn mount(mgr: &BranchManager, at: &str) -> BranchFs {
    BranchFs::new(mgr, at, false, true, 1000, 1000)
}

fn create(mgr: &mut BranchManager, name: &str, parent: &str) {
    mgr.create_branch(name, parent, StoredState::nothing()).unwrap();
}

fn nothing_seen() -> CommitSeen {
    CommitSeen {
        deletes: vec![],
        files: vec![],
        writes: vec![],
        inherited: vec![],
        freed: 0,
        parent_before: 0,
        parent_after: 0,
    }
}

fn entry(t: Target) -> Entry {
    match t {
        Target::Entry(e) => e,
        _ => panic!("no entry"),
    }
}

fn fails(t: Target, e: Errno) -> bool {
    matches!(t, Target::Fail(x) if x == e)
}

/// A mount at `/mnt/a` that shows main, over a store with the branches `a` and `a1` below it.
fn setup() -> (BranchManager, BranchFs) {
    let mut mgr = test_manager();
    create(&mut mgr, "a", "main");
    create(&mut mgr, "a1", "a");
    mgr.set_mount_branch("/mnt/a", "main");
    let fs = mount(&mgr, "/mnt/a");
    (mgr, fs)
}

#[test]
fn is_stale_false_when_in_sync() {
    let mut mgr = test_manager();
    mgr.set_mount_branch("/mnt/a", "main");
    let fs = mount(&mgr, "/mnt/a");

    assert!(!fs.is_stale(&mgr));
}

#[test]
fn is_stale_true_after_foreign_commit() {
    let mut mgr = test_manager();
    mgr.set_mount_branch("/mnt/a", "main");
    let fs = mount(&mgr, "/mnt/a");
    assert!(!fs.is_stale(&mgr));

    create(&mut mgr, "feat", "main");
    mgr.commit("feat", &nothing_seen()).unwrap();

    assert!(fs.is_stale(&mgr), "a foreign commit must make the mount stale");
}

#[test]
fn is_stale_true_after_branch_aborted() {
    let mut mgr = test_manager();
    create(&mut mgr, "feat", "main");
    mgr.set_mount_branch("/mnt/a", "feat");
    let fs = mount(&mgr, "/mnt/a");
    assert!(!fs.is_stale(&mgr));

    mgr.abort("feat", 0).unwrap();

    assert!(fs.is_stale(&mgr), "a foreign abort must make the mount stale via branch removal");
}

#[test]
fn lookups_lead_to_branches_controls_and_entries() {
    let (mgr, mut fs) = setup();
    assert!(matches!(fs.lookup(&mgr, ROOT_INO, ".branchfs_ctl"), Target::RootCtl));
    let dir = fs.lookup(&mgr, ROOT_INO, "@a");
    assert!(matches!(&dir, Target::BranchDir(b) if b == "a"));
    assert!(fails(fs.lookup(&mgr, ROOT_INO, "@none"), Errno::Enoent));
    let e = entry(fs.lookup(&mgr, ROOT_INO, "f"));
    assert_eq!((e.branch.as_str(), e.rel.as_str(), e.inode_path.as_str()), ("main", "/f", "/f"));
    assert!(e.at_root);

    let ino = fs.enter(&dir);
    assert_eq!(fs.inodes.get_path(ino).as_deref(), Some("/@a"));
    assert!(matches!(fs.lookup(&mgr, ino, ".branchfs_ctl"), Target::BranchCtl(b) if b == "a"));
    let e = entry(fs.lookup(&mgr, ino, "f"));
    assert_eq!((e.branch.as_str(), e.rel.as_str(), e.inode_path.as_str()), ("a", "/f", "/@a/f"));
    assert!(!e.at_root);
    // A nested branch is reached at both places, and only there.
    assert!(matches!(fs.lookup(&mgr, ROOT_INO, "@a1"), Target::BranchDir(b) if b == "a1"));
    assert!(matches!(fs.lookup(&mgr, ino, "@a1"), Target::BranchDir(b) if b == "a1"));
    assert!(fails(fs.lookup(&mgr, ino, "@a"), Errno::Enoent));
    assert!(fails(fs.lookup(&mgr, 99, "f"), Errno::Enoent));
}

#[test]
fn numbers_are_kept() {
    let (mgr, mut fs) = setup();
    let t = fs.lookup(&mgr, ROOT_INO, "f");
    let ino = fs.enter(&t);
    assert_eq!(ino, 2);
    assert_eq!(fs.enter(&t), ino);
    assert_eq!(fs.enter(&Target::RootCtl), CTL_INO);
    let ctl = fs.enter(&Target::BranchCtl("a".to_string()));
    assert_eq!(ctl, u64::MAX - 1_000_000);
    assert_eq!(fs.enter(&Target::BranchCtl("a".to_string())), ctl);
    assert_eq!(fs.enter(&Target::BranchCtl("a1".to_string())), ctl - 1);
    assert_eq!(fs.branch_for_ctl_ino(ctl).as_deref(), Some("a"));
    assert!(matches!(fs.getattr(&mgr, ctl), Target::BranchCtl(b) if b == "a"));
    assert!(matches!(fs.getattr(&mgr, CTL_INO), Target::RootCtl));
    assert_eq!(entry(fs.getattr(&mgr, ino)).rel, "/f");
    assert!(fails(fs.getattr(&mgr, 77), Errno::Enoent));
    assert!(fs.attr_of_missing(ROOT_INO).is_ok());
    assert_eq!(fs.attr_of_missing(ino), Err(Errno::Enoent));
}

#[test]
fn hidden_controls_are_out_of_reach() {
    let (mgr, _) = setup();
    let mut fs = BranchFs::new(&mgr, "/mnt/a", false, false, 0, 0);
    assert_eq!(entry(fs.lookup(&mgr, ROOT_INO, ".branchfs_ctl")).rel, "/.branchfs_ctl");
    assert_eq!(entry(fs.lookup(&mgr, ROOT_INO, "@a")).rel, "/@a");
    assert!(fails(fs.getattr(&mgr, CTL_INO), Errno::Enoent));
    assert!(fails(fs.read(&mgr, CTL_INO), Errno::Enoent));
    assert!(fails(fs.write(&mgr, CTL_INO), Errno::Eperm));
    assert!(fs.list_controls(&mgr, None).is_empty());
    assert_eq!(fs.ctl_branch(&mgr, CTL_INO), Err(Errno::Eperm));

    // Names that are special elsewhere are ordinary here.
    for name in ["@a", ".branchfs_ctl"] {
        let e = entry(fs.create(&mgr, ROOT_INO, name));
        assert_eq!((e.branch.as_str(), e.rel.as_str()), ("main", format!("/{}", name).as_str()));
        let ino = fs.finish_new(&mgr, &e).unwrap();
        assert_eq!(entry(fs.getattr(&mgr, ino)).branch, "main");
        let below = entry(fs.create(&mgr, ino, "f"));
        assert_eq!(below.branch, "main");
        assert_eq!(below.rel, format!("/{}/f", name));
        assert_eq!(entry(fs.readdir(&mgr, ino)).branch, "main");
        assert_eq!(entry(fs.unlink(&mgr, ROOT_INO, name)).branch, "main");
    }
    assert_eq!(fs.ctl_branch(&mgr, 5), Err(Errno::Enotty));
}

#[test]
fn stale_mounts_refuse() {
    let (mut mgr, mut fs) = setup();
    let t = fs.lookup(&mgr, ROOT_INO, "f");
    let ino = fs.enter(&t);
    create(&mut mgr, "later", "main");
    assert!(fs.is_stale(&mgr));
    assert!(fails(fs.lookup(&mgr, ROOT_INO, "f"), Errno::Estale));
    assert!(fails(fs.getattr(&mgr, ino), Errno::Estale));
    assert!(fails(fs.read(&mgr, ino), Errno::Estale));
    assert!(fails(fs.write(&mgr, ino), Errno::Estale));
    assert!(fails(fs.readdir(&mgr, ROOT_INO), Errno::Estale));
    assert!(fails(fs.open(&mgr, ino, false), Errno::Estale));
    assert!(fails(fs.readlink(&mgr, ino), Errno::Estale));
    assert_eq!(entry(fs.getattr(&mgr, ROOT_INO)).rel, "/");
    let e = entry(fs.create(&mgr, ROOT_INO, "g"));
    assert_eq!(fs.finish(&mgr, &e), Err(Errno::Estale));
    assert_eq!(fs.finish_new(&mgr, &e), Err(Errno::Estale));
    assert_eq!(fs.finish_unlink(&mgr, &e, true), Err(Errno::Estale));
    assert!(matches!(fs.write(&mgr, CTL_INO), Target::RootCtl));
    fs.catch_up(&mgr);
    assert!(!fs.is_stale(&mgr));
    assert_eq!(entry(fs.read(&mgr, ino)).rel, "/f");
}

#[test]
fn kept_files_are_used_and_let_go() {
    let (mgr, mut fs) = setup();
    let t = fs.lookup(&mgr, ROOT_INO, "f");
    let ino = fs.enter(&t);
    let epoch = fs.current_epoch;
    fs.open_cache.insert(ino, epoch);
    assert!(matches!(fs.read(&mgr, ino), Target::Cached));
    assert_eq!(entry(fs.write(&mgr, ino)).rel, "/f");
    assert_eq!(entry(fs.read(&mgr, ino)).rel, "/f");
    fs.write_cache.insert(ino, epoch);
    assert!(matches!(fs.write(&mgr, ino), Target::Cached));
    assert_eq!(entry(fs.setattr(&mgr, ino, true, false)).rel, "/f");
    assert_eq!(entry(fs.write(&mgr, ino)).rel, "/f");
}

#[test]
fn frozen_branches_take_no_changes() {
    let (mut mgr, mut fs) = setup();
    let dir = fs.lookup(&mgr, ROOT_INO, "@a");
    let dir_ino = fs.enter(&dir);
    let t = fs.lookup(&mgr, dir_ino, "f");
    let ino = fs.enter(&t);
    assert_eq!(entry(fs.create(&mgr, dir_ino, "g")).inode_path, "/@a/g");
    mgr.freeze_branch("a").unwrap();
    assert!(fails(fs.create(&mgr, dir_ino, "g"), Errno::Erofs));
    assert!(fails(fs.unlink(&mgr, dir_ino, "f"), Errno::Erofs));
    assert!(fails(fs.write(&mgr, ino), Errno::Erofs));
    assert!(fails(fs.open(&mgr, ino, true), Errno::Erofs));
    assert_eq!(entry(fs.open(&mgr, ino, false)).rel, "/f");
    assert!(fails(fs.setattr(&mgr, ino, false, true), Errno::Erofs));
    assert_eq!(entry(fs.setattr(&mgr, ino, false, false)).rel, "/f");
    let r = fs.rename(&mgr, dir_ino, "f", dir_ino, "g");
    assert!(matches!(r, Renaming::Fail(Errno::Erofs)));
    mgr.thaw_branch("a").unwrap();
    assert_eq!(entry(fs.write(&mgr, ino)).rel, "/f");
}

#[test]
fn controls_cannot_be_made_or_removed_in_branches() {
    let (mgr, mut fs) = setup();
    let dir = fs.lookup(&mgr, ROOT_INO, "@a");
    let dir_ino = fs.enter(&dir);
    assert!(fails(fs.unlink(&mgr, dir_ino, "@a1"), Errno::Eperm));
    assert!(fails(fs.unlink(&mgr, dir_ino, ".branchfs_ctl"), Errno::Eperm));
    assert!(fails(fs.write(&mgr, dir_ino), Errno::Eperm));
    assert!(fails(fs.read(&mgr, dir_ino), Errno::Eisdir));
    assert!(fails(fs.setattr(&mgr, dir_ino, false, true), Errno::Eperm));
    assert!(fails(fs.readlink(&mgr, dir_ino), Errno::Einval));
    assert!(matches!(fs.open(&mgr, dir_ino, true), Target::Done));
    assert!(matches!(fs.open(&mgr, CTL_INO, true), Target::Done));
    let ctl_path = fs.enter(&Target::Entry(Entry {
        branch: "main".to_string(),
        rel: "/.branchfs_ctl".to_string(),
        inode_path: "/.branchfs_ctl".to_string(),
        at_root: true,
    }));
    assert!(fails(fs.readdir(&mgr, ctl_path), Errno::Enotdir));
    assert!(fails(fs.create(&mgr, ctl_path, "x"), Errno::Eperm));
}

#[test]
fn entries_end_with_numbers_or_errors() {
    let (mut mgr, mut fs) = setup();
    let e = entry(fs.create(&mgr, ROOT_INO, "new"));
    let ino = fs.finish_new(&mgr, &e).unwrap();
    assert_eq!(fs.inodes.get_path(ino).as_deref(), Some("/new"));
    assert!(fs.open_found(&mgr, &e, true).is_ok());
    assert_eq!(fs.finish_unlink(&mgr, &e, false), Err(Errno::Estale));
    assert_eq!(fs.finish_unlink(&mgr, &e, true), Ok(()));
    assert_eq!(fs.inodes.get_path(ino), None);
    let dir = fs.lookup(&mgr, ROOT_INO, "@a");
    let dir_ino = fs.enter(&dir);
    let e = entry(fs.unlink(&mgr, dir_ino, "x"));
    assert_eq!(fs.finish_unlink(&mgr, &e, false), Err(Errno::Eio));
    assert_eq!(fs.finish_write(&mut mgr, Some(&e), 10, 25), Ok(()));
    assert_eq!(mgr.quota.used(), 15);
    assert_eq!(fs.finish_write(&mut mgr, None, 25, 5), Ok(()));
    assert_eq!(mgr.quota.used(), 15);
}

#[test]
fn directories_are_listed() {
    let (mgr, mut fs) = setup();
    let e = entry(fs.readdir(&mgr, ROOT_INO));
    let found = vec![
        FoundName { name: "f".to_string(), kind: FileKind::File },
        FoundName { name: "d".to_string(), kind: FileKind::Dir },
    ];
    let items = fs.list_names(ROOT_INO, &e, &found);
    let seen: Vec<_> = items.iter().map(|i| (i.ino, i.kind, i.name.as_str())).collect();
    assert_eq!(
        seen,
        vec![
            (1, FileKind::Dir, "."),
            (1, FileKind::Dir, ".."),
            (2, FileKind::File, "f"),
            (3, FileKind::Dir, "d"),
        ]
    );
    assert_eq!(fs.inodes.get_path(3).as_deref(), Some("/d"));

    let items = fs.list_controls(&mgr, None);
    assert_eq!((items[0].ino, items[0].name.as_str()), (CTL_INO, ".branchfs_ctl"));
    let mut names: Vec<_> = items[1..].iter().map(|i| i.name.clone()).collect();
    names.sort();
    assert_eq!(names, vec!["@a".to_string(), "@a1".to_string()]);

    let root = branch_root("a");
    let items = fs.list_names(9, &root, &found);
    assert_eq!(fs.inodes.get_path(items[2].ino).as_deref(), Some("/@a/f"));
    let items = fs.list_controls(&mgr, Some("a"));
    assert_eq!(items.len(), 2);
    assert_eq!(items[0].ino, u64::MAX - 1_000_000);
    assert_eq!(items[1].name, "@a1");
    assert_eq!(fs.inodes.get_path(items[1].ino).as_deref(), Some("/@a1"));
}

#[test]
fn controls_are_listed_at_the_top_of_a_branch() {
    let (mgr, mut fs) = setup();
    let top = listed(fs.readdir(&mgr, ROOT_INO)).unwrap();
    assert_eq!(top.dir.branch, "main");
    assert!(top.controls);
    assert_eq!(top.above, None);

    let dir = fs.lookup(&mgr, ROOT_INO, "@a");
    let dir_ino = fs.enter(&dir);
    let l = listed(fs.readdir(&mgr, dir_ino)).unwrap();
    assert_eq!((l.dir.branch.as_str(), l.dir.rel.as_str()), ("a", "/"));
    assert_eq!(l.dir.inode_path, "/@a");
    assert!(l.controls);
    assert_eq!(l.above.as_deref(), Some("a"));

    let d = fs.lookup(&mgr, ROOT_INO, "d");
    let d_ino = fs.enter(&d);
    let l = listed(fs.readdir(&mgr, d_ino)).unwrap();
    assert_eq!(l.dir.rel, "/d");
    assert!(!l.controls);
    assert_eq!(l.above, None);

    assert_eq!(listed(Target::Fail(Errno::Enoent)).err(), Some(Errno::Enoent));
    assert_eq!(listed(Target::RootCtl).err(), Some(Errno::Enotdir));
}

#[test]
fn kernels_are_handed_files_where_that_is_enabled() {
    let (mut mgr, fs) = setup();
    let direct = BranchFs::new(&mgr, "/mnt/a", true, true, 1000, 1000);
    assert_eq!(fs.backing(&mgr, "a1", true), Ok(Backing::Asked));
    assert_eq!(direct.backing(&mgr, "a1", false), Ok(Backing::Read));
    assert_eq!(direct.backing(&mgr, "a1", true), Ok(Backing::Write));
    mgr.freeze_branch("a1").unwrap();
    assert_eq!(direct.backing(&mgr, "a1", false), Ok(Backing::Read));
    assert_eq!(direct.backing(&mgr, "a1", true), Err(Errno::Erofs));
    assert_eq!(fs.backing(&mgr, "a1", true), Ok(Backing::Asked));
}

#[test]
fn a_change_of_size_reports_a_full_storage_only() {
    assert_eq!(resize_refused(&BranchError::Io(Errno::Enospc)), Err(Errno::Enospc));
    assert_eq!(resize_refused(&BranchError::Io(Errno::Eio)), Ok(()));
    assert_eq!(resize_refused(&BranchError::NotFound("b".to_string())), Ok(()));
}

#[test]
fn renames_stay_in_one_branch() {
    let (mut mgr, mut fs) = setup();
    let dir = fs.lookup(&mgr, ROOT_INO, "@a");
    let dir_ino = fs.enter(&dir);
    let r = fs.rename(&mgr, ROOT_INO, "f", dir_ino, "g");
    assert!(matches!(r, Renaming::Fail(Errno::Exdev)));
    let r = fs.rename(&mgr, ROOT_INO, "f", 99, "g");
    assert!(matches!(r, Renaming::Fail(Errno::Enoent)));
    let (src, dst) = match fs.rename(&mgr, dir_ino, "f", dir_ino, "g") {
        Renaming::Move { src, dst } => (src, dst),
        Renaming::Fail(e) => panic!("{:?}", e),
    };
    assert_eq!((src.inode_path.as_str(), dst.inode_path.as_str()), ("/@a/f", "/@a/g"));
    let old = fs.enter(&Target::Entry(dir_child("f")));
    let lines = mgr.record_rename("a", &src.rel, &dst.rel, true, None).unwrap();
    assert_eq!(lines, vec!["+ /f\n".to_string(), "+ /g\n".to_string(), "- /g\n".to_string()]);
    let tombs = mgr.with_branch("a", |b| Ok(b.get_tombstones())).unwrap();
    assert_eq!(tombs, vec!["/f".to_string()]);
    let new = fs.finish_rename(&mgr, &src, &dst).unwrap();
    assert_eq!(fs.inodes.get_path(old), None);
    assert_eq!(fs.inodes.get_path(new).as_deref(), Some("/@a/g"));
    assert!(mgr.record_rename("none", "/f", "/g", false, None).is_err());
}

fn dir_child(name: &str) -> Entry {
    branch_root("a").child(name)
}

#[test]
fn searches_follow_the_branch() {
    let (mgr, fs) = setup();
    let e = dir_child("f");
    let search = fs.search(&mgr, &e);
    let places: Vec<_> = search.places.iter().map(|l| l.place.storage_dir()).collect();
    assert_eq!(
        places,
        vec![
            Some("branches/a/files".to_string()),
            Some("branches/main/files".to_string()),
            None,
        ]
    );
    let gone = Entry {
        branch: "none".to_string(),
        rel: "/f".to_string(),
        inode_path: "/@none/f".to_string(),
        at_root: false,
    };
    assert!(fs.search(&mgr, &gone).places.is_empty());
}

#[test]
fn mounts_switch_and_follow_their_parents() {
    let (mut mgr, mut fs) = setup();
    assert_eq!(fs.switch(&mut mgr, "none"), Err(Errno::Enoent));
    assert_eq!(fs.switch(&mut mgr, "a1"), Ok(()));
    assert_eq!(fs.get_branch_name(&mgr), "a1");
    assert_eq!(fs.ctl_branch(&mgr, CTL_INO).unwrap(), "a1");
    assert_eq!(fs.ctl_branch(&mgr, 5), Err(Errno::Enotty));
    assert!(!fs.is_stale(&mgr));

    let parent = mgr.commit("a1", &nothing_seen()).unwrap();
    assert!(fs.is_stale(&mgr));
    fs.after_end(&mut mgr, "a1", &parent);
    assert_eq!(fs.get_branch_name(&mgr), "a");
    assert!(!fs.is_stale(&mgr));

    create(&mut mgr, "other", "main");
    fs.catch_up(&mgr);
    let t = fs.lookup(&mgr, ROOT_INO, "@other");
    let ino = fs.enter(&t);
    mgr.abort("other", 0).unwrap();
    fs.after_end(&mut mgr, "other", "main");
    assert_eq!(fs.get_branch_name(&mgr), "a");
    assert_eq!(fs.inodes.get_path(ino), None);
    assert!(!fs.is_stale(&mgr));
}

#[test]
fn owners_are_adopted_but_not_root() {
    let (_, mut fs) = setup();
    fs.adopt_owner(0, 0);
    assert_eq!((fs.uid, fs.gid), (1000, 1000));
    fs.adopt_owner(7, 8);
    assert_eq!((fs.uid, fs.gid), (7, 8));
}

#[test]
fn kernels_are_told_what_to_drop() {
    let (mut mgr, _) = setup();
    mgr.register_notifier("a", "/mnt/x", 10);
    mgr.register_notifier("main", "/mnt/a", 20);
    mgr.register_opened_inode("a", 5);
    let told = mgr.invalidate_branches(&vec!["a".to_string()]);
    assert_eq!(
        told,
        vec![Invalidation { notifier: 10, ino: 1 }, Invalidation { notifier: 10, ino: 5 }]
    );
    assert_eq!(mgr.invalidate_all_mounts().len(), 3);
    let before = mgr.get_epoch();
    assert_eq!(mgr.announce_to_all().len(), 3);
    assert_eq!(mgr.get_epoch(), before + 1);
    mgr.set_mount_branch("/mnt/x", "a");
    mgr.switch_mount_branch("/mnt/x", "main");
    assert_eq!(mgr.invalidate_branches(&vec!["a".to_string()]).len(), 0);
    mgr.unregister_mount("/mnt/x");
    assert_eq!(mgr.invalidate_all_mounts(), vec![Invalidation { notifier: 20, ino: 1 }]);
    mgr.unregister_notifier("main", "/mnt/a");
    assert!(mgr.invalidate_all_mounts().is_empty());
    assert!(mgr.get_branch("a").is_none());
    let list = mgr.list_branches();
    assert_eq!(list.len(), 3);
    assert!(list.contains(&("a1".to_string(), Some("a".to_string()))));
}

#[test]
fn cycles_are_noticed() {
    let mut mgr = test_manager();
    let branch = |name: &str, parent: &str| {
        branchfs::branch::Branch::new(
            name,
            Some(parent),
            0,
            InheritanceMode::Lazy,
            vec![],
            StoredState::nothing(),
        )
    };
    mgr.add_branch(branch("x", "y"));
    mgr.add_branch(branch("y", "x"));
    mgr.add_branch(branch("z", "gone"));
    assert!(!mgr.is_rooted("x"));
    assert!(!mgr.is_rooted("y"));
    assert!(mgr.is_rooted("z"));
    assert!(mgr.is_rooted("main"));
    let s = mgr.resolve_path("z", "/f").unwrap();
    assert_eq!(s.missing.as_deref(), Some("gone"));
    assert!(s.conclude(None).is_err());
}

#[test]
fn kept_files_do_not_outlive_their_branch() {
    let (mut mgr, mut fs) = setup();
    let t = fs.lookup(&mgr, ROOT_INO, "@a1");
    let dir = fs.enter(&t);
    let t = fs.lookup(&mgr, dir, "f");
    let ino = fs.enter(&t);
    let epoch = fs.current_epoch;
    fs.open_cache.insert(ino, epoch);
    fs.write_cache.insert(ino, epoch);
    assert!(matches!(fs.read(&mgr, ino), Target::Cached));
    mgr.abort("a1", 0).unwrap();
    assert!(!fs.is_stale(&mgr));
    assert!(fails(fs.read(&mgr, ino), Errno::Enoent));
    assert!(fails(fs.write(&mgr, ino), Errno::Erofs));

    let t = fs.lookup(&mgr, ROOT_INO, "g");
    let ino = fs.enter(&t);
    fs.open_cache.insert(ino, epoch);
    assert!(matches!(fs.read(&mgr, ino), Target::Cached));
    fs.switch(&mut mgr, "a").unwrap();
    assert!(fails(fs.read(&mgr, ino), Errno::Enoent));
    assert!(!fs.open_cache.held);
}
