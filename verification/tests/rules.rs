//! The rules that branches and mounts are made of, on concrete values.

use std::collections::hash_map::DefaultHasher;
use std::hash::{Hash, Hasher};

use branchfs::branch::{hidden_by, touch_content_key, Branch, StoredState};
use branchfs::changes::{owner_access, path_lock, PATH_LOCK_STRIPES};
use branchfs::context::{branch_path_of, classify_path, PathContext};
use branchfs::control::{
    ctl_request, name_buffer, parse_ctl, quota_blocks, request_errno, wants_write, write_access,
    CtlCommand, CtlRequest, OpenBits,
};
use branchfs::daemon::{control_shown, ensure_daemon};
use branchfs::errors::{errno_of, BranchError, Errno, ErrorNumbers};
use branchfs::fs::{BranchFs, FileCache};
use branchfs::inode::InodeManager;
use branchfs::journal::{load_tombstones, log_entries, tombstone_op, write_snapshot};
use branchfs::merge::{
    changed_range, read_bounded_text, split_lines_keepends, try_three_way_text_merge,
    worth_reading,
};
use branchfs::names::{
    made_up_branch_name, metadata_temp_name, staging_name, validate_branch_name,
};
use branchfs::operations::{masked_mode, read_ctl, write_span};
use branchfs::order::sort_texts;
use branchfs::paths::{
    branch_subdir, deleted_by, join_rel, lies_under, listed_child_of, normalize_hide_path, Place,
};
use branchfs::quota::StorageQuota;
use branchfs::records::{BranchState, FileKind, InheritanceMode, Meta, PathIdentity};
use branchfs::rename::{may_rename, rename_flags};
use branchfs::size::parse_size;
use branchfs::side_bytes::commit_side_path;
use branchfs::staged::side_path_of;
use branchfs::table::Table;
use branchfs::tree::{
    checked_delta_size, checked_dir_size, checked_node_size, collect_delta_diff, delta_files,
    delta_size, dir_size, file_paths, holds_entries, node_size, DirEntry, Node,
};
use branchfs::writes::prune_empty_delta_parents;

fn entry(name: &str, node: Node) -> DirEntry {
    DirEntry { name: name.to_string(), raw: name.as_bytes().to_vec(), node }
}

fn strings(v: &[&str]) -> Vec<String> {
    v.iter().map(|s| s.to_string()).collect()
}

fn file(len: u64) -> Option<Meta> {
    Some(Meta { kind: FileKind::File, len, mtime_ns: Some(5) })
}

#[test]
fn hide_paths_are_normalized() {
    assert_eq!(normalize_hide_path(".ssh").as_deref(), Some("/.ssh"));
    assert_eq!(normalize_hide_path("  //a/b//\n").as_deref(), Some("/a/b"));
    assert_eq!(normalize_hide_path("/"), None);
    assert_eq!(normalize_hide_path(" \t"), None);
}

#[test]
fn hide_rules_cover_what_is_below() {
    let rules = strings(&["/.ssh", "/a/b"]);
    assert!(hidden_by(&rules, ".ssh"));
    assert!(hidden_by(&rules, "/.ssh/id_rsa"));
    assert!(hidden_by(&rules, "/a/b/c/d"));
    assert!(!hidden_by(&rules, "/.sshx"));
    assert!(!hidden_by(&rules, "/a"));
    assert!(!hidden_by(&rules, "/"));
}

#[test]
fn tombstones_cover_what_is_below() {
    let tombs = strings(&["/dir", "/x/y"]);
    assert!(deleted_by(&tombs, "/dir"));
    assert!(deleted_by(&tombs, "/dir/a/b"));
    assert!(deleted_by(&tombs, "/x/y"));
    assert!(!deleted_by(&tombs, "/x"));
    assert!(!deleted_by(&tombs, "/dirt"));
    assert!(!deleted_by(&tombs, "/"));
}

#[test]
fn paths_are_joined_and_compared_by_whole_names() {
    assert_eq!(join_rel("/", "a"), "/a");
    assert_eq!(join_rel("/d", "a"), "/d/a");
    assert_eq!(listed_child_of("/d/", "a"), "/d/a");
    assert_eq!(listed_child_of("/", "a"), "/a");
    assert!(lies_under("/a", "/a"));
    assert!(lies_under("/a", "/a/b"));
    assert!(!lies_under("/a", "/ab"));
    assert_eq!(branch_subdir("work", "files"), "branches/work/files");
    assert_eq!(Place::Base.storage_dir(), None);
    let d = Place::TouchContent("w".to_string()).storage_dir();
    assert_eq!(d.as_deref(), Some("branches/w/touch-content"));
    assert_eq!(prune_empty_delta_parents("/a/b/c"), strings(&["/a/b", "/a"]));
    assert!(prune_empty_delta_parents("/a").is_empty());
}

#[test]
fn sizes_are_read() {
    assert_eq!(parse_size("1024"), Ok(1024));
    assert_eq!(parse_size(" 500M "), Ok(500 * 1024 * 1024));
    assert_eq!(parse_size("2g"), Ok(2 * 1024 * 1024 * 1024));
    assert_eq!(parse_size("1T"), Ok(1 << 40));
    assert_eq!(parse_size("3k"), Ok(3072));
    assert_eq!(parse_size("+7"), Ok(7));
    assert_eq!(parse_size(""), Err("empty size string".to_string()));
    assert_eq!(parse_size("M"), Err("invalid size: M".to_string()));
    assert_eq!(parse_size("1.5G"), Err("invalid size: 1.5G".to_string()));
    assert_eq!(parse_size("-1"), Err("invalid size: -1".to_string()));
    assert_eq!(parse_size("18446744073709551615"), Ok(u64::MAX));
    assert_eq!(
        parse_size("18446744073709551616"),
        Err("invalid size: 18446744073709551616".to_string())
    );
    assert_eq!(
        parse_size("18446744073709551615K"),
        Err("size overflow: 18446744073709551615K".to_string())
    );
}

#[test]
fn texts_are_merged_line_by_line() {
    let base = b"1\n2\n3\n4\n5\n";
    let merge = |a: &[u8], b: &[u8]| try_three_way_text_merge(base, a, b);
    assert_eq!(merge(b"1\nA\n3\n4\n5\n", b"1\n2\n3\nB\n5\n").unwrap(), b"1\nA\n3\nB\n5\n");
    assert_eq!(merge(b"1\n2\n3\nB\n5\n", b"1\nA\n3\n4\n5\n").unwrap(), b"1\nA\n3\nB\n5\n");
    assert_eq!(merge(b"same\n", b"same\n").unwrap(), b"same\n");
    assert_eq!(merge(base, b"1\n2\n").unwrap(), b"1\n2\n");
    assert_eq!(merge(b"1\n2\n", base).unwrap(), b"1\n2\n");
    assert_eq!(merge(b"1\nA\n3\n4\n5\n", b"1\nB\n3\n4\n5\n"), None);
    assert_eq!(merge(b"1\n\xff\n3\n4\n5\n", b"1\n2\n3\nB\n5\n"), None);
    // The session adds a line right where the other side rewrites one.
    assert_eq!(try_three_way_text_merge(b"1\n2\n", b"1\nA\n", b"1\nnew\n2\n"), None);
    assert_eq!(
        try_three_way_text_merge(b"1\n2\n", b"1\nnew\n2\n", b"1\nA\n").unwrap(),
        b"1\nnew\nA\n"
    );
}

#[test]
fn lines_keep_their_ends() {
    let lines = split_lines_keepends(b"a\n\nb");
    assert_eq!(lines, vec![b"a\n".to_vec(), b"\n".to_vec(), b"b".to_vec()]);
    assert!(split_lines_keepends(b"").is_empty());
    let base = split_lines_keepends(b"a\nb\nc\n");
    let changed = split_lines_keepends(b"a\nx\ny\nc\n");
    let (start, end, text) = changed_range(&base, &changed);
    assert_eq!((start, end), (1, 2));
    assert_eq!(text, vec![b"x\n".to_vec(), b"y\n".to_vec()]);
}

#[test]
fn only_small_texts_are_kept() {
    assert!(worth_reading(file(1024 * 1024)));
    assert!(!worth_reading(file(1024 * 1024 + 1)));
    assert!(!worth_reading(None));
    assert_eq!(read_bounded_text(file(3), b"abc".to_vec()), Some(b"abc".to_vec()));
    assert_eq!(read_bounded_text(file(3), b"a\0c".to_vec()), None);
    assert_eq!(read_bounded_text(file(2), b"\xc3\x28".to_vec()), None);
    let link = Some(Meta { kind: FileKind::Symlink, len: 3, mtime_ns: None });
    assert_eq!(read_bounded_text(link, b"abc".to_vec()), None);
}

#[test]
fn journals_are_replayed() {
    assert_eq!(log_entries("a\n\n  \r\nb\r\nc"), strings(&["a", "b", "c"]));
    let snapshot = Some("/a\n/b\n".to_string());
    let log = Some("+ /c\n- /a\n".to_string());
    assert_eq!(load_tombstones(&snapshot, &log), strings(&["/b", "/c"]));
    assert!(load_tombstones(&None, &None).is_empty());
    assert_eq!(tombstone_op(true, "/x"), "+ /x\n");
    assert_eq!(tombstone_op(false, "/x"), "- /x\n");
    assert_eq!(write_snapshot(&strings(&["/a", "/b"])), "/a\n/b\n");
    // A log line has the effect that it records.
    let text = tombstone_op(true, "/x") + &tombstone_op(false, "/x");
    assert!(load_tombstones(&None, &Some(text)).is_empty());
    // A snapshot reads back.
    let all = strings(&["/a b", "/c"]);
    assert_eq!(load_tombstones(&Some(write_snapshot(&all)), &None), all);
}

#[test]
fn distinct_non_utf8_names_get_distinct_side_paths() {
    // Lossy conversion would map both to U+FFFD and collide; raw bytes must not.
    assert_ne!(commit_side_path(b"/dir/\xff", "tmp"), commit_side_path(b"/dir/\xfe", "tmp"));
    assert_eq!(commit_side_path(b"/dir/\xff", "tmp"), b"/dir/.branchfs-tmp.\xff");
    assert_ne!(commit_side_path(b"/dir/\xff", "tmp"), commit_side_path(b"/dir/\xff", "trash"));
    assert_eq!(commit_side_path(b"dir/", "trash"), b".branchfs-trash.dir");
    let text = "ordn\u{fc}/\u{20ac}";
    assert_eq!(commit_side_path(text.as_bytes(), "tmp"), side_path_of(text, "tmp").as_bytes());
}

#[test]
fn side_files_lie_beside_their_targets() {
    assert_eq!(side_path_of("dir/file", "tmp"), "dir/.branchfs-tmp.file");
    assert_eq!(side_path_of("file", "trash"), ".branchfs-trash.file");
    assert_eq!(side_path_of("dir/", "tmp"), ".branchfs-tmp.dir");
    assert_ne!(side_path_of("dir/a", "tmp"), side_path_of("dir/b", "tmp"));
}

#[test]
fn kept_texts_have_keys_of_their_own() {
    assert_eq!(touch_content_key("/a.txt"), "2f612e747874.base");
    assert_ne!(touch_content_key("/a"), touch_content_key("/b"));
}

#[test]
fn made_up_names_are_random_and_allowed() {
    let (a, b) = (made_up_branch_name(), made_up_branch_name());
    assert_ne!(a, b);
    assert!(a.starts_with("branch-"));
    assert_eq!(a.len(), 43);
    assert_eq!(&a[21..22], "4");
    assert!(validate_branch_name(&a).is_ok());
    let s = staging_name();
    assert!(s.starts_with("cow-") && s.ends_with(".tmp") && s.len() == 44);
    assert!(metadata_temp_name().starts_with("meta.json.tmp."));
    assert!(validate_branch_name("main").is_ok());
}

#[test]
fn quotas_count_and_refuse() {
    let mut q = StorageQuota::new(Some(10));
    assert_eq!(q.check(10), Ok(()));
    assert_eq!(q.check(11), Err(Errno::Enospc));
    q.add(8);
    assert_eq!(q.used(), 8);
    assert_eq!(q.check(3), Err(Errno::Enospc));
    assert_eq!(q.check(u64::MAX), Err(Errno::Enospc));
    q.sub(8);
    assert_eq!(q.used(), 0);
    q.sub(1);
    assert_eq!(q.used(), 0);
    assert_eq!(q.check(0), Ok(()));
    assert_eq!(q.check(10), Ok(()));
    assert_eq!(q.check(11), Err(Errno::Enospc));
    assert_eq!(q.max(), Some(10));
    let free = StorageQuota::new(None);
    assert_eq!(free.check(u64::MAX), Ok(()));
    assert!(quota_blocks(&free).is_none());

    let tree = vec![
        entry("a", Node::File(5)),
        entry("d", Node::Dir(vec![entry("l", Node::Symlink(2))])),
    ];
    assert_eq!(dir_size(&tree), 7);
    assert_eq!(node_size(&tree[1].node), 2);
    assert!(!holds_entries(&tree[0].node) && holds_entries(&tree[1].node));
    assert!(!holds_entries(&Node::Dir(Vec::new())));
    let mut diff = Vec::new();
    collect_delta_diff(&tree, "", &mut diff);
    let seen: Vec<_> =
        diff.iter().map(|e| (e.path.as_str(), e.kind.as_str(), e.bytes)).collect();
    assert_eq!(seen, vec![("/a", "file", 5), ("/d/l", "symlink", 0)]);
}

#[test]
fn only_deltas_count_as_usage() {
    let dir = |name: &str, below: Vec<DirEntry>| entry(name, Node::Dir(below));
    let file = |name: &str, len: u64| entry(name, Node::File(len));
    let meta_only = vec![dir("a", vec![file("meta.json", 5)])];
    assert_eq!(StorageQuota::scan_usage(Some(&meta_only), Some(9)).used(), 0);
    let branches = vec![
        dir("a", vec![file("meta.json", 5), dir("files", vec![dir("d", vec![file("f", 3)])])]),
        file("stray", 100),
        dir("b", vec![dir("inherited", vec![file("f", 50)]), dir("files", vec![file("g", 4)])]),
    ];
    let q = StorageQuota::scan_usage(Some(&branches), Some(9));
    assert_eq!((q.used(), q.max()), (7, Some(9)));
    assert_eq!(delta_size(&branches), 7);
    assert_eq!(StorageQuota::scan_usage(None, Some(9)).used(), 0);
}

#[test]
fn sizes_that_do_not_add_up_are_noticed() {
    let big = || vec![entry("a", Node::File(u64::MAX)), entry("b", Node::Dir(Vec::new()))];
    assert_eq!(checked_dir_size(&big()), Some(u64::MAX));
    let mut more = big();
    more.push(entry("c", Node::Dir(vec![entry("d", Node::Other(1))])));
    assert_eq!(checked_dir_size(&more), None);
    assert_eq!(checked_node_size(&Node::Dir(more)), None);
    assert_eq!(checked_node_size(&Node::Symlink(3)), Some(3));
    let branch = |name: &str| entry(name, Node::Dir(vec![entry("files", Node::Dir(big()))]));
    assert_eq!(checked_delta_size(&vec![branch("x")]), Some(u64::MAX));
    assert_eq!(checked_delta_size(&vec![branch("x"), branch("y")]), None);
}

#[test]
fn files_are_walked_with_their_names_on_disk() {
    let odd = DirEntry { name: "\u{fffd}".to_string(), raw: vec![0xff], node: Node::File(1) };
    let tree = vec![entry("a", Node::File(5)), entry("d", Node::Dir(vec![odd]))];
    let files = delta_files(&tree);
    assert_eq!(file_paths(&files), strings(&["/a", "/d/\u{fffd}"]));
    assert_eq!(files[0].raw, b"a");
    assert_eq!(files[1].raw, b"d/\xff");
}

#[test]
fn failed_operations_answer_with_their_code() {
    assert_eq!(errno_of(&BranchError::Io(Errno::Enospc)), Errno::Enospc);
    assert_eq!(errno_of(&BranchError::NotFound("b".to_string())), Errno::Eio);
    assert_eq!(Errno::Eperm.number(), 1);
    assert_eq!(Errno::Enoent.number(), 2);
    assert_eq!(Errno::Enospc.number(), 28);
    assert_eq!(Errno::Erofs.number(), 30);
    assert!(Errno::Estale.number() > 30);
}

#[test]
fn storage_is_reported_in_blocks() {
    let mut q = StorageQuota::new(Some(4096 * 10 + 5));
    q.add(4096 * 3 + 1);
    let b = quota_blocks(&q).unwrap();
    assert_eq!((b.total, b.available), (10, 7));
    q.add(4096 * 100);
    let b = quota_blocks(&q).unwrap();
    assert_eq!((b.total, b.available), (10, 0));
}

#[test]
fn identities_tell_entries_apart() {
    let a = PathIdentity::from_path(file(3));
    assert_eq!((a.exists, a.kind.as_str(), a.bytes, a.mtime_ns), (true, "file", 3, Some(5)));
    assert!(a.same_as(&PathIdentity::from_path(file(3))));
    assert!(!a.same_as(&PathIdentity::from_path(file(4))));
    let dir = PathIdentity::from_path(Some(Meta { kind: FileKind::Dir, len: 9, mtime_ns: None }));
    assert_eq!((dir.kind.as_str(), dir.bytes), ("dir", 0));
    assert!(PathIdentity::missing().same_as(&PathIdentity::from_path(None)));
    assert_eq!(InheritanceMode::default(), InheritanceMode::Lazy);
    assert_eq!(BranchState::default(), BranchState::Open);
}

#[test]
fn first_touches_are_recorded_once() {
    let mut b = Branch::new(
        "w",
        Some("main"),
        4,
        InheritanceMode::Lazy,
        strings(&["x", "/"]),
        StoredState::nothing(),
    );
    assert_eq!(b.hide_paths, strings(&["/x"]));
    assert!(b.is_hidden("/x/y"));
    let t = b.plan_first_touch("/f", file(3), true, b"abc".to_vec()).unwrap();
    assert_eq!(t.kept_text.as_deref(), Some(&b"abc"[..]));
    assert_eq!(t.record.base_content_key, Some(touch_content_key("/f")));
    b.record_first_touch(&t.record);
    assert!(b.plan_first_touch("/f", None, true, Vec::new()).is_none());
    let t = b.plan_first_touch("/g", None, true, Vec::new()).unwrap();
    assert!(t.kept_text.is_none() && t.record.base_content_key.is_none());
    let meta = b.set_state(BranchState::Frozen);
    assert_eq!(meta.state, BranchState::Frozen);
    assert_eq!(meta.parent_version_at_fork, 4);
    assert!(!b.is_writable());
    let again = Branch::load("w", meta, StoredState::nothing());
    assert_eq!(again.state(), BranchState::Frozen);
    assert!(again.is_hidden("/x"));
    assert_eq!(b.set_tombstones(&strings(&["/a", "/a", "/b"])), "/a\n/b\n");
    assert_eq!(b.revert_tombstones("/a"), strings(&["- /a\n"]));
    assert_eq!(b.get_tombstones(), strings(&["/b"]));
    assert!(b.staging_path().rel.starts_with("cow-"));
}

#[test]
fn modes_are_widened_for_the_owner() {
    assert_eq!(owner_access(FileKind::Dir, 0o000), Some(0o700));
    assert_eq!(owner_access(FileKind::Dir, 0o055), Some(0o755));
    assert_eq!(owner_access(FileKind::Dir, 0o755), None);
    assert_eq!(owner_access(FileKind::File, 0o000), None);
    assert_eq!(masked_mode(0o777, 0o022), 0o755);
}

#[test]
fn a_path_takes_the_same_lock_every_time() {
    let lock = path_lock("work", "/a");
    assert_eq!(path_lock("work", "/a"), lock);
    let mut hasher = DefaultHasher::new();
    "work".hash(&mut hasher);
    "/a".hash(&mut hasher);
    assert_eq!(hasher.finish() % 256, lock as u64);
    let locks: Vec<usize> = (0..64).map(|i| path_lock("work", &format!("/{}", i))).collect();
    assert!(locks.iter().all(|l| *l < PATH_LOCK_STRIPES));
    assert!(locks.iter().any(|l| *l != locks[0]));
}

#[test]
fn inodes_lead_back_to_paths() {
    let mut inodes = InodeManager::new();
    assert_eq!(inodes.get_path(1).as_deref(), Some("/"));
    let a = inodes.get_or_create("/a");
    assert_eq!(inodes.get_or_create("/a"), a);
    let b = inodes.get_or_create("/a/b");
    let c = inodes.get_or_create("/ab");
    assert_eq!((a, b, c), (2, 3, 4));
    assert_eq!(inodes.get_path(b).as_deref(), Some("/a/b"));
    inodes.clear_prefix("/a");
    assert_eq!(inodes.get_path(a), None);
    assert_eq!(inodes.get_path(b), None);
    assert_eq!(inodes.get_path(c).as_deref(), Some("/ab"));
    inodes.remove("/ab");
    inodes.remove("/");
    assert_eq!(inodes.get_path(c), None);
    assert_eq!(inodes.get_path(1).as_deref(), Some("/"));
    assert_eq!(inodes.get_or_create("/ab"), 5);
    inodes.clear();
    assert_eq!(inodes.get_path(5), None);
    assert!(inodes.has_room(1000));
}

#[test]
fn paths_of_a_mount_are_classified() {
    assert!(matches!(classify_path("/@b"), PathContext::BranchDir(b) if b == "b"));
    assert!(matches!(classify_path("/@b/.branchfs_ctl"), PathContext::BranchCtl(b) if b == "b"));
    assert!(
        matches!(classify_path("/@b/x/y"), PathContext::BranchPath(b, r) if b == "b" && r == "/x/y")
    );
    assert!(matches!(classify_path("/.branchfs_ctl"), PathContext::RootCtl));
    assert!(matches!(classify_path("/x/@y"), PathContext::RootPath(p) if p == "/x/@y"));
    assert_eq!(branch_path_of("b", "/x"), "/@b/x");
}

#[test]
fn commands_are_read() {
    assert!(matches!(parse_ctl("commit\n"), CtlCommand::Commit));
    assert!(matches!(parse_ctl(" abort "), CtlCommand::Abort));
    assert!(matches!(parse_ctl("create:x y\n"), CtlCommand::Create(n) if n == "x y"));
    assert!(matches!(parse_ctl("switch:main"), CtlCommand::Switch(n) if n == "main"));
    assert!(matches!(parse_ctl("commits"), CtlCommand::Unknown));
    assert_eq!(ctl_request(0x8080_6200), Ok(CtlRequest::Create));
    assert_eq!(ctl_request(0x6201), Ok(CtlRequest::Commit));
    assert_eq!(ctl_request(0x6202), Ok(CtlRequest::Abort));
    assert_eq!(ctl_request(7), Err(Errno::Enotty));
    let conflict = BranchError::Conflict("x".to_string());
    assert_eq!(request_errno(CtlRequest::Commit, &conflict), Errno::Estale);
    assert_eq!(request_errno(CtlRequest::Abort, &conflict), Errno::Eio);
    assert_eq!(conflict.message(), "Conflict: x");
    assert_eq!(BranchError::Io(Errno::Eio).message(), "IO error");
    assert_eq!(BranchError::CannotOperateOnMain.message(), "Cannot operate on main branch");
    let leaf = BranchError::NotALeaf("b".to_string());
    assert_eq!(leaf.message(), "Branch 'b' is not a leaf (has children)");
    let buf = name_buffer("abc");
    assert_eq!(buf.len(), 128);
    assert_eq!(&buf[..4], b"abc\0");
    let long = name_buffer(&"n".repeat(200));
    assert_eq!((long[126], long[127]), (b'n', 0));
}

#[test]
fn open_flags_are_read() {
    assert!(!BranchFs::flags_want_write(libc::O_RDONLY));
    assert!(BranchFs::flags_want_write(0x600) && BranchFs::flags_want_write(0x208));
    assert!(BranchFs::flags_want_write(0x408) && !BranchFs::flags_want_write(0x80));
    assert!(!BranchFs::mode_wants_write(0x608) && BranchFs::mode_wants_write(3));
    assert!(BranchFs::flags_want_write(libc::O_WRONLY));
    assert!(BranchFs::flags_want_write(libc::O_RDWR));
    assert!(BranchFs::flags_want_write(libc::O_RDONLY | libc::O_TRUNC));
    assert!(BranchFs::flags_want_write(libc::O_RDONLY | libc::O_APPEND));
    assert!(!BranchFs::mode_wants_write(libc::O_RDONLY | libc::O_TRUNC));
    assert!(BranchFs::mode_wants_write(libc::O_RDWR));
    let bits = OpenBits { access: 3, read_only: 0, truncate: 512, append: 1024 };
    assert!(!wants_write(4, bits));
    assert!(wants_write(512, bits));
    assert!(wants_write(1024, bits));
    assert!(wants_write(2, bits));
    assert!(!write_access(512, bits));
    assert!(write_access(1, bits));
}

#[test]
fn error_codes_are_those_of_the_system() {
    let all = [
        (Errno::Eperm, libc::EPERM),
        (Errno::Enoent, libc::ENOENT),
        (Errno::Eio, libc::EIO),
        (Errno::Eexist, libc::EEXIST),
        (Errno::Exdev, libc::EXDEV),
        (Errno::Enotdir, libc::ENOTDIR),
        (Errno::Eisdir, libc::EISDIR),
        (Errno::Einval, libc::EINVAL),
        (Errno::Enotty, libc::ENOTTY),
        (Errno::Efbig, libc::EFBIG),
        (Errno::Enospc, libc::ENOSPC),
        (Errno::Erofs, libc::EROFS),
        (Errno::Estale, libc::ESTALE),
    ];
    for (e, n) in all {
        assert_eq!(e.number(), n);
        assert_ne!(n, 0);
        assert_eq!(all.iter().filter(|(_, m)| *m == n).count(), 1);
    }
}

#[test]
fn error_codes_have_the_numbers_of_a_system() {
    let numbers = ErrorNumbers {
        eperm: 101,
        enoent: 102,
        eio: 103,
        eexist: 104,
        exdev: 105,
        enotdir: 106,
        eisdir: 107,
        einval: 108,
        enotty: 109,
        efbig: 110,
        enospc: 111,
        erofs: 112,
        estale: 113,
    };
    assert_eq!(Errno::Eperm.number_among(&numbers), 101);
    assert_eq!(Errno::Enoent.number_among(&numbers), 102);
    assert_eq!(Errno::Enospc.number_among(&numbers), 111);
    assert_eq!(Errno::Estale.number_among(&numbers), 113);
}

#[test]
fn reads_and_writes_are_cut_to_size() {
    assert_eq!(read_ctl("main", 0, 100), b"main");
    assert_eq!(read_ctl("main", 1, 2), b"ai");
    assert_eq!(read_ctl("main", 4, 2), b"");
    assert_eq!(read_ctl("main", -1, 2), b"");
    assert_eq!(write_span(3, 4), Ok((3, 7)));
    assert_eq!(write_span(-1, 4), Err(Errno::Einval));
    assert_eq!(write_span(1, u64::MAX), Err(Errno::Efbig));
}

#[test]
fn kept_files_serve_one_inode_in_one_epoch() {
    let mut c = FileCache::new();
    assert!(!c.get(0, 0));
    c.insert(7, 2);
    assert!(c.get(7, 2));
    assert!(!c.get(7, 3));
    assert!(!c.get(8, 2));
    c.invalidate_ino(8);
    assert!(c.get(7, 2));
    c.invalidate_ino(7);
    assert!(!c.get(7, 2));
}

#[test]
fn renames_are_checked() {
    assert_eq!(rename_flags(0), Ok(false));
    assert_eq!(rename_flags(1), Ok(true));
    assert_eq!(rename_flags(2), Err(Errno::Einval));
    assert_eq!(may_rename(true, true, false), Ok(()));
    assert_eq!(may_rename(true, false, true), Ok(()));
    assert_eq!(may_rename(true, true, true), Err(Errno::Eexist));
    assert_eq!(may_rename(false, true, true), Err(Errno::Enoent));
}

#[test]
fn daemons_are_started_where_needed() {
    assert_eq!(ensure_daemon(true, None, None), Ok(None));
    assert_eq!(ensure_daemon(false, Some("/b"), Some("/c")), Ok(Some("/b".to_string())));
    assert_eq!(ensure_daemon(false, None, Some(" /c\n")), Ok(Some("/c".to_string())));
    assert_eq!(
        ensure_daemon(false, None, None),
        Err("No daemon running and --base not specified. Use --base on first mount.".to_string())
    );
    assert!(control_shown(false, false));
    assert!(!control_shown(true, false));
    assert!(!control_shown(false, true));
}

#[test]
fn tables_hold_each_key_once() {
    let mut t: Table<u64> = Table::new();
    assert_eq!(t.put("a", 1), None);
    assert_eq!(t.put("b", 2), None);
    assert_eq!(t.put("a", 3), Some(1));
    assert_eq!(t.len(), 2);
    assert_eq!(t.get("a"), Some(&3));
    assert_eq!(t.take("a"), Some(3));
    assert!(!t.has("a"));
    t.clear();
    assert_eq!(t.len(), 0);
    assert_eq!(sort_texts(&strings(&["b", "a", "ab", ""])), strings(&["", "a", "ab", "b"]));
}
