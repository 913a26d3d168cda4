//! The branch operations run against a disk in memory.

use std::collections::BTreeMap;

use branchfs::branch::{Branch, BranchMetadata, FirstTouch, StoredState};
use branchfs::changes::owner_access;
use branchfs::commit::{plan_commit, CommitPlan, CommitSeen, CopyJob, CopySource, SeenWrite};
use branchfs::daemon::{commit_answer, Daemon, Job, Request, Response, ResponseData};
use branchfs::errors::{BranchError, Errno};
use branchfs::manager::BranchManager;
use branchfs::paths::{branch_dir, Location, Place};
use branchfs::quota::StorageQuota;
use branchfs::records::{
    BranchState, BranchStatus, CommitOutcome, FileKind, InheritanceMode, Meta, TouchRecord,
};
use branchfs::snapshot::{SnapshotStep, SnapshotWalk};
use branchfs::staged::{Action, StagedMerge};
use branchfs::staging::{Staging, Task};
use branchfs::table::Table;
use branchfs::tree::{delta_files, dir_size, file_paths, node_size, DirEntry, Node};
use branchfs::writes::{prune_empty_delta_parents, CopyUp, SeenPath};

struct FileData {
    bytes: Vec<u8>,
    mtime: i128,
}

/// Files and directories by their paths.
struct Disk {
    files: BTreeMap<String, FileData>,
    dirs: BTreeMap<String, u32>,
    clock: i128,
}

/// In the names of the disk a character of this block stands for a byte that is no text.
const BYTES: u32 = 0xf700;

fn raw_name(name: &str) -> Vec<u8> {
    let mut out = Vec::new();
    for c in name.chars() {
        match u8::try_from((c as u32).wrapping_sub(BYTES)) {
            Ok(b) => out.push(b),
            Err(_) => out.extend(c.to_string().as_bytes()),
        }
    }
    out
}

fn disk_name(raw: &[u8]) -> String {
    match std::str::from_utf8(raw) {
        Ok(s) => s.to_string(),
        Err(e) => {
            let (text, rest) = raw.split_at(e.valid_up_to());
            let stand_in = char::from_u32(BYTES + rest[0] as u32).unwrap();
            format!("{}{}{}", disk_name(text), stand_in, disk_name(&rest[1..]))
        }
    }
}

fn parent_of(path: &str) -> Option<String> {
    path.rfind('/').map(|i| path[..i].to_string())
}

impl Disk {
    fn new() -> Disk {
        Disk { files: BTreeMap::new(), dirs: BTreeMap::new(), clock: 0 }
    }

    fn make_dir(&mut self, path: &str) {
        if path.is_empty() || self.dirs.contains_key(path) {
            return;
        }
        if let Some(p) = parent_of(path) {
            self.make_dir(&p);
        }
        self.dirs.insert(path.to_string(), 0o755);
    }

    fn write(&mut self, path: &str, bytes: &[u8]) {
        if let Some(p) = parent_of(path) {
            self.make_dir(&p);
        }
        self.clock += 1;
        self.files.insert(path.to_string(), FileData { bytes: bytes.to_vec(), mtime: self.clock });
    }

    fn read(&self, path: &str) -> Option<Vec<u8>> {
        self.files.get(path).map(|f| f.bytes.clone())
    }

    fn present(&self, path: &str) -> bool {
        self.files.contains_key(path) || self.dirs.contains_key(path)
    }

    fn is_dir(&self, path: &str) -> bool {
        self.dirs.contains_key(path)
    }

    fn meta(&self, path: &str) -> Option<Meta> {
        if let Some(f) = self.files.get(path) {
            return Some(Meta {
                kind: FileKind::File,
                len: f.bytes.len() as u64,
                mtime_ns: Some(f.mtime),
            });
        }
        if self.dirs.contains_key(path) {
            return Some(Meta { kind: FileKind::Dir, len: 0, mtime_ns: Some(0) });
        }
        None
    }

    fn list(&self, path: &str) -> Vec<String> {
        if !self.dirs.contains_key(path) {
            return Vec::new();
        }
        let prefix = format!("{}/", path);
        let mut out = Vec::new();
        for k in self.files.keys().chain(self.dirs.keys()) {
            if let Some(rest) = k.strip_prefix(&prefix) {
                if !rest.contains('/') {
                    out.push(rest.to_string());
                }
            }
        }
        out
    }

    /// Reads a tree the way the supervisor does: a directory that keeps its owner out is opened
    /// for as long as it is read.
    fn tree(&mut self, path: &str) -> Vec<DirEntry> {
        let Some(mode) = self.dirs.get(path).copied() else {
            return Vec::new();
        };
        let widened = owner_access(FileKind::Dir, mode);
        if let Some(m) = widened {
            self.dirs.insert(path.to_string(), m);
        }
        assert_eq!(self.dirs[path] & 0o700, 0o700, "{} cannot be read", path);
        let mut out = Vec::new();
        for name in self.list(path) {
            let child = format!("{}/{}", path, name);
            let node = if self.is_dir(&child) {
                Node::Dir(self.tree(&child))
            } else {
                Node::File(self.files[&child].bytes.len() as u64)
            };
            let raw = raw_name(&name);
            out.push(DirEntry { name: String::from_utf8_lossy(&raw).to_string(), raw, node });
        }
        if widened.is_some() {
            self.dirs.insert(path.to_string(), mode);
        }
        out
    }

    fn remove(&mut self, path: &str) {
        let prefix = format!("{}/", path);
        self.files.retain(|k, _| k != path && !k.starts_with(&prefix));
        self.dirs.retain(|k, _| k != path && !k.starts_with(&prefix));
    }

    fn rename(&mut self, from: &str, to: &str) {
        self.remove(to);
        let prefix = format!("{}/", from);
        let moved = |k: &String| -> Option<String> {
            if k == from {
                Some(to.to_string())
            } else {
                k.strip_prefix(&prefix).map(|r| format!("{}/{}", to, r))
            }
        };
        let files: Vec<String> = self.files.keys().filter(|k| moved(k).is_some()).cloned().collect();
        for k in files {
            let data = self.files.remove(&k).unwrap();
            self.files.insert(moved(&k).unwrap(), data);
        }
        let dirs: Vec<String> = self.dirs.keys().filter(|k| moved(k).is_some()).cloned().collect();
        for k in dirs {
            let mode = self.dirs.remove(&k).unwrap();
            self.dirs.insert(moved(&k).unwrap(), mode);
        }
    }

    fn act(&mut self, root: &str, action: &Action) {
        match action {
            Action::Rename { from, to } => {
                self.rename(&format!("{}/{}", root, from), &format!("{}/{}", root, to))
            }
            Action::Discard { path } => self.remove(&format!("{}/{}", root, path)),
        }
    }
}

/// What the files of a branch directory hold besides its trees.
struct Saved {
    meta: BranchMetadata,
    tombstones: Option<String>,
    tombstones_log: Option<String>,
    touches: Vec<TouchRecord>,
    touches_log: Vec<TouchRecord>,
}

fn copy_meta(m: &BranchMetadata) -> BranchMetadata {
    BranchMetadata {
        name: m.name.clone(),
        parent: m.parent.clone(),
        inheritance: m.inheritance,
        state: m.state,
        parent_version_at_fork: m.parent_version_at_fork,
        commit_count: m.commit_count,
        hide_paths: m.hide_paths.clone(),
    }
}

struct Store {
    disk: Disk,
    saved: BTreeMap<String, Saved>,
    daemon: Daemon,
}

fn place_root(place: &Place) -> String {
    match place.storage_dir() {
        Some(dir) => format!("storage/{}", dir),
        None => "base".to_string(),
    }
}

fn path_of(l: &Location) -> String {
    let root = place_root(&l.place);
    if l.rel.is_empty() {
        root
    } else {
        format!("{}/{}", root, l.rel)
    }
}

fn delta_path_of(branch: &str, raw: &[u8]) -> String {
    format!("{}/{}", place_root(&Place::Files(branch.to_string())), disk_name(raw))
}

fn source_of(source: &CopySource) -> String {
    match source {
        CopySource::Delta { branch, raw } => delta_path_of(branch, raw),
        CopySource::Merged(l) => path_of(l),
    }
}

fn fresh(meta: BranchMetadata) -> Saved {
    Saved {
        meta,
        tombstones: None,
        tombstones_log: None,
        touches: Vec::new(),
        touches_log: Vec::new(),
    }
}

fn open(mut disk: Disk, mut saved: BTreeMap<String, Saved>, max: Option<u64>) -> Store {
    let mut loaded: Table<Branch> = Table::new();
    for (dir, s) in &saved {
        let mut touches: Table<TouchRecord> = Table::new();
        for t in &s.touches {
            touches.put(&t.path, t.clone());
        }
        let stored = StoredState {
            tombstones: s.tombstones.clone(),
            tombstones_log: s.tombstones_log.clone(),
            touches,
            touches_log: s.touches_log.clone(),
        };
        loaded.put(dir, Branch::load(dir, copy_meta(&s.meta), stored));
    }
    let tree = disk.tree("storage/branches");
    let quota = StorageQuota::scan_usage(Some(&tree), max);
    let (mgr, main) = BranchManager::new(loaded, StoredState::nothing(), quota);
    if let Some(meta) = main {
        saved.insert("main".to_string(), fresh(meta));
    }
    disk.make_dir("base");
    Store { disk, saved, daemon: Daemon::new(mgr) }
}

impl Store {
    fn new() -> Store {
        open(Disk::new(), BTreeMap::new(), None)
    }

    /// A fresh manager over the same store.
    fn reload(self) -> Store {
        open(self.disk, self.saved, None)
    }

    fn mgr(&mut self) -> &mut BranchManager {
        &mut self.daemon.manager
    }

    fn create(&mut self, name: &str, parent: &str, mode: InheritanceMode, hide: &[&str]) -> Result<(), BranchError> {
        let hide: Vec<String> = hide.iter().map(|h| h.to_string()).collect();
        let branch = self.mgr().prepare_branch(name, parent, mode, hide, StoredState::nothing())?;
        self.disk.make_dir(&format!("storage/{}/files", branch_dir(name)));
        if mode == InheritanceMode::Snapshot {
            let mut walk = SnapshotWalk::start(parent, name);
            let names = self.names(parent, "/");
            walk.take_up("/", &names);
            while let Some(path) = walk.next() {
                let found = self.locate(parent, &path).map(|l| {
                    let kind = self.disk.meta(&path_of(&l)).unwrap().kind;
                    (l, kind)
                });
                match walk.step(&path, found) {
                    SnapshotStep::Skip => {}
                    SnapshotStep::MakeDir { to } => {
                        self.disk.make_dir(&path_of(&to));
                        let names = self.names(parent, &path);
                        walk.take_up(&path, &names);
                    }
                    SnapshotStep::Copy { from, to } => {
                        let data = self.disk.read(&path_of(&from)).unwrap();
                        self.disk.write(&path_of(&to), &data);
                    }
                }
            }
        }
        self.saved.insert(name.to_string(), fresh(branch.write_metadata()));
        self.mgr().add_branch(branch);
        Ok(())
    }

    fn locate(&self, branch: &str, path: &str) -> Option<Location> {
        let mgr = &self.daemon.manager;
        assert!(mgr.is_rooted(branch));
        let search = mgr.resolve_path(branch, path).unwrap();
        let first = search.places.iter().position(|l| self.disk.present(&path_of(l)));
        search.conclude(first).unwrap()
    }

    /// The path on disk that a path of a branch resolves to.
    fn resolve(&self, branch: &str, path: &str) -> Option<String> {
        self.locate(branch, path).map(|l| path_of(&l))
    }

    fn inherited(&self, branch: &str, path: &str) -> Option<Location> {
        let mgr = &self.daemon.manager;
        assert!(mgr.is_rooted(branch));
        let search = mgr.inherited_path_exists(branch, path).unwrap();
        let first = search.places.iter().position(|l| self.disk.present(&path_of(l)));
        search.conclude(first).unwrap()
    }

    fn names(&self, branch: &str, dir: &str) -> Vec<String> {
        let listing = self.daemon.manager.collect_dir_names(branch, dir).unwrap();
        let lists: Vec<Vec<String>> =
            listing.layers.iter().map(|l| self.disk.list(&path_of(&l.place))).collect();
        listing.names(dir, &lists)
    }

    fn log(&mut self, branch: &str, line: Option<String>) {
        if let Some(line) = line {
            let s = self.saved.get_mut(branch).unwrap();
            s.tombstones_log = Some(s.tombstones_log.take().unwrap_or_default() + &line);
        }
    }

    /// What is found where a branch inherits a path from.
    fn found(&self, source: Option<&Location>) -> (Option<Meta>, Vec<u8>) {
        match source {
            Some(l) => {
                let p = path_of(l);
                (self.disk.meta(&p), self.disk.read(&p).unwrap_or_default())
            }
            None => (None, Vec::new()),
        }
    }

    fn record(&mut self, branch: &str, touch: Option<FirstTouch>) {
        if let Some(t) = touch {
            let mgr = &self.daemon.manager;
            if let (Some(text), Some(key)) = (&t.kept_text, &t.record.base_content_key) {
                let at = mgr.with_branch(branch, |b| Ok(b.touch_content_path(key))).unwrap();
                self.disk.write(&path_of(&at), text);
            }
            self.saved.get_mut(branch).unwrap().touches_log.push(t.record.clone());
            self.mgr().record_first_touch(branch, &t.record).unwrap();
        }
    }

    /// Looks at a path before it is written.
    fn see(&self, branch: &str, path: &str) -> SeenPath {
        let delta = path_of(&Location::at(Place::Files(branch.to_string()), path));
        if self.disk.present(&delta) || !self.daemon.manager.is_branch_valid(branch) {
            return SeenPath { has_delta: true, source: None, found: None, bytes: Vec::new() };
        }
        let source = self.inherited(branch, path);
        let (found, bytes) = self.found(source.as_ref());
        SeenPath { has_delta: false, source, found, bytes }
    }

    fn settle(&mut self, branch: &str, path: &str, copied: Option<u64>) {
        let line = self.mgr().settle_delta(branch, path, copied).unwrap();
        self.log(branch, line);
    }

    fn delta_for_write(&mut self, branch: &str, path: &str) -> Result<String, BranchError> {
        let seen = self.see(branch, path);
        let opening = self.mgr().ensure_delta_path_for_write(branch, path, seen)?;
        self.record(branch, opening.touch);
        let at = path_of(&opening.delta);
        let copied = match opening.copy? {
            CopyUp::Entry(len) => {
                let data = self.disk.read(&path_of(&opening.source.unwrap())).unwrap();
                self.disk.write(&at, &data);
                Some(len)
            }
            _ => None,
        };
        self.settle(branch, path, copied);
        Ok(at)
    }

    fn write_delta(&mut self, branch: &str, path: &str, data: &[u8]) {
        let at = self.delta_for_write(branch, path).unwrap();
        self.disk.write(&at, data);
    }

    fn write_data(&mut self, branch: &str, path: &str, offset: i64, data: &[u8]) -> Result<u32, BranchError> {
        let seen = self.see(branch, path);
        let w = self.mgr().write_data_to_branch(branch, path, offset, data.len() as u64, seen)?;
        self.record(branch, w.opening.touch);
        let at = path_of(&w.opening.delta);
        if w.opening.copy? == CopyUp::Staged {
            let staging = path_of(&w.staging.unwrap());
            let mut bytes = self.disk.read(&path_of(&w.opening.source.unwrap())).unwrap();
            overwrite(&mut bytes, w.offset, data);
            self.disk.write(&staging, &bytes);
            self.disk.rename(&staging, &at);
            self.settle(branch, path, Some(bytes.len() as u64));
            return Ok(data.len() as u32);
        }
        self.settle(branch, path, None);
        let mut bytes = self.disk.read(&at).unwrap_or_default();
        let old = bytes.len() as u64;
        self.mgr().check_growth(old, w.end)?;
        overwrite(&mut bytes, w.offset, data);
        self.disk.write(&at, &bytes);
        self.mgr().note_growth(old, bytes.len() as u64);
        Ok(data.len() as u32)
    }

    fn prune(&mut self, branch: &str, path: &str) {
        for dir in prune_empty_delta_parents(path) {
            let at = path_of(&Location::at(Place::Files(branch.to_string()), &dir));
            if !self.disk.list(&at).is_empty() {
                break;
            }
            self.disk.remove(&at);
        }
    }

    fn delete(&mut self, branch: &str, path: &str) -> Result<(), BranchError> {
        if !self.mgr().is_branch_valid(branch) {
            return Err(BranchError::NotFound(branch.to_string()));
        }
        let source = self.inherited(branch, path);
        let (found, _) = self.found(source.as_ref());
        let touch = self.mgr().plan_touch(branch, path, found, false, Vec::new())?;
        self.record(branch, touch);
        let mut freed = None;
        let delta = path_of(&self.mgr().branch_has_delta(branch, path).unwrap());
        if self.disk.present(&delta) {
            let node = if self.disk.is_dir(&delta) {
                Node::Dir(self.disk.tree(&delta))
            } else {
                Node::File(self.disk.files[&delta].bytes.len() as u64)
            };
            self.disk.remove(&delta);
            freed = Some(node_size(&node));
            self.prune(branch, path);
        }
        let line =
            self.mgr().delete_path_in_branch(branch, path, source.is_some(), freed)?;
        self.log(branch, line);
        Ok(())
    }

    fn status(&mut self, branch: &str) -> Result<BranchStatus, BranchError> {
        let tree = self.disk.tree(&place_root(&Place::Files(branch.to_string())));
        self.mgr().branch_status(branch, &tree)
    }

    fn set_state(&mut self, branch: &str, state: BranchState) -> Result<(), BranchError> {
        let meta = if state == BranchState::Frozen {
            self.mgr().freeze_branch(branch)?
        } else {
            self.mgr().thaw_branch(branch)?
        };
        self.saved.get_mut(branch).unwrap().meta = meta;
        self.mgr().announce(&vec![branch.to_string()]);
        Ok(())
    }

    fn look(&mut self, name: &str) -> CommitSeen {
        let tree = self.disk.tree(&place_root(&Place::Files(name.to_string())));
        let files = delta_files(&tree);
        let (tombstones, parent) = match self.mgr().begin_commit(name) {
            Ok(s) => (s.tombstones, s.parent),
            Err(_) => (Vec::new(), "main".to_string()),
        };
        let deletes = tombstones
            .iter()
            .map(|t| self.inherited(name, t).and_then(|l| self.disk.meta(&path_of(&l))))
            .collect();
        let inherited = tombstones.iter().map(|t| self.inherited(&parent, t).is_some()).collect();
        let mut writes = Vec::new();
        for file in &files {
            let path = file.path.as_str();
            let current = self.inherited(name, path).map(|l| path_of(&l));
            let session = delta_path_of(name, &file.raw);
            let base = self
                .daemon
                .manager
                .with_branch(name, |b| {
                    Ok(b.get_touch_record(path).and_then(|t| b.read_touch_base_content(&t)))
                })
                .unwrap()
                .and_then(|l| self.disk.read(&path_of(&l)));
            writes.push(SeenWrite {
                current: current.as_ref().and_then(|p| self.disk.meta(p)),
                current_bytes: current.as_ref().and_then(|p| self.disk.read(p)).unwrap_or_default(),
                base,
                session: self.disk.meta(&session),
                session_bytes: self.disk.read(&session).unwrap_or_default(),
            });
        }
        let parent_before = self.delta_bytes(&parent);
        CommitSeen {
            deletes,
            files,
            writes,
            inherited,
            freed: self.delta_bytes(name),
            parent_before,
            parent_after: parent_before,
        }
    }

    fn delta_bytes(&mut self, branch: &str) -> u64 {
        dir_size(&self.disk.tree(&place_root(&Place::Files(branch.to_string()))))
    }

    fn commit(&mut self, name: &str) -> Result<CommitOutcome, BranchError> {
        let start = self.mgr().begin_commit(name)?;
        let mut seen = self.look(name);
        let written = file_paths(&seen.files);
        let assessment = self.mgr().assess_commit(name, &seen.deletes, &written, &seen.writes);
        let plan = plan_commit(&start, &seen.files, &assessment.merged);
        for (job, text) in plan.copies.iter().zip(&assessment.merged) {
            if let Some(text) = text {
                self.disk.write(&source_of(&job.source), text);
            }
        }
        let root = place_root(&plan.root);
        let mut staging = Staging::start(plan);
        loop {
            match staging.next() {
                Task::Delete { path, trash } => {
                    let full = format!("{}/{}", root, path);
                    let present = self.disk.present(&full);
                    if present {
                        self.disk.rename(&full, &format!("{}/{}", root, trash));
                    }
                    staging.deleted(present);
                }
                Task::Copy { path, trash, source, tmp } => {
                    let full = format!("{}/{}", root, path);
                    if self.disk.is_dir(&full) {
                        self.disk.rename(&full, &format!("{}/{}", root, trash));
                        staging.cleared_way();
                    }
                    let data = self.disk.read(&source_of(&source)).unwrap();
                    self.disk.remove(&format!("{}/{}", root, tmp));
                    self.disk.write(&format!("{}/{}", root, tmp), &data);
                    staging.copied(data.len() as u64);
                }
                Task::Publish => break,
            }
        }
        for action in staging.merge.commit().actions {
            self.disk.act(&root, &action);
        }
        let upkeep = self.mgr().main_upkeep(&start, &written);
        for l in &upkeep.superseded {
            self.disk.remove(&path_of(l));
        }
        for path in staging.emptied() {
            self.prune(&start.parent, &path);
        }
        for path in &upkeep.veiled {
            let data = self.disk.read(&path_of(&Location::at(Place::Base, path))).unwrap();
            let own = Location::at(Place::Files("main".to_string()), path);
            self.disk.write(&path_of(&own), &data);
        }
        seen.parent_after = self.delta_bytes(&start.parent);
        let done = self.mgr().commit_with_report(name, &seen)?;
        let parent = self.saved.get_mut(&start.parent).unwrap();
        parent.meta = done.recorded.metadata;
        parent.tombstones = Some(done.recorded.snapshot);
        parent.tombstones_log = None;
        self.saved.remove(name);
        self.disk.remove(&format!("storage/{}", branch_dir(name)));
        Ok(done.assessment.outcome)
    }

    fn abort(&mut self, name: &str) -> Result<String, BranchError> {
        let freed = self.delta_bytes(name);
        let (parent, _) = self.mgr().abort(name, freed)?;
        self.saved.remove(name);
        self.disk.remove(&format!("storage/{}", branch_dir(name)));
        Ok(parent)
    }

    fn revert(&mut self, branch: &str, path: &str) -> Result<(), BranchError> {
        let target = self.mgr().begin_revert(branch, path)?;
        let mut freed = None;
        let at = path_of(&Location::at(Place::Files(branch.to_string()), &target));
        if self.disk.is_dir(&at) {
            freed = Some(dir_size(&self.disk.tree(&at)));
        } else if let Some(m) = self.disk.meta(&at) {
            freed = Some(m.len);
        }
        self.disk.remove(&at);
        let reverted = self.mgr().revert_path(branch, path, freed)?;
        for line in reverted.lines {
            self.log(branch, Some(line));
        }
        Ok(())
    }

    fn request(&mut self, request: Request) -> Response {
        match self.daemon.handle_request(request) {
            Job::Answer(r) => r,
            Job::Mount { branch, mountpoint, .. } => {
                let result = self.daemon.spawn_mount(&branch, &mountpoint);
                if result.is_ok() {
                    self.daemon.mount_started(&branch, &mountpoint, 1);
                }
                Response::of(result)
            }
            Job::Create { name, parent, inheritance, hide } => {
                let hide: Vec<&str> = hide.iter().map(|h| h.as_str()).collect();
                Response::of(self.create(&name, &parent, inheritance, &hide))
            }
            Job::Freeze(b) => Response::of(self.set_state(&b, BranchState::Frozen)),
            Job::Thaw(b) => Response::of(self.set_state(&b, BranchState::Open)),
            Job::Status(b) => Response::with(self.status(&b).map(ResponseData::Status)),
            Job::Commit(b) => commit_answer(self.commit(&b)),
            Job::Abort(b) => Response::with(self.abort(&b).map(ResponseData::Parent)),
            Job::Revert(b, p) => Response::of(self.revert(&b, &p)),
            Job::List(names) => {
                let all = names.iter().map(|n| self.status(n).unwrap()).collect();
                Response::success_with_data(ResponseData::Statuses(all))
            }
        }
    }
}

fn overwrite(bytes: &mut Vec<u8>, offset: u64, data: &[u8]) {
    let end = offset as usize + data.len();
    if bytes.len() < end {
        bytes.resize(end, 0);
    }
    bytes[offset as usize..end].copy_from_slice(data);
}

fn stage_delete(disk: &mut Disk, root: &str, staged: &mut StagedMerge, target: &str) {
    let full = format!("{}/{}", root, target);
    if let Some(trash) = StagedMerge::plan_delete(target, disk.present(&full)) {
        disk.rename(&full, &format!("{}/{}", root, trash));
        staged.stage_delete(target);
    }
}

/// Copies a source next to its destination; without a source the copy fails.
fn stage_copy(
    disk: &mut Disk,
    root: &str,
    staged: &mut StagedMerge,
    rel: &str,
    data: Option<&[u8]>,
) -> Result<(), BranchError> {
    let plan =
        StagedMerge::plan_copy(rel, disk.is_dir(&format!("{}/{}", root, rel.trim_start_matches('/'))));
    let data = data.ok_or(BranchError::Io(Errno::Enoent))?;
    if plan.clear_first {
        stage_delete(disk, root, staged, &plan.dest);
    }
    disk.remove(&format!("{}/{}", root, plan.tmp));
    disk.write(&format!("{}/{}", root, plan.tmp), data);
    staged.stage_copy(rel, data.len() as u64);
    Ok(())
}

fn lazy(s: &mut Store, name: &str) {
    s.create(name, "main", InheritanceMode::Lazy, &[]).unwrap();
}

#[test]
fn first_touch_appends_incrementally_without_rewriting_legacy_snapshot() {
    let mut s = Store::new();
    lazy(&mut s, "work");
    let already = TouchRecord {
        path: "/already-touched".to_string(),
        base_at_first_touch: branchfs::records::PathIdentity::missing(),
        base_content_key: None,
    };
    s.saved.get_mut("work").unwrap().touches.push(already);
    s.disk.make_dir("base/empty-old-scratch/.ccc-storage");
    let mut s = s.reload();

    s.delete("work", "/empty-old-scratch").unwrap();

    let saved = &s.saved["work"];
    assert_eq!(saved.touches.len(), 1, "recording a first touch appends to the log");
    assert_eq!(saved.touches[0].path, "/already-touched");
    assert!(saved.touches_log.iter().any(|t| t.path == "/empty-old-scratch"));

    let mut s = s.reload();
    s.mgr()
        .with_branch("work", |b| {
            assert!(b.get_touch_record("/already-touched").is_some());
            assert!(b.get_touch_record("/empty-old-scratch").is_some());
            Ok(())
        })
        .unwrap();
}

#[test]
fn tombstone_removal_appends_incrementally_without_rewriting_legacy_snapshot() {
    let mut s = Store::new();
    lazy(&mut s, "work");
    let before = "/old-empty-scratch\n/old-empty-scratch/.ccc-storage\n";
    s.saved.get_mut("work").unwrap().tombstones = Some(before.to_string());
    let mut s = s.reload();

    s.delete("work", "/old-empty-scratch").unwrap();

    let saved = &s.saved["work"];
    assert_eq!(saved.tombstones.as_deref(), Some(before));
    assert!(saved.tombstones_log.as_ref().unwrap().contains("- /old-empty-scratch"));

    let mut s = s.reload();
    s.mgr()
        .with_branch("work", |b| {
            assert!(!b.is_deleted("/old-empty-scratch"));
            assert!(b.is_deleted("/old-empty-scratch/.ccc-storage"));
            Ok(())
        })
        .unwrap();
}

#[test]
fn delete_first_touch_does_not_copy_inherited_text_content() {
    let mut s = Store::new();
    s.disk.write("base/file.txt", b"base text\n");
    lazy(&mut s, "work");

    s.delete("work", "/file.txt").unwrap();

    let record = s
        .mgr()
        .with_branch("work", |b| Ok(b.get_touch_record("/file.txt")))
        .unwrap()
        .expect("delete should record first touch identity");
    assert!(record.base_content_key.is_none());
}

#[test]
fn write_first_touch_keeps_inherited_text_content_for_merge() {
    let mut s = Store::new();
    s.disk.write("base/file.txt", b"base text\n");
    lazy(&mut s, "work");

    s.write_delta("work", "/file.txt", b"changed\n");

    let record = s
        .mgr()
        .with_branch("work", |b| Ok(b.get_touch_record("/file.txt")))
        .unwrap()
        .expect("write should record first touch identity");
    assert!(record.base_content_key.is_some());
    let kept = s
        .mgr()
        .with_branch("work", |b| Ok(b.read_touch_base_content(&record)))
        .unwrap()
        .unwrap();
    assert_eq!(s.disk.read(&path_of(&kept)).unwrap(), b"base text\n");
}

#[test]
fn cow_write_to_inherited_file_preserves_unwritten_ranges() {
    let mut s = Store::new();
    s.disk.write("base/file.txt", b"0123456789");
    lazy(&mut s, "work");

    let written = s.write_data("work", "/file.txt", 3, b"ABC").unwrap();

    assert_eq!(written, 3);
    assert_eq!(s.disk.read("storage/branches/work/files/file.txt").unwrap(), b"012ABC6789");
}

#[test]
fn concurrent_cow_writes_to_same_inherited_file_preserve_both_writes() {
    // One lock per path puts the two writes in some order; both orders keep both.
    for first in [true, false] {
        let mut s = Store::new();
        s.disk.write("base/file.txt", b"0123456789");
        lazy(&mut s, "work");
        let (a, b) = ((0, b"AA"), (8, b"BB"));
        let order = if first { [a, b] } else { [b, a] };
        for (offset, data) in order {
            assert_eq!(s.write_data("work", "/file.txt", offset, data).unwrap(), 2);
        }
        assert_eq!(s.disk.read("storage/branches/work/files/file.txt").unwrap(), b"AA234567BB");
    }
}

#[test]
fn sibling_disjoint_commits_do_not_conflict_after_parent_version_changes() {
    let mut s = Store::new();
    lazy(&mut s, "a");
    lazy(&mut s, "b");
    s.write_delta("a", "/a.txt", b"a\n");
    s.write_delta("b", "/b.txt", b"b\n");

    let b_outcome = s.commit("b").unwrap();
    assert!(b_outcome.conflicts.is_empty());
    assert!(b_outcome.auto_merges.is_empty());

    let a_outcome = s.commit("a").unwrap();
    assert!(a_outcome.conflicts.is_empty());
    assert!(a_outcome.auto_merges.is_empty());
    assert_eq!(s.disk.read("base/a.txt").unwrap(), b"a\n");
    assert_eq!(s.disk.read("base/b.txt").unwrap(), b"b\n");
}

#[test]
fn sibling_same_text_file_non_overlapping_edits_auto_merge_cleanly() {
    let mut s = Store::new();
    s.disk.write("base/file.txt", b"line1\nbase-a\nline3\nbase-b\nline5\n");
    lazy(&mut s, "a");
    lazy(&mut s, "b");
    s.write_delta("a", "/file.txt", b"line1\nA-a\nline3\nbase-b\nline5\n");
    s.write_delta("b", "/file.txt", b"line1\nbase-a\nline3\nB-b\nline5\n");

    s.commit("b").unwrap();
    let a_outcome = s.commit("a").unwrap();

    assert!(a_outcome.conflicts.is_empty());
    assert_eq!(a_outcome.auto_merges.len(), 1);
    assert_eq!(a_outcome.auto_merges[0].path, "/file.txt");
    assert_eq!(
        s.disk.read("base/file.txt").unwrap(),
        b"line1\nA-a\nline3\nB-b\nline5\n"
    );
}

#[test]
fn sibling_same_text_file_overlapping_edits_report_conflict_but_latest_wins() {
    let mut s = Store::new();
    s.disk.write("base/file.txt", b"one\nbase\nthree\n");
    lazy(&mut s, "a");
    lazy(&mut s, "b");
    s.write_delta("a", "/file.txt", b"one\nA\nthree\n");
    s.write_delta("b", "/file.txt", b"one\nB\nthree\n");

    s.commit("b").unwrap();
    let a_outcome = s.commit("a").unwrap();

    assert_eq!(a_outcome.conflicts.len(), 1);
    assert_eq!(a_outcome.conflicts[0].path, "/file.txt");
    assert_eq!(a_outcome.conflicts[0].resolution, "session_won");
    assert_eq!(s.disk.read("base/file.txt").unwrap(), b"one\nA\nthree\n");
}

#[test]
fn sibling_delete_vs_modify_reports_conflict_but_latest_delete_wins() {
    let mut s = Store::new();
    s.disk.write("base/file.txt", b"base\n");
    lazy(&mut s, "a");
    lazy(&mut s, "b");
    s.delete("a", "/file.txt").unwrap();
    s.write_delta("b", "/file.txt", b"b\n");

    s.commit("b").unwrap();
    let a_outcome = s.commit("a").unwrap();

    assert_eq!(a_outcome.conflicts.len(), 1);
    assert_eq!(a_outcome.conflicts[0].path, "/file.txt");
    assert_eq!(a_outcome.conflicts[0].session_action, "delete");
    assert!(!s.disk.present("base/file.txt"));
}

#[test]
fn running_branch_delta_survives_foreign_same_path_commit() {
    let mut s = Store::new();
    s.disk.write("base/file.txt", b"base\n");
    lazy(&mut s, "a");
    lazy(&mut s, "b");
    s.write_delta("a", "/file.txt", b"a\n");
    s.write_delta("b", "/file.txt", b"b\n");
    s.commit("b").unwrap();

    let resolved = s.resolve("a", "/file.txt").unwrap();
    assert_eq!(s.disk.read(&resolved).unwrap(), b"a\n");
}

#[test]
fn lazy_branch_resolves_base_without_inherited_snapshot_and_prefers_delta() {
    let mut s = Store::new();
    s.disk.write("base/dir/base.txt", b"base");
    lazy(&mut s, "lazy");

    let (kept, delta) = s
        .mgr()
        .with_branch("lazy", |b| Ok((b.inherited_path("/dir/base.txt"), b.delta_path("/dir/base.txt"))))
        .unwrap();
    assert!(!s.disk.present(&path_of(&kept)));

    let resolved = s.resolve("lazy", "/dir/base.txt").unwrap();
    assert_eq!(resolved, "base/dir/base.txt");
    assert_eq!(s.disk.read(&resolved).unwrap(), b"base");

    s.disk.write(&path_of(&delta), b"delta");
    s.mgr().add_tombstone("lazy", "/dir/base.txt").unwrap();

    let resolved = s.resolve("lazy", "/dir/base.txt").unwrap();
    assert_eq!(s.disk.read(&resolved).unwrap(), b"delta");
}

#[test]
fn removed_tombstone_does_not_reappear_after_manager_reload() {
    let mut s = Store::new();
    s.disk.write("base/existing.txt", b"base");
    lazy(&mut s, "work");
    let added = s.mgr().add_tombstone("work", "/existing.txt").unwrap();
    s.log("work", added);
    let removed = s.mgr().remove_tombstone("work", "/existing.txt").unwrap();
    s.log("work", removed);
    s.disk.write("storage/branches/work/files/existing.txt", b"rewritten");

    let mut s = s.reload();
    let status = s.status("work").unwrap();
    assert!(status.diff.iter().any(|e| e.op == "delta" && e.path == "/existing.txt"));
    assert!(!status.diff.iter().any(|e| e.op == "delete" && e.path == "/existing.txt"));
}

#[test]
fn lazy_directory_tombstone_hides_inherited_descendants_but_not_delta_children() {
    let mut s = Store::new();
    s.disk.write("base/dir/base.txt", b"base");
    lazy(&mut s, "lazy");
    s.mgr().add_tombstone("lazy", "/dir").unwrap();
    s.disk.write("storage/branches/lazy/files/dir/new.txt", b"new");

    assert!(s.resolve("lazy", "/dir/base.txt").is_none());
    let resolved = s.resolve("lazy", "/dir/new.txt").unwrap();
    assert_eq!(s.disk.read(&resolved).unwrap(), b"new");
}

#[test]
fn freeze_and_thaw_state_persist_across_manager_reloads() {
    let mut s = Store::new();
    lazy(&mut s, "review");
    s.set_state("review", BranchState::Frozen).unwrap();
    assert_eq!(s.status("review").unwrap().state, BranchState::Frozen);
    assert!(!s.mgr().is_branch_writable("review"));

    let mut s = s.reload();
    assert_eq!(s.status("review").unwrap().state, BranchState::Frozen);
    assert!(!s.mgr().is_branch_writable("review"));
    s.set_state("review", BranchState::Open).unwrap();
    assert_eq!(s.status("review").unwrap().state, BranchState::Open);
    assert!(s.mgr().is_branch_writable("review"));

    let mut s = s.reload();
    assert_eq!(s.status("review").unwrap().state, BranchState::Open);
    assert!(s.mgr().is_branch_writable("review"));
}

#[test]
fn branch_status_reports_only_delta_and_tombstone_changes() {
    let mut s = Store::new();
    s.disk.write("base/unchanged.txt", b"unchanged");
    s.disk.write("base/deleted.txt", b"deleted");
    lazy(&mut s, "work");
    s.disk.write("storage/branches/work/files/new.txt", b"new");
    s.disk.write("storage/branches/work/files/nested/file.txt", b"nested");
    s.mgr().add_tombstone("work", "/deleted.txt").unwrap();

    let status = s.status("work").unwrap();
    let entries: Vec<_> =
        status.diff.iter().map(|e| (e.op.as_str(), e.kind.as_str(), e.path.as_str())).collect();

    assert_eq!(status.delta_entries, 2);
    assert_eq!(status.tombstones, 1);
    assert!(entries.contains(&("delta", "file", "/new.txt")));
    assert!(entries.contains(&("delta", "file", "/nested/file.txt")));
    assert!(entries.contains(&("delete", "tombstone", "/deleted.txt")));
    assert!(!entries.iter().any(|(_, kind, _)| *kind == "dir"));
    assert!(!status.diff.iter().any(|e| e.path == "/unchanged.txt"));
    assert_eq!(status.diff[0].path, "/deleted.txt");
    assert_eq!(status.diff[2].path, "/new.txt");
    assert_eq!(status.diff[2].bytes, 3);
}

#[test]
fn branch_status_survives_mode_000_delta_dir_and_reports_accessible_deltas() {
    let mut s = Store::new();
    lazy(&mut s, "work");
    s.disk.write("storage/branches/work/files/new.txt", b"new");
    let scratch = "storage/branches/work/files/.scratch/cap-probe/kern-ovl-test/work/work";
    s.disk.make_dir(scratch);
    s.disk.dirs.insert(scratch.to_string(), 0o000);

    let status = s.status("work").unwrap();

    assert!(status
        .diff
        .iter()
        .any(|e| e.op == "delta" && e.kind == "file" && e.path == "/new.txt"));
    assert_eq!(s.disk.dirs[scratch], 0o000, "the mode is put back");
}

#[test]
fn abort_discards_branch_with_mode_000_nested_delta_dir() {
    let mut s = Store::new();
    lazy(&mut s, "work");
    let scratch = "storage/branches/work/files/.scratch/cap-probe/kern-ovl-test/work/work";
    s.disk.make_dir(scratch);
    s.disk.dirs.insert(scratch.to_string(), 0o000);

    assert_eq!(s.abort("work").unwrap(), "main");
    assert!(!s.mgr().is_branch_valid("work"));
    assert!(!s.disk.present("storage/branches/work"));
}

#[test]
fn commit_walks_mode_000_delta_dir_and_commits_files_inside_it() {
    let mut s = Store::new();
    lazy(&mut s, "work");
    s.disk.write("storage/branches/work/files/private/inside.txt", b"inside");
    s.disk.dirs.insert("storage/branches/work/files/private".to_string(), 0o000);

    assert_eq!(s.commit("work").unwrap().parent, "main");
    assert_eq!(s.disk.read("base/private/inside.txt").unwrap(), b"inside");
    assert!(!s.mgr().is_branch_valid("work"));
    assert!(!s.disk.present("storage/branches/work"));
}

#[test]
fn deleting_branch_local_temp_file_leaves_no_tombstone_or_empty_parent_delta() {
    let mut s = Store::new();
    lazy(&mut s, "work");
    let file = "/domen-cuda10/.bash_history-00002.tmp";
    s.disk.write(&format!("storage/branches/work/files{}", file), b"transient history");

    s.delete("work", file).unwrap();

    assert!(s.status("work").unwrap().diff.is_empty());
    assert!(!s.disk.present(&format!("storage/branches/work/files{}", file)));
    assert!(!s.disk.present("storage/branches/work/files/domen-cuda10"));
    let tombs = s.mgr().with_branch("work", |b| Ok(b.get_tombstones())).unwrap();
    assert!(tombs.is_empty());
}

#[test]
fn deleting_branch_local_mode_000_dir_leaves_no_tombstone_or_delta() {
    let mut s = Store::new();
    lazy(&mut s, "work");
    s.disk.write("storage/branches/work/files/scratch/private/inside.txt", b"inside");
    s.disk.dirs.insert("storage/branches/work/files/scratch/private".to_string(), 0o000);

    s.delete("work", "/scratch/private").unwrap();

    assert!(s.status("work").unwrap().diff.is_empty());
    assert!(!s.disk.present("storage/branches/work/files/scratch/private"));
    assert!(!s.disk.present("storage/branches/work/files/scratch"));
    let tombs = s.mgr().with_branch("work", |b| Ok(b.get_tombstones())).unwrap();
    assert!(tombs.is_empty());
}

#[test]
fn nested_delete_of_parent_created_file_leaves_no_parent_tombstone() {
    let mut s = Store::new();
    lazy(&mut s, "work");
    s.write_delta("work", "/tmp/session-only.tmp", b"transient");
    s.create("child", "work", InheritanceMode::Lazy, &[]).unwrap();

    s.delete("child", "/tmp/session-only.tmp").unwrap();
    assert_eq!(s.status("child").unwrap().tombstones, 1);

    assert_eq!(s.commit("child").unwrap().parent, "work");

    assert!(s.status("work").unwrap().diff.is_empty());
    assert!(!s.disk.present("storage/branches/work/files/tmp/session-only.tmp"));
    assert!(!s.disk.present("storage/branches/work/files/tmp"));
    let tombs = s.mgr().with_branch("work", |b| Ok(b.get_tombstones())).unwrap();
    assert!(tombs.is_empty());

    assert_eq!(s.commit("work").unwrap().parent, "main");
    assert!(!s.disk.present("base/tmp/session-only.tmp"));
}

#[test]
fn deleting_modified_inherited_file_reports_only_delete_tombstone() {
    let mut s = Store::new();
    s.disk.write("base/existing.txt", b"base");
    lazy(&mut s, "work");
    s.disk.write("storage/branches/work/files/existing.txt", b"modified");

    s.delete("work", "/existing.txt").unwrap();

    let status = s.status("work").unwrap();
    assert_eq!(status.delta_entries, 0);
    assert_eq!(status.tombstones, 1);
    assert_eq!(status.diff.len(), 1);
    assert_eq!(status.diff[0].op, "delete");
    assert_eq!(status.diff[0].path, "/existing.txt");
}

#[test]
fn hidden_paths_do_not_resolve_through_inheritance() {
    let mut s = Store::new();
    s.disk.write("base/.ssh/id_rsa", b"SECRET");
    s.disk.write("base/.env", b"TOKEN=x");
    s.disk.write("base/Projects/ok.py", b"fine");
    s.create("agent", "main", InheritanceMode::Lazy, &[".ssh", "/.env"]).unwrap();

    assert!(s.resolve("agent", "/.ssh").is_none());
    assert!(s.resolve("agent", "/.ssh/id_rsa").is_none());
    assert!(s.resolve("agent", "/.env").is_none());
    assert!(s.resolve("agent", "/Projects/ok.py").is_some());
    assert!(s.resolve("main", "/.ssh/id_rsa").is_some());
}

#[test]
fn hidden_paths_filtered_from_readdir_but_delta_shadow_visible() {
    let mut s = Store::new();
    s.disk.write("base/.env", b"TOKEN=real");
    s.disk.write("base/visible.txt", b"data");
    s.create("agent", "main", InheritanceMode::Lazy, &[".env"]).unwrap();

    let names = s.names("agent", "/");
    assert!(!names.contains(&".env".to_string()), "hidden name listed: {:?}", names);
    assert!(names.contains(&"visible.txt".to_string()));

    s.disk.write("storage/branches/agent/files/.env", b"TOKEN=agent-own");
    let resolved = s.resolve("agent", "/.env").unwrap();
    assert_eq!(s.disk.read(&resolved).unwrap(), b"TOKEN=agent-own");
    assert!(s.names("agent", "/").contains(&".env".to_string()));
    let status = s.status("agent").unwrap();
    assert!(status.diff.iter().any(|e| e.path == "/.env" && e.op == "delta"));
}

#[test]
fn hide_paths_survive_metadata_reload() {
    let mut s = Store::new();
    s.disk.write("base/.netrc", b"machine x login y");
    s.create("agent", "main", InheritanceMode::Lazy, &[".netrc"]).unwrap();

    let s = s.reload();
    assert!(s.resolve("agent", "/.netrc").is_none());
    assert!(s.resolve("main", "/.netrc").is_some());
}

fn create_request(name: &str, hide: &[&str]) -> Request {
    Request::Create {
        name: name.to_string(),
        parent: "main".to_string(),
        lazy: true,
        hide: hide.iter().map(|h| h.to_string()).collect(),
    }
}

fn status_of(r: Response) -> BranchStatus {
    match r.data {
        Some(ResponseData::Status(s)) => s,
        _ => panic!("no status"),
    }
}

#[test]
fn supervisor_flow_create_status_freeze_commit() {
    let mut s = Store::new();
    s.disk.write("base/inherited.txt", b"underlay data");

    let resp = s.request(create_request("agent-session-1", &[]));
    assert!(resp.ok, "create failed: {:?}", resp.error);
    assert!(!s.disk.present("storage/branches/agent-session-1/inherited/inherited.txt"));

    let ask = || Request::Status { branch: "agent-session-1".to_string() };
    let resp = s.request(ask());
    assert!(resp.ok);
    let data = status_of(resp);
    assert_eq!(data.state, BranchState::Open);
    assert_eq!(data.inheritance, InheritanceMode::Lazy);
    assert_eq!(data.diff.len(), 0);

    s.disk.write("storage/branches/agent-session-1/files/Projects/out.txt", b"agent artifact");
    let data = status_of(s.request(ask()));
    let file_entry =
        data.diff.iter().find(|e| e.path == "/Projects/out.txt").expect("file delta entry missing");
    assert_eq!(file_entry.op, "delta");
    assert_eq!(file_entry.kind, "file");
    assert!(data.diff.iter().all(|e| e.op == "delta" || e.op == "delete"));

    let resp = s.request(Request::Freeze { branch: "agent-session-1".to_string() });
    assert!(resp.ok, "freeze failed: {:?}", resp.error);
    assert_eq!(status_of(s.request(ask())).state, BranchState::Frozen);

    let resp = s.request(Request::CommitBranch { branch: "agent-session-1".to_string() });
    assert!(resp.ok, "commit failed: {:?}", resp.error);
    assert_eq!(s.disk.read("base/Projects/out.txt").unwrap(), b"agent artifact");
}

#[test]
fn supervisor_flow_abort_discards_branch() {
    let mut s = Store::new();
    s.disk.write("base/keep.txt", b"keep me");
    assert!(s.request(create_request("agent-session-2", &[])).ok);
    s.disk.write("storage/branches/agent-session-2/files/junk.txt", b"discard me");

    let resp = s.request(Request::AbortBranch { branch: "agent-session-2".to_string() });
    assert!(resp.ok, "abort failed: {:?}", resp.error);

    assert_eq!(s.disk.read("base/keep.txt").unwrap(), b"keep me");
    assert!(!s.disk.present("base/junk.txt"));
    let resp = s.request(Request::Status { branch: "agent-session-2".to_string() });
    assert!(!resp.ok, "aborted branch should not have status");
}

#[test]
fn hidden_paths_mask_inherited_data_and_persist() {
    let mut s = Store::new();
    s.disk.write("base/.ssh/id_rsa", b"SECRET KEY");
    s.disk.write("base/.env", b"TOKEN=hunter2");
    s.disk.write("base/Projects/code.py", b"print('ok')");
    let resp = s.request(create_request("agent-hidden", &[".ssh", "/.env"]));
    assert!(resp.ok, "create failed: {:?}", resp.error);
    assert!(s.request(Request::Shutdown).ok);

    let s = s.reload();
    assert!(s.resolve("agent-hidden", "/.ssh/id_rsa").is_none());
    assert!(s.resolve("agent-hidden", "/.env").is_none());
    assert!(s.resolve("agent-hidden", "/Projects/code.py").is_some());
    let names = s.names("agent-hidden", "/");
    assert!(!names.contains(&".ssh".to_string()));
    assert!(!names.contains(&".env".to_string()));
    assert!(names.contains(&"Projects".to_string()));
    assert!(s.resolve("main", "/.ssh/id_rsa").is_some());
}

#[test]
fn frozen_branch_survives_daemon_restart() {
    let mut s = Store::new();
    assert!(s.request(create_request("agent-session-3", &[])).ok);
    assert!(s.request(Request::Freeze { branch: "agent-session-3".to_string() }).ok);
    assert!(s.request(Request::Shutdown).ok);

    let mut s = s.reload();
    let resp = s.request(Request::Status { branch: "agent-session-3".to_string() });
    assert!(resp.ok, "status failed: {:?}", resp.error);
    assert_eq!(status_of(resp).state, BranchState::Frozen);
}

// Staged merges.

fn side(root: &str, target: &str, tag: &str) -> String {
    format!("{}/{}", root, branchfs::staged::side_path_of(target, tag))
}

fn publish(disk: &mut Disk, staged: &StagedMerge) -> usize {
    let published = staged.commit();
    for action in published.actions {
        disk.act("dst", &action);
    }
    published.merged.len()
}

fn roll_back(disk: &mut Disk, staged: &StagedMerge) {
    for action in staged.rollback() {
        disk.act("dst", &action);
    }
}

#[test]
fn commit_publishes_all_staged_files() {
    let mut disk = Disk::new();
    disk.make_dir("dst");
    let mut staged = StagedMerge::new();
    stage_copy(&mut disk, "dst", &mut staged, "/a", Some(b"new-a")).unwrap();
    stage_copy(&mut disk, "dst", &mut staged, "/b", Some(b"new-b")).unwrap();

    assert_eq!(publish(&mut disk, &staged), 2);
    assert_eq!(disk.read("dst/a").unwrap(), b"new-a");
    assert_eq!(disk.read("dst/b").unwrap(), b"new-b");
    assert!(!disk.present(&side("dst", "a", "tmp")));
    assert!(!disk.present(&side("dst", "b", "tmp")));
    assert_eq!(staged.bytes, 10);
}

#[test]
fn commit_publishes_nested_paths() {
    let mut disk = Disk::new();
    disk.make_dir("dst");
    let mut staged = StagedMerge::new();
    stage_copy(&mut disk, "dst", &mut staged, "/sub/x", Some(b"new-x")).unwrap();
    publish(&mut disk, &staged);

    assert_eq!(disk.read("dst/sub/x").unwrap(), b"new-x");
    assert!(!disk.present(&side("dst", "sub/x", "tmp")));
}

#[test]
fn drop_without_commit_removes_temps_and_preserves_dest() {
    let mut disk = Disk::new();
    disk.write("dst/a", b"old-a");
    let mut staged = StagedMerge::new();
    stage_copy(&mut disk, "dst", &mut staged, "/a", Some(b"new-a")).unwrap();
    assert!(disk.present(&side("dst", "a", "tmp")));
    assert_eq!(disk.read("dst/a").unwrap(), b"old-a");
    roll_back(&mut disk, &staged);

    assert!(!disk.present(&side("dst", "a", "tmp")));
    assert_eq!(disk.read("dst/a").unwrap(), b"old-a");
}

#[test]
fn failed_stage_propagates_and_cleans_up() {
    let mut disk = Disk::new();
    disk.write("dst/a", b"old-a");
    let mut staged = StagedMerge::new();
    stage_copy(&mut disk, "dst", &mut staged, "/a", Some(b"new-a")).unwrap();
    assert!(stage_copy(&mut disk, "dst", &mut staged, "/missing", None).is_err());
    roll_back(&mut disk, &staged);

    assert!(!disk.present(&side("dst", "a", "tmp")));
    assert_eq!(disk.read("dst/a").unwrap(), b"old-a");
}

#[test]
fn stage_delete_then_commit_removes_target() {
    let mut disk = Disk::new();
    disk.write("dst/a", b"old-a");
    let mut staged = StagedMerge::new();
    stage_delete(&mut disk, "dst", &mut staged, "a");
    assert!(!disk.present("dst/a"));
    assert!(disk.present(&side("dst", "a", "trash")));
    publish(&mut disk, &staged);

    assert!(!disk.present("dst/a"));
    assert!(!disk.present(&side("dst", "a", "trash")));
}

#[test]
fn stage_delete_rolled_back_on_drop() {
    let mut disk = Disk::new();
    disk.write("dst/a", b"old-a");
    let mut staged = StagedMerge::new();
    stage_delete(&mut disk, "dst", &mut staged, "a");
    assert!(!disk.present("dst/a"));
    roll_back(&mut disk, &staged);

    assert_eq!(disk.read("dst/a").unwrap(), b"old-a");
    assert!(!disk.present(&side("dst", "a", "trash")));
}

#[test]
fn stage_delete_missing_target_is_noop() {
    let mut disk = Disk::new();
    disk.make_dir("dst");
    let mut staged = StagedMerge::new();
    stage_delete(&mut disk, "dst", &mut staged, "does-not-exist");
    assert!(staged.steps.is_empty());
    assert!(staged.commit().actions.is_empty());
}

#[test]
fn replace_directory_with_file() {
    let mut disk = Disk::new();
    disk.write("dst/p/inner", b"inner");
    let mut staged = StagedMerge::new();
    stage_delete(&mut disk, "dst", &mut staged, "p");
    stage_copy(&mut disk, "dst", &mut staged, "/p", Some(b"now-a-file")).unwrap();
    publish(&mut disk, &staged);

    assert!(!disk.is_dir("dst/p"));
    assert_eq!(disk.read("dst/p").unwrap(), b"now-a-file");
}

#[test]
fn stage_copy_replaces_directory_without_explicit_tombstone() {
    let mut disk = Disk::new();
    disk.write("dst/d/inner", b"inner");
    let mut staged = StagedMerge::new();
    stage_copy(&mut disk, "dst", &mut staged, "/d", Some(b"now-a-file")).unwrap();
    publish(&mut disk, &staged);

    assert!(!disk.is_dir("dst/d"));
    assert_eq!(disk.read("dst/d").unwrap(), b"now-a-file");
}

#[test]
fn replace_directory_with_file_rolls_back_on_failure() {
    let mut disk = Disk::new();
    disk.write("dst/p/inner", b"inner");
    let mut staged = StagedMerge::new();
    stage_delete(&mut disk, "dst", &mut staged, "p");
    assert!(stage_copy(&mut disk, "dst", &mut staged, "/p", None).is_err());
    roll_back(&mut disk, &staged);

    assert!(disk.is_dir("dst/p"));
    assert_eq!(disk.read("dst/p/inner").unwrap(), b"inner");
    assert!(!disk.present(&side("dst", "p", "trash")));
}

#[test]
fn nested_deletes_roll_back_from_the_last_one() {
    let mut disk = Disk::new();
    disk.write("dst/p/inner", b"inner");
    let mut staged = StagedMerge::new();
    stage_delete(&mut disk, "dst", &mut staged, "p/inner");
    stage_delete(&mut disk, "dst", &mut staged, "p");
    roll_back(&mut disk, &staged);
    assert_eq!(disk.read("dst/p/inner").unwrap(), b"inner");
}

fn plan_of_four() -> CommitPlan {
    let copy = |path: &str| CopyJob {
        rel_path: path.to_string(),
        source: CopySource::Delta {
            branch: "s".to_string(),
            raw: path.trim_start_matches('/').as_bytes().to_vec(),
        },
    };
    CommitPlan {
        root: Place::Base,
        deletes: vec!["old".to_string(), "missing".to_string()],
        copies: vec![copy("/d"), copy("/new/f")],
    }
}

/// Stages the first `n` paths of a plan in `dst`.
fn stage(disk: &mut Disk, n: usize) -> Staging {
    let mut staging = Staging::start(plan_of_four());
    for _ in 0..n {
        match staging.next() {
            Task::Delete { path, trash } => {
                let full = format!("dst/{}", path);
                let present = disk.present(&full);
                if present {
                    disk.rename(&full, &format!("dst/{}", trash));
                }
                staging.deleted(present);
            }
            Task::Copy { path, trash, source, tmp } => {
                let full = format!("dst/{}", path);
                if disk.is_dir(&full) {
                    disk.rename(&full, &format!("dst/{}", trash));
                    staging.cleared_way();
                }
                let from = delta_path_of("s", path.as_bytes());
                assert_eq!(source_of(&source), from);
                disk.remove(&format!("dst/{}", tmp));
                disk.write(&format!("dst/{}", tmp), path.as_bytes());
                staging.copied(path.len() as u64);
            }
            Task::Publish => panic!("nothing is left"),
        }
    }
    staging
}

#[test]
fn a_commit_is_undone_from_wherever_it_stopped() {
    for n in 0..=4 {
        let mut disk = Disk::new();
        disk.write("dst/old", b"old");
        disk.write("dst/d/inner", b"inner");
        let staging = stage(&mut disk, n);
        assert_eq!(matches!(staging.next(), Task::Publish), n == 4);
        roll_back(&mut disk, &staging.merge);
        assert_eq!(disk.read("dst/old").unwrap(), b"old");
        assert_eq!(disk.read("dst/d/inner").unwrap(), b"inner");
        for path in ["old", "missing", "d", "new/f"] {
            assert!(!disk.present(&side("dst", path, "trash")));
            assert!(!disk.present(&side("dst", path, "tmp")));
        }
        assert!(!disk.present("dst/new/f"));
    }
}

#[test]
fn what_an_interrupted_commit_left_is_in_nobodys_way() {
    let litter = |disk: &mut Disk| {
        disk.write("dst/old", b"old");
        disk.write("dst/d/inner", b"inner");
        disk.write("dst/kept", b"kept");
        disk.write(&side("dst", "old", "trash"), b"stale");
        disk.write(&format!("{}/deep", side("dst", "d", "trash")), b"stale");
        disk.write(&format!("{}/deep", side("dst", "d", "tmp")), b"stale");
        disk.write(&side("dst", "new/f", "tmp"), b"stale");
    };
    for n in 0..=4 {
        let mut disk = Disk::new();
        litter(&mut disk);
        let staging = stage(&mut disk, n);
        roll_back(&mut disk, &staging.merge);
        assert_eq!(disk.read("dst/old").unwrap(), b"old");
        assert_eq!(disk.read("dst/d/inner").unwrap(), b"inner");
        assert_eq!(disk.read("dst/kept").unwrap(), b"kept");
        assert!(!disk.present("dst/new/f"));
        assert_eq!(disk.present(&side("dst", "old", "trash")), n < 1);
        assert_eq!(disk.present(&side("dst", "d", "tmp")), n < 3);
        assert_eq!(disk.present(&side("dst", "new/f", "tmp")), n < 4);
    }
    let mut disk = Disk::new();
    litter(&mut disk);
    let staging = stage(&mut disk, 4);
    assert_eq!(publish(&mut disk, &staging.merge), 2);
    assert_eq!(disk.read("dst/d").unwrap(), b"d");
    assert_eq!(disk.read("dst/new/f").unwrap(), b"new/f");
    assert_eq!(disk.read("dst/kept").unwrap(), b"kept");
    assert!(!disk.present("dst/old") && !disk.present("dst/d/inner"));
    for path in ["old", "d", "new/f"] {
        assert!(!disk.present(&side("dst", path, "trash")));
        assert!(!disk.present(&side("dst", path, "tmp")));
    }
}

#[test]
fn a_file_whose_name_is_no_text_is_committed() {
    let mut s = Store::new();
    s.create("work", "main", InheritanceMode::Lazy, &[]).unwrap();
    let odd = disk_name(b"odd-\xff.txt");
    s.disk.write(&delta_path_of("work", b"d/odd-\xff.txt"), b"content");
    assert!(s.disk.files.keys().any(|k| k.ends_with(&odd)));
    let seen = s.look("work");
    assert_eq!(seen.files[0].path, "/d/odd-\u{fffd}.txt");
    assert_eq!(seen.files[0].raw, b"d/odd-\xff.txt");
    assert_eq!(seen.writes[0].session.unwrap().len, 7);
    s.commit("work").unwrap();
    assert_eq!(s.disk.read("base/d/odd-\u{fffd}.txt").unwrap(), b"content");
}

#[test]
fn a_frozen_branch_reverts_nothing() {
    let mut s = Store::new();
    s.create("work", "main", InheritanceMode::Lazy, &[]).unwrap();
    s.disk.write(&delta_path_of("work", b"f"), b"changed");
    s.set_state("work", BranchState::Frozen).unwrap();
    let refused = s.revert("work", "/f").unwrap_err();
    assert_eq!(refused.message(), "Invalid: branch 'work' is frozen/read-only");
    assert!(s.mgr().revert_path("work", "/f", None).is_err());
    assert_eq!(s.disk.read(&delta_path_of("work", b"f")).unwrap(), b"changed");
    s.set_state("work", BranchState::Open).unwrap();
    s.revert("work", "/f").unwrap();
    assert!(!s.disk.present(&delta_path_of("work", b"f")));
}

#[test]
fn a_commit_that_is_staged_whole_is_published() {
    let mut disk = Disk::new();
    disk.write("dst/old", b"old");
    disk.write("dst/d/inner", b"inner");
    disk.write("dst/kept", b"kept");
    let staging = stage(&mut disk, 4);
    assert_eq!(publish(&mut disk, &staging.merge), 2);
    assert_eq!(staging.merge.commit().merged, vec!["/d".to_string(), "/new/f".to_string()]);
    assert_eq!(staging.merge.bytes, 6);
    assert_eq!(staging.present, vec![true, false]);
    assert_eq!(staging.is_dir, vec![true, false]);
    assert!(staging.emptied().is_empty());
    assert!(!disk.present("dst/old"));
    assert_eq!(disk.read("dst/d").unwrap(), b"d");
    assert_eq!(disk.read("dst/new/f").unwrap(), b"new/f");
    assert_eq!(disk.read("dst/kept").unwrap(), b"kept");
    assert!(!disk.present(&side("dst", "old", "trash")));
    assert!(!disk.present(&side("dst", "d", "trash")));
}

#[test]
fn a_nested_commit_tells_which_deltas_it_took_out() {
    let mut plan = plan_of_four();
    plan.root = Place::Files("parent".to_string());
    let mut staging = Staging::start(plan);
    staging.deleted(true);
    staging.deleted(false);
    assert_eq!(staging.emptied(), vec!["old".to_string()]);
}

// What the operations promise together.

#[test]
fn snapshot_branches_keep_what_they_saw() {
    let mut s = Store::new();
    s.disk.write("base/dir/a.txt", b"old");
    s.disk.write("base/secret", b"x");
    s.create("snap", "main", InheritanceMode::Snapshot, &["secret"]).unwrap();
    s.disk.write("base/dir/a.txt", b"new");
    s.disk.write("base/dir/b.txt", b"later");

    let resolved = s.resolve("snap", "/dir/a.txt").unwrap();
    assert_eq!(resolved, "storage/branches/snap/inherited/dir/a.txt");
    assert_eq!(s.disk.read(&resolved).unwrap(), b"old");
    assert!(s.resolve("snap", "/dir/b.txt").is_none());
    assert!(s.resolve("snap", "/secret").is_none());
    assert_eq!(s.names("snap", "/dir"), vec!["a.txt".to_string()]);
}

#[test]
fn siblings_do_not_see_each_other() {
    let mut s = Store::new();
    lazy(&mut s, "a");
    lazy(&mut s, "b");
    s.write_delta("a", "/only-a", b"a");
    assert!(s.resolve("a", "/only-a").is_some());
    assert!(s.resolve("b", "/only-a").is_none());
    assert!(s.resolve("main", "/only-a").is_none());
    s.abort("a").unwrap();
    assert!(s.resolve("b", "/only-a").is_none());
}

#[test]
fn children_see_their_parents_until_they_write() {
    let mut s = Store::new();
    lazy(&mut s, "level1");
    s.write_delta("level1", "/f", b"one");
    s.create("level2", "level1", InheritanceMode::Lazy, &[]).unwrap();
    assert_eq!(s.disk.read(&s.resolve("level2", "/f").unwrap()).unwrap(), b"one");
    s.write_delta("level2", "/f", b"two");
    assert_eq!(s.disk.read(&s.resolve("level1", "/f").unwrap()).unwrap(), b"one");

    let e = s.commit("level1").unwrap_err();
    assert!(matches!(e, BranchError::NotALeaf(n) if n == "level1"));
    assert!(matches!(s.abort("level1"), Err(BranchError::NotALeaf(_))));

    s.commit("level2").unwrap();
    assert_eq!(s.disk.read(&s.resolve("level1", "/f").unwrap()).unwrap(), b"two");
    assert!(!s.disk.present("base/f"));
    s.commit("level1").unwrap();
    assert_eq!(s.disk.read("base/f").unwrap(), b"two");
}

#[test]
fn a_commit_supersedes_what_main_wrote() {
    let mut s = Store::new();
    s.write_delta("main", "/f", b"through the mount root");
    lazy(&mut s, "work");
    s.write_delta("work", "/f", b"committed");
    s.commit("work").unwrap();
    assert_eq!(s.resolve("main", "/f").unwrap(), "base/f");
    assert_eq!(s.disk.read("base/f").unwrap(), b"committed");
}

#[test]
fn a_commit_of_a_deletion_deletes_in_the_base() {
    let mut s = Store::new();
    s.disk.write("base/gone.txt", b"x");
    lazy(&mut s, "work");
    s.delete("work", "/gone.txt").unwrap();
    assert!(s.resolve("work", "/gone.txt").is_none());
    assert!(s.resolve("main", "/gone.txt").is_some());
    s.commit("work").unwrap();
    assert!(!s.disk.present("base/gone.txt"));
    assert!(s.resolve("main", "/gone.txt").is_none());
}

#[test]
fn reverted_paths_are_inherited_again() {
    let mut s = Store::new();
    s.disk.write("base/dir/f", b"base");
    lazy(&mut s, "work");
    s.write_delta("work", "/dir/f", b"changed");
    s.mgr().add_tombstone("work", "/dir/g").unwrap();
    let revert = |path: &str| Request::RevertPath {
        branch: "work".to_string(),
        path: path.to_string(),
    };
    assert!(s.request(revert("dir")).ok);
    assert_eq!(s.resolve("work", "/dir/f").unwrap(), "base/dir/f");
    assert_eq!(s.saved["work"].tombstones_log.as_deref(), Some("- /dir/g\n"));
    assert!(s.status("work").unwrap().diff.is_empty());

    let r = s.request(revert("/"));
    assert_eq!(r.error.as_deref(), Some("Invalid: cannot revert the root of a branch"));
    let r = s.request(Request::RevertPath { branch: "no".to_string(), path: "a".to_string() });
    assert_eq!(r.error.as_deref(), Some("Branch not found: no"));
}

#[test]
fn quota_refuses_copies_and_growth() {
    let mut disk = Disk::new();
    disk.write("base/big", &[7; 100]);
    let mut s = open(disk, BTreeMap::new(), Some(120));
    lazy(&mut s, "work");
    assert_eq!(s.write_data("work", "/big", 0, b"x").unwrap(), 1);
    assert_eq!(s.mgr().quota.used(), 100);
    assert_eq!(s.write_data("work", "/small", 0, &[1; 20]).unwrap(), 20);
    assert_eq!(s.mgr().quota.used(), 120);
    let e = s.write_data("work", "/small", 20, b"y").unwrap_err();
    assert!(matches!(e, BranchError::Io(Errno::Enospc)));
    s.delete("work", "/big").unwrap();
    assert_eq!(s.mgr().quota.used(), 20);
    let e = s.delta_for_write("work", "/big2").unwrap();
    assert_eq!(e, "storage/branches/work/files/big2");
    s.disk.write("base/huge", &[0; 101]);
    assert!(matches!(s.delta_for_write("work", "/huge"), Err(BranchError::Io(Errno::Enospc))));
}

#[test]
fn writes_are_refused_with_the_right_errors() {
    let mut s = Store::new();
    lazy(&mut s, "work");
    assert!(matches!(s.write_data("work", "/f", -1, b"x"), Err(BranchError::Io(Errno::Einval))));
    let seen = SeenPath { has_delta: false, source: None, found: None, bytes: Vec::new() };
    assert!(matches!(
        s.mgr().write_data_to_branch("work", "/f", i64::MAX, u64::MAX, seen),
        Err(BranchError::Io(Errno::Efbig))
    ));
    assert!(matches!(s.write_data("nope", "/f", 0, b"x"), Err(BranchError::NotFound(n)) if n == "nope"));
    s.set_state("work", BranchState::Frozen).unwrap();
    match s.write_data("work", "/f", 0, b"x") {
        Err(BranchError::Invalid(m)) => assert_eq!(m, "branch 'work' is frozen/read-only"),
        _ => panic!("a frozen branch was written"),
    }
    assert!(matches!(s.set_state("main", BranchState::Frozen), Err(BranchError::CannotOperateOnMain)));
    assert!(matches!(s.set_state("nope", BranchState::Open), Err(BranchError::NotFound(_))));
    assert!(matches!(s.commit("main"), Err(BranchError::CannotOperateOnMain)));
    assert!(matches!(s.abort("nope"), Err(BranchError::NotFound(_))));
}

#[test]
fn branches_are_created_under_rules() {
    let mut s = Store::new();
    lazy(&mut s, "work");
    let mut make = |name: &str, parent: &str| {
        s.create(name, parent, InheritanceMode::Lazy, &[]).unwrap_err().message()
    };
    assert_eq!(make("work", "main"), "Branch already exists: work");
    assert_eq!(make("x", "none"), "Parent branch not found: none");
    assert_eq!(make("", "main"), "Invalid: branch name cannot be empty");
    assert_eq!(make("..", "main"), "Invalid: '..' is not a valid branch name");
    assert_eq!(make("a/b", "main"), "Invalid: branch name cannot contain '/' or null bytes");
    assert_eq!(
        make("@x", "main"),
        "Invalid: branch name cannot start with '@' (reserved for virtual paths)"
    );
    assert_eq!(make(&"x".repeat(256), "main"), "Invalid: branch name cannot exceed 255 characters");
}

#[test]
fn mounts_come_and_go() {
    let mut s = Store::new();
    lazy(&mut s, "work");
    let mount = |branch: &str, at: &str| Request::Mount {
        branch: branch.to_string(),
        mountpoint: at.to_string(),
        passthrough: false,
        control: true,
        allow_other: false,
    };
    let which = |at: &str| Request::GetMountBranch { mountpoint: at.to_string() };
    assert!(s.request(mount("work", "/mnt/a")).ok);
    assert!(s.request(mount("main", "/mnt/b")).ok);
    assert_eq!(s.request(mount("no", "/mnt/c")).error.as_deref(), Some("Branch not found: no"));
    assert_eq!(s.daemon.mount_count(), 2);
    assert!(s.daemon.get_manager().is_branch_valid("work"));
    match s.request(which("/mnt/a")).data {
        Some(ResponseData::Branch(b)) => assert_eq!(b, "work"),
        _ => panic!("no branch"),
    }
    let r = s.request(which("/mnt/\"c\""));
    assert_eq!(r.error.as_deref(), Some("Mount not found: \"/mnt/\\\"c\\\"\""));
    let unmount = |at: &str| Request::Unmount { mountpoint: at.to_string() };
    let r = s.request(unmount("/mnt/c"));
    assert_eq!(r.error.as_deref(), Some("Mount not found: \"/mnt/c\""));
    assert!(s.request(unmount("/mnt/a")).ok);
    assert!(!s.daemon.stopping());
    assert!(s.request(unmount("/mnt/b")).ok);
    assert!(s.daemon.stopping());
    match s.request(Request::List).data {
        Some(ResponseData::Statuses(all)) => assert_eq!(all.len(), 2),
        _ => panic!("no list"),
    }
}

#[test]
fn deleted_bytes_do_not_come_back_with_a_write() {
    let mut s = Store::new();
    s.disk.write("base/file.txt", b"0123456789");
    s.disk.write("base/dir/f", b"below");
    lazy(&mut s, "work");
    s.delete("work", "/file.txt").unwrap();
    assert_eq!(s.write_data("work", "/file.txt", 0, b"X").unwrap(), 1);
    let at = s.resolve("work", "/file.txt").unwrap();
    assert_eq!(s.disk.read(&at).unwrap(), b"X");

    s.delete("work", "/dir").unwrap();
    let at = s.delta_for_write("work", "/dir/f").unwrap();
    assert!(!s.disk.present(&at));
    assert!(s.resolve("work", "/dir/f").is_none());
}

#[test]
fn frozen_branches_refuse_deletions_and_renames() {
    let mut s = Store::new();
    s.disk.write("base/file.txt", b"base");
    lazy(&mut s, "work");
    s.write_data("work", "/own", 0, b"12345").unwrap();
    s.set_state("work", BranchState::Frozen).unwrap();
    let used = s.mgr().quota.used();

    assert!(matches!(s.delete("work", "/file.txt"), Err(BranchError::Invalid(_))));
    let direct = s.mgr().delete_path_in_branch("work", "/file.txt", true, Some(3));
    assert!(matches!(direct, Err(BranchError::Invalid(_))));
    let renamed = s.mgr().record_rename("work", "/own", "/other", false, Some(2));
    assert!(matches!(renamed, Err(BranchError::Invalid(_))));
    assert!(s.resolve("work", "/file.txt").is_some());
    assert_eq!(s.mgr().quota.used(), used);
    assert_eq!(s.status("work").unwrap().tombstones, 0);

    s.set_state("work", BranchState::Open).unwrap();
    s.delete("work", "/file.txt").unwrap();
    assert!(s.resolve("work", "/file.txt").is_none());
}

#[test]
fn a_commit_shows_at_main_what_main_had_deleted() {
    let mut s = Store::new();
    s.disk.write("base/x", b"1");
    s.disk.write("base/d/x", b"1");
    s.disk.write("base/d/other", b"old");
    s.delete("main", "/x").unwrap();
    s.delete("main", "/d").unwrap();
    lazy(&mut s, "b");
    s.write_data("b", "/x", 0, b"2").unwrap();
    s.write_data("b", "/d/x", 0, b"3").unwrap();
    s.commit("b").unwrap();

    for _ in 0..2 {
        let at = s.resolve("main", "/x").unwrap();
        assert_eq!(s.disk.read(&at).unwrap(), b"2");
        let at = s.resolve("main", "/d/x").unwrap();
        assert_eq!(s.disk.read(&at).unwrap(), b"3");
        assert_eq!(s.disk.read("base/d/x").unwrap(), b"3");
        assert!(s.resolve("main", "/d/other").is_none());
        s = s.reload();
    }
}

#[test]
fn deltas_that_are_gone_no_longer_count() {
    let mut s = open(Disk::new(), BTreeMap::new(), Some(100));
    lazy(&mut s, "b");
    s.write_data("b", "/f", 0, b"12345").unwrap();
    assert_eq!(s.mgr().quota.used(), 5);
    assert_eq!(s.abort("b").unwrap(), "main");
    assert_eq!(s.mgr().quota.used(), 0);
    assert!(matches!(s.mgr().abort("b", 7), Err(BranchError::NotFound(_))));
    assert_eq!(s.mgr().quota.used(), 0);

    // So does a path that is reverted.
    lazy(&mut s, "v");
    s.write_data("v", "/d/f", 0, b"123").unwrap();
    s.revert("v", "/d").unwrap();
    assert_eq!(s.mgr().quota.used(), 0);
    assert!(s.mgr().revert_path("v", "/", Some(9)).is_err());
    assert_eq!(s.mgr().quota.used(), 0);

    // A rename over a delta frees what it held.
    lazy(&mut s, "r");
    s.write_data("r", "/a", 0, b"1234").unwrap();
    s.write_data("r", "/b", 0, b"12").unwrap();
    s.mgr().record_rename("r", "/a", "/b", true, Some(2)).unwrap();
    assert_eq!(s.mgr().quota.used(), 4);
    s.mgr().abort("r", 4).unwrap();
    assert_eq!(s.mgr().quota.used(), 0);

    // A commit into the base frees the delta; one into a branch moves it.
    lazy(&mut s, "outer");
    s.write_data("outer", "/f", 0, b"123").unwrap();
    s.create("inner", "outer", InheritanceMode::Lazy, &[]).unwrap();
    s.write_data("inner", "/f", 0, b"12345").unwrap();
    s.write_data("inner", "/g", 0, b"1").unwrap();
    assert_eq!(s.mgr().quota.used(), 9);
    s.commit("inner").unwrap();
    assert_eq!(s.mgr().quota.used(), 6);
    s.commit("outer").unwrap();
    assert_eq!(s.mgr().quota.used(), 0);
}

#[test]
fn a_directory_is_replaced_by_a_file_in_a_commit() {
    for whole in [true, false] {
        let mut s = Store::new();
        s.disk.write("base/p/inner", b"inner");
        lazy(&mut s, "b");
        s.delete("b", "/p/inner").unwrap();
        if whole {
            s.delete("b", "/p").unwrap();
        }
        s.write_delta("b", "/p", b"file");
        s.commit("b").unwrap();
        let at = s.resolve("main", "/p").unwrap();
        assert_eq!(s.disk.read(&at).unwrap(), b"file");
        assert!(s.resolve("main", "/p/inner").is_none());
        let left: Vec<&String> =
            s.disk.files.keys().filter(|k| k.contains(".branchfs-")).collect();
        assert!(left.is_empty(), "side files are left: {:?}", left);
    }
}

#[test]
fn an_insertion_before_replaced_lines_is_a_conflict_that_the_session_wins() {
    let mut s = Store::new();
    s.disk.write("base/f", b"1\n2\n");
    lazy(&mut s, "a");
    lazy(&mut s, "b");
    s.write_delta("a", "/f", b"1\nA\n");
    s.write_delta("b", "/f", b"1\nnew\n2\n");
    s.commit("a").unwrap();
    let outcome = s.commit("b").unwrap();
    assert_eq!(outcome.conflicts.len(), 1);
    assert!(outcome.auto_merges.is_empty());
    assert_eq!(s.disk.read("base/f").unwrap(), b"1\nnew\n2\n");
}

#[test]
fn the_first_record_of_a_path_stays() {
    let mut s = Store::new();
    s.disk.write("base/f", b"base");
    lazy(&mut s, "work");
    s.delete("work", "/f").unwrap();
    let other = TouchRecord {
        path: "/f".to_string(),
        base_at_first_touch: branchfs::records::PathIdentity::missing(),
        base_content_key: None,
    };
    s.mgr().record_first_touch("work", &other).unwrap();
    let kept = s.mgr().with_branch("work", |b| Ok(b.get_touch_record("/f"))).unwrap().unwrap();
    assert!(kept.base_at_first_touch.exists);
}

#[test]
fn a_commit_is_answered_with_its_outcome() {
    let mut s = Store::new();
    s.disk.write("base/f", b"base");
    lazy(&mut s, "a");
    lazy(&mut s, "b");
    s.write_delta("a", "/f", b"a");
    s.write_delta("b", "/f", b"b");
    assert!(s.request(Request::CommitBranch { branch: "a".to_string() }).ok);
    let answer = s.request(Request::CommitBranch { branch: "b".to_string() });
    assert!(answer.ok && answer.error.is_none());
    match answer.data {
        Some(ResponseData::Outcome(o)) => {
            assert_eq!(o.parent, "main");
            assert_eq!(o.conflicts.len(), 1);
        }
        _ => panic!("no outcome"),
    }
    let refused = commit_answer(Err(BranchError::CannotOperateOnMain));
    assert!(!refused.ok && refused.data.is_none() && refused.error.is_some());
}
