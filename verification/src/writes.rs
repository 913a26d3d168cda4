//! Writing and deleting paths of a branch: what is recorded, copied and counted.
//!
//! Each operation looks at the disk first and is then planned from what was seen. The steps of
//! the plan are carried out in order: the first touch is recorded, the inherited entry is copied,
//! and what was copied is counted.

use vstd::prelude::*;
use vstd::string::*;

use crate::branch::{first_touch, BranchView, FirstTouch};
use crate::errors::{BranchError, Errno, ErrorView};
use crate::journal::log_line;
use crate::lookup::Forest;
use crate::manager::{BranchManager, ManagerView};
use crate::names::random_id;
use crate::paths::{deleted, located, under, Location, LocationView, PlaceView};
use crate::quota::{law_sub_undoes_add, QuotaView};
use crate::records::{BranchState, FileKind, Meta, TouchView};
use crate::staged::name_start;
use crate::text::{
    chars_of, concat, opt_text, texts, trim_end_slashes, without_trailing_slashes, Text,
};

verus! {

/// The message of a write to a branch that does not take any.
pub open spec fn frozen_message(name: Text) -> Text {
    "branch '"@ + name + "' is frozen/read-only"@
}

pub(crate) fn frozen_error(name: &str) -> (r: BranchError)
    ensures
        r@ == ErrorView::Invalid(frozen_message(name@)),
{
    let head = concat("branch '", name);
    BranchError::Invalid(concat(head.as_str(), "' is frozen/read-only"))
}

/// Why a branch takes no writes, or `None` if it does.
pub open spec fn write_fault(m: Forest, name: Text) -> Option<ErrorView> {
    if !m.dom().contains(name) {
        Some(ErrorView::NotFound(name))
    } else if m[name].state != BranchState::Open {
        Some(ErrorView::Invalid(frozen_message(name)))
    } else {
        None
    }
}

/// What is copied into the delta before a path is written for the first time.
#[derive(Clone, Copy, Debug, PartialEq, Eq, Structural)]
pub enum CopyUp {
    /// Nothing is inherited that could be copied.
    Nothing,
    /// The entry itself, of that many bytes.
    Entry(u64),
    /// The file, to a staging path where it is written before it is put in place.
    Staged,
}

/// The larger of two numbers.
pub open spec fn larger(a: u64, b: u64) -> u64 {
    if a < b {
        b
    } else {
        a
    }
}

/// What opening a path for writing copies, or that the quota does not allow it.
pub open spec fn copy_for_open(q: QuotaView, found: Option<Meta>) -> Result<CopyUp, ErrorView> {
    match found {
        Some(m) if m.kind == FileKind::Symlink || m.kind == FileKind::File => if q.fits(
            m.len as int,
        ) {
            Ok(CopyUp::Entry(m.len))
        } else {
            Err(ErrorView::Io(Errno::Enospc))
        },
        _ => Ok(CopyUp::Nothing),
    }
}

/// What a write up to byte `end` copies, or that the quota does not allow it.
pub open spec fn copy_for_write(q: QuotaView, found: Option<Meta>, end: u64) -> Result<
    CopyUp,
    ErrorView,
> {
    match found {
        Some(m) if m.kind == FileKind::File => if q.fits(larger(m.len, end) as int) {
            Ok(CopyUp::Staged)
        } else {
            Err(ErrorView::Io(Errno::Enospc))
        },
        Some(m) if m.kind == FileKind::Symlink => if q.fits(m.len as int) {
            Ok(CopyUp::Entry(m.len))
        } else {
            Err(ErrorView::Io(Errno::Enospc))
        },
        _ => Ok(CopyUp::Nothing),
    }
}

pub open spec fn copy_view(r: Result<CopyUp, BranchError>) -> Result<CopyUp, ErrorView> {
    match r {
        Ok(c) => Ok(c),
        Err(e) => Err(e@),
    }
}

/// What stands at a path of a branch before the branch writes it.
pub struct SeenPath {
    /// Whether the branch has a delta there. If so, nothing else counts.
    pub has_delta: bool,
    /// Where the branch inherits the path from.
    pub source: Option<Location>,
    /// What is found there.
    pub found: Option<Meta>,
    /// The content of what is found there, where it may be text.
    pub bytes: Vec<u8>,
}

pub struct SeenView {
    pub has_delta: bool,
    pub source: Option<LocationView>,
    pub found: Option<Meta>,
    pub bytes: Seq<u8>,
}

/// The view of an optional location.
pub open spec fn opt_location(o: Option<Location>) -> Option<LocationView> {
    match o {
        Some(l) => Some(l@),
        None => None,
    }
}

impl View for SeenPath {
    type V = SeenView;

    open spec fn view(&self) -> SeenView {
        SeenView {
            has_delta: self.has_delta,
            source: opt_location(self.source),
            found: self.found,
            bytes: self.bytes@,
        }
    }
}

/// How a path is made ready for writing.
pub struct Opening {
    /// Where the path is written.
    pub delta: Location,
    /// What is to be recorded first, whatever comes of the rest.
    pub touch: Option<FirstTouch>,
    /// What is then copied to the delta, or why it cannot be.
    pub copy: Result<CopyUp, BranchError>,
    /// Where it is copied from.
    pub source: Option<Location>,
}

/// How bytes are written to a path.
pub struct Writing {
    pub opening: Opening,
    /// Where a file is copied to and written before it is put in place, if one is.
    pub staging: Option<Location>,
    /// The first byte that is written.
    pub offset: u64,
    /// The byte after the last one that is written.
    pub end: u64,
}

/// Why a write is refused, or `None` if it is not.
pub open spec fn data_fault(m: Forest, name: Text, offset: i64, len: u64) -> Option<ErrorView> {
    if offset < 0 {
        Some(ErrorView::Io(Errno::Einval))
    } else if offset + len > u64::MAX {
        Some(ErrorView::Io(Errno::Efbig))
    } else {
        write_fault(m, name)
    }
}

/// Whether a first touch is what a branch records of a path.
pub open spec fn records_touch(
    t: FirstTouch,
    path: Text,
    found: Option<Meta>,
    capture: bool,
    bytes: Seq<u8>,
) -> bool {
    &&& t.record@ == first_touch(path, found, capture, bytes)
    &&& t.kept_text is Some <==> t.record@.key is Some
    &&& t.kept_text matches Some(kept) ==> kept@ == bytes
}

/// Whether `touch` is what is to be recorded before a branch changes a path: nothing if it has
/// touched the path before.
pub open spec fn touches_first(
    touch: Option<FirstTouch>,
    b: BranchView,
    path: Text,
    found: Option<Meta>,
    capture: bool,
    bytes: Seq<u8>,
) -> bool {
    match touch {
        Some(t) => !b.touches.dom().contains(path) && records_touch(t, path, found, capture, bytes),
        None => b.touches.dom().contains(path),
    }
}

/// Whether a path is made ready for writing as it must be, where `copy` is what is copied if the
/// branch has no delta there yet. Of a path that the branch deleted nothing is copied: a deletion
/// comes before what is inherited.
pub open spec fn opens(
    o: Opening,
    mv: ManagerView,
    name: Text,
    path: Text,
    seen: SeenView,
    copy: Result<CopyUp, ErrorView>,
) -> bool {
    &&& o.delta@ == located(PlaceView::Files(name), path)
    &&& opt_location(o.source) == seen.source
    &&& seen.has_delta ==> o.touch is None && copy_view(o.copy) == Ok::<CopyUp, ErrorView>(
        CopyUp::Nothing,
    )
    &&& !seen.has_delta ==> touches_first(
        o.touch,
        mv.branches[name],
        path,
        seen.found,
        true,
        seen.bytes,
    ) && copy_view(o.copy) == if deleted(mv.branches[name].tombs, path) {
        Ok(CopyUp::Nothing)
    } else {
        copy
    }
}

impl ManagerView {
    /// The state after a delta was made ready: what was copied into it counts, and the path is
    /// no longer deleted.
    pub open spec fn settled(self, name: Text, path: Text, copied: Option<u64>) -> ManagerView {
        let was = self.branches[name];
        ManagerView {
            quota: match copied {
                Some(n) => self.quota.after(n as int),
                None => self.quota,
            },
            ..self.with(name, BranchView { tombs: was.tombs.remove(path), ..was })
        }
    }

    /// The state after a path was deleted whose delta held `freed` bytes: a path that is
    /// inherited is marked as deleted, one that is not leaves no mark.
    pub open spec fn erased(
        self,
        name: Text,
        path: Text,
        inherited: bool,
        freed: Option<u64>,
    ) -> ManagerView {
        let was = self.branches[name];
        ManagerView {
            quota: match freed {
                Some(n) => self.quota.after(-(n as int)),
                None => self.quota,
            },
            ..self.with(
                name,
                BranchView {
                    tombs: if inherited {
                        was.tombs.insert(path)
                    } else {
                        was.tombs.remove(path)
                    },
                    ..was
                },
            )
        }
    }
}

impl BranchManager {
    /// What is to be recorded before a branch changes a path, where it inherits `found`; nothing
    /// if it has touched the path before.
    pub fn plan_touch(
        &self,
        branch_name: &str,
        rel_path: &str,
        found: Option<Meta>,
        capture_base_content: bool,
        bytes: Vec<u8>,
    ) -> (r: Result<Option<FirstTouch>, BranchError>)
        requires
            self.wf(),
        ensures
            r is Ok <==> write_fault(self@.branches, branch_name@) is None,
            r matches Err(e) ==> Some(e@) == write_fault(self@.branches, branch_name@),
            r matches Ok(t) ==> touches_first(
                t,
                self@.branches[branch_name@],
                rel_path@,
                found,
                capture_base_content,
                bytes@,
            ),
    {
        match self.branches.get(branch_name) {
            None => Err(BranchError::NotFound(branch_name.to_owned())),
            Some(branch) => {
                if !branch.is_writable() {
                    return Err(frozen_error(branch_name));
                }
                Ok(branch.plan_first_touch(rel_path, found, capture_base_content, bytes))
            },
        }
    }

    /// Makes a path of a branch ready for writing: what the branch inherits there is recorded and
    /// copied, unless the branch has a delta there already or has deleted the path.
    pub fn ensure_delta_path_for_write(
        &self,
        branch_name: &str,
        rel_path: &str,
        seen: SeenPath,
    ) -> (r: Result<Opening, BranchError>)
        requires
            self.wf(),
        ensures
            r is Ok <==> write_fault(self@.branches, branch_name@) is None,
            r matches Err(e) ==> Some(e@) == write_fault(self@.branches, branch_name@),
            r matches Ok(o) ==> opens(
                o,
                self@,
                branch_name@,
                rel_path@,
                seen@,
                copy_for_open(self@.quota, seen@.found),
            ),
    {
        let copy = if seen.has_delta {
            Ok(CopyUp::Nothing)
        } else {
            self.copy_for_open(seen.found)
        };
        self.open_with(branch_name, rel_path, seen, copy)
    }

    /// Makes a path ready for writing, where `copy` is what is copied.
    fn open_with(
        &self,
        branch_name: &str,
        rel_path: &str,
        seen: SeenPath,
        copy: Result<CopyUp, BranchError>,
    ) -> (r: Result<Opening, BranchError>)
        requires
            self.wf(),
            seen@.has_delta ==> copy_view(copy) == Ok::<CopyUp, ErrorView>(CopyUp::Nothing),
        ensures
            r is Ok <==> write_fault(self@.branches, branch_name@) is None,
            r matches Err(e) ==> Some(e@) == write_fault(self@.branches, branch_name@),
            r matches Ok(o) ==> opens(
                o,
                self@,
                branch_name@,
                rel_path@,
                seen@,
                copy_view(copy),
            ),
    {
        match self.branches.get(branch_name) {
            None => Err(BranchError::NotFound(branch_name.to_owned())),
            Some(branch) => {
                if !branch.is_writable() {
                    return Err(frozen_error(branch_name));
                }
                let touch = if seen.has_delta {
                    None
                } else {
                    branch.plan_first_touch(rel_path, seen.found, true, seen.bytes)
                };
                let copy = if branch.is_deleted(rel_path) {
                    Ok(CopyUp::Nothing)
                } else {
                    copy
                };
                Ok(Opening { delta: branch.delta_path(rel_path), touch, copy, source: seen.source })
            },
        }
    }

    /// Plans a write of `len` bytes at `offset`. An inherited file is copied aside and written
    /// there before it is put in place, so that nobody sees it half written.
    pub fn write_data_to_branch(
        &self,
        branch_name: &str,
        rel_path: &str,
        offset: i64,
        len: u64,
        seen: SeenPath,
    ) -> (r: Result<Writing, BranchError>)
        requires
            self.wf(),
        ensures
            r is Ok <==> data_fault(self@.branches, branch_name@, offset, len) is None,
            r matches Err(e) ==> Some(e@) == data_fault(
                self@.branches,
                branch_name@,
                offset,
                len,
            ),
            r matches Ok(w) ==> {
                &&& w.offset == offset
                &&& w.end == offset + len
                &&& opens(
                    w.opening,
                    self@,
                    branch_name@,
                    rel_path@,
                    seen@,
                    copy_for_write(self@.quota, seen@.found, w.end),
                )
                &&& w.staging is Some <==> copy_view(w.opening.copy) == Ok::<CopyUp, ErrorView>(
                    CopyUp::Staged,
                )
                &&& w.staging matches Some(l) ==> l@.place == PlaceView::Staging(branch_name@)
                    && exists|id: Text| #[trigger]
                    random_id(id) && l@.rel == "cow-"@ + id + ".tmp"@
            },
    {
        if offset < 0 {
            return Err(BranchError::Io(Errno::Einval));
        }
        let start: u64 = offset as u64;
        let end = match start.checked_add(len) {
            None => {
                return Err(BranchError::Io(Errno::Efbig));
            },
            Some(end) => end,
        };
        let copy = if seen.has_delta {
            Ok(CopyUp::Nothing)
        } else {
            self.copy_for_write(seen.found, end)
        };
        match self.open_with(branch_name, rel_path, seen, copy) {
            Err(e) => Err(e),
            Ok(opening) => {
                let staged = match &opening.copy {
                    Ok(c) => *c == CopyUp::Staged,
                    Err(_) => false,
                };
                let staging = if staged {
                    match self.branches.get(branch_name) {
                        Some(branch) => Some(branch.staging_path()),
                        None => None,
                    }
                } else {
                    None
                };
                Ok(Writing { opening, staging, offset: start, end })
            },
        }
    }

    /// Concludes the making of a delta: counts what was copied into it, and stops deleting the
    /// path. The result is the line that the branch's log gains, if anything changed.
    pub fn settle_delta(&mut self, branch_name: &str, rel_path: &str, copied: Option<u64>) -> (r:
        Result<Option<String>, BranchError>)
        requires
            old(self).wf(),
        ensures
            final(self).wf(),
            r is Ok <==> old(self)@.branches.dom().contains(branch_name@),
            r matches Err(e) ==> e@ == ErrorView::NotFound(branch_name@) && final(self)@ == old(
                self,
            )@,
            r matches Ok(line) ==> {
                &&& final(self)@ == old(self)@.settled(branch_name@, rel_path@, copied)
                &&& opt_text(line) == if old(self)@.branches[branch_name@].tombs.contains(
                    rel_path@,
                ) {
                    Some(log_line(false, rel_path@))
                } else {
                    None
                }
            },
    {
        let r = self.remove_tombstone(branch_name, rel_path);
        if r.is_ok() {
            if let Some(bytes) = copied {
                self.quota.add(bytes);
            }
        }
        r
    }

    /// Concludes the deletion of a path whose delta, if any, is gone. The result is the line that
    /// the branch's log gains, if anything changed.
    pub fn delete_path_in_branch(
        &mut self,
        branch_name: &str,
        rel_path: &str,
        inherited_exists: bool,
        freed: Option<u64>,
    ) -> (r: Result<Option<String>, BranchError>)
        requires
            old(self).wf(),
        ensures
            final(self).wf(),
            r is Ok <==> write_fault(old(self)@.branches, branch_name@) is None,
            r matches Err(e) ==> Some(e@) == write_fault(old(self)@.branches, branch_name@)
                && final(self)@ == old(self)@,
            r matches Ok(line) ==> {
                &&& final(self)@ == old(self)@.erased(
                    branch_name@,
                    rel_path@,
                    inherited_exists,
                    freed,
                )
                &&& opt_text(line) == if old(self)@.branches[branch_name@].tombs.contains(rel_path@)
                    == inherited_exists {
                    None
                } else {
                    Some(log_line(inherited_exists, rel_path@))
                }
            },
    {
        if let Some(branch) = self.branches.get(branch_name) {
            if !branch.is_writable() {
                return Err(frozen_error(branch_name));
            }
        }
        let r = if inherited_exists {
            self.add_tombstone(branch_name, rel_path)
        } else {
            self.remove_tombstone(branch_name, rel_path)
        };
        if r.is_ok() {
            if let Some(bytes) = freed {
                self.quota.sub(bytes);
            }
        }
        r
    }

    /// What is copied into the delta when a path is opened for writing and has no delta yet.
    fn copy_for_open(&self, found: Option<Meta>) -> (r: Result<CopyUp, BranchError>)
        ensures
            copy_view(r) == copy_for_open(self@.quota, found),
    {
        match found {
            Some(m) => {
                if m.kind == FileKind::Symlink || m.kind == FileKind::File {
                    match self.quota.check(m.len) {
                        Ok(()) => Ok(CopyUp::Entry(m.len)),
                        Err(e) => Err(BranchError::Io(e)),
                    }
                } else {
                    Ok(CopyUp::Nothing)
                }
            },
            None => Ok(CopyUp::Nothing),
        }
    }

    /// What is copied into the delta when a path is written up to byte `end` and has no delta
    /// yet.
    fn copy_for_write(&self, found: Option<Meta>, end: u64) -> (r: Result<CopyUp, BranchError>)
        ensures
            copy_view(r) == copy_for_write(self@.quota, found, end),
    {
        match found {
            Some(m) => {
                if m.kind == FileKind::File {
                    let size: u64 = if m.len < end {
                        end
                    } else {
                        m.len
                    };
                    match self.quota.check(size) {
                        Ok(()) => Ok(CopyUp::Staged),
                        Err(e) => Err(BranchError::Io(e)),
                    }
                } else if m.kind == FileKind::Symlink {
                    match self.quota.check(m.len) {
                        Ok(()) => Ok(CopyUp::Entry(m.len)),
                        Err(e) => Err(BranchError::Io(e)),
                    }
                } else {
                    Ok(CopyUp::Nothing)
                }
            },
            None => Ok(CopyUp::Nothing),
        }
    }

    /// Whether a file of `old_size` bytes may be written up to byte `end`.
    pub fn check_growth(&self, old_size: u64, end: u64) -> (r: Result<(), BranchError>)
        ensures
            r is Ok <==> (end > old_size ==> self@.quota.fits(end - old_size)),
            r matches Err(e) ==> e@ == ErrorView::Io(Errno::Enospc),
    {
        if end > old_size {
            match self.quota.check(end - old_size) {
                Ok(()) => Ok(()),
                Err(e) => Err(BranchError::Io(e)),
            }
        } else {
            Ok(())
        }
    }

    /// Counts a file that has grown; one that has shrunk or kept its size changes nothing.
    pub fn note_growth(&mut self, old_size: u64, new_size: u64)
        requires
            old(self).wf(),
        ensures
            final(self).wf(),
            final(self)@ == (ManagerView {
                quota: if new_size > old_size {
                    old(self)@.quota.after(new_size - old_size)
                } else {
                    old(self)@.quota
                },
                ..old(self)@
            }),
    {
        if new_size > old_size {
            self.quota.add(new_size - old_size);
        }
    }

    /// Counts a file that was cut or extended.
    pub fn note_resize(&mut self, old_size: u64, new_size: u64)
        requires
            old(self).wf(),
        ensures
            final(self).wf(),
            final(self)@ == (ManagerView {
                quota: if new_size == old_size {
                    old(self)@.quota
                } else {
                    old(self)@.quota.after(new_size - old_size)
                },
                ..old(self)@
            }),
    {
        if new_size > old_size {
            self.quota.add(new_size - old_size);
        } else if old_size > new_size {
            self.quota.sub(old_size - new_size);
        }
    }
}

/// The directories above a path, the nearest first, without the root.
pub open spec fn parents_of(rel: Text) -> Seq<Text>
    decreases rel.len(),
{
    let t = trim_end_slashes(rel);
    let d = trim_end_slashes(t.take(name_start(t)));
    if d.len() == 0 || d.len() >= rel.len() {
        seq![]
    } else {
        seq![d] + parents_of(d)
    }
}

/// The directories of a delta that may have become empty when `rel` was removed from it, the
/// nearest first. They are removed up to the first that is not empty.
pub fn prune_empty_delta_parents(rel: &str) -> (r: Vec<String>)
    ensures
        texts(r@) == parents_of(rel@),
    decreases rel@.len(),
{
    let t = without_trailing_slashes(rel);
    let cs = chars_of(t);
    let mut k: usize = cs.len();
    while k > 0 && cs[k - 1] != '/'
        invariant
            k <= cs@.len(),
            forall|i: int| k <= i < cs@.len() ==> #[trigger] cs@[i] != '/',
        decreases k,
    {
        k = k - 1;
    }
    proof {
        crate::staged::lemma_name_start(t@, k as int);
        assert(t@.subrange(0, k as int) =~= t@.take(k as int));
    }
    let d = without_trailing_slashes(t.substring_char(0, k));
    let len = rel.unicode_len();
    if d.is_empty() || d.unicode_len() >= len {
        let r: Vec<String> = Vec::new();
        proof {
            assert(texts(r@) =~= seq![]);
        }
        r
    } else {
        let mut out = prune_empty_delta_parents(d);
        let ghost rest = texts(out@);
        out.insert(0, d.to_owned());
        proof {
            assert(texts(out@) =~= seq![d@] + rest);
        }
        out
    }
}

/// What a branch inherited when it first touched a path stays on record: touching the path again
/// records nothing, and another record of the path changes nothing.
pub proof fn law_first_touch_stays(
    b: BranchView,
    path: Text,
    touch: FirstTouch,
    found: Option<Meta>,
    later: Option<Meta>,
    capture: bool,
    bytes: Seq<u8>,
    again: Option<FirstTouch>,
    other: TouchView,
)
    requires
        touches_first(Some(touch), b, path, found, capture, bytes),
        touches_first(again, b.touched(touch.record@), path, later, capture, bytes),
        other.path == path,
    ensures
        again is None,
        b.touched(touch.record@).touched(other) == b.touched(touch.record@),
{
}

/// A path that a branch made itself leaves no mark once it is deleted again, and the storage that
/// it took is free again.
pub proof fn law_own_path_leaves_no_mark(mv: ManagerView, name: Text, path: Text, bytes: u64)
    requires
        mv.branches.dom().contains(name),
        !mv.branches[name].tombs.contains(path),
        i64::MIN <= mv.quota.used <= i64::MAX,
    ensures
        mv.settled(name, path, Some(bytes)).erased(name, path, false, Some(bytes)) == mv,
{
    law_sub_undoes_add(mv.quota, bytes);
    let was = mv.branches[name];
    let mid = mv.settled(name, path, Some(bytes));
    let end = mid.erased(name, path, false, Some(bytes));
    assert(was.tombs.remove(path) =~= was.tombs);
    assert(mid.branches =~= mv.branches);
    assert(end.branches =~= mv.branches);
}

/// Writing a path and deleting it again marks it as deleted only where it is inherited.
pub proof fn law_delete_marks_what_is_inherited(
    mv: ManagerView,
    name: Text,
    path: Text,
    copied: Option<u64>,
    inherited: bool,
    freed: Option<u64>,
)
    requires
        mv.branches.dom().contains(name),
    ensures
        mv.settled(name, path, copied).erased(
            name,
            path,
            inherited,
            freed,
        ).branches[name].tombs.contains(path) == inherited,
{
}

/// Opening a path for writing copies the file or the link that is inherited there, if it fits
/// under the limit, and nothing of anything else. Without the room it fails for want of space.
pub proof fn law_opening_copies_what_is_inherited(q: QuotaView, found: Option<Meta>)
    ensures
        ({
            let content = found matches Some(m) && (m.kind == FileKind::File || m.kind
                == FileKind::Symlink);
            let room = q.max is None || (if q.used < 0 {
                0
            } else {
                q.used
            }) + found->0.len <= q.max->0;
            copy_for_open(q, found) == if !content {
                Ok(CopyUp::Nothing)
            } else if room {
                Ok(CopyUp::Entry(found->0.len))
            } else {
                Err(ErrorView::Io(Errno::Enospc))
            }
        }),
{
}

/// Writing up to byte `end` copies a file that is inherited to a staging path, if the file as it
/// is and as it will be fits under the limit, copies a link as it is, and nothing of anything
/// else.
pub proof fn law_writing_copies_what_is_inherited(q: QuotaView, found: Option<Meta>, end: u64)
    ensures
        ({
            let used = if q.used < 0 {
                0
            } else {
                q.used
            };
            copy_for_write(q, found, end) == match found {
                Some(m) if m.kind == FileKind::File => if q.max is None || (used + m.len
                    <= q.max->0 && used + end <= q.max->0) {
                    Ok(CopyUp::Staged)
                } else {
                    Err(ErrorView::Io(Errno::Enospc))
                },
                Some(m) if m.kind == FileKind::Symlink => if q.max is None || used + m.len
                    <= q.max->0 {
                    Ok(CopyUp::Entry(m.len))
                } else {
                    Err(ErrorView::Io(Errno::Enospc))
                },
                _ => Ok(CopyUp::Nothing),
            }
        }),
{
}

/// A write is refused exactly if it begins before the file, ends beyond what a number can say, or
/// goes to a branch that does not exist or is frozen.
pub proof fn law_writes_are_refused(m: Forest, name: Text, offset: i64, len: u64)
    ensures
        data_fault(m, name, offset, len) is None <==> 0 <= offset && offset + len <= u64::MAX
            && m.dom().contains(name) && m[name].state == BranchState::Open,
        offset < 0 ==> data_fault(m, name, offset, len) == Some(ErrorView::Io(Errno::Einval)),
        0 <= offset && offset + len <= u64::MAX && !m.dom().contains(name) ==> data_fault(
            m,
            name,
            offset,
            len,
        ) == Some(ErrorView::NotFound(name)),
        write_fault(m, name) is None <==> m.dom().contains(name) && m[name].state
            == BranchState::Open,
{
}

/// A path is written in the delta of its branch. Where the branch has a delta there already,
/// nothing is recorded and nothing is copied. Else what is inherited is recorded, unless the path
/// was touched before, and copied, unless the branch deleted the path.
pub proof fn law_paths_are_opened_in_the_delta(
    o: Opening,
    mv: ManagerView,
    name: Text,
    path: Text,
    seen: SeenView,
    copy: Result<CopyUp, ErrorView>,
)
    requires
        opens(o, mv, name, path, seen, copy),
    ensures
        o.delta@.place == PlaceView::Files(name),
        seen.has_delta ==> o.touch is None && (o.copy matches Ok(c) && c == CopyUp::Nothing),
        !seen.has_delta ==> {
            &&& o.touch is None <==> mv.branches[name].touches.dom().contains(path)
            &&& o.touch matches Some(t) ==> t.record@.path == path && t.record@.base
                == crate::records::identity_of(seen.found)
            &&& o.touch matches Some(t) ==> (t.kept_text matches Some(kept) ==> kept@ == seen.bytes)
            &&& mv.branches[name].tombs.contains(path) ==> (o.copy matches Ok(c) && c
                == CopyUp::Nothing)
            &&& !deleted(mv.branches[name].tombs, path) ==> (o.copy is Ok <==> copy is Ok) && (
            o.copy matches Ok(c) ==> c == copy->Ok_0)
        },
        o.source is Some <==> seen.source is Some,
        o.source matches Some(l) ==> l@ == seen.source->0,
{
}

/// Writing a path stops its deletion and counts what was copied; deleting it frees what its delta
/// held. Neither changes another path of the branch, another branch, or anything else.
pub proof fn law_changes_stay_at_their_path(
    mv: ManagerView,
    name: Text,
    path: Text,
    other: Text,
    copied: u64,
    inherited: bool,
)
    requires
        mv.branches.dom().contains(name),
        other != path,
        i64::MIN <= mv.quota.used - copied,
        mv.quota.used + copied <= i64::MAX,
    ensures
        ({
            let was = mv.branches[name];
            let put = mv.settled(name, path, Some(copied));
            let gone = mv.erased(name, path, inherited, Some(copied));
            &&& !put.branches[name].tombs.contains(path)
            &&& gone.branches[name].tombs.contains(path) == inherited
            &&& put.branches[name].tombs.contains(other) == was.tombs.contains(other)
            &&& gone.branches[name].tombs.contains(other) == was.tombs.contains(other)
            &&& put.quota.used == mv.quota.used + copied
            &&& gone.quota.used == mv.quota.used - copied
            &&& mv.settled(name, path, None).quota == mv.quota
            &&& mv.erased(name, path, inherited, None).quota == mv.quota
            &&& forall|k: Text|
                k != name ==> #[trigger] put.branches.dom().contains(k)
                    == mv.branches.dom().contains(k) && put.branches[k] == mv.branches[k]
            &&& forall|k: Text|
                k != name ==> #[trigger] gone.branches.dom().contains(k)
                    == mv.branches.dom().contains(k) && gone.branches[k] == mv.branches[k]
            &&& put.branches[name].touches == was.touches && gone.branches[name].touches
                == was.touches
            &&& put.branches[name].parent == was.parent && gone.branches[name].parent == was.parent
            &&& put.branches[name].state == was.state && gone.branches[name].state == was.state
            &&& put.epoch == mv.epoch && gone.epoch == mv.epoch
            &&& put.mounts == mv.mounts && gone.mounts == mv.mounts
        }),
{
}

/// The directories that are tried once a path was removed are exactly those above it.
pub proof fn law_directories_above_are_tried(rel: Text, d: Text)
    requires
        rel.len() > 0,
        rel.last() != '/',
        forall|i: int| 0 < i < rel.len() && #[trigger] rel[i] == '/' ==> rel[i - 1] != '/',
    ensures
        parents_of(rel).contains(d) <==> d.len() > 0 && d != rel && under(d, rel),
    decreases rel.len(),
{
    let k = name_start(rel);
    crate::staged::lemma_name_start_bound(rel);
    assert(trim_end_slashes(rel) == rel);
    let head = rel.take(k);
    if k == 0 {
        assert(trim_end_slashes(head) == head);
        if d != rel && under(d, rel) {
            assert(rel[d.len() as int] == d.push('/')[d.len() as int]);
        }
        assert(parents_of(rel) =~= seq![]);
    } else {
        let up = rel.take(k - 1);
        assert(head.last() == '/');
        assert(head.drop_last() =~= up);
        if k >= 2 {
            assert(rel[k - 1] == '/');
            assert(up.last() == rel[k - 2]);
        }
        assert(trim_end_slashes(up) == up);
        assert(trim_end_slashes(head) == trim_end_slashes(up));
        assert(up.push('/') =~= rel.take(k));
        if d != rel && under(d, rel) {
            let n = d.len() as int;
            assert(rel[n] == d.push('/')[n]);
            assert(n <= k - 1);
            if n == k - 1 {
                assert(d =~= up) by {
                    assert forall|i: int| 0 <= i < n implies d[i] == up[i] by {
                        assert(d.push('/')[i] == rel[i]);
                    }
                }
            } else {
                assert(d.push('/') =~= up.take(n + 1)) by {
                    assert forall|i: int| 0 <= i < n + 1 implies d.push('/')[i] == up[i] by {
                        assert(d.push('/')[i] == rel[i]);
                    }
                }
                assert(under(d, up));
            }
        }
        if k == 1 {
            assert(up =~= seq![]);
            assert(parents_of(rel) =~= seq![]);
        } else {
            assert forall|i: int| 0 < i < up.len() && #[trigger] up[i] == '/' implies up[i - 1]
                != '/' by {
                assert(rel[i] == '/');
            }
            law_directories_above_are_tried(up, d);
            let rest = parents_of(up);
            let all = parents_of(rel);
            assert(all == seq![up] + rest);
            if rest.contains(d) {
                let j = choose|j: int| 0 <= j < rest.len() && rest[j] == d;
                assert(all[j + 1] == d);
                assert(under(up, rel));
                crate::laws::lemma_under_transitive(d, up, rel);
                if d == rel {
                    assert(d.push('/').len() <= up.len());
                }
            }
            if d == up {
                assert(all[0] == d);
                assert(under(d, rel));
            }
            if all.contains(d) && d != up {
                let j = choose|j: int| 0 <= j < all.len() && all[j] == d;
                assert(rest[j - 1] == d);
            }
        }
    }
}

} // verus!
