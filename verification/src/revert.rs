//! Dropping what a branch did to a path.

use vstd::prelude::*;
use vstd::string::*;

use crate::branch::{Branch, BranchView};
use crate::errors::{BranchError, ErrorView};
use crate::journal::{
    appended, law_log_replays, log_line, one_line, stored_tombstones, tombstone_op, whole_lines,
};
use crate::laws::{clean, lemma_deleted_clean, lemma_inherited_frame, same_outside};
use crate::lookup::{inherited, law_resolution_order, resolved, rooted, Forest};
use crate::manager::{forest, BranchManager, ManagerView};
use crate::paths::{
    deleted, hidden, lies_under, located, normalize_hide_path, normalized, under, LocationView,
    PlaceView,
};
use crate::text::{texts, Text};
use crate::writes::{frozen_error, write_fault};

verus! {

/// The paths of a list that are not `p` and do not lie below it.
pub open spec fn outside(paths: Seq<Text>, p: Text) -> Seq<Text>
    decreases paths.len(),
{
    if paths.len() == 0 {
        seq![]
    } else if under(p, paths.last()) {
        outside(paths.drop_last(), p)
    } else {
        outside(paths.drop_last(), p).push(paths.last())
    }
}

/// The lines that dropping the deletions at and below `p` adds to the log.
pub open spec fn revert_lines(paths: Seq<Text>, p: Text) -> Seq<Text>
    decreases paths.len(),
{
    if paths.len() == 0 {
        seq![]
    } else if under(p, paths.last()) {
        revert_lines(paths.drop_last(), p).push(log_line(false, paths.last()))
    } else {
        revert_lines(paths.drop_last(), p)
    }
}

/// The deletions that are left once those at and below `p` are dropped.
pub open spec fn reverted(tombs: Set<Text>, p: Text) -> Set<Text> {
    tombs.filter(|t: Text| !under(p, t))
}

proof fn lemma_outside(paths: Seq<Text>, p: Text)
    requires
        paths.no_duplicates(),
    ensures
        outside(paths, p).no_duplicates(),
        forall|t: Text| #[trigger]
            outside(paths, p).contains(t) <==> paths.contains(t) && !under(p, t),
    decreases paths.len(),
{
    if paths.len() > 0 {
        let rest = paths.drop_last();
        let last = paths.last();
        assert(rest.no_duplicates());
        lemma_outside(rest, p);
        let (a, b) = (outside(rest, p), outside(paths, p));
        assert(!rest.contains(last)) by {
            if rest.contains(last) {
                let j = choose|j: int| 0 <= j < rest.len() && rest[j] == last;
                assert(paths[j] == paths[paths.len() - 1]);
            }
        }
        assert forall|t: Text| #[trigger] paths.contains(t) == (rest.contains(t) || t == last) by {
            if rest.contains(t) {
                let j = choose|j: int| 0 <= j < rest.len() && rest[j] == t;
                assert(paths[j] == t);
            }
            if t == last {
                assert(paths[paths.len() - 1] == t);
            }
            if paths.contains(t) && t != last {
                let j = choose|j: int| 0 <= j < paths.len() && paths[j] == t;
                assert(rest[j] == t);
            }
        }
        if !under(p, last) {
            assert(!a.contains(last));
            assert(b =~= a.push(last));
            assert forall|i: int, j: int|
                0 <= i < b.len() && 0 <= j < b.len() && i != j implies b[i] != b[j] by {
                if i < a.len() {
                    assert(a.contains(a[i]));
                }
                if j < a.len() {
                    assert(a.contains(a[j]));
                }
            }
            assert forall|t: Text| #[trigger] b.contains(t) == (a.contains(t) || t == last) by {
                if a.contains(t) {
                    let j = choose|j: int| 0 <= j < a.len() && a[j] == t;
                    assert(b[j] == t);
                }
                if t == last {
                    assert(b[a.len() as int] == t);
                }
                if b.contains(t) && t != last {
                    let j = choose|j: int| 0 <= j < b.len() && b[j] == t;
                    assert(a[j] == t);
                }
            }
        }
    }
}

impl Branch {
    /// Stops deleting `path` and everything below it; the result is what the log gains.
    pub fn revert_tombstones(&mut self, path: &str) -> (r: Vec<String>)
        requires
            old(self).wf(),
        ensures
            final(self).wf(),
            final(self)@ == (BranchView {
                tombs: reverted(old(self)@.tombs, path@),
                ..old(self)@
            }),
            texts(r@) == revert_lines(texts(old(self).tombstones@), path@),
    {
        let ghost all = texts(self.tombstones@);
        let mut kept: Vec<String> = Vec::new();
        let mut lines: Vec<String> = Vec::new();
        let mut i: usize = 0;
        proof {
            assert(all.take(0) =~= seq![]);
            assert(texts(kept@) =~= seq![]);
            assert(texts(lines@) =~= seq![]);
        }
        while i < self.tombstones.len()
            invariant
                i <= self.tombstones@.len(),
                *self == *old(self),
                all == texts(self.tombstones@),
                texts(kept@) == outside(all.take(i as int), path@),
                texts(lines@) == revert_lines(all.take(i as int), path@),
            decreases self.tombstones@.len() - i,
        {
            let ghost (k0, l0) = (texts(kept@), texts(lines@));
            let t = self.tombstones[i].as_str();
            proof {
                assert(all.take(i + 1).drop_last() =~= all.take(i as int));
                assert(all.take(i + 1).last() == t@);
            }
            if lies_under(path, t) {
                lines.push(tombstone_op(false, t));
                proof {
                    assert(texts(lines@) =~= l0.push(log_line(false, t@)));
                }
            } else {
                kept.push(t.to_owned());
                proof {
                    assert(texts(kept@) =~= k0.push(t@));
                }
            }
            i = i + 1;
        }
        proof {
            assert(all.take(i as int) =~= all);
            lemma_outside(all, path@);
            assert(texts(kept@).to_set() =~= reverted(self@.tombs, path@));
        }
        self.tombstones = kept;
        lines
    }
}

/// Why a path cannot be reverted, or `None` if it can.
pub open spec fn revert_fault(m: Forest, name: Text, path: Text) -> Option<ErrorView> {
    match write_fault(m, name) {
        Some(e) => Some(e),
        None => if normalized(path) is None {
            Some(ErrorView::Invalid("cannot revert the root of a branch"@))
        } else {
            None
        },
    }
}

/// A path that was reverted with everything below it, and what the log of the branch gains.
pub struct Reverted {
    pub path: String,
    pub lines: Vec<String>,
}

impl BranchManager {
    /// The path that a revert is about, if it may go ahead.
    pub fn begin_revert(&self, branch_name: &str, path: &str) -> (r: Result<String, BranchError>)
        requires
            self.wf(),
        ensures
            r is Ok <==> revert_fault(self@.branches, branch_name@, path@) is None,
            r matches Err(e) ==> Some(e@) == revert_fault(self@.branches, branch_name@, path@),
            r matches Ok(p) ==> Some(p@) == normalized(path@),
    {
        match self.branches.get(branch_name) {
            None => Err(BranchError::NotFound(branch_name.to_owned())),
            Some(branch) => {
                if !branch.is_writable() {
                    return Err(frozen_error(branch_name));
                }
                match normalize_hide_path(path) {
                    Some(p) => Ok(p),
                    None => Err(
                        BranchError::Invalid("cannot revert the root of a branch".to_owned()),
                    ),
                }
            },
        }
    }

    /// Drops the deletions of a branch at and below a path, whose delta, of `freed` bytes, goes
    /// with them.
    pub fn revert_path(&mut self, branch_name: &str, path: &str, freed: Option<u64>) -> (r: Result<
        Reverted,
        BranchError,
    >)
        requires
            old(self).wf(),
        ensures
            final(self).wf(),
            r is Ok <==> revert_fault(old(self)@.branches, branch_name@, path@) is None,
            r matches Err(e) ==> Some(e@) == revert_fault(
                old(self)@.branches,
                branch_name@,
                path@,
            ) && final(self)@ == old(self)@,
            r matches Ok(d) ==> {
                let was = old(self)@.branches[branch_name@];
                &&& Some(d.path@) == normalized(path@)
                &&& final(self)@ == (ManagerView {
                    quota: match freed {
                        Some(n) => old(self)@.quota.after(-(n as int)),
                        None => old(self)@.quota,
                    },
                    ..old(self)@.with(
                        branch_name@,
                        BranchView { tombs: reverted(was.tombs, d.path@), ..was },
                    )
                })
                &&& texts(d.lines@) == revert_lines(
                    texts(old(self).branches@[branch_name@].tombstones@),
                    d.path@,
                )
            },
    {
        let normal = match self.begin_revert(branch_name, path) {
            Ok(p) => p,
            Err(e) => {
                return Err(e);
            },
        };
        let ghost before = self.branches@;
        match self.branches.take(branch_name) {
            None => Err(BranchError::NotFound(branch_name.to_owned())),
            Some(branch) => {
                let mut branch = branch;
                let lines = branch.revert_tombstones(normal.as_str());
                let ghost changed = branch;
                let _ = self.branches.put(branch_name, branch);
                proof {
                    assert(forest(self.branches@) =~= forest(before).insert(
                        branch_name@,
                        changed@,
                    ));
                }
                if let Some(bytes) = freed {
                    self.quota.sub(bytes);
                }
                Ok(Reverted { path: normal, lines })
            },
        }
    }
}

/// A reverted path is as it is inherited again, unless a directory above it is deleted or the
/// path is hidden.
pub proof fn law_reverted_path_is_inherited(
    m: Forest,
    d: Set<LocationView>,
    d2: Set<LocationView>,
    b: Text,
    p: Text,
    q: Text,
)
    requires
        rooted(m, b),
        m.dom().contains(b),
        clean(p),
        clean(q),
        under(p, q),
        forall|t: Text| #[trigger] m[b].tombs.contains(t) ==> clean(t),
        forall|t: Text| #[trigger] m[b].tombs.contains(t) && under(t, q) ==> under(p, t),
        !hidden(m[b].hide, q),
        same_outside(d, d2, set![b]),
        d.contains(located(PlaceView::Inherited(b), q)) == d2.contains(
            located(PlaceView::Inherited(b), q),
        ),
        !d2.contains(located(PlaceView::Files(b), q)),
    ensures
        ({
            let now = BranchView { tombs: reverted(m[b].tombs, p), ..m[b] };
            resolved(m.insert(b, now), d2, b, q) == inherited(m, d, b, q)
        }),
{
    let now = BranchView { tombs: reverted(m[b].tombs, p), ..m[b] };
    let m2 = m.insert(b, now);
    lemma_inherited_frame(m, d, b, now, d2, q);
    law_resolution_order(m2, d2, b, q);
    lemma_deleted_clean(now.tombs, q);
    assert(!deleted(now.tombs, q));
}

/// Reverting a path drops exactly the deletions at it and below it.
pub proof fn law_revert_drops_what_is_below(tombs: Set<Text>, p: Text, t: Text)
    ensures
        reverted(tombs, p).contains(t) <==> tombs.contains(t) && t != p && !p.push('/').is_prefix_of(
            t,
        ),
{
}

/// The lines that a revert adds to the log have the effect that the revert has: read again, the
/// store deletes what is left.
pub proof fn law_revert_survives_restart(snapshot: Text, log: Text, paths: Seq<Text>, p: Text)
    requires
        whole_lines(log),
        paths.to_set() == stored_tombstones(snapshot, log),
        forall|i: int| 0 <= i < paths.len() ==> one_line(#[trigger] paths[i]),
    ensures
        stored_tombstones(snapshot, appended(log, revert_lines(paths, p))) == reverted(
            stored_tombstones(snapshot, log),
            p,
        ),
{
    lemma_revert_lines(snapshot, log, paths, p);
    let now = stored_tombstones(snapshot, appended(log, revert_lines(paths, p)));
    let was = stored_tombstones(snapshot, log);
    assert forall|t: Text| #[trigger] now.contains(t) == reverted(was, p).contains(t) by {
        assert(paths.to_set().contains(t) == paths.contains(t));
    }
    assert(now =~= reverted(was, p));
}

proof fn lemma_revert_lines(snapshot: Text, log: Text, paths: Seq<Text>, p: Text)
    requires
        whole_lines(log),
        forall|i: int| 0 <= i < paths.len() ==> one_line(#[trigger] paths[i]),
    ensures
        whole_lines(appended(log, revert_lines(paths, p))),
        forall|t: Text| #[trigger]
            stored_tombstones(snapshot, appended(log, revert_lines(paths, p))).contains(t)
                == (stored_tombstones(snapshot, log).contains(t) && !(paths.contains(t) && under(
                p,
                t,
            ))),
    decreases paths.len(),
{
    if paths.len() > 0 {
        let rest = paths.drop_last();
        let last = paths[paths.len() - 1];
        assert forall|i: int| 0 <= i < rest.len() implies one_line(#[trigger] rest[i]) by {
            assert(rest[i] == paths[i]);
        }
        lemma_revert_lines(snapshot, log, rest, p);
        assert(one_line(last));
        assert forall|t: Text| #[trigger] paths.contains(t) == (rest.contains(t) || t == last) by {
            if paths.contains(t) {
                let k = choose|k: int| 0 <= k < paths.len() && paths[k] == t;
                if k < rest.len() {
                    assert(rest[k] == t);
                }
            }
            if rest.contains(t) {
                let k = choose|k: int| 0 <= k < rest.len() && rest[k] == t;
                assert(paths[k] == t);
            }
            if t == last {
                assert(paths[paths.len() - 1] == t);
            }
        }
        if under(p, last) {
            let before = appended(log, revert_lines(rest, p));
            let lines = revert_lines(paths, p);
            assert(lines.drop_last() =~= revert_lines(rest, p));
            law_log_replays(snapshot, before, false, last);
        }
    }
}

} // verus!
