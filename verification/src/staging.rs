//! The staging of a commit: the steps that it takes, and that they lead where the commit leads.
//!
//! Paths are relative to the root of the destination.

use vstd::prelude::*;

use crate::commit::{CommitPlan, CopyJob, CopySource};
use crate::commit_laws::{
    carries_out, held, law_staged_merge_makes_the_commit, merged_at, spot, Files,
};
use crate::laws::{clean, lemma_clean, lemma_under_transitive, rel};
use crate::paths::{under, whole_parts, Place, PlaceView};
use crate::staged::{
    dests, discards, lemma_name_start_bound, name_start, renames, side_path, side_path_of,
    step_views, undo_all, StagedMerge, StepView,
};
use crate::staged_laws::{
    act_all, apart, at, beside, cleared, copies_to, law_publish, law_publish_leaves_no_side_files,
    law_rollback_restores, law_side_path_lies_beside, law_side_paths_are_distinct,
    lemma_apart_below, lemma_side_path, mark, publishable, separate, side, source, staged_tree,
    vacant,
};
use crate::text::{
    slash, texts, trim_end_slashes, trim_start_slashes, without_leading_slashes, Text,
};

verus! {

/// The work of staging a commit: the paths to delete and the files to copy, in order, with what
/// was found at each when its turn came.
pub struct Work {
    pub gone: Seq<Text>,
    /// Whether something stood at each path to delete.
    pub present: Seq<bool>,
    pub written: Seq<Text>,
    /// Whether a directory stood at the destination of each file.
    pub is_dir: Seq<bool>,
}

/// An entry is moved aside.
pub open spec fn aside(p: Text) -> StepView {
    StepView::Moved { trash: side_path(p, "trash"@), original: p }
}

/// A file is copied next to its destination.
pub open spec fn copied(p: Text) -> StepView {
    StepView::Copied { tmp: side_path(p, "tmp"@), dest: p }
}

impl Work {
    pub open spec fn len(self) -> nat {
        self.gone.len() + self.written.len()
    }

    /// The steps for one path: an entry to delete is moved aside if it is there; a file is copied
    /// after a directory at its destination was moved aside.
    pub open spec fn piece(self, k: int) -> Seq<StepView> {
        let b = k - self.gone.len();
        if k < self.gone.len() {
            if self.present[k] {
                seq![aside(self.gone[k])]
            } else {
                seq![]
            }
        } else if self.is_dir[b] {
            seq![aside(self.written[b]), copied(self.written[b])]
        } else {
            seq![copied(self.written[b])]
        }
    }

    /// The steps for the first `k` paths.
    pub open spec fn steps(self, k: int) -> Seq<StepView>
        decreases k,
    {
        if k <= 0 {
            seq![]
        } else {
            self.steps(k - 1) + self.piece(k - 1)
        }
    }

    /// Whether what was found at path `k` is what stood there: in the tree `t` that the steps
    /// before it have left.
    pub open spec fn found<N>(self, t: Map<Text, N>, k: int) -> bool {
        if k < self.gone.len() {
            !vacant(t, self.gone[k]) ==> self.present[k]
        } else {
            has_below(t, self.written[k - self.gone.len()]) ==> self.is_dir[k - self.gone.len()]
        }
    }

    pub open spec fn found_all<N>(self, tree: Map<Text, N>, nodes: Seq<N>) -> bool {
        forall|k: int|
            0 <= k < self.len() ==> self.found(
                #[trigger] staged_tree(tree, self.steps(k), nodes),
                k,
            )
    }
}

/// Whether something lies below a path.
pub open spec fn has_below<N>(t: Map<Text, N>, p: Text) -> bool {
    exists|q: Text| #[trigger] t.dom().contains(q) && under(p, q) && q != p
}

/// Whether the work of a commit can be staged without one path getting in the way of another: no
/// path is a side file of it or lies below one, no path is deleted twice, the files lie apart from
/// each other, and where an entry was moved aside no directory stands when a file is copied there.
pub open spec fn tidy(w: Work) -> bool {
    let steps = w.steps(w.len() as int);
    &&& w.present.len() == w.gone.len()
    &&& w.is_dir.len() == w.written.len()
    &&& forall|i: int|
        0 <= i < w.gone.len() ==> whole_parts(#[trigger] w.gone[i]) && beside(steps, w.gone[i])
    &&& forall|i: int|
        0 <= i < w.written.len() ==> whole_parts(#[trigger] w.written[i]) && beside(
            steps,
            w.written[i],
        )
    &&& w.gone.no_duplicates()
    &&& forall|i: int, j: int|
        0 <= i < w.written.len() && 0 <= j < w.written.len() && i != j ==> apart(
            #[trigger] w.written[i],
            #[trigger] w.written[j],
        )
    &&& forall|i: int, j: int|
        0 <= i < w.gone.len() && 0 <= j < w.written.len() && #[trigger] w.gone[i]
            == #[trigger] w.written[j] && w.present[i] ==> !w.is_dir[j]
}

/// The paths to delete at which something stood, in order.
pub open spec fn moved_away(gone: Seq<Text>, present: Seq<bool>) -> Seq<Text>
    decreases present.len(),
{
    if present.len() == 0 {
        seq![]
    } else {
        let before = moved_away(gone, present.drop_last());
        if present.last() {
            before.push(gone[present.len() - 1])
        } else {
            before
        }
    }
}

/// A commit that is being staged.
pub struct Staging {
    pub plan: CommitPlan,
    pub merge: StagedMerge,
    /// Whether something stood at each path to delete whose turn is over.
    pub present: Vec<bool>,
    /// Whether a directory stood at the destination of each file whose turn is over.
    pub is_dir: Vec<bool>,
    /// Whether a directory at the destination of the next file was moved aside.
    pub way_cleared: bool,
}

/// What comes next in the staging of a commit.
pub enum Task {
    /// Move an entry aside, if there is one at the path. What stands at the side path goes first.
    Delete { path: String, trash: String },
    /// Move a directory aside, if there is one at the path, and copy a file next to the path. What
    /// stands at the side paths goes first.
    Copy { path: String, trash: String, source: CopySource, tmp: String },
    /// Nothing is left to stage.
    Publish,
}

/// The paths of the first `k` files to copy.
pub open spec fn copied_paths(copies: Seq<CopyJob>, k: int) -> Seq<Text> {
    copies.take(k).map_values(|j: CopyJob| j.rel_path@)
}

impl Staging {
    /// The work that is done so far, and that is left.
    pub open spec fn work(self) -> Work {
        Work {
            gone: texts(self.plan.deletes@),
            present: self.present@,
            written: self.plan.copies@.map_values(|j: CopyJob| trim_start_slashes(j.rel_path@)),
            is_dir: self.is_dir@,
        }
    }

    /// How many paths are done.
    pub open spec fn done(self) -> int {
        (self.present@.len() + self.is_dir@.len()) as int
    }

    pub open spec fn wf(self) -> bool {
        &&& self.present@.len() <= self.plan.deletes@.len()
        &&& self.is_dir@.len() <= self.plan.copies@.len()
        &&& self.is_dir@.len() > 0 || self.way_cleared ==> self.present@.len()
            == self.plan.deletes@.len()
        &&& self.way_cleared ==> self.is_dir@.len() < self.plan.copies@.len()
        &&& step_views(self.merge.steps@) == self.work().steps(self.done()) + if self.way_cleared {
            seq![aside(self.work().written[self.is_dir@.len() as int])]
        } else {
            seq![]
        }
        &&& texts(self.merge.merged@) == copied_paths(self.plan.copies@, self.is_dir@.len() as int)
    }

    /// A commit of which nothing is staged yet.
    pub fn start(plan: CommitPlan) -> (r: Staging)
        ensures
            r.wf(),
            r.plan == plan,
            r.done() == 0,
            !r.way_cleared,
            r.merge.bytes == 0,
    {
        let r = Staging {
            plan,
            merge: StagedMerge::new(),
            present: Vec::new(),
            is_dir: Vec::new(),
            way_cleared: false,
        };
        proof {
            assert(step_views(r.merge.steps@) =~= r.work().steps(0) + seq![]);
            assert(texts(r.merge.merged@) =~= copied_paths(plan.copies@, 0));
        }
        r
    }

    /// What comes next.
    pub fn next(&self) -> (r: Task)
        requires
            self.wf(),
        ensures
            match r {
                Task::Delete { path, trash } => {
                    &&& self.present@.len() < self.plan.deletes@.len()
                    &&& path@ == self.work().gone[self.present@.len() as int]
                    &&& trash@ == side_path(path@, "trash"@)
                },
                Task::Copy { path, trash, source, tmp } => {
                    &&& self.present@.len() == self.plan.deletes@.len()
                    &&& self.is_dir@.len() < self.plan.copies@.len()
                    &&& path@ == self.work().written[self.is_dir@.len() as int]
                    &&& trash@ == side_path(path@, "trash"@)
                    &&& source@ == self.plan.copies@[self.is_dir@.len() as int].source@
                    &&& tmp@ == side_path(path@, "tmp"@)
                },
                Task::Publish => self.done() == self.work().len() && !self.way_cleared
                    && step_views(self.merge.steps@) == self.work().steps(self.done()),
            },
    {
        if self.present.len() < self.plan.deletes.len() {
            let path = self.plan.deletes[self.present.len()].clone();
            let trash = side_path_of(path.as_str(), "trash");
            return Task::Delete { path, trash };
        }
        if self.is_dir.len() < self.plan.copies.len() {
            let job = &self.plan.copies[self.is_dir.len()];
            let path = without_leading_slashes(job.rel_path.as_str()).to_owned();
            let trash = side_path_of(path.as_str(), "trash");
            let tmp = side_path_of(path.as_str(), "tmp");
            return Task::Copy { path, trash, source: job.source.duplicate(), tmp };
        }
        proof {
            assert(self.work().steps(self.done()) + seq![] =~= self.work().steps(self.done()));
        }
        Task::Publish
    }

    /// Records the deletion of the next path: `present` tells whether something stood there and
    /// was moved aside.
    pub fn deleted(&mut self, present: bool)
        requires
            old(self).wf(),
            old(self).present@.len() < old(self).plan.deletes@.len(),
        ensures
            final(self).wf(),
            final(self).plan == old(self).plan,
            final(self).present@ == old(self).present@.push(present),
            final(self).is_dir@ == old(self).is_dir@,
            final(self).way_cleared == old(self).way_cleared,
            final(self).merge.bytes == old(self).merge.bytes,
    {
        let ghost was = *self;
        let ghost k = self.done();
        let path = self.plan.deletes[self.present.len()].clone();
        if present {
            self.merge.stage_delete(path.as_str());
        }
        self.present.push(present);
        proof {
            let w = self.work();
            assert(w.gone[k] == path@);
            lemma_same_steps(was.work(), w, k);
            assert(w.steps(k + 1) == w.steps(k) + w.piece(k));
            assert(step_views(self.merge.steps@) =~= w.steps(k + 1) + seq![]);
        }
    }

    /// Records that a directory at the destination of the next file was moved aside.
    pub fn cleared_way(&mut self)
        requires
            old(self).wf(),
            old(self).present@.len() == old(self).plan.deletes@.len(),
            old(self).is_dir@.len() < old(self).plan.copies@.len(),
            !old(self).way_cleared,
        ensures
            final(self).wf(),
            final(self).plan == old(self).plan,
            final(self).present@ == old(self).present@,
            final(self).is_dir@ == old(self).is_dir@,
            final(self).way_cleared,
            final(self).merge.bytes == old(self).merge.bytes,
    {
        let ghost was = *self;
        let ghost steps = self.work().steps(self.done());
        let job = &self.plan.copies[self.is_dir.len()];
        let path = without_leading_slashes(job.rel_path.as_str()).to_owned();
        self.merge.stage_delete(path.as_str());
        self.way_cleared = true;
        proof {
            assert(self.work() == was.work());
            assert(self.work().written[self.is_dir@.len() as int] == path@);
            assert(step_views(self.merge.steps@) =~= steps + seq![aside(path@)]);
        }
    }

    /// Records that the next file, of `len` bytes, was copied next to its destination.
    pub fn copied(&mut self, len: u64)
        requires
            old(self).wf(),
            old(self).present@.len() == old(self).plan.deletes@.len(),
            old(self).is_dir@.len() < old(self).plan.copies@.len(),
            old(self).merge.bytes + len <= u64::MAX,
        ensures
            final(self).wf(),
            final(self).plan == old(self).plan,
            final(self).present@ == old(self).present@,
            final(self).is_dir@ == old(self).is_dir@.push(old(self).way_cleared),
            !final(self).way_cleared,
            final(self).merge.bytes == old(self).merge.bytes + len,
    {
        let ghost was = *self;
        let ghost k = self.done();
        let ghost b = self.is_dir@.len() as int;
        let job = &self.plan.copies[self.is_dir.len()];
        let path = job.rel_path.clone();
        self.merge.stage_copy(path.as_str(), len);
        self.is_dir.push(self.way_cleared);
        self.way_cleared = false;
        proof {
            let w = self.work();
            let d = w.written[b];
            assert(d == trim_start_slashes(path@));
            lemma_same_steps(was.work(), w, k);
            assert(w.steps(k + 1) == w.steps(k) + w.piece(k));
            assert(step_views(self.merge.steps@) =~= step_views(was.merge.steps@).push(copied(d)));
            assert(step_views(self.merge.steps@) =~= w.steps(k + 1) + seq![]);
            assert(copied_paths(self.plan.copies@, b + 1) =~= copied_paths(
                self.plan.copies@,
                b,
            ).push(path@));
        }
    }

    /// The paths that were taken out of the delta of the parent, so that directories above them
    /// may have become empty. None are where the commit goes into the base.
    pub fn emptied(&self) -> (r: Vec<String>)
        requires
            self.wf(),
        ensures
            texts(r@) == if self.plan.root@ == PlaceView::Base {
                Seq::<Text>::empty()
            } else {
                moved_away(self.work().gone, self.present@)
            },
    {
        let mut out: Vec<String> = Vec::new();
        proof {
            assert(texts(out@) =~= seq![]);
        }
        if let Place::Base = self.plan.root {
            return out;
        }
        let ghost gone = self.work().gone;
        let mut i: usize = 0;
        proof {
            assert(self.present@.take(0) =~= seq![]);
        }
        while i < self.present.len()
            invariant
                i <= self.present@.len(),
                self.wf(),
                gone == self.work().gone,
                texts(out@) == moved_away(gone, self.present@.take(i as int)),
            decreases self.present@.len() - i,
        {
            let ghost before = texts(out@);
            proof {
                let now = self.present@.take(i + 1);
                assert(now.drop_last() =~= self.present@.take(i as int));
                assert(now.last() == self.present@[i as int]);
                assert(gone[i as int] == self.plan.deletes@[i as int]@);
            }
            if self.present[i] {
                out.push(self.plan.deletes[i].clone());
                proof {
                    assert(texts(out@) =~= before.push(gone[i as int]));
                }
            }
            i = i + 1;
        }
        proof {
            assert(self.present@.take(i as int) =~= self.present@);
        }
        out
    }
}

/// The steps for the first paths depend on what was found at these alone.
proof fn lemma_same_steps(a: Work, b: Work, k: int)
    requires
        a.gone == b.gone,
        a.written == b.written,
        forall|i: int| 0 <= i < k && i < a.gone.len() ==> a.present[i] == b.present[i],
        forall|i: int| 0 <= i < k - a.gone.len() ==> a.is_dir[i] == b.is_dir[i],
    ensures
        a.steps(k) == b.steps(k),
    decreases k,
{
    if k > 0 {
        lemma_same_steps(a, b, k - 1);
        assert(a.piece(k - 1) == b.piece(k - 1));
    }
}

/// The path that a step is about.
pub open spec fn subject(s: StepView) -> Text {
    match s {
        StepView::Moved { original, .. } => original,
        StepView::Copied { dest, .. } => dest,
    }
}

/// Whether the first `k` paths hold `p` as one that was deleted and there.
spec fn was_deleted(w: Work, k: int, p: Text) -> bool {
    exists|a: int| 0 <= a < k && a < w.gone.len() && w.present[a] && #[trigger] w.gone[a] == p
}

/// Whether the first `k` paths hold `p` as a file whose destination was a directory.
spec fn was_in_the_way(w: Work, k: int, p: Text) -> bool {
    exists|b: int|
        0 <= b < k - w.gone.len() && b < w.written.len() && w.is_dir[b] && #[trigger] w.written[b]
            == p
}

/// Whether the first `k` paths hold `p` as a file.
spec fn was_written(w: Work, k: int, p: Text) -> bool {
    exists|b: int| 0 <= b < k - w.gone.len() && b < w.written.len() && #[trigger] w.written[b] == p
}

spec fn shaped(w: Work, k: int, s: StepView) -> bool {
    match s {
        StepView::Moved { original, .. } => s == aside(original) && (was_deleted(w, k, original)
            || was_in_the_way(w, k, original)),
        StepView::Copied { dest, .. } => s == copied(dest) && was_written(w, k, dest),
    }
}

/// Whether two steps, the first before the second, are not about the same thing, and a directory
/// that is moved aside after a copy is not the one that the copy goes to.
spec fn in_order(w: Work, k: int, s: StepView, t: StepView) -> bool {
    match (s, t) {
        (StepView::Moved { .. }, StepView::Copied { .. }) => true,
        (StepView::Copied { .. }, StepView::Moved { .. }) => subject(s) != subject(t)
            && was_in_the_way(w, k, subject(t)),
        _ => subject(s) != subject(t),
    }
}

proof fn lemma_later(w: Work, k: int, n: int, p: Text)
    requires
        k <= n,
    ensures
        was_deleted(w, k, p) ==> was_deleted(w, n, p),
        was_in_the_way(w, k, p) ==> was_in_the_way(w, n, p),
        was_written(w, k, p) ==> was_written(w, n, p),
{
    if was_deleted(w, k, p) {
        let a = choose|a: int|
            0 <= a < k && a < w.gone.len() && w.present[a] && #[trigger] w.gone[a] == p;
        assert(w.gone[a] == p);
    }
    if was_in_the_way(w, k, p) {
        let b = choose|b: int|
            0 <= b < k - w.gone.len() && b < w.written.len() && w.is_dir[b]
                && #[trigger] w.written[b] == p;
        assert(w.written[b] == p);
    }
    if was_written(w, k, p) {
        let b = choose|b: int|
            0 <= b < k - w.gone.len() && b < w.written.len() && #[trigger] w.written[b] == p;
        assert(w.written[b] == p);
    }
}

/// The steps are about the paths of the work, each once.
proof fn lemma_shape(w: Work, k: int)
    requires
        tidy(w),
        0 <= k <= w.len(),
    ensures
        forall|i: int| 0 <= i < w.steps(k).len() ==> shaped(w, k, #[trigger] w.steps(k)[i]),
        forall|i: int, j: int|
            0 <= i < j < w.steps(k).len() ==> in_order(
                w,
                k,
                #[trigger] w.steps(k)[i],
                #[trigger] w.steps(k)[j],
            ),
    decreases k,
{
    if k > 0 {
        lemma_shape(w, k - 1);
        let old = w.steps(k - 1);
        let more = w.piece(k - 1);
        let all = w.steps(k);
        assert(all == old + more);
        let g = w.gone.len() as int;
        let b = k - 1 - g;
        if k - 1 < g {
            assert(w.gone[k - 1] == w.gone[k - 1]);
        } else {
            assert(w.written[b] == w.written[b]);
        }
        assert forall|i: int| 0 <= i < all.len() implies shaped(w, k, #[trigger] all[i]) by {
            if i < old.len() {
                assert(all[i] == old[i]);
                assert(shaped(w, k - 1, old[i]));
                lemma_later(w, k - 1, k, subject(all[i]));
            } else {
                assert(all[i] == more[i - old.len()]);
                if k - 1 < g {
                    assert(was_deleted(w, k, w.gone[k - 1]));
                } else {
                    assert(was_written(w, k, w.written[b]));
                    if w.is_dir[b] {
                        assert(was_in_the_way(w, k, w.written[b]));
                    }
                }
            }
        }
        assert forall|i: int, j: int| 0 <= i < j < all.len() implies in_order(
            w,
            k,
            #[trigger] all[i],
            #[trigger] all[j],
        ) by {
            if j < old.len() {
                assert(all[i] == old[i] && all[j] == old[j]);
                assert(in_order(w, k - 1, old[i], old[j]));
                lemma_later(w, k - 1, k, subject(all[j]));
            } else {
                assert(all[j] == more[j - old.len()]);
                if i < old.len() {
                    assert(all[i] == old[i]);
                    assert(shaped(w, k - 1, old[i]));
                    lemma_against_old(w, k - 1, old[i]);
                    if k - 1 >= g && w.is_dir[b] {
                        assert(was_in_the_way(w, k, w.written[b]));
                    }
                } else {
                    assert(all[i] == more[i - old.len()]);
                }
            }
        }
    }
}

/// An earlier step is about another path than the next one, unless it cleared the way for it.
proof fn lemma_against_old(w: Work, k: int, s: StepView)
    requires
        tidy(w),
        0 <= k < w.len(),
        shaped(w, k, s),
    ensures
        k < w.gone.len() ==> s is Moved && subject(s) != w.gone[k],
        k >= w.gone.len() && s is Copied ==> subject(s) != w.written[k - w.gone.len()],
        k >= w.gone.len() && w.is_dir[k - w.gone.len()] ==> subject(s) != w.written[k
            - w.gone.len()],
{
    let g = w.gone.len() as int;
    let p = subject(s);
    if k < g {
        assert(!was_written(w, k, p));
        assert(!was_in_the_way(w, k, p));
        let a = choose|a: int|
            0 <= a < k && a < w.gone.len() && w.present[a] && #[trigger] w.gone[a] == p;
        assert(w.gone[a] != w.gone[k]);
    } else {
        let d = w.written[k - g];
        assert(under(d, d));
        if was_deleted(w, k, p) && w.is_dir[k - g] && p == d {
            let a = choose|a: int|
                0 <= a < k && a < w.gone.len() && w.present[a] && #[trigger] w.gone[a] == p;
            assert(w.gone[a] == w.written[k - g]);
        }
        if was_written(w, k, p) {
            let b = choose|b: int|
                0 <= b < k - w.gone.len() && b < w.written.len() && #[trigger] w.written[b] == p;
            assert(apart(w.written[b], w.written[k - g]));
        }
        if was_in_the_way(w, k, p) {
            let b = choose|b: int|
                0 <= b < k - w.gone.len() && b < w.written.len() && w.is_dir[b]
                    && #[trigger] w.written[b] == p;
            assert(apart(w.written[b], w.written[k - g]));
        }
    }
}

/// Whether a tag is one that marks side files.
spec fn side_tag(tag: Text) -> bool {
    tag == "tmp"@ || tag == "trash"@
}

proof fn lemma_side_tag(tag: Text)
    requires
        side_tag(tag),
    ensures
        !tag.contains('/'),
{
    reveal_strlit("tmp");
    reveal_strlit("trash");
}

proof fn lemma_whole_ends(p: Text)
    requires
        whole_parts(p),
    ensures
        trim_end_slashes(p) == p,
{
    assert(!slash()(p.last()));
}

/// What lies above a side file lies above the path that it stands for.
proof fn lemma_above_side(s: Text, p: Text, tag: Text)
    requires
        whole_parts(p),
        side_tag(tag),
        under(s, side_path(p, tag)),
        s != side_path(p, tag),
    ensures
        under(s, p),
        s != p,
{
    lemma_whole_ends(p);
    lemma_side_tag(tag);
    lemma_side_path(p, tag);
    lemma_name_start_bound(p);
    let f = side_path(p, tag);
    lemma_name_start_bound(f);
    let k = name_start(p);
    let t = s.push('/');
    assert(t[s.len() as int] == f[s.len() as int]);
    assert(s.len() < k);
    assert(t =~= p.take(t.len() as int)) by {
        assert forall|i: int| 0 <= i < t.len() implies t[i] == p[i] by {
            assert(t[i] == f[i]);
            assert(f[i] == p[i]);
        }
    }
}

/// A side file lies below every directory that the path that it stands for lies below.
proof fn lemma_below_side(t: Text, p: Text, tag: Text)
    requires
        whole_parts(p),
        side_tag(tag),
        under(t, p),
        t != p,
    ensures
        under(t, side_path(p, tag)),
{
    lemma_whole_ends(p);
    lemma_side_tag(tag);
    lemma_side_path(p, tag);
    lemma_name_start_bound(p);
    let f = side_path(p, tag);
    let k = name_start(p);
    let u = t.push('/');
    assert(u[t.len() as int] == p[t.len() as int]);
    assert(t.len() < k);
    assert(u =~= f.take(u.len() as int)) by {
        assert forall|i: int| 0 <= i < u.len() implies u[i] == f[i] by {
            assert(u[i] == p[i]);
        }
    }
}

/// The side files of different paths, or of one path for different uses, lie apart.
proof fn lemma_sides_apart(a: Text, ta: Text, b: Text, tb: Text)
    requires
        whole_parts(a),
        whole_parts(b),
        !under(side_path(a, ta), b),
        !under(side_path(b, tb), a),
        side_tag(ta),
        side_tag(tb),
        a != b || ta != tb,
    ensures
        apart(side_path(a, ta), side_path(b, tb)),
{
    let (x, y) = (side_path(a, ta), side_path(b, tb));
    lemma_whole_ends(a);
    lemma_whole_ends(b);
    lemma_side_tag(ta);
    lemma_side_tag(tb);
    if x == y {
        if ta == tb {
            law_side_paths_are_distinct(a, b, ta);
        } else {
            reveal_strlit("tmp");
            reveal_strlit("trash");
            reveal_strlit(".branchfs-");
            lemma_side_path(a, ta);
            lemma_side_path(b, tb);
            lemma_name_start_bound(a);
            lemma_name_start_bound(b);
            let k = name_start(a);
            assert(name_start(b) == k);
            assert(x[k + 11] == mark(ta)[11]);
            assert(y[k + 11] == mark(tb)[11]);
            assert(mark(ta)[11] == ta[1]);
            assert(mark(tb)[11] == tb[1]);
        }
    }
    if under(x, y) {
        lemma_above_side(x, b, tb);
    }
    if under(y, x) {
        lemma_above_side(y, a, ta);
    }
}

/// The tag of the side file of a step.
spec fn tag_of(s: StepView) -> Text {
    match s {
        StepView::Moved { .. } => "trash"@,
        StepView::Copied { .. } => "tmp"@,
    }
}

/// Whether the side file of each step is the one for its path, no path is a side file, and the
/// side files lie apart.
spec fn well_placed(steps: Seq<StepView>) -> bool {
    &&& forall|i: int|
        0 <= i < steps.len() ==> {
            let s = #[trigger] steps[i];
            &&& side(s) == side_path(subject(s), tag_of(s))
            &&& whole_parts(subject(s))
            &&& beside(steps, subject(s))
        }
    &&& separate(steps)
}

proof fn lemma_well_placed(w: Work)
    requires
        tidy(w),
    ensures
        well_placed(w.steps(w.len() as int)),
{
    let k = w.len() as int;
    let steps = w.steps(k);
    lemma_shape(w, k);
    reveal_strlit("tmp");
    reveal_strlit("trash");
    assert("tmp"@.len() != "trash"@.len());
    assert forall|i: int| 0 <= i < steps.len() implies {
        let s = #[trigger] steps[i];
        &&& side(s) == side_path(subject(s), tag_of(s))
        &&& whole_parts(subject(s))
        &&& beside(steps, subject(s))
    } by {
        assert(shaped(w, k, steps[i]));
    }
    assert forall|i: int, j: int| 0 <= i < j < steps.len() implies apart(
        side(#[trigger] steps[i]),
        side(#[trigger] steps[j]),
    ) by {
        let (s, t) = (steps[i], steps[j]);
        assert(in_order(w, k, s, t));
        lemma_sides_apart(subject(s), tag_of(s), subject(t), tag_of(t));
    }
    assert forall|i: int| 0 <= i < steps.len() && #[trigger] steps[i] is Moved implies apart(
        side(steps[i]),
        steps[i]->original,
    ) by {
        let s = steps[i];
        lemma_whole_ends(subject(s));
        lemma_side_tag(tag_of(s));
        law_side_path_lies_beside(subject(s), tag_of(s));
    }
}

proof fn lemma_cleared_later(steps: Seq<StepView>, i: int, n: int, p: Text)
    requires
        0 <= i <= n <= steps.len(),
        cleared(steps.take(i), p),
    ensures
        cleared(steps.take(n), p),
{
    let j = choose|j: int|
        0 <= j < i && #[trigger] steps.take(i)[j] is Moved && under(steps.take(i)[j]->original, p);
    assert(steps.take(n)[j] == steps.take(i)[j]);
}

/// What was there stays where it is until it is moved aside.
proof fn lemma_kept<N>(
    tree: Map<Text, N>,
    steps: Seq<StepView>,
    nodes: Seq<N>,
    i: int,
    p: Text,
)
    requires
        0 <= i <= steps.len(),
        well_placed(steps),
        tree.dom().contains(p),
        beside(steps, p),
    ensures
        staged_tree(tree, steps.take(i), nodes).dom().contains(p) || cleared(steps.take(i), p),
    decreases i,
{
    if i == 0 {
        assert(steps.take(0) =~= seq![]);
    } else {
        lemma_kept(tree, steps, nodes, i - 1, p);
        let sub = steps.take(i);
        assert(sub.drop_last() =~= steps.take(i - 1));
        let s = steps[i - 1];
        assert(sub.last() == s);
        if cleared(steps.take(i - 1), p) {
            lemma_cleared_later(steps, i - 1, i, p);
        } else {
            assert(!under(side(s), p));
            if s is Moved && under(subject(s), p) {
                assert(sub[i - 1] is Moved && under(sub[i - 1]->original, p));
            }
        }
    }
}

/// Whether something stands at a path or below it, where no step from the `i`th on discards it.
spec fn occupied_from<N>(tree: Map<Text, N>, steps: Seq<StepView>, i: int, t: Text) -> bool {
    exists|q: Text|
        #[trigger] under(t, q) && tree.dom().contains(q) && (forall|j: int|
            i <= j < steps.len() ==> !under(side(#[trigger] steps[j]), q))
}

/// A path that something stood at is not vacant until it is moved aside itself: what is moved
/// aside below it stays below it.
proof fn lemma_still_occupied<N>(
    tree: Map<Text, N>,
    steps: Seq<StepView>,
    nodes: Seq<N>,
    i: int,
    t: Text,
)
    requires
        0 <= i <= steps.len(),
        well_placed(steps),
        occupied_from(tree, steps, 0, t),
    ensures
        cleared(steps.take(i), t) || occupied_from(
            staged_tree(tree, steps.take(i), nodes),
            steps,
            i,
            t,
        ),
    decreases i,
{
    if i == 0 {
        assert(steps.take(0) =~= seq![]);
    } else {
        lemma_still_occupied(tree, steps, nodes, i - 1, t);
        let sub = steps.take(i);
        assert(sub.drop_last() =~= steps.take(i - 1));
        let s = steps[i - 1];
        assert(sub.last() == s);
        let was = staged_tree(tree, steps.take(i - 1), nodes);
        let now = staged_tree(tree, sub, nodes);
        if cleared(steps.take(i - 1), t) {
            lemma_cleared_later(steps, i - 1, i, t);
        } else {
            let q = choose|q: Text|
                #[trigger] under(t, q) && was.dom().contains(q) && (forall|j: int|
                    i - 1 <= j < steps.len() ==> !under(side(#[trigger] steps[j]), q));
            assert(!under(side(s), q));
            match s {
                StepView::Copied { tmp, .. } => {
                    assert(now.dom().contains(q));
                    assert(under(t, q));
                },
                StepView::Moved { trash, original } => {
                    if !under(original, q) {
                        assert(now.dom().contains(q));
                        assert(under(t, q));
                    } else if under(original, t) {
                        assert(sub[i - 1] is Moved && under(sub[i - 1]->original, t));
                    } else {
                        if !under(t, original) {
                            lemma_apart_below(original, t, q);
                        }
                        assert(t != original) by {
                            assert(under(t, t));
                        }
                        lemma_below_side(t, original, "trash"@);
                        let r = trash + q.skip(original.len() as int);
                        lemma_moved_below(original, trash, q);
                        lemma_under_transitive(t, trash, r);
                        assert(now.dom().contains(r));
                        assert(under(t, r));
                        assert forall|j: int| i <= j < steps.len() implies !under(
                            side(#[trigger] steps[j]),
                            r,
                        ) by {
                            assert(apart(side(steps[i - 1]), side(steps[j])));
                            lemma_apart_below(trash, side(steps[j]), r);
                        }
                    }
                },
            }
        }
    }
}

proof fn lemma_moved_below(from: Text, to: Text, q: Text)
    requires
        under(from, q),
    ensures
        under(to, to + q.skip(from.len() as int)),
        source(from, to, to + q.skip(from.len() as int)) == q,
{
    let r = to + q.skip(from.len() as int);
    let f = from.push('/');
    assert(r.skip(to.len() as int) =~= q.skip(from.len() as int));
    if q == from {
        assert(r =~= to);
        assert(source(from, to, r) =~= q);
    } else {
        assert(f =~= q.take(f.len() as int));
        assert(q[from.len() as int] == '/') by {
            assert(f[from.len() as int] == q[from.len() as int]);
        }
        assert(to.push('/') =~= r.take(to.len() as int + 1));
        assert(source(from, to, r) =~= q) by {
            assert forall|i: int| 0 <= i < from.len() implies from[i] == q[i] by {
                assert(f[i] == q[i]);
            }
        }
    }
}

/// The steps for the first paths come first.
proof fn lemma_steps_prefix(w: Work, k: int, n: int)
    requires
        0 <= k <= n,
    ensures
        w.steps(k).len() <= w.steps(n).len(),
        w.steps(k) == w.steps(n).take(w.steps(k).len() as int),
    decreases n - k,
{
    if k < n {
        lemma_steps_prefix(w, k, n - 1);
        assert(w.steps(k) =~= w.steps(n).take(w.steps(k).len() as int));
    } else {
        assert(w.steps(k) =~= w.steps(n).take(w.steps(k).len() as int));
    }
}

/// A step of one path is one of the steps.
proof fn lemma_step_of_piece(w: Work, k: int, n: int, s: StepView)
    requires
        0 <= k < n,
        w.piece(k).contains(s),
    ensures
        exists|i: int| 0 <= i < w.steps(n).len() && #[trigger] w.steps(n)[i] == s,
{
    let j = choose|j: int| 0 <= j < w.piece(k).len() && w.piece(k)[j] == s;
    lemma_steps_prefix(w, k + 1, n);
    let i = w.steps(k).len() + j;
    assert(w.steps(k + 1) == w.steps(k) + w.piece(k));
    assert(w.steps(k + 1)[i] == s);
    assert(w.steps(n)[i] == s);
}

/// A path to delete was moved aside, or nothing but side files stood at it.
proof fn lemma_gone<N>(tree: Map<Text, N>, w: Work, nodes: Seq<N>, a: int, q: Text)
    requires
        tidy(w),
        w.found_all(tree, nodes),
        0 <= a < w.gone.len(),
        tree.dom().contains(q),
        under(w.gone[a], q),
        beside(w.steps(w.len() as int), q),
    ensures
        cleared(w.steps(w.len() as int), w.gone[a]),
{
    let n = w.len() as int;
    let steps = w.steps(n);
    let t = w.gone[a];
    if w.present[a] {
        assert(w.piece(a)[0] == aside(t));
        lemma_step_of_piece(w, a, n, aside(t));
        let i = choose|i: int| 0 <= i < steps.len() && #[trigger] steps[i] == aside(t);
        assert(steps[i] is Moved && under(steps[i]->original, t));
    } else {
        lemma_well_placed(w);
        lemma_steps_prefix(w, a, n);
        let m = w.steps(a).len() as int;
        assert(occupied_from(tree, steps, 0, t)) by {
            assert(under(t, q));
        }
        lemma_still_occupied(tree, steps, nodes, m, t);
        assert(w.found(staged_tree(tree, w.steps(a), nodes), a));
        assert(cleared(steps.take(m), t));
        lemma_cleared_later(steps, m, steps.len() as int, t);
        assert(steps.take(steps.len() as int) =~= steps);
    }
}

/// What lay below the destination of a file was moved aside.
proof fn lemma_way_cleared<N>(tree: Map<Text, N>, w: Work, nodes: Seq<N>, b: int, p: Text)
    requires
        tidy(w),
        w.found_all(tree, nodes),
        0 <= b < w.written.len(),
        tree.dom().contains(p),
        under(w.written[b], p),
        p != w.written[b],
        beside(w.steps(w.len() as int), p),
    ensures
        cleared(w.steps(w.len() as int), p),
{
    let n = w.len() as int;
    let k = w.gone.len() + b;
    let steps = w.steps(n);
    let d = w.written[b];
    if w.is_dir[b] {
        assert(w.piece(k)[0] == aside(d));
        lemma_step_of_piece(w, k, n, aside(d));
        let i = choose|i: int| 0 <= i < steps.len() && #[trigger] steps[i] == aside(d);
        assert(steps[i] is Moved && under(steps[i]->original, p));
    } else {
        lemma_well_placed(w);
        lemma_steps_prefix(w, k, n);
        let m = w.steps(k).len() as int;
        let t = staged_tree(tree, w.steps(k), nodes);
        lemma_kept(tree, steps, nodes, m, p);
        assert(w.found(t, k));
        assert(!has_below(t, d));
        assert(!t.dom().contains(p));
        lemma_cleared_later(steps, m, steps.len() as int, p);
        assert(steps.take(steps.len() as int) =~= steps);
    }
}

/// The steps of tidy work can be undone and can be published.
proof fn lemma_publishable<N>(tree: Map<Text, N>, w: Work, nodes: Seq<N>)
    requires
        tidy(w),
        w.found_all(tree, nodes),
    ensures
        publishable(tree, w.steps(w.len() as int)),
{
    let n = w.len() as int;
    let steps = w.steps(n);
    lemma_well_placed(w);
    lemma_shape(w, n);
    assert forall|i: int, j: int|
        0 <= i < j < steps.len() && #[trigger] steps[i] is Copied && #[trigger] steps[j] is Moved
            implies !under(steps[j]->original, side(steps[i])) by {
        assert(in_order(w, n, steps[i], steps[j]));
        assert(shaped(w, n, steps[i]));
        let (d, o) = (subject(steps[i]), subject(steps[j]));
        lemma_files_apart(w, n, d, o);
        if under(o, side(steps[i])) {
            assert(o != side(steps[i])) by {
                assert(under(o, o));
                assert(beside(steps, subject(steps[j])));
            }
            lemma_above_side(o, d, "tmp"@);
        }
    }
    assert forall|i: int, j: int|
        0 <= i < steps.len() && 0 <= j < steps.len() && #[trigger] steps[i] is Copied
            && #[trigger] steps[j] is Copied implies apart(side(steps[i]), steps[j]->dest) by {
        let s = steps[i];
        let (p, d) = (subject(s), subject(steps[j]));
        assert(shaped(w, n, s));
        assert(shaped(w, n, steps[j]));
        assert(beside(steps, subject(steps[j])));
        assert(!under(side(s), d));
        if under(d, side(s)) {
            assert(d != side(s)) by {
                assert(under(d, d));
            }
            lemma_above_side(d, p, tag_of(s));
            lemma_files_apart(w, n, d, p);
        }
    }
    assert forall|i: int, j: int|
        0 <= i < j < steps.len() && #[trigger] steps[i] is Copied && #[trigger] steps[j] is Copied
            implies apart(steps[i]->dest, steps[j]->dest) by {
        assert(in_order(w, n, steps[i], steps[j]));
        assert(shaped(w, n, steps[i]));
        assert(shaped(w, n, steps[j]));
        lemma_files_apart(w, n, subject(steps[i]), subject(steps[j]));
    }
    assert forall|i: int, p: Text|
        0 <= i < steps.len() && #[trigger] steps[i] is Copied && #[trigger] under(steps[i]->dest, p)
            && p != steps[i]->dest && tree.dom().contains(p) && beside(
            steps,
            p,
        ) implies cleared(steps, p) by {
        assert(shaped(w, n, steps[i]));
        let d = subject(steps[i]);
        let b = choose|b: int|
            0 <= b < n - w.gone.len() && b < w.written.len() && #[trigger] w.written[b] == d;
        lemma_way_cleared(tree, w, nodes, b, p);
    }
}

/// Two files of the work lie apart.
proof fn lemma_files_apart(w: Work, k: int, d: Text, o: Text)
    requires
        tidy(w),
        was_written(w, k, d),
        was_written(w, k, o) || was_in_the_way(w, k, o),
        d != o,
    ensures
        apart(d, o),
{
    let a = choose|b: int|
        0 <= b < k - w.gone.len() && b < w.written.len() && #[trigger] w.written[b] == d;
    let b = if was_written(w, k, o) {
        choose|b: int|
            0 <= b < k - w.gone.len() && b < w.written.len() && #[trigger] w.written[b] == o
    } else {
        choose|b: int|
            0 <= b < k - w.gone.len() && b < w.written.len() && w.is_dir[b]
                && #[trigger] w.written[b] == o
    };
    assert(apart(w.written[a], w.written[b]));
}

/// Paths without their leading slashes.
pub open spec fn relative(paths: Seq<Text>) -> Seq<Text> {
    paths.map_values(|p: Text| trim_start_slashes(p))
}

/// Staging the work of a commit, with what stood at each path when its turn came, can be undone,
/// can be published, and carries out the commit.
pub proof fn law_staging_carries_out_the_commit<N>(
    tree: Map<Text, N>,
    w: Work,
    nodes: Seq<N>,
    gone: Seq<Text>,
    written: Seq<Text>,
    content: spec_fn(Text) -> N,
)
    requires
        tidy(w),
        w.found_all(tree, nodes),
        w.gone == relative(gone),
        w.written == relative(written),
        forall|i: int| 0 <= i < gone.len() ==> clean(#[trigger] gone[i]),
        forall|i: int| 0 <= i < written.len() ==> clean(#[trigger] written[i]),
        forall|i: int|
            0 <= i < w.steps(w.len() as int).len() && (#[trigger] w.steps(w.len() as int)[
                i
            ]) is Copied ==> nodes[i] == content(
                seq!['/'] + w.steps(w.len() as int)[i]->dest,
            ),
    ensures
        publishable(tree, w.steps(w.len() as int)),
        carries_out(
            tree,
            w.steps(w.len() as int),
            nodes,
            gone.to_set(),
            written.to_set(),
            content,
        ),
{
    let n = w.len() as int;
    let steps = w.steps(n);
    lemma_publishable(tree, w, nodes);
    lemma_shape(w, n);
    assert forall|b: int| 0 <= b < written.len() implies #[trigger] w.written[b] == rel(written[b])
        && seq!['/'] + w.written[b] == written[b] by {
        lemma_clean(written[b]);
    }
    assert forall|a: int| 0 <= a < gone.len() implies #[trigger] w.gone[a] == rel(gone[a]) && seq![
        '/',
    ] + w.gone[a] == gone[a] by {
        lemma_clean(gone[a]);
    }
    assert forall|x: Text| #[trigger] written.to_set().contains(x) implies exists|i: int| #[trigger]
        copies_to(steps, i, rel(x)) by {
        let b = choose|b: int| 0 <= b < written.len() && written[b] == x;
        let k = w.gone.len() + b;
        let d = w.written[b];
        assert(w.piece(k).last() == copied(d));
        lemma_step_of_piece(w, k, n, copied(d));
        let i = choose|i: int| 0 <= i < steps.len() && #[trigger] steps[i] == copied(d);
        assert(copies_to(steps, i, rel(x)));
    }
    assert forall|x: Text, i: int|
        #![trigger written.to_set().contains(x), copies_to(steps, i, rel(x))]
        written.to_set().contains(x) && copies_to(steps, i, rel(x)) implies nodes[i] == content(
        x,
    ) by {
        let b = choose|b: int| 0 <= b < written.len() && written[b] == x;
        assert(seq!['/'] + w.written[b] == x);
        assert(steps[i] is Copied);
    }
    assert forall|i: int|
        0 <= i < steps.len() && #[trigger] steps[i] is Copied implies written.to_set().contains(
        seq!['/'] + steps[i]->dest,
    ) by {
        assert(shaped(w, n, steps[i]));
        let d = steps[i]->dest;
        let b = choose|b: int|
            0 <= b < n - w.gone.len() && b < w.written.len() && #[trigger] w.written[b] == d;
        assert(written[b] == seq!['/'] + d);
    }
    assert forall|i: int| 0 <= i < steps.len() && #[trigger] steps[i] is Moved implies {
        let q = seq!['/'] + steps[i]->original;
        gone.to_set().contains(q) || written.to_set().contains(q)
    } by {
        assert(shaped(w, n, steps[i]));
        let o = steps[i]->original;
        if was_deleted(w, n, o) {
            let a = choose|a: int|
                0 <= a < n && a < w.gone.len() && w.present[a] && #[trigger] w.gone[a] == o;
            assert(gone[a] == seq!['/'] + o);
        } else {
            let b = choose|b: int|
                0 <= b < n - w.gone.len() && b < w.written.len() && w.is_dir[b]
                    && #[trigger] w.written[b] == o;
            assert(written[b] == seq!['/'] + o);
        }
    }
    assert forall|t: Text, q: Text|
        #![trigger gone.to_set().contains(t), under(rel(t), q)]
        gone.to_set().contains(t) && under(rel(t), q) && tree.dom().contains(q) && beside(
            steps,
            q,
        ) implies cleared(steps, rel(t)) by {
        let a = choose|a: int| 0 <= a < gone.len() && gone[a] == t;
        assert(w.gone[a] == rel(t));
        lemma_gone(tree, w, nodes, a, q);
    }
}

proof fn lemma_dests_concat(a: Seq<StepView>, b: Seq<StepView>)
    ensures
        dests(a + b) == dests(a) + dests(b),
    decreases b.len(),
{
    if b.len() == 0 {
        assert(a + b =~= a);
        assert(dests(a) + dests(b) =~= dests(a));
    } else {
        assert((a + b).drop_last() =~= a + b.drop_last());
        lemma_dests_concat(a, b.drop_last());
        assert(dests(a + b) =~= dests(a) + dests(b));
    }
}

/// The copies among the steps for the first `k` paths.
proof fn lemma_dests(w: Work, k: int)
    requires
        0 <= k <= w.len(),
    ensures
        dests(w.steps(k)) == if k <= w.gone.len() {
            seq![]
        } else {
            w.written.take(k - w.gone.len())
        },
    decreases k,
{
    if k > 0 {
        lemma_dests(w, k - 1);
        lemma_dests_concat(w.steps(k - 1), w.piece(k - 1));
        reveal_with_fuel(dests, 3);
        let piece = w.piece(k - 1);
        if k <= w.gone.len() {
            assert(dests(piece) =~= seq![]) by {
                if piece.len() > 0 {
                    assert(piece.drop_last() =~= seq![]);
                }
            }
            assert(dests(w.steps(k)) =~= seq![]);
        } else {
            let d = w.written[k - 1 - w.gone.len()];
            assert(dests(piece) =~= seq![d]) by {
                if piece.len() > 1 {
                    assert(piece.drop_last() =~= seq![aside(d)]);
                    assert(seq![aside(d)].drop_last() =~= seq![]);
                } else {
                    assert(piece.drop_last() =~= seq![]);
                }
            }
            assert(dests(w.steps(k)) =~= w.written.take(k - w.gone.len()));
        }
    }
}

/// Publishing a staged merge leaves each file that was copied at its destination, whatever stood
/// there, and nothing else at or below the paths that were deleted or copied to. No side file of
/// the merge is left. The copies are those of the written paths, in order.
pub proof fn law_published_merge<N>(tree: Map<Text, N>, w: Work, nodes: Seq<N>)
    requires
        tidy(w),
        w.found_all(tree, nodes),
    ensures
        ({
            let steps = w.steps(w.len() as int);
            let end = act_all(staged_tree(tree, steps, nodes), renames(steps) + discards(steps));
            &&& dests(steps) == w.written
            &&& forall|i: int|
                0 <= i < steps.len() && (#[trigger] steps[i]) is Copied ==> at(
                    end,
                    steps[i]->dest,
                ) == Some(nodes[i])
            &&& forall|q: Text, a: int|
                0 <= a < w.gone.len() && #[trigger] under(w.gone[a], q) && end.dom().contains(q)
                    ==> w.written.contains(q)
            &&& forall|q: Text, b: int|
                0 <= b < w.written.len() && #[trigger] under(w.written[b], q)
                    && end.dom().contains(q) ==> q == w.written[b]
            &&& forall|q: Text| #[trigger] end.dom().contains(q) ==> beside(steps, q)
        }),
{
    let n = w.len() as int;
    let steps = w.steps(n);
    let end = act_all(staged_tree(tree, steps, nodes), renames(steps) + discards(steps));
    lemma_dests(w, n);
    assert(w.written.take(w.written.len() as int) =~= w.written);
    lemma_publishable(tree, w, nodes);
    lemma_shape(w, n);
    lemma_well_placed(w);
    assert forall|q: Text| #[trigger] end.dom().contains(q) implies beside(steps, q) by {
        law_publish_leaves_no_side_files(tree, steps, nodes, q);
    }
    assert forall|i: int| 0 <= i < steps.len() && (#[trigger] steps[i]) is Copied implies at(
        end,
        steps[i]->dest,
    ) == Some(nodes[i]) by {
        let d = steps[i]->dest;
        assert(beside(steps, subject(steps[i])));
        law_publish(tree, steps, nodes, d);
        assert(copies_to(steps, i, d));
        let j = choose|j: int| #[trigger] copies_to(steps, j, d);
        assert(under(d, d));
        if i != j {
            assert(apart(steps[i]->dest, steps[j]->dest));
        }
    }
    assert forall|q: Text| #[trigger] end.dom().contains(q) && exists|i: int| #[trigger]
        copies_to(steps, i, q) implies w.written.contains(q) by {
        let i = choose|i: int| #[trigger] copies_to(steps, i, q);
        assert(shaped(w, n, steps[i]));
    }
    assert forall|q: Text, a: int|
        0 <= a < w.gone.len() && #[trigger] under(w.gone[a], q) && end.dom().contains(q)
            implies w.written.contains(q) by {
        law_publish(tree, steps, nodes, q);
        if forall|i: int| !#[trigger] copies_to(steps, i, q) {
            if tree.dom().contains(q) {
                lemma_gone(tree, w, nodes, a, q);
                let i = choose|i: int|
                    0 <= i < steps.len() && #[trigger] steps[i] is Moved && under(
                        steps[i]->original,
                        w.gone[a],
                    );
                lemma_under_transitive(steps[i]->original, w.gone[a], q);
                assert(cleared(steps, q));
            }
        }
    }
    assert forall|q: Text, b: int|
        0 <= b < w.written.len() && #[trigger] under(w.written[b], q) && end.dom().contains(q)
            implies q == w.written[b] by {
        law_publish(tree, steps, nodes, q);
        if exists|i: int| #[trigger] copies_to(steps, i, q) {
            let c = choose|c: int| 0 <= c < w.written.len() && w.written[c] == q;
            if b != c {
                assert(apart(w.written[b], w.written[c]));
            }
        } else if q != w.written[b] && tree.dom().contains(q) {
            lemma_way_cleared(tree, w, nodes, b, q);
        }
    }
}

/// A commit is atomic: undoing the staging, at whatever step it stopped, leaves the destination
/// exactly as it was, except that what an interrupted merge has left at the side paths may be
/// gone, and publishing it leaves at each path what the commit puts there and no side file
/// anywhere. The copies are those of the written paths, in order.
pub proof fn law_commit_is_atomic<N>(
    tree: Map<Text, N>,
    w: Work,
    nodes: Seq<N>,
    gone: Seq<Text>,
    written: Seq<Text>,
    content: spec_fn(Text) -> N,
    files: Files<N>,
    place: PlaceView,
    p: Text,
    stop: int,
)
    requires
        tidy(w),
        w.found_all(tree, nodes),
        w.gone == relative(gone),
        w.written == relative(written),
        forall|i: int| 0 <= i < gone.len() ==> clean(#[trigger] gone[i]),
        forall|i: int| 0 <= i < written.len() ==> clean(#[trigger] written[i]),
        forall|i: int|
            0 <= i < w.steps(w.len() as int).len() && (#[trigger] w.steps(w.len() as int)[
                i
            ]) is Copied ==> nodes[i] == content(
                seq!['/'] + w.steps(w.len() as int)[i]->dest,
            ),
        clean(p),
        beside(w.steps(w.len() as int), rel(p)),
        at(tree, rel(p)) == held(files, spot(place, p)),
        0 <= stop <= w.steps(w.len() as int).len(),
    ensures
        ({
            let steps = w.steps(w.len() as int);
            let begun = steps.take(stop);
            let back = act_all(staged_tree(tree, begun, nodes), undo_all(begun));
            &&& forall|q: Text| beside(begun, q) ==> #[trigger] at(back, q) == at(tree, q)
            &&& forall|q: Text| #[trigger] at(back, q) is Some ==> at(back, q) == at(tree, q)
            &&& (forall|q: Text| #[trigger] tree.dom().contains(q) ==> beside(begun, q)) ==> back
                == tree
            &&& at(
                act_all(staged_tree(tree, steps, nodes), renames(steps) + discards(steps)),
                rel(p),
            ) == merged_at(files, place, gone.to_set(), written.to_set(), content, p)
            &&& forall|q: Text| #[trigger]
                act_all(staged_tree(tree, steps, nodes), renames(steps) + discards(steps)).dom().contains(
                    q,
                ) ==> beside(steps, q)
            &&& dests(steps) == w.written
        }),
{
    let steps = w.steps(w.len() as int);
    let begun = steps.take(stop);
    lemma_dests(w, w.len() as int);
    assert(w.written.take(w.written.len() as int) =~= w.written);
    law_staging_carries_out_the_commit(tree, w, nodes, gone, written, content);
    assert(separate(begun)) by {
        assert forall|i: int, j: int| 0 <= i < j < begun.len() implies apart(
            side(#[trigger] begun[i]),
            side(#[trigger] begun[j]),
        ) by {
            assert(apart(side(steps[i]), side(steps[j])));
        }
        assert forall|i: int| 0 <= i < begun.len() && #[trigger] begun[i] is Moved implies apart(
            side(begun[i]),
            begun[i]->original,
        ) by {
            assert(steps[i] is Moved);
        }
    }
    law_rollback_restores(tree, begun, nodes);
    assert forall|q: Text| #[trigger]
        act_all(staged_tree(tree, steps, nodes), renames(steps) + discards(steps)).dom().contains(
            q,
        ) implies beside(steps, q) by {
        law_publish_leaves_no_side_files(tree, steps, nodes, q);
    }
    assert forall|q: Text| #[trigger] gone.to_set().contains(q) implies clean(q) by {
        let a = choose|a: int| 0 <= a < gone.len() && gone[a] == q;
        assert(clean(gone[a]));
    }
    assert forall|q: Text| #[trigger] written.to_set().contains(q) implies clean(q) by {
        let b = choose|b: int| 0 <= b < written.len() && written[b] == q;
        assert(clean(written[b]));
    }
    law_staged_merge_makes_the_commit(
        files,
        place,
        tree,
        steps,
        nodes,
        gone.to_set(),
        written.to_set(),
        content,
        p,
    );
}

/// The paths that were taken out are those of the paths to delete at which something stood.
pub proof fn law_emptied_paths_were_there(gone: Seq<Text>, present: Seq<bool>, p: Text)
    requires
        present.len() <= gone.len(),
    ensures
        moved_away(gone, present).contains(p) <==> exists|i: int|
            0 <= i < present.len() && present[i] && #[trigger] gone[i] == p,
    decreases present.len(),
{
    if present.len() > 0 {
        let rest = present.drop_last();
        let n = present.len() - 1;
        law_emptied_paths_were_there(gone, rest, p);
        let (a, b) = (moved_away(gone, rest), moved_away(gone, present));
        if a.contains(p) {
            let i = choose|i: int| 0 <= i < rest.len() && rest[i] && #[trigger] gone[i] == p;
            assert(present[i] && gone[i] == p);
            let k = choose|k: int| 0 <= k < a.len() && a[k] == p;
            assert(b[k] == p);
        }
        if present[n] && gone[n] == p {
            assert(b[a.len() as int] == p);
        }
        if b.contains(p) && !a.contains(p) {
            let k = choose|k: int| 0 <= k < b.len() && b[k] == p;
            if k < a.len() {
                assert(a[k] == p);
            }
            assert(present[n] && gone[n] == p);
        }
        if exists|i: int| 0 <= i < present.len() && present[i] && #[trigger] gone[i] == p {
            let i = choose|i: int| 0 <= i < present.len() && present[i] && #[trigger] gone[i] == p;
            if i < n {
                assert(rest[i] && gone[i] == p);
            }
        }
    }
}

} // verus!
