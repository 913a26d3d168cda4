//! A merge that is prepared aside and then published, or undone.
//!
//! Paths are relative to the root of the destination. The laws speak of a tree as the map from
//! the paths of its files to what they hold; directories are where files lie below them.

use vstd::prelude::*;
use vstd::string::*;

use crate::text::{
    chars_of, concat, texts, trim_end_slashes, trim_start_slashes, without_leading_slashes,
    without_trailing_slashes, Text,
};

verus! {

/// Where the last name of a path begins: after its last slash.
pub open spec fn name_start(p: Text) -> int
    decreases p.len(),
{
    if p.len() == 0 || p.last() == '/' {
        p.len() as int
    } else {
        name_start(p.drop_last())
    }
}

pub proof fn lemma_name_start(p: Text, k: int)
    requires
        0 <= k <= p.len(),
        k == 0 || p[k - 1] == '/',
        forall|i: int| k <= i < p.len() ==> #[trigger] p[i] != '/',
    ensures
        name_start(p) == k,
    decreases p.len() - k,
{
    if k < p.len() {
        let t = p.drop_last();
        assert forall|i: int| k <= i < t.len() implies #[trigger] t[i] != '/' by {
            assert(p[i] != '/');
        }
        assert(p[p.len() - 1] != '/');
        lemma_name_start(t, k);
    }
}

pub proof fn lemma_name_start_bound(p: Text)
    ensures
        0 <= name_start(p) <= p.len(),
        name_start(p) == 0 || p[name_start(p) - 1] == '/',
        forall|i: int| name_start(p) <= i < p.len() ==> #[trigger] p[i] != '/',
    decreases p.len(),
{
    if p.len() > 0 && p.last() != '/' {
        let t = p.drop_last();
        lemma_name_start_bound(t);
        assert forall|i: int| name_start(p) <= i < p.len() implies #[trigger] p[i] != '/' by {
            if i < t.len() {
                assert(t[i] != '/');
            }
        }
    }
}

/// The side file of a path: in the same directory, its name marked with `tag`.
pub open spec fn side_path(target: Text, tag: Text) -> Text {
    let p = trim_end_slashes(target);
    let k = name_start(p);
    p.take(k) + ".branchfs-"@ + tag + "."@ + p.skip(k)
}

/// A side-file path next to `target`, as `commit_side_path` makes it of the bytes.
pub fn side_path_of(target: &str, tag: &str) -> (r: String)
    ensures
        r@ == side_path(target@, tag@),
{
    let p = without_trailing_slashes(target);
    let cs = chars_of(p);
    let mut k: usize = cs.len();
    while k > 0 && cs[k - 1] != '/'
        invariant
            k <= cs.len(),
            forall|i: int| k <= i < cs.len() ==> #[trigger] cs@[i] != '/',
        decreases k,
    {
        k = k - 1;
    }
    proof {
        lemma_name_start(p@, k as int);
        assert(p@.subrange(0, k as int) =~= p@.take(k as int));
        assert(p@.subrange(k as int, p@.len() as int) =~= p@.skip(k as int));
    }
    let marked = concat(concat(p.substring_char(0, k), ".branchfs-").as_str(), tag);
    concat(concat(marked.as_str(), ".").as_str(), p.substring_char(k, cs.len()))
}

/// What was done so far.
pub enum Step {
    /// An entry that the merge removes was renamed aside.
    Moved { trash: String, original: String },
    /// A file that the merge adds was copied next to its destination.
    Copied { tmp: String, dest: String },
}

pub enum StepView {
    Moved { trash: Text, original: Text },
    Copied { tmp: Text, dest: Text },
}

impl View for Step {
    type V = StepView;

    open spec fn view(&self) -> StepView {
        match self {
            Step::Moved { trash, original } => StepView::Moved {
                trash: trash@,
                original: original@,
            },
            Step::Copied { tmp, dest } => StepView::Copied { tmp: tmp@, dest: dest@ },
        }
    }
}

pub open spec fn step_views(v: Seq<Step>) -> Seq<StepView> {
    v.map_values(|s: Step| s@)
}

/// What is to be done to the destination.
pub enum Action {
    /// Rename one entry, over what stands at the new path.
    Rename { from: String, to: String },
    /// Remove an entry with all that is below it, if it is there.
    Discard { path: String },
}

pub enum ActionView {
    Rename { from: Text, to: Text },
    Discard { path: Text },
}

impl View for Action {
    type V = ActionView;

    open spec fn view(&self) -> ActionView {
        match self {
            Action::Rename { from, to } => ActionView::Rename { from: from@, to: to@ },
            Action::Discard { path } => ActionView::Discard { path: path@ },
        }
    }
}

pub open spec fn action_views(v: Seq<Action>) -> Seq<ActionView> {
    v.map_values(|a: Action| a@)
}

/// Renaming each copy into place, in order.
pub open spec fn renames(steps: Seq<StepView>) -> Seq<ActionView>
    decreases steps.len(),
{
    if steps.len() == 0 {
        seq![]
    } else {
        match steps.last() {
            StepView::Copied { tmp, dest } => renames(steps.drop_last()).push(
                ActionView::Rename { from: tmp, to: dest },
            ),
            StepView::Moved { .. } => renames(steps.drop_last()),
        }
    }
}

/// The destinations of the copies, in order.
pub open spec fn dests(steps: Seq<StepView>) -> Seq<Text>
    decreases steps.len(),
{
    if steps.len() == 0 {
        seq![]
    } else {
        match steps.last() {
            StepView::Copied { dest, .. } => dests(steps.drop_last()).push(dest),
            StepView::Moved { .. } => dests(steps.drop_last()),
        }
    }
}

/// Discarding each entry that was moved aside, in order.
pub open spec fn discards(steps: Seq<StepView>) -> Seq<ActionView>
    decreases steps.len(),
{
    if steps.len() == 0 {
        seq![]
    } else {
        match steps.last() {
            StepView::Moved { trash, .. } => discards(steps.drop_last()).push(
                ActionView::Discard { path: trash },
            ),
            StepView::Copied { .. } => discards(steps.drop_last()),
        }
    }
}

/// What undoes one step. What stands at the original path by then was put there by the merge.
pub open spec fn undo(step: StepView) -> Seq<ActionView> {
    match step {
        StepView::Moved { trash, original } => seq![
            ActionView::Discard { path: original },
            ActionView::Rename { from: trash, to: original },
        ],
        StepView::Copied { tmp, .. } => seq![ActionView::Discard { path: tmp }],
    }
}

/// What undoes the steps, the last one first.
pub open spec fn undo_all(steps: Seq<StepView>) -> Seq<ActionView>
    decreases steps.len(),
{
    if steps.len() == 0 {
        seq![]
    } else {
        undo(steps.last()) + undo_all(steps.drop_last())
    }
}

/// An in-progress merge that prepares all of its destructive work as rollback-able side files,
/// then publishes it in one near-infallible phase.
///
/// Two kinds of work are staged:
/// - copies: each source file is copied to a temporary sibling of its final destination;
/// - deletions: each entry to be removed is renamed aside to a trash sibling instead of being
///   deleted outright.
///
/// Publishing renames every copy into place and discards the trashed entries. Rolling back
/// removes the copies and puts every trashed entry back, leaving the destination as it was.
pub struct StagedMerge {
    pub steps: Vec<Step>,
    /// Relative paths copied, in order.
    pub merged: Vec<String>,
    /// Total bytes copied.
    pub bytes: u64,
}

/// What the staging of a copy does first: clear a directory that stands at the destination.
pub struct CopyPlan {
    pub dest: String,
    pub tmp: String,
    pub clear_first: bool,
}

/// What publishing a merge does, and the relative paths that are merged by it.
pub struct Published {
    pub actions: Vec<Action>,
    pub merged: Vec<String>,
}

impl StagedMerge {
    /// Whether the paths that are listed are those of the copies, in order.
    pub open spec fn wf(self) -> bool {
        dests(step_views(self.steps@)) == texts(self.merged@).map_values(
            |p: Text| trim_start_slashes(p),
        )
    }

    pub fn new() -> (r: StagedMerge)
        ensures
            r.wf(),
            step_views(r.steps@) == Seq::<StepView>::empty(),
            texts(r.merged@) == Seq::<Text>::empty(),
            r.bytes == 0,
    {
        let r = StagedMerge { steps: Vec::new(), merged: Vec::new(), bytes: 0 };
        proof {
            assert(step_views(r.steps@) =~= Seq::<StepView>::empty());
            assert(texts(r.merged@) =~= Seq::<Text>::empty());
            assert(dests(step_views(r.steps@)) =~= texts(r.merged@).map_values(
                |p: Text| trim_start_slashes(p),
            ));
        }
        r
    }

    /// Where an entry to be deleted is renamed to; `None` if there is nothing to delete.
    pub fn plan_delete(target: &str, present: bool) -> (r: Option<String>)
        ensures
            r is Some <==> present,
            r matches Some(t) ==> t@ == side_path(target@, "trash"@),
    {
        if present {
            Some(side_path_of(target, "trash"))
        } else {
            None
        }
    }

    /// Records that `target` was renamed aside.
    pub fn stage_delete(&mut self, target: &str)
        ensures
            step_views(final(self).steps@) == step_views(old(self).steps@).push(
                StepView::Moved { trash: side_path(target@, "trash"@), original: target@ },
            ),
            final(self).merged == old(self).merged,
            final(self).bytes == old(self).bytes,
            old(self).wf() ==> final(self).wf(),
    {
        let ghost before = step_views(self.steps@);
        let trash = side_path_of(target, "trash");
        self.steps.push(Step::Moved { trash, original: target.to_owned() });
        proof {
            assert(step_views(self.steps@) =~= before.push(
                StepView::Moved { trash: side_path(target@, "trash"@), original: target@ },
            ));
            assert(step_views(self.steps@).drop_last() =~= before);
        }
    }

    /// Where a file is copied to, and whether a directory stands in its way: a file or symlink
    /// cannot be renamed over an existing directory, so its removal is staged first. Renaming
    /// over an existing file or symlink is left to publishing.
    pub fn plan_copy(rel_path: &str, dest_is_dir: bool) -> (r: CopyPlan)
        ensures
            r.dest@ == trim_start_slashes(rel_path@),
            r.tmp@ == side_path(trim_start_slashes(rel_path@), "tmp"@),
            r.clear_first == dest_is_dir,
    {
        let dest = without_leading_slashes(rel_path);
        CopyPlan {
            dest: dest.to_owned(),
            tmp: side_path_of(dest, "tmp"),
            clear_first: dest_is_dir,
        }
    }

    /// Records that a file of `len` bytes was copied next to the destination of `rel_path`.
    pub fn stage_copy(&mut self, rel_path: &str, len: u64)
        requires
            old(self).bytes + len <= u64::MAX,
        ensures
            step_views(final(self).steps@) == step_views(old(self).steps@).push(
                StepView::Copied {
                    tmp: side_path(trim_start_slashes(rel_path@), "tmp"@),
                    dest: trim_start_slashes(rel_path@),
                },
            ),
            texts(final(self).merged@) == texts(old(self).merged@).push(rel_path@),
            final(self).bytes == old(self).bytes + len,
            old(self).wf() ==> final(self).wf(),
    {
        let ghost before = step_views(self.steps@);
        let ghost names = texts(self.merged@);
        let plan = StagedMerge::plan_copy(rel_path, false);
        self.steps.push(Step::Copied { tmp: plan.tmp, dest: plan.dest });
        self.merged.push(rel_path.to_owned());
        self.bytes = self.bytes + len;
        proof {
            let dest = trim_start_slashes(rel_path@);
            assert(step_views(self.steps@) =~= before.push(
                StepView::Copied { tmp: side_path(dest, "tmp"@), dest },
            ));
            assert(texts(self.merged@) =~= names.push(rel_path@));
            assert(step_views(self.steps@).drop_last() =~= before);
            assert(texts(self.merged@).map_values(|p: Text| trim_start_slashes(p))
                =~= names.map_values(|p: Text| trim_start_slashes(p)).push(dest));
        }
    }

    /// Publish: rename every staged copy into its final place, then discard the trashed
    /// deletions. Returns the relative paths that were merged.
    pub fn commit(&self) -> (r: Published)
        ensures
            action_views(r.actions@) == renames(step_views(self.steps@)) + discards(
                step_views(self.steps@),
            ),
            r.merged@ == self.merged@,
    {
        let ghost steps = step_views(self.steps@);
        let mut out: Vec<Action> = Vec::new();
        let mut i: usize = 0;
        proof {
            assert(steps.take(0) =~= seq![]);
            assert(action_views(out@) =~= renames(steps.take(0)));
        }
        while i < self.steps.len()
            invariant
                i <= self.steps.len(),
                steps == step_views(self.steps@),
                action_views(out@) == renames(steps.take(i as int)),
            decreases self.steps.len() - i,
        {
            let ghost done = action_views(out@);
            proof {
                assert(steps.take(i + 1).drop_last() =~= steps.take(i as int));
                assert(steps.take(i + 1).last() == self.steps@[i as int]@);
            }
            match &self.steps[i] {
                Step::Copied { tmp, dest } => {
                    out.push(Action::Rename { from: tmp.clone(), to: dest.clone() });
                    proof {
                        assert(action_views(out@) =~= done.push(
                            ActionView::Rename { from: tmp@, to: dest@ },
                        ));
                    }
                },
                Step::Moved { .. } => {},
            }
            i = i + 1;
        }
        let ghost published = action_views(out@);
        let mut j: usize = 0;
        proof {
            assert(steps.take(i as int) =~= steps);
            assert(discards(steps.take(0)) =~= seq![]);
            assert(action_views(out@) =~= published + discards(steps.take(0)));
        }
        while j < self.steps.len()
            invariant
                j <= self.steps.len(),
                steps == step_views(self.steps@),
                action_views(out@) == published + discards(steps.take(j as int)),
            decreases self.steps.len() - j,
        {
            let ghost done = action_views(out@);
            proof {
                assert(steps.take(j + 1).drop_last() =~= steps.take(j as int));
                assert(steps.take(j + 1).last() == self.steps@[j as int]@);
            }
            match &self.steps[j] {
                Step::Moved { trash, .. } => {
                    out.push(Action::Discard { path: trash.clone() });
                    proof {
                        let more = ActionView::Discard { path: trash@ };
                        assert(action_views(out@) =~= done.push(more));
                        assert(done.push(more) =~= published + discards(
                            steps.take(j as int),
                        ).push(more));
                    }
                },
                Step::Copied { .. } => {},
            }
            j = j + 1;
        }
        proof {
            assert(steps.take(j as int) =~= steps);
        }
        Published { actions: out, merged: self.merged.clone() }
    }

    /// Roll back: undo every step, the last one first.
    pub fn rollback(&self) -> (r: Vec<Action>)
        ensures
            action_views(r@) == undo_all(step_views(self.steps@)),
    {
        let ghost steps = step_views(self.steps@);
        let mut out: Vec<Action> = Vec::new();
        let mut i: usize = self.steps.len();
        proof {
            assert(steps.take(i as int) =~= steps);
            assert(action_views(out@) =~= seq![]);
            assert(action_views(out@) + undo_all(steps.take(i as int)) =~= undo_all(steps));
        }
        while i > 0
            invariant
                i <= self.steps.len(),
                steps == step_views(self.steps@),
                action_views(out@) + undo_all(steps.take(i as int)) == undo_all(steps),
            decreases i,
        {
            i = i - 1;
            let ghost done = action_views(out@);
            proof {
                assert(steps.take(i + 1).drop_last() =~= steps.take(i as int));
                assert(steps.take(i + 1).last() == self.steps@[i as int]@);
            }
            match &self.steps[i] {
                Step::Moved { trash, original } => {
                    out.push(Action::Discard { path: original.clone() });
                    out.push(Action::Rename { from: trash.clone(), to: original.clone() });
                },
                Step::Copied { tmp, .. } => {
                    out.push(Action::Discard { path: tmp.clone() });
                },
            }
            proof {
                assert(action_views(out@) =~= done + undo(steps[i as int]));
                assert(done + (undo(steps[i as int]) + undo_all(steps.take(i as int))) =~= (done
                    + undo(steps[i as int])) + undo_all(steps.take(i as int)));
            }
        }
        proof {
            assert(action_views(out@) + undo_all(steps.take(0)) =~= action_views(out@));
        }
        out
    }
}

} // verus!
