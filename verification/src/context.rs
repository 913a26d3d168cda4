//! What the paths of a mount stand for: the current branch, a branch of its own under `@`, or a
//! control file.

use vstd::prelude::*;
use vstd::string::*;

use crate::text::{begins_with, chars_of, concat, drop_chars, same, Text};

verus! {

/// The name of the control files.
pub open spec fn ctl_name() -> Text {
    ".branchfs_ctl"@
}

/// What a path of a mount stands for.
pub enum PathContext {
    /// The directory `/@branch`.
    BranchDir(String),
    /// The control file of a branch.
    BranchCtl(String),
    /// A path inside a branch.
    BranchPath(String, String),
    /// The control file of the mount.
    RootCtl,
    /// A path of the branch that the mount shows.
    RootPath(String),
}

pub enum ContextView {
    BranchDir(Text),
    BranchCtl(Text),
    BranchPath(Text, Text),
    RootCtl,
    RootPath(Text),
}

impl View for PathContext {
    type V = ContextView;

    open spec fn view(&self) -> ContextView {
        match self {
            PathContext::BranchDir(b) => ContextView::BranchDir(b@),
            PathContext::BranchCtl(b) => ContextView::BranchCtl(b@),
            PathContext::BranchPath(b, r) => ContextView::BranchPath(b@, r@),
            PathContext::RootCtl => ContextView::RootCtl,
            PathContext::RootPath(p) => ContextView::RootPath(p@),
        }
    }
}

/// The place of the first slash, or the length of a text without one.
pub open spec fn first_slash(t: Text) -> int
    decreases t.len(),
{
    if t.len() == 0 || t[0] == '/' {
        0
    } else {
        1 + first_slash(t.drop_first())
    }
}

proof fn lemma_first_slash(t: Text, k: int)
    requires
        0 <= k <= t.len(),
        forall|i: int| 0 <= i < k ==> #[trigger] t[i] != '/',
        k == t.len() || t[k] == '/',
    ensures
        first_slash(t) == k,
    decreases k,
{
    if k > 0 {
        assert(t[0] != '/');
        let u = t.drop_first();
        assert forall|i: int| 0 <= i < k - 1 implies #[trigger] u[i] != '/' by {
            assert(t[i + 1] != '/');
        }
        lemma_first_slash(u, k - 1);
    }
}

/// What a path stands for.
pub open spec fn context(path: Text) -> ContextView {
    if "/@"@.is_prefix_of(path) {
        let t = path.skip(2);
        let k = first_slash(t);
        let branch = t.take(k);
        let rest = t.skip(k);
        if rest.len() == 0 {
            ContextView::BranchDir(branch)
        } else if rest == seq!['/'] + ctl_name() {
            ContextView::BranchCtl(branch)
        } else {
            ContextView::BranchPath(branch, rest)
        }
    } else if path == seq!['/'] + ctl_name() {
        ContextView::RootCtl
    } else {
        ContextView::RootPath(path)
    }
}

pub fn classify_path(path: &str) -> (r: PathContext)
    ensures
        r@ == context(path@),
{
    proof {
        reveal_strlit("/@");
        reveal_strlit("/");
        assert("/"@ =~= seq!['/']);
    }
    let ctl = concat("/", ".branchfs_ctl");
    if begins_with(path, "/@") {
        let t = drop_chars(path, 2);
        let cs = chars_of(t);
        let mut k: usize = 0;
        while k < cs.len() && cs[k] != '/'
            invariant
                k <= cs@.len(),
                forall|i: int| 0 <= i < k ==> #[trigger] cs@[i] != '/',
            decreases cs@.len() - k,
        {
            k = k + 1;
        }
        proof {
            lemma_first_slash(t@, k as int);
            assert(t@.subrange(0, k as int) =~= t@.take(k as int));
        }
        let branch = t.substring_char(0, k).to_owned();
        let rest = drop_chars(t, k);
        if rest.is_empty() {
            PathContext::BranchDir(branch)
        } else if same(rest, ctl.as_str()) {
            PathContext::BranchCtl(branch)
        } else {
            PathContext::BranchPath(branch, rest.to_owned())
        }
    } else if same(path, ctl.as_str()) {
        PathContext::RootCtl
    } else {
        PathContext::RootPath(path.to_owned())
    }
}

/// The path of a mount at which a path of a branch is found.
pub open spec fn branch_path(branch: Text, rel: Text) -> Text {
    "/@"@ + branch + rel
}

pub fn branch_path_of(branch: &str, rel: &str) -> (r: String)
    ensures
        r@ == branch_path(branch@, rel@),
{
    let dir = concat("/@", branch);
    concat(dir.as_str(), rel)
}

proof fn lemma_branch_path(branch: Text, rel: Text)
    requires
        !branch.contains('/'),
        rel.len() > 0 ==> rel[0] == '/',
    ensures
        "/@"@.is_prefix_of(branch_path(branch, rel)),
        branch_path(branch, rel).skip(2) == branch + rel,
        first_slash(branch + rel) == branch.len(),
        (branch + rel).take(branch.len() as int) == branch,
        (branch + rel).skip(branch.len() as int) == rel,
{
    reveal_strlit("/@");
    let p = branch_path(branch, rel);
    let t = branch + rel;
    assert(p.take(2) =~= "/@"@);
    assert(p.skip(2) =~= t);
    assert forall|i: int| 0 <= i < branch.len() implies #[trigger] t[i] != '/' by {
        assert(branch.contains(branch[i]));
    }
    lemma_first_slash(t, branch.len() as int);
    assert(t.take(branch.len() as int) =~= branch);
    assert(t.skip(branch.len() as int) =~= rel);
}

/// A path under `/@branch` is read back as the branch and the path that it was made of.
pub proof fn law_branch_paths_read_back(branch: Text, rel: Text)
    requires
        !branch.contains('/'),
        rel.len() > 0,
        rel[0] == '/',
    ensures
        context(branch_path(branch, rel)) == if rel == seq!['/'] + ctl_name() {
            ContextView::BranchCtl(branch)
        } else {
            ContextView::BranchPath(branch, rel)
        },
        context(branch_path(branch, seq![])) == ContextView::BranchDir(branch),
{
    lemma_branch_path(branch, rel);
    lemma_branch_path(branch, seq![]);
}

} // verus!
