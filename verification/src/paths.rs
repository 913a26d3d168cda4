//! Paths inside a branch, the places on disk where their data may lie, and the relations
//! between paths that hiding and deleting rest on.

use vstd::prelude::*;
use vstd::string::*;

use crate::text::{
    begins_with, chars_of, concat, is_space, law_trim_back, law_trim_front, list_has, opt_text,
    same, slash, space, texts, trim_end_slashes, trim_front, trim_space, trim_start_slashes,
    without_leading_slashes, without_space, without_trailing_slashes, Text,
};

verus! {

/// Whether `q` is `p` or lies below the directory `p`.
pub open spec fn under(p: Text, q: Text) -> bool {
    q == p || p.push('/').is_prefix_of(q)
}

pub fn lies_under(p: &str, q: &str) -> (r: bool)
    ensures
        r == under(p@, q@),
{
    let mut prefix = p.to_owned();
    prefix.push('/');
    same(p, q) || begins_with(q, prefix.as_str())
}

/// What a hide rule or a looked-up path becomes before the two are compared: no white space
/// around it, one leading slash, no trailing slash. Nothing is left of an entry that would hide
/// the whole root.
pub open spec fn normalized(path: Text) -> Option<Text> {
    let t = trim_end_slashes(trim_start_slashes(trim_space(path)));
    if t.len() == 0 {
        None
    } else {
        Some(seq!['/'] + t)
    }
}

/// Normalize a hide path to a `/`-prefixed path without a trailing slash.
/// Returns `None` for entries that would be empty or hide the entire root.
pub fn normalize_hide_path(path: &str) -> (r: Option<String>)
    ensures
        opt_text(r) == normalized(path@),
{
    let trimmed = without_trailing_slashes(without_leading_slashes(without_space(path)));
    if trimmed.is_empty() {
        None
    } else {
        let mut out = String::new();
        out.push('/');
        out.append(trimmed);
        proof {
            assert(Seq::<char>::empty().push('/') =~= seq!['/']);
        }
        Some(out)
    }
}

/// Whether one of the hide rules masks `path` or an ancestor of it.
pub open spec fn hidden(hide: Seq<Text>, path: Text) -> bool {
    match normalized(path) {
        Some(p) => exists|i: int| 0 <= i < hide.len() && under(#[trigger] hide[i], p),
        None => false,
    }
}

/// Whether `u` is one or more non-empty names joined by single slashes.
pub open spec fn whole_parts(u: Text) -> bool {
    &&& u.len() > 0
    &&& u[0] != '/'
    &&& u.last() != '/'
    &&& forall|i: int| 0 < i < u.len() && #[trigger] u[i] == '/' ==> u[i - 1] != '/'
}

/// Whether the first `k` characters of `t` name an ancestor of `t`, or `t` itself.
pub open spec fn part_end(t: Text, k: int) -> bool {
    &&& 0 < k <= t.len()
    &&& k == t.len() || t[k] == '/'
    &&& whole_parts(t.take(k))
}

/// The ancestor of a path that ends after `k` characters of `t`, the path without leading slashes.
pub open spec fn ancestor(t: Text, k: int) -> Text {
    seq!['/'] + t.take(k)
}

/// Whether a set of tombstones deletes `path`: it holds the path itself or one of its ancestors.
pub open spec fn deleted(tombs: Set<Text>, path: Text) -> bool {
    let t = trim_start_slashes(path);
    tombs.contains(path) || exists|k: int| #[trigger] part_end(t, k) && tombs.contains(ancestor(t, k))
}

/// Whether a tombstone list deletes `path`.
pub fn deleted_by(tombstones: &Vec<String>, path: &str) -> (r: bool)
    ensures
        r == deleted(texts(tombstones@).to_set(), path@),
{
    if list_has(tombstones, path) {
        return true;
    }
    let ghost tombs = texts(tombstones@).to_set();
    let trimmed = without_leading_slashes(path);
    let cs = chars_of(trimmed);
    let ghost t = trimmed@;
    let mut prefix = String::new();
    prefix.push('/');
    let mut i: usize = 0;
    proof {
        assert(prefix@ =~= seq!['/'] + t.take(0));
        lemma_trimmed_start(path@);
    }
    loop
        invariant
            i <= cs.len(),
            cs@ == t,
            t == trim_start_slashes(path@),
            t.len() > 0 ==> t[0] != '/',
            tombs == texts(tombstones@).to_set(),
            !tombs.contains(path@),
            prefix@ == seq!['/'] + t.take(i as int),
            forall|k: int| k < i && #[trigger] part_end(t, k) ==> !tombs.contains(ancestor(t, k)),
            forall|j: int| 0 <= j < i && #[trigger] t[j] == '/' ==> j > 0 && t[j - 1] != '/',
        decreases cs.len() - i,
    {
        if i == cs.len() || cs[i] == '/' {
            if i == 0 || cs[i - 1] == '/' {
                proof {
                    assert forall|k: int| #[trigger] part_end(t, k) implies !tombs.contains(
                        ancestor(t, k),
                    ) by {
                        if k >= i {
                            let u = t.take(k);
                            if k > i {
                                assert(u[i as int] == '/');
                                assert(u[i - 1] == '/');
                            } else {
                                assert(u.last() == t[i - 1]);
                            }
                        }
                    }
                }
                return false;
            }
            proof {
                let u = t.take(i as int);
                assert forall|j: int| 0 < j < u.len() && #[trigger] u[j] == '/' implies u[j - 1]
                    != '/' by {
                    assert(t[j] == '/');
                }
                assert(u.last() == t[i - 1]);
                assert(part_end(t, i as int));
                assert(texts(tombstones@).contains(ancestor(t, i as int)) == tombs.contains(
                    ancestor(t, i as int),
                ));
            }
            if list_has(tombstones, prefix.as_str()) {
                return true;
            }
        }
        if i == cs.len() {
            return false;
        }
        prefix.push(cs[i]);
        i = i + 1;
        proof {
            assert(prefix@ =~= seq!['/'] + t.take(i as int));
        }
    }
}

proof fn lemma_trimmed_start(s: Text)
    ensures
        trim_start_slashes(s).len() > 0 ==> trim_start_slashes(s)[0] != '/',
    decreases s.len(),
{
    if s.len() > 0 && s[0] == '/' {
        lemma_trimmed_start(s.drop_first());
    }
}

/// A child of a directory as the filesystem operations write it.
pub open spec fn joined(parent: Text, child: Text) -> Text {
    if parent == seq!['/'] {
        seq!['/'] + child
    } else {
        parent + seq!['/'] + child
    }
}

pub fn join_rel(parent_rel: &str, child: &str) -> (r: String)
    ensures
        r@ == joined(parent_rel@, child@),
{
    proof {
        reveal_strlit("/");
        assert("/"@ =~= seq!['/']);
    }
    if same(parent_rel, "/") {
        concat("/", child)
    } else {
        let dir = concat(parent_rel, "/");
        concat(dir.as_str(), child)
    }
}

/// A child of a directory as directory listings write it: trailing slashes of the directory
/// do not count.
pub open spec fn listed_child(dir: Text, child: Text) -> Text {
    if dir == seq!['/'] {
        seq!['/'] + child
    } else {
        trim_end_slashes(dir) + seq!['/'] + child
    }
}

pub fn listed_child_of(dir: &str, child: &str) -> (r: String)
    ensures
        r@ == listed_child(dir@, child@),
{
    proof {
        reveal_strlit("/");
        assert("/"@ =~= seq!['/']);
    }
    if same(dir, "/") {
        concat("/", child)
    } else {
        let d = concat(without_trailing_slashes(dir), "/");
        concat(d.as_str(), child)
    }
}

/// A directory tree that the filesystem keeps or reads.
pub enum Place {
    /// The directory that is branched from.
    Base,
    /// What a branch wrote.
    Files(String),
    /// What a snapshot branch copied from its parent when it was made.
    Inherited(String),
    /// Half-written copies of a branch.
    Staging(String),
    /// The parent's text at the first touch of a path.
    TouchContent(String),
    /// Texts merged by a commit in progress.
    MergeContent(String),
}

pub enum PlaceView {
    Base,
    Files(Text),
    Inherited(Text),
    Staging(Text),
    TouchContent(Text),
    MergeContent(Text),
}

impl View for Place {
    type V = PlaceView;

    open spec fn view(&self) -> PlaceView {
        match self {
            Place::Base => PlaceView::Base,
            Place::Files(b) => PlaceView::Files(b@),
            Place::Inherited(b) => PlaceView::Inherited(b@),
            Place::Staging(b) => PlaceView::Staging(b@),
            Place::TouchContent(b) => PlaceView::TouchContent(b@),
            Place::MergeContent(b) => PlaceView::MergeContent(b@),
        }
    }
}

/// An entry in one of the places; `rel` has no leading slash.
pub struct Location {
    pub place: Place,
    pub rel: String,
}

pub struct LocationView {
    pub place: PlaceView,
    pub rel: Text,
}

impl View for Location {
    type V = LocationView;

    open spec fn view(&self) -> LocationView {
        LocationView { place: self.place@, rel: self.rel@ }
    }
}

pub open spec fn location_views(v: Seq<Location>) -> Seq<LocationView> {
    v.map_values(|l: Location| l@)
}

/// Where a path of a branch lies in `place`.
pub open spec fn located(place: PlaceView, path: Text) -> LocationView {
    LocationView { place, rel: trim_start_slashes(path) }
}

impl Place {
    pub fn duplicate(&self) -> (r: Place)
        ensures
            r@ == self@,
    {
        match self {
            Place::Base => Place::Base,
            Place::Files(b) => Place::Files(b.clone()),
            Place::Inherited(b) => Place::Inherited(b.clone()),
            Place::Staging(b) => Place::Staging(b.clone()),
            Place::TouchContent(b) => Place::TouchContent(b.clone()),
            Place::MergeContent(b) => Place::MergeContent(b.clone()),
        }
    }

    /// The directory of this place, relative to the storage directory; `None` for the base,
    /// which lies elsewhere.
    pub fn storage_dir(&self) -> (r: Option<String>)
        ensures
            opt_text(r) == storage_dir_of(self@),
    {
        match self {
            Place::Base => None,
            Place::Files(b) => Some(branch_subdir(b.as_str(), "files")),
            Place::Inherited(b) => Some(branch_subdir(b.as_str(), "inherited")),
            Place::Staging(b) => Some(branch_subdir(b.as_str(), "staging")),
            Place::TouchContent(b) => Some(branch_subdir(b.as_str(), "touch-content")),
            Place::MergeContent(b) => Some(branch_subdir(b.as_str(), "merge-content")),
        }
    }
}

impl Location {
    /// The entry of `place` at `path`.
    pub fn at(place: Place, path: &str) -> (r: Location)
        ensures
            r@ == located(place@, path@),
    {
        Location { place, rel: without_leading_slashes(path).to_owned() }
    }

    pub fn duplicate(&self) -> (r: Location)
        ensures
            r@ == self@,
    {
        Location { place: self.place.duplicate(), rel: self.rel.clone() }
    }
}

/// The directory of a branch, relative to the storage directory.
pub open spec fn branch_dir_text(branch: Text) -> Text {
    "branches/"@ + branch
}

/// The directory of a place, relative to the storage directory.
pub open spec fn storage_dir_of(place: PlaceView) -> Option<Text> {
    match place {
        PlaceView::Base => None,
        PlaceView::Files(b) => Some(branch_dir_text(b) + "/"@ + "files"@),
        PlaceView::Inherited(b) => Some(branch_dir_text(b) + "/"@ + "inherited"@),
        PlaceView::Staging(b) => Some(branch_dir_text(b) + "/"@ + "staging"@),
        PlaceView::TouchContent(b) => Some(branch_dir_text(b) + "/"@ + "touch-content"@),
        PlaceView::MergeContent(b) => Some(branch_dir_text(b) + "/"@ + "merge-content"@),
    }
}

/// The directory of a branch, relative to the storage directory.
pub fn branch_dir(branch: &str) -> (r: String)
    ensures
        r@ == branch_dir_text(branch@),
{
    concat("branches/", branch)
}

/// A directory or file of a branch, relative to the storage directory.
pub fn branch_subdir(branch: &str, name: &str) -> (r: String)
    ensures
        r@ == branch_dir_text(branch@) + "/"@ + name@,
{
    let dir = concat(branch_dir(branch).as_str(), "/");
    concat(dir.as_str(), name)
}

/// A path lies at or below another exactly if it is that path, or that path, a slash and more.
pub proof fn law_under_is_at_or_below(p: Text, q: Text)
    ensures
        under(p, q) <==> q == p || exists|r: Text| q == #[trigger] (p + seq!['/'] + r),
{
    if under(p, q) && q != p {
        let r = q.skip(p.len() as int + 1);
        let pre = p.push('/');
        assert(q =~= p + seq!['/'] + r) by {
            assert forall|i: int| 0 <= i < pre.len() implies pre[i] == q[i] by {}
        }
    }
    if exists|r: Text| q == #[trigger] (p + seq!['/'] + r) {
        let r = choose|r: Text| q == #[trigger] (p + seq!['/'] + r);
        assert(p.push('/') =~= q.take(p.len() as int + 1));
    }
}

/// A name in a directory is written as the directory, a slash and the name; the root has no second
/// slash.
pub proof fn law_children_follow_a_slash(dir: Text, name: Text)
    ensures
        joined(seq!['/'], name) == seq!['/'] + name,
        dir != seq!['/'] ==> joined(dir, name) == dir + seq!['/'] + name,
        dir.len() > 0 && dir.last() != '/' ==> listed_child(dir, name) == dir + seq!['/'] + name,
        listed_child(seq!['/'], name) == seq!['/'] + name,
{
    if dir.len() > 0 && dir.last() != '/' {
        assert(trim_end_slashes(dir) == dir);
    }
}

/// A path lies in a place under the names that it has, without its leading slashes.
pub proof fn law_paths_lie_in_their_place(place: PlaceView, path: Text)
    ensures
        located(place, path).place == place,
        exists|k: int|
            0 <= k <= path.len() && located(place, path).rel == #[trigger] path.skip(k) && (forall|
                i: int,
            |
                0 <= i < k ==> #[trigger] path[i] == '/'),
        located(place, path).rel.len() > 0 ==> located(place, path).rel[0] != '/',
{
    law_trim_front(path, slash());
    let k = choose|k: int|
        0 <= k <= path.len() && trim_front(path, slash()) == #[trigger] path.skip(k) && (forall|
            i: int,
        |
            0 <= i < k ==> slash()(#[trigger] path[i]));
    assert(located(place, path).rel == path.skip(k));
    assert forall|i: int| 0 <= i < k implies #[trigger] path[i] == '/' by {
        assert(slash()(path[i]));
    }
}

/// A normalized path begins with one slash and does not end with one, and is otherwise a piece of
/// the path that it was made from. Nothing is left exactly if the path has nothing but slashes
/// between its white space.
pub proof fn law_normalized_paths(path: Text)
    ensures
        normalized(path) matches Some(p) ==> {
            &&& p.len() > 1
            &&& p[0] == '/'
            &&& p[1] != '/'
            &&& p.last() != '/'
            &&& exists|i: int, j: int|
                0 <= i <= j <= path.len() && p.skip(1) == #[trigger] path.subrange(i, j)
        },
        normalized(path) is None ==> forall|i: int|
            0 <= i < path.len() ==> #[trigger] path[i] == '/' || is_space(path[i]),
{
    let a = trim_front(path, space());
    let b = trim_space(path);
    let c = trim_start_slashes(b);
    let t = trim_end_slashes(c);
    law_trim_front(path, space());
    law_trim_back(a, space());
    law_trim_front(b, slash());
    law_trim_back(c, slash());
    let k1 = choose|k: int|
        0 <= k <= path.len() && a == #[trigger] path.skip(k) && (forall|i: int|
            0 <= i < k ==> space()(#[trigger] path[i]));
    let k2 = choose|k: int|
        0 <= k <= a.len() && b == #[trigger] a.take(k) && (forall|i: int|
            k <= i < a.len() ==> space()(#[trigger] a[i]));
    let k3 = choose|k: int|
        0 <= k <= b.len() && c == #[trigger] b.skip(k) && (forall|i: int|
            0 <= i < k ==> slash()(#[trigger] b[i]));
    let k4 = choose|k: int|
        0 <= k <= c.len() && t == #[trigger] c.take(k) && (forall|i: int|
            k <= i < c.len() ==> slash()(#[trigger] c[i]));
    if normalized(path) is Some {
        let p = normalized(path)->0;
        assert(p.skip(1) =~= t);
        assert(p.last() == t.last());
        assert(t[0] == c[0]);
        assert(t =~= path.subrange(k1 + k3, k1 + k3 + k4));
    } else {
        assert(k4 == 0);
        assert forall|i: int| 0 <= i < path.len() implies #[trigger] path[i] == '/' || is_space(
            path[i],
        ) by {
            if i < k1 {
                assert(space()(path[i]));
            } else {
                let j = i - k1;
                assert(a[j] == path[i]);
                if j < k2 {
                    assert(b[j] == a[j]);
                    if j < k3 {
                        assert(slash()(b[j]));
                    } else {
                        assert(c[j - k3] == b[j]);
                        assert(slash()(c[j - k3]));
                    }
                } else {
                    assert(space()(a[j]));
                }
            }
        }
    }
}

/// A path is hidden exactly if, once normalized, it is the path of a hide rule or lies below one.
pub proof fn law_hidden_is_at_or_below_a_rule(hide: Seq<Text>, path: Text, p: Text)
    requires
        normalized(path) == Some(p),
    ensures
        hidden(hide, path) <==> exists|i: int|
            0 <= i < hide.len() && (p == #[trigger] hide[i] || hide[i].push('/').is_prefix_of(p)),
{
    if hidden(hide, path) {
        let i = choose|i: int| 0 <= i < hide.len() && under(#[trigger] hide[i], p);
        assert(p == hide[i] || hide[i].push('/').is_prefix_of(p));
    }
    if exists|i: int|
        0 <= i < hide.len() && (p == #[trigger] hide[i] || hide[i].push('/').is_prefix_of(p)) {
        let i = choose|i: int|
            0 <= i < hide.len() && (p == #[trigger] hide[i] || hide[i].push('/').is_prefix_of(p));
        assert(under(hide[i], p));
    }
}

} // verus!
