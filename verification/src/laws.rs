//! What the operations on branches promise together.

use vstd::prelude::*;

use crate::branch::BranchView;
use crate::changes::{end_fault, leaf};
use crate::lookup::{
    depth, ends, inherited, law_resolution_order, lemma_resolve_fuel, resolve, resolved, rooted,
    unhidden, visible_names, Forest,
};
use crate::manager::forked;
use crate::paths::{
    ancestor, deleted, hidden, located, normalized, part_end, under, whole_parts, LocationView,
    PlaceView,
};
use crate::records::{InheritanceMode, TouchView};
use crate::text::{trim_start_slashes, slash, trim_front, Text};

verus! {

/// Whether a path is a slash followed by names that single slashes separate.
pub open spec fn clean(p: Text) -> bool {
    p.len() > 0 && p[0] == '/' && whole_parts(p.skip(1))
}

/// A path without its leading slash.
pub open spec fn rel(p: Text) -> Text {
    p.skip(1)
}

pub proof fn lemma_clean(p: Text)
    requires
        clean(p),
    ensures
        trim_start_slashes(p) == rel(p),
        p == seq!['/'] + rel(p),
        rel(p).len() > 0,
{
    let t = p.skip(1);
    assert(p.drop_first() =~= t);
    assert(t[0] != '/');
    assert(trim_front(t, slash()) == t);
    assert(trim_front(p, slash()) == trim_front(p.drop_first(), slash()));
    assert(p =~= seq!['/'] + t);
}

/// Whether one path lies below another is the same with and without leading slashes.
pub proof fn lemma_under_rel(p: Text, q: Text)
    requires
        clean(p),
        clean(q),
    ensures
        under(rel(p), rel(q)) == under(p, q),
{
    lemma_clean(p);
    lemma_clean(q);
    let (a, b) = (rel(p), rel(q));
    if under(p, q) && p != q {
        let pre = p.push('/');
        assert forall|i: int| 0 <= i < a.push('/').len() implies a.push('/')[i] == b[i] by {
            assert(pre[i + 1] == q[i + 1]);
        }
        assert(a.push('/') =~= b.take(a.len() as int + 1));
    }
    if under(a, b) && a != b {
        let pre = a.push('/');
        assert forall|i: int| 0 <= i < p.push('/').len() implies p.push('/')[i] == q[i] by {
            if i > 0 {
                assert(pre[i - 1] == b[i - 1]);
            }
        }
        assert(p.push('/') =~= q.take(p.len() as int + 1));
    }
}

pub proof fn lemma_under_transitive(p: Text, q: Text, r: Text)
    requires
        under(p, q),
        under(q, r),
    ensures
        under(p, r),
{
    if p != q && q != r {
        let (a, b) = (p.push('/'), q.push('/'));
        assert forall|i: int| 0 <= i < a.len() implies a[i] == r[i] by {
            assert(a[i] == q[i]);
            assert(b[i] == r[i]);
        }
        assert(a =~= r.take(a.len() as int));
    }
}

/// A set of deletions deletes exactly the paths at or below one of its own.
pub proof fn lemma_deleted_clean(tombs: Set<Text>, p: Text)
    requires
        clean(p),
        forall|q: Text| #[trigger] tombs.contains(q) ==> clean(q),
    ensures
        deleted(tombs, p) <==> exists|q: Text| #[trigger] tombs.contains(q) && under(q, p),
{
    lemma_clean(p);
    let t = rel(p);
    if deleted(tombs, p) {
        if tombs.contains(p) {
            assert(under(p, p));
        } else {
            let k = choose|k: int| #[trigger] part_end(t, k) && tombs.contains(ancestor(t, k));
            let q = ancestor(t, k);
            assert(q =~= p.take(k + 1));
            if k < t.len() {
                assert(q.push('/') =~= p.take(k + 2));
            } else {
                assert(q =~= p);
            }
            assert(under(q, p));
        }
    }
    if exists|q: Text| #[trigger] tombs.contains(q) && under(q, p) {
        let q = choose|q: Text| #[trigger] tombs.contains(q) && under(q, p);
        lemma_clean(q);
        lemma_under_rel(q, p);
        let u = rel(q);
        let k = u.len() as int;
        if q != p {
            assert(u != t) by {
                if u == t {
                    assert(q =~= p);
                }
            }
            assert(u.push('/').is_prefix_of(t));
            assert(u =~= t.take(k)) by {
                assert forall|i: int| 0 <= i < k implies u[i] == t[i] by {
                    assert(u.push('/')[i] == t[i]);
                }
            }
            assert(t[k] == u.push('/')[k]);
            assert(part_end(t, k));
            assert(ancestor(t, k) =~= q);
        }
    }
}

/// A tombstoned directory hides inherited descendants too.
pub proof fn law_deletion_covers_descendants(tombs: Set<Text>, p: Text, q: Text)
    requires
        clean(p),
        clean(q),
        under(p, q),
        forall|t: Text| #[trigger] tombs.contains(t) ==> clean(t),
        deleted(tombs, p),
    ensures
        deleted(tombs, q),
{
    lemma_deleted_clean(tombs, p);
    lemma_deleted_clean(tombs, q);
    let t = choose|t: Text| #[trigger] tombs.contains(t) && under(t, p);
    lemma_under_transitive(t, p, q);
}

/// A hide rule masks everything below the path that it names.
pub proof fn law_hiding_covers_descendants(hide: Seq<Text>, p: Text, q: Text)
    requires
        normalized(p) == Some(p),
        normalized(q) == Some(q),
        under(p, q),
        hidden(hide, p),
    ensures
        hidden(hide, q),
{
    let i = choose|i: int| 0 <= i < hide.len() && under(#[trigger] hide[i], p);
    lemma_under_transitive(hide[i], p, q);
}

/// Data that a branch hides never reaches it: without a delta of its own the path is not there.
pub proof fn law_hidden_paths_do_not_resolve(
    m: Forest,
    d: Set<LocationView>,
    name: Text,
    p: Text,
)
    requires
        rooted(m, name),
        m.dom().contains(name),
        hidden(m[name].hide, p),
    ensures
        resolved(m, d, name, p) == (if d.contains(located(PlaceView::Files(name), p)) {
            Ok::<Option<LocationView>, Text>(Some(located(PlaceView::Files(name), p)))
        } else {
            Ok::<Option<LocationView>, Text>(None)
        }),
        unhidden(m, d, name, p) == Ok::<Option<LocationView>, Text>(None),
{
    law_resolution_order(m, d, name, p);
}

/// A name that a branch hides is listed only if the branch has it in its own delta.
pub proof fn law_hidden_names_are_not_listed(
    m: Forest,
    list: spec_fn(LocationView) -> Set<Text>,
    name: Text,
    dir: Text,
    child: Text,
)
    requires
        rooted(m, name),
        m.dom().contains(name),
        hidden(m[name].hide, crate::paths::listed_child(dir, child)),
        visible_names(m, list, name, dir) is Ok,
        visible_names(m, list, name, dir)->Ok_0.contains(child),
    ensures
        list(located(PlaceView::Files(name), dir)).contains(child),
{
    assert(ends(m, name, depth(m, name)));
}

/// What a branch wrote is what it reads, whatever is committed elsewhere.
pub proof fn law_own_deltas_win(m: Forest, d: Set<LocationView>, name: Text, p: Text)
    requires
        rooted(m, name),
        m.dom().contains(name),
        d.contains(located(PlaceView::Files(name), p)),
    ensures
        resolved(m, d, name, p) == Ok::<Option<LocationView>, Text>(
            Some(located(PlaceView::Files(name), p)),
        ),
{
    law_resolution_order(m, d, name, p);
}

/// The branch that a place belongs to.
pub open spec fn owner(place: PlaceView) -> Option<Text> {
    match place {
        PlaceView::Base => None,
        PlaceView::Files(b) => Some(b),
        PlaceView::Inherited(b) => Some(b),
        PlaceView::Staging(b) => Some(b),
        PlaceView::TouchContent(b) => Some(b),
        PlaceView::MergeContent(b) => Some(b),
    }
}

/// Whether a place belongs to one of the branches in `s`.
pub open spec fn owned(s: Set<Text>, place: PlaceView) -> bool {
    owner(place) matches Some(b) && s.contains(b)
}

/// Whether two disks agree outside of the places of the branches in `s`.
pub open spec fn same_outside(d: Set<LocationView>, d2: Set<LocationView>, s: Set<Text>) -> bool {
    forall|l: LocationView| !owned(s, l.place) ==> #[trigger] d.contains(l) == d2.contains(l)
}

/// Whether two stores agree outside of the branches in `s`.
pub open spec fn same_branches(m: Forest, m2: Forest, s: Set<Text>) -> bool {
    forall|k: Text|
        !s.contains(k) ==> (#[trigger] m.dom().contains(k) <==> m2.dom().contains(k)) && (
        m.dom().contains(k) ==> m[k] == m2[k])
}

/// Whether a branch does not look through any branch in `s` within `n` steps.
pub open spec fn avoids(m: Forest, name: Text, s: Set<Text>, n: nat) -> bool
    decreases n,
{
    &&& !s.contains(name)
    &&& n > 0 && m.dom().contains(name) && m[name].inheritance == InheritanceMode::Lazy
        && m[name].parent is Some ==> avoids(m, m[name].parent->0, s, (n - 1) as nat)
}

/// Whether a branch does not look through any branch in `s`.
pub open spec fn independent(m: Forest, name: Text, s: Set<Text>) -> bool {
    avoids(m, name, s, depth(m, name))
}

proof fn lemma_frame(
    m: Forest,
    m2: Forest,
    d: Set<LocationView>,
    d2: Set<LocationView>,
    name: Text,
    p: Text,
    s: Set<Text>,
    n: nat,
)
    requires
        ends(m, name, n),
        avoids(m, name, s, n),
        same_branches(m, m2, s),
        same_outside(d, d2, s),
    ensures
        ends(m2, name, n),
        resolve(m2, d2, name, p, n) == resolve(m, d, name, p, n),
    decreases n,
{
    assert(m.dom().contains(name) <==> m2.dom().contains(name));
    if m.dom().contains(name) {
        assert(m2[name] == m[name]);
        assert(d.contains(located(PlaceView::Files(name), p)) == d2.contains(
            located(PlaceView::Files(name), p),
        ));
        assert(d.contains(located(PlaceView::Inherited(name), p)) == d2.contains(
            located(PlaceView::Inherited(name), p),
        ));
        assert(d.contains(located(PlaceView::Base, p)) == d2.contains(located(PlaceView::Base, p)));
        match m[name].parent {
            Some(q) => {
                if m[name].inheritance == InheritanceMode::Lazy {
                    lemma_frame(m, m2, d, d2, q, p, s, (n - 1) as nat);
                }
            },
            None => {},
        }
    }
}

/// Isolation: whatever happens to branches and to the data in their places does not show on a
/// branch that does not look through them.
pub proof fn law_isolation(
    m: Forest,
    m2: Forest,
    d: Set<LocationView>,
    d2: Set<LocationView>,
    name: Text,
    p: Text,
    s: Set<Text>,
)
    requires
        rooted(m, name),
        independent(m, name, s),
        same_branches(m, m2, s),
        same_outside(d, d2, s),
    ensures
        rooted(m2, name),
        resolved(m2, d2, name, p) == resolved(m, d, name, p),
{
    let n = depth(m, name);
    assert(ends(m, name, n));
    lemma_frame(m, m2, d, d2, name, p, s, n);
    lemma_resolve_fuel(m2, d2, name, p, n, depth(m2, name));
}

/// No branch looks through a leaf but itself.
proof fn lemma_leaf_avoided(m: Forest, b: Text, name: Text, n: nat)
    requires
        leaf(m, b),
        name != b,
    ensures
        avoids(m, name, set![b], n),
    decreases n,
{
    if n > 0 && m.dom().contains(name) && m[name].inheritance == InheritanceMode::Lazy
        && m[name].parent is Some {
        assert(m[name].parent != Some(b));
        lemma_leaf_avoided(m, b, m[name].parent->0, (n - 1) as nat);
    }
}

/// Aborting a leaf branch leaves what every other branch sees as it was.
pub proof fn law_abort_leaves_others(
    m: Forest,
    d: Set<LocationView>,
    d2: Set<LocationView>,
    b: Text,
    name: Text,
    p: Text,
)
    requires
        end_fault(m, b) is None,
        rooted(m, name),
        name != b,
        same_outside(d, d2, set![b]),
    ensures
        rooted(m.remove(b), name),
        resolved(m.remove(b), d2, name, p) == resolved(m, d, name, p),
{
    lemma_leaf_avoided(m, b, name, depth(m, name));
    assert(same_branches(m, m.remove(b), set![b]));
    law_isolation(m, m.remove(b), d, d2, name, p, set![b]);
}

/// A fresh lazy branch sees what its parent sees, but for what it hides; no other branch sees a
/// difference. The name is not one that an orphan names as its parent.
pub proof fn law_new_branch_sees_parent(
    m: Forest,
    d: Set<LocationView>,
    b: Text,
    parent: Text,
    hide: Seq<Text>,
    touches: Map<Text, TouchView>,
    p: Text,
)
    requires
        !m.dom().contains(b),
        m.dom().contains(parent),
        rooted(m, parent),
        leaf(m, b),
        !d.contains(located(PlaceView::Files(b), p)),
    ensures
        ({
            let fresh = forked(m, b, parent, InheritanceMode::Lazy, hide, Set::empty(), touches);
            let m2 = m.insert(b, fresh);
            &&& rooted(m2, b)
            &&& resolved(m2, d, b, p) == if hidden(fresh.hide, p) {
                Ok::<Option<LocationView>, Text>(None)
            } else {
                resolved(m, d, parent, p)
            }
            &&& forall|name: Text|
                name != b && #[trigger] rooted(m, name) ==> resolved(m2, d, name, p) == resolved(
                    m,
                    d,
                    name,
                    p,
                )
        }),
{
    let fresh = forked(m, b, parent, InheritanceMode::Lazy, hide, Set::empty(), touches);
    let m2 = m.insert(b, fresh);
    assert(same_branches(m, m2, set![b]));
    lemma_leaf_avoided(m, b, parent, depth(m, parent));
    law_isolation(m, m2, d, d, parent, p, set![b]);
    let n = depth(m2, parent);
    assert(ends(m2, parent, n));
    assert(ends(m2, b, n + 1));
    law_resolution_order(m2, d, b, p);
    assert(!deleted(Set::empty(), p));
    assert forall|name: Text| name != b && #[trigger] rooted(m, name) implies resolved(
        m2,
        d,
        name,
        p,
    ) == resolved(m, d, name, p) by {
        lemma_leaf_avoided(m, b, name, depth(m, name));
        law_isolation(m, m2, d, d, name, p, set![b]);
    }
}

/// Whether a chain of parents that is looked through leads from `name` to `b`.
spec fn reaches(m: Forest, name: Text, b: Text, k: nat) -> bool
    decreases k,
{
    ||| name == b
    ||| k > 0 && m.dom().contains(name) && m[name].inheritance == InheritanceMode::Lazy
        && m[name].parent is Some && reaches(m, m[name].parent->0, b, (k - 1) as nat)
}

proof fn lemma_reach_ends(m: Forest, name: Text, b: Text, k: nat, n: nat) -> (y: nat)
    requires
        reaches(m, name, b, k),
        ends(m, name, n),
    ensures
        y <= n,
        ends(m, b, y),
    decreases k,
{
    if name == b {
        n
    } else {
        lemma_reach_ends(m, m[name].parent->0, b, (k - 1) as nat, (n - 1) as nat)
    }
}

/// A branch that is its own ancestor has no end to its parents.
proof fn lemma_cycle(m: Forest, b: Text, k: nat, n: nat)
    requires
        m.dom().contains(b),
        m[b].inheritance == InheritanceMode::Lazy,
        m[b].parent is Some,
        reaches(m, m[b].parent->0, b, k),
    ensures
        !ends(m, b, n),
    decreases n,
{
    if ends(m, b, n) {
        let y = lemma_reach_ends(m, m[b].parent->0, b, k, (n - 1) as nat);
        lemma_cycle(m, b, k, y);
    }
}

proof fn lemma_not_reached(m: Forest, name: Text, b: Text, n: nat)
    requires
        forall|k: nat| !reaches(m, name, b, k),
    ensures
        avoids(m, name, set![b], n),
    decreases n,
{
    assert(!reaches(m, name, b, 0));
    if n > 0 && m.dom().contains(name) && m[name].inheritance == InheritanceMode::Lazy
        && m[name].parent is Some {
        let q = m[name].parent->0;
        assert forall|k: nat| !reaches(m, q, b, k) by {
            assert(!reaches(m, name, b, k + 1));
        }
        lemma_not_reached(m, q, b, (n - 1) as nat);
    }
}

/// A branch whose parents come to an end does not look through itself.
pub proof fn lemma_parent_independent(m: Forest, b: Text)
    requires
        rooted(m, b),
        m.dom().contains(b),
        m[b].inheritance == InheritanceMode::Lazy,
        m[b].parent is Some,
    ensures
        rooted(m, m[b].parent->0),
        independent(m, m[b].parent->0, set![b]),
{
    let n = depth(m, b);
    assert(ends(m, b, n));
    let q = m[b].parent->0;
    assert(ends(m, q, (n - 1) as nat));
    assert forall|k: nat| !reaches(m, q, b, k) by {
        if reaches(m, q, b, k) {
            lemma_cycle(m, b, k, n);
        }
    }
    lemma_not_reached(m, q, b, depth(m, q));
}

/// What a branch inherits does not depend on the branch's own data.
pub proof fn lemma_inherited_frame(
    m: Forest,
    d: Set<LocationView>,
    b: Text,
    now: BranchView,
    d2: Set<LocationView>,
    p: Text,
)
    requires
        rooted(m, b),
        m.dom().contains(b),
        now.parent == m[b].parent,
        now.inheritance == m[b].inheritance,
        same_outside(d, d2, set![b]),
        d.contains(located(PlaceView::Inherited(b), p)) == d2.contains(
            located(PlaceView::Inherited(b), p),
        ),
    ensures
        rooted(m.insert(b, now), b),
        inherited(m.insert(b, now), d2, b, p) == inherited(m, d, b, p),
{
    let m2 = m.insert(b, now);
    assert(same_branches(m, m2, set![b]));
    assert(d.contains(located(PlaceView::Base, p)) == d2.contains(located(PlaceView::Base, p)));
    match m[b].parent {
        Some(q) => {
            if m[b].inheritance == InheritanceMode::Lazy {
                lemma_parent_independent(m, b);
                law_isolation(m, m2, d, d2, q, p, set![b]);
                let n = depth(m2, q);
                assert(ends(m2, q, n));
                assert(ends(m2, b, n + 1));
            } else {
                assert(ends(m2, b, 1));
            }
        },
        None => {
            assert(ends(m2, b, 1));
        },
    }
}

/// A deleted path is gone: once its delta is removed and it is marked as deleted if it is
/// inherited, the branch does not see it.
pub proof fn law_deleted_path_is_gone(m: Forest, d: Set<LocationView>, b: Text, p: Text)
    requires
        rooted(m, b),
        m.dom().contains(b),
        !d.contains(located(PlaceView::Files(b), p)),
        unhidden(m, d, b, p) is Ok,
    ensures
        ({
            let was = m[b];
            let now = BranchView {
                tombs: if unhidden(m, d, b, p) == Ok::<Option<LocationView>, Text>(None) {
                    was.tombs.remove(p)
                } else {
                    was.tombs.insert(p)
                },
                ..was
            };
            resolved(m.insert(b, now), d, b, p) == Ok::<Option<LocationView>, Text>(None)
        }),
{
    let was = m[b];
    let now = BranchView {
        tombs: if unhidden(m, d, b, p) == Ok::<Option<LocationView>, Text>(None) {
            was.tombs.remove(p)
        } else {
            was.tombs.insert(p)
        },
        ..was
    };
    let m2 = m.insert(b, now);
    lemma_inherited_frame(m, d, b, now, d, p);
    law_resolution_order(m2, d, b, p);
}

/// A written path is there: once it is in the delta, the branch sees it, and no branch that does
/// not look through this one sees a difference.
pub proof fn law_write_shows_only_here(
    m: Forest,
    d: Set<LocationView>,
    b: Text,
    now: BranchView,
    p: Text,
    name: Text,
    q: Text,
)
    requires
        rooted(m, b),
        m.dom().contains(b),
        now.parent == m[b].parent,
        now.inheritance == m[b].inheritance,
        rooted(m, name),
        independent(m, name, set![b]),
    ensures
        ({
            let m2 = m.insert(b, now);
            let delta = located(PlaceView::Files(b), p);
            let d2 = d.insert(delta);
            &&& resolved(m2, d2, b, p) == Ok::<Option<LocationView>, Text>(Some(delta))
            &&& resolved(m2, d2, name, q) == resolved(m, d, name, q)
        }),
{
    let m2 = m.insert(b, now);
    let delta = located(PlaceView::Files(b), p);
    let d2 = d.insert(delta);
    assert(same_outside(d, d2, set![b]));
    lemma_inherited_frame(m, d, b, now, d2, p);
    law_resolution_order(m2, d2, b, p);
    assert(same_branches(m, m2, set![b]));
    law_isolation(m, m2, d, d2, name, q, set![b]);
}

/// A snapshot branch sees what it copied when it was made, whatever happens to other branches
/// and to the base.
pub proof fn law_snapshot_is_frozen(
    m: Forest,
    m2: Forest,
    d: Set<LocationView>,
    d2: Set<LocationView>,
    b: Text,
    p: Text,
)
    requires
        m.dom().contains(b),
        m2.dom().contains(b),
        m[b] == m2[b],
        m[b].inheritance == InheritanceMode::Snapshot,
        m[b].parent is Some,
        forall|l: LocationView|
            owner(l.place) == Some(b) ==> #[trigger] d.contains(l) == d2.contains(l),
    ensures
        resolved(m2, d2, b, p) == resolved(m, d, b, p),
{
    assert(ends(m, b, 1));
    assert(ends(m2, b, 1));
    law_resolution_order(m, d, b, p);
    law_resolution_order(m2, d2, b, p);
    assert(d.contains(located(PlaceView::Files(b), p)) == d2.contains(
        located(PlaceView::Files(b), p),
    ));
    assert(d.contains(located(PlaceView::Inherited(b), p)) == d2.contains(
        located(PlaceView::Inherited(b), p),
    ));
}

/// Whether the parent of every branch is a branch of the store.
pub open spec fn closed(m: Forest) -> bool {
    forall|k: Text| #[trigger] m.dom().contains(k) && m[k].parent is Some ==> m.dom().contains(
        m[k].parent->0,
    )
}

/// A change to a branch that leaves its parent as it is leaves the chains of parents as they are.
proof fn lemma_ends_kept(m: Forest, b: Text, now: BranchView, name: Text, n: nat)
    requires
        m.dom().contains(b),
        now.parent == m[b].parent,
        now.inheritance == m[b].inheritance,
    ensures
        ends(m.insert(b, now), name, n) == ends(m, name, n),
    decreases n,
{
    if n > 0 && m.dom().contains(name) && m[name].parent is Some {
        lemma_ends_kept(m, b, now, m[name].parent->0, (n - 1) as nat);
    }
}

/// Changing what a branch holds keeps the parents of every branch in the store and the chain of
/// parents of every branch finite.
pub proof fn law_changes_keep_parents_in_order(m: Forest, b: Text, now: BranchView)
    requires
        closed(m),
        forall|name: Text| #[trigger] rooted(m, name),
        m.dom().contains(b),
        now.parent == m[b].parent,
        now.inheritance == m[b].inheritance,
    ensures
        closed(m.insert(b, now)),
        forall|name: Text| #[trigger] rooted(m.insert(b, now), name),
{
    let m2 = m.insert(b, now);
    assert forall|k: Text| #[trigger]
        m2.dom().contains(k) && m2[k].parent is Some implies m2.dom().contains(
        m2[k].parent->0,
    ) by {
        assert(m.dom().contains(k));
    }
    assert forall|name: Text| #[trigger] rooted(m2, name) by {
        assert(rooted(m, name));
        let n = choose|n: nat| ends(m, name, n);
        lemma_ends_kept(m, b, now, name, n);
        assert(ends(m2, name, n));
    }
}

/// Making a branch and ending a leaf keep the parents of every branch in the store and the chain
/// of parents of every branch finite.
pub proof fn law_parents_stay_in_order(m: Forest, b: Text, fresh: BranchView)
    requires
        closed(m),
        forall|name: Text| #[trigger] rooted(m, name),
    ensures
        !m.dom().contains(b) && (fresh.parent matches Some(q) && m.dom().contains(q)) ==> {
            &&& closed(m.insert(b, fresh))
            &&& forall|name: Text| #[trigger] rooted(m.insert(b, fresh), name)
        },
        end_fault(m, b) is None ==> {
            &&& closed(m.remove(b))
            &&& forall|name: Text| #[trigger] rooted(m.remove(b), name)
        },
{
    if !m.dom().contains(b) && (fresh.parent matches Some(q) && m.dom().contains(q)) {
        let m2 = m.insert(b, fresh);
        let q = fresh.parent->0;
        assert forall|k: Text| #[trigger] m.dom().contains(k) implies m[k].parent != Some(b) by {}
        assert(leaf(m, b));
        assert(same_branches(m, m2, set![b]));
        assert forall|name: Text| #[trigger] rooted(m2, name) by {
            if name != b {
                assert(rooted(m, name));
                lemma_leaf_avoided(m, b, name, depth(m, name));
                law_isolation(m, m2, Set::empty(), Set::empty(), name, seq![], set![b]);
            } else {
                assert(rooted(m, q));
                lemma_leaf_avoided(m, b, q, depth(m, q));
                law_isolation(m, m2, Set::empty(), Set::empty(), q, seq![], set![b]);
                let n = depth(m2, q);
                assert(ends(m2, q, n));
                if fresh.inheritance == InheritanceMode::Lazy {
                    assert(ends(m2, b, n + 1));
                } else {
                    assert(ends(m2, b, 1));
                }
            }
        }
    }
    if end_fault(m, b) is None {
        let m2 = m.remove(b);
        assert(same_branches(m, m2, set![b]));
        assert forall|k: Text| #[trigger]
            m2.dom().contains(k) && m2[k].parent is Some implies m2.dom().contains(
            m2[k].parent->0,
        ) by {
            assert(m.dom().contains(k));
        }
        assert forall|name: Text| #[trigger] rooted(m2, name) by {
            if name != b {
                assert(rooted(m, name));
                lemma_leaf_avoided(m, b, name, depth(m, name));
                law_isolation(m, m2, Set::empty(), Set::empty(), name, seq![], set![b]);
            } else {
                assert(ends(m2, b, 1));
            }
        }
    }
}

/// Where a branch looks for a path that it neither has in its delta nor deleted nor hides: a branch
/// without a parent in the base, one that looks through its parent where the parent finds it, and
/// a snapshot in what it was given. A branch that deleted or hides the path finds nothing, and one
/// that does not exist is reported.
pub proof fn law_lookup_falls_through(m: Forest, d: Set<LocationView>, name: Text, p: Text)
    requires
        rooted(m, name),
        !d.contains(located(PlaceView::Files(name), p)),
    ensures
        !m.dom().contains(name) ==> resolved(m, d, name, p) == Err::<Option<LocationView>, Text>(
            name,
        ),
        m.dom().contains(name) && (m[name].tombs.contains(p) || hidden(m[name].hide, p))
            ==> resolved(m, d, name, p) == Ok::<Option<LocationView>, Text>(None),
        m.dom().contains(name) && !deleted(m[name].tombs, p) && !hidden(m[name].hide, p) ==> {
            &&& m[name].parent is None ==> resolved(m, d, name, p) == Ok::<
                Option<LocationView>,
                Text,
            >(
                if d.contains(located(PlaceView::Base, p)) {
                    Some(located(PlaceView::Base, p))
                } else {
                    None
                },
            )
            &&& m[name].parent is Some && m[name].inheritance == InheritanceMode::Lazy ==> resolved(
                m,
                d,
                name,
                p,
            ) == resolved(m, d, m[name].parent->0, p)
            &&& m[name].parent is Some && m[name].inheritance == InheritanceMode::Snapshot
                ==> resolved(m, d, name, p) == Ok::<Option<LocationView>, Text>(
                if d.contains(located(PlaceView::Inherited(name), p)) {
                    Some(located(PlaceView::Inherited(name), p))
                } else {
                    None
                },
            )
        },
{
    law_resolution_order(m, d, name, p);
}

/// A path that is found is there, and lies in the base or in a place of a branch.
pub proof fn law_what_is_found_is_there(m: Forest, d: Set<LocationView>, name: Text, p: Text, n: nat)
    ensures
        resolve(m, d, name, p, n) matches Ok(Some(l)) ==> d.contains(l) && l.rel == located(
            PlaceView::Base,
            p,
        ).rel && (l.place is Base || l.place is Files || l.place is Inherited),
    decreases n,
{
    if n > 0 && m.dom().contains(name) {
        if let Some(q) = m[name].parent {
            if m[name].inheritance == InheritanceMode::Lazy {
                law_what_is_found_is_there(m, d, q, p, (n - 1) as nat);
            }
        }
    }
}

} // verus!
