//! What a snapshot holds: the walk that makes it visits what the parent shows, and the branch that
//! keeps it sees exactly that.

use vstd::prelude::*;

use crate::commit_laws::{held, Files};
use crate::laws::{clean, lemma_clean, lemma_under_transitive, rel};
use crate::listing_laws::{
    is_name, is_place, law_listings_succeed_together, law_resolving_names_are_listed,
    lemma_joined_clean, lists_all,
};
use crate::lookup::{ends, law_resolution_order, resolved, rooted, visible_names, Forest};
use crate::manager::forked;
use crate::paths::{deleted, hidden, joined, located, under, LocationView, PlaceView};
use crate::records::{FileKind, InheritanceMode, TouchView};
use crate::snapshot::{children, snapshot_step, taken_up, SnapshotStepView};
use crate::staged::{lemma_name_start_bound, name_start};
use crate::text::Text;

verus! {

/// What the source of a walk shows: the names that are listed in a directory, and what stands at a
/// path.
pub struct Scene {
    pub names: spec_fn(Text) -> Set<Text>,
    pub found: spec_fn(Text) -> Option<(LocationView, FileKind)>,
}

/// What a branch shows, where `d` are the entries on disk, `list` gives the names in each directory
/// on disk, and `kind` what each entry is.
pub open spec fn scene(
    m: Forest,
    d: Set<LocationView>,
    list: spec_fn(LocationView) -> Set<Text>,
    kind: spec_fn(LocationView) -> FileKind,
    name: Text,
) -> Scene {
    Scene {
        names: |dir: Text|
            match visible_names(m, list, name, dir) {
                Ok(names) => names,
                Err(_) => Set::empty(),
            },
        found: |p: Text|
            match resolved(m, d, name, p) {
                Ok(Some(l)) => Some((l, kind(l))),
                _ => None,
            },
    }
}

impl Scene {
    /// Whether a directory stands at a path.
    pub open spec fn is_dir(self, p: Text) -> bool {
        (self.found)(p) matches Some((_, kind)) && kind == FileKind::Dir
    }

    /// Whether `p` is a name that is listed in the directory `dir`.
    pub open spec fn lists(self, dir: Text, name: Text, p: Text) -> bool {
        (self.names)(dir).contains(name) && p == joined(dir, name)
    }

    /// Whether `p` is reached from the root through directories, in at most `n` steps.
    pub open spec fn within(self, p: Text, n: nat) -> bool
        decreases n,
    {
        n > 0 && exists|dir: Text, name: Text| #[trigger]
            self.lists(dir, name, p) && (dir == seq!['/'] || (self.within(dir, (n - 1) as nat)
                && self.is_dir(dir)))
    }

    /// Whether `p` is reached from the root through directories.
    pub open spec fn reached(self, p: Text) -> bool {
        exists|n: nat| self.within(p, n)
    }

    /// Whether the source shows something at `p`.
    pub open spec fn shows(self, p: Text) -> bool {
        self.reached(p) && (self.found)(p) is Some
    }

    /// Whether only names of entries are listed.
    pub open spec fn proper(self) -> bool {
        forall|dir: Text, name: Text| #[trigger] (self.names)(dir).contains(name) ==> is_name(name)
    }
}

/// A moment of a walk: the paths that are still to be visited, the last one first, and those that
/// were visited.
pub struct Moment {
    pub pending: Seq<Text>,
    pub done: Seq<Text>,
}

/// Whether the entries of a directory were taken up.
pub open spec fn takes_up(s: Scene, was: Seq<Text>, now: Seq<Text>, dir: Text) -> bool {
    exists|names: Seq<Text>| #[trigger]
        taken_up(was, now, dir, names) && names.to_set() == (s.names)(dir)
}

/// Whether a walk begins so: with the entries of the root.
pub open spec fn begins(s: Scene, w: Moment) -> bool {
    w.done.len() == 0 && takes_up(s, seq![], w.pending, seq!['/'])
}

/// Whether one path is visited between two moments: the entries of a directory are taken up.
pub open spec fn advances(s: Scene, w: Moment, next: Moment) -> bool {
    &&& w.pending.len() > 0
    &&& next.done == w.done.push(w.pending.last())
    &&& if s.is_dir(w.pending.last()) {
        takes_up(s, w.pending.drop_last(), next.pending, w.pending.last())
    } else {
        next.pending == w.pending.drop_last()
    }
}

/// Whether these are the moments of a walk from its beginning to its end.
pub open spec fn whole_walk(s: Scene, run: Seq<Moment>) -> bool {
    &&& run.len() > 0
    &&& begins(s, run[0])
    &&& forall|i: int| 0 <= i < run.len() - 1 ==> advances(s, #[trigger] run[i], run[i + 1])
    &&& run.last().pending.len() == 0
}

/// Whether a moment knows a path: it was visited, or it is to be.
spec fn knows(w: Moment, p: Text) -> bool {
    w.pending.contains(p) || w.done.contains(p)
}

/// What holds of every moment: only what is reached is known, and what is listed in the root and in
/// the directories that were visited is known.
spec fn on_course(s: Scene, w: Moment) -> bool {
    &&& forall|p: Text| #[trigger] knows(w, p) ==> s.reached(p)
    &&& forall|dir: Text, name: Text, p: Text| #[trigger]
        s.lists(dir, name, p) && (dir == seq!['/'] || (w.done.contains(dir) && s.is_dir(dir)))
            ==> knows(w, p)
}

proof fn lemma_taken_up(s: Scene, was: Seq<Text>, now: Seq<Text>, dir: Text, p: Text)
    requires
        takes_up(s, was, now, dir),
    ensures
        now.contains(p) <==> was.contains(p) || exists|name: Text| #[trigger] s.lists(dir, name, p),
{
    let names = choose|names: Seq<Text>| #[trigger]
        taken_up(was, now, dir, names) && names.to_set() == (s.names)(dir);
    let sorted = choose|sorted: Seq<Text>|
        {
            &&& #[trigger] crate::order::sorted_texts(sorted)
            &&& sorted.to_multiset() == names.to_multiset()
            &&& now == was + children(dir, sorted).reverse()
        };
    let more = children(dir, sorted);
    let n = sorted.len() as int;
    assert forall|name: Text| #[trigger] sorted.contains(name) <==> (s.names)(dir).contains(
        name,
    ) by {
        sorted.to_multiset_ensures();
        names.to_multiset_ensures();
        assert(sorted.contains(name) <==> sorted.to_multiset().count(name) > 0);
        assert(names.contains(name) <==> names.to_multiset().count(name) > 0);
        assert(names.contains(name) <==> names.to_set().contains(name));
    }
    if now.contains(p) && !was.contains(p) {
        let i = choose|i: int| 0 <= i < now.len() && now[i] == p;
        if i < was.len() {
            assert(was[i] == p);
        }
        let k = n - 1 - (i - was.len());
        assert(more.reverse()[i - was.len()] == more[k]);
        assert(sorted.contains(sorted[k]));
        assert(s.lists(dir, sorted[k], p));
    }
    if was.contains(p) {
        let i = choose|i: int| 0 <= i < was.len() && was[i] == p;
        assert(now[i] == p);
    }
    if exists|name: Text| #[trigger] s.lists(dir, name, p) {
        let name = choose|name: Text| #[trigger] s.lists(dir, name, p);
        assert(sorted.contains(name));
        let k = choose|k: int| 0 <= k < n && sorted[k] == name;
        assert(more[k] == p);
        let i = was.len() + (n - 1 - k);
        assert(more.reverse()[n - 1 - k] == more[k]);
        assert(now[i] == p);
    }
}

proof fn lemma_on_course(s: Scene, run: Seq<Moment>, i: int)
    requires
        whole_walk(s, run),
        0 <= i < run.len(),
    ensures
        on_course(s, run[i]),
    decreases i,
{
    if i == 0 {
        let w = run[0];
        assert forall|p: Text| #[trigger] knows(w, p) implies s.reached(p) by {
            lemma_taken_up(s, seq![], w.pending, seq!['/'], p);
            let name = choose|name: Text| #[trigger] s.lists(seq!['/'], name, p);
            assert(s.lists(seq!['/'], name, p));
            assert(s.within(p, 1));
        }
        assert forall|dir: Text, name: Text, p: Text| #[trigger]
            s.lists(dir, name, p) && (dir == seq!['/'] || (w.done.contains(dir) && s.is_dir(
                dir,
            ))) implies knows(w, p) by {
            lemma_taken_up(s, seq![], w.pending, seq!['/'], p);
        }
    } else {
        let (was, w) = (run[i - 1], run[i]);
        lemma_on_course(s, run, i - 1);
        assert(advances(s, run[i - 1], run[i - 1 + 1]));
        let q = was.pending.last();
        assert(was.pending.contains(q));
        assert(knows(was, q));
        let rest = was.pending.drop_last();
        assert forall|p: Text| was.pending.contains(p) implies p == q || rest.contains(p) by {
            let k = choose|k: int| 0 <= k < was.pending.len() && was.pending[k] == p;
            if k < rest.len() {
                assert(rest[k] == p);
            }
        }
        assert forall|p: Text| rest.contains(p) implies was.pending.contains(p) by {
            let k = choose|k: int| 0 <= k < rest.len() && rest[k] == p;
            assert(was.pending[k] == p);
        }
        assert forall|p: Text| #[trigger] w.done.contains(p) <==> was.done.contains(p) || p == q by {
            if w.done.contains(p) {
                let k = choose|k: int| 0 <= k < w.done.len() && w.done[k] == p;
                if k < was.done.len() {
                    assert(was.done[k] == p);
                }
            }
            if was.done.contains(p) {
                let k = choose|k: int| 0 <= k < was.done.len() && was.done[k] == p;
                assert(w.done[k] == p);
            }
            assert(w.done[was.done.len() as int] == q);
        }
        assert forall|p: Text| #[trigger] knows(was, p) implies knows(w, p) by {
            if s.is_dir(q) {
                lemma_taken_up(s, rest, w.pending, q, p);
            }
        }
        assert forall|p: Text| #[trigger] knows(w, p) implies s.reached(p) by {
            if s.is_dir(q) {
                lemma_taken_up(s, rest, w.pending, q, p);
            }
            if !knows(was, p) {
                let name = choose|name: Text| #[trigger] s.lists(q, name, p);
                assert(s.lists(q, name, p));
                let n = choose|n: nat| s.within(q, n);
                assert(s.within(p, n + 1));
            }
        }
        assert forall|dir: Text, name: Text, p: Text| #[trigger]
            s.lists(dir, name, p) && (dir == seq!['/'] || (w.done.contains(dir) && s.is_dir(
                dir,
            ))) implies knows(w, p) by {
            if dir == q && s.is_dir(q) {
                lemma_taken_up(s, rest, w.pending, q, p);
            } else {
                assert(knows(was, p));
            }
        }
    }
}

proof fn lemma_all_visited(s: Scene, w: Moment, p: Text, n: nat)
    requires
        on_course(s, w),
        w.pending.len() == 0,
        s.within(p, n),
    ensures
        w.done.contains(p),
    decreases n,
{
    let (dir, name) = choose|dir: Text, name: Text| #[trigger]
        s.lists(dir, name, p) && (dir == seq!['/'] || (s.within(dir, (n - 1) as nat) && s.is_dir(
            dir,
        )));
    if dir != seq!['/'] {
        lemma_all_visited(s, w, dir, (n - 1) as nat);
    }
    assert(s.lists(dir, name, p));
    assert(knows(w, p));
}

/// A walk visits exactly the paths that are reached from the root through directories.
pub proof fn law_walk_visits_what_is_reached(s: Scene, run: Seq<Moment>, p: Text)
    requires
        whole_walk(s, run),
    ensures
        run.last().done.contains(p) <==> s.reached(p),
{
    let w = run.last();
    lemma_on_course(s, run, run.len() - 1);
    if w.done.contains(p) {
        assert(knows(w, p));
    }
    if s.reached(p) {
        let n = choose|n: nat| s.within(p, n);
        lemma_all_visited(s, w, p, n);
    }
}

/// What is reached is a slash followed by names.
proof fn lemma_reached_is_clean(s: Scene, p: Text, n: nat)
    requires
        s.proper(),
        s.within(p, n),
    ensures
        clean(p),
    decreases n,
{
    let (dir, name) = choose|dir: Text, name: Text| #[trigger]
        s.lists(dir, name, p) && (dir == seq!['/'] || (s.within(dir, (n - 1) as nat) && s.is_dir(
            dir,
        )));
    assert(s.lists(dir, name, p));
    if dir != seq!['/'] {
        lemma_reached_is_clean(s, dir, (n - 1) as nat);
    }
    lemma_joined_clean(dir, name);
}

/// Whether a directory stands at each path above `p`.
pub open spec fn through_dirs(s: Scene, p: Text) -> bool {
    forall|q: Text| #[trigger] under(q, p) && clean(q) && q != p ==> s.is_dir(q)
}

/// A path parts into its directory and its last name.
proof fn lemma_split(p: Text) -> (r: (Text, Text))
    requires
        clean(p),
    ensures
        is_place(r.0),
        is_name(r.1),
        p == joined(r.0, r.1),
        r.0.len() < p.len(),
        r.0 != seq!['/'] ==> under(r.0, p) && r.0 != p,
{
    let k = name_start(p);
    lemma_name_start_bound(p);
    lemma_clean(p);
    let u = rel(p);
    assert(k >= 1) by {
        assert(p[0] == '/');
    }
    let name = p.skip(k);
    assert(p[p.len() - 1] == u.last());
    assert(k < p.len());
    assert(!name.contains('/')) by {
        if name.contains('/') {
            let j = choose|j: int| 0 <= j < name.len() && name[j] == '/';
            assert(p[j + k] == '/');
        }
    }
    if k == 1 {
        let dir = seq!['/'];
        assert(p =~= joined(dir, name));
        (dir, name)
    } else {
        let dir = p.take(k - 1);
        let v = rel(dir);
        assert(p[k - 1] == '/');
        assert(u[k - 2] == '/');
        assert(v =~= u.take(k - 2));
        assert(v[0] == u[0]);
        assert(u[k - 3] != '/');
        assert(v.last() == u[k - 3]);
        assert forall|i: int| 0 < i < v.len() && #[trigger] v[i] == '/' implies v[i - 1] != '/' by {
            assert(u[i] == '/');
        }
        assert(clean(dir));
        assert(dir != seq!['/']);
        assert(p =~= joined(dir, name));
        assert(dir.push('/') =~= p.take(k));
        (dir, name)
    }
}

/// What lies above a name in a directory is the directory or lies above it.
proof fn lemma_above(dir: Text, name: Text, q: Text)
    requires
        is_place(dir),
        is_name(name),
        clean(q),
        under(q, joined(dir, name)),
        q != joined(dir, name),
    ensures
        dir != seq!['/'],
        under(q, dir),
{
    let p = joined(dir, name);
    let n = q.len() as int;
    assert(q.push('/')[n] == p[n]);
    assert(p[n] == '/');
    assert forall|i: int| 0 <= i < n implies q[i] == p[i] by {
        assert(q.push('/')[i] == p[i]);
    }
    lemma_clean(q);
    assert(n <= dir.len()) by {
        if n > dir.len() {
            let j = if dir == seq!['/'] {
                n - 1
            } else {
                n - dir.len() - 1
            };
            assert(name[j] == p[n]);
            assert(name.contains(name[j]));
        }
    }
    if dir == seq!['/'] {
        assert(n == 1);
    } else if n == dir.len() {
        assert(q =~= dir);
    } else {
        assert(q.push('/') =~= dir.take(n + 1));
    }
}

proof fn lemma_reached_through_dirs(s: Scene, p: Text, n: nat)
    requires
        s.proper(),
        s.within(p, n),
    ensures
        through_dirs(s, p),
    decreases n,
{
    let (dir, name) = choose|dir: Text, name: Text| #[trigger]
        s.lists(dir, name, p) && (dir == seq!['/'] || (s.within(dir, (n - 1) as nat) && s.is_dir(
            dir,
        )));
    assert(s.lists(dir, name, p));
    if dir != seq!['/'] {
        lemma_reached_is_clean(s, dir, (n - 1) as nat);
        lemma_reached_through_dirs(s, dir, (n - 1) as nat);
    }
    assert forall|q: Text| #[trigger] under(q, p) && clean(q) && q != p implies s.is_dir(q) by {
        lemma_above(dir, name, q);
    }
}

proof fn lemma_resolving_is_reached(
    m: Forest,
    d: Set<LocationView>,
    list: spec_fn(LocationView) -> Set<Text>,
    kind: spec_fn(LocationView) -> FileKind,
    parent: Text,
    p: Text,
) -> (n: nat)
    requires
        rooted(m, parent),
        lists_all(d, list),
        visible_names(m, list, parent, seq!['/']) is Ok,
        clean(p),
        resolved(m, d, parent, p) matches Ok(Some(_)),
        through_dirs(scene(m, d, list, kind, parent), p),
    ensures
        scene(m, d, list, kind, parent).within(p, n),
    decreases p.len(),
{
    let s = scene(m, d, list, kind, parent);
    let (dir, name) = lemma_split(p);
    law_listings_succeed_together(m, list, parent, seq!['/'], dir);
    law_resolving_names_are_listed(m, d, list, parent, dir, name);
    assert(s.lists(dir, name, p));
    if dir == seq!['/'] {
        assert(s.within(p, 1));
        1
    } else {
        assert(s.is_dir(dir));
        assert forall|q: Text| #[trigger] under(q, dir) && clean(q) && q != dir implies s.is_dir(
            q,
        ) by {
            lemma_under_transitive(q, dir, p);
            assert(q.len() <= dir.len()) by {
                assert(q.push('/').len() <= dir.len());
            }
        }
        let n = lemma_resolving_is_reached(m, d, list, kind, parent, dir);
        assert(s.within(p, n + 1));
        n + 1
    }
}

/// A branch shows exactly what resolves on it below directories: a path is reached from the root
/// and there if it resolves and a directory stands at each path above it.
pub proof fn law_shown_is_what_resolves(
    m: Forest,
    d: Set<LocationView>,
    list: spec_fn(LocationView) -> Set<Text>,
    kind: spec_fn(LocationView) -> FileKind,
    name: Text,
    p: Text,
)
    requires
        rooted(m, name),
        lists_all(d, list),
        scene(m, d, list, kind, name).proper(),
        visible_names(m, list, name, seq!['/']) is Ok,
        clean(p),
    ensures
        scene(m, d, list, kind, name).shows(p) <==> (resolved(m, d, name, p) matches Ok(Some(_)))
            && through_dirs(scene(m, d, list, kind, name), p),
{
    let s = scene(m, d, list, kind, name);
    if s.shows(p) {
        let n = choose|n: nat| s.within(p, n);
        lemma_reached_through_dirs(s, p, n);
    }
    if (resolved(m, d, name, p) matches Ok(Some(_))) && through_dirs(s, p) {
        let n = lemma_resolving_is_reached(m, d, list, kind, name, p);
        assert(s.within(p, n));
    }
}

/// Whether a step puts an entry there.
pub open spec fn puts(step: SnapshotStepView, l: LocationView) -> bool {
    match step {
        SnapshotStepView::Skip => false,
        SnapshotStepView::MakeDir { to } => to == l,
        SnapshotStepView::Copy { to, .. } => to == l,
    }
}

/// Whether one of the steps for these paths puts an entry there.
pub open spec fn put_by(s: Scene, dest: Text, done: Seq<Text>, l: LocationView) -> bool {
    exists|p: Text| #[trigger]
        done.contains(p) && puts(snapshot_step(dest, p, (s.found)(p)), l)
}

/// Whether a step was carried out: a directory was made, or an entry was copied as it is. `kind`
/// and `files` are what the entries were and held before, `kind2` and `files2` afterwards.
pub open spec fn carried<N>(
    step: SnapshotStepView,
    kind: spec_fn(LocationView) -> FileKind,
    files: Files<N>,
    kind2: spec_fn(LocationView) -> FileKind,
    files2: Files<N>,
) -> bool {
    match step {
        SnapshotStepView::Skip => true,
        SnapshotStepView::MakeDir { to } => kind2(to) == FileKind::Dir,
        SnapshotStepView::Copy { from, to } => kind2(to) == kind(from) && held(files2, to) == held(
            files,
            from,
        ),
    }
}

/// A snapshot branch sees what its parent saw when the branch was made, but for what it hides: a
/// path that resolved on the parent below directories is there, of the same kind and with the same
/// content, and no other path is.
pub proof fn law_snapshot_shows_parent<N>(
    m: Forest,
    d: Set<LocationView>,
    list: spec_fn(LocationView) -> Set<Text>,
    kind: spec_fn(LocationView) -> FileKind,
    files: Files<N>,
    parent: Text,
    run: Seq<Moment>,
    d2: Set<LocationView>,
    kind2: spec_fn(LocationView) -> FileKind,
    files2: Files<N>,
    b: Text,
    hide: Seq<Text>,
    touches: Map<Text, TouchView>,
    p: Text,
)
    requires
        rooted(m, parent),
        lists_all(d, list),
        visible_names(m, list, parent, seq!['/']) is Ok,
        scene(m, d, list, kind, parent).proper(),
        whole_walk(scene(m, d, list, kind, parent), run),
        clean(p),
        !d2.contains(located(PlaceView::Files(b), p)),
        forall|l: LocationView|
            l.place == PlaceView::Inherited(b) ==> (#[trigger] d2.contains(l) <==> put_by(
                scene(m, d, list, kind, parent),
                b,
                run.last().done,
                l,
            )),
        forall|q: Text| #[trigger]
            run.last().done.contains(q) ==> carried(
                snapshot_step(b, q, (scene(m, d, list, kind, parent).found)(q)),
                kind,
                files,
                kind2,
                files2,
            ),
    ensures
        ({
            let s = scene(m, d, list, kind, parent);
            let fresh = forked(
                m,
                b,
                parent,
                InheritanceMode::Snapshot,
                hide,
                Set::empty(),
                touches,
            );
            let now = resolved(m.insert(b, fresh), d2, b, p);
            match resolved(m, d, parent, p) {
                Ok(Some(from)) if through_dirs(s, p) && !hidden(fresh.hide, p) => {
                    let to = located(PlaceView::Inherited(b), p);
                    &&& now == Ok::<Option<LocationView>, Text>(Some(to))
                    &&& kind2(to) == kind(from)
                    &&& kind(from) != FileKind::Dir ==> held(files2, to) == held(files, from)
                },
                _ => now == Ok::<Option<LocationView>, Text>(None),
            }
        }),
{
    let s = scene(m, d, list, kind, parent);
    let fresh = forked(m, b, parent, InheritanceMode::Snapshot, hide, Set::empty(), touches);
    let m2 = m.insert(b, fresh);
    assert(ends(m2, b, 1));
    law_resolution_order(m2, d2, b, p);
    assert(!deleted(Set::empty(), p));
    let l = located(PlaceView::Inherited(b), p);
    let done = run.last().done;
    law_shown_is_what_resolves(m, d, list, kind, parent, p);
    law_walk_visits_what_is_reached(s, run, p);
    lemma_clean(p);
    if put_by(s, b, done, l) {
        let q = choose|q: Text| #[trigger]
            done.contains(q) && puts(snapshot_step(b, q, (s.found)(q)), l);
        law_walk_visits_what_is_reached(s, run, q);
        let n = choose|n: nat| s.within(q, n);
        lemma_reached_is_clean(s, q, n);
        lemma_clean(q);
        assert(q == p);
    }
    if s.shows(p) {
        assert(done.contains(p) && puts(snapshot_step(b, p, (s.found)(p)), l));
    }
}

} // verus!
