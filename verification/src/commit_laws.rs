//! What a commit carries into the parent.
//!
//! The data on disk is the map from the locations of files to what they hold; a directory is
//! there where files lie below it.

use vstd::prelude::*;

use crate::branch::BranchView;
use crate::changes::{end_fault, leaf};
use crate::commit::{
    auto_merges, base_of, clean_merge, commit_fault, committed_forest, delete_conflict,
    delete_conflicts, parent_after, replacement, report, veiled, write_conflict, write_conflicts,
    CommitSeen, SeenWriteView,
};
use crate::laws::{
    avoids, clean, closed, law_changes_keep_parents_in_order, law_deletion_covers_descendants,
    law_isolation, law_parents_stay_in_order, lemma_clean, lemma_deleted_clean,
    lemma_parent_independent, lemma_under_rel, lemma_under_transitive, owned, owner, rel,
    same_branches, same_outside,
};
use crate::lookup::{
    depth, ends, inherited, law_resolution_order, resolve, resolved, rooted, unhidden, Forest,
};
use crate::manager::ManagerView;
use crate::merge::merged;
use crate::paths::{deleted, hidden, located, normalized, under, LocationView, PlaceView};
use crate::records::{
    identity_of, AutoMergeView, ConflictView, FileKind, IdentityView, InheritanceMode, Meta,
};
use crate::staged::{discards, renames, StepView};
use crate::staged_laws::{
    act_all, at, beside, cleared, copies_to, law_publish, publishable, staged_tree,
};
use crate::text::Text;

verus! {

pub type Files<N> = Map<LocationView, N>;

/// What is at a location.
pub open spec fn held<N>(files: Files<N>, l: LocationView) -> Option<N> {
    if files.dom().contains(l) {
        Some(files[l])
    } else {
        None
    }
}

/// Whether a file lies at a location or below it.
pub open spec fn occupied<N>(files: Files<N>, l: LocationView) -> bool {
    exists|f: LocationView| #[trigger]
        files.dom().contains(f) && f.place == l.place && under(l.rel, f.rel)
}

/// The locations that are there: files, and the directories above them.
pub open spec fn present<N>(files: Files<N>) -> Set<LocationView> {
    Set::new(|l: LocationView| occupied(files, l))
}

/// The file that a branch sees at a path; `None` for a directory and for a path that is not
/// there.
pub open spec fn sees<N>(m: Forest, files: Files<N>, name: Text, p: Text) -> Option<N> {
    match resolved(m, present(files), name, p) {
        Ok(Some(l)) => held(files, l),
        _ => None,
    }
}

/// Where a path lies in a place.
pub open spec fn spot(place: PlaceView, p: Text) -> LocationView {
    LocationView { place, rel: rel(p) }
}

/// Whether one of the paths is `p` or lies above it.
pub open spec fn covers(paths: Set<Text>, p: Text) -> bool {
    exists|q: Text| #[trigger] paths.contains(q) && under(q, p)
}

/// What is at `p` in a place once a merge was published there: the content of a path that was
/// written, nothing below one or at a path that was deleted, and else what was there.
pub open spec fn merged_at<N>(
    files: Files<N>,
    place: PlaceView,
    gone: Set<Text>,
    written: Set<Text>,
    content: spec_fn(Text) -> N,
    p: Text,
) -> Option<N> {
    if written.contains(p) {
        Some(content(p))
    } else if covers(written, p) || covers(gone, p) {
        None
    } else {
        held(files, spot(place, p))
    }
}

/// Whether the changes of a branch leave no doubt of what is at `p`: nothing that it wrote lies
/// above or below the path, and nothing that it deleted lies below a path that it left alone.
pub open spec fn settled(gone: Set<Text>, written: Set<Text>, p: Text) -> bool {
    &&& forall|q: Text| #[trigger] written.contains(q) && q != p ==> !under(q, p) && !under(p, q)
    &&& !written.contains(p) && !covers(gone, p) ==> forall|q: Text| #[trigger]
        gone.contains(q) ==> !under(p, q)
}

/// What holds of the delta of a branch that is committed: its paths are clean, `written` are the
/// files of its delta.
pub open spec fn delta_of<N>(m: Forest, files: Files<N>, c: Text, written: Set<Text>) -> bool {
    &&& forall|q: Text| #[trigger] m[c].tombs.contains(q) ==> clean(q)
    &&& forall|q: Text| #[trigger] written.contains(q) ==> clean(q)
    &&& forall|q: Text|
        clean(q) ==> (#[trigger] written.contains(q) <==> files.dom().contains(
            spot(PlaceView::Files(c), q),
        ))
    &&& forall|l: LocationView| #[trigger]
        files.dom().contains(l) ==> clean(seq!['/'] + l.rel)
}

proof fn lemma_spot(place: PlaceView, p: Text)
    requires
        clean(p),
    ensures
        located(place, p) == spot(place, p),
{
    lemma_clean(p);
}

/// A file that lies at a location or below it has a path that lies so.
proof fn lemma_occupied<N>(files: Files<N>, place: PlaceView, p: Text)
    requires
        clean(p),
        forall|l: LocationView| #[trigger]
            files.dom().contains(l) ==> clean(seq!['/'] + l.rel),
    ensures
        present(files).contains(spot(place, p)) <==> exists|q: Text|
            clean(q) && #[trigger] files.dom().contains(spot(place, q)) && under(p, q),
{
    if present(files).contains(spot(place, p)) {
        let f = choose|f: LocationView| #[trigger]
            files.dom().contains(f) && f.place == place && under(rel(p), f.rel);
        let q = seq!['/'] + f.rel;
        assert(rel(q) =~= f.rel);
        lemma_under_rel(p, q);
        assert(spot(place, q) == f);
    }
    if exists|q: Text| clean(q) && #[trigger] files.dom().contains(spot(place, q)) && under(p, q) {
        let q = choose|q: Text|
            clean(q) && #[trigger] files.dom().contains(spot(place, q)) && under(p, q);
        lemma_under_rel(p, q);
        let f = spot(place, q);
        assert(files.dom().contains(f) && f.place == place && under(rel(p), f.rel));
    }
}

/// What a commit into the base does to the data on disk, where `main` is what main is afterwards:
/// the merge goes into the base, the deltas of main at the changed paths are removed, and the
/// written paths that main would not see in the base are copied into its delta.
pub open spec fn base_commit<N>(
    files: Files<N>,
    files2: Files<N>,
    main: BranchView,
    gone: Set<Text>,
    written: Set<Text>,
    content: spec_fn(Text) -> N,
) -> bool {
    &&& forall|p: Text|
        clean(p) ==> #[trigger] held(files2, spot(PlaceView::Base, p)) == merged_at(
            files,
            PlaceView::Base,
            gone,
            written,
            content,
            p,
        )
    &&& forall|p: Text|
        clean(p) ==> #[trigger] held(files2, spot(PlaceView::Files("main"@), p))
            == if written.contains(p) && veiled(main, p) {
            Some(content(p))
        } else if covers(written, p) || covers(gone, p) {
            None
        } else {
            held(files, spot(PlaceView::Files("main"@), p))
        }
    &&& forall|l: LocationView| #[trigger]
        files2.dom().contains(l) ==> clean(seq!['/'] + l.rel)
}

/// What a path that was left alone shows is not touched by a merge around it.
proof fn lemma_left_alone<N>(
    files: Files<N>,
    files2: Files<N>,
    place: PlaceView,
    gone: Set<Text>,
    written: Set<Text>,
    p: Text,
)
    requires
        clean(p),
        !written.contains(p),
        !covers(gone, p),
        settled(gone, written, p),
        forall|l: LocationView| #[trigger]
            files.dom().contains(l) ==> clean(seq!['/'] + l.rel),
        forall|l: LocationView| #[trigger]
            files2.dom().contains(l) ==> clean(seq!['/'] + l.rel),
        forall|q: Text|
            clean(q) && under(p, q) ==> #[trigger] held(files2, spot(place, q)) == held(
                files,
                spot(place, q),
            ),
    ensures
        held(files2, spot(place, p)) == held(files, spot(place, p)),
        present(files2).contains(spot(place, p)) == present(files).contains(spot(place, p)),
{
    assert(under(p, p));
    lemma_occupied(files, place, p);
    lemma_occupied(files2, place, p);
    if present(files).contains(spot(place, p)) {
        let q = choose|q: Text|
            clean(q) && #[trigger] files.dom().contains(spot(place, q)) && under(p, q);
        assert(held(files2, spot(place, q)) == held(files, spot(place, q)));
        assert(files2.dom().contains(spot(place, q)));
    }
    if present(files2).contains(spot(place, p)) {
        let q = choose|q: Text|
            clean(q) && #[trigger] files2.dom().contains(spot(place, q)) && under(p, q);
        assert(held(files2, spot(place, q)) == held(files, spot(place, q)));
        assert(files.dom().contains(spot(place, q)));
    }
}

/// Below a path that was left alone nothing was written or deleted.
proof fn lemma_below_left_alone(gone: Set<Text>, written: Set<Text>, p: Text, q: Text)
    requires
        clean(p),
        clean(q),
        under(p, q),
        !written.contains(p),
        !covers(gone, p),
        settled(gone, written, p),
        forall|t: Text| #[trigger] gone.contains(t) ==> clean(t),
        forall|t: Text| #[trigger] written.contains(t) ==> clean(t),
    ensures
        !written.contains(q),
        !covers(written, q),
        !covers(gone, q),
{
    if covers(written, q) {
        let t = choose|t: Text| #[trigger] written.contains(t) && under(t, q);
        lemma_comparable(t, p, q);
    }
    if covers(gone, q) {
        let t = choose|t: Text| #[trigger] gone.contains(t) && under(t, q);
        lemma_comparable(t, p, q);
        if under(t, p) {
            assert(covers(gone, p));
        }
    }
    if written.contains(q) {
        assert(under(q, q));
        assert(covers(written, q));
    }
}

/// Two paths above a third lie one above the other.
proof fn lemma_comparable(a: Text, b: Text, r: Text)
    requires
        under(a, r),
        under(b, r),
    ensures
        under(a, b) || under(b, a),
{
    let (x, y) = (a.push('/'), b.push('/'));
    assert(a =~= r.take(a.len() as int)) by {
        if a != r {
            assert forall|i: int| 0 <= i < a.len() implies a[i] == r[i] by {
                assert(x[i] == r[i]);
            }
        }
    }
    assert(b =~= r.take(b.len() as int)) by {
        if b != r {
            assert forall|i: int| 0 <= i < b.len() implies b[i] == r[i] by {
                assert(y[i] == r[i]);
            }
        }
    }
    if a.len() < b.len() {
        assert(a != r);
        assert(x =~= b.take(a.len() as int + 1)) by {
            assert forall|i: int| 0 <= i < x.len() implies x[i] == b[i] by {
                assert(x[i] == r[i]);
            }
        }
    } else if b.len() < a.len() {
        assert(b != r);
        assert(y =~= a.take(b.len() as int + 1)) by {
            assert forall|i: int| 0 <= i < y.len() implies y[i] == a[i] by {
                assert(y[i] == r[i]);
            }
        }
    } else {
        assert(a =~= b);
    }
}

/// The file that the committed branch sees at a path of its delta, and that it sees none at a
/// path that it deleted.
proof fn lemma_child_sees<N>(
    m: Forest,
    files: Files<N>,
    c: Text,
    written: Set<Text>,
    p: Text,
)
    requires
        rooted(m, c),
        m.dom().contains(c),
        delta_of(m, files, c, written),
        clean(p),
        settled(m[c].tombs, written, p),
    ensures
        written.contains(p) ==> sees(m, files, c, p) == Some(
            files[spot(PlaceView::Files(c), p)],
        ),
        !written.contains(p) && covers(m[c].tombs, p) ==> sees(m, files, c, p) is None,
        !written.contains(p) && !covers(m[c].tombs, p) && !hidden(m[c].hide, p) ==> resolved(
            m,
            present(files),
            c,
            p,
        ) == inherited(m, present(files), c, p),
{
    let d = present(files);
    lemma_spot(PlaceView::Files(c), p);
    law_resolution_order(m, d, c, p);
    lemma_occupied(files, PlaceView::Files(c), p);
    lemma_deleted_clean(m[c].tombs, p);
    if written.contains(p) {
        assert(files.dom().contains(spot(PlaceView::Files(c), p)));
        assert(under(p, p));
    } else {
        assert(!d.contains(spot(PlaceView::Files(c), p))) by {
            if d.contains(spot(PlaceView::Files(c), p)) {
                let q = choose|q: Text|
                    clean(q) && #[trigger] files.dom().contains(spot(PlaceView::Files(c), q))
                        && under(p, q);
                assert(written.contains(q));
            }
        }
    }
}

/// A commit into the base takes effect: main sees the file or its merge at each path that the
/// branch wrote, nothing where the branch deleted, and elsewhere what it saw before.
pub proof fn law_commit_lands_in_base<N>(
    m: Forest,
    files: Files<N>,
    files2: Files<N>,
    c: Text,
    gone_paths: Seq<Text>,
    flags: Seq<bool>,
    written_paths: Seq<Text>,
    content: spec_fn(Text) -> N,
    p: Text,
)
    requires
        commit_fault(m, c) is None,
        m[c].parent == Some("main"@),
        m["main"@].parent is None,
        delta_of(m, files, c, written_paths.to_set()),
        base_commit(
            files,
            files2,
            parent_after(m, c, gone_paths, flags, written_paths),
            m[c].tombs,
            written_paths.to_set(),
            content,
        ),
        clean(p),
        settled(m[c].tombs, written_paths.to_set(), p),
        forall|q: Text| #[trigger] m["main"@].tombs.contains(q) ==> clean(q),
    ensures
        sees(committed_forest(m, c, gone_paths, flags, written_paths), files2, "main"@, p)
            == if written_paths.contains(p) {
            Some(content(p))
        } else if covers(m[c].tombs, p) {
            None
        } else {
            sees(m, files, "main"@, p)
        },
{
    let main = "main"@;
    let written = written_paths.to_set();
    let m2 = committed_forest(m, c, gone_paths, flags, written_paths);
    let (d, d2) = (present(files), present(files2));
    let gone = m[c].tombs;
    let now = parent_after(m, c, gone_paths, flags, written_paths);
    let (own, base) = (PlaceView::Files(main), PlaceView::Base);
    assert(c != main);
    assert(ends(m, main, 1));
    assert(ends(m2, main, 1));
    lemma_spot(own, p);
    lemma_spot(base, p);
    law_resolution_order(m, d, main, p);
    law_resolution_order(m2, d2, main, p);
    assert(under(p, p));
    let mine = held(files2, spot(own, p));
    let below = held(files2, spot(base, p));
    assert(m2[main] == now);
    assert(written.contains(p) == written_paths.contains(p));
    assert(mine == if written.contains(p) && veiled(now, p) {
        Some(content(p))
    } else if covers(written, p) || covers(gone, p) {
        None
    } else {
        held(files, spot(own, p))
    });
    assert(below == merged_at(files, base, gone, written, content, p));
    if written.contains(p) && veiled(now, p) {
        lemma_occupied(files2, own, p);
        assert(files2.dom().contains(spot(own, p)));
    } else if written.contains(p) || covers(gone, p) {
        assert(covers(written, p) || covers(gone, p));
        // Nothing of main's own is left at the path or below it.
        assert(!d2.contains(spot(own, p))) by {
            lemma_occupied(files2, own, p);
            if d2.contains(spot(own, p)) {
                let q = choose|q: Text|
                    clean(q) && #[trigger] files2.dom().contains(spot(own, q)) && under(p, q);
                lemma_covered_below(gone, written, p, q);
                assert(!(written.contains(q) && veiled(now, q)));
                assert(held(files2, spot(own, q)) is None);
            }
        }
        lemma_occupied(files2, base, p);
        if written.contains(p) {
            assert(files2.dom().contains(spot(base, p)));
        } else {
            assert(!d2.contains(spot(base, p))) by {
                if d2.contains(spot(base, p)) {
                    let q = choose|q: Text|
                        clean(q) && #[trigger] files2.dom().contains(spot(base, q)) && under(p, q);
                    lemma_covered_below(gone, written, p, q);
                    assert(held(files2, spot(base, q)) == merged_at(
                        files,
                        base,
                        gone,
                        written,
                        content,
                        q,
                    ));
                    assert(!written.contains(q));
                }
            }
        }
    } else {
        assert forall|q: Text| clean(q) && under(p, q) implies #[trigger] held(
            files2,
            spot(own, q),
        ) == held(files, spot(own, q)) by {
            lemma_below_left_alone(gone, written, p, q);
        }
        assert forall|q: Text| clean(q) && under(p, q) implies #[trigger] held(
            files2,
            spot(base, q),
        ) == held(files, spot(base, q)) by {
            lemma_below_left_alone(gone, written, p, q);
        }
        lemma_left_alone(files, files2, own, gone, written, p);
        lemma_left_alone(files, files2, base, gone, written, p);
        // Only deletions of written paths went, and none of those lies above this one.
        assert(deleted(now.tombs, p) == deleted(m[main].tombs, p)) by {
            assert forall|t: Text| #[trigger] now.tombs.contains(t) implies clean(t) by {
                assert(m[main].tombs.contains(t));
            }
            lemma_deleted_clean(now.tombs, p);
            lemma_deleted_clean(m[main].tombs, p);
            if deleted(now.tombs, p) {
                let t = choose|t: Text| #[trigger] now.tombs.contains(t) && under(t, p);
                assert(m[main].tombs.contains(t));
            }
            if deleted(m[main].tombs, p) {
                let t = choose|t: Text| #[trigger] m[main].tombs.contains(t) && under(t, p);
                assert(!written_paths.contains(t)) by {
                    if written_paths.contains(t) {
                        assert(written.contains(t));
                    }
                }
                assert(now.tombs.contains(t));
            }
        }
    }
}

/// A commit of a lazy branch into the base shows: where the branch saw a file of its own, main
/// sees that file or its merge; where the branch deleted a path, main sees nothing; and where the
/// branch changed nothing, main sees what the branch saw.
pub proof fn law_commit_shows_in_base<N>(
    m: Forest,
    files: Files<N>,
    files2: Files<N>,
    c: Text,
    gone_paths: Seq<Text>,
    flags: Seq<bool>,
    written_paths: Seq<Text>,
    content: spec_fn(Text) -> N,
    p: Text,
)
    requires
        commit_fault(m, c) is None,
        m[c].parent == Some("main"@),
        m[c].inheritance == InheritanceMode::Lazy,
        m["main"@].parent is None,
        delta_of(m, files, c, written_paths.to_set()),
        base_commit(
            files,
            files2,
            parent_after(m, c, gone_paths, flags, written_paths),
            m[c].tombs,
            written_paths.to_set(),
            content,
        ),
        clean(p),
        settled(m[c].tombs, written_paths.to_set(), p),
        !hidden(m[c].hide, p),
        forall|q: Text| #[trigger] m["main"@].tombs.contains(q) ==> clean(q),
    ensures
        sees(committed_forest(m, c, gone_paths, flags, written_paths), files2, "main"@, p)
            == if written_paths.contains(p) {
            Some(content(p))
        } else {
            sees(m, files, c, p)
        },
        written_paths.contains(p) ==> sees(m, files, c, p) == Some(
            files[spot(PlaceView::Files(c), p)],
        ),
{
    let main = "main"@;
    let d = present(files);
    assert(ends(m, main, 1));
    assert(ends(m, c, 2));
    lemma_child_sees(m, files, c, written_paths.to_set(), p);
    law_resolution_order(m, d, c, p);
    law_commit_lands_in_base(
        m,
        files,
        files2,
        c,
        gone_paths,
        flags,
        written_paths,
        content,
        p,
    );
}

/// What lies below a covered path is covered.
proof fn lemma_covered_below(gone: Set<Text>, written: Set<Text>, p: Text, q: Text)
    requires
        under(p, q),
        written.contains(p) || covers(gone, p),
    ensures
        covers(written, q) || covers(gone, q),
        written.contains(p) ==> covers(written, q),
        covers(gone, p) ==> covers(gone, q),
{
    if covers(gone, p) {
        let t = choose|t: Text| #[trigger] gone.contains(t) && under(t, p);
        lemma_under_transitive(t, p, q);
    }
}

/// What a commit into another branch does to the data on disk: the merge goes into the delta of
/// the parent, and only the committed branch loses data otherwise.
pub open spec fn nested_commit<N>(
    files: Files<N>,
    files2: Files<N>,
    c: Text,
    parent: Text,
    gone: Set<Text>,
    written: Set<Text>,
    content: spec_fn(Text) -> N,
) -> bool {
    &&& forall|p: Text|
        clean(p) ==> #[trigger] held(files2, spot(PlaceView::Files(parent), p)) == merged_at(
            files,
            PlaceView::Files(parent),
            gone,
            written,
            content,
            p,
        )
    &&& forall|l: LocationView|
        l.place != PlaceView::Files(parent) && owner(l.place) != Some(c) ==> #[trigger] held(
            files2,
            l,
        ) == held(files, l)
    &&& forall|l: LocationView| #[trigger]
        files2.dom().contains(l) ==> clean(seq!['/'] + l.rel)
}

/// Whether a name that a hide rule masks masks what is below it too, for clean paths.
proof fn lemma_hidden_below(hide: Seq<Text>, t: Text, p: Text)
    requires
        normalized(t) == Some(t),
        normalized(p) == Some(p),
        under(t, p),
        hidden(hide, t),
    ensures
        hidden(hide, p),
{
    crate::laws::law_hiding_covers_descendants(hide, t, p);
}

/// Where a directory is not there for a branch, nothing below it is.
proof fn lemma_absent_below<N>(m: Forest, files: Files<N>, name: Text, t: Text, p: Text, n: nat)
    requires
        ends(m, name, n),
        clean(t),
        clean(p),
        normalized(t) == Some(t),
        normalized(p) == Some(p),
        under(t, p),
        forall|k: Text, q: Text|
            m.dom().contains(k) && #[trigger] m[k].tombs.contains(q) ==> clean(q),
        forall|l: LocationView| #[trigger]
            files.dom().contains(l) ==> clean(seq!['/'] + l.rel),
        resolve(m, present(files), name, t, n) == Ok::<Option<LocationView>, Text>(None),
    ensures
        resolve(m, present(files), name, p, n) == Ok::<Option<LocationView>, Text>(None),
    decreases n,
{
    let d = present(files);
    if m.dom().contains(name) {
        let b = m[name];
        lemma_spot(PlaceView::Files(name), t);
        lemma_spot(PlaceView::Files(name), p);
        lemma_present_above(files, PlaceView::Files(name), t, p);
        if deleted(b.tombs, t) {
            law_deletion_covers_descendants(b.tombs, t, p);
        } else if hidden(b.hide, t) {
            lemma_hidden_below(b.hide, t, p);
        } else {
            match b.parent {
                None => {
                    lemma_spot(PlaceView::Base, t);
                    lemma_spot(PlaceView::Base, p);
                    lemma_present_above(files, PlaceView::Base, t, p);
                },
                Some(q) => {
                    if b.inheritance == InheritanceMode::Lazy {
                        lemma_absent_below(m, files, q, t, p, (n - 1) as nat);
                    } else {
                        lemma_spot(PlaceView::Inherited(name), t);
                        lemma_spot(PlaceView::Inherited(name), p);
                        lemma_present_above(files, PlaceView::Inherited(name), t, p);
                    }
                },
            }
        }
    }
}

proof fn lemma_present_above<N>(files: Files<N>, place: PlaceView, t: Text, p: Text)
    requires
        clean(t),
        clean(p),
        under(t, p),
        forall|l: LocationView| #[trigger]
            files.dom().contains(l) ==> clean(seq!['/'] + l.rel),
    ensures
        present(files).contains(spot(place, p)) ==> present(files).contains(spot(place, t)),
{
    lemma_occupied(files, place, p);
    lemma_occupied(files, place, t);
    if present(files).contains(spot(place, p)) {
        let q = choose|q: Text|
            clean(q) && #[trigger] files.dom().contains(spot(place, q)) && under(p, q);
        lemma_under_transitive(t, p, q);
    }
}

/// Whether the steps of a staged merge carry out a commit: each written path is copied, with its
/// content, and nothing else is; only deleted paths and directories in the way of a copy are
/// moved aside; and a deleted path is moved aside unless nothing but side files is there.
pub open spec fn carries_out<N>(
    tree: Map<Text, N>,
    steps: Seq<StepView>,
    nodes: Seq<N>,
    gone: Set<Text>,
    written: Set<Text>,
    content: spec_fn(Text) -> N,
) -> bool {
    &&& forall|w: Text| #[trigger]
        written.contains(w) ==> exists|i: int| #[trigger] copies_to(steps, i, rel(w))
    &&& forall|w: Text, i: int|
        #![trigger written.contains(w), copies_to(steps, i, rel(w))]
        written.contains(w) && copies_to(steps, i, rel(w)) ==> nodes[i] == content(w)
    &&& forall|i: int|
        0 <= i < steps.len() && #[trigger] steps[i] is Copied ==> written.contains(
            seq!['/'] + steps[i]->dest,
        )
    &&& forall|i: int|
        0 <= i < steps.len() && #[trigger] steps[i] is Moved ==> {
            let q = seq!['/'] + steps[i]->original;
            gone.contains(q) || written.contains(q)
        }
    &&& forall|t: Text, q: Text|
        #![trigger gone.contains(t), under(rel(t), q)]
        gone.contains(t) && under(rel(t), q) && tree.dom().contains(q) && beside(steps, q)
            ==> cleared(steps, rel(t))
}

/// Publishing a staged merge that carries out a commit leaves at each path what the commit puts
/// there.
pub proof fn law_staged_merge_makes_the_commit<N>(
    files: Files<N>,
    place: PlaceView,
    tree: Map<Text, N>,
    steps: Seq<StepView>,
    nodes: Seq<N>,
    gone: Set<Text>,
    written: Set<Text>,
    content: spec_fn(Text) -> N,
    p: Text,
)
    requires
        publishable(tree, steps),
        beside(steps, rel(p)),
        carries_out(tree, steps, nodes, gone, written, content),
        forall|q: Text| #[trigger] gone.contains(q) ==> clean(q),
        forall|q: Text| #[trigger] written.contains(q) ==> clean(q),
        clean(p),
        at(tree, rel(p)) == held(files, spot(place, p)),
    ensures
        at(
            act_all(staged_tree(tree, steps, nodes), renames(steps) + discards(steps)),
            rel(p),
        ) == merged_at(files, place, gone, written, content, p),
{
    law_publish(tree, steps, nodes, rel(p));
    lemma_clean(p);
    if written.contains(p) {
        let i = choose|i: int| #[trigger] copies_to(steps, i, rel(p));
        assert(copies_to(steps, i, rel(p)));
    } else {
        assert forall|i: int| !#[trigger] copies_to(steps, i, rel(p)) by {
            if copies_to(steps, i, rel(p)) {
                assert(seq!['/'] + steps[i]->dest == p);
            }
        }
        if covers(written, p) {
            let w = choose|w: Text| #[trigger] written.contains(w) && under(w, p);
            let i = choose|i: int| #[trigger] copies_to(steps, i, rel(w));
            assert(copies_to(steps, i, rel(w)));
            lemma_under_rel(w, p);
            lemma_clean(w);
            assert(rel(w) != rel(p));
            assert(under(steps[i]->dest, rel(p)));
        } else if covers(gone, p) {
            let t = choose|t: Text| #[trigger] gone.contains(t) && under(t, p);
            lemma_under_rel(t, p);
            if cleared(steps, rel(t)) {
                let i = choose|i: int|
                    0 <= i < steps.len() && #[trigger] steps[i] is Moved && under(
                        steps[i]->original,
                        rel(t),
                    );
                lemma_under_transitive(steps[i]->original, rel(t), rel(p));
                assert(cleared(steps, rel(p)));
            }
        } else if cleared(steps, rel(p)) {
            let i = choose|i: int|
                0 <= i < steps.len() && #[trigger] steps[i] is Moved && under(
                    steps[i]->original,
                    rel(p),
                );
            let q = seq!['/'] + steps[i]->original;
            assert(rel(q) =~= steps[i]->original);
            lemma_under_rel(q, p);
        }
    }
}

/// What a branch finds lies in the base or in a place of a branch that it looks through.
proof fn lemma_found_place(
    m: Forest,
    d: Set<LocationView>,
    name: Text,
    p: Text,
    s: Set<Text>,
    n: nat,
)
    requires
        ends(m, name, n),
        avoids(m, name, s, n),
        resolve(m, d, name, p, n) matches Ok(Some(_)),
    ensures
        resolve(m, d, name, p, n) matches Ok(Some(l)) ==> !owned(s, l.place),
    decreases n,
{
    if m.dom().contains(name) {
        match m[name].parent {
            Some(q) => {
                if m[name].inheritance == InheritanceMode::Lazy && !d.contains(
                    located(PlaceView::Files(name), p),
                ) {
                    lemma_found_place(m, d, q, p, s, (n - 1) as nat);
                }
            },
            None => {},
        }
    }
}

proof fn lemma_avoids_both(m: Forest, name: Text, a: Text, b: Text, n: nat)
    requires
        avoids(m, name, set![a], n),
        leaf(m, b),
        name != b,
    ensures
        avoids(m, name, set![a, b], n),
    decreases n,
{
    if n > 0 && m.dom().contains(name) && m[name].inheritance == InheritanceMode::Lazy
        && m[name].parent is Some {
        assert(m[name].parent != Some(b));
        lemma_avoids_both(m, m[name].parent->0, a, b, (n - 1) as nat);
    }
}

/// Whether a path is clean and stays as it is when it is held against a hide rule.
pub open spec fn plain(p: Text) -> bool {
    clean(p) && normalized(p) == Some(p)
}

/// A commit into another branch takes effect: the parent sees the file or its merge at each path
/// that the branch wrote, nothing where the branch deleted, and elsewhere what it saw before.
pub proof fn law_commit_lands_in_parent<N>(
    m: Forest,
    files: Files<N>,
    files2: Files<N>,
    c: Text,
    gone_paths: Seq<Text>,
    flags: Seq<bool>,
    written_paths: Seq<Text>,
    content: spec_fn(Text) -> N,
    p: Text,
)
    requires
        commit_fault(m, c) is None,
        m[c].parent->0 != "main"@,
        rooted(m, m[c].parent->0),
        gone_paths.to_set() == m[c].tombs,
        flags.len() == gone_paths.len(),
        forall|i: int|
            #![trigger gone_paths[i]]
            0 <= i < gone_paths.len() ==> unhidden(
                m,
                present(files),
                m[c].parent->0,
                gone_paths[i],
            ) is Ok && flags[i] == (unhidden(m, present(files), m[c].parent->0, gone_paths[i])
                != Ok::<Option<LocationView>, Text>(None)),
        forall|k: Text, t: Text|
            m.dom().contains(k) && #[trigger] m[k].tombs.contains(t) ==> plain(t),
        delta_of(m, files, c, written_paths.to_set()),
        nested_commit(
            files,
            files2,
            c,
            m[c].parent->0,
            m[c].tombs,
            written_paths.to_set(),
            content,
        ),
        plain(p),
        settled(m[c].tombs, written_paths.to_set(), p),
    ensures
        sees(
            committed_forest(m, c, gone_paths, flags, written_paths),
            files2,
            m[c].parent->0,
            p,
        ) == if written_paths.contains(p) {
            Some(content(p))
        } else if covers(m[c].tombs, p) {
            None
        } else {
            sees(m, files, m[c].parent->0, p)
        },
{
    let q = m[c].parent->0;
    let written = written_paths.to_set();
    let gone = m[c].tombs;
    let now = parent_after(m, c, gone_paths, flags, written_paths);
    let m2 = committed_forest(m, c, gone_paths, flags, written_paths);
    let (d, d2) = (present(files), present(files2));
    let own = PlaceView::Files(q);
    assert(q != c) by {
        assert(m.dom().contains(c));
    }
    lemma_spot(own, p);
    law_resolution_order(m, d, q, p);
    lemma_commit_frame(m, files, files2, c, now, p);
    law_resolution_order(m2, d2, q, p);
    assert(under(p, p));
    lemma_occupied(files2, own, p);
    assert(held(files2, spot(own, p)) == merged_at(files, own, gone, written, content, p));
    assert forall|t: Text| #[trigger] now.tombs.contains(t) implies clean(t) by {
        if gone_paths.contains(t) {
            assert(gone.contains(t));
        } else {
            assert(m[q].tombs.contains(t));
        }
    }
    assert forall|t: Text| #[trigger] m[q].tombs.contains(t) implies clean(t) by {}
    lemma_deleted_clean(now.tombs, p);
    lemma_deleted_clean(m[q].tombs, p);
    if written.contains(p) {
        assert(files2.dom().contains(spot(own, p)));
    } else if covers(gone, p) {
        assert(!d2.contains(spot(own, p))) by {
            if d2.contains(spot(own, p)) {
                let x = choose|x: Text|
                    clean(x) && #[trigger] files2.dom().contains(spot(own, x)) && under(p, x);
                lemma_covered_below(gone, written, p, x);
                assert(!written.contains(x));
                assert(held(files2, spot(own, x)) == merged_at(
                    files,
                    own,
                    gone,
                    written,
                    content,
                    x,
                ));
            }
        }
        let t = choose|t: Text| #[trigger] gone.contains(t) && under(t, p);
        assert(gone_paths.contains(t));
        let i = choose|i: int| 0 <= i < gone_paths.len() && gone_paths[i] == t;
        assert(!written_paths.contains(t)) by {
            if written_paths.contains(t) {
                assert(written.contains(t));
            }
        }
        if flags[i] {
            assert(gone_paths[i] == t && flags[i]);
            assert(now.tombs.contains(t));
        } else {
            assert(unhidden(m, d, q, t) == Ok::<Option<LocationView>, Text>(None));
            assert(plain(t));
            if hidden(m[q].hide, t) {
                lemma_hidden_below(m[q].hide, t, p);
            } else {
                lemma_inherited_absent(m, files, q, t, p);
            }
        }
    } else {
        assert forall|x: Text| clean(x) && under(p, x) implies #[trigger] held(
            files2,
            spot(own, x),
        ) == held(files, spot(own, x)) by {
            lemma_below_left_alone(gone, written, p, x);
        }
        lemma_left_alone(files, files2, own, gone, written, p);
        assert(deleted(now.tombs, p) == deleted(m[q].tombs, p)) by {
            if deleted(now.tombs, p) {
                let t = choose|t: Text| #[trigger] now.tombs.contains(t) && under(t, p);
                assert(!gone_paths.contains(t)) by {
                    if gone_paths.contains(t) {
                        assert(gone.contains(t));
                    }
                }
                assert(m[q].tombs.contains(t));
            }
            if deleted(m[q].tombs, p) {
                let t = choose|t: Text| #[trigger] m[q].tombs.contains(t) && under(t, p);
                assert(!gone_paths.contains(t)) by {
                    if gone_paths.contains(t) {
                        assert(gone.contains(t));
                    }
                }
                assert(!written_paths.contains(t)) by {
                    if written_paths.contains(t) {
                        assert(written.contains(t));
                    }
                }
                assert(now.tombs.contains(t));
            }
        }
    }
}

/// A commit of a lazy branch into another branch shows: where the branch saw a file of its own,
/// the parent sees that file or its merge; where the branch deleted a path, the parent sees
/// nothing; and where the branch changed nothing, the parent sees what the branch saw.
pub proof fn law_commit_shows_in_parent<N>(
    m: Forest,
    files: Files<N>,
    files2: Files<N>,
    c: Text,
    gone_paths: Seq<Text>,
    flags: Seq<bool>,
    written_paths: Seq<Text>,
    content: spec_fn(Text) -> N,
    p: Text,
)
    requires
        commit_fault(m, c) is None,
        m[c].parent->0 != "main"@,
        m[c].inheritance == InheritanceMode::Lazy,
        rooted(m, m[c].parent->0),
        gone_paths.to_set() == m[c].tombs,
        flags.len() == gone_paths.len(),
        forall|i: int|
            #![trigger gone_paths[i]]
            0 <= i < gone_paths.len() ==> unhidden(
                m,
                present(files),
                m[c].parent->0,
                gone_paths[i],
            ) is Ok && flags[i] == (unhidden(m, present(files), m[c].parent->0, gone_paths[i])
                != Ok::<Option<LocationView>, Text>(None)),
        forall|k: Text, t: Text|
            m.dom().contains(k) && #[trigger] m[k].tombs.contains(t) ==> plain(t),
        delta_of(m, files, c, written_paths.to_set()),
        nested_commit(
            files,
            files2,
            c,
            m[c].parent->0,
            m[c].tombs,
            written_paths.to_set(),
            content,
        ),
        plain(p),
        settled(m[c].tombs, written_paths.to_set(), p),
        !hidden(m[c].hide, p),
    ensures
        sees(
            committed_forest(m, c, gone_paths, flags, written_paths),
            files2,
            m[c].parent->0,
            p,
        ) == if written_paths.contains(p) {
            Some(content(p))
        } else {
            sees(m, files, c, p)
        },
        written_paths.contains(p) ==> sees(m, files, c, p) == Some(
            files[spot(PlaceView::Files(c), p)],
        ),
{
    let q = m[c].parent->0;
    assert(rooted(m, c)) by {
        let n = depth(m, q);
        assert(ends(m, q, n));
        assert(ends(m, c, n + 1));
    }
    lemma_child_sees(m, files, c, written_paths.to_set(), p);
    law_resolution_order(m, present(files), c, p);
    law_commit_lands_in_parent(
        m,
        files,
        files2,
        c,
        gone_paths,
        flags,
        written_paths,
        content,
        p,
    );
}

/// What the parent inherits is what it was: neither its own delta nor the committed branch plays
/// a part in it.
proof fn lemma_commit_frame<N>(
    m: Forest,
    files: Files<N>,
    files2: Files<N>,
    c: Text,
    now: BranchView,
    p: Text,
)
    requires
        commit_fault(m, c) is None,
        rooted(m, m[c].parent->0),
        now.parent == m[m[c].parent->0].parent,
        now.inheritance == m[m[c].parent->0].inheritance,
        forall|l: LocationView|
            l.place != PlaceView::Files(m[c].parent->0) && owner(l.place) != Some(c)
                ==> #[trigger] held(files2, l) == held(files, l),
    ensures
        ({
            let q = m[c].parent->0;
            let m2 = m.insert(q, now).remove(c);
            let found = inherited(m, present(files), q, p);
            &&& rooted(m2, q)
            &&& inherited(m2, present(files2), q, p) == found
            &&& found matches Ok(Some(l)) ==> held(files2, l) == held(files, l)
        }),
{
    let q = m[c].parent->0;
    let m2 = m.insert(q, now).remove(c);
    let (d, d2) = (present(files), present(files2));
    let s = set![q, c];
    assert(q != c) by {
        assert(m.dom().contains(c));
    }
    assert forall|l: LocationView|
        l.place != PlaceView::Files(q) && owner(l.place) != Some(c) implies #[trigger] d.contains(l)
        == d2.contains(l) by {
        if d.contains(l) {
            let f = choose|f: LocationView| #[trigger]
                files.dom().contains(f) && f.place == l.place && under(l.rel, f.rel);
            assert(held(files2, f) == held(files, f));
            assert(files2.dom().contains(f));
        }
        if d2.contains(l) {
            let f = choose|f: LocationView| #[trigger]
                files2.dom().contains(f) && f.place == l.place && under(l.rel, f.rel);
            assert(held(files2, f) == held(files, f));
            assert(files.dom().contains(f));
        }
    }
    assert(same_outside(d, d2, s));
    assert(same_branches(m, m2, s));
    let base = located(PlaceView::Base, p);
    let kept = located(PlaceView::Inherited(q), p);
    assert(d.contains(base) == d2.contains(base));
    assert(d.contains(kept) == d2.contains(kept));
    assert(held(files2, base) == held(files, base));
    assert(held(files2, kept) == held(files, kept));
    match m[q].parent {
        Some(g) => {
            if m[q].inheritance == InheritanceMode::Lazy {
                lemma_parent_independent(m, q);
                let n = depth(m, g);
                assert(ends(m, g, n));
                assert(g != c) by {
                    assert(m.dom().contains(q));
                }
                lemma_avoids_both(m, g, q, c, n);
                law_isolation(m, m2, d, d2, g, p, s);
                let k = depth(m2, g);
                assert(ends(m2, g, k));
                assert(ends(m2, q, k + 1));
                if let Ok(Some(l)) = resolved(m, d, g, p) {
                    lemma_found_place(m, d, g, p, s, n);
                    assert(!owned(s, l.place));
                    assert(held(files2, l) == held(files, l));
                }
            } else {
                assert(ends(m2, q, 1));
            }
        },
        None => {
            assert(ends(m2, q, 1));
        },
    }
}

/// Where a branch does not inherit a directory, it inherits nothing below it.
proof fn lemma_inherited_absent<N>(m: Forest, files: Files<N>, q: Text, t: Text, p: Text)
    requires
        rooted(m, q),
        m.dom().contains(q),
        plain(t),
        plain(p),
        under(t, p),
        forall|k: Text, x: Text|
            m.dom().contains(k) && #[trigger] m[k].tombs.contains(x) ==> plain(x),
        forall|l: LocationView| #[trigger]
            files.dom().contains(l) ==> clean(seq!['/'] + l.rel),
        inherited(m, present(files), q, t) == Ok::<Option<LocationView>, Text>(None),
    ensures
        inherited(m, present(files), q, p) == Ok::<Option<LocationView>, Text>(None),
{
    match m[q].parent {
        None => {
            lemma_spot(PlaceView::Base, t);
            lemma_spot(PlaceView::Base, p);
            lemma_present_above(files, PlaceView::Base, t, p);
        },
        Some(g) => {
            if m[q].inheritance == InheritanceMode::Lazy {
                law_resolution_order(m, present(files), q, p);
                assert(ends(m, g, depth(m, g)));
                lemma_absent_below(m, files, g, t, p, depth(m, g));
            } else {
                lemma_spot(PlaceView::Inherited(q), t);
                lemma_spot(PlaceView::Inherited(q), p);
                lemma_present_above(files, PlaceView::Inherited(q), t, p);
            }
        },
    }
}

/// A commit keeps the parents of every branch in the store and the chain of parents of every branch
/// finite.
pub proof fn law_commit_keeps_parents_in_order(
    m: Forest,
    c: Text,
    deleted_paths: Seq<Text>,
    flags: Seq<bool>,
    written_paths: Seq<Text>,
)
    requires
        closed(m),
        forall|name: Text| #[trigger] rooted(m, name),
        commit_fault(m, c) is None,
    ensures
        closed(committed_forest(m, c, deleted_paths, flags, written_paths)),
        forall|name: Text| #[trigger]
            rooted(committed_forest(m, c, deleted_paths, flags, written_paths), name),
{
    let q = m[c].parent->0;
    let now = parent_after(m, c, deleted_paths, flags, written_paths);
    let mid = m.insert(q, now);
    law_changes_keep_parents_in_order(m, q, now);
    assert(m.dom().contains(c));
    assert(q != c);
    assert forall|k: Text| #[trigger] mid.dom().contains(k) implies mid[k].parent != Some(c) by {
        assert(m.dom().contains(k));
    }
    assert(end_fault(mid, c) is None);
    law_parents_stay_in_order(mid, c, now);
}

/// Removing the deltas of main that a commit into the base supersedes, with all that is below them,
/// removes exactly what main has at the paths that the commit changes and below them.
pub proof fn law_superseded_deltas_are_those_changed(
    gone_paths: Seq<Text>,
    written_paths: Seq<Text>,
    p: Text,
)
    requires
        forall|i: int| 0 <= i < gone_paths.len() ==> clean(#[trigger] gone_paths[i]),
        forall|i: int| 0 <= i < written_paths.len() ==> clean(#[trigger] written_paths[i]),
        clean(p),
    ensures
        ({
            let superseded = (written_paths + gone_paths).map_values(
                |q: Text| located(PlaceView::Files("main"@), q),
            );
            (exists|i: int| 0 <= i < superseded.len() && under(#[trigger] superseded[i].rel, rel(p)))
                <==> covers(written_paths.to_set(), p) || covers(gone_paths.to_set(), p)
        }),
{
    let all = written_paths + gone_paths;
    let n = written_paths.len() as int;
    let superseded = all.map_values(|q: Text| located(PlaceView::Files("main"@), q));
    assert forall|i: int| 0 <= i < all.len() implies clean(#[trigger] all[i]) by {
        if i < n {
            assert(all[i] == written_paths[i]);
        } else {
            assert(all[i] == gone_paths[i - n]);
        }
    }
    assert forall|i: int| 0 <= i < all.len() implies under(#[trigger] superseded[i].rel, rel(p))
        == under(all[i], p) by {
        assert(clean(all[i]));
        lemma_clean(all[i]);
        lemma_under_rel(all[i], p);
    }
    if exists|i: int| 0 <= i < superseded.len() && under(#[trigger] superseded[i].rel, rel(p)) {
        let i = choose|i: int|
            0 <= i < superseded.len() && under(#[trigger] superseded[i].rel, rel(p));
        if i < n {
            assert(written_paths.to_set().contains(written_paths[i]));
        } else {
            assert(gone_paths.to_set().contains(gone_paths[i - n]));
        }
    }
    if covers(written_paths.to_set(), p) {
        let q = choose|q: Text| #[trigger] written_paths.to_set().contains(q) && under(q, p);
        let i = choose|i: int| 0 <= i < n && written_paths[i] == q;
        assert(all[i] == q);
        assert(under(superseded[i].rel, rel(p)));
    }
    if covers(gone_paths.to_set(), p) {
        let q = choose|q: Text| #[trigger] gone_paths.to_set().contains(q) && under(q, p);
        let i = choose|i: int| 0 <= i < gone_paths.len() && gone_paths[i] == q;
        assert(all[n + i] == q);
        assert(under(superseded[n + i].rel, rel(p)));
    }
}

/// Whether the upkeep of main was carried out: the entries at the superseded places are removed
/// with all that is below them, and then the veiled paths are copied from the base.
pub open spec fn kept_up<N>(
    files: Files<N>,
    files2: Files<N>,
    superseded: Seq<LocationView>,
    veiled_paths: Seq<Text>,
) -> bool {
    &&& forall|p: Text|
        clean(p) ==> #[trigger] held(files2, spot(PlaceView::Files("main"@), p))
            == if veiled_paths.contains(p) {
            held(files, spot(PlaceView::Base, p))
        } else if exists|i: int|
            0 <= i < superseded.len() && under(#[trigger] superseded[i].rel, rel(p)) {
            None
        } else {
            held(files, spot(PlaceView::Files("main"@), p))
        }
    &&& forall|l: LocationView|
        l.place != PlaceView::Files("main"@) ==> #[trigger] held(files2, l) == held(files, l)
    &&& forall|l: LocationView| #[trigger]
        files2.dom().contains(l) ==> clean(seq!['/'] + l.rel)
}

/// Publishing a merge in the base and then keeping up main is what a commit into the base does to
/// the data on disk.
pub proof fn law_upkeep_completes_the_commit<N>(
    files: Files<N>,
    published: Files<N>,
    files2: Files<N>,
    main: BranchView,
    gone_paths: Seq<Text>,
    written_paths: Seq<Text>,
    content: spec_fn(Text) -> N,
    veiled_paths: Seq<Text>,
)
    requires
        forall|i: int| 0 <= i < gone_paths.len() ==> clean(#[trigger] gone_paths[i]),
        forall|i: int| 0 <= i < written_paths.len() ==> clean(#[trigger] written_paths[i]),
        forall|p: Text|
            clean(p) ==> #[trigger] held(published, spot(PlaceView::Base, p)) == merged_at(
                files,
                PlaceView::Base,
                gone_paths.to_set(),
                written_paths.to_set(),
                content,
                p,
            ),
        forall|l: LocationView|
            l.place != PlaceView::Base ==> #[trigger] held(published, l) == held(files, l),
        forall|p: Text| #[trigger]
            veiled_paths.contains(p) <==> written_paths.contains(p) && veiled(main, p),
        kept_up(
            published,
            files2,
            (written_paths + gone_paths).map_values(
                |q: Text| located(PlaceView::Files("main"@), q),
            ),
            veiled_paths,
        ),
    ensures
        base_commit(
            files,
            files2,
            main,
            gone_paths.to_set(),
            written_paths.to_set(),
            content,
        ),
{
    let (gone, written) = (gone_paths.to_set(), written_paths.to_set());
    let own = PlaceView::Files("main"@);
    assert forall|p: Text| clean(p) implies #[trigger] held(files2, spot(own, p))
        == if written.contains(p) && veiled(main, p) {
        Some(content(p))
    } else if covers(written, p) || covers(gone, p) {
        None
    } else {
        held(files, spot(own, p))
    } by {
        law_superseded_deltas_are_those_changed(gone_paths, written_paths, p);
        assert(written.contains(p) <==> written_paths.contains(p));
        assert(held(published, spot(PlaceView::Base, p)) == merged_at(
            files,
            PlaceView::Base,
            gone,
            written,
            content,
            p,
        ));
        assert(held(published, spot(own, p)) == held(files, spot(own, p)));
    }
    assert forall|p: Text| clean(p) implies #[trigger] held(files2, spot(PlaceView::Base, p))
        == merged_at(files, PlaceView::Base, gone, written, content, p) by {
        assert(held(files2, spot(PlaceView::Base, p)) == held(
            published,
            spot(PlaceView::Base, p),
        ));
    }
}

/// Usage stays the total of the deltas: a branch that is aborted no longer counts, and after a
/// commit the parent counts with what its delta then holds. `others` are the bytes of the deltas
/// of all other branches.
pub proof fn law_usage_counts_the_deltas(
    mv: ManagerView,
    name: Text,
    deleted_paths: Seq<Text>,
    flags: Seq<bool>,
    written_paths: Seq<Text>,
    seen: CommitSeen,
    others: int,
)
    requires
        0 <= others,
        others + seen.parent_before <= i64::MAX,
        others + seen.parent_after <= i64::MAX,
        mv.quota.used == others + seen.parent_before + seen.freed,
    ensures
        mv.aborted(name, seen.freed).quota.in_use() == others + seen.parent_before,
        mv.committed(
            name,
            deleted_paths,
            flags,
            written_paths,
            seen.change(),
        ).quota.in_use() == others + seen.parent_after,
{
}

/// How often a path is reported as a conflict.
pub open spec fn conflicts_at(reported: Seq<ConflictView>, p: Text) -> nat
    decreases reported.len(),
{
    if reported.len() == 0 {
        0
    } else {
        conflicts_at(reported.drop_last(), p) + if reported.last().path == p {
            1nat
        } else {
            0
        }
    }
}

/// How often a path is reported as merged.
pub open spec fn merges_at(reported: Seq<AutoMergeView>, p: Text) -> nat
    decreases reported.len(),
{
    if reported.len() == 0 {
        0
    } else {
        merges_at(reported.drop_last(), p) + if reported.last().path == p {
            1nat
        } else {
            0
        }
    }
}

proof fn lemma_conflicts_concat(a: Seq<ConflictView>, b: Seq<ConflictView>, p: Text)
    ensures
        conflicts_at(a + b, p) == conflicts_at(a, p) + conflicts_at(b, p),
    decreases b.len(),
{
    if b.len() == 0 {
        assert(a + b =~= a);
    } else {
        assert((a + b).drop_last() =~= a + b.drop_last());
        lemma_conflicts_concat(a, b.drop_last(), p);
    }
}

proof fn lemma_conflicts_push(a: Seq<ConflictView>, c: ConflictView, p: Text)
    ensures
        conflicts_at(a.push(c), p) == conflicts_at(a, p) + if c.path == p {
            1nat
        } else {
            0
        },
        a.push(c).contains(c),
        forall|x: ConflictView| #[trigger] a.contains(x) ==> a.push(c).contains(x),
{
    assert(a.push(c).drop_last() =~= a);
    assert(a.push(c)[a.len() as int] == c);
    assert forall|x: ConflictView| #[trigger] a.contains(x) implies a.push(c).contains(x) by {
        let k = choose|k: int| 0 <= k < a.len() && a[k] == x;
        assert(a.push(c)[k] == x);
    }
}

proof fn lemma_merges_push(a: Seq<AutoMergeView>, c: AutoMergeView, p: Text)
    ensures
        merges_at(a.push(c), p) == merges_at(a, p) + if c.path == p {
            1nat
        } else {
            0
        },
        a.push(c).contains(c),
        forall|x: AutoMergeView| #[trigger] a.contains(x) ==> a.push(c).contains(x),
{
    assert(a.push(c).drop_last() =~= a);
    assert(a.push(c)[a.len() as int] == c);
    assert forall|x: AutoMergeView| #[trigger] a.contains(x) implies a.push(c).contains(x) by {
        let k = choose|k: int| 0 <= k < a.len() && a[k] == x;
        assert(a.push(c)[k] == x);
    }
}

proof fn lemma_shorter_list(paths: Seq<Text>)
    requires
        paths.len() > 0,
        paths.no_duplicates(),
    ensures
        paths.drop_last().no_duplicates(),
        !paths.drop_last().contains(paths.last()),
        forall|p: Text| #[trigger]
            paths.contains(p) <==> paths.drop_last().contains(p) || p == paths.last(),
{
    let short = paths.drop_last();
    assert forall|p: Text| #[trigger] paths.contains(p) <==> short.contains(p) || p
        == paths.last() by {
        if paths.contains(p) {
            let k = choose|k: int| 0 <= k < paths.len() && paths[k] == p;
            if k < short.len() {
                assert(short[k] == p);
            }
        }
        if short.contains(p) {
            let k = choose|k: int| 0 <= k < short.len() && short[k] == p;
            assert(paths[k] == p);
        }
        assert(paths[paths.len() - 1] == paths.last());
    }
}

/// Each written path appears among the conflicts as often as it conflicts.
proof fn lemma_write_conflicts(b: BranchView, paths: Seq<Text>, seen: Seq<SeenWriteView>, p: Text)
    requires
        paths.no_duplicates(),
    ensures
        !paths.contains(p) ==> conflicts_at(write_conflicts(b, paths, seen), p) == 0,
        forall|i: int|
            0 <= i < paths.len() && #[trigger] paths[i] == p ==> match write_conflict(
                b,
                p,
                seen[i],
            ) {
                Some(c) => conflicts_at(write_conflicts(b, paths, seen), p) == 1
                    && write_conflicts(b, paths, seen).contains(c),
                None => conflicts_at(write_conflicts(b, paths, seen), p) == 0,
            },
    decreases paths.len(),
{
    if paths.len() > 0 {
        let n = paths.len() - 1;
        let rest = write_conflicts(b, paths.drop_last(), seen);
        lemma_shorter_list(paths);
        lemma_write_conflicts(b, paths.drop_last(), seen, p);
        if let Some(c) = write_conflict(b, paths[n], seen[n]) {
            lemma_conflicts_push(rest, c, p);
        }
        assert forall|i: int| 0 <= i < paths.len() && #[trigger] paths[i] == p implies match write_conflict(
            b,
            p,
            seen[i],
        ) {
            Some(c) => conflicts_at(write_conflicts(b, paths, seen), p) == 1 && write_conflicts(
                b,
                paths,
                seen,
            ).contains(c),
            None => conflicts_at(write_conflicts(b, paths, seen), p) == 0,
        } by {
            if i < n {
                assert(paths.drop_last()[i] == p);
                assert(paths.drop_last().contains(p));
            }
        }
    }
}

proof fn lemma_delete_conflicts(b: BranchView, paths: Seq<Text>, seen: Seq<Option<Meta>>, p: Text)
    requires
        paths.no_duplicates(),
    ensures
        !paths.contains(p) ==> conflicts_at(delete_conflicts(b, paths, seen), p) == 0,
        forall|i: int|
            0 <= i < paths.len() && #[trigger] paths[i] == p ==> match delete_conflict(
                b,
                p,
                seen[i],
            ) {
                Some(c) => conflicts_at(delete_conflicts(b, paths, seen), p) == 1
                    && delete_conflicts(b, paths, seen).contains(c),
                None => conflicts_at(delete_conflicts(b, paths, seen), p) == 0,
            },
    decreases paths.len(),
{
    if paths.len() > 0 {
        let n = paths.len() - 1;
        let rest = delete_conflicts(b, paths.drop_last(), seen);
        lemma_shorter_list(paths);
        lemma_delete_conflicts(b, paths.drop_last(), seen, p);
        if let Some(c) = delete_conflict(b, paths[n], seen[n]) {
            lemma_conflicts_push(rest, c, p);
        }
        assert forall|i: int| 0 <= i < paths.len() && #[trigger] paths[i] == p implies match delete_conflict(
            b,
            p,
            seen[i],
        ) {
            Some(c) => conflicts_at(delete_conflicts(b, paths, seen), p) == 1 && delete_conflicts(
                b,
                paths,
                seen,
            ).contains(c),
            None => conflicts_at(delete_conflicts(b, paths, seen), p) == 0,
        } by {
            if i < n {
                assert(paths.drop_last()[i] == p);
                assert(paths.drop_last().contains(p));
            }
        }
    }
}

proof fn lemma_auto_merges(b: BranchView, paths: Seq<Text>, seen: Seq<SeenWriteView>, p: Text)
    requires
        paths.no_duplicates(),
    ensures
        !paths.contains(p) ==> merges_at(auto_merges(b, paths, seen), p) == 0,
        forall|i: int|
            0 <= i < paths.len() && #[trigger] paths[i] == p ==> if clean_merge(b, p, seen[i])
                is Some {
                merges_at(auto_merges(b, paths, seen), p) == 1 && auto_merges(
                    b,
                    paths,
                    seen,
                ).contains(AutoMergeView { path: p, resolution: "clean_text_merge"@ })
            } else {
                merges_at(auto_merges(b, paths, seen), p) == 0
            },
    decreases paths.len(),
{
    if paths.len() > 0 {
        let n = paths.len() - 1;
        let rest = auto_merges(b, paths.drop_last(), seen);
        lemma_shorter_list(paths);
        lemma_auto_merges(b, paths.drop_last(), seen, p);
        lemma_merges_push(
            rest,
            AutoMergeView { path: paths[n], resolution: "clean_text_merge"@ },
            p,
        );
        assert forall|i: int| 0 <= i < paths.len() && #[trigger] paths[i] == p implies if clean_merge(
            b,
            p,
            seen[i],
        ) is Some {
            merges_at(auto_merges(b, paths, seen), p) == 1 && auto_merges(b, paths, seen).contains(
                AutoMergeView { path: p, resolution: "clean_text_merge"@ },
            )
        } else {
            merges_at(auto_merges(b, paths, seen), p) == 0
        } by {
            if i < n {
                assert(paths.drop_last()[i] == p);
                assert(paths.drop_last().contains(p));
            }
        }
    }
}

/// What stood at a path when the branch first touched it; nothing if it never did.
pub open spec fn first_identity(b: BranchView, p: Text) -> IdentityView {
    if b.touches.dom().contains(p) {
        b.touches[p].base
    } else {
        IdentityView { exists: false, kind: "missing"@, bytes: 0, mtime_ns: None }
    }
}

/// Where commits went into the parent since the fork, every path that the commit writes is
/// reported exactly once if what stood there at the first touch is not what stands there now, and
/// never otherwise: as merged if its text was merged, and else as a conflict that the branch won,
/// which created the path if nothing stood there at first and changed it otherwise. The same holds
/// of every path that the commit deletes, which is never merged. No other path is reported.
pub proof fn law_commit_reports_each_collision_once(
    m: Forest,
    name: Text,
    deleted: Seq<Text>,
    seen_deletes: Seq<Option<Meta>>,
    written: Seq<Text>,
    seen_writes: Seq<SeenWriteView>,
)
    requires
        m[m[name].parent->0].commit_count != m[name].parent_version_at_fork,
        deleted.no_duplicates(),
        written.no_duplicates(),
        forall|p: Text| #[trigger] written.contains(p) ==> !deleted.contains(p),
    ensures
        ({
            let r = report(m, name, deleted, seen_deletes, written, seen_writes);
            &&& r.parent == m[name].parent->0
            &&& forall|i: int|
                0 <= i < written.len() ==> {
                    let p = #[trigger] written[i];
                    let was = first_identity(m[name], p);
                    let now = identity_of(seen_writes[i].current);
                    let merge = replacement(m, name, p, seen_writes[i]);
                    &&& merges_at(r.auto_merges, p) + conflicts_at(r.conflicts, p) == if was
                        == now {
                        0nat
                    } else {
                        1
                    }
                    &&& merges_at(r.auto_merges, p) == 1 <==> merge is Some
                    &&& merge is Some ==> r.auto_merges.contains(
                        AutoMergeView { path: p, resolution: "clean_text_merge"@ },
                    )
                    &&& merge is None && was != now ==> r.conflicts.contains(
                        ConflictView {
                            path: p,
                            session_action: if was.exists {
                                "modify"@
                            } else {
                                "create"@
                            },
                            resolution: "session_won"@,
                            reason: "parent_changed_after_first_touch"@,
                            base_at_first_touch: was,
                            base_at_commit: now,
                        },
                    )
                }
            &&& forall|i: int|
                0 <= i < deleted.len() ==> {
                    let p = #[trigger] deleted[i];
                    let was = first_identity(m[name], p);
                    let now = identity_of(seen_deletes[i]);
                    &&& merges_at(r.auto_merges, p) == 0
                    &&& conflicts_at(r.conflicts, p) == if was == now {
                        0nat
                    } else {
                        1
                    }
                    &&& was != now ==> r.conflicts.contains(
                        ConflictView {
                            path: p,
                            session_action: "delete"@,
                            resolution: "session_won"@,
                            reason: "parent_changed_after_first_touch"@,
                            base_at_first_touch: was,
                            base_at_commit: now,
                        },
                    )
                }
            &&& forall|p: Text|
                !written.contains(p) && !deleted.contains(p) ==> #[trigger] merges_at(
                    r.auto_merges,
                    p,
                ) == 0 && conflicts_at(r.conflicts, p) == 0
        }),
{
    let b = m[name];
    let r = report(m, name, deleted, seen_deletes, written, seen_writes);
    let dels = delete_conflicts(b, deleted, seen_deletes);
    let wris = write_conflicts(b, written, seen_writes);
    assert(r.conflicts == dels + wris);
    assert forall|c: ConflictView| dels.contains(c) || wris.contains(c) implies #[trigger]
        r.conflicts.contains(c) by {
        if dels.contains(c) {
            let k = choose|k: int| 0 <= k < dels.len() && dels[k] == c;
            assert(r.conflicts[k] == c);
        } else {
            let k = choose|k: int| 0 <= k < wris.len() && wris[k] == c;
            assert(r.conflicts[dels.len() + k] == c);
        }
    }
    assert forall|p: Text| #![trigger first_identity(b, p)] first_identity(b, p) == base_of(b, p) by {
    }
    assert forall|i: int| 0 <= i < written.len() implies {
        let p = #[trigger] written[i];
        let was = first_identity(m[name], p);
        let now = identity_of(seen_writes[i].current);
        let merge = replacement(m, name, p, seen_writes[i]);
        &&& merges_at(r.auto_merges, p) + conflicts_at(r.conflicts, p) == if was == now {
            0nat
        } else {
            1
        }
        &&& merges_at(r.auto_merges, p) == 1 <==> merge is Some
        &&& merge is Some ==> r.auto_merges.contains(
            AutoMergeView { path: p, resolution: "clean_text_merge"@ },
        )
        &&& merge is None && was != now ==> r.conflicts.contains(
            ConflictView {
                path: p,
                session_action: if was.exists {
                    "modify"@
                } else {
                    "create"@
                },
                resolution: "session_won"@,
                reason: "parent_changed_after_first_touch"@,
                base_at_first_touch: was,
                base_at_commit: now,
            },
        )
    } by {
        let p = written[i];
        assert(written.contains(p));
        lemma_conflicts_concat(dels, wris, p);
        lemma_delete_conflicts(b, deleted, seen_deletes, p);
        lemma_write_conflicts(b, written, seen_writes, p);
        lemma_auto_merges(b, written, seen_writes, p);
    }
    assert forall|i: int| 0 <= i < deleted.len() implies {
        let p = #[trigger] deleted[i];
        let was = first_identity(m[name], p);
        let now = identity_of(seen_deletes[i]);
        &&& merges_at(r.auto_merges, p) == 0
        &&& conflicts_at(r.conflicts, p) == if was == now {
            0nat
        } else {
            1
        }
        &&& was != now ==> r.conflicts.contains(
            ConflictView {
                path: p,
                session_action: "delete"@,
                resolution: "session_won"@,
                reason: "parent_changed_after_first_touch"@,
                base_at_first_touch: was,
                base_at_commit: now,
            },
        )
    } by {
        let p = deleted[i];
        assert(deleted.contains(p));
        assert(!written.contains(p));
        lemma_conflicts_concat(dels, wris, p);
        lemma_delete_conflicts(b, deleted, seen_deletes, p);
        lemma_write_conflicts(b, written, seen_writes, p);
        lemma_auto_merges(b, written, seen_writes, p);
    }
    assert forall|p: Text| !written.contains(p) && !deleted.contains(p) implies #[trigger] merges_at(
        r.auto_merges,
        p,
    ) == 0 && conflicts_at(r.conflicts, p) == 0 by {
        lemma_conflicts_concat(dels, wris, p);
        lemma_delete_conflicts(b, deleted, seen_deletes, p);
        lemma_write_conflicts(b, written, seen_writes, p);
        lemma_auto_merges(b, written, seen_writes, p);
    }
}

/// Where nothing went into the parent since the fork, a commit reports nothing and merges nothing.
pub proof fn law_undisturbed_commit_reports_nothing(
    m: Forest,
    name: Text,
    deleted: Seq<Text>,
    seen_deletes: Seq<Option<Meta>>,
    written: Seq<Text>,
    seen_writes: Seq<SeenWriteView>,
)
    requires
        m[m[name].parent->0].commit_count == m[name].parent_version_at_fork,
    ensures
        ({
            let r = report(m, name, deleted, seen_deletes, written, seen_writes);
            &&& r.parent == m[name].parent->0
            &&& r.auto_merges.len() == 0
            &&& r.conflicts.len() == 0
            &&& forall|p: Text, w: SeenWriteView| #[trigger] replacement(m, name, p, w) is None
        }),
{
}

/// A commit puts a merged text at a path exactly if commits went into the parent since the fork,
/// the path was a file at the first touch, is one now and is another one now, the text that was
/// kept at the first touch is at hand, and both texts are small files of text without a null byte
/// that can be merged with it. What it puts there is their merge.
pub proof fn law_commit_merges_texts(m: Forest, name: Text, p: Text, w: SeenWriteView)
    ensures
        ({
            let was = first_identity(m[name], p);
            let now = identity_of(w.current);
            let small = |found: Option<Meta>| found is Some && found->0.kind == FileKind::File
                && found->0.len <= 1048576;
            let text = |b: Seq<u8>| (forall|i: int| 0 <= i < b.len() ==> #[trigger] b[i] != 0)
                && vstd::utf8::valid_utf8(b);
            let mergeable = {
                &&& m[m[name].parent->0].commit_count != m[name].parent_version_at_fork
                &&& was != now
                &&& was.kind == "file"@
                &&& m[name].touches.dom().contains(p) && m[name].touches[p].key is Some
                &&& w.base is Some
                &&& small(w.current) && text(w.current_bytes)
                &&& small(w.session) && text(w.session_bytes)
            };
            replacement(m, name, p, w) == if mergeable {
                merged(w.base->0, w.current_bytes, w.session_bytes)
            } else {
                None
            }
        }),
{
    reveal_strlit("missing");
    reveal_strlit("file");
    reveal_strlit("dir");
    reveal_strlit("symlink");
    reveal_strlit("other");
    assert(first_identity(m[name], p) == base_of(m[name], p));
    assert("missing"@.len() == 7 && "file"@.len() == 4);
    assert forall|b: Seq<u8>| #![trigger b.contains(0)]
        (forall|i: int| 0 <= i < b.len() ==> #[trigger] b[i] != 0) == !b.contains(0) by {
        if !b.contains(0) {
            assert forall|i: int| 0 <= i < b.len() implies #[trigger] b[i] != 0 by {
                assert(b.contains(b[i]));
            }
        }
    }
}

/// Two findings at a path count as the same exactly if nothing was there both times, or an entry
/// of the same kind with the same time of modification and, if it is a file, of the same length.
pub proof fn law_identities_tell_changes(a: Option<Meta>, b: Option<Meta>)
    ensures
        identity_of(a) == identity_of(b) <==> match (a, b) {
            (None, None) => true,
            (Some(x), Some(y)) => x.kind == y.kind && x.mtime_ns == y.mtime_ns && (x.kind
                == FileKind::File ==> x.len == y.len),
            _ => false,
        },
        identity_of(a).exists <==> a is Some,
{
    reveal_strlit("file");
    reveal_strlit("dir");
    reveal_strlit("symlink");
    reveal_strlit("other");
    assert("file"@.len() == 4 && "dir"@.len() == 3 && "symlink"@.len() == 7 && "other"@.len() == 5);
}

/// Once a branch is committed it is gone, and every other branch that was forked from the same
/// state of the parent is kept as it is and finds that the parent has moved.
pub proof fn law_siblings_notice_a_commit(
    m: Forest,
    name: Text,
    sibling: Text,
    deleted: Seq<Text>,
    inherited: Seq<bool>,
    written: Seq<Text>,
)
    requires
        commit_fault(m, name) is None,
        m.dom().contains(sibling),
        sibling != name,
        m[name].parent != Some(sibling),
        m[sibling].parent == m[name].parent,
        m[sibling].parent_version_at_fork == m[m[name].parent->0].commit_count,
    ensures
        ({
            let after = committed_forest(m, name, deleted, inherited, written);
            let parent = m[name].parent->0;
            &&& after.dom().contains(sibling) && after[sibling] == m[sibling]
            &&& after[parent].commit_count != after[sibling].parent_version_at_fork
            &&& !after.dom().contains(name)
        }),
{
    assert(end_fault(m, name) is None);
}

/// A commit reports in the order of its paths, the deletions first: what it reports of the last
/// path that it writes comes after everything else, and where it writes nothing, so does what it
/// reports of the last path that it deletes.
pub proof fn law_report_follows_the_paths(
    m: Forest,
    name: Text,
    deleted: Seq<Text>,
    seen_deletes: Seq<Option<Meta>>,
    written: Seq<Text>,
    seen_writes: Seq<SeenWriteView>,
)
    ensures
        ({
            let r = report(m, name, deleted, seen_deletes, written, seen_writes);
            let fewer = report(m, name, deleted, seen_deletes, written.drop_last(), seen_writes);
            let none = report(m, name, deleted, seen_deletes, seq![], seen_writes);
            let still = report(m, name, deleted.drop_last(), seen_deletes, seq![], seen_writes);
            &&& written.len() > 0 ==> fewer.conflicts.is_prefix_of(r.conflicts)
                && fewer.auto_merges.is_prefix_of(r.auto_merges) && r.conflicts.len()
                <= fewer.conflicts.len() + 1 && r.auto_merges.len() <= fewer.auto_merges.len() + 1
            &&& deleted.len() > 0 ==> still.conflicts.is_prefix_of(none.conflicts)
                && none.conflicts.len() <= still.conflicts.len() + 1
            &&& none.auto_merges.len() == 0
        }),
{
    let b = m[name];
    let r = report(m, name, deleted, seen_deletes, written, seen_writes);
    let none = report(m, name, deleted, seen_deletes, seq![], seen_writes);
    if written.len() > 0 {
        let fewer = report(m, name, deleted, seen_deletes, written.drop_last(), seen_writes);
        assert(fewer.conflicts =~= r.conflicts.take(fewer.conflicts.len() as int));
        assert(fewer.auto_merges =~= r.auto_merges.take(fewer.auto_merges.len() as int));
    }
    if deleted.len() > 0 {
        let still = report(m, name, deleted.drop_last(), seen_deletes, seq![], seen_writes);
        assert(write_conflicts(b, seq![], seen_writes) =~= seq![]);
        assert(still.conflicts =~= none.conflicts.take(still.conflicts.len() as int));
    }
}

} // verus!
