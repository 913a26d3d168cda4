//! What directory listings show: every name whose path resolves.

use vstd::prelude::*;

use crate::laws::{clean, lemma_clean, rel};
use crate::lookup::{
    depth, ends, names_within, resolve, resolved, rooted, visible_names, Forest,
};
use crate::paths::{joined, listed_child, located, whole_parts, LocationView, PlaceView};
use crate::records::InheritanceMode;
use crate::text::{slash, trim_front, trim_start_slashes, Text};

verus! {

/// Whether `name` can be the name of an entry.
pub open spec fn is_name(name: Text) -> bool {
    name.len() > 0 && !name.contains('/')
}

/// Whether `dir` can be the path of a directory: the root, or a slash followed by names.
pub open spec fn is_place(dir: Text) -> bool {
    dir == seq!['/'] || clean(dir)
}

/// The entry of a name in a directory on disk.
pub open spec fn entry_of(dir: LocationView, name: Text) -> LocationView {
    LocationView {
        place: dir.place,
        rel: if dir.rel.len() == 0 {
            name
        } else {
            dir.rel + seq!['/'] + name
        },
    }
}

/// Whether the names that are read from each directory are those of all its entries, where `d`
/// are the entries on disk.
pub open spec fn lists_all(d: Set<LocationView>, list: spec_fn(LocationView) -> Set<Text>) -> bool {
    forall|dir: LocationView, name: Text|
        is_name(name) && d.contains(#[trigger] entry_of(dir, name)) ==> list(dir).contains(name)
}

/// A name in a directory makes a path.
pub proof fn lemma_joined_clean(dir: Text, name: Text)
    requires
        is_place(dir),
        is_name(name),
    ensures
        clean(joined(dir, name)),
        rel(joined(dir, name)) == if dir == seq!['/'] {
            name
        } else {
            rel(dir) + seq!['/'] + name
        },
{
    let p = joined(dir, name);
    assert forall|i: int| 0 <= i < name.len() implies #[trigger] name[i] != '/' by {
        assert(name.contains(name[i]));
    }
    if dir == seq!['/'] {
        assert(rel(p) =~= name);
    } else {
        let u = rel(dir);
        let v = rel(p);
        assert(v =~= u + seq!['/'] + name);
        assert(p[0] == '/');
        assert(whole_parts(u));
        assert forall|i: int| 0 < i < v.len() && #[trigger] v[i] == '/' implies v[i - 1] != '/' by {
            if i < u.len() {
                assert(u[i] == '/');
            } else if i == u.len() {
                assert(v[i - 1] == u.last());
            } else {
                assert(v[i] == name[i - u.len() - 1]);
            }
        }
        assert(v.last() == name.last());
    }
}

/// Where a name in a directory lies, and how hide rules see it.
proof fn lemma_entry(place: PlaceView, dir: Text, name: Text)
    requires
        is_place(dir),
        is_name(name),
    ensures
        located(place, joined(dir, name)) == entry_of(located(place, dir), name),
        listed_child(dir, name) == joined(dir, name),
{
    lemma_joined_clean(dir, name);
    lemma_clean(joined(dir, name));
    if dir == seq!['/'] {
        assert(dir.drop_first() =~= seq![]);
        assert(trim_front(dir.drop_first(), slash()) =~= seq![]);
        assert(trim_start_slashes(dir) =~= seq![]);
    } else {
        lemma_clean(dir);
        assert(dir.last() == rel(dir).last());
    }
}

proof fn lemma_resolving_name(
    m: Forest,
    d: Set<LocationView>,
    list: spec_fn(LocationView) -> Set<Text>,
    name: Text,
    dir: Text,
    child: Text,
    n: nat,
)
    requires
        ends(m, name, n),
        lists_all(d, list),
        is_place(dir),
        is_name(child),
        resolve(m, d, name, joined(dir, child), n) matches Ok(Some(_)),
        names_within(m, list, name, dir, n) is Ok,
    ensures
        names_within(m, list, name, dir, n)->Ok_0.contains(child),
    decreases n,
{
    let p = joined(dir, child);
    if n > 0 && m.dom().contains(name) {
        let b = m[name];
        lemma_entry(PlaceView::Files(name), dir, child);
        if !d.contains(located(PlaceView::Files(name), p)) {
            match b.parent {
                None => {
                    lemma_entry(PlaceView::Base, dir, child);
                },
                Some(q) => {
                    if b.inheritance == InheritanceMode::Lazy {
                        lemma_resolving_name(m, d, list, q, dir, child, (n - 1) as nat);
                    } else {
                        lemma_entry(PlaceView::Inherited(name), dir, child);
                    }
                },
            }
        }
    }
}

/// Every name whose path resolves on a branch is listed in its directory.
pub proof fn law_resolving_names_are_listed(
    m: Forest,
    d: Set<LocationView>,
    list: spec_fn(LocationView) -> Set<Text>,
    name: Text,
    dir: Text,
    child: Text,
)
    requires
        rooted(m, name),
        lists_all(d, list),
        is_place(dir),
        is_name(child),
        resolved(m, d, name, joined(dir, child)) matches Ok(Some(_)),
        visible_names(m, list, name, dir) is Ok,
    ensures
        visible_names(m, list, name, dir)->Ok_0.contains(child),
{
    lemma_resolving_name(m, d, list, name, dir, child, depth(m, name));
}

proof fn lemma_listing_succeeds(
    m: Forest,
    list: spec_fn(LocationView) -> Set<Text>,
    name: Text,
    a: Text,
    b: Text,
    n: nat,
)
    ensures
        names_within(m, list, name, a, n) is Ok <==> names_within(m, list, name, b, n) is Ok,
    decreases n,
{
    if n > 0 && m.dom().contains(name) && m[name].parent is Some {
        lemma_listing_succeeds(m, list, m[name].parent->0, a, b, (n - 1) as nat);
    }
}

/// Either all directories of a branch can be listed or none.
pub proof fn law_listings_succeed_together(
    m: Forest,
    list: spec_fn(LocationView) -> Set<Text>,
    name: Text,
    a: Text,
    b: Text,
)
    ensures
        visible_names(m, list, name, a) is Ok <==> visible_names(m, list, name, b) is Ok,
{
    lemma_listing_succeeds(m, list, name, a, b, depth(m, name));
}

} // verus!
