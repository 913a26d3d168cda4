//! Copying what a branch sees into a new branch that keeps it.

use vstd::prelude::*;
use vstd::string::*;

use crate::order::{sort_texts, sorted_texts};
use crate::paths::{join_rel, joined, located, Location, LocationView, Place, PlaceView};
use crate::records::FileKind;
use crate::text::{texts, Text};

verus! {

/// A walk through what a branch sees, the entries of each directory in order. The entries of a
/// directory are taken up when the directory was made at the destination.
pub struct SnapshotWalk {
    /// The branch whose tree is copied.
    pub source: String,
    /// The branch that keeps the copy.
    pub dest: String,
    /// The paths that are still to be visited; the last one comes first.
    pub pending: Vec<String>,
}

/// What is done for one path.
pub enum SnapshotStep {
    /// The path is not there.
    Skip,
    /// A directory is made; what it shows is to be taken up.
    MakeDir { to: Location },
    /// An entry is copied as it is.
    Copy { from: Location, to: Location },
}

pub enum SnapshotStepView {
    Skip,
    MakeDir { to: LocationView },
    Copy { from: LocationView, to: LocationView },
}

impl View for SnapshotStep {
    type V = SnapshotStepView;

    open spec fn view(&self) -> SnapshotStepView {
        match self {
            SnapshotStep::Skip => SnapshotStepView::Skip,
            SnapshotStep::MakeDir { to } => SnapshotStepView::MakeDir { to: to@ },
            SnapshotStep::Copy { from, to } => SnapshotStepView::Copy { from: from@, to: to@ },
        }
    }
}

/// What is done for a path, given what the source sees there.
pub open spec fn snapshot_step(
    dest: Text,
    path: Text,
    found: Option<(LocationView, FileKind)>,
) -> SnapshotStepView {
    let to = located(PlaceView::Inherited(dest), path);
    match found {
        None => SnapshotStepView::Skip,
        Some((from, kind)) => if kind == FileKind::Dir {
            SnapshotStepView::MakeDir { to }
        } else {
            SnapshotStepView::Copy { from, to }
        },
    }
}

/// The paths of the names of a directory.
pub open spec fn children(dir: Text, names: Seq<Text>) -> Seq<Text> {
    names.map_values(|n: Text| joined(dir, n))
}

/// Whether `next` puts the entries of a directory before what was pending: in order, so that the
/// first of them is visited first.
pub open spec fn taken_up(was: Seq<Text>, now: Seq<Text>, dir: Text, names: Seq<Text>) -> bool {
    exists|sorted: Seq<Text>|
        {
            &&& #[trigger] sorted_texts(sorted)
            &&& sorted.to_multiset() == names.to_multiset()
            &&& now == was + children(dir, sorted).reverse()
        }
}

impl SnapshotWalk {
    /// A walk that has taken up nothing yet.
    pub fn start(source: &str, dest: &str) -> (r: SnapshotWalk)
        ensures
            r.source@ == source@,
            r.dest@ == dest@,
            texts(r.pending@) == Seq::<Text>::empty(),
    {
        let r = SnapshotWalk {
            source: source.to_owned(),
            dest: dest.to_owned(),
            pending: Vec::new(),
        };
        proof {
            assert(texts(r.pending@) =~= Seq::<Text>::empty());
        }
        r
    }

    /// Takes up the names that a directory of the source shows.
    pub fn take_up(&mut self, dir: &str, names: &Vec<String>)
        ensures
            final(self).source@ == old(self).source@,
            final(self).dest@ == old(self).dest@,
            taken_up(
                texts(old(self).pending@),
                texts(final(self).pending@),
                dir@,
                texts(names@),
            ),
    {
        let ghost was = texts(self.pending@);
        let sorted = sort_texts(names);
        let ghost order = texts(sorted@);
        let ghost all = children(dir@, order);
        let ghost n = all.len() as int;
        let mut k: usize = sorted.len();
        proof {
            assert(all.skip(n).reverse() =~= seq![]);
            assert(texts(self.pending@) =~= was + all.skip(n).reverse());
        }
        while k > 0
            invariant
                k <= sorted@.len(),
                n == all.len(),
                n == sorted@.len(),
                order == texts(sorted@),
                all == children(dir@, order),
                self.source@ == old(self).source@,
                self.dest@ == old(self).dest@,
                texts(self.pending@) == was + all.skip(k as int).reverse(),
            decreases k,
        {
            k = k - 1;
            let ghost before = texts(self.pending@);
            let child = join_rel(dir, sorted[k].as_str());
            let ghost one = child@;
            self.pending.push(child);
            proof {
                assert(order[k as int] == sorted@[k as int]@);
                assert(all[k as int] == one);
                assert(texts(self.pending@) =~= before.push(one));
                assert(all.skip(k as int).reverse() =~= all.skip(k + 1).reverse().push(one));
                assert(before.push(one) =~= was + all.skip(k as int).reverse());
            }
        }
        proof {
            assert(all.skip(0) =~= all);
            assert(sorted_texts(order));
        }
    }

    /// The path that is visited next.
    pub fn next(&mut self) -> (r: Option<String>)
        ensures
            final(self).source@ == old(self).source@,
            final(self).dest@ == old(self).dest@,
            r is None <==> old(self).pending@.len() == 0,
            r matches Some(p) ==> texts(old(self).pending@) == texts(final(self).pending@).push(
                p@,
            ),
            r is None ==> final(self).pending@ == old(self).pending@,
    {
        let ghost was = texts(self.pending@);
        let r = self.pending.pop();
        proof {
            if r is Some {
                assert(was =~= texts(self.pending@).push(r->0@));
            }
        }
        r
    }

    /// What is done for a path, given what the source sees there.
    pub fn step(&self, path: &str, found: Option<(Location, FileKind)>) -> (r: SnapshotStep)
        ensures
            r@ == snapshot_step(
                self.dest@,
                path@,
                match found {
                    Some((l, k)) => Some((l@, k)),
                    None => None,
                },
            ),
    {
        match found {
            None => SnapshotStep::Skip,
            Some((from, kind)) => {
                let to = Location::at(Place::Inherited(self.dest.clone()), path);
                if kind == FileKind::Dir {
                    SnapshotStep::MakeDir { to }
                } else {
                    SnapshotStep::Copy { from, to }
                }
            },
        }
    }
}

} // verus!
