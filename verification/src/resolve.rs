//! Lookups: where a path of a branch lies, and what a directory of a branch shows.

use vstd::prelude::*;
use vstd::string::*;

use crate::branch::Branch;
use crate::errors::{BranchError, ErrorView};
use crate::lookup::{
    depth, ends, first_present, layer_views, layered, lemma_resolve_fuel, listed, names_within,
    outcome, resolve, resolved, rooted, unhidden, unmasked, visible_names, Forest, Layer,
    LayerView, Listing, Search,
};
use crate::manager::BranchManager;
use crate::paths::{deleted, hidden, located, Location, LocationView, Place, PlaceView};
use crate::records::{BranchState, InheritanceMode};
use crate::table::lemma_rows;
use crate::text::{texts, Text};

verus! {

/// The number of entries that are false.
spec fn open_count(v: Seq<bool>) -> nat
    decreases v.len(),
{
    if v.len() == 0 {
        0
    } else {
        open_count(v.drop_last()) + if v.last() {
            0nat
        } else {
            1nat
        }
    }
}

proof fn lemma_open_count(v: Seq<bool>, i: int)
    requires
        0 <= i < v.len(),
        !v[i],
    ensures
        open_count(v.update(i, true)) + 1 == open_count(v),
    decreases v.len(),
{
    let w = v.update(i, true);
    if i == v.len() - 1 {
        assert(w.drop_last() =~= v.drop_last());
    } else {
        assert(w.drop_last() =~= v.drop_last().update(i, true));
        lemma_open_count(v.drop_last(), i);
    }
}

/// Whether a branch looks through its parent, and the parent exists.
spec fn leans(m: Forest, name: Text) -> bool {
    &&& m.dom().contains(name)
    &&& m[name].parent is Some
    &&& m[name].inheritance == InheritanceMode::Lazy
    &&& m.dom().contains(m[name].parent->0)
}

proof fn lemma_leans(m: Forest, name: Text)
    ensures
        leans(m, name) && rooted(m, m[name].parent->0) ==> rooted(m, name),
        !leans(m, name) ==> rooted(m, name),
{
    if leans(m, name) {
        let q = m[name].parent->0;
        if rooted(m, q) {
            let n = depth(m, q);
            assert(ends(m, q, n));
            assert(ends(m, name, n + 1));
        }
    } else if m.dom().contains(name) {
        if m[name].parent is Some && m[name].inheritance == InheritanceMode::Lazy {
            let q = m[name].parent->0;
            assert(ends(m, q, 1));
            assert(ends(m, name, 2));
        } else {
            assert(ends(m, name, 1));
        }
    } else {
        assert(ends(m, name, 1));
    }
}

/// A branch each of whose fellows leans on another of them has no end to its parents.
proof fn lemma_unrooted(m: Forest, loose: Set<Text>, name: Text, n: nat)
    requires
        loose.contains(name),
        forall|k: Text| #[trigger]
            loose.contains(k) ==> leans(m, k) && loose.contains(m[k].parent->0),
    ensures
        !ends(m, name, n),
    decreases n,
{
    if n > 0 {
        assert(leans(m, name));
        lemma_unrooted(m, loose, m[name].parent->0, (n - 1) as nat);
    }
}

impl BranchManager {
    /// Whether row `i` of the branches is known to be rooted, as far as `known` says.
    spec fn known_rooted(self, known: Seq<bool>) -> bool {
        &&& known.len() == self.branches.rows@.len()
        &&& forall|i: int|
            0 <= i < known.len() && #[trigger] known[i] ==> rooted(
                self@.branches,
                self.branches.rows@[i].0@,
            )
    }

    /// The row of the parent that a row leans on.
    fn leaning_on(&self, i: usize) -> (r: Option<usize>)
        requires
            self.wf(),
            i < self.branches.rows@.len(),
        ensures
            r is Some <==> leans(self@.branches, self.branches.rows@[i as int].0@),
            r matches Some(j) ==> j < self.branches.rows@.len() && Some(
                self.branches.rows@[j as int].0@,
            ) == self@.branches[self.branches.rows@[i as int].0@].parent,
    {
        proof {
            lemma_rows(self.branches);
            assert(self.branches@.dom().contains(self.branches.rows@[i as int].0@));
        }
        let branch = &self.branches.rows[i].1;
        if branch.inheritance != InheritanceMode::Lazy {
            return None;
        }
        match &branch.parent {
            Some(q) => self.branches.find(q.as_str()),
            None => None,
        }
    }

    /// Finds one more row that is rooted.
    fn settle_one(&self, known: &mut Vec<bool>) -> (r: bool)
        requires
            self.wf(),
            self.known_rooted(old(known)@),
        ensures
            self.known_rooted(final(known)@),
            r ==> open_count(final(known)@) < open_count(old(known)@),
            !r ==> final(known)@ == old(known)@ && forall|i: int|
                0 <= i < final(known)@.len() && !(#[trigger] final(known)@[i]) ==> leans(
                    self@.branches,
                    self.branches.rows@[i].0@,
                ) && exists|j: int|
                    0 <= j < final(known)@.len() && !(#[trigger] final(known)@[j]) && Some(
                        self.branches.rows@[j].0@,
                    ) == self@.branches[self.branches.rows@[i].0@].parent,
    {
        let ghost m = self@.branches;
        let ghost rows = self.branches.rows@;
        let mut i: usize = 0;
        while i < known.len()
            invariant
                i <= known@.len(),
                known@ == old(known)@,
                self.wf(),
                m == self@.branches,
                rows == self.branches.rows@,
                self.known_rooted(known@),
                forall|a: int|
                    0 <= a < i && !(#[trigger] known@[a]) ==> leans(m, rows[a].0@) && exists|j: int|
                        0 <= j < known@.len() && !(#[trigger] known@[j]) && Some(rows[j].0@)
                            == m[rows[a].0@].parent,
            decreases known@.len() - i,
        {
            if !known[i] {
                let settled = match self.leaning_on(i) {
                    Some(j) => known[j],
                    None => true,
                };
                if settled {
                    proof {
                        lemma_open_count(known@, i as int);
                        lemma_leans(m, rows[i as int].0@);
                        let after = known@.update(i as int, true);
                        assert forall|a: int| 0 <= a < after.len() && #[trigger] after[a] implies rooted(
                            m,
                            rows[a].0@,
                        ) by {
                            if a != i {
                                assert(known@[a]);
                            }
                        }
                    }
                    known.set(i, true);
                    return true;
                }
            }
            i = i + 1;
        }
        false
    }

    /// Whether the parents of a branch come to an end. A store whose metadata was tampered with
    /// may hold branches that are each other's parents.
    pub fn is_rooted(&self, name: &str) -> (r: bool)
        requires
            self.wf(),
        ensures
            r == rooted(self@.branches, name@),
    {
        let ghost m = self@.branches;
        let ghost rows = self.branches.rows@;
        let mut known: Vec<bool> = Vec::new();
        let mut k: usize = 0;
        while k < self.branches.rows.len()
            invariant
                k <= self.branches.rows@.len(),
                known@.len() == k,
                forall|i: int| 0 <= i < k ==> !(#[trigger] known@[i]),
            decreases self.branches.rows@.len() - k,
        {
            known.push(false);
            k = k + 1;
        }
        let mut more = true;
        while more
            invariant
                self.wf(),
                m == self@.branches,
                rows == self.branches.rows@,
                self.known_rooted(known@),
                !more ==> forall|i: int|
                    0 <= i < known@.len() && !(#[trigger] known@[i]) ==> leans(m, rows[i].0@)
                        && exists|j: int|
                        0 <= j < known@.len() && !(#[trigger] known@[j]) && Some(rows[j].0@)
                            == m[rows[i].0@].parent,
            decreases open_count(known@) + if more { 1int } else { 0int },
        {
            more = self.settle_one(&mut known);
        }
        match self.branches.find(name) {
            None => {
                proof {
                    assert(ends(m, name@, 1));
                }
                true
            },
            Some(i) => {
                proof {
                    if !known@[i as int] {
                        let loose = Set::new(
                            |t: Text|
                                exists|a: int|
                                    0 <= a < known@.len() && !(#[trigger] known@[a])
                                        && rows[a].0@ == t,
                        );
                        assert forall|t: Text| #[trigger] loose.contains(t) implies leans(m, t)
                            && loose.contains(m[t].parent->0) by {
                            let a = choose|a: int|
                                0 <= a < known@.len() && !(#[trigger] known@[a]) && rows[a].0@
                                    == t;
                            let j = choose|j: int|
                                0 <= j < known@.len() && !(#[trigger] known@[j]) && Some(
                                    rows[j].0@,
                                ) == m[rows[a].0@].parent;
                            assert(!known@[j]);
                        }
                        assert(loose.contains(name@));
                        if rooted(m, name@) {
                            lemma_unrooted(m, loose, name@, depth(m, name@));
                        }
                    } else {
                        assert(rooted(m, rows[i as int].0@));
                    }
                }
                known[i]
            },
        }
    }

    /// The entries to look for, from the branch `name` on.
    fn search_from(&self, name: &str, rel: &str, Ghost(n): Ghost<nat>) -> (r: Search)
        requires
            self.wf(),
            ends(self@.branches, name@, n),
        ensures
            forall|d: Set<LocationView>| #[trigger]
                outcome(r@, d) == resolve(self@.branches, d, name@, rel@, n),
        decreases n, 1nat,
    {
        let ghost m = self@.branches;
        match self.branches.get(name) {
            None => {
                let r = Search { places: Vec::new(), missing: Some(name.to_owned()) };
                proof {
                    assert(r@.places =~= seq![]);
                }
                r
            },
            Some(branch) => {
                proof {
                    assert(self.branches@.dom().contains(name@));
                }
                let delta = branch.delta_path(rel);
                let ghost first = delta@;
                let mut below = if branch.is_deleted(rel) || branch.is_hidden(rel) {
                    Search::nowhere()
                } else {
                    self.inherited_from(name, branch, rel, Ghost(n))
                };
                let ghost rest = below@;
                below.places.insert(0, delta);
                proof {
                    assert(below@.places =~= seq![first] + rest.places);
                    assert(below@.places.drop_first() =~= rest.places);
                    assert forall|d: Set<LocationView>| #[trigger] outcome(below@, d) == resolve(
                        m,
                        d,
                        name@,
                        rel@,
                        n,
                    ) by {
                        assert(first == located(PlaceView::Files(name@), rel@));
                        assert(below@.places[0] == first);
                        assert(below@.missing == rest.missing);
                        assert(!d.contains(first) ==> outcome(below@, d) == outcome(rest, d));
                        if deleted(m[name@].tombs, rel@) || hidden(m[name@].hide, rel@) {
                            assert(first_present(rest.places, d) is None);
                            assert(outcome(rest, d) == Ok::<Option<LocationView>, Text>(None));
                        }
                    }
                }
                below
            },
        }
    }

    /// The entries to look for where a branch inherits a path.
    fn inherited_from(&self, name: &str, branch: &Branch, rel: &str, Ghost(n): Ghost<nat>) -> (r:
        Search)
        requires
            self.wf(),
            n > 0,
            self.branches@.dom().contains(name@),
            *branch == self.branches@[name@],
            ends(self@.branches, name@, n),
        ensures
            forall|d: Set<LocationView>| #[trigger]
                outcome(r@, d) == (match self@.branches[name@].parent {
                    None => crate::lookup::probe(d, located(PlaceView::Base, rel@)),
                    Some(q) => if self@.branches[name@].inheritance == InheritanceMode::Lazy {
                        resolve(self@.branches, d, q, rel@, (n - 1) as nat)
                    } else {
                        crate::lookup::probe(d, located(PlaceView::Inherited(name@), rel@))
                    },
                }),
        decreases n, 0nat,
    {
        match &branch.parent {
            None => {
                let r = Search::single(Location::at(Place::Base, rel));
                proof {
                    assert(r@.places.drop_first() =~= seq![]);
                    reveal_with_fuel(first_present, 2);
                }
                r
            },
            Some(q) => {
                if branch.inheritance == InheritanceMode::Lazy {
                    self.search_from(q.as_str(), rel, Ghost((n - 1) as nat))
                } else {
                    let r = Search::single(branch.inherited_path(rel));
                    proof {
                        assert(r@.places.drop_first() =~= seq![]);
                        reveal_with_fuel(first_present, 2);
                    }
                    r
                }
            },
        }
    }

    /// Where a path of a branch may lie, in the order in which to look.
    pub fn resolve_path(&self, branch_name: &str, rel_path: &str) -> (r: Result<Search, BranchError>)
        requires
            self.wf(),
            rooted(self@.branches, branch_name@),
        ensures
            r is Ok <==> self@.branches.dom().contains(branch_name@),
            r matches Err(e) ==> e@ == ErrorView::NotFound(branch_name@),
            r matches Ok(s) ==> forall|d: Set<LocationView>| #[trigger]
                outcome(s@, d) == resolved(self@.branches, d, branch_name@, rel_path@),
    {
        if !self.branches.has(branch_name) {
            return Err(BranchError::NotFound(branch_name.to_owned()));
        }
        let ghost n = depth(self@.branches, branch_name@);
        Ok(self.search_from(branch_name, rel_path, Ghost(n)))
    }

    /// Where a branch may inherit a path from, in the order in which to look; nowhere if the
    /// branch hides the path. The path exists there if the search finds it.
    pub fn inherited_path_exists(&self, branch_name: &str, rel_path: &str) -> (r: Result<
        Search,
        BranchError,
    >)
        requires
            self.wf(),
            rooted(self@.branches, branch_name@),
        ensures
            r is Ok <==> self@.branches.dom().contains(branch_name@),
            r matches Err(e) ==> e@ == ErrorView::NotFound(branch_name@),
            r matches Ok(s) ==> forall|d: Set<LocationView>| #[trigger]
                outcome(s@, d) == unhidden(self@.branches, d, branch_name@, rel_path@),
    {
        let ghost m = self@.branches;
        match self.branches.get(branch_name) {
            None => Err(BranchError::NotFound(branch_name.to_owned())),
            Some(branch) => {
                proof {
                    assert(self.branches@.dom().contains(branch_name@));
                }
                if branch.is_hidden(rel_path) {
                    let s = Search::nowhere();
                    proof {
                        assert forall|d: Set<LocationView>| #[trigger] outcome(s@, d) == unhidden(
                            m,
                            d,
                            branch_name@,
                            rel_path@,
                        ) by {
                            assert(first_present(s@.places, d) is None);
                        }
                    }
                    return Ok(s);
                }
                let ghost n = depth(m, branch_name@);
                proof {
                    assert(ends(m, branch_name@, n));
                }
                let s = self.inherited_from(branch_name, branch, rel_path, Ghost(n));
                proof {
                    assert forall|d: Set<LocationView>| #[trigger] outcome(s@, d) == unhidden(
                        m,
                        d,
                        branch_name@,
                        rel_path@,
                    ) by {
                        match m[branch_name@].parent {
                            Some(q) => {
                                if m[branch_name@].inheritance == InheritanceMode::Lazy {
                                    let k = (n - 1) as nat;
                                    assert(ends(m, q, k));
                                    lemma_resolve_fuel(m, d, q, rel_path@, k, depth(m, q));
                                }
                            },
                            None => {},
                        }
                    }
                }
                Ok(s)
            },
        }
    }

    fn layers_from(&self, name: &str, rel: &str, Ghost(n): Ghost<nat>) -> (r: Result<
        Vec<Layer>,
        BranchError,
    >)
        requires
            self.wf(),
            ends(self@.branches, name@, n),
        ensures
            forall|list: spec_fn(LocationView) -> Set<Text>| #[trigger]
                names_within(self@.branches, list, name@, rel@, n) == names_result(r, rel@, list),
            r matches Err(e) ==> e@ is NotFound,
        decreases n,
    {
        let ghost m = self@.branches;
        match self.branches.get(name) {
            None => Err(BranchError::NotFound(name.to_owned())),
            Some(branch) => {
                proof {
                    assert(self.branches@.dom().contains(name@));
                }
                let own = branch.delta_path(rel);
                let hide = branch.hide_paths.clone();
                let ghost top = LayerView { place: own@, hide: m[name@].hide };
                proof {
                    assert(texts(hide@) =~= m[name@].hide);
                }
                let mut layers: Vec<Layer> = Vec::new();
                match &branch.parent {
                    Some(q) if branch.inheritance == InheritanceMode::Lazy => {
                        match self.layers_from(q.as_str(), rel, Ghost((n - 1) as nat)) {
                            Err(e) => {
                                let r = Err(e);
                                proof {
                                    assert forall|list: spec_fn(LocationView) -> Set<Text>| #[trigger]
                                        names_within(m, list, name@, rel@, n) == names_result(
                                        r,
                                        rel@,
                                        list,
                                    ) by {
                                        assert(names_within(m, list, q@, rel@, (n - 1) as nat) is Err);
                                    }
                                }
                                return r;
                            },
                            Ok(deeper) => {
                                layers = deeper;
                            },
                        }
                    },
                    Some(_) => {
                        layers.push(Layer { place: branch.inherited_path(rel), hide: Vec::new() });
                    },
                    None => {
                        layers.push(Layer { place: Location::at(Place::Base, rel), hide: Vec::new() });
                    },
                }
                let ghost rest = layer_views(layers@);
                layers.insert(0, Layer { place: own, hide });
                let ghost all = layer_views(layers@);
                proof {
                    assert(all =~= seq![top] + rest);
                    assert(all.drop_first() =~= rest);
                    assert forall|list: spec_fn(LocationView) -> Set<Text>| #[trigger] names_within(
                        m,
                        list,
                        name@,
                        rel@,
                        n,
                    ) == Ok::<Set<Text>, Text>(layered(all, rel@, listed(all, list))) by {
                        let sets = listed(all, list);
                        assert(sets.drop_first() =~= listed(rest, list));
                        assert(sets[0] == list(top.place));
                        if !(m[name@].parent is Some && m[name@].inheritance
                            == InheritanceMode::Lazy) {
                            reveal_with_fuel(layered, 3);
                            let only = rest[0];
                            let one = listed(rest, list);
                            assert(rest.drop_first() =~= seq![]);
                            assert(unmasked(Set::<Text>::empty(), only.hide, rel@) =~= Set::empty());
                            assert(layered(rest, rel@, one) =~= list(only.place));
                        } else {
                            let q = m[name@].parent->0;
                            assert(names_within(m, list, q, rel@, (n - 1) as nat) == Ok::<
                                Set<Text>,
                                Text,
                            >(layered(rest, rel@, listed(rest, list))));
                        }
                    }
                }
                Ok(layers)
            },
        }
    }

    /// The directories whose names make up what the directory `rel_path` of a branch may show:
    /// branches resolve against their own deltas plus what they inherit.
    pub fn collect_dir_names(&self, branch_name: &str, rel_path: &str) -> (r: Result<
        Listing,
        BranchError,
    >)
        requires
            self.wf(),
            rooted(self@.branches, branch_name@),
        ensures
            forall|list: spec_fn(LocationView) -> Set<Text>| #[trigger]
                visible_names(self@.branches, list, branch_name@, rel_path@) == (match r {
                    Ok(l) => Ok(
                        layered(
                            layer_views(l.layers@),
                            rel_path@,
                            listed(layer_views(l.layers@), list),
                        ),
                    ),
                    Err(e) => Err(missing_name(e)),
                }),
            r matches Err(e) ==> e@ is NotFound,
    {
        let ghost m = self@.branches;
        let ghost n = depth(m, branch_name@);
        proof {
            assert(ends(m, branch_name@, n));
        }
        match self.layers_from(branch_name, rel_path, Ghost(n)) {
            Ok(layers) => {
                let listing = Listing { layers };
                proof {
                    assert forall|list: spec_fn(LocationView) -> Set<Text>| #[trigger] visible_names(
                        m,
                        list,
                        branch_name@,
                        rel_path@,
                    ) == Ok::<Set<Text>, Text>(
                        layered(
                            layer_views(listing.layers@),
                            rel_path@,
                            listed(layer_views(listing.layers@), list),
                        ),
                    ) by {
                        assert(names_within(m, list, branch_name@, rel_path@, n) == Ok::<
                            Set<Text>,
                            Text,
                        >(
                            layered(
                                layer_views(layers@),
                                rel_path@,
                                listed(layer_views(layers@), list),
                            ),
                        ));
                    }
                }
                Ok(listing)
            },
            Err(e) => {
                proof {
                    assert forall|list: spec_fn(LocationView) -> Set<Text>| #[trigger] visible_names(
                        m,
                        list,
                        branch_name@,
                        rel_path@,
                    ) == Err::<Set<Text>, Text>(missing_name(e)) by {
                        assert(names_within(m, list, branch_name@, rel_path@, n) == Err::<
                            Set<Text>,
                            Text,
                        >(missing_name(e)));
                    }
                }
                Err(e)
            },
        }
    }

    pub fn is_branch_writable(&self, branch_name: &str) -> (r: bool)
        requires
            self.wf(),
        ensures
            r == (self@.branches.dom().contains(branch_name@)
                && self@.branches[branch_name@].state == BranchState::Open),
    {
        match self.branches.get(branch_name) {
            Some(b) => b.is_writable(),
            None => false,
        }
    }

    /// The entry whose presence tells whether a branch has a delta at a path; `None` if there is
    /// no such branch, which then has none.
    pub fn branch_has_delta(&self, branch_name: &str, rel_path: &str) -> (r: Option<Location>)
        requires
            self.wf(),
        ensures
            r is Some <==> self@.branches.dom().contains(branch_name@),
            r matches Some(l) ==> l@ == located(PlaceView::Files(branch_name@), rel_path@),
    {
        match self.branches.get(branch_name) {
            Some(b) => Some(b.has_delta(rel_path)),
            None => None,
        }
    }
}

/// The name in the error that a lookup reports.
pub open spec fn missing_name(e: BranchError) -> Text {
    match e {
        BranchError::NotFound(s) => s@,
        _ => seq![],
    }
}

/// What the names of layers come to, or the branch that is missing.
spec fn names_result(
    r: Result<Vec<Layer>, BranchError>,
    rel: Text,
    list: spec_fn(LocationView) -> Set<Text>,
) -> Result<Set<Text>, Text> {
    match r {
        Ok(layers) => Ok(layered(layer_views(layers@), rel, listed(layer_views(layers@), list))),
        Err(e) => Err(missing_name(e)),
    }
}

} // verus!
