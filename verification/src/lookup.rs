//! What a branch sees: how a path resolves through the branch and its parents, and which names a
//! directory shows.
//!
//! A set of locations stands for the entries that are present on disk.

use vstd::prelude::*;
use vstd::string::*;

use crate::branch::{hidden_by, BranchView};
use crate::errors::{BranchError, ErrorView};
use crate::journal::insert_text;
use crate::paths::{
    deleted, hidden, listed_child, listed_child_of, located, location_views, Location,
    LocationView, PlaceView,
};
use crate::records::InheritanceMode;
use crate::text::{opt_text, texts, Text};

verus! {

/// Branches by their names.
pub type Forest = Map<Text, BranchView>;

/// Whether the parents of a branch, as far as it looks through them, come to an end within `n`
/// steps.
pub open spec fn ends(m: Forest, name: Text, n: nat) -> bool
    decreases n,
{
    if n == 0 {
        false
    } else if !m.dom().contains(name) {
        true
    } else {
        match m[name].parent {
            Some(q) if m[name].inheritance == InheritanceMode::Lazy => ends(
                m,
                q,
                (n - 1) as nat,
            ),
            _ => true,
        }
    }
}

/// Whether the parents of a branch come to an end.
pub open spec fn rooted(m: Forest, name: Text) -> bool {
    exists|n: nat| ends(m, name, n)
}

/// How many steps the parents of a branch take to come to an end.
pub open spec fn depth(m: Forest, name: Text) -> nat {
    choose|n: nat| ends(m, name, n)
}

/// An entry, if it is there.
pub open spec fn probe(d: Set<LocationView>, l: LocationView) -> Result<Option<LocationView>, Text> {
    Ok(
        if d.contains(l) {
            Some(l)
        } else {
            None
        },
    )
}

pub open spec fn resolve(m: Forest, d: Set<LocationView>, name: Text, p: Text, n: nat) -> Result<
    Option<LocationView>,
    Text,
>
    decreases n,
{
    if n == 0 {
        Ok(None)
    } else if !m.dom().contains(name) {
        Err(name)
    } else {
        let b = m[name];
        let delta = located(PlaceView::Files(name), p);
        if d.contains(delta) {
            Ok(Some(delta))
        } else if deleted(b.tombs, p) || hidden(b.hide, p) {
            Ok(None)
        } else {
            match b.parent {
                None => probe(d, located(PlaceView::Base, p)),
                Some(q) => if b.inheritance == InheritanceMode::Lazy {
                    resolve(m, d, q, p, (n - 1) as nat)
                } else {
                    probe(d, located(PlaceView::Inherited(name), p))
                },
            }
        }
    }
}

/// Where `p` lies for a branch: in its own delta; else nowhere if it deleted or hides the path;
/// else where it inherits the path from. The error is the name of a branch that does not exist.
pub open spec fn resolved(m: Forest, d: Set<LocationView>, name: Text, p: Text) -> Result<
    Option<LocationView>,
    Text,
> {
    resolve(m, d, name, p, depth(m, name))
}

/// Where a branch inherits `p` from: the base, what its parent sees, or its own snapshot.
pub open spec fn inherited(m: Forest, d: Set<LocationView>, name: Text, p: Text) -> Result<
    Option<LocationView>,
    Text,
> {
    match m[name].parent {
        None => probe(d, located(PlaceView::Base, p)),
        Some(q) => if m[name].inheritance == InheritanceMode::Lazy {
            resolved(m, d, q, p)
        } else {
            probe(d, located(PlaceView::Inherited(name), p))
        },
    }
}

/// Where a branch inherits `p` from, unless it hides the path.
pub open spec fn unhidden(m: Forest, d: Set<LocationView>, name: Text, p: Text) -> Result<
    Option<LocationView>,
    Text,
> {
    if hidden(m[name].hide, p) {
        Ok(None)
    } else {
        inherited(m, d, name, p)
    }
}

pub proof fn lemma_resolve_fuel(
    m: Forest,
    d: Set<LocationView>,
    name: Text,
    p: Text,
    n: nat,
    k: nat,
)
    requires
        ends(m, name, n),
        ends(m, name, k),
    ensures
        resolve(m, d, name, p, n) == resolve(m, d, name, p, k),
    decreases n,
{
    if m.dom().contains(name) {
        match m[name].parent {
            Some(q) => {
                if m[name].inheritance == InheritanceMode::Lazy {
                    lemma_resolve_fuel(m, d, q, p, (n - 1) as nat, (k - 1) as nat);
                }
            },
            None => {},
        }
    }
}

/// The order in which a path is looked up: delta, then tombstone, then hide rule, then what is
/// inherited.
pub proof fn law_resolution_order(m: Forest, d: Set<LocationView>, name: Text, p: Text)
    requires
        rooted(m, name),
    ensures
        resolved(m, d, name, p) == (if !m.dom().contains(name) {
            Err(name)
        } else if d.contains(located(PlaceView::Files(name), p)) {
            Ok(Some(located(PlaceView::Files(name), p)))
        } else if deleted(m[name].tombs, p) || hidden(m[name].hide, p) {
            Ok(None)
        } else {
            inherited(m, d, name, p)
        }),
        m.dom().contains(name) && m[name].parent is Some && m[name].inheritance
            == InheritanceMode::Lazy ==> rooted(m, m[name].parent->0),
{
    let n = depth(m, name);
    assert(ends(m, name, n));
    if m.dom().contains(name) {
        match m[name].parent {
            Some(q) => {
                if m[name].inheritance == InheritanceMode::Lazy {
                    assert(ends(m, q, (n - 1) as nat));
                    lemma_resolve_fuel(m, d, q, p, (n - 1) as nat, depth(m, q));
                }
            },
            None => {},
        }
    }
}

/// A list of entries to look for, in order.
pub struct Search {
    pub places: Vec<Location>,
    /// The branch that does not exist, if the parents lead to one.
    pub missing: Option<String>,
}

pub struct SearchView {
    pub places: Seq<LocationView>,
    pub missing: Option<Text>,
}

impl View for Search {
    type V = SearchView;

    open spec fn view(&self) -> SearchView {
        SearchView { places: location_views(self.places@), missing: opt_text(self.missing) }
    }
}

/// The first of the places that is present.
pub open spec fn first_present(places: Seq<LocationView>, d: Set<LocationView>) -> Option<
    LocationView,
>
    decreases places.len(),
{
    if places.len() == 0 {
        None
    } else if d.contains(places[0]) {
        Some(places[0])
    } else {
        first_present(places.drop_first(), d)
    }
}

/// What a search finds.
pub open spec fn outcome(s: SearchView, d: Set<LocationView>) -> Result<Option<LocationView>, Text> {
    match (first_present(s.places, d), s.missing) {
        (Some(l), _) => Ok(Some(l)),
        (None, Some(q)) => Err(q),
        (None, None) => Ok(None),
    }
}

/// Whether `first` is the index of the first place that is present.
pub open spec fn observed(
    places: Seq<LocationView>,
    first: Option<usize>,
    d: Set<LocationView>,
) -> bool {
    match first {
        Some(i) => i < places.len() && d.contains(places[i as int]) && forall|j: int|
            0 <= j < i ==> !d.contains(#[trigger] places[j]),
        None => forall|j: int| 0 <= j < places.len() ==> !d.contains(#[trigger] places[j]),
    }
}

proof fn lemma_first_present(places: Seq<LocationView>, first: Option<usize>, d: Set<LocationView>)
    requires
        observed(places, first, d),
    ensures
        first_present(places, d) == (match first {
            Some(i) => Some(places[i as int]),
            None => None,
        }),
    decreases places.len(),
{
    if places.len() > 0 {
        let rest = places.drop_first();
        match first {
            Some(i) => {
                if i > 0 {
                    assert(!d.contains(places[0]));
                    assert forall|j: int| 0 <= j < i - 1 implies !d.contains(#[trigger] rest[j]) by {
                        assert(rest[j] == places[j + 1]);
                    }
                    lemma_first_present(rest, Some((i - 1) as usize), d);
                }
            },
            None => {
                assert(!d.contains(places[0]));
                assert forall|j: int| 0 <= j < rest.len() implies !d.contains(
                    #[trigger] rest[j],
                ) by {
                    assert(rest[j] == places[j + 1]);
                }
                lemma_first_present(rest, None, d);
            },
        }
    }
}

/// A location or an error as the contracts write it.
pub open spec fn found_view(r: Result<Option<Location>, BranchError>) -> Result<
    Option<LocationView>,
    ErrorView,
> {
    match r {
        Ok(Some(l)) => Ok(Some(l@)),
        Ok(None) => Ok(None),
        Err(e) => Err(e@),
    }
}

/// What a lookup found, with its error as a branch operation reports it.
pub open spec fn reported(r: Result<Option<LocationView>, Text>) -> Result<
    Option<LocationView>,
    ErrorView,
> {
    match r {
        Ok(l) => Ok(l),
        Err(q) => Err(ErrorView::NotFound(q)),
    }
}

impl Search {
    /// A search that finds nothing.
    pub fn nowhere() -> (r: Search)
        ensures
            r@ == (SearchView { places: seq![], missing: None }),
    {
        let r = Search { places: Vec::new(), missing: None };
        proof {
            assert(location_views(r.places@) =~= seq![]);
        }
        r
    }

    pub fn single(l: Location) -> (r: Search)
        ensures
            r@ == (SearchView { places: seq![l@], missing: None }),
    {
        let ghost v = l@;
        let mut places: Vec<Location> = Vec::new();
        places.push(l);
        proof {
            assert(location_views(places@) =~= seq![v]);
        }
        Search { places, missing: None }
    }

    /// The result of the search, once the first place that is present is known.
    pub fn conclude(&self, first: Option<usize>) -> (r: Result<Option<Location>, BranchError>)
        requires
            first matches Some(i) ==> i < self@.places.len(),
        ensures
            forall|d: Set<LocationView>| #[trigger]
                observed(self@.places, first, d) ==> found_view(r) == reported(outcome(self@, d)),
    {
        let r = match first {
            Some(i) => Ok(Some(self.places[i].duplicate())),
            None => match &self.missing {
                Some(q) => Err(BranchError::NotFound(q.clone())),
                None => Ok(None),
            },
        };
        proof {
            assert forall|d: Set<LocationView>| #[trigger]
                observed(self@.places, first, d) implies found_view(r) == reported(
                outcome(self@, d),
            ) by {
                lemma_first_present(self@.places, first, d);
            }
        }
        r
    }
}

/// One directory that is listed for a branch, and the rules that mask what deeper ones show.
pub struct Layer {
    pub place: Location,
    pub hide: Vec<String>,
}

pub struct LayerView {
    pub place: LocationView,
    pub hide: Seq<Text>,
}

impl View for Layer {
    type V = LayerView;

    open spec fn view(&self) -> LayerView {
        LayerView { place: self.place@, hide: texts(self.hide@) }
    }
}

pub open spec fn layer_views(v: Seq<Layer>) -> Seq<LayerView> {
    v.map_values(|l: Layer| l@)
}

/// The names of a set that no hide rule masks in the directory `rel`.
pub open spec fn unmasked(names: Set<Text>, hide: Seq<Text>, rel: Text) -> Set<Text> {
    names.filter(|c: Text| !hidden(hide, listed_child(rel, c)))
}

pub open spec fn names_within(
    m: Forest,
    list: spec_fn(LocationView) -> Set<Text>,
    name: Text,
    rel: Text,
    n: nat,
) -> Result<Set<Text>, Text>
    decreases n,
{
    if n == 0 {
        Ok(Set::empty())
    } else if !m.dom().contains(name) {
        Err(name)
    } else {
        let b = m[name];
        let own = list(located(PlaceView::Files(name), rel));
        let below = match b.parent {
            None => Ok(list(located(PlaceView::Base, rel))),
            Some(q) => if b.inheritance == InheritanceMode::Lazy {
                names_within(m, list, q, rel, (n - 1) as nat)
            } else {
                Ok(list(located(PlaceView::Inherited(name), rel)))
            },
        };
        match below {
            Ok(names) => Ok(own.union(unmasked(names, b.hide, rel))),
            Err(q) => Err(q),
        }
    }
}

/// The names that the directory `rel` may show on a branch, where `list` gives the names in each
/// directory on disk: those of the delta, and those that are inherited and not hidden.
pub open spec fn visible_names(
    m: Forest,
    list: spec_fn(LocationView) -> Set<Text>,
    name: Text,
    rel: Text,
) -> Result<Set<Text>, Text> {
    names_within(m, list, name, rel, depth(m, name))
}

pub proof fn lemma_names_fuel(
    m: Forest,
    list: spec_fn(LocationView) -> Set<Text>,
    name: Text,
    rel: Text,
    n: nat,
    k: nat,
)
    requires
        ends(m, name, n),
        ends(m, name, k),
    ensures
        names_within(m, list, name, rel, n) == names_within(m, list, name, rel, k),
    decreases n,
{
    if m.dom().contains(name) {
        match m[name].parent {
            Some(q) => {
                if m[name].inheritance == InheritanceMode::Lazy {
                    lemma_names_fuel(m, list, q, rel, (n - 1) as nat, (k - 1) as nat);
                }
            },
            None => {},
        }
    }
}

/// The names that layers show together, given the names in each.
pub open spec fn layered(layers: Seq<LayerView>, rel: Text, sets: Seq<Set<Text>>) -> Set<Text>
    decreases layers.len(),
{
    if layers.len() == 0 {
        Set::empty()
    } else {
        sets[0].union(
            unmasked(layered(layers.drop_first(), rel, sets.drop_first()), layers[0].hide, rel),
        )
    }
}

/// The names in each of the directories of the layers.
pub open spec fn listed(layers: Seq<LayerView>, list: spec_fn(LocationView) -> Set<Text>) -> Seq<
    Set<Text>,
> {
    layers.map_values(|l: LayerView| list(l.place))
}

/// The directories that make up a directory of a branch.
pub struct Listing {
    pub layers: Vec<Layer>,
}

impl Listing {
    /// The names that the directory `rel` shows, each once, given the names in each layer.
    pub fn names(&self, rel: &str, lists: &Vec<Vec<String>>) -> (r: Vec<String>)
        requires
            lists@.len() == self.layers@.len(),
        ensures
            texts(r@).no_duplicates(),
            texts(r@).to_set() == layered(
                layer_views(self.layers@),
                rel@,
                lists@.map_values(|l: Vec<String>| texts(l@).to_set()),
            ),
    {
        let ghost layers = layer_views(self.layers@);
        let ghost sets = lists@.map_values(|l: Vec<String>| texts(l@).to_set());
        let mut acc: Vec<String> = Vec::new();
        let mut k: usize = self.layers.len();
        proof {
            assert(layers.skip(k as int) =~= seq![]);
            assert(texts(acc@) =~= seq![]);
            assert(texts(acc@).to_set() =~= layered(
                layers.skip(k as int),
                rel@,
                sets.skip(k as int),
            ));
        }
        while k > 0
            invariant
                k <= self.layers@.len(),
                lists@.len() == self.layers@.len(),
                layers == layer_views(self.layers@),
                sets == lists@.map_values(|l: Vec<String>| texts(l@).to_set()),
                texts(acc@).no_duplicates(),
                texts(acc@).to_set() == layered(
                    layers.skip(k as int),
                    rel@,
                    sets.skip(k as int),
                ),
            decreases k,
        {
            k = k - 1;
            proof {
                assert(layers.skip(k as int).drop_first() =~= layers.skip(k + 1));
                assert(sets.skip(k as int).drop_first() =~= sets.skip(k + 1));
                assert(layers.skip(k as int)[0] == self.layers@[k as int]@);
                assert(sets.skip(k as int)[0] == texts(lists@[k as int]@).to_set());
            }
            acc = combine(&lists[k], &acc, &self.layers[k].hide, rel);
        }
        proof {
            assert(layers.skip(0) =~= layers);
            assert(sets.skip(0) =~= sets);
        }
        acc
    }
}

/// The names of `own`, and those of `below` that no rule masks.
fn combine(own: &Vec<String>, below: &Vec<String>, hide: &Vec<String>, rel: &str) -> (r: Vec<String>)
    ensures
        texts(r@).no_duplicates(),
        texts(r@).to_set() == texts(own@).to_set().union(
            unmasked(texts(below@).to_set(), texts(hide@), rel@),
        ),
{
    let mut out = crate::branch::distinct_texts(own);
    let ghost mine = texts(own@).to_set();
    let ghost all = texts(below@);
    let ghost rules = texts(hide@);
    let mut i: usize = 0;
    proof {
        assert(all.take(0).to_set() =~= Set::empty());
        assert(texts(out@).to_set() =~= mine.union(unmasked(all.take(0).to_set(), rules, rel@)));
    }
    while i < below.len()
        invariant
            i <= below@.len(),
            all == texts(below@),
            rules == texts(hide@),
            texts(out@).no_duplicates(),
            texts(out@).to_set() == mine.union(
                unmasked(all.take(i as int).to_set(), rules, rel@),
            ),
        decreases below@.len() - i,
    {
        let ghost done = texts(out@).to_set();
        let child = listed_child_of(rel, below[i].as_str());
        let masked = hidden_by(hide, child.as_str());
        if !masked {
            let _ = insert_text(&mut out, below[i].as_str());
        }
        proof {
            let t = all[i as int];
            let (a, b) = (all.take(i as int), all.take(i + 1));
            assert(b =~= a.push(t));
            assert forall|x: Text| #[trigger] b.to_set().contains(x) == (a.to_set().contains(x) || x
                == t) by {
                if a.contains(x) {
                    let j = choose|j: int| 0 <= j < a.len() && a[j] == x;
                    assert(b[j] == x);
                }
                if x == t {
                    assert(b[i as int] == x);
                }
            }
            assert(texts(out@).to_set() =~= mine.union(unmasked(b.to_set(), rules, rel@)));
        }
        i = i + 1;
    }
    proof {
        assert(all.take(i as int) =~= all);
    }
    out
}

/// The names that a directory of a branch may show are those of the delta of the branch, and those
/// of what it inherits that no hide rule of the branch masks: the base for a branch without a
/// parent, what the parent may show for a branch that looks through it, and its snapshot else.
pub proof fn law_listing_order(
    m: Forest,
    list: spec_fn(LocationView) -> Set<Text>,
    name: Text,
    rel: Text,
    child: Text,
)
    requires
        rooted(m, name),
        m.dom().contains(name),
        visible_names(m, list, name, rel) is Ok,
    ensures
        ({
            let b = m[name];
            let below = match b.parent {
                None => list(located(PlaceView::Base, rel)).contains(child),
                Some(q) => if b.inheritance == InheritanceMode::Lazy {
                    visible_names(m, list, q, rel) is Ok && visible_names(
                        m,
                        list,
                        q,
                        rel,
                    )->Ok_0.contains(child)
                } else {
                    list(located(PlaceView::Inherited(name), rel)).contains(child)
                },
            };
            visible_names(m, list, name, rel)->Ok_0.contains(child) <==> list(
                located(PlaceView::Files(name), rel),
            ).contains(child) || (below && !hidden(b.hide, listed_child(rel, child)))
        }),
{
    let n = depth(m, name);
    assert(ends(m, name, n));
    if let Some(q) = m[name].parent {
        if m[name].inheritance == InheritanceMode::Lazy {
            assert(ends(m, q, (n - 1) as nat));
            lemma_names_fuel(m, list, q, rel, (n - 1) as nat, depth(m, q));
        }
    }
}

} // verus!
