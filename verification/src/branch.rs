//! One branch: what it is, what it deletes, what it saw first, and where its data lies.

use vstd::prelude::*;
use vstd::string::*;
use vstd::utf8::encode_utf8;

use crate::journal::{
    content, insert_text, load_tombstones, log_line, remove_text, snapshot_text,
    stored_tombstones, tombstone_op, write_snapshot,
};
use crate::merge::{is_text, read_bounded_text, readable_as_text};
use crate::names::{random_id, staging_name};
use crate::paths::{
    deleted, deleted_by, hidden, lies_under, located, normalize_hide_path, normalized, under,
    Location, LocationView, Place, PlaceView,
};
use crate::records::{
    identity_of, BranchState, FileKind, InheritanceMode, Meta, PathIdentity, TouchRecord,
    TouchView,
};
use crate::table::Table;
use crate::text::{concat, opt_text, texts, Text};

verus! {

/// What the metadata file of a branch holds.
#[derive(Debug)]
pub struct BranchMetadata {
    pub name: String,
    pub parent: Option<String>,
    pub inheritance: InheritanceMode,
    pub state: BranchState,
    pub parent_version_at_fork: u64,
    pub commit_count: u64,
    /// Inherited paths masked from this branch's view, normalized.
    pub hide_paths: Vec<String>,
}

pub struct MetadataView {
    pub name: Text,
    pub parent: Option<Text>,
    pub inheritance: InheritanceMode,
    pub state: BranchState,
    pub parent_version_at_fork: u64,
    pub commit_count: u64,
    pub hide_paths: Seq<Text>,
}

impl View for BranchMetadata {
    type V = MetadataView;

    open spec fn view(&self) -> MetadataView {
        MetadataView {
            name: self.name@,
            parent: opt_text(self.parent),
            inheritance: self.inheritance,
            state: self.state,
            parent_version_at_fork: self.parent_version_at_fork,
            commit_count: self.commit_count,
            hide_paths: texts(self.hide_paths@),
        }
    }
}

/// What the other files of a branch directory hold when the branch is set up: the deletions with
/// their log, and the first touches with theirs, parsed.
pub struct StoredState {
    pub tombstones: Option<String>,
    pub tombstones_log: Option<String>,
    pub touches: Table<TouchRecord>,
    pub touches_log: Vec<TouchRecord>,
}

impl StoredState {
    /// A directory without any of the files.
    pub fn nothing() -> (r: StoredState)
        ensures
            r.touches.wf(),
            r.is_empty(),
    {
        let r = StoredState {
            tombstones: None,
            tombstones_log: None,
            touches: Table::new(),
            touches_log: Vec::new(),
        };
        proof {
            reveal(Seq::filter);
            assert(r.tombs() =~= Set::<Text>::empty());
            assert(r.first_touches() =~= Map::<Text, TouchView>::empty());
        }
        r
    }

    /// Whether none of the files records anything.
    pub open spec fn is_empty(self) -> bool {
        self.tombs() == Set::<Text>::empty() && self.first_touches() == Map::<
            Text,
            TouchView,
        >::empty()
    }

    /// The deletions that the files record.
    pub open spec fn tombs(self) -> Set<Text> {
        stored_tombstones(content(self.tombstones), content(self.tombstones_log))
    }

    /// The first touches that the files record; a later record of a path replaces an earlier one.
    pub open spec fn first_touches(self) -> Map<Text, TouchView> {
        logged(touch_views(self.touches@), self.touches_log@)
    }
}

/// What the records of a table say.
pub open spec fn touch_views(m: Map<Text, TouchRecord>) -> Map<Text, TouchView> {
    m.map_values(|t: TouchRecord| t@)
}

/// A map of records after those of a log were added to it, by their paths.
pub open spec fn logged(m: Map<Text, TouchView>, log: Seq<TouchRecord>) -> Map<Text, TouchView>
    decreases log.len(),
{
    if log.len() == 0 {
        m
    } else {
        logged(m, log.drop_last()).insert(log.last().path@, log.last()@)
    }
}

/// Adds the records of a log to those of a table.
fn load_touches(table: &mut Table<TouchRecord>, log: &Vec<TouchRecord>)
    requires
        old(table).wf(),
    ensures
        final(table).wf(),
        touch_views(final(table)@) == logged(touch_views(old(table)@), log@),
{
    let ghost before = touch_views(table@);
    proof {
        assert(log@.take(0) =~= seq![]);
    }
    let mut k: usize = 0;
    while k < log.len()
        invariant
            k <= log.len(),
            table.wf(),
            touch_views(table@) == logged(before, log@.take(k as int)),
        decreases log.len() - k,
    {
        let ghost mid = table@;
        let record = log[k].duplicate();
        let ghost added = record;
        let _ = table.put(log[k].path.as_str(), record);
        proof {
            assert(log@.take(k + 1).drop_last() =~= log@.take(k as int));
            assert(log@.take(k + 1).last() == log@[k as int]);
            assert(touch_views(table@) =~= touch_views(mid).insert(log@[k as int].path@, added@));
        }
        k = k + 1;
    }
    proof {
        assert(log@.take(k as int) =~= log@);
    }
}

/// A line of work on top of its parent.
pub struct Branch {
    pub name: String,
    /// The name of its directory in the store, by which it is known there.
    pub dir: String,
    pub parent: Option<String>,
    pub inheritance: InheritanceMode,
    pub branch_state: BranchState,
    pub tombstones: Vec<String>,
    pub touches: Table<TouchRecord>,
    /// How many children have been committed (merged) into this branch.
    pub commit_count: u64,
    /// Parent's commit count at the time this branch was forked.
    pub parent_version_at_fork: u64,
    /// Inherited paths masked from this branch's view. The branch's own deltas always stay
    /// visible; hiding only blocks parent/base fallthrough, so hidden underlay data can never be
    /// read or copied.
    pub hide_paths: Vec<String>,
}

pub struct BranchView {
    pub name: Text,
    pub dir: Text,
    pub parent: Option<Text>,
    pub inheritance: InheritanceMode,
    pub state: BranchState,
    pub tombs: Set<Text>,
    pub touches: Map<Text, TouchView>,
    pub commit_count: u64,
    pub parent_version_at_fork: u64,
    pub hide: Seq<Text>,
}

impl View for Branch {
    type V = BranchView;

    open spec fn view(&self) -> BranchView {
        BranchView {
            name: self.name@,
            dir: self.dir@,
            parent: opt_text(self.parent),
            inheritance: self.inheritance,
            state: self.branch_state,
            tombs: texts(self.tombstones@).to_set(),
            touches: touch_views(self.touches@),
            commit_count: self.commit_count,
            parent_version_at_fork: self.parent_version_at_fork,
            hide: texts(self.hide_paths@),
        }
    }
}

/// The hide rules that are left once they are normalized.
pub open spec fn normalized_all(rules: Seq<Text>) -> Seq<Text>
    decreases rules.len(),
{
    if rules.len() == 0 {
        seq![]
    } else {
        match normalized(rules.last()) {
            Some(p) => normalized_all(rules.drop_last()).push(p),
            None => normalized_all(rules.drop_last()),
        }
    }
}

fn normalize_all(rules: &Vec<String>) -> (r: Vec<String>)
    ensures
        texts(r@) == normalized_all(texts(rules@)),
{
    let ghost all = texts(rules@);
    let mut out: Vec<String> = Vec::new();
    let mut i: usize = 0;
    proof {
        assert(all.take(0) =~= seq![]);
        assert(texts(out@) =~= seq![]);
    }
    while i < rules.len()
        invariant
            i <= rules.len(),
            all == texts(rules@),
            texts(out@) == normalized_all(all.take(i as int)),
        decreases rules.len() - i,
    {
        let ghost done = texts(out@);
        proof {
            assert(all.take(i + 1).drop_last() =~= all.take(i as int));
            assert(all.take(i + 1).last() == rules@[i as int]@);
        }
        if let Some(p) = normalize_hide_path(rules[i].as_str()) {
            let ghost kept = p@;
            out.push(p);
            proof {
                assert(texts(out@) =~= done.push(kept));
            }
        }
        i = i + 1;
    }
    proof {
        assert(all.take(i as int) =~= all);
    }
    out
}

/// The key under which the inherited text of a path is kept: the hexadecimal digits of its bytes.
pub open spec fn content_key(path: Text) -> Text {
    hex(encode_utf8(path)) + ".base"@
}

pub open spec fn hex_digit(n: int) -> char {
    "0123456789abcdef"@[n]
}

pub open spec fn hex(bytes: Seq<u8>) -> Text
    decreases bytes.len(),
{
    if bytes.len() == 0 {
        seq![]
    } else {
        hex(bytes.drop_last()).push(hex_digit(bytes.last() as int / 16)).push(
            hex_digit(bytes.last() as int % 16),
        )
    }
}

pub fn touch_content_key(rel_path: &str) -> (r: String)
    ensures
        r@ == content_key(rel_path@),
{
    let digits = "0123456789abcdef";
    let bytes = rel_path.as_bytes();
    let mut out = String::new();
    let mut i: usize = 0;
    proof {
        assert(bytes@.take(0) =~= seq![]);
        assert(out@ =~= hex(bytes@.take(0)));
        reveal_strlit("0123456789abcdef");
    }
    while i < bytes.len()
        invariant
            i <= bytes.len(),
            digits@ == "0123456789abcdef"@,
            digits@.len() == 16,
            out@ == hex(bytes@.take(i as int)),
        decreases bytes.len() - i,
    {
        let byte: u8 = bytes[i];
        proof {
            assert(bytes@.take(i + 1).drop_last() =~= bytes@.take(i as int));
            assert(bytes@.take(i + 1).last() == byte);
        }
        let high: u8 = byte / 16;
        let low: u8 = byte % 16;
        out.push(digits.get_char(high as usize));
        out.push(digits.get_char(low as usize));
        i = i + 1;
    }
    proof {
        assert(bytes@.take(i as int) =~= bytes@);
    }
    concat(out.as_str(), ".base")
}

proof fn lemma_hex_injective(a: Seq<u8>, b: Seq<u8>)
    requires
        hex(a) == hex(b),
    ensures
        a == b,
    decreases a.len(),
{
    lemma_hex_len(a);
    lemma_hex_len(b);
    if a.len() == 0 {
        assert(a =~= b);
    } else {
        let (x, y) = (a.last() as int, b.last() as int);
        let (ha, hb) = (hex(a), hex(b));
        assert(ha.last() == hb.last());
        assert(ha.drop_last().last() == hb.drop_last().last());
        lemma_hex_digit(x / 16, y / 16);
        lemma_hex_digit(x % 16, y % 16);
        assert(x == y);
        assert(ha.drop_last().drop_last() =~= hex(a.drop_last()));
        assert(hb.drop_last().drop_last() =~= hex(b.drop_last()));
        lemma_hex_injective(a.drop_last(), b.drop_last());
        assert(a =~= a.drop_last().push(a.last()));
        assert(b =~= b.drop_last().push(b.last()));
    }
}

proof fn lemma_hex_len(a: Seq<u8>)
    ensures
        hex(a).len() == 2 * a.len(),
    decreases a.len(),
{
    if a.len() > 0 {
        lemma_hex_len(a.drop_last());
    }
}

proof fn lemma_hex_digit(m: int, n: int)
    requires
        0 <= m < 16,
        0 <= n < 16,
        hex_digit(m) == hex_digit(n),
    ensures
        m == n,
{
    reveal_strlit("0123456789abcdef");
}

/// Texts of different paths are kept under different keys.
pub proof fn law_content_keys_are_distinct(a: Text, b: Text)
    requires
        content_key(a) == content_key(b),
    ensures
        a == b,
{
    let (x, y) = (encode_utf8(a), encode_utf8(b));
    let n = ".base"@.len() as int;
    assert(hex(x) =~= content_key(a).take(content_key(a).len() - n));
    assert(hex(y) =~= content_key(b).take(content_key(b).len() - n));
    lemma_hex_injective(x, y);
    vstd::utf8::encode_utf8_decode_utf8(a);
    vstd::utf8::encode_utf8_decode_utf8(b);
}

/// The record of a first touch: what was inherited, and the key of its text if that is kept.
pub open spec fn first_touch(
    path: Text,
    found: Option<Meta>,
    capture: bool,
    bytes: Seq<u8>,
) -> TouchView {
    TouchView {
        path,
        base: identity_of(found),
        key: if capture && readable_as_text(found) && is_text(bytes) {
            Some(content_key(path))
        } else {
            None
        },
    }
}

/// A first touch that is to be recorded, with the inherited text that is to be kept for it.
pub struct FirstTouch {
    pub record: TouchRecord,
    pub kept_text: Option<Vec<u8>>,
}

impl Branch {
    pub open spec fn wf(self) -> bool {
        &&& texts(self.tombstones@).no_duplicates()
        &&& self.touches.wf()
    }

    /// A fresh branch; what an earlier directory of that name still holds is taken up.
    pub fn new(
        name: &str,
        parent: Option<&str>,
        parent_version_at_fork: u64,
        inheritance: InheritanceMode,
        hide_paths: Vec<String>,
        stored: StoredState,
    ) -> (r: Branch)
        requires
            stored.touches.wf(),
        ensures
            r.wf(),
            r@ == (BranchView {
                name: name@,
                dir: name@,
                parent: match parent {
                    Some(p) => Some(p@),
                    None => None,
                },
                inheritance,
                state: BranchState::Open,
                tombs: stored.tombs(),
                touches: stored.first_touches(),
                commit_count: 0,
                parent_version_at_fork,
                hide: normalized_all(texts(hide_paths@)),
            }),
    {
        let parent_name = match parent {
            Some(p) => Some(p.to_owned()),
            None => None,
        };
        let tombstones = load_tombstones(&stored.tombstones, &stored.tombstones_log);
        let mut touches = stored.touches;
        load_touches(&mut touches, &stored.touches_log);
        Branch {
            name: name.to_owned(),
            dir: name.to_owned(),
            parent: parent_name,
            inheritance,
            branch_state: BranchState::Open,
            tombstones,
            touches,
            commit_count: 0,
            parent_version_at_fork,
            hide_paths: normalize_all(&hide_paths),
        }
    }

    /// A branch as its directory in the store records it.
    pub fn load(dir: &str, metadata: BranchMetadata, stored: StoredState) -> (r: Branch)
        requires
            stored.touches.wf(),
        ensures
            r.wf(),
            r@ == restored(dir@, metadata@, stored.tombs(), stored.first_touches()),
    {
        let tombstones = load_tombstones(&stored.tombstones, &stored.tombstones_log);
        let mut touches = stored.touches;
        load_touches(&mut touches, &stored.touches_log);
        Branch {
            name: metadata.name,
            dir: dir.to_owned(),
            parent: metadata.parent,
            inheritance: metadata.inheritance,
            branch_state: metadata.state,
            tombstones,
            touches,
            commit_count: metadata.commit_count,
            parent_version_at_fork: metadata.parent_version_at_fork,
            hide_paths: metadata.hide_paths,
        }
    }

    /// What the metadata file is to hold.
    pub fn write_metadata(&self) -> (r: BranchMetadata)
        ensures
            r@ == self@.metadata(),
    {
        let parent = match &self.parent {
            Some(p) => Some(p.clone()),
            None => None,
        };
        let hide_paths = self.hide_paths.clone();
        proof {
            assert(texts(hide_paths@) =~= texts(self.hide_paths@));
        }
        BranchMetadata {
            name: self.name.clone(),
            parent,
            inheritance: self.inheritance,
            state: self.branch_state,
            parent_version_at_fork: self.parent_version_at_fork,
            commit_count: self.commit_count,
            hide_paths,
        }
    }

    /// True if `rel_path` (or an ancestor of it) is masked by a hide rule.
    /// Hiding only affects inherited resolution: the branch's own deltas remain visible even at
    /// hidden paths.
    pub fn is_hidden(&self, rel_path: &str) -> (r: bool)
        ensures
            r == hidden(self@.hide, rel_path@),
    {
        hidden_by(&self.hide_paths, rel_path)
    }

    pub fn state(&self) -> (r: BranchState)
        ensures
            r == self@.state,
    {
        self.branch_state
    }

    pub fn is_writable(&self) -> (r: bool)
        ensures
            r == (self@.state == BranchState::Open),
    {
        self.state() == BranchState::Open
    }

    /// Changes the state; the result is the metadata that is to be written.
    pub fn set_state(&mut self, state: BranchState) -> (r: BranchMetadata)
        requires
            old(self).wf(),
        ensures
            final(self).wf(),
            final(self)@ == (BranchView { state, ..old(self)@ }),
            r@ == final(self)@.metadata(),
    {
        self.branch_state = state;
        self.write_metadata()
    }

    pub fn get_touch_record(&self, rel_path: &str) -> (r: Option<TouchRecord>)
        requires
            self.wf(),
        ensures
            r is Some <==> self@.touches.dom().contains(rel_path@),
            r matches Some(t) ==> t@ == self@.touches[rel_path@],
    {
        match self.touches.get(rel_path) {
            Some(t) => Some(t.duplicate()),
            None => None,
        }
    }

    /// What is to be recorded when `rel_path` is touched: nothing if it was touched before, else
    /// what it inherits there (`found`), with the inherited text where that is to be kept and
    /// `bytes` is one.
    pub fn plan_first_touch(
        &self,
        rel_path: &str,
        found: Option<Meta>,
        capture_base_content: bool,
        bytes: Vec<u8>,
    ) -> (r: Option<FirstTouch>)
        requires
            self.wf(),
        ensures
            r is None <==> self@.touches.dom().contains(rel_path@),
            r matches Some(t) ==> {
                &&& t.record@ == first_touch(rel_path@, found, capture_base_content, bytes@)
                &&& t.kept_text is Some <==> t.record@.key is Some
                &&& t.kept_text matches Some(kept) ==> kept@ == bytes@
            },
    {
        if self.touches.has(rel_path) {
            return None;
        }
        let mut kept_text: Option<Vec<u8>> = None;
        let mut base_content_key: Option<String> = None;
        if capture_base_content {
            kept_text = read_bounded_text(found, bytes);
            if kept_text.is_some() {
                base_content_key = Some(touch_content_key(rel_path));
            }
        }
        Some(
            FirstTouch {
                record: TouchRecord {
                    path: rel_path.to_owned(),
                    base_at_first_touch: PathIdentity::from_path(found),
                    base_content_key,
                },
                kept_text,
            },
        )
    }

    /// Records a first touch; an earlier record of the path stays.
    pub fn record_first_touch(&mut self, record: &TouchRecord)
        requires
            old(self).wf(),
        ensures
            final(self).wf(),
            final(self)@ == old(self)@.touched(record@),
    {
        let ghost before = self.touches@;
        if self.touches.has(record.path.as_str()) {
            return ;
        }
        let copy = record.duplicate();
        let ghost added = copy;
        let _ = self.touches.put(record.path.as_str(), copy);
        proof {
            assert(touch_views(self.touches@) =~= touch_views(before).insert(record@.path, added@));
        }
    }

    /// Where the inherited text of a touched path is kept.
    pub fn touch_content_path(&self, key: &str) -> (r: Location)
        ensures
            r@ == (LocationView { place: PlaceView::TouchContent(self@.dir), rel: key@ }),
    {
        Location { place: Place::TouchContent(self.dir.clone()), rel: key.to_owned() }
    }

    /// Where the inherited text of a touched path is read from; `None` if none was kept.
    pub fn read_touch_base_content(&self, record: &TouchRecord) -> (r: Option<Location>)
        ensures
            r is Some <==> record@.key is Some,
            r matches Some(l) ==> l@ == (LocationView {
                place: PlaceView::TouchContent(self@.dir),
                rel: record@.key->0,
            }),
    {
        match &record.base_content_key {
            Some(key) => Some(self.touch_content_path(key.as_str())),
            None => None,
        }
    }

    /// Whether the branch deletes `path`, by itself or with a directory above it.
    pub fn is_deleted(&self, path: &str) -> (r: bool)
        ensures
            r == deleted(self@.tombs, path@),
    {
        deleted_by(&self.tombstones, path)
    }

    /// Deletes `path`; the result is the line that the log gains, if anything changed.
    pub fn add_tombstone(&mut self, path: &str) -> (r: Option<String>)
        requires
            old(self).wf(),
        ensures
            final(self).wf(),
            final(self)@ == (BranchView { tombs: old(self)@.tombs.insert(path@), ..old(self)@ }),
            r is Some <==> !old(self)@.tombs.contains(path@),
            r matches Some(line) ==> line@ == log_line(true, path@),
    {
        if insert_text(&mut self.tombstones, path) {
            Some(tombstone_op(true, path))
        } else {
            None
        }
    }

    /// Stops deleting `path`; the result is the line that the log gains, if anything changed.
    pub fn remove_tombstone(&mut self, path: &str) -> (r: Option<String>)
        requires
            old(self).wf(),
        ensures
            final(self).wf(),
            final(self)@ == (BranchView { tombs: old(self)@.tombs.remove(path@), ..old(self)@ }),
            r is Some <==> old(self)@.tombs.contains(path@),
            r matches Some(line) ==> line@ == log_line(false, path@),
    {
        if remove_text(&mut self.tombstones, path) {
            Some(tombstone_op(false, path))
        } else {
            None
        }
    }

    pub fn get_tombstones(&self) -> (r: Vec<String>)
        ensures
            r@ == self.tombstones@,
    {
        let r = self.tombstones.clone();
        proof {
            assert(r@ =~= self.tombstones@);
        }
        r
    }

    /// Replaces the deletions; the result is the snapshot that is to be written in place of the
    /// old one and of the log.
    pub fn set_tombstones(&mut self, new_tombstones: &Vec<String>) -> (r: String)
        requires
            old(self).wf(),
        ensures
            final(self).wf(),
            final(self)@ == (BranchView {
                tombs: texts(new_tombstones@).to_set(),
                ..old(self)@
            }),
            r@ == snapshot_text(texts(final(self).tombstones@)),
    {
        self.tombstones = distinct_texts(new_tombstones);
        write_snapshot(&self.tombstones)
    }

    pub fn delta_path(&self, rel_path: &str) -> (r: Location)
        ensures
            r@ == located(PlaceView::Files(self@.dir), rel_path@),
    {
        Location::at(Place::Files(self.dir.clone()), rel_path)
    }

    pub fn staging_path(&self) -> (r: Location)
        ensures
            r@.place == PlaceView::Staging(self@.dir),
            exists|id: Text| #[trigger] random_id(id) && r@.rel == "cow-"@ + id + ".tmp"@,
    {
        Location { place: Place::Staging(self.dir.clone()), rel: staging_name() }
    }

    pub fn inherited_path(&self, rel_path: &str) -> (r: Location)
        ensures
            r@ == located(PlaceView::Inherited(self@.dir), rel_path@),
    {
        Location::at(Place::Inherited(self.dir.clone()), rel_path)
    }

    /// The entry whose presence tells whether the branch has a delta at `rel_path`.
    pub fn has_delta(&self, rel_path: &str) -> (r: Location)
        ensures
            r@ == located(PlaceView::Files(self@.dir), rel_path@),
    {
        self.delta_path(rel_path)
    }
}

impl BranchView {
    /// The branch after a touch was recorded, unless the path has a record already.
    pub open spec fn touched(self, t: TouchView) -> BranchView {
        BranchView {
            touches: if self.touches.dom().contains(t.path) {
                self.touches
            } else {
                self.touches.insert(t.path, t)
            },
            ..self
        }
    }

    pub open spec fn metadata(self) -> MetadataView {
        MetadataView {
            name: self.name,
            parent: self.parent,
            inheritance: self.inheritance,
            state: self.state,
            parent_version_at_fork: self.parent_version_at_fork,
            commit_count: self.commit_count,
            hide_paths: self.hide,
        }
    }
}

/// A branch as its metadata, its deletions and its first touches describe it.
pub open spec fn restored(
    dir: Text,
    metadata: MetadataView,
    tombs: Set<Text>,
    touches: Map<Text, TouchView>,
) -> BranchView {
    BranchView {
        name: metadata.name,
        dir,
        parent: metadata.parent,
        inheritance: metadata.inheritance,
        state: metadata.state,
        tombs,
        touches,
        commit_count: metadata.commit_count,
        parent_version_at_fork: metadata.parent_version_at_fork,
        hide: metadata.hide_paths,
    }
}

/// A first touch that was appended to the log is known again after a restart, and those that were
/// recorded before stay as they were.
pub proof fn law_touch_log_replays(stored: StoredState, later: StoredState, record: TouchRecord)
    requires
        later.touches@ == stored.touches@,
        later.touches_log@ == stored.touches_log@.push(record),
    ensures
        later.first_touches() == stored.first_touches().insert(record@.path, record@),
{
    assert(later.touches_log@.drop_last() =~= stored.touches_log@);
}

/// Loading what was stored gives the branch back: its state and its hide rules survive a
/// restart.
pub proof fn law_branch_survives_reload(b: BranchView)
    ensures
        restored(b.dir, b.metadata(), b.tombs, b.touches) == b,
{
}

/// Whether a list of hide rules masks `path`.
pub fn hidden_by(hide_paths: &Vec<String>, path: &str) -> (r: bool)
    ensures
        r == hidden(texts(hide_paths@), path@),
{
    let normal = match normalize_hide_path(path) {
        Some(p) => p,
        None => {
            return false;
        },
    };
    let ghost rules = texts(hide_paths@);
    let mut i: usize = 0;
    while i < hide_paths.len()
        invariant
            i <= hide_paths.len(),
            rules == texts(hide_paths@),
            normalized(path@) == Some(normal@),
            forall|j: int| 0 <= j < i ==> !under(#[trigger] rules[j], normal@),
        decreases hide_paths.len() - i,
    {
        if lies_under(hide_paths[i].as_str(), normal.as_str()) {
            proof {
                assert(under(rules[i as int], normal@));
            }
            return true;
        }
        i = i + 1;
    }
    false
}

/// The strings of a list, each once.
pub fn distinct_texts(v: &Vec<String>) -> (r: Vec<String>)
    ensures
        texts(r@).no_duplicates(),
        texts(r@).to_set() == texts(v@).to_set(),
{
    let ghost all = texts(v@);
    let mut out: Vec<String> = Vec::new();
    let mut i: usize = 0;
    proof {
        assert(texts(out@) =~= seq![]);
        assert(texts(out@).to_set() =~= all.take(0).to_set());
    }
    while i < v.len()
        invariant
            i <= v.len(),
            all == texts(v@),
            texts(out@).no_duplicates(),
            texts(out@).to_set() == all.take(i as int).to_set(),
        decreases v.len() - i,
    {
        let _ = insert_text(&mut out, v[i].as_str());
        proof {
            let (a, b) = (all.take(i as int), all.take(i + 1));
            let t = all[i as int];
            assert(b =~= a.push(t));
            assert forall|x: Text| #[trigger]
                b.to_set().contains(x) == a.to_set().insert(t).contains(x) by {
                if a.contains(x) {
                    let j = choose|j: int| 0 <= j < a.len() && a[j] == x;
                    assert(b[j] == x);
                }
                if x == t {
                    assert(b[i as int] == x);
                }
            }
            assert(b.to_set() =~= a.to_set().insert(t));
        }
        i = i + 1;
    }
    proof {
        assert(all.take(i as int) =~= all);
    }
    out
}

/// The hide rules of a branch are what the given rules come to once they are normalized, and
/// nothing else; a rule that would hide the whole root comes to nothing.
pub proof fn law_hide_rules_are_kept(rules: Seq<Text>, p: Text)
    ensures
        normalized_all(rules).contains(p) <==> exists|i: int|
            0 <= i < rules.len() && normalized(#[trigger] rules[i]) == Some(p),
    decreases rules.len(),
{
    if rules.len() > 0 {
        let rest = rules.drop_last();
        law_hide_rules_are_kept(rest, p);
        let (a, b) = (normalized_all(rest), normalized_all(rules));
        let last = rules[rules.len() - 1];
        assert(last == rules.last());
        if a.contains(p) {
            let i = choose|i: int| 0 <= i < rest.len() && normalized(#[trigger] rest[i]) == Some(p);
            assert(rules[i] == rest[i]);
            let k = choose|k: int| 0 <= k < a.len() && a[k] == p;
            assert(b[k] == p);
        }
        if normalized(last) == Some(p) {
            assert(b[a.len() as int] == p);
        }
        if b.contains(p) && !a.contains(p) {
            let k = choose|k: int| 0 <= k < b.len() && b[k] == p;
            if k < a.len() {
                assert(a[k] == p);
            }
            assert(normalized(last) == Some(p));
        }
        if exists|i: int| 0 <= i < rules.len() && normalized(#[trigger] rules[i]) == Some(p) {
            let i = choose|i: int|
                0 <= i < rules.len() && normalized(#[trigger] rules[i]) == Some(p);
            if i < rest.len() {
                assert(rest[i] == rules[i]);
            }
        }
    }
}

/// The record of a first touch says what was found at the path. The text of what was found is kept
/// exactly if that is asked for and it is a small file of UTF-8 without a null byte.
pub proof fn law_first_touch_records_what_was_found(
    path: Text,
    found: Option<Meta>,
    capture: bool,
    bytes: Seq<u8>,
)
    ensures
        ({
            let t = first_touch(path, found, capture, bytes);
            &&& t.path == path
            &&& t.base.exists <==> found is Some
            &&& found matches Some(m) ==> t.base.mtime_ns == m.mtime_ns && (m.kind == FileKind::File
                ==> t.base.kind == "file"@ && t.base.bytes == m.len)
            &&& t.key is Some <==> capture && (found matches Some(m) && m.kind == FileKind::File
                && m.len <= 1048576) && (forall|i: int|
                0 <= i < bytes.len() ==> #[trigger] bytes[i] != 0) && vstd::utf8::valid_utf8(bytes)
            &&& t.key is Some ==> t.key->0 == content_key(path)
        }),
{
    if !bytes.contains(0) {
        assert forall|i: int| 0 <= i < bytes.len() implies #[trigger] bytes[i] != 0 by {
            assert(bytes.contains(bytes[i]));
        }
    }
}

} // verus!
