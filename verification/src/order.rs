//! The order of texts, and sorting by it.

use vstd::prelude::*;
use vstd::string::*;

use crate::records::{diff_views, DiffEntry, DiffView};
use crate::text::{chars_of, same, texts, Text};

verus! {

/// Whether `a` comes before `b`, or is `b`, in the order of dictionaries over code points.
pub open spec fn text_le(a: Text, b: Text) -> bool
    decreases a.len(),
{
    if a.len() == 0 {
        true
    } else if b.len() == 0 {
        false
    } else if a[0] == b[0] {
        text_le(a.drop_first(), b.drop_first())
    } else {
        a[0] < b[0]
    }
}

pub proof fn lemma_text_le_total(a: Text, b: Text)
    ensures
        text_le(a, b) || text_le(b, a),
    decreases a.len(),
{
    if a.len() > 0 && b.len() > 0 && a[0] == b[0] {
        lemma_text_le_total(a.drop_first(), b.drop_first());
    }
}

pub proof fn lemma_text_le_transitive(a: Text, b: Text, c: Text)
    requires
        text_le(a, b),
        text_le(b, c),
    ensures
        text_le(a, c),
    decreases a.len(),
{
    if a.len() > 0 && b.len() > 0 && c.len() > 0 && a[0] == b[0] && b[0] == c[0] {
        lemma_text_le_transitive(a.drop_first(), b.drop_first(), c.drop_first());
    }
}

pub proof fn lemma_text_le_antisymmetric(a: Text, b: Text)
    requires
        text_le(a, b),
        text_le(b, a),
    ensures
        a == b,
    decreases a.len(),
{
    if a.len() > 0 && b.len() > 0 {
        let (x, y) = (a.drop_first(), b.drop_first());
        assert(a[0] == b[0]);
        lemma_text_le_antisymmetric(x, y);
        assert(a.len() == b.len());
        assert forall|i: int| 0 <= i < a.len() implies a[i] == b[i] by {
            if i > 0 {
                assert(a[i] == x[i - 1] && b[i] == y[i - 1]);
            }
        }
        assert(a =~= b);
    } else {
        assert(a =~= b);
    }
}

pub fn before_or_same(a: &str, b: &str) -> (r: bool)
    ensures
        r == text_le(a@, b@),
{
    let x = chars_of(a);
    let y = chars_of(b);
    let mut i: usize = 0;
    proof {
        assert(a@.skip(0) =~= a@);
        assert(b@.skip(0) =~= b@);
    }
    while i < x.len() && i < y.len() && x[i] == y[i]
        invariant
            i <= x@.len(),
            i <= y@.len(),
            x@ == a@,
            y@ == b@,
            text_le(a@.skip(i as int), b@.skip(i as int)) == text_le(a@, b@),
        decreases x@.len() - i,
    {
        proof {
            assert(a@.skip(i as int).drop_first() =~= a@.skip(i + 1));
            assert(b@.skip(i as int).drop_first() =~= b@.skip(i + 1));
        }
        i = i + 1;
    }
    if i == x.len() {
        true
    } else if i == y.len() {
        false
    } else {
        x[i] < y[i]
    }
}

pub proof fn lemma_insert_multiset<T>(s: Seq<T>, i: int, e: T)
    requires
        0 <= i <= s.len(),
    ensures
        s.insert(i, e).to_multiset() == s.to_multiset().insert(e),
{
    let t = s.insert(i, e);
    assert(t.remove(i) =~= s);
    t.to_multiset_ensures();
    assert(t[i] == e);
    assert(t.contains(e));
    assert(t.to_multiset() =~= s.to_multiset().insert(e));
}

/// Whether texts stand in order.
pub open spec fn sorted_texts(v: Seq<Text>) -> bool {
    forall|i: int, j: int| 0 <= i < j < v.len() ==> text_le(#[trigger] v[i], #[trigger] v[j])
}

/// The strings in order.
pub fn sort_texts(v: &Vec<String>) -> (r: Vec<String>)
    ensures
        sorted_texts(texts(r@)),
        texts(r@).to_multiset() == texts(v@).to_multiset(),
{
    let ghost all = texts(v@);
    let mut out: Vec<String> = Vec::new();
    let mut i: usize = 0;
    proof {
        assert(texts(out@) =~= all.take(0));
    }
    while i < v.len()
        invariant
            i <= v@.len(),
            all == texts(v@),
            sorted_texts(texts(out@)),
            texts(out@).to_multiset() == all.take(i as int).to_multiset(),
        decreases v@.len() - i,
    {
        let ghost done = texts(out@);
        let e = v[i].as_str();
        let mut k: usize = out.len();
        while k > 0 && !before_or_same(out[k - 1].as_str(), e)
            invariant
                k <= out@.len(),
                done == texts(out@),
                sorted_texts(done),
                forall|j: int| k <= j < done.len() ==> !text_le(#[trigger] done[j], e@),
            decreases k,
        {
            k = k - 1;
        }
        out.insert(k, e.to_owned());
        proof {
            let now = texts(out@);
            assert(now =~= done.insert(k as int, e@));
            lemma_insert_multiset(done, k as int, e@);
            assert(all.take(i + 1) =~= all.take(i as int).push(e@));
            all.take(i as int).to_multiset_ensures();
            assert forall|a: int, b: int| 0 <= a < b < now.len() implies text_le(
                #[trigger] now[a],
                #[trigger] now[b],
            ) by {
                if a == k {
                    assert(now[b] == done[b - 1]);
                    lemma_text_le_total(e@, done[b - 1]);
                } else if b == k {
                    assert(now[a] == done[a]);
                    if a < k - 1 {
                        lemma_text_le_transitive(done[a], done[k - 1], e@);
                    }
                } else {
                    let (x, y) = (
                        if a < k {
                            a
                        } else {
                            a - 1
                        },
                        if b < k {
                            b
                        } else {
                            b - 1
                        },
                    );
                    assert(now[a] == done[x] && now[b] == done[y]);
                }
            }
        }
        i = i + 1;
    }
    proof {
        assert(all.take(i as int) =~= all);
    }
    out
}

/// Whether one line of a difference comes before another, or is as it: by path, then by what was
/// done.
pub open spec fn diff_le(a: DiffView, b: DiffView) -> bool {
    if a.path == b.path {
        text_le(a.op, b.op)
    } else {
        text_le(a.path, b.path)
    }
}

pub open spec fn sorted_diff(v: Seq<DiffView>) -> bool {
    forall|i: int, j: int| 0 <= i < j < v.len() ==> diff_le(#[trigger] v[i], #[trigger] v[j])
}

fn diff_before_or_same(a: &DiffEntry, b: &DiffEntry) -> (r: bool)
    ensures
        r == diff_le(a@, b@),
{
    if same(a.path.as_str(), b.path.as_str()) {
        before_or_same(a.op.as_str(), b.op.as_str())
    } else {
        before_or_same(a.path.as_str(), b.path.as_str())
    }
}

proof fn lemma_diff_le_total(a: DiffView, b: DiffView)
    ensures
        diff_le(a, b) || diff_le(b, a),
{
    lemma_text_le_total(a.path, b.path);
    lemma_text_le_total(a.op, b.op);
}

proof fn lemma_diff_le_transitive(a: DiffView, b: DiffView, c: DiffView)
    requires
        diff_le(a, b),
        diff_le(b, c),
    ensures
        diff_le(a, c),
{
    if a.path == c.path {
        if a.path == b.path {
            lemma_text_le_transitive(a.op, b.op, c.op);
        } else {
            lemma_text_le_antisymmetric(a.path, b.path);
        }
    } else if a.path != b.path && b.path != c.path {
        lemma_text_le_transitive(a.path, b.path, c.path);
    }
}

/// The lines of a difference in order.
pub fn sort_diff(v: Vec<DiffEntry>) -> (r: Vec<DiffEntry>)
    ensures
        sorted_diff(diff_views(r@)),
        diff_views(r@).to_multiset() == diff_views(v@).to_multiset(),
{
    let ghost all = diff_views(v@);
    let mut v = v;
    let mut out: Vec<DiffEntry> = Vec::new();
    proof {
        assert(diff_views(out@) =~= seq![]);
        assert(all.skip(v@.len() as int) =~= seq![]);
    }
    while v.len() > 0
        invariant
            v@.len() <= all.len(),
            diff_views(v@) == all.take(v@.len() as int),
            sorted_diff(diff_views(out@)),
            diff_views(out@).to_multiset() == all.skip(v@.len() as int).to_multiset(),
        decreases v@.len(),
    {
        let ghost done = diff_views(out@);
        let ghost n = v@.len() as int;
        let ghost left = diff_views(v@);
        let e = match v.pop() {
            Some(e) => e,
            None => {
                return out;
            },
        };
        let ghost line = e@;
        proof {
            assert(line == left[n - 1]);
            assert(diff_views(v@) =~= all.take(n - 1));
        }
        let mut k: usize = 0;
        while k < out.len() && !diff_before_or_same(&e, &out[k])
            invariant
                k <= out@.len(),
                line == e@,
                done == diff_views(out@),
                sorted_diff(done),
                forall|j: int| 0 <= j < k ==> !diff_le(line, #[trigger] done[j]),
            decreases out@.len() - k,
        {
            k = k + 1;
        }
        out.insert(k, e);
        proof {
            let now = diff_views(out@);
            assert(now =~= done.insert(k as int, line));
            lemma_insert_multiset(done, k as int, line);
            assert(all.skip(n - 1) =~= all.skip(n).insert(0, line));
            lemma_insert_multiset(all.skip(n), 0, line);
            assert forall|a: int, b: int| 0 <= a < b < now.len() implies diff_le(
                #[trigger] now[a],
                #[trigger] now[b],
            ) by {
                if a == k {
                    assert(now[b] == done[b - 1]);
                    if b - 1 > k {
                        lemma_diff_le_transitive(line, done[k as int], done[b - 1]);
                    }
                } else if b == k {
                    assert(now[a] == done[a]);
                    lemma_diff_le_total(line, done[a]);
                } else {
                    let (x, y) = (
                        if a < k {
                            a
                        } else {
                            a - 1
                        },
                        if b < k {
                            b
                        } else {
                            b - 1
                        },
                    );
                    assert(now[a] == done[x] && now[b] == done[y]);
                }
            }
        }
    }
    proof {
        assert(all.skip(0) =~= all);
    }
    out
}

/// Of two texts the one comes first that has the lower character where they first differ, and a
/// text comes before those that continue it.
pub proof fn law_texts_are_ordered(a: Text, b: Text, k: int)
    requires
        0 <= k <= a.len(),
        k <= b.len(),
        forall|i: int| 0 <= i < k ==> a[i] == b[i],
    ensures
        k == a.len() ==> text_le(a, b),
        k == b.len() && k < a.len() ==> !text_le(a, b),
        k < a.len() && k < b.len() && a[k] < b[k] ==> text_le(a, b) && !text_le(b, a),
    decreases k,
{
    if k > 0 {
        let (x, y) = (a.drop_first(), b.drop_first());
        assert(a[0] == b[0]);
        assert forall|i: int| 0 <= i < k - 1 implies x[i] == y[i] by {
            assert(a[i + 1] == b[i + 1]);
        }
        law_texts_are_ordered(x, y, k - 1);
        if k < a.len() && k < b.len() {
            assert(x[k - 1] == a[k]);
            assert(y[k - 1] == b[k]);
        }
    }
}

/// The lines of a difference stand in the order of their paths; those of one path in the order of
/// what was done.
pub proof fn law_differences_are_ordered(a: DiffView, b: DiffView)
    requires
        diff_le(a, b),
    ensures
        text_le(a.path, b.path),
        a.path == b.path ==> text_le(a.op, b.op),
{
    lemma_text_le_total(a.path, a.path);
}

} // verus!
