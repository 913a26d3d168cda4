//! What publishing and rolling back a staged merge do to the destination.

use vstd::prelude::*;

use crate::paths::under;
use crate::staged::{
    discards, lemma_name_start, lemma_name_start_bound, name_start, renames, side_path, undo,
    undo_all, ActionView, StepView,
};
use crate::text::{trim_end_slashes, Text};

verus! {

/// What a tree holds at a path.
pub open spec fn at<N>(tree: Map<Text, N>, p: Text) -> Option<N> {
    if tree.dom().contains(p) {
        Some(tree[p])
    } else {
        None
    }
}

/// `tree` without the entry at `p` and all that is below it.
pub open spec fn without<N>(tree: Map<Text, N>, p: Text) -> Map<Text, N> {
    Map::new(|q: Text| tree.dom().contains(q) && !under(p, q), |q: Text| tree[q])
}

/// The path below `from` that a path below `to` had before a rename from `from` to `to`.
pub open spec fn source(from: Text, to: Text, q: Text) -> Text {
    from + q.skip(to.len() as int)
}

/// `tree` after the entry at `from` was renamed to `to`, over what stood there.
pub open spec fn moved<N>(tree: Map<Text, N>, from: Text, to: Text) -> Map<Text, N> {
    Map::new(
        |q: Text|
            if under(to, q) {
                tree.dom().contains(source(from, to, q))
            } else {
                tree.dom().contains(q) && !under(from, q)
            },
        |q: Text|
            if under(to, q) {
                tree[source(from, to, q)]
            } else {
                tree[q]
            },
    )
}

pub open spec fn act<N>(tree: Map<Text, N>, a: ActionView) -> Map<Text, N> {
    match a {
        ActionView::Rename { from, to } => moved(tree, from, to),
        ActionView::Discard { path } => without(tree, path),
    }
}

pub open spec fn act_all<N>(tree: Map<Text, N>, actions: Seq<ActionView>) -> Map<Text, N>
    decreases actions.len(),
{
    if actions.len() == 0 {
        tree
    } else {
        act(act_all(tree, actions.drop_last()), actions.last())
    }
}

/// The tree after one step; `node` is what was copied, if the step is a copy. What an interrupted
/// merge has left at the side path is discarded first.
pub open spec fn step_tree<N>(tree: Map<Text, N>, step: StepView, node: N) -> Map<Text, N> {
    match step {
        StepView::Moved { trash, original } => moved(without(tree, trash), original, trash),
        StepView::Copied { tmp, .. } => without(tree, tmp).insert(tmp, node),
    }
}

/// The tree after the steps.
pub open spec fn staged_tree<N>(tree: Map<Text, N>, steps: Seq<StepView>, nodes: Seq<N>) -> Map<
    Text,
    N,
>
    decreases steps.len(),
{
    if steps.len() == 0 {
        tree
    } else {
        step_tree(
            staged_tree(tree, steps.drop_last(), nodes),
            steps.last(),
            nodes[steps.len() - 1],
        )
    }
}

/// The side file that a step made.
pub open spec fn side(step: StepView) -> Text {
    match step {
        StepView::Moved { trash, .. } => trash,
        StepView::Copied { tmp, .. } => tmp,
    }
}

/// Whether two paths are not one above the other.
pub open spec fn apart(p: Text, q: Text) -> bool {
    !under(p, q) && !under(q, p)
}

/// Whether nothing stands at `p` or below.
pub open spec fn vacant<N>(tree: Map<Text, N>, p: Text) -> bool {
    forall|q: Text| #[trigger] under(p, q) ==> !tree.dom().contains(q)
}

/// Whether the side files of the steps lie apart from each other, and each from the entry that was
/// moved to it.
pub open spec fn separate(steps: Seq<StepView>) -> bool {
    &&& forall|i: int, j: int|
        0 <= i < j < steps.len() ==> apart(side(#[trigger] steps[i]), side(#[trigger] steps[j]))
    &&& forall|i: int|
        0 <= i < steps.len() && #[trigger] steps[i] is Moved ==> apart(
            side(steps[i]),
            steps[i]->original,
        )
}

proof fn lemma_source_inverse(from: Text, to: Text, q: Text)
    requires
        under(from, q),
    ensures
        under(to, source(to, from, q)),
        source(from, to, source(to, from, q)) == q,
{
    let r = source(to, from, q);
    if q == from {
        assert(r =~= to);
    } else {
        assert(from.push('/').is_prefix_of(q));
        assert(q[from.len() as int] == from.push('/')[from.len() as int]);
        assert(to.push('/') =~= r.take(to.len() as int + 1));
        assert(to.push('/').is_prefix_of(r));
    }
    assert(q.take(from.len() as int) =~= from) by {
        if q != from {
            assert forall|i: int| 0 <= i < from.len() implies q[i] == from[i] by {
                assert(from.push('/')[i] == from[i]);
            }
        }
    }
    assert(source(from, to, r) =~= q);
}

/// What is below one of two paths that are apart is not below the other.
pub proof fn lemma_apart_below(p: Text, q: Text, r: Text)
    requires
        apart(p, q),
        under(p, r),
    ensures
        !under(q, r),
{
    if under(q, r) {
        let (a, b) = (p.push('/'), q.push('/'));
        assert(p.is_prefix_of(r)) by {
            if r != p {
                assert forall|i: int| 0 <= i < p.len() implies p[i] == r[i] by {
                    assert(a[i] == r[i]);
                }
                assert(p =~= r.take(p.len() as int));
            }
        }
        assert(q.is_prefix_of(r)) by {
            if r != q {
                assert forall|i: int| 0 <= i < q.len() implies q[i] == r[i] by {
                    assert(b[i] == r[i]);
                }
                assert(q =~= r.take(q.len() as int));
            }
        }
        if p.len() == q.len() {
            assert(p =~= q);
        } else if p.len() < q.len() {
            assert(r != p);
            assert(a =~= q.take(a.len() as int)) by {
                assert forall|i: int| 0 <= i < a.len() implies a[i] == q[i] by {
                    assert(a[i] == r[i]);
                }
            }
        } else {
            assert(r != q);
            assert(b =~= p.take(b.len() as int)) by {
                assert forall|i: int| 0 <= i < b.len() implies b[i] == p[i] by {
                    assert(b[i] == r[i]);
                }
            }
        }
    }
}

proof fn lemma_act_concat<N>(tree: Map<Text, N>, a: Seq<ActionView>, b: Seq<ActionView>)
    ensures
        act_all(tree, a + b) == act_all(act_all(tree, a), b),
    decreases b.len(),
{
    if b.len() == 0 {
        assert(a + b =~= a);
    } else {
        assert((a + b).drop_last() =~= a + b.drop_last());
        lemma_act_concat(tree, a, b.drop_last());
    }
}

/// Whether a tree is another one, except that something may be missing from the side files of the
/// steps from the `k`th on.
pub open spec fn lacks<N>(
    a: Map<Text, N>,
    tree: Map<Text, N>,
    steps: Seq<StepView>,
    k: int,
) -> bool {
    forall|q: Text| #[trigger]
        at(a, q) == at(tree, q) || (at(a, q) is None && !beside(steps.skip(k), q))
}

/// Undoing one step leads back to the tree before it.
proof fn lemma_undo<N>(
    tree: Map<Text, N>,
    steps: Seq<StepView>,
    nodes: Seq<N>,
    k: int,
    a: Map<Text, N>,
)
    requires
        separate(steps),
        0 <= k < steps.len(),
        lacks(a, staged_tree(tree, steps.take(k + 1), nodes), steps, k + 1),
    ensures
        lacks(act_all(a, undo(steps[k])), staged_tree(tree, steps.take(k), nodes), steps, k),
{
    let s = steps[k];
    let f = side(s);
    let before = staged_tree(tree, steps.take(k), nodes);
    let after = staged_tree(tree, steps.take(k + 1), nodes);
    let back = act_all(a, undo(s));
    assert(steps.take(k + 1).drop_last() =~= steps.take(k));
    assert(steps.take(k + 1).last() == s);
    assert(steps.take(k + 1).len() - 1 == k);
    assert(after == step_tree(before, s, nodes[k]));
    reveal_with_fuel(act_all, 3);
    match s {
        StepView::Moved { trash, original } => {
            let u = undo(s);
            assert(u.drop_last() =~= seq![ActionView::Discard { path: original }]);
            assert(u.drop_last().drop_last() =~= seq![]);
            assert(back == moved(without(a, original), trash, original));
        },
        StepView::Copied { tmp, .. } => {
            assert(undo(s).drop_last() =~= seq![]);
            assert(back == without(a, tmp));
        },
    }
    assert forall|q: Text| #[trigger] at(back, q) == at(before, q) || (at(back, q) is None
        && !beside(steps.skip(k), q)) by {
        assert(steps.skip(k)[0] == s);
        assert(at(a, q) == at(after, q) || (at(a, q) is None && !beside(steps.skip(k + 1), q)));
        if !beside(steps.skip(k + 1), q) {
            lemma_beside_fewer(steps, k, q);
        }
        if let StepView::Moved { trash, original } = s {
            if under(original, q) {
                lemma_source_inverse(original, trash, q);
                let r = source(trash, original, q);
                lemma_apart_below(trash, original, r);
                assert(at(a, r) == at(after, r) || (at(a, r) is None && !beside(
                    steps.skip(k + 1),
                    r,
                )));
                assert(beside(steps.skip(k + 1), r)) by {
                    assert forall|i: int| 0 <= i < steps.skip(k + 1).len() implies !under(
                        side(#[trigger] steps.skip(k + 1)[i]),
                        r,
                    ) by {
                        assert(apart(side(steps[k]), side(steps[k + 1 + i])));
                        lemma_apart_below(trash, side(steps[k + 1 + i]), r);
                    }
                }
                assert(apart(trash, original));
                if under(trash, q) {
                    lemma_apart_below(trash, original, q);
                }
            }
        }
    }
}

proof fn lemma_beside_fewer(steps: Seq<StepView>, k: int, q: Text)
    requires
        0 <= k < steps.len(),
        !beside(steps.skip(k + 1), q),
    ensures
        !beside(steps.skip(k), q),
{
    let i = choose|i: int|
        0 <= i < steps.skip(k + 1).len() && under(side(#[trigger] steps.skip(k + 1)[i]), q);
    assert(steps.skip(k)[i + 1] == steps.skip(k + 1)[i]);
}

proof fn lemma_undo_all<N>(
    tree: Map<Text, N>,
    steps: Seq<StepView>,
    nodes: Seq<N>,
    k: int,
    a: Map<Text, N>,
)
    requires
        separate(steps),
        0 <= k <= steps.len(),
        lacks(a, staged_tree(tree, steps.take(k), nodes), steps, k),
    ensures
        lacks(act_all(a, undo_all(steps.take(k))), tree, steps, 0),
    decreases k,
{
    let sub = steps.take(k);
    if k == 0 {
        assert(sub =~= seq![]);
    } else {
        assert(sub.drop_last() =~= steps.take(k - 1));
        assert(sub.last() == steps[k - 1]);
        lemma_act_concat(a, undo(steps[k - 1]), undo_all(steps.take(k - 1)));
        lemma_undo(tree, steps, nodes, k - 1, a);
        lemma_undo_all(tree, steps, nodes, k - 1, act_all(a, undo(steps[k - 1])));
    }
}

/// Rolling back leaves the destination exactly as it was, except that what an interrupted merge
/// has left at the side paths may be gone.
pub proof fn law_rollback_restores<N>(tree: Map<Text, N>, steps: Seq<StepView>, nodes: Seq<N>)
    requires
        separate(steps),
    ensures
        ({
            let back = act_all(staged_tree(tree, steps, nodes), undo_all(steps));
            &&& forall|q: Text| beside(steps, q) ==> #[trigger] at(back, q) == at(tree, q)
            &&& forall|q: Text| #[trigger] at(back, q) is Some ==> at(back, q) == at(tree, q)
            &&& (forall|q: Text| #[trigger] tree.dom().contains(q) ==> beside(steps, q)) ==> back
                == tree
        }),
{
    let n = steps.len() as int;
    let staged = staged_tree(tree, steps, nodes);
    let back = act_all(staged, undo_all(steps));
    assert(steps.take(n) =~= steps);
    assert(steps.skip(0) =~= steps);
    lemma_undo_all(tree, steps, nodes, n, staged);
    assert forall|q: Text| #[trigger] at(back, q) == at(tree, q) || (at(back, q) is None
        && !beside(steps, q)) by {
        assert(at(back, q) == at(tree, q) || (at(back, q) is None && !beside(steps.skip(0), q)));
    }
    if forall|q: Text| #[trigger] tree.dom().contains(q) ==> beside(steps, q) {
        assert forall|q: Text| #[trigger] back.dom().contains(q) == tree.dom().contains(q) by {
            assert(at(back, q) == at(tree, q) || at(back, q) is None);
        }
        assert forall|q: Text| back.dom().contains(q) implies #[trigger] back[q] == tree[q] by {
            assert(at(back, q) == at(tree, q));
        }
        assert(back =~= tree);
    }
}

/// Whether some step moved `p` aside, or a directory above it.
pub open spec fn cleared(steps: Seq<StepView>, p: Text) -> bool {
    exists|i: int|
        0 <= i < steps.len() && #[trigger] steps[i] is Moved && under(steps[i]->original, p)
}

/// Whether `p` is not a side file of the merge, nor below one.
pub open spec fn beside(steps: Seq<StepView>, p: Text) -> bool {
    forall|i: int| 0 <= i < steps.len() ==> !under(side(#[trigger] steps[i]), p)
}

/// Whether the copies of a merge can all be published: side files lie apart, those of copies lie
/// apart from the destinations and were not moved away later, destinations lie apart, and below a
/// destination everything but side files was cleared before. What was moved aside below a
/// destination may lie there until the directory itself is moved aside.
pub open spec fn publishable<N>(tree: Map<Text, N>, steps: Seq<StepView>) -> bool {
    &&& separate(steps)
    &&& forall|i: int, j: int|
        0 <= i < j < steps.len() && #[trigger] steps[i] is Copied && #[trigger] steps[j] is Moved
            ==> !under(steps[j]->original, side(steps[i]))
    &&& forall|i: int, j: int|
        0 <= i < steps.len() && 0 <= j < steps.len() && #[trigger] steps[i] is Copied
            && #[trigger] steps[j] is Copied ==> apart(side(steps[i]), steps[j]->dest)
    &&& forall|i: int, j: int|
        0 <= i < j < steps.len() && #[trigger] steps[i] is Copied && #[trigger] steps[j] is Copied
            ==> apart(steps[i]->dest, steps[j]->dest)
    &&& forall|i: int, p: Text|
        0 <= i < steps.len() && #[trigger] steps[i] is Copied && #[trigger] under(steps[i]->dest, p)
            && p != steps[i]->dest && tree.dom().contains(p) && beside(steps, p) ==> cleared(
            steps,
            p,
        )
}

/// What is at `p` once the merge is published: the copy that was made for it, or nothing if it
/// was cleared, or what was there.
pub open spec fn merged_at<N>(
    tree: Map<Text, N>,
    steps: Seq<StepView>,
    nodes: Seq<N>,
    p: Text,
) -> Option<N> {
    if exists|i: int| #[trigger] copies_to(steps, i, p) {
        Some(nodes[choose|i: int| #[trigger] copies_to(steps, i, p)])
    } else if cleared(steps, p) {
        None
    } else {
        at(tree, p)
    }
}

pub open spec fn copies_to(steps: Seq<StepView>, i: int, p: Text) -> bool {
    0 <= i < steps.len() && steps[i] is Copied && steps[i]->dest == p
}

proof fn lemma_staged_at<N>(tree: Map<Text, N>, steps: Seq<StepView>, nodes: Seq<N>, p: Text)
    requires
        beside(steps, p),
    ensures
        at(staged_tree(tree, steps, nodes), p) == (if cleared(steps, p) {
            None
        } else {
            at(tree, p)
        }),
    decreases steps.len(),
{
    if steps.len() > 0 {
        let rest = steps.drop_last();
        assert(beside(rest, p)) by {
            assert forall|i: int| 0 <= i < rest.len() implies !under(side(#[trigger] rest[i]), p) by {
                assert(rest[i] == steps[i]);
            }
        }
        lemma_staged_at(tree, rest, nodes, p);
        let last = steps[steps.len() - 1];
        assert(!under(side(last), p));
        if cleared(rest, p) {
            let i = choose|i: int|
                0 <= i < rest.len() && #[trigger] rest[i] is Moved && under(rest[i]->original, p);
            assert(steps[i] == rest[i]);
        }
        if cleared(steps, p) && !cleared(rest, p) {
            let i = choose|i: int|
                0 <= i < steps.len() && #[trigger] steps[i] is Moved && under(steps[i]->original, p);
            if i < rest.len() {
                assert(rest[i] == steps[i]);
            }
        }
        match last {
            StepView::Moved { trash, original } => {},
            StepView::Copied { tmp, .. } => {
                assert(p != tmp);
            },
        }
    }
}

/// The side file of a copy is there, with nothing below it, until the merge is published.
proof fn lemma_staged_copy<N>(
    tree: Map<Text, N>,
    steps: Seq<StepView>,
    nodes: Seq<N>,
    k: int,
    q: Text,
)
    requires
        publishable(tree, steps),
        0 <= k < steps.len(),
        steps[k] is Copied,
        under(side(steps[k]), q),
    ensures
        at(staged_tree(tree, steps, nodes), q) == (if q == side(steps[k]) {
            Some(nodes[k])
        } else {
            None
        }),
{
    assert forall|j: int| k < j < steps.len() implies #[trigger] leaves_alone(steps, k, j) by {
        let (a, b) = (steps[k], steps[j]);
    }
    lemma_staged_copy_inner(tree, steps, nodes, k, q);
}

/// Whether step `j` does not touch the side file of step `k`.
spec fn leaves_alone(steps: Seq<StepView>, k: int, j: int) -> bool {
    &&& apart(side(steps[k]), side(steps[j]))
    &&& steps[j] is Moved ==> !under(steps[j]->original, side(steps[k]))
}

proof fn lemma_staged_copy_inner<N>(
    tree: Map<Text, N>,
    steps: Seq<StepView>,
    nodes: Seq<N>,
    k: int,
    q: Text,
)
    requires
        forall|j: int| k < j < steps.len() ==> #[trigger] leaves_alone(steps, k, j),
        0 <= k < steps.len(),
        steps[k] is Copied,
        under(side(steps[k]), q),
    ensures
        at(staged_tree(tree, steps, nodes), q) == (if q == side(steps[k]) {
            Some(nodes[k])
        } else {
            None
        }),
    decreases steps.len(),
{
    let rest = steps.drop_last();
    let tmp = side(steps[k]);
    let n = steps.len() - 1;
    if k < n {
        assert(rest[k] == steps[k]);
        assert forall|j: int| k < j < rest.len() implies #[trigger] leaves_alone(rest, k, j) by {
            assert(leaves_alone(steps, k, j));
        }
        lemma_staged_copy_inner(tree, rest, nodes, k, q);
        assert(leaves_alone(steps, k, n));
        lemma_apart_below(tmp, side(steps[n]), q);
    }
}

/// The trees along the renames.
proof fn lemma_renamed<N>(
    tree: Map<Text, N>,
    steps: Seq<StepView>,
    nodes: Seq<N>,
    k: int,
    p: Text,
)
    requires
        publishable(tree, steps),
        beside(steps, p),
        0 <= k <= steps.len(),
    ensures
        ({
            let start = staged_tree(tree, steps, nodes);
            let now = act_all(start, renames(steps.take(k)));
            &&& forall|i: int, q: Text|
                k <= i < steps.len() && steps[i] is Copied && #[trigger] under(side(steps[i]), q)
                    ==> at(now, q) == at(start, q)
            &&& (forall|i: int| 0 <= i < k ==> !#[trigger] copies_to(steps, i, p)) ==> (at(now, p)
                == at(start, p) || (at(now, p) is None && exists|i: int|
                0 <= i < k && #[trigger] steps[i] is Copied && under(steps[i]->dest, p)
                    && steps[i]->dest != p))
            &&& forall|i: int|
                0 <= i < k && #[trigger] copies_to(steps, i, p) ==> at(now, p) == Some(nodes[i])
        }),
    decreases k,
{
    let start = staged_tree(tree, steps, nodes);
    if k == 0 {
        assert(steps.take(0) =~= seq![]);
    } else {
        lemma_renamed(tree, steps, nodes, k - 1, p);
        let sub = steps.take(k);
        assert(sub.drop_last() =~= steps.take(k - 1));
        assert(sub.last() == steps[k - 1]);
        let prev = act_all(start, renames(steps.take(k - 1)));
        let now = act_all(start, renames(sub));
        match steps[k - 1] {
            StepView::Moved { .. } => {
                assert(now == prev);
                assert(!copies_to(steps, k - 1, p));
            },
            StepView::Copied { tmp, dest } => {
                let r = renames(steps.take(k - 1)).push(ActionView::Rename { from: tmp, to: dest });
                assert(r.drop_last() =~= renames(steps.take(k - 1)));
                assert(now == moved(prev, tmp, dest));
                assert forall|i: int, q: Text|
                    k <= i < steps.len() && steps[i] is Copied && #[trigger] under(
                        side(steps[i]),
                        q,
                    ) implies at(now, q) == at(start, q) by {
                    let mine = side(steps[i]);
                    assert(apart(tmp, mine)) by {
                        assert(apart(side(steps[k - 1]), side(steps[i])));
                    }
                    lemma_apart_below(mine, tmp, q);
                    assert(apart(mine, dest));
                    lemma_apart_below(mine, dest, q);
                }
                if copies_to(steps, k - 1, p) {
                    assert(source(tmp, dest, p) =~= tmp);
                    assert(under(side(steps[k - 1]), tmp));
                    lemma_staged_copy(tree, steps, nodes, k - 1, tmp);
                } else if under(dest, p) {
                    lemma_source_inverse(dest, tmp, p);
                    let s = source(tmp, dest, p);
                    assert(under(side(steps[k - 1]), s));
                    lemma_staged_copy(tree, steps, nodes, k - 1, s);
                    if s == tmp {
                        assert(source(dest, tmp, tmp) =~= dest);
                    }
                    assert(at(now, p) is None);
                    assert(steps[k - 1] matches StepView::Copied { dest, .. } && under(dest, p)
                        && dest != p);
                    assert forall|i: int| 0 <= i < k implies !#[trigger] copies_to(steps, i, p) by {
                        if copies_to(steps, i, p) {
                            let (a, b) = (steps[i], steps[k - 1]);
                        }
                    }
                } else {
                    assert(!under(side(steps[k - 1]), p));
                    assert(at(now, p) == at(prev, p));
                }
            },
        }
    }
}

/// Publishing gives every copied path its copy, removes what was cleared, and changes nothing
/// else.
pub proof fn law_publish<N>(tree: Map<Text, N>, steps: Seq<StepView>, nodes: Seq<N>, p: Text)
    requires
        publishable(tree, steps),
        beside(steps, p),
    ensures
        at(
            act_all(staged_tree(tree, steps, nodes), renames(steps) + discards(steps)),
            p,
        ) == merged_at(tree, steps, nodes, p),
{
    let start = staged_tree(tree, steps, nodes);
    let renamed = act_all(start, renames(steps));
    lemma_act_concat(start, renames(steps), discards(steps));
    lemma_renamed(tree, steps, nodes, steps.len() as int, p);
    assert(steps.take(steps.len() as int) =~= steps);
    lemma_discarded(renamed, steps, p);
    lemma_staged_at(tree, steps, nodes, p);
    if exists|i: int| #[trigger] copies_to(steps, i, p) {
        let i = choose|i: int| #[trigger] copies_to(steps, i, p);
        assert(copies_to(steps, i, p));
    } else if at(renamed, p) != at(start, p) {
        let i = choose|i: int|
            0 <= i < steps.len() && #[trigger] steps[i] is Copied && under(steps[i]->dest, p)
                && steps[i]->dest != p;
        assert(tree.dom().contains(p) ==> cleared(steps, p));
    }
}

/// Once a copy is in its place, nothing is left of its side file.
proof fn lemma_copies_gone<N>(
    tree: Map<Text, N>,
    steps: Seq<StepView>,
    start: Map<Text, N>,
    k: int,
    i: int,
    q: Text,
)
    requires
        publishable(tree, steps),
        0 <= i < k <= steps.len(),
        steps[i] is Copied,
        under(side(steps[i]), q),
    ensures
        !act_all(start, renames(steps.take(k))).dom().contains(q),
    decreases k,
{
    let sub = steps.take(k);
    assert(sub.drop_last() =~= steps.take(k - 1));
    assert(sub.last() == steps[k - 1]);
    if i < k - 1 {
        lemma_copies_gone(tree, steps, start, k - 1, i, q);
    }
    if let StepView::Copied { tmp, dest } = steps[k - 1] {
        let r = renames(steps.take(k - 1)).push(ActionView::Rename { from: tmp, to: dest });
        assert(r.drop_last() =~= renames(steps.take(k - 1)));
        assert(apart(side(steps[i]), dest));
        lemma_apart_below(side(steps[i]), dest, q);
    }
}

/// Discarding adds nothing, and leaves nothing of what was moved aside.
proof fn lemma_trash_gone<N>(tree: Map<Text, N>, steps: Seq<StepView>, q: Text)
    ensures
        act_all(tree, discards(steps)).dom().contains(q) ==> tree.dom().contains(q) && forall|i: int|
            0 <= i < steps.len() && #[trigger] steps[i] is Moved ==> !under(side(steps[i]), q),
    decreases steps.len(),
{
    if steps.len() > 0 {
        let rest = steps.drop_last();
        lemma_trash_gone(tree, rest, q);
        if let StepView::Moved { trash, .. } = steps.last() {
            let all = discards(rest).push(ActionView::Discard { path: trash });
            assert(all.drop_last() =~= discards(rest));
        }
        if act_all(tree, discards(steps)).dom().contains(q) {
            assert(act_all(tree, discards(rest)).dom().contains(q));
            assert forall|i: int| 0 <= i < steps.len() && #[trigger] steps[i] is Moved implies !under(
                side(steps[i]),
                q,
            ) by {
                if i < rest.len() {
                    assert(rest[i] == steps[i]);
                }
            }
        }
    }
}

/// Publishing leaves no side file of the merge behind.
pub proof fn law_publish_leaves_no_side_files<N>(
    tree: Map<Text, N>,
    steps: Seq<StepView>,
    nodes: Seq<N>,
    q: Text,
)
    requires
        publishable(tree, steps),
        act_all(staged_tree(tree, steps, nodes), renames(steps) + discards(steps)).dom().contains(
            q,
        ),
    ensures
        beside(steps, q),
{
    let start = staged_tree(tree, steps, nodes);
    let renamed = act_all(start, renames(steps));
    lemma_act_concat(start, renames(steps), discards(steps));
    lemma_trash_gone(renamed, steps, q);
    assert(steps.take(steps.len() as int) =~= steps);
    assert forall|i: int| 0 <= i < steps.len() implies !under(side(#[trigger] steps[i]), q) by {
        if steps[i] is Copied && under(side(steps[i]), q) {
            lemma_copies_gone(tree, steps, start, steps.len() as int, i, q);
        }
    }
}

proof fn lemma_discarded<N>(tree: Map<Text, N>, steps: Seq<StepView>, p: Text)
    requires
        beside(steps, p),
    ensures
        at(act_all(tree, discards(steps)), p) == at(tree, p),
    decreases steps.len(),
{
    if steps.len() > 0 {
        let rest = steps.drop_last();
        assert(beside(rest, p)) by {
            assert forall|i: int| 0 <= i < rest.len() implies !under(side(#[trigger] rest[i]), p) by {
                assert(rest[i] == steps[i]);
            }
        }
        lemma_discarded(tree, rest, p);
        assert(!under(side(steps[steps.len() - 1]), p));
        match steps.last() {
            StepView::Moved { trash, .. } => {
                let all = discards(rest).push(ActionView::Discard { path: trash });
                assert(all.drop_last() =~= discards(rest));
            },
            StepView::Copied { .. } => {},
        }
    }
}

/// The mark in the name of a side file.
pub open spec fn mark(tag: Text) -> Text {
    ".branchfs-"@ + tag + "."@
}

pub proof fn lemma_side_path(target: Text, tag: Text)
    requires
        trim_end_slashes(target) == target,
        !tag.contains('/'),
    ensures
        side_path(target, tag) == target.take(name_start(target)) + mark(tag) + target.skip(
            name_start(target),
        ),
        mark(tag).len() > 0,
        name_start(side_path(target, tag)) == name_start(target),
{
    reveal_strlit(".branchfs-");
    reveal_strlit(".");
    let k = name_start(target);
    let side = side_path(target, tag);
    lemma_name_start_bound(target);
    assert(side =~= target.take(k) + mark(tag) + target.skip(k));
    assert forall|i: int| k <= i < side.len() implies #[trigger] side[i] != '/' by {
        let m = mark(tag);
        if i < k + m.len() {
            assert(side[i] == m[i - k]);
            let a = ".branchfs-"@;
            if a.len() <= i - k < a.len() + tag.len() {
                assert(m[i - k] == tag[i - k - a.len()]);
                assert(tag.contains(tag[i - k - a.len()]));
            }
        } else {
            assert(side[i] == target[i - m.len()]);
        }
    }
    assert(k > 0 ==> side[k - 1] == target[k - 1]);
    lemma_name_start(side, k);
}

/// A side file lies beside its target: in the same directory, neither above nor below it.
pub proof fn law_side_path_lies_beside(target: Text, tag: Text)
    requires
        trim_end_slashes(target) == target,
        !tag.contains('/'),
    ensures
        side_path(target, tag).take(name_start(side_path(target, tag))) == target.take(
            name_start(target),
        ),
        apart(side_path(target, tag), target),
{
    lemma_side_path(target, tag);
    lemma_name_start_bound(target);
    let side = side_path(target, tag);
    lemma_name_start_bound(side);
    let k = name_start(target);
    assert(side.take(k) =~= target.take(k));
    assert(side.len() > target.len());
    if under(target, side) {
        assert(target.push('/')[target.len() as int] == side[target.len() as int]);
    }
    if under(side, target) {
        assert(side.push('/').len() <= target.len());
    }
}

/// Different targets have different side files.
pub proof fn law_side_paths_are_distinct(a: Text, b: Text, tag: Text)
    requires
        trim_end_slashes(a) == a,
        trim_end_slashes(b) == b,
        !tag.contains('/'),
        side_path(a, tag) == side_path(b, tag),
    ensures
        a == b,
{
    lemma_side_path(a, tag);
    lemma_side_path(b, tag);
    lemma_name_start_bound(a);
    lemma_name_start_bound(b);
    let side = side_path(a, tag);
    let k = name_start(a);
    let n = mark(tag).len() as int;
    assert(a.len() == side.len() - n && b.len() == side.len() - n);
    assert forall|i: int| 0 <= i < a.len() implies a[i] == b[i] by {
        if i < k {
            assert(side[i] == a[i] && side[i] == b[i]);
        } else {
            assert(side[i + n] == a[i] && side[i + n] == b[i]);
        }
    }
    assert(a =~= b);
}

} // verus!
