//! Three-way merge of texts, line by line.

use vstd::prelude::*;
use vstd::utf8::valid_utf8;

use crate::records::{FileKind, Meta};

verus! {

/// Texts above this size are not merged.
pub const MAX_TEXT_MERGE_BYTES: u64 = 1048576;

/// `std::str::from_utf8` accepts exactly the byte strings that are well-formed UTF-8.
#[verifier::external_body]
fn is_utf8(bytes: &[u8]) -> (r: bool)
    ensures
        r == valid_utf8(bytes@),
{
    std::str::from_utf8(bytes).is_ok()
}

/// Whether an entry may be read as a text to merge.
pub open spec fn readable_as_text(found: Option<Meta>) -> bool {
    found matches Some(m) && m.kind == FileKind::File && m.len <= MAX_TEXT_MERGE_BYTES
}

/// Whether bytes are a text to merge: UTF-8 without a null byte.
pub open spec fn is_text(bytes: Seq<u8>) -> bool {
    !bytes.contains(0) && valid_utf8(bytes)
}

/// Whether the entry that the filesystem reported is worth reading as a text.
pub fn worth_reading(found: Option<Meta>) -> (r: bool)
    ensures
        r == readable_as_text(found),
{
    match found {
        Some(m) => m.kind == FileKind::File && m.len <= MAX_TEXT_MERGE_BYTES,
        None => false,
    }
}

/// The text in a small regular file, given what the filesystem reported of it and what it holds.
pub fn read_bounded_text(found: Option<Meta>, bytes: Vec<u8>) -> (r: Option<Vec<u8>>)
    ensures
        r is Some <==> readable_as_text(found) && is_text(bytes@),
        r matches Some(b) ==> b@ == bytes@,
{
    if !worth_reading(found) {
        return None;
    }
    let mut i: usize = 0;
    while i < bytes.len()
        invariant
            i <= bytes.len(),
            forall|j: int| 0 <= j < i ==> #[trigger] bytes@[j] != 0,
        decreases bytes.len() - i,
    {
        if bytes[i] == 0 {
            return None;
        }
        i = i + 1;
    }
    if is_utf8(bytes.as_slice()) {
        Some(bytes)
    } else {
        None
    }
}

/// The length of the first line, its newline included.
pub open spec fn line_len(b: Seq<u8>) -> nat
    decreases b.len(),
{
    if b.len() == 0 {
        0
    } else if b[0] == 10 {
        1
    } else {
        1 + line_len(b.drop_first())
    }
}

/// The lines of a text, each with its newline; the last one may lack it.
pub open spec fn lines(b: Seq<u8>) -> Seq<Seq<u8>>
    decreases b.len(),
{
    if b.len() == 0 {
        seq![]
    } else {
        let n = line_len(b) as int;
        proof {
            lemma_line_len(b);
        }
        seq![b.take(n)] + lines(b.skip(n))
    }
}

pub proof fn lemma_line_len(b: Seq<u8>)
    ensures
        line_len(b) <= b.len(),
        b.len() > 0 ==> line_len(b) > 0,
    decreases b.len(),
{
    if b.len() > 0 && b[0] != 10 {
        lemma_line_len(b.drop_first());
    }
}

/// Lines put together again.
pub open spec fn joined_lines(ls: Seq<Seq<u8>>) -> Seq<u8>
    decreases ls.len(),
{
    if ls.len() == 0 {
        seq![]
    } else {
        ls[0] + joined_lines(ls.drop_first())
    }
}

/// The lines of a text, put together, are the text.
pub proof fn law_lines_join(b: Seq<u8>)
    ensures
        joined_lines(lines(b)) == b,
    decreases b.len(),
{
    if b.len() > 0 {
        let n = line_len(b) as int;
        lemma_line_len(b);
        law_lines_join(b.skip(n));
        assert(lines(b).drop_first() =~= lines(b.skip(n)));
        assert(b.take(n) + b.skip(n) =~= b);
    } else {
        assert(joined_lines(lines(b)) =~= b);
    }
}

pub open spec fn line_views(v: Seq<Vec<u8>>) -> Seq<Seq<u8>> {
    v.map_values(|l: Vec<u8>| l@)
}

/// Splits a text after each newline.
pub fn split_lines_keepends(text: &[u8]) -> (r: Vec<Vec<u8>>)
    ensures
        line_views(r@) == lines(text@),
{
    let mut out: Vec<Vec<u8>> = Vec::new();
    let mut start: usize = 0;
    proof {
        assert(text@.skip(0) =~= text@);
        assert(line_views(out@) + lines(text@.skip(0)) =~= lines(text@));
    }
    while start < text.len()
        invariant
            start <= text.len(),
            line_views(out@) + lines(text@.skip(start as int)) == lines(text@),
        decreases text.len() - start,
    {
        let ghost rest = text@.skip(start as int);
        let mut line: Vec<u8> = Vec::new();
        let mut i: usize = start;
        let mut ended = false;
        while i < text.len() && !ended
            invariant
                start <= i <= text.len(),
                rest == text@.skip(start as int),
                line@ == rest.take(i - start),
                ended ==> line_len(rest) == i - start,
                !ended ==> line_len(rest) == i - start + line_len(text@.skip(i as int)),
            decreases text.len() - i,
        {
            line.push(text[i]);
            proof {
                assert(rest.take(i - start + 1) =~= rest.take(i - start).push(text@[i as int]));
                let tail = text@.skip(i as int);
                assert(tail.drop_first() =~= text@.skip(i + 1));
                assert(tail[0] == text@[i as int]);
            }
            if text[i] == 10 {
                ended = true;
            }
            i = i + 1;
        }
        proof {
            let n = line_len(rest) as int;
            assert(n == i - start);
            assert(rest.skip(n) =~= text@.skip(i as int));
            lemma_line_len(rest);
            let l = line@;
            assert(line_views(out@.push(line)) =~= line_views(out@).push(l));
            assert(lines(rest) == seq![rest.take(n)] + lines(rest.skip(n)));
            assert(line_views(out@).push(l) + lines(text@.skip(i as int)) =~= line_views(out@)
                + lines(rest));
        }
        out.push(line);
        start = i;
    }
    proof {
        assert(lines(text@.skip(start as int)) =~= seq![]);
        assert(line_views(out@) =~= lines(text@));
    }
    out
}

/// How many leading elements two sequences share.
pub open spec fn common_prefix<T>(a: Seq<T>, b: Seq<T>) -> nat
    decreases a.len(),
{
    if a.len() > 0 && b.len() > 0 && a[0] == b[0] {
        1 + common_prefix(a.drop_first(), b.drop_first())
    } else {
        0
    }
}

/// The element that stands `i` places before the last.
pub open spec fn from_end<T>(a: Seq<T>, i: int) -> T {
    a[a.len() - 1 - i]
}

/// How many trailing elements two sequences share.
pub open spec fn common_suffix<T>(a: Seq<T>, b: Seq<T>) -> nat
    decreases a.len(),
{
    if a.len() > 0 && b.len() > 0 && a.last() == b.last() {
        1 + common_suffix(a.drop_last(), b.drop_last())
    } else {
        0
    }
}

pub proof fn lemma_common_prefix<T>(a: Seq<T>, b: Seq<T>, k: int)
    requires
        0 <= k <= a.len(),
        k <= b.len(),
        forall|i: int| 0 <= i < k ==> a[i] == b[i],
        k == a.len() || k == b.len() || a[k] != b[k],
    ensures
        common_prefix(a, b) == k,
    decreases k,
{
    if k > 0 {
        let (a1, b1) = (a.drop_first(), b.drop_first());
        assert forall|i: int| 0 <= i < k - 1 implies a1[i] == b1[i] by {
            assert(a[i + 1] == b[i + 1]);
        }
        lemma_common_prefix(a1, b1, k - 1);
    }
}

pub proof fn lemma_common_suffix<T>(a: Seq<T>, b: Seq<T>, k: int)
    requires
        0 <= k <= a.len(),
        k <= b.len(),
        forall|i: int| 0 <= i < k ==> #[trigger] from_end(a, i) == from_end(b, i),
        k == a.len() || k == b.len() || from_end(a, k) != from_end(b, k),
    ensures
        common_suffix(a, b) == k,
    decreases k,
{
    if k > 0 {
        let (a1, b1) = (a.drop_last(), b.drop_last());
        assert(from_end(a, 0) == from_end(b, 0));
        assert forall|i: int| 0 <= i < k - 1 implies from_end(a1, i) == from_end(b1, i) by {
            assert(from_end(a, (i + 1)) == from_end(b, (i + 1)));
        }
        lemma_common_suffix(a1, b1, k - 1);
    }
}

pub proof fn lemma_common_prefix_bound<T>(a: Seq<T>, b: Seq<T>)
    ensures
        common_prefix(a, b) <= a.len(),
        common_prefix(a, b) <= b.len(),
        forall|i: int| 0 <= i < common_prefix(a, b) ==> a[i] == b[i],
    decreases a.len(),
{
    if a.len() > 0 && b.len() > 0 && a[0] == b[0] {
        let (a1, b1) = (a.drop_first(), b.drop_first());
        lemma_common_prefix_bound(a1, b1);
        assert forall|i: int| 0 <= i < common_prefix(a, b) implies a[i] == b[i] by {
            if i > 0 {
                assert(a1[i - 1] == b1[i - 1]);
            }
        }
    }
}

pub proof fn lemma_common_suffix_bound<T>(a: Seq<T>, b: Seq<T>)
    ensures
        common_suffix(a, b) <= a.len(),
        common_suffix(a, b) <= b.len(),
        forall|i: int| 0 <= i < common_suffix(a, b) ==> #[trigger] from_end(a, i) == from_end(b, i),
    decreases a.len(),
{
    if a.len() > 0 && b.len() > 0 && a.last() == b.last() {
        let (a1, b1) = (a.drop_last(), b.drop_last());
        lemma_common_suffix_bound(a1, b1);
        assert forall|i: int| 0 <= i < common_suffix(a, b) implies from_end(a, i) == from_end(b, i) by {
            if i > 0 {
                assert(from_end(a1, (i - 1)) == from_end(b1, (i - 1)));
            }
        }
    }
}

/// A change of a line sequence: the lines from `start` up to `end` become `text`.
pub struct Change {
    pub start: int,
    pub end: int,
    pub text: Seq<Seq<u8>>,
}

/// The smallest single change that turns `base` into `changed`, leading lines kept first.
pub open spec fn change(base: Seq<Seq<u8>>, changed: Seq<Seq<u8>>) -> Change {
    let start = common_prefix(base, changed) as int;
    let kept = common_suffix(base.skip(start), changed.skip(start)) as int;
    Change {
        start,
        end: base.len() - kept,
        text: changed.subrange(start, changed.len() - kept),
    }
}

/// `base` with a change applied.
pub open spec fn applied(base: Seq<Seq<u8>>, c: Change) -> Seq<Seq<u8>> {
    base.take(c.start) + c.text + base.skip(c.end)
}

pub proof fn lemma_change_bounds(base: Seq<Seq<u8>>, changed: Seq<Seq<u8>>)
    ensures
        0 <= change(base, changed).start <= change(base, changed).end <= base.len(),
        change(base, changed).start <= changed.len(),
        common_suffix(
            base.skip(change(base, changed).start),
            changed.skip(change(base, changed).start),
        ) <= changed.len() - change(base, changed).start,
{
    lemma_common_prefix_bound(base, changed);
    let start = common_prefix(base, changed) as int;
    lemma_common_suffix_bound(base.skip(start), changed.skip(start));
}

/// The change between two line sequences turns the first into the second.
pub proof fn law_change_applies(base: Seq<Seq<u8>>, changed: Seq<Seq<u8>>)
    ensures
        applied(base, change(base, changed)) == changed,
{
    lemma_change_bounds(base, changed);
    lemma_common_prefix_bound(base, changed);
    let c = change(base, changed);
    let (b1, c1) = (base.skip(c.start), changed.skip(c.start));
    lemma_common_suffix_bound(b1, c1);
    let kept = common_suffix(b1, c1) as int;
    assert(base.take(c.start) =~= changed.take(c.start));
    assert(base.skip(c.end) =~= changed.skip(changed.len() - kept)) by {
        assert forall|i: int| 0 <= i < kept implies base.skip(c.end)[i] == changed.skip(
            changed.len() - kept,
        )[i] by {
            let j = kept - 1 - i;
            assert(from_end(b1, j) == from_end(c1, j));
        }
    }
    assert(applied(base, c) =~= changed);
}

fn bytes_eq(a: &[u8], b: &[u8]) -> (r: bool)
    ensures
        r == (a@ == b@),
{
    if a.len() != b.len() {
        return false;
    }
    let mut i: usize = 0;
    while i < a.len()
        invariant
            i <= a.len(),
            a.len() == b.len(),
            forall|j: int| 0 <= j < i ==> a@[j] == b@[j],
        decreases a.len() - i,
    {
        if a[i] != b[i] {
            return false;
        }
        i = i + 1;
    }
    proof {
        assert(a@ =~= b@);
    }
    true
}

fn copy_bytes(b: &[u8]) -> (r: Vec<u8>)
    ensures
        r@ == b@,
{
    let mut out: Vec<u8> = Vec::new();
    out.extend_from_slice(b);
    proof {
        assert(out@ =~= b@);
    }
    out
}

/// The smallest range of `base` that was replaced to get `changed`, and what replaced it.
pub fn changed_range(base: &Vec<Vec<u8>>, changed: &Vec<Vec<u8>>) -> (r: (
    usize,
    usize,
    Vec<Vec<u8>>,
))
    ensures
        change(line_views(base@), line_views(changed@)) == (Change {
            start: r.0 as int,
            end: r.1 as int,
            text: line_views(r.2@),
        }),
        r.0 <= r.1 <= base.len(),
{
    let ghost b = line_views(base@);
    let ghost c = line_views(changed@);
    let mut prefix: usize = 0;
    while prefix < base.len() && prefix < changed.len() && bytes_eq(
        base[prefix].as_slice(),
        changed[prefix].as_slice(),
    )
        invariant
            prefix <= base.len(),
            prefix <= changed.len(),
            b == line_views(base@),
            c == line_views(changed@),
            forall|i: int| 0 <= i < prefix ==> b[i] == c[i],
        decreases base.len() - prefix,
    {
        prefix = prefix + 1;
    }
    proof {
        lemma_common_prefix(b, c, prefix as int);
    }
    let ghost b1 = b.skip(prefix as int);
    let ghost c1 = c.skip(prefix as int);
    let mut suffix: usize = 0;
    while suffix < base.len() - prefix && suffix < changed.len() - prefix && bytes_eq(
        base[base.len() - 1 - suffix].as_slice(),
        changed[changed.len() - 1 - suffix].as_slice(),
    )
        invariant
            prefix <= base.len(),
            prefix <= changed.len(),
            suffix <= base.len() - prefix,
            suffix <= changed.len() - prefix,
            b == line_views(base@),
            c == line_views(changed@),
            b1 == b.skip(prefix as int),
            c1 == c.skip(prefix as int),
            forall|i: int| 0 <= i < suffix ==> #[trigger] from_end(b1, i) == from_end(c1, i),
        decreases base.len() - suffix,
    {
        suffix = suffix + 1;
    }
    proof {
        lemma_common_suffix(b1, c1, suffix as int);
    }
    let base_end = base.len() - suffix;
    let changed_end = changed.len() - suffix;
    let text = copy_lines(changed, prefix, changed_end);
    (prefix, base_end, text)
}

/// The lines of `v` from `from` up to `to`.
fn copy_lines(v: &Vec<Vec<u8>>, from: usize, to: usize) -> (r: Vec<Vec<u8>>)
    requires
        from <= to <= v.len(),
    ensures
        line_views(r@) == line_views(v@).subrange(from as int, to as int),
{
    let mut out: Vec<Vec<u8>> = Vec::new();
    let mut i: usize = from;
    while i < to
        invariant
            from <= i <= to <= v.len(),
            line_views(out@) =~= line_views(v@).subrange(from as int, i as int),
        decreases to - i,
    {
        let line = copy_bytes(v[i].as_slice());
        let ghost l = line@;
        proof {
            assert(line_views(out@.push(line)) =~= line_views(out@).push(l));
        }
        out.push(line);
        i = i + 1;
    }
    out
}

/// The lines with both changes made, the one that starts first before the other.
pub open spec fn combined(base: Seq<Seq<u8>>, a: Change, b: Change) -> Seq<Seq<u8>> {
    if a.start <= b.start {
        base.take(a.start) + a.text + base.subrange(a.end, b.start) + b.text + base.skip(b.end)
    } else {
        base.take(b.start) + b.text + base.subrange(b.end, a.start) + a.text + base.skip(a.end)
    }
}

/// Whether both changes can be made: the one that starts first, or the first of two that start at
/// one line, ends before the other starts.
pub open spec fn compatible(a: Change, b: Change) -> bool {
    if a.start <= b.start {
        a.end <= b.start
    } else {
        b.end <= a.start
    }
}

/// The merge of two texts that come from one: a side that did not change yields to the other,
/// equal sides agree, and otherwise both sides' changes are made if they are compatible.
pub open spec fn merged(base: Seq<u8>, current: Seq<u8>, session: Seq<u8>) -> Option<Seq<u8>> {
    let c = change(lines(base), lines(current));
    let s = change(lines(base), lines(session));
    if current == session || base == current {
        Some(session)
    } else if base == session {
        Some(current)
    } else if !valid_utf8(base) || !valid_utf8(current) || !valid_utf8(session) || !compatible(
        c,
        s,
    ) {
        None
    } else {
        Some(joined_lines(combined(lines(base), c, s)))
    }
}

fn append_lines(out: &mut Vec<u8>, v: &Vec<Vec<u8>>, from: usize, to: usize)
    requires
        from <= to <= v.len(),
    ensures
        final(out)@ == old(out)@ + joined_lines(line_views(v@).subrange(from as int, to as int)),
{
    let ghost before = out@;
    let mut i: usize = from;
    proof {
        assert(line_views(v@).subrange(from as int, from as int) =~= seq![]);
        assert(out@ =~= before + joined_lines(seq![]));
    }
    while i < to
        invariant
            from <= i <= to <= v.len(),
            out@ == before + joined_lines(line_views(v@).subrange(from as int, i as int)),
        decreases to - i,
    {
        let ghost so_far = line_views(v@).subrange(from as int, i as int);
        out.extend_from_slice(v[i].as_slice());
        proof {
            let l = v@[i as int]@;
            assert(line_views(v@).subrange(from as int, i + 1) =~= so_far + seq![l]);
            lemma_joined_concat(so_far, seq![l]);
            assert(seq![l].drop_first() =~= seq![]);
            assert(joined_lines(seq![l]) =~= l) by {
                reveal_with_fuel(joined_lines, 2);
            }
            assert(out@ =~= before + (joined_lines(so_far) + l));
        }
        i = i + 1;
    }
}

pub proof fn lemma_joined_concat(a: Seq<Seq<u8>>, b: Seq<Seq<u8>>)
    ensures
        joined_lines(a + b) == joined_lines(a) + joined_lines(b),
    decreases a.len(),
{
    if a.len() == 0 {
        assert(a + b =~= b);
        assert(joined_lines(a) + joined_lines(b) =~= joined_lines(b));
    } else {
        assert((a + b).drop_first() =~= a.drop_first() + b);
        lemma_joined_concat(a.drop_first(), b);
        assert(a[0] + (joined_lines(a.drop_first()) + joined_lines(b)) =~= (a[0] + joined_lines(
            a.drop_first(),
        )) + joined_lines(b));
    }
}

/// `base` with the lines from `s1` to `e1` and from `s2` to `e2` replaced.
fn splice(
    base: &Vec<Vec<u8>>,
    s1: usize,
    e1: usize,
    t1: &Vec<Vec<u8>>,
    s2: usize,
    e2: usize,
    t2: &Vec<Vec<u8>>,
) -> (r: Vec<u8>)
    requires
        s1 <= e1 <= s2 <= e2 <= base.len(),
    ensures
        r@ == joined_lines(
            line_views(base@).take(s1 as int) + line_views(t1@) + line_views(base@).subrange(
                e1 as int,
                s2 as int,
            ) + line_views(t2@) + line_views(base@).skip(e2 as int),
        ),
{
    let mut out: Vec<u8> = Vec::new();
    append_lines(&mut out, base, 0, s1);
    append_lines(&mut out, t1, 0, t1.len());
    append_lines(&mut out, base, e1, s2);
    append_lines(&mut out, t2, 0, t2.len());
    append_lines(&mut out, base, e2, base.len());
    proof {
        let b = line_views(base@);
        let p1 = b.take(s1 as int);
        let p2 = line_views(t1@);
        let p3 = b.subrange(e1 as int, s2 as int);
        let p4 = line_views(t2@);
        let p5 = b.skip(e2 as int);
        assert(b.subrange(0, s1 as int) =~= p1);
        assert(p2.subrange(0, t1.len() as int) =~= p2);
        assert(p4.subrange(0, t2.len() as int) =~= p4);
        assert(b.subrange(e2 as int, base.len() as int) =~= p5);
        lemma_joined_concat(p1, p2);
        lemma_joined_concat(p1 + p2, p3);
        lemma_joined_concat(p1 + p2 + p3, p4);
        lemma_joined_concat(p1 + p2 + p3 + p4, p5);
        assert(out@ =~= joined_lines(p1) + joined_lines(p2) + joined_lines(p3) + joined_lines(p4)
            + joined_lines(p5));
    }
    out
}

/// Merge the text that the parent now holds and the text of the session, both derived from
/// `base`.
pub fn try_three_way_text_merge(base: &[u8], current: &[u8], session: &[u8]) -> (r: Option<
    Vec<u8>,
>)
    ensures
        (match r {
            Some(b) => Some(b@),
            None => None,
        }) == merged(base@, current@, session@),
{
    if bytes_eq(current, session) {
        return Some(copy_bytes(session));
    }
    if bytes_eq(base, current) {
        return Some(copy_bytes(session));
    }
    if bytes_eq(base, session) {
        return Some(copy_bytes(current));
    }
    if !is_utf8(base) || !is_utf8(current) || !is_utf8(session) {
        return None;
    }
    let base_lines = split_lines_keepends(base);
    let current_lines = split_lines_keepends(current);
    let session_lines = split_lines_keepends(session);
    let (cur_start, cur_end, cur_text) = changed_range(&base_lines, &current_lines);
    let (ses_start, ses_end, ses_text) = changed_range(&base_lines, &session_lines);
    if cur_start <= ses_start {
        if cur_end > ses_start {
            return None;
        }
        Some(splice(&base_lines, cur_start, cur_end, &cur_text, ses_start, ses_end, &ses_text))
    } else {
        if ses_end > cur_start {
            return None;
        }
        Some(splice(&base_lines, ses_start, ses_end, &ses_text, cur_start, cur_end, &cur_text))
    }
}

/// Which side is called the session makes no difference where the changes start at different
/// lines.
pub proof fn law_merge_is_symmetric(base: Seq<u8>, a: Seq<u8>, b: Seq<u8>)
    requires
        change(lines(base), lines(a)).start != change(lines(base), lines(b)).start,
    ensures
        merged(base, a, b) == merged(base, b, a),
{
}

/// A side that changed nothing never costs the other side its text, and two sides that made the
/// same text agree on it.
pub proof fn law_merge_of_one_sided_change(base: Seq<u8>, text: Seq<u8>)
    ensures
        merged(base, base, text) == Some(text),
        merged(base, text, base) == Some(text),
        merged(base, text, text) == Some(text),
{
}

/// A merge that was made by lines holds both changes: undoing either one in the lines leaves the
/// lines of the other side.
pub proof fn law_merge_keeps_both_changes(base: Seq<Seq<u8>>, left: Seq<Seq<u8>>, right: Seq<
    Seq<u8>,
>)
    requires
        change(base, left).end <= change(base, right).start,
    ensures
        ({
            let a = change(base, left);
            let b = change(base, right);
            let both = combined(base, a, b);
            let shift = a.text.len() - (a.end - a.start);
            &&& both.take(b.start + shift) + base.subrange(b.start, b.end) + both.skip(
                b.start + shift + b.text.len(),
            ) == left
            &&& both.take(a.start) + base.subrange(a.start, a.end) + both.skip(
                a.start + a.text.len(),
            ) == right
        }),
{
    lemma_change_bounds(base, left);
    lemma_change_bounds(base, right);
    law_change_applies(base, left);
    law_change_applies(base, right);
    let a = change(base, left);
    let b = change(base, right);
    let both = combined(base, a, b);
    let shift = a.text.len() - (a.end - a.start);
    assert(both.take(b.start + shift) + base.subrange(b.start, b.end) + both.skip(
        b.start + shift + b.text.len(),
    ) =~= applied(base, a));
    assert(both.take(a.start) + base.subrange(a.start, a.end) + both.skip(a.start + a.text.len())
        =~= applied(base, b));
}

/// The lines of a text are never empty, hold a newline at their end alone, and all but the last
/// end with one.
pub proof fn law_lines_end_with_newlines(b: Seq<u8>)
    ensures
        forall|i: int|
            0 <= i < lines(b).len() ==> {
                let l = #[trigger] lines(b)[i];
                &&& l.len() > 0
                &&& forall|j: int| 0 <= j < l.len() - 1 ==> #[trigger] l[j] != 10
                &&& i < lines(b).len() - 1 ==> l.last() == 10
            },
    decreases b.len(),
{
    if b.len() > 0 {
        let n = line_len(b) as int;
        lemma_line_len(b);
        lemma_line_shape(b);
        law_lines_end_with_newlines(b.skip(n));
        let rest = lines(b.skip(n));
        assert(lines(b) == seq![b.take(n)] + rest);
        assert forall|i: int| 0 <= i < lines(b).len() implies {
            let l = #[trigger] lines(b)[i];
            &&& l.len() > 0
            &&& forall|j: int| 0 <= j < l.len() - 1 ==> #[trigger] l[j] != 10
            &&& i < lines(b).len() - 1 ==> l.last() == 10
        } by {
            if i > 0 {
                assert(lines(b)[i] == rest[i - 1]);
            } else {
                assert(lines(b)[0] == b.take(n));
                if rest.len() > 0 {
                    assert(b.skip(n).len() > 0);
                }
            }
        }
    }
}

proof fn lemma_line_shape(b: Seq<u8>)
    ensures
        forall|j: int| 0 <= j < line_len(b) - 1 ==> #[trigger] b[j] != 10,
        0 < line_len(b) < b.len() ==> b[line_len(b) - 1] == 10,
    decreases b.len(),
{
    if b.len() > 0 && b[0] != 10 {
        let t = b.drop_first();
        lemma_line_shape(t);
        lemma_line_len(t);
        assert forall|j: int| 0 <= j < line_len(b) - 1 implies #[trigger] b[j] != 10 by {
            if j > 0 {
                assert(t[j - 1] == b[j]);
            }
        }
        if 0 < line_len(t) < t.len() {
            assert(t[line_len(t) - 1] == b[line_len(t) as int]);
        }
    }
}

/// Whether replacing the lines of `base` from `from` up to `to` by `text` gives `changed`, and no
/// line at either end of the range could be left out: the line at `from` is the first that
/// differs, and the last line that goes is not the last that comes.
pub open spec fn smallest_edit(
    base: Seq<Seq<u8>>,
    changed: Seq<Seq<u8>>,
    from: int,
    to: int,
    text: Seq<Seq<u8>>,
) -> bool {
    &&& 0 <= from <= to <= base.len()
    &&& changed == base.take(from) + text + base.skip(to)
    &&& from < base.len() && from < changed.len() ==> base[from] != changed[from]
    &&& from < to && text.len() > 0 ==> base[to - 1] != text.last()
}

/// There is one smallest edit between two texts, and only one.
pub proof fn law_smallest_edit_is_unique(base: Seq<Seq<u8>>, changed: Seq<Seq<u8>>)
    ensures
        exists|from: int, to: int, text: Seq<Seq<u8>>|
            smallest_edit(base, changed, from, to, text),
        forall|f1: int, t1: int, x1: Seq<Seq<u8>>, f2: int, t2: int, x2: Seq<Seq<u8>>| #[trigger]
            smallest_edit(base, changed, f1, t1, x1) && #[trigger] smallest_edit(
                base,
                changed,
                f2,
                t2,
                x2,
            ) ==> f1 == f2 && t1 == t2 && x1 == x2,
{
    lemma_change_is_smallest(base, changed);
    let c = change(base, changed);
    assert(smallest_edit(base, changed, c.start, c.end, c.text));
    assert forall|f: int, t: int, x: Seq<Seq<u8>>| #[trigger]
        smallest_edit(base, changed, f, t, x) implies f == c.start && t == c.end && x == c.text by {
        lemma_edit_is_change(base, changed, f, t, x);
    }
}

proof fn lemma_change_is_smallest(base: Seq<Seq<u8>>, changed: Seq<Seq<u8>>)
    ensures
        ({
            let c = change(base, changed);
            smallest_edit(base, changed, c.start, c.end, c.text)
        }),
{
    let c = change(base, changed);
    lemma_change_bounds(base, changed);
    law_change_applies(base, changed);
    lemma_prefix_ends(base, changed);
    let (b1, c1) = (base.skip(c.start), changed.skip(c.start));
    let kept = common_suffix(b1, c1) as int;
    lemma_suffix_ends(b1, c1);
    lemma_common_suffix_bound(b1, c1);
    if c.start < c.end && c.text.len() > 0 {
        assert(from_end(b1, kept) == base[c.end - 1]);
        assert(from_end(c1, kept) == c.text.last());
    }
}

proof fn lemma_prefix_ends<T>(a: Seq<T>, b: Seq<T>)
    ensures
        common_prefix(a, b) < a.len() && common_prefix(a, b) < b.len() ==> a[common_prefix(
            a,
            b,
        ) as int] != b[common_prefix(a, b) as int],
    decreases a.len(),
{
    if a.len() > 0 && b.len() > 0 && a[0] == b[0] {
        lemma_prefix_ends(a.drop_first(), b.drop_first());
    }
}

proof fn lemma_suffix_ends<T>(a: Seq<T>, b: Seq<T>)
    ensures
        common_suffix(a, b) < a.len() && common_suffix(a, b) < b.len() ==> from_end(
            a,
            common_suffix(a, b) as int,
        ) != from_end(b, common_suffix(a, b) as int),
    decreases a.len(),
{
    if a.len() > 0 && b.len() > 0 && a.last() == b.last() {
        let (a1, b1) = (a.drop_last(), b.drop_last());
        lemma_suffix_ends(a1, b1);
        let k = common_suffix(a1, b1) as int;
        if k < a1.len() && k < b1.len() {
            assert(from_end(a1, k) == from_end(a, k + 1));
            assert(from_end(b1, k) == from_end(b, k + 1));
        }
    }
}

proof fn lemma_edit_is_change(
    base: Seq<Seq<u8>>,
    changed: Seq<Seq<u8>>,
    from: int,
    to: int,
    text: Seq<Seq<u8>>,
)
    requires
        smallest_edit(base, changed, from, to, text),
    ensures
        change(base, changed) == (Change { start: from, end: to, text }),
{
    assert forall|i: int| 0 <= i < from implies base[i] == changed[i] by {
        assert(base.take(from)[i] == base[i]);
    }
    lemma_common_prefix(base, changed, from);
    let (b1, c1) = (base.skip(from), changed.skip(from));
    let kept = base.len() - to;
    assert(c1 =~= text + base.skip(to));
    assert forall|i: int| 0 <= i < kept implies #[trigger] from_end(b1, i) == from_end(c1, i) by {
        assert(from_end(b1, i) == base[base.len() - 1 - i]);
        assert(from_end(c1, i) == base.skip(to)[kept - 1 - i]);
    }
    if kept < b1.len() && kept < c1.len() {
        assert(from_end(b1, kept) == base[to - 1]);
        assert(from_end(c1, kept) == text.last());
    }
    lemma_common_suffix(b1, c1, kept);
    assert(changed.subrange(from, changed.len() - kept) =~= text);
}

/// Two texts that both changed are merged exactly if all three are UTF-8 and the ranges of lines
/// that they replace do not overlap: the one that starts first, which is the current text's where
/// both start at one line, ends where the other starts or before. The merge is the base with both
/// ranges replaced. Where the ranges overlap there is no merge.
pub proof fn law_merge_makes_both_edits(
    base: Seq<u8>,
    current: Seq<u8>,
    session: Seq<u8>,
    cur_from: int,
    cur_to: int,
    cur_text: Seq<Seq<u8>>,
    ses_from: int,
    ses_to: int,
    ses_text: Seq<Seq<u8>>,
)
    requires
        base != current,
        base != session,
        current != session,
        smallest_edit(lines(base), lines(current), cur_from, cur_to, cur_text),
        smallest_edit(lines(base), lines(session), ses_from, ses_to, ses_text),
    ensures
        ({
            let b = lines(base);
            let utf8 = valid_utf8(base) && valid_utf8(current) && valid_utf8(session);
            let m = merged(base, current, session);
            &&& m is Some <==> utf8 && (cur_to <= ses_from || (ses_from < cur_from && ses_to
                <= cur_from))
            &&& cur_from <= ses_from < cur_to || ses_from < cur_from < ses_to ==> m is None
            &&& m is Some && cur_from <= ses_from ==> m->0 == joined_lines(
                b.take(cur_from) + cur_text + b.subrange(cur_to, ses_from) + ses_text + b.skip(
                    ses_to,
                ),
            )
            &&& m is Some && ses_from < cur_from ==> m->0 == joined_lines(
                b.take(ses_from) + ses_text + b.subrange(ses_to, cur_from) + cur_text + b.skip(
                    cur_to,
                ),
            )
        }),
{
    lemma_edit_is_change(lines(base), lines(current), cur_from, cur_to, cur_text);
    lemma_edit_is_change(lines(base), lines(session), ses_from, ses_to, ses_text);
}

/// A merge of two texts that both changed holds every line that the session brought in and every
/// line that the current text brought in, each as one piece of its bytes.
pub proof fn law_merge_holds_both_texts(
    base: Seq<u8>,
    current: Seq<u8>,
    session: Seq<u8>,
    cur_from: int,
    cur_to: int,
    cur_text: Seq<Seq<u8>>,
    ses_from: int,
    ses_to: int,
    ses_text: Seq<Seq<u8>>,
)
    requires
        merged(base, current, session) is Some,
        base != current,
        base != session,
        current != session,
        smallest_edit(lines(base), lines(current), cur_from, cur_to, cur_text),
        smallest_edit(lines(base), lines(session), ses_from, ses_to, ses_text),
    ensures
        ({
            let m = merged(base, current, session)->0;
            let (x, y) = (joined_lines(cur_text), joined_lines(ses_text));
            &&& exists|pre: Seq<u8>, post: Seq<u8>| m == #[trigger] (pre + x + post)
            &&& exists|pre: Seq<u8>, post: Seq<u8>| m == #[trigger] (pre + y + post)
        }),
{
    law_merge_makes_both_edits(
        base,
        current,
        session,
        cur_from,
        cur_to,
        cur_text,
        ses_from,
        ses_to,
        ses_text,
    );
    let b = lines(base);
    let m = merged(base, current, session)->0;
    let (x, y) = (joined_lines(cur_text), joined_lines(ses_text));
    if cur_from <= ses_from {
        lemma_five(
            b.take(cur_from),
            cur_text,
            b.subrange(cur_to, ses_from),
            ses_text,
            b.skip(ses_to),
        );
    } else {
        lemma_five(
            b.take(ses_from),
            ses_text,
            b.subrange(ses_to, cur_from),
            cur_text,
            b.skip(cur_to),
        );
    }
}

/// The second and the fourth of five pieces are found in the whole.
proof fn lemma_five(
    a: Seq<Seq<u8>>,
    b: Seq<Seq<u8>>,
    c: Seq<Seq<u8>>,
    d: Seq<Seq<u8>>,
    e: Seq<Seq<u8>>,
)
    ensures
        ({
            let m = joined_lines(a + b + c + d + e);
            let (x, y) = (joined_lines(b), joined_lines(d));
            &&& exists|pre: Seq<u8>, post: Seq<u8>| m == #[trigger] (pre + x + post)
            &&& exists|pre: Seq<u8>, post: Seq<u8>| m == #[trigger] (pre + y + post)
        }),
{
    lemma_joined_concat(a, b);
    lemma_joined_concat(a + b, c);
    lemma_joined_concat(a + b + c, d);
    lemma_joined_concat(a + b + c + d, e);
    let m = joined_lines(a + b + c + d + e);
    let (x, y) = (joined_lines(b), joined_lines(d));
    let (ja, jc, je) = (joined_lines(a), joined_lines(c), joined_lines(e));
    assert(m =~= ja + x + (jc + y + je));
    assert(m =~= (ja + x + jc) + y + je);
}

} // verus!
