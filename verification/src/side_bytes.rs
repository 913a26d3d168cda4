//! Side files of raw paths, whose names need not be text.

use vstd::prelude::*;
use vstd::slice::slice_subrange;
use vstd::string::*;
use vstd::utf8::encode_utf8;

use crate::staged::{lemma_name_start_bound, name_start, side_path};
use crate::text::{trim_end_slashes, Text};

verus! {

/// The byte that parts the names of a path.
pub const SEPARATOR: u8 = 0x2f;

/// Where the last name of a raw path begins: after its last separator.
pub open spec fn raw_name_start(p: Seq<u8>) -> int
    decreases p.len(),
{
    if p.len() == 0 || p.last() == SEPARATOR {
        p.len() as int
    } else {
        raw_name_start(p.drop_last())
    }
}

/// A raw path without the separators at its end.
pub open spec fn raw_trimmed(p: Seq<u8>) -> Seq<u8>
    decreases p.len(),
{
    if p.len() > 0 && p.last() == SEPARATOR {
        raw_trimmed(p.drop_last())
    } else {
        p
    }
}

/// The mark in the name of a side file.
pub open spec fn raw_mark(tag: Seq<u8>) -> Seq<u8> {
    encode_utf8(".branchfs-"@) + tag + encode_utf8("."@)
}

/// The side file of a raw path: in the same directory, its name marked with `tag`.
pub open spec fn raw_side_path(target: Seq<u8>, tag: Seq<u8>) -> Seq<u8> {
    let p = raw_trimmed(target);
    let k = raw_name_start(p);
    p.take(k) + raw_mark(tag) + p.skip(k)
}

/// Whether a raw path ends in a name.
pub open spec fn raw_named(p: Seq<u8>) -> bool {
    p.len() > 0 && p.last() != SEPARATOR
}

proof fn lemma_raw_name_start(p: Seq<u8>, k: int)
    requires
        0 <= k <= p.len(),
        k == 0 || p[k - 1] == SEPARATOR,
        forall|i: int| k <= i < p.len() ==> #[trigger] p[i] != SEPARATOR,
    ensures
        raw_name_start(p) == k,
    decreases p.len() - k,
{
    if k < p.len() {
        let t = p.drop_last();
        assert forall|i: int| k <= i < t.len() implies #[trigger] t[i] != SEPARATOR by {
            assert(p[i] != SEPARATOR);
        }
        assert(p[p.len() - 1] != SEPARATOR);
        lemma_raw_name_start(t, k);
    }
}

proof fn lemma_raw_name_start_bound(p: Seq<u8>)
    ensures
        0 <= raw_name_start(p) <= p.len(),
        raw_name_start(p) == 0 || p[raw_name_start(p) - 1] == SEPARATOR,
        forall|i: int| raw_name_start(p) <= i < p.len() ==> #[trigger] p[i] != SEPARATOR,
    decreases p.len(),
{
    if p.len() > 0 && p.last() != SEPARATOR {
        let t = p.drop_last();
        lemma_raw_name_start_bound(t);
        assert forall|i: int| raw_name_start(p) <= i < p.len() implies #[trigger] p[i]
            != SEPARATOR by {
            if i < t.len() {
                assert(t[i] != SEPARATOR);
            }
        }
    }
}

/// A side-file path next to `target`: `<dir>/.branchfs-<tag>.<name>`.
/// The side file lives in the same directory as `target`, so renaming between them is an atomic
/// same-filesystem operation. Built from the raw bytes, so that distinct names never collide.
pub fn commit_side_path(target: &[u8], tag: &str) -> (r: Vec<u8>)
    ensures
        r@ == raw_side_path(target@, encode_utf8(tag@)),
{
    let mut n: usize = target.len();
    proof {
        assert(target@.take(n as int) =~= target@);
    }
    while n > 0 && target[n - 1] == SEPARATOR
        invariant
            n <= target@.len(),
            raw_trimmed(target@) == raw_trimmed(target@.take(n as int)),
        decreases n,
    {
        proof {
            assert(target@.take(n as int).drop_last() =~= target@.take(n - 1));
        }
        n = n - 1;
    }
    let ghost p = raw_trimmed(target@);
    let mut k: usize = n;
    proof {
        assert(p == target@.take(n as int));
    }
    while k > 0 && target[k - 1] != SEPARATOR
        invariant
            k <= n <= target@.len(),
            p == target@.take(n as int),
            forall|i: int| k <= i < n ==> #[trigger] p[i] != SEPARATOR,
        decreases k,
    {
        k = k - 1;
    }
    proof {
        lemma_raw_name_start(p, k as int);
        assert(target@.subrange(0, k as int) =~= p.take(k as int));
        assert(target@.subrange(k as int, n as int) =~= p.skip(k as int));
    }
    let mut out: Vec<u8> = Vec::new();
    out.extend_from_slice(slice_subrange(target, 0, k));
    out.extend_from_slice(".branchfs-".as_bytes());
    out.extend_from_slice(tag.as_bytes());
    out.extend_from_slice(".".as_bytes());
    out.extend_from_slice(slice_subrange(target, k, n));
    proof {
        assert(out@ =~= raw_side_path(target@, encode_utf8(tag@)));
    }
    out
}

proof fn lemma_raw_side_path(target: Seq<u8>, tag: Seq<u8>)
    requires
        raw_named(target),
        !tag.contains(SEPARATOR),
    ensures
        raw_trimmed(target) == target,
        raw_name_start(raw_side_path(target, tag)) == raw_name_start(target),
{
    let k = raw_name_start(target);
    let m = raw_mark(tag);
    let side = raw_side_path(target, tag);
    lemma_raw_name_start_bound(target);
    lemma_plain_marks();
    assert forall|i: int| k <= i < side.len() implies #[trigger] side[i] != SEPARATOR by {
        if i < k + m.len() {
            let a = encode_utf8(".branchfs-"@);
            assert(side[i] == m[i - k]);
            if a.len() <= i - k < a.len() + tag.len() {
                assert(m[i - k] == tag[i - k - a.len()]);
                assert(tag.contains(tag[i - k - a.len()]));
            }
        } else {
            assert(side[i] == target[i - m.len()]);
        }
    }
    assert(k > 0 ==> side[k - 1] == target[k - 1]);
    lemma_raw_name_start(side, k);
}

/// The fixed parts of a mark hold no separator.
proof fn lemma_plain_marks()
    ensures
        forall|i: int|
            0 <= i < encode_utf8(".branchfs-"@).len() ==> #[trigger] encode_utf8(".branchfs-"@)[i]
                != SEPARATOR,
        forall|i: int|
            0 <= i < encode_utf8("."@).len() ==> #[trigger] encode_utf8("."@)[i] != SEPARATOR,
{
    reveal_strlit(".branchfs-");
    reveal_strlit(".");
    lemma_encoded_name(".branchfs-"@);
    lemma_encoded_name("."@);
}

/// A side file lies in the directory of its target, under the marked name.
pub proof fn law_raw_side_path_lies_beside(target: Seq<u8>, tag: Seq<u8>)
    requires
        raw_named(target),
        !tag.contains(SEPARATOR),
    ensures
        ({
            let side = raw_side_path(target, tag);
            let (j, k) = (raw_name_start(side), raw_name_start(target));
            &&& side.take(j) == target.take(k)
            &&& side.skip(j) == encode_utf8(".branchfs-"@) + tag + encode_utf8("."@) + target.skip(
                k,
            )
        }),
{
    lemma_raw_side_path(target, tag);
    lemma_raw_name_start_bound(target);
    let k = raw_name_start(target);
    let side = raw_side_path(target, tag);
    assert(side.take(k) =~= target.take(k));
    assert(side.skip(k) =~= raw_mark(tag) + target.skip(k));
}

/// Different raw targets have different side files, whether their names are text or not.
pub proof fn law_raw_side_paths_are_distinct(a: Seq<u8>, b: Seq<u8>, tag: Seq<u8>)
    requires
        raw_named(a),
        raw_named(b),
        !tag.contains(SEPARATOR),
        a != b,
    ensures
        raw_side_path(a, tag) != raw_side_path(b, tag),
{
    let (x, y) = (raw_side_path(a, tag), raw_side_path(b, tag));
    lemma_raw_side_path(a, tag);
    lemma_raw_side_path(b, tag);
    lemma_raw_name_start_bound(a);
    lemma_raw_name_start_bound(b);
    if x == y {
        let k = raw_name_start(a);
        let n = raw_mark(tag).len() as int;
        assert(a.len() == b.len());
        assert forall|i: int| 0 <= i < a.len() implies a[i] == b[i] by {
            if i < k {
                assert(x[i] == a[i] && y[i] == b[i]);
            } else {
                assert(x[i + n] == a[i] && y[i + n] == b[i]);
            }
        }
        assert(a =~= b);
    }
}

/// A copy and a removal of one target use different side files.
pub proof fn law_raw_side_paths_of_one_target_differ(target: Seq<u8>)
    ensures
        raw_side_path(target, encode_utf8("tmp"@)) != raw_side_path(
            target,
            encode_utf8("trash"@),
        ),
{
    let (a, b) = (encode_utf8("tmp"@), encode_utf8("trash"@));
    reveal_strlit("tmp");
    reveal_strlit("trash");
    vstd::utf8::is_ascii_chars_encode_utf8("tmp"@);
    vstd::utf8::is_ascii_chars_encode_utf8("trash"@);
    assert(a.len() == 3 && b.len() == 5);
    lemma_raw_name_start_bound(raw_trimmed(target));
    assert(raw_side_path(target, a).len() + 2 == raw_side_path(target, b).len());
}

proof fn lemma_encode_concat(a: Text, b: Text)
    ensures
        encode_utf8(a + b) == encode_utf8(a) + encode_utf8(b),
    decreases a.len(),
{
    if a.len() == 0 {
        assert(a + b =~= b);
        assert(encode_utf8(a) + encode_utf8(b) =~= encode_utf8(b));
    } else {
        assert((a + b).drop_first() =~= a.drop_first() + b);
        lemma_encode_concat(a.drop_first(), b);
        assert(encode_utf8(a + b) =~= encode_utf8(a) + encode_utf8(b));
    }
}

/// Only the slash is encoded with the byte of the separator.
proof fn lemma_encoded_scalar(c: char)
    ensures
        c == '/' ==> vstd::utf8::encode_scalar(c as u32) == seq![SEPARATOR],
        c != '/' ==> !vstd::utf8::encode_scalar(c as u32).contains(SEPARATOR),
{
    let s = c as u32;
    vstd::utf8::char_is_scalar(c);
    assert(s <= 0x7f ==> (s & 0x7f) as u8 == s) by (bit_vector);
    assert(0xC0u8 | ((s >> 6) & 0x1F) as u8 >= 0x80) by (bit_vector);
    assert(0xE0u8 | ((s >> 12) & 0x0F) as u8 >= 0x80) by (bit_vector);
    assert(0xF0u8 | ((s >> 18) & 0x7) as u8 >= 0x80) by (bit_vector);
    assert(0x80u8 | (s & 0x3F) as u8 >= 0x80) by (bit_vector);
    assert(0x80u8 | ((s >> 6) & 0x3F) as u8 >= 0x80) by (bit_vector);
    assert(0x80u8 | ((s >> 12) & 0x3F) as u8 >= 0x80) by (bit_vector);
}

/// A text without slashes is encoded without separators.
proof fn lemma_encoded_name(t: Text)
    requires
        !t.contains('/'),
    ensures
        forall|i: int| 0 <= i < encode_utf8(t).len() ==> #[trigger] encode_utf8(t)[i] != SEPARATOR,
        t.len() > 0 ==> encode_utf8(t).len() > 0,
    decreases t.len(),
{
    if t.len() > 0 {
        let (first, rest) = (vstd::utf8::encode_scalar(t[0] as u32), t.drop_first());
        assert(t.contains(t[0]));
        lemma_encoded_scalar(t[0]);
        assert(!rest.contains('/')) by {
            if rest.contains('/') {
                let j = choose|j: int| 0 <= j < rest.len() && rest[j] == '/';
                assert(t[j + 1] == '/');
            }
        }
        lemma_encoded_name(rest);
        assert forall|i: int| 0 <= i < encode_utf8(t).len() implies #[trigger] encode_utf8(t)[i]
            != SEPARATOR by {
            if i < first.len() {
                assert(encode_utf8(t)[i] == first[i]);
                assert(first.contains(first[i]));
            } else {
                assert(encode_utf8(t)[i] == encode_utf8(rest)[i - first.len()]);
            }
        }
    }
}

/// A text that ends in a slash is encoded with a separator at its end.
proof fn lemma_encoded_dir(t: Text)
    requires
        t.len() > 0,
        t.last() == '/',
    ensures
        encode_utf8(t).len() > 0,
        encode_utf8(t).last() == SEPARATOR,
{
    let slash = seq!['/'];
    assert(t =~= t.drop_last() + slash);
    lemma_encode_concat(t.drop_last(), slash);
    lemma_encoded_scalar('/');
    assert(slash.drop_first() =~= seq![]);
    assert(encode_utf8(slash.drop_first()) =~= seq![]);
    assert(encode_utf8(slash) =~= seq![SEPARATOR]);
}

proof fn lemma_trim_shrinks(t: Text)
    ensures
        trim_end_slashes(t).len() <= t.len(),
    decreases t.len(),
{
    if t.len() > 0 {
        lemma_trim_shrinks(t.drop_last());
    }
}

/// Where the last name begins in the bytes of a text.
proof fn lemma_encoded_parts(target: Text)
    requires
        trim_end_slashes(target) == target,
    ensures
        ({
            let k = name_start(target);
            let (d, n) = (encode_utf8(target.take(k)), encode_utf8(target.skip(k)));
            &&& encode_utf8(target) == d + n
            &&& raw_trimmed(encode_utf8(target)) == encode_utf8(target)
            &&& raw_name_start(encode_utf8(target)) == d.len()
        }),
{
    let k = name_start(target);
    lemma_name_start_bound(target);
    let (dir, name) = (target.take(k), target.skip(k));
    let (d, n) = (encode_utf8(dir), encode_utf8(name));
    let raw = encode_utf8(target);
    assert(target =~= dir + name);
    lemma_encode_concat(dir, name);
    assert(!name.contains('/')) by {
        if name.contains('/') {
            let j = choose|j: int| 0 <= j < name.len() && name[j] == '/';
            assert(target[j + k] == '/');
        }
    }
    lemma_encoded_name(name);
    if k > 0 {
        lemma_encoded_dir(dir);
        assert(raw[d.len() - 1] == d.last());
    } else {
        assert(dir =~= seq![]);
    }
    assert forall|i: int| d.len() <= i < raw.len() implies #[trigger] raw[i] != SEPARATOR by {
        assert(raw[i] == n[i - d.len()]);
    }
    lemma_raw_name_start(raw, d.len() as int);
    if target.len() > 0 {
        assert(target.last() != '/') by {
            lemma_trim_shrinks(target.drop_last());
        }
        assert(name.len() > 0);
        assert(raw[raw.len() - 1] != SEPARATOR);
    }
}

/// The side file of a text is the side file of its bytes.
pub proof fn law_side_path_in_bytes(target: Text, tag: Text)
    requires
        trim_end_slashes(target) == target,
    ensures
        encode_utf8(side_path(target, tag)) == raw_side_path(
            encode_utf8(target),
            encode_utf8(tag),
        ),
{
    let k = name_start(target);
    lemma_name_start_bound(target);
    lemma_encoded_parts(target);
    let (dir, name) = (target.take(k), target.skip(k));
    let (d, n) = (encode_utf8(dir), encode_utf8(name));
    let raw = encode_utf8(target);
    assert(raw.take(d.len() as int) =~= d);
    assert(raw.skip(d.len() as int) =~= n);
    let (a, b) = (".branchfs-"@, "."@);
    assert(side_path(target, tag) =~= dir + (a + (tag + (b + name))));
    lemma_encode_concat(b, name);
    lemma_encode_concat(tag, b + name);
    lemma_encode_concat(a, tag + (b + name));
    lemma_encode_concat(dir, a + (tag + (b + name)));
    assert(encode_utf8(side_path(target, tag)) =~= raw_side_path(raw, encode_utf8(tag)));
}

} // verus!
