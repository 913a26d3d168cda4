//! Text: the string operations that paths and names are made of, over `Seq<char>`.

use vstd::prelude::*;
use vstd::string::*;

verus! {

/// A string as the sequence of its characters.
pub type Text = Seq<char>;

/// `String::push` appends one character.
pub assume_specification[ String::push ](s: &mut String, c: char)
    ensures
        final(s)@ == old(s)@.push(c),
;

/// Comparing two string slices compares their characters.
pub assume_specification[ <str as PartialEq>::eq ](a: &str, b: &str) -> (r: bool)
    ensures
        r == (a@ == b@),
;

/// What a list of strings holds.
pub open spec fn texts(v: Seq<String>) -> Seq<Text> {
    v.map_values(|s: String| s@)
}

/// The characters of an optional string.
pub open spec fn opt_text(o: Option<String>) -> Option<Text> {
    match o {
        Some(s) => Some(s@),
        None => None,
    }
}

pub fn same(a: &str, b: &str) -> (r: bool)
    ensures
        r == (a@ == b@),
{
    *a == *b
}

/// The characters of `s`, one by one.
pub fn chars_of(s: &str) -> (v: Vec<char>)
    ensures
        v@ == s@,
{
    let mut v: Vec<char> = Vec::new();
    for c in it: s.chars()
        invariant
            v@ == it.seq().take(it.index() as int),
            it.seq() == s@,
    {
        v.push(c);
    }
    v
}

/// `a` followed by `b`.
pub fn concat(a: &str, b: &str) -> (r: String)
    ensures
        r@ == a@ + b@,
{
    let mut r = a.to_owned();
    r.append(b);
    r
}

/// `s` without its longest run of leading characters that satisfy `f`.
pub open spec fn trim_front(s: Text, f: spec_fn(char) -> bool) -> Text
    decreases s.len(),
{
    if s.len() > 0 && f(s[0]) {
        trim_front(s.drop_first(), f)
    } else {
        s
    }
}

/// `s` without its longest run of trailing characters that satisfy `f`.
pub open spec fn trim_back(s: Text, f: spec_fn(char) -> bool) -> Text
    decreases s.len(),
{
    if s.len() > 0 && f(s.last()) {
        trim_back(s.drop_last(), f)
    } else {
        s
    }
}

pub proof fn lemma_trim_front(s: Text, f: spec_fn(char) -> bool, k: int)
    requires
        0 <= k <= s.len(),
        forall|i: int| 0 <= i < k ==> f(#[trigger] s[i]),
        k == s.len() || !f(s[k]),
    ensures
        trim_front(s, f) == s.skip(k),
    decreases k,
{
    if k == 0 {
        assert(s.skip(0) =~= s);
    } else {
        assert(f(s[0]));
        let t = s.drop_first();
        assert forall|i: int| 0 <= i < k - 1 implies f(#[trigger] t[i]) by {
            assert(f(s[i + 1]));
        }
        lemma_trim_front(t, f, k - 1);
        assert(t.skip(k - 1) =~= s.skip(k));
    }
}

pub proof fn lemma_trim_back(s: Text, f: spec_fn(char) -> bool, k: int)
    requires
        0 <= k <= s.len(),
        forall|i: int| k <= i < s.len() ==> f(#[trigger] s[i]),
        k == 0 || !f(s[k - 1]),
    ensures
        trim_back(s, f) == s.take(k),
    decreases s.len() - k,
{
    if k == s.len() {
        assert(s.take(k) =~= s);
    } else {
        let t = s.drop_last();
        assert(f(s[s.len() - 1]));
        assert forall|i: int| k <= i < t.len() implies f(#[trigger] t[i]) by {
            assert(f(s[i]));
        }
        lemma_trim_back(t, f, k);
        assert(t.take(k) =~= s.take(k));
    }
}

pub open spec fn slash() -> spec_fn(char) -> bool {
    |c: char| c == '/'
}

/// The characters with the Unicode property `White_Space`.
pub open spec fn is_space(c: char) -> bool {
    ||| 0x09 <= c as u32 <= 0x0d
    ||| c as u32 == 0x20
    ||| c as u32 == 0x85
    ||| c as u32 == 0xa0
    ||| c as u32 == 0x1680
    ||| 0x2000 <= c as u32 <= 0x200a
    ||| c as u32 == 0x2028
    ||| c as u32 == 0x2029
    ||| c as u32 == 0x202f
    ||| c as u32 == 0x205f
    ||| c as u32 == 0x3000
}

pub open spec fn space() -> spec_fn(char) -> bool {
    |c: char| is_space(c)
}

/// `s` without leading slashes.
pub open spec fn trim_start_slashes(s: Text) -> Text {
    trim_front(s, slash())
}

/// `s` without trailing slashes.
pub open spec fn trim_end_slashes(s: Text) -> Text {
    trim_back(s, slash())
}

/// `s` without leading and trailing white space.
pub open spec fn trim_space(s: Text) -> Text {
    trim_back(trim_front(s, space()), space())
}

pub fn space_char(c: char) -> (r: bool)
    ensures
        r == is_space(c),
{
    let n: u32 = c as u32;
    (0x09 <= n && n <= 0x0d) || n == 0x20 || n == 0x85 || n == 0xa0 || n == 0x1680 || (0x2000 <= n
        && n <= 0x200a) || n == 0x2028 || n == 0x2029 || n == 0x202f || n == 0x205f || n == 0x3000
}

/// Drops the leading slashes of `s`.
pub fn without_leading_slashes(s: &str) -> (r: &str)
    ensures
        r@ == trim_start_slashes(s@),
{
    let cs = chars_of(s);
    let mut k: usize = 0;
    while k < cs.len() && cs[k] == '/'
        invariant
            k <= cs.len(),
            forall|i: int| 0 <= i < k ==> #[trigger] cs@[i] == '/',
        decreases cs.len() - k,
    {
        k = k + 1;
    }
    proof {
        lemma_trim_front(s@, slash(), k as int);
        assert(s@.skip(k as int) =~= s@.subrange(k as int, cs@.len() as int));
    }
    s.substring_char(k, cs.len())
}

/// Drops the trailing slashes of `s`.
pub fn without_trailing_slashes(s: &str) -> (r: &str)
    ensures
        r@ == trim_end_slashes(s@),
{
    let cs = chars_of(s);
    let mut k: usize = cs.len();
    while k > 0 && cs[k - 1] == '/'
        invariant
            k <= cs.len(),
            forall|i: int| k <= i < cs.len() ==> #[trigger] cs@[i] == '/',
        decreases k,
    {
        k = k - 1;
    }
    proof {
        lemma_trim_back(s@, slash(), k as int);
        assert(s@.take(k as int) =~= s@.subrange(0, k as int));
    }
    s.substring_char(0, k)
}

/// Drops the white space at both ends of `s`.
pub fn without_space(s: &str) -> (r: &str)
    ensures
        r@ == trim_space(s@),
{
    let cs = chars_of(s);
    let mut i: usize = 0;
    while i < cs.len() && space_char(cs[i])
        invariant
            i <= cs.len(),
            forall|j: int| 0 <= j < i ==> is_space(#[trigger] cs@[j]),
        decreases cs.len() - i,
    {
        i = i + 1;
    }
    let mut k: usize = cs.len();
    while k > i && space_char(cs[k - 1])
        invariant
            i <= k <= cs.len(),
            forall|j: int| k <= j < cs.len() ==> is_space(#[trigger] cs@[j]),
        decreases k,
    {
        k = k - 1;
    }
    proof {
        lemma_trim_front(s@, space(), i as int);
        let t = s@.skip(i as int);
        assert forall|j: int| k - i <= j < t.len() implies space()(#[trigger] t[j]) by {
            assert(is_space(cs@[j + i]));
        }
        lemma_trim_back(t, space(), k - i);
        assert(t.take(k - i) =~= s@.subrange(i as int, k as int));
    }
    s.substring_char(i, k)
}

/// Whether `s` begins with `p`.
pub fn begins_with(s: &str, p: &str) -> (r: bool)
    ensures
        r == p@.is_prefix_of(s@),
{
    let n = p.unicode_len();
    if n > s.unicode_len() {
        return false;
    }
    proof {
        assert(s@.subrange(0, n as int) =~= s@.take(n as int));
    }
    same(s.substring_char(0, n), p)
}

/// `s` without its first `n` characters.
pub fn drop_chars(s: &str, n: usize) -> (r: &str)
    requires
        n <= s@.len(),
    ensures
        r@ == s@.skip(n as int),
{
    let len = s.unicode_len();
    proof {
        assert(s@.skip(n as int) =~= s@.subrange(n as int, len as int));
    }
    s.substring_char(n, len)
}

/// Whether `c` occurs in `s`.
pub fn has_char(s: &str, c: char) -> (r: bool)
    ensures
        r == s@.contains(c),
{
    let cs = chars_of(s);
    let mut i: usize = 0;
    while i < cs.len()
        invariant
            i <= cs.len(),
            cs@ == s@,
            forall|j: int| 0 <= j < i ==> #[trigger] cs@[j] != c,
        decreases cs.len() - i,
    {
        if cs[i] == c {
            return true;
        }
        i = i + 1;
    }
    false
}

/// Whether the list holds a string equal to `t`.
pub fn list_has(v: &Vec<String>, t: &str) -> (r: bool)
    ensures
        r == texts(v@).contains(t@),
{
    let mut i: usize = 0;
    while i < v.len()
        invariant
            i <= v.len(),
            forall|j: int| 0 <= j < i ==> #[trigger] v@[j]@ != t@,
        decreases v.len() - i,
    {
        if same(v[i].as_str(), t) {
            proof {
                assert(texts(v@)[i as int] == t@);
            }
            return true;
        }
        i = i + 1;
    }
    proof {
        assert forall|j: int| 0 <= j < texts(v@).len() implies #[trigger] texts(v@)[j] != t@ by {
            assert(v@[j]@ != t@);
        }
    }
    false
}

/// What is trimmed away at the front is all of the kind that is trimmed, and what is left does not
/// begin with it.
pub proof fn law_trim_front(s: Text, f: spec_fn(char) -> bool)
    ensures
        exists|k: int|
            0 <= k <= s.len() && trim_front(s, f) == #[trigger] s.skip(k) && (forall|i: int|
                0 <= i < k ==> f(#[trigger] s[i])),
        trim_front(s, f).len() > 0 ==> !f(trim_front(s, f)[0]),
    decreases s.len(),
{
    if s.len() > 0 && f(s[0]) {
        let t = s.drop_first();
        law_trim_front(t, f);
        let k = choose|k: int|
            0 <= k <= t.len() && trim_front(t, f) == #[trigger] t.skip(k) && (forall|i: int|
                0 <= i < k ==> f(#[trigger] t[i]));
        assert(s.skip(k + 1) =~= t.skip(k));
        assert forall|i: int| 0 <= i < k + 1 implies f(#[trigger] s[i]) by {
            if i > 0 {
                assert(t[i - 1] == s[i]);
            }
        }
    } else {
        assert(s.skip(0) =~= s);
    }
}

/// What is trimmed away at the end is all of the kind that is trimmed, and what is left does not
/// end with it.
pub proof fn law_trim_back(s: Text, f: spec_fn(char) -> bool)
    ensures
        exists|k: int|
            0 <= k <= s.len() && trim_back(s, f) == #[trigger] s.take(k) && (forall|i: int|
                k <= i < s.len() ==> f(#[trigger] s[i])),
        trim_back(s, f).len() > 0 ==> !f(trim_back(s, f).last()),
    decreases s.len(),
{
    if s.len() > 0 && f(s.last()) {
        let t = s.drop_last();
        law_trim_back(t, f);
        let k = choose|k: int|
            0 <= k <= t.len() && trim_back(t, f) == #[trigger] t.take(k) && (forall|i: int|
                k <= i < t.len() ==> f(#[trigger] t[i]));
        assert(s.take(k) =~= t.take(k));
        assert forall|i: int| k <= i < s.len() implies f(#[trigger] s[i]) by {
            if i < t.len() {
                assert(t[i] == s[i]);
            }
        }
    } else {
        assert(s.take(s.len() as int) =~= s);
    }
}

} // verus!
