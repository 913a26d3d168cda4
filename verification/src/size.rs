//! Sizes as a user writes them.

use vstd::prelude::*;
use vstd::string::*;

use crate::text::{chars_of, concat, trim_space, without_space, Text};

verus! {

pub open spec fn is_digit(c: char) -> bool {
    '0' <= c <= '9'
}

/// The number that decimal digits stand for.
pub open spec fn digits_value(t: Text) -> nat
    decreases t.len(),
{
    if t.len() == 0 {
        0
    } else {
        10 * digits_value(t.drop_last()) + (t.last() as nat - '0' as nat) as nat
    }
}

/// A text without the plus sign that it may begin with.
pub open spec fn unsigned_part(t: Text) -> Text {
    if t.len() > 0 && t[0] == '+' {
        t.skip(1)
    } else {
        t
    }
}

/// The number that a text writes in decimal digits, if it does and the number fits in 64 bits.
pub open spec fn decimal(t: Text) -> Option<u64> {
    let digits = unsigned_part(t);
    if digits.len() > 0 && (forall|i: int| 0 <= i < digits.len() ==> is_digit(#[trigger] digits[i]))
        && digits_value(digits) <= u64::MAX {
        Some(digits_value(digits) as u64)
    } else {
        None
    }
}

/// What the last letter of a size multiplies by; 1 for one that is no unit.
pub open spec fn unit(c: char) -> u64 {
    if c == 'K' || c == 'k' {
        1024
    } else if c == 'M' || c == 'm' {
        1048576
    } else if c == 'G' || c == 'g' {
        1073741824
    } else if c == 'T' || c == 't' {
        1099511627776
    } else {
        1
    }
}

/// The bytes that a text such as "500M", "2G", "1024" or "1T" stands for, or what is wrong with
/// it.
pub open spec fn size_of_text(s: Text) -> Result<u64, Text> {
    let t = trim_space(s);
    if t.len() == 0 {
        Err("empty size string"@)
    } else {
        let scale = unit(t.last());
        let number = if scale == 1 {
            t
        } else {
            t.drop_last()
        };
        match decimal(number) {
            None => Err("invalid size: "@ + t),
            Some(n) => if n * scale <= u64::MAX {
                Ok((n * scale) as u64)
            } else {
                Err("size overflow: "@ + t)
            },
        }
    }
}

proof fn lemma_value_grows(t: Text, k: int)
    requires
        0 <= k <= t.len(),
        forall|i: int| 0 <= i < t.len() ==> is_digit(#[trigger] t[i]),
    ensures
        digits_value(t.take(k)) <= digits_value(t),
    decreases t.len() - k,
{
    if k == t.len() {
        assert(t.take(k) =~= t);
    } else {
        lemma_value_grows(t, k + 1);
        assert(t.take(k + 1).drop_last() =~= t.take(k));
        assert(is_digit(t[k]));
        assert(t.take(k + 1).last() == t[k]);
    }
}

/// Reads a number in decimal digits.
pub fn parse_decimal(t: &str) -> (r: Option<u64>)
    ensures
        r == decimal(t@),
{
    let all = chars_of(t);
    let start: usize = if all.len() > 0 && all[0] == '+' {
        1
    } else {
        0
    };
    let ghost digits = unsigned_part(t@);
    proof {
        assert(digits =~= all@.skip(start as int));
    }
    if start == all.len() {
        return None;
    }
    let mut i: usize = start;
    let mut value: u64 = 0;
    proof {
        assert(digits.take(0) =~= seq![]);
    }
    while i < all.len()
        invariant
            start <= i <= all@.len(),
            start < all@.len(),
            all@ == t@,
            digits == unsigned_part(t@),
            digits == all@.skip(start as int),
            value == digits_value(digits.take(i - start)),
            forall|j: int| 0 <= j < i - start ==> is_digit(#[trigger] digits[j]),
        decreases all@.len() - i,
    {
        let c = all[i];
        proof {
            assert(digits[i - start] == c);
        }
        if !('0' <= c && c <= '9') {
            return None;
        }
        let d: u64 = (c as u32 - '0' as u32) as u64;
        proof {
            assert(digits.take(i - start + 1).drop_last() =~= digits.take(i - start));
            assert(digits.take(i - start + 1).last() == c);
        }
        let next = match value.checked_mul(10) {
            Some(v) => v.checked_add(d),
            None => None,
        };
        match next {
            Some(v) => {
                value = v;
            },
            None => {
                proof {
                    if forall|j: int| 0 <= j < digits.len() ==> is_digit(#[trigger] digits[j]) {
                        lemma_value_grows(digits, i - start + 1);
                    }
                }
                return None;
            },
        }
        i = i + 1;
    }
    proof {
        assert(digits.take(i - start) =~= digits);
    }
    Some(value)
}

/// Parse a human-readable size string like "500M", "2G", "1024", "1T".
pub fn parse_size(s: &str) -> (r: Result<u64, String>)
    ensures
        (match r {
            Ok(n) => Ok(n),
            Err(e) => Err(e@),
        }) == size_of_text(s@),
{
    let t = without_space(s);
    if t.is_empty() {
        return Err("empty size string".to_owned());
    }
    let len = t.unicode_len();
    let last = t.get_char(len - 1);
    let scale: u64 = if last == 'K' || last == 'k' {
        1024
    } else if last == 'M' || last == 'm' {
        1048576
    } else if last == 'G' || last == 'g' {
        1073741824
    } else if last == 'T' || last == 't' {
        1099511627776
    } else {
        1
    };
    proof {
        assert(t@.subrange(0, len - 1) =~= t@.drop_last());
    }
    let number = if scale == 1 {
        t
    } else {
        t.substring_char(0, len - 1)
    };
    match parse_decimal(number) {
        None => Err(concat("invalid size: ", t)),
        Some(n) => match n.checked_mul(scale) {
            Some(bytes) => Ok(bytes),
            None => Err(concat("size overflow: ", t)),
        },
    }
}

/// A number without a unit is that many bytes, and one with a unit that many times 1024 for each
/// step from kilo to tera, in upper and in lower case, unless that does not fit in 64 bits.
pub proof fn law_units_scale_sizes(s: Text, number: Text, n: u64)
    requires
        decimal(number) == Some(n),
    ensures
        ({
            let read = |t: Text, scale: int| trim_space(s) == t ==> size_of_text(s)
                == if n * scale <= u64::MAX {
                Ok::<u64, Text>((n * scale) as u64)
            } else {
                Err::<u64, Text>("size overflow: "@ + t)
            };
            &&& read(number, 1)
            &&& read(number.push('K'), 0x400) && read(number.push('k'), 0x400)
            &&& read(number.push('M'), 0x10_0000) && read(number.push('m'), 0x10_0000)
            &&& read(number.push('G'), 0x4000_0000) && read(number.push('g'), 0x4000_0000)
            &&& read(number.push('T'), 0x100_0000_0000) && read(number.push('t'), 0x100_0000_0000)
        }),
{
    let digits = unsigned_part(number);
    assert(is_digit(digits[digits.len() - 1]));
    assert(number.last() == digits.last());
    assert(number.push('K').drop_last() =~= number);
    assert(number.push('k').drop_last() =~= number);
    assert(number.push('M').drop_last() =~= number);
    assert(number.push('m').drop_last() =~= number);
    assert(number.push('G').drop_last() =~= number);
    assert(number.push('g').drop_last() =~= number);
    assert(number.push('T').drop_last() =~= number);
    assert(number.push('t').drop_last() =~= number);
}

/// Each digit that is added makes a number ten times itself and the digit.
pub proof fn law_digits_make_numbers(t: Text, c: char)
    requires
        is_digit(c),
    ensures
        digits_value(seq![]) == 0,
        digits_value(t.push(c)) == 10 * digits_value(t) + (c as int - '0' as int),
{
    assert(t.push(c).drop_last() =~= t);
}

/// A text is a number exactly if it is one or more decimal digits, with or without a plus sign
/// before them, whose value fits in 64 bits; the number is that value.
pub proof fn law_numbers_are_digits(t: Text)
    requires
        t.len() > 0,
        forall|i: int| 0 <= i < t.len() ==> '0' <= #[trigger] t[i] <= '9',
    ensures
        digits_value(t) <= u64::MAX ==> decimal(t) == Some(digits_value(t) as u64),
        digits_value(t) > u64::MAX ==> decimal(t) is None,
        decimal(seq!['+'] + t) == decimal(t),
        decimal(seq![]) is None,
        forall|s: Text, k: int|
            0 < k < s.len() && !('0' <= #[trigger] s[k] <= '9') ==> decimal(s) is None,
{
    let plus = seq!['+'] + t;
    assert(t[0] != '+');
    assert(unsigned_part(plus) =~= t);
    assert forall|s: Text, k: int| 0 < k < s.len() && !('0' <= #[trigger] s[k] <= '9') implies decimal(
        s,
    ) is None by {
        let d = unsigned_part(s);
        if s[0] == '+' {
            assert(!is_digit(d[k - 1]));
        } else {
            assert(!is_digit(d[k]));
        }
    }
    assert forall|i: int| 0 <= i < t.len() implies is_digit(#[trigger] t[i]) by {
        assert('0' <= t[i] <= '9');
    }
}

} // verus!
