use crate::decimal::{all_digits, is_digit};
use vstd::prelude::*;

verus! {

pub open spec fn is_sign(b: u8) -> bool {
    b == 43u8 || b == 45u8
}

/// The text without one leading sign, if it has one.
pub open spec fn strip_sign(s: Seq<u8>) -> Seq<u8> {
    if s.len() > 0 && is_sign(s[0]) {
        s.drop_first()
    } else {
        s
    }
}

/// ASCII lower case of one byte.
pub open spec fn lower(b: u8) -> u8 {
    if 65u8 <= b <= 90u8 {
        (b + 32) as u8
    } else {
        b
    }
}

pub open spec fn lower_all(s: Seq<u8>) -> Seq<u8> {
    s.map_values(|b: u8| lower(b))
}

pub open spec fn inf_word() -> Seq<u8> {
    seq![105u8, 110u8, 102u8]
}

pub open spec fn infinity_word() -> Seq<u8> {
    seq![105u8, 110u8, 102u8, 105u8, 110u8, 105u8, 116u8, 121u8]
}

pub open spec fn nan_word() -> Seq<u8> {
    seq![110u8, 97u8, 110u8]
}

/// A signed or unsigned `inf`, `infinity` or `nan`, in any letter case.
pub open spec fn special_float(s: Seq<u8>) -> bool {
    let w = lower_all(strip_sign(s));
    w == inf_word() || w == infinity_word() || w == nan_word()
}

pub open spec fn is_exponent_marker(b: u8) -> bool {
    b == 101u8 || b == 69u8
}

/// The position of the first `e` or `E` at or after `from`, else the length.
pub open spec fn exponent_index(s: Seq<u8>, from: int) -> int
    decreases s.len() - from,
{
    if from < 0 || from >= s.len() {
        s.len() as int
    } else if is_exponent_marker(s[from]) {
        from
    } else {
        exponent_index(s, from + 1)
    }
}

/// Digits with at most one decimal point, and at least one digit.
pub open spec fn mantissa_syntax(m: Seq<u8>) -> bool {
    &&& forall|i: int| 0 <= i < m.len() ==> is_digit(#[trigger] m[i]) || m[i] == 46u8
    &&& forall|i: int, j: int| 0 <= i < j < m.len() && #[trigger] m[i] == 46u8 ==> #[trigger] m[j] != 46u8
    &&& exists|i: int| 0 <= i < m.len() && is_digit(#[trigger] m[i])
}

/// An optional sign, then at least one digit.
pub open spec fn exponent_syntax(x: Seq<u8>) -> bool {
    strip_sign(x).len() > 0 && all_digits(strip_sign(x))
}

/// A decimal number with an optional exponent, split at its first `e` or `E`.
pub open spec fn number_syntax(s: Seq<u8>) -> bool {
    let k = exponent_index(s, 0);
    mantissa_syntax(s.subrange(0, k)) && (k == s.len() || exponent_syntax(
        s.subrange(k + 1, s.len() as int),
    ))
}

/// The text of a 64-bit float as `f64::from_str` accepts it.
pub open spec fn float_syntax(s: Seq<u8>) -> bool {
    special_float(s) || number_syntax(strip_sign(s))
}

/// A sign, then only decimal digits.
pub open spec fn big_number_syntax(s: Seq<u8>) -> bool {
    s.len() >= 1 && is_sign(s[0]) && all_digits(s.drop_first())
}

/// Whether `s[start..]` is `w` in any letter case.
fn lower_equals(s: &[u8], start: usize, w: &Vec<u8>) -> (r: bool)
    requires
        start <= s@.len(),
    ensures
        r == (lower_all(s@.subrange(start as int, s@.len() as int)) == w@),
{
    let ghost t = s@.subrange(start as int, s@.len() as int);
    if s.len() - start != w.len() {
        assert(lower_all(t).len() != w@.len());
        return false;
    }
    let mut i: usize = 0;
    while i < w.len()
        invariant
            i <= w@.len(),
            w@.len() == t.len(),
            start + w@.len() == s@.len(),
            s@.len() <= usize::MAX,
            t == s@.subrange(start as int, s@.len() as int),
            forall|j: int| 0 <= j < i ==> lower(t[j]) == w@[j],
        decreases w@.len() - i,
    {
        let b = s[start + i];
        let l = if 65u8 <= b && b <= 90u8 {
            b + 32
        } else {
            b
        };
        if l != w[i] {
            assert(lower_all(t)[i as int] != w@[i as int]);
            return false;
        }
        i = i + 1;
    }
    assert(lower_all(t) =~= w@);
    true
}

fn exponent_ok(s: &[u8], start: usize) -> (r: bool)
    requires
        start <= s@.len(),
    ensures
        r == exponent_syntax(s@.subrange(start as int, s@.len() as int)),
{
    let ghost x = s@.subrange(start as int, s@.len() as int);
    let first: usize = if start < s.len() && (s[start] == 43u8 || s[start] == 45u8) {
        start + 1
    } else {
        start
    };
    assert(strip_sign(x) =~= s@.subrange(first as int, s@.len() as int));
    if first >= s.len() {
        return false;
    }
    let mut i: usize = first;
    while i < s.len()
        invariant
            first <= i <= s@.len(),
            start <= first,
            x == s@.subrange(start as int, s@.len() as int),
            strip_sign(x) == s@.subrange(first as int, s@.len() as int),
            forall|j: int| first <= j < i ==> is_digit(#[trigger] s@[j]),
        decreases s@.len() - i,
    {
        if !(48u8 <= s[i] && s[i] <= 57u8) {
            assert(!is_digit(strip_sign(x)[i - first]));
            return false;
        }
        i = i + 1;
    }
    assert forall|j: int| 0 <= j < strip_sign(x).len() implies #[trigger] is_digit(
        strip_sign(x)[j],
    ) by {
        assert(strip_sign(x)[j] == s@[first + j]);
    }
    true
}

fn mantissa_ok(s: &[u8], start: usize, end: usize) -> (r: bool)
    requires
        start <= end <= s@.len(),
    ensures
        r == mantissa_syntax(s@.subrange(start as int, end as int)),
{
    let ghost m = s@.subrange(start as int, end as int);
    let mut seen_dot = false;
    let mut seen_digit = false;
    let mut i: usize = start;
    while i < end
        invariant
            start <= i <= end,
            end <= s@.len(),
            m == s@.subrange(start as int, end as int),
            forall|j: int| 0 <= j < i - start ==> is_digit(#[trigger] m[j]) || m[j] == 46u8,
            seen_dot <==> exists|j: int| 0 <= j < i - start && #[trigger] m[j] == 46u8,
            !(exists|j: int, k: int|
                0 <= j < k < i - start && #[trigger] m[j] == 46u8 && #[trigger] m[k] == 46u8),
            seen_digit <==> exists|j: int| 0 <= j < i - start && is_digit(#[trigger] m[j]),
        decreases end - i,
    {
        let b = s[i];
        assert(m[i - start] == b);
        if b == 46u8 {
            if seen_dot {
                proof {
                    let j = choose|j: int| 0 <= j < i - start && #[trigger] m[j] == 46u8;
                    assert(!mantissa_syntax(m)) by {
                        assert(m[j] == 46u8 && m[i - start] == 46u8);
                    }
                }
                return false;
            }
            seen_dot = true;
        } else if 48u8 <= b && b <= 57u8 {
            seen_digit = true;
        } else {
            assert(!(is_digit(m[i - start]) || m[i - start] == 46u8));
            return false;
        }
        i = i + 1;
    }
    if !seen_digit {
        assert(!mantissa_syntax(m));
        return false;
    }
    assert(mantissa_syntax(m)) by {
        assert forall|j: int, k: int|
            0 <= j < k < m.len() && #[trigger] m[j] == 46u8 implies #[trigger] m[k] != 46u8 by {
            if m[k] == 46u8 {
                assert(exists|j: int, k: int|
                    0 <= j < k < i - start && #[trigger] m[j] == 46u8 && #[trigger] m[k] == 46u8);
            }
        }
    }
    true
}

/// Whether the text is a number as `f64::from_str` accepts it.
pub fn is_float_text(s: &[u8]) -> (r: bool)
    ensures
        r == float_syntax(s@),
{
    let start: usize = if s.len() > 0 && (s[0] == 43u8 || s[0] == 45u8) {
        1
    } else {
        0
    };
    let ghost body = strip_sign(s@);
    assert(body =~= s@.subrange(start as int, s@.len() as int));
    let special = lower_equals(s, start, &vec![105u8, 110u8, 102u8]) || lower_equals(
        s,
        start,
        &vec![105u8, 110u8, 102u8, 105u8, 110u8, 105u8, 116u8, 121u8],
    ) || lower_equals(s, start, &vec![110u8, 97u8, 110u8]);
    proof {
        assert(seq![105u8, 110u8, 102u8] =~= inf_word());
        assert(seq![105u8, 110u8, 102u8, 105u8, 110u8, 105u8, 116u8, 121u8] =~= infinity_word());
        assert(seq![110u8, 97u8, 110u8] =~= nan_word());
    }
    if special {
        return true;
    }
    let mut k: usize = start;
    while k < s.len() && !(s[k] == 101u8 || s[k] == 69u8)
        invariant
            start <= k <= s@.len(),
            body == s@.subrange(start as int, s@.len() as int),
            exponent_index(body, 0) == exponent_index(body, k - start),
        decreases s@.len() - k,
    {
        k = k + 1;
    }
    assert(exponent_index(body, 0) == k - start);
    assert(body.subrange(0, k - start) =~= s@.subrange(start as int, k as int));
    if !mantissa_ok(s, start, k) {
        return false;
    }
    if k == s.len() {
        return true;
    }
    assert(body.subrange(k - start + 1, body.len() as int) =~= s@.subrange(
        k + 1,
        s@.len() as int,
    ));
    exponent_ok(s, k + 1)
}

/// Whether the text is a sign followed by decimal digits only.
pub fn is_big_number_text(s: &[u8]) -> (r: bool)
    ensures
        r == big_number_syntax(s@),
{
    if s.len() == 0 || !(s[0] == 43u8 || s[0] == 45u8) {
        return false;
    }
    let mut i: usize = 1;
    while i < s.len()
        invariant
            1 <= i <= s@.len(),
            forall|j: int| 1 <= j < i ==> is_digit(#[trigger] s@[j]),
        decreases s@.len() - i,
    {
        if !(48u8 <= s[i] && s[i] <= 57u8) {
            assert(!is_digit(s@.drop_first()[i - 1]));
            return false;
        }
        i = i + 1;
    }
    assert forall|j: int| 0 <= j < s@.drop_first().len() implies #[trigger] is_digit(
        s@.drop_first()[j],
    ) by {
        assert(s@.drop_first()[j] == s@[j + 1]);
    }
    true
}

} // verus!
