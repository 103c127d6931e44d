use vstd::prelude::*;
use vstd::utf8::*;

verus! {

/// An ASCII decimal digit.
pub open spec fn is_digit(b: u8) -> bool {
    48u8 <= b <= 57u8
}

pub open spec fn all_digits(s: Seq<u8>) -> bool {
    forall|i: int| 0 <= i < s.len() ==> #[trigger] is_digit(s[i])
}

/// The number that a sequence of decimal digits spells.
pub open spec fn digits_value(s: Seq<u8>) -> nat
    decreases s.len(),
{
    if s.len() == 0 {
        0
    } else {
        digits_value(s.drop_last()) * 10 + (s.last() - 48u8) as nat
    }
}

/// Optional sign and digits as `i64::from_str` reads them: a leading `+` or
/// `-`, then at least one digit, the value within the type's range.
pub open spec fn parse_i64_spec(s: Seq<u8>) -> Option<i64> {
    if s.len() == 0 {
        None
    } else {
        let neg = s[0] == 45u8;
        let digits = if s[0] == 43u8 || s[0] == 45u8 {
            s.drop_first()
        } else {
            s
        };
        if digits.len() == 0 || !all_digits(digits) {
            None
        } else {
            let v: int = if neg {
                -digits_value(digits)
            } else {
                digits_value(digits) as int
            };
            if i64::MIN <= v <= i64::MAX {
                Some(v as i64)
            } else {
                None
            }
        }
    }
}

/// Digits as `u64::from_str` reads them: an optional leading `+`, then at
/// least one digit, the value within the type's range.
pub open spec fn parse_u64_spec(s: Seq<u8>) -> Option<u64> {
    let digits = if s.len() > 0 && s[0] == 43u8 {
        s.drop_first()
    } else {
        s
    };
    if digits.len() == 0 || !all_digits(digits) || digits_value(digits) > u64::MAX {
        None
    } else {
        Some(digits_value(digits) as u64)
    }
}

/// The shortest decimal spelling of a natural number.
pub open spec fn nat_text(n: nat) -> Seq<u8>
    decreases n,
{
    if n < 10 {
        seq![(48 + n) as u8]
    } else {
        nat_text(n / 10).push((48 + n % 10) as u8)
    }
}

/// The decimal spelling of an integer, with `-` before a negative one.
pub open spec fn int_text(n: int) -> Seq<u8> {
    if n < 0 {
        seq![45u8] + nat_text((-n) as nat)
    } else {
        nat_text(n as nat)
    }
}

/// The cap at which digit accumulation stops growing.
pub open spec fn cap() -> nat {
    0x1_0000_0000_0000_0001nat
}

pub open spec fn capped(n: nat) -> nat {
    if n > cap() {
        cap()
    } else {
        n
    }
}

proof fn lemma_digits_value_push(s: Seq<u8>, d: u8)
    ensures
        digits_value(s.push(d)) == digits_value(s) * 10 + (d - 48u8) as nat,
{
    assert(s.push(d).drop_last() =~= s);
}

/// Reads the digits of `s[start..]`: `Some` exactly when there is at least one
/// and all are digits, with their value capped.
fn digits_capped(s: &[u8], start: usize) -> (r: Option<u128>)
    requires
        start <= s@.len(),
    ensures
        match r {
            Some(v) => start < s@.len() && all_digits(s@.subrange(start as int, s@.len() as int))
                && v as nat == capped(digits_value(s@.subrange(start as int, s@.len() as int))),
            None => !(start < s@.len() && all_digits(
                s@.subrange(start as int, s@.len() as int),
            )),
        },
{
    if start == s.len() {
        return None;
    }
    let mut acc: u128 = 0;
    let mut i: usize = start;
    while i < s.len()
        invariant
            start <= i <= s@.len(),
            all_digits(s@.subrange(start as int, i as int)),
            acc as nat == capped(digits_value(s@.subrange(start as int, i as int))),
        decreases s@.len() - i,
    {
        let b = s[i];
        if b < 48u8 || b > 57u8 {
            assert(!all_digits(s@.subrange(start as int, s@.len() as int))) by {
                let sub = s@.subrange(start as int, s@.len() as int);
                assert(sub[i - start] == b);
                assert(!is_digit(sub[i - start]));
            }
            return None;
        }
        proof {
            let pre = s@.subrange(start as int, i as int);
            assert(s@.subrange(start as int, i + 1) =~= pre.push(b));
            lemma_digits_value_push(pre, b);
        }
        let d = (b - 48u8) as u128;
        if acc > 0x1_0000_0000_0000_0000u128 {
            acc = 0x1_0000_0000_0000_0001u128;
        } else {
            acc = acc * 10 + d;
            if acc > 0x1_0000_0000_0000_0001u128 {
                acc = 0x1_0000_0000_0000_0001u128;
            }
        }
        i = i + 1;
    }
    assert(s@.subrange(start as int, i as int) =~= s@.subrange(start as int, s@.len() as int));
    Some(acc)
}

/// Parses a signed 64-bit decimal integer as `i64::from_str` does.
pub fn parse_i64(s: &[u8]) -> (r: Option<i64>)
    ensures
        r == parse_i64_spec(s@),
{
    if s.len() == 0 {
        return None;
    }
    let neg = s[0] == 45u8;
    let start: usize = if s[0] == 43u8 || s[0] == 45u8 {
        1
    } else {
        0
    };
    assert(s@.subrange(start as int, s@.len() as int) =~= if start == 1 {
        s@.drop_first()
    } else {
        s@
    });
    match digits_capped(s, start) {
        None => None,
        Some(m) => {
            if neg {
                if m <= 0x8000_0000_0000_0000u128 {
                    Some((0i128 - m as i128) as i64)
                } else {
                    None
                }
            } else {
                if m <= 0x7fff_ffff_ffff_ffffu128 {
                    Some(m as i64)
                } else {
                    None
                }
            }
        },
    }
}

/// Parses an unsigned 64-bit decimal integer as `u64::from_str` does.
pub fn parse_u64(s: &[u8]) -> (r: Option<u64>)
    ensures
        r == parse_u64_spec(s@),
{
    let start: usize = if s.len() > 0 && s[0] == 43u8 {
        1
    } else {
        0
    };
    assert(s@.subrange(start as int, s@.len() as int) =~= if start == 1 {
        s@.drop_first()
    } else {
        s@
    });
    match digits_capped(s, start) {
        None => None,
        Some(m) => {
            if m <= 0xffff_ffff_ffff_ffffu128 {
                Some(m as u64)
            } else {
                None
            }
        },
    }
}

/// Appends the decimal spelling of `n`.
pub fn push_nat(out: &mut Vec<u8>, n: u128)
    ensures
        final(out)@ == old(out)@ + nat_text(n as nat),
    decreases n,
{
    if n >= 10 {
        push_nat(out, n / 10);
    }
    out.push((48 + n % 10) as u8);
    proof {
        if n >= 10 {
            assert(old(out)@ + nat_text(n as nat) =~= old(out)@ + nat_text((n / 10) as nat)
                + seq![(48 + n % 10) as u8]);
        } else {
            assert(old(out)@ + nat_text(n as nat) =~= old(out)@.push((48 + n % 10) as u8));
        }
    }
}

/// Appends the decimal spelling of `n`, with `-` before a negative one.
pub fn push_int(out: &mut Vec<u8>, n: i64)
    ensures
        final(out)@ == old(out)@ + int_text(n as int),
{
    if n < 0 {
        out.push(45u8);
        let m = (0i128 - n as i128) as u128;
        push_nat(out, m);
        assert(final(out)@ =~= old(out)@ + int_text(n as int));
    } else {
        push_nat(out, n as u128);
    }
}

/// The decimal spelling of a natural number is digits, and reads back as it.
pub proof fn lemma_nat_text(n: nat)
    ensures
        nat_text(n).len() >= 1,
        all_digits(nat_text(n)),
        digits_value(nat_text(n)) == n,
    decreases n,
{
    if n >= 10 {
        let d = (48 + n % 10) as u8;
        lemma_nat_text(n / 10);
        lemma_digits_value_push(nat_text(n / 10), d);
        assert(nat_text(n) == nat_text(n / 10).push(d));
        assert((d - 48u8) as nat == n % 10);
        assert((n / 10) * 10 + n % 10 == n) by (nonlinear_arith);
        assert forall|i: int| 0 <= i < nat_text(n).len() implies #[trigger] is_digit(
            nat_text(n)[i],
        ) by {
            if i < nat_text(n / 10).len() {
                assert(is_digit(nat_text(n / 10)[i]));
            }
        }
    } else {
        assert(seq![(48 + n) as u8].drop_last() =~= Seq::<u8>::empty());
        assert(digits_value(Seq::<u8>::empty()) == 0);
        assert(is_digit(nat_text(n)[0]));
    }
}

/// The decimal spelling of an `i64` parses back to it.
pub proof fn lemma_int_text_round_trip(n: i64)
    ensures
        parse_i64_spec(int_text(n as int)) == Some(n),
{
    if n < 0 {
        let t = int_text(n as int);
        lemma_nat_text((-n) as nat);
        assert(t.drop_first() =~= nat_text((-n) as nat));
    } else {
        lemma_nat_text(n as nat);
        assert(is_digit(nat_text(n as nat)[0]));
    }
}

/// Text that parses as an integer is ASCII, hence valid UTF-8.
pub proof fn lemma_integer_text_is_utf8(s: Seq<u8>)
    ensures
        parse_i64_spec(s) is Some ==> valid_utf8(s),
{
    if parse_i64_spec(s) is Some {
        let digits = if s[0] == 43u8 || s[0] == 45u8 {
            s.drop_first()
        } else {
            s
        };
        assert forall|i: int| 0 <= i < s.len() implies #[trigger] is_leading_byte_width_1(s[i]) by {
            if s[0] == 43u8 || s[0] == 45u8 {
                if i > 0 {
                    assert(s[i] == digits[i - 1]);
                    assert(is_digit(digits[i - 1]));
                }
            } else {
                assert(is_digit(digits[i]));
            }
        }
        assert(s.subrange(0, 0) =~= Seq::<u8>::empty());
        partial_valid_utf8_extend_ascii_block(s, 0, s.len() as int);
        assert(s.subrange(0, s.len() as int) =~= s);
    }
}

} // verus!
