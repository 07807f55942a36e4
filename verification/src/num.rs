//! Decimal and hexadecimal integer parsing, with the grammar of Rust's
//! `str::parse` and `from_str_radix`: an optional sign, then at least one digit.

use vstd::prelude::*;

verus! {

pub open spec fn is_digit(b: u8) -> bool {
    48 <= b <= 57
}

pub open spec fn all_digits(s: Seq<u8>) -> bool {
    forall|i: int| 0 <= i < s.len() ==> is_digit(#[trigger] s[i])
}

/// The number that a string of decimal digits writes.
pub open spec fn digits_value(s: Seq<u8>) -> nat
    decreases s.len(),
{
    if s.len() == 0 {
        0
    } else {
        digits_value(s.drop_last()) * 10 + (s.last() - 48) as nat
    }
}

/// The digits after an optional leading sign that `signed` allows.
pub open spec fn unsigned_digits(s: Seq<u8>) -> Seq<u8> {
    if s.len() > 0 && s[0] == 43 {
        s.drop_first()
    } else {
        s
    }
}

/// An unsigned decimal: an optional `+`, then digits, at most `max`.
pub open spec fn spec_parse_unsigned(s: Seq<u8>, max: nat) -> Option<nat> {
    let d = unsigned_digits(s);
    if d.len() == 0 || !all_digits(d) || digits_value(d) > max {
        None
    } else {
        Some(digits_value(d))
    }
}

/// A signed decimal that fits an `i64`: an optional `+` or `-`, then digits.
pub open spec fn spec_parse_i64(s: Seq<u8>) -> Option<i64> {
    if s.len() == 0 {
        None
    } else {
        let neg = s[0] == 45;
        let d = if s[0] == 43 || s[0] == 45 {
            s.drop_first()
        } else {
            s
        };
        if d.len() == 0 || !all_digits(d) {
            None
        } else {
            let v: int = if neg {
                -(digits_value(d) as int)
            } else {
                digits_value(d) as int
            };
            if i64::MIN <= v <= i64::MAX {
                Some(v as i64)
            } else {
                None
            }
        }
    }
}

proof fn lemma_digits_value_step(s: Seq<u8>, i: int)
    requires
        0 <= i < s.len(),
    ensures
        digits_value(s.take(i + 1)) == digits_value(s.take(i)) * 10 + (s[i] - 48) as nat,
{
    assert(s.take(i + 1).drop_last() =~= s.take(i));
}

proof fn lemma_digits_value_prefix(s: Seq<u8>, k: int)
    requires
        0 <= k <= s.len(),
        all_digits(s),
    ensures
        digits_value(s.take(k)) <= digits_value(s),
    decreases s.len(),
{
    if k < s.len() {
        let t = s.drop_last();
        assert(t.take(k) =~= s.take(k));
        assert(all_digits(t)) by {
            assert forall|i: int| 0 <= i < t.len() implies is_digit(#[trigger] t[i]) by {
                assert(t[i] == s[i]);
            }
        }
        lemma_digits_value_prefix(t, k);
    } else {
        assert(s.take(k) =~= s);
    }
}

/// Parse decimal digits from `start` on, failing when the value passes `limit`.
fn parse_digits(s: &[u8], start: usize, limit: u64) -> (r: Option<u64>)
    requires
        start <= s@.len(),
        limit >= 9,
    ensures
        ({
            let d = s@.subrange(start as int, s@.len() as int);
            match r {
                Some(v) => all_digits(d) && digits_value(d) <= limit && v == digits_value(d),
                None => !all_digits(d) || digits_value(d) > limit,
            }
        }),
{
    let ghost d = s@.subrange(start as int, s@.len() as int);
    let mut acc: u64 = 0;
    let mut i: usize = start;
    while i < s.len()
        invariant
            start <= i <= s@.len(),
            d == s@.subrange(start as int, s@.len() as int),
            all_digits(d.take(i - start)),
            acc == digits_value(d.take(i - start)),
            acc <= limit,
            limit >= 9,
        decreases s@.len() - i,
    {
        let b = s[i];
        assert(d[i - start] == b);
        if b < 48 || b > 57 {
            return None;
        }
        let digit: u64 = (b - 48) as u64;
        proof {
            lemma_digits_value_step(d, i - start);
            assert(d.take(i + 1 - start) =~= d.take(i - start).push(b));
        }
        if acc > (limit - digit) / 10 {
            proof {
                assert(acc * 10 + digit > limit) by (nonlinear_arith)
                    requires
                        acc > (limit - digit) / 10,
                        digit <= limit || digit > limit,
                        digit <= 9,
                        limit >= digit,
                ;
                if all_digits(d) {
                    lemma_digits_value_prefix(d, i + 1 - start);
                }
            }
            return None;
        }
        proof {
            assert(acc * 10 + digit <= limit) by (nonlinear_arith)
                requires
                    acc <= (limit - digit) / 10,
                    limit >= digit,
            ;
        }
        acc = acc * 10 + digit;
        i += 1;
    }
    assert(d.take(i - start) =~= d);
    Some(acc)
}

/// Parse an unsigned decimal of at most `limit`, as `str::parse` does.
pub fn parse_unsigned(s: &[u8], limit: u64) -> (r: Option<u64>)
    requires
        limit >= 9,
    ensures
        match spec_parse_unsigned(s@, limit as nat) {
            Some(v) => r == Some(v as u64),
            None => r is None,
        },
{
    let start: usize = if s.len() > 0 && s[0] == 43 {
        1
    } else {
        0
    };
    assert(unsigned_digits(s@) =~= s@.subrange(start as int, s@.len() as int));
    if start == s.len() {
        return None;
    }
    parse_digits(s, start, limit)
}

/// Parse a signed decimal that fits an `i64`, as `str::parse::<i64>` does.
pub fn parse_i64(s: &[u8]) -> (r: Option<i64>)
    ensures
        r == spec_parse_i64(s@),
{
    if s.len() == 0 {
        return None;
    }
    let neg = s[0] == 45;
    let start: usize = if s[0] == 43 || s[0] == 45 {
        1
    } else {
        0
    };
    let ghost d = if s@[0] == 43 || s@[0] == 45 {
        s@.drop_first()
    } else {
        s@
    };
    assert(d =~= s@.subrange(start as int, s@.len() as int));
    if start == s.len() {
        return None;
    }
    let limit: u64 = if neg {
        9223372036854775808
    } else {
        9223372036854775807
    };
    match parse_digits(s, start, limit) {
        None => None,
        Some(v) => {
            if neg {
                if v == 9223372036854775808 {
                    Some(i64::MIN)
                } else {
                    Some(-(v as i64))
                }
            } else {
                Some(v as i64)
            }
        },
    }
}

pub open spec fn is_hex_digit(b: u8) -> bool {
    (48 <= b <= 57) || (97 <= b <= 102) || (65 <= b <= 70)
}

pub open spec fn hex_digit_value(b: u8) -> nat {
    if 48 <= b <= 57 {
        (b - 48) as nat
    } else if 97 <= b <= 102 {
        (b - 87) as nat
    } else {
        (b - 55) as nat
    }
}

/// The number that a string of hexadecimal digits writes.
pub open spec fn hex_value(s: Seq<u8>) -> nat
    decreases s.len(),
{
    if s.len() == 0 {
        0
    } else {
        hex_value(s.drop_last()) * 16 + hex_digit_value(s.last())
    }
}

/// A byte in base 16 as `u8::from_str_radix(_, 16)` reads it: an optional
/// `+`, then at least one hexadecimal digit, the value below 256.
pub open spec fn spec_parse_hex_u8(s: Seq<u8>) -> Option<u8> {
    let d = unsigned_digits(s);
    if d.len() == 0 || !(forall|i: int| 0 <= i < d.len() ==> is_hex_digit(#[trigger] d[i]))
        || hex_value(d) > 255 {
        None
    } else {
        Some(hex_value(d) as u8)
    }
}

/// The value of a hexadecimal digit.
pub fn hex_digit(b: u8) -> (r: Option<u8>)
    ensures
        match r {
            Some(v) => is_hex_digit(b) && v == hex_digit_value(b),
            None => !is_hex_digit(b),
        },
{
    if b >= 48 && b <= 57 {
        Some(b - 48)
    } else if b >= 97 && b <= 102 {
        Some(b - 87)
    } else if b >= 65 && b <= 70 {
        Some(b - 55)
    } else {
        None
    }
}

/// Parse a byte written in base 16, as `u8::from_str_radix(_, 16)` does.
pub fn parse_hex_u8(s: &[u8]) -> (r: Option<u8>)
    ensures
        r == spec_parse_hex_u8(s@),
{
    let start: usize = if s.len() > 0 && s[0] == 43 {
        1
    } else {
        0
    };
    let ghost d = unsigned_digits(s@);
    assert(d =~= s@.subrange(start as int, s@.len() as int));
    if start == s.len() {
        return None;
    }
    let mut acc: u64 = 0;
    let mut i: usize = start;
    while i < s.len()
        invariant
            start <= i <= s@.len(),
            d == s@.subrange(start as int, s@.len() as int),
            d == unsigned_digits(s@),
            forall|j: int| 0 <= j < i - start ==> is_hex_digit(#[trigger] d[j]),
            acc == hex_value(d.take(i - start)),
            acc <= 255,
        decreases s@.len() - i,
    {
        let b = s[i];
        assert(d[i - start] == b);
        match hex_digit(b) {
            None => {
                assert(!is_hex_digit(d[i - start]));
                return None;
            },
            Some(v) => {
                assert(d.take(i + 1 - start).drop_last() =~= d.take(i - start));
                if acc * 16 + v as u64 > 255 {
                    proof {
                        lemma_hex_value_prefix_exceeds(d, i + 1 - start);
                        assert(spec_parse_hex_u8_digits_fail(d));
                    }
                    return None;
                }
                acc = acc * 16 + v as u64;
                i += 1;
            },
        }
    }
    assert(d.take(i - start) =~= d);
    Some(acc as u8)
}

proof fn lemma_hex_value_prefix_exceeds(d: Seq<u8>, k: int)
    requires
        0 <= k <= d.len(),
        hex_value(d.take(k)) > 255,
    ensures
        spec_parse_hex_u8_digits_fail(d),
    decreases d.len(),
{
    if forall|i: int| 0 <= i < d.len() ==> is_hex_digit(#[trigger] d[i]) {
        lemma_hex_value_prefix(d, k);
    }
}

spec fn spec_parse_hex_u8_digits_fail(d: Seq<u8>) -> bool {
    !(forall|i: int| 0 <= i < d.len() ==> is_hex_digit(#[trigger] d[i])) || hex_value(d) > 255
}

proof fn lemma_hex_value_prefix(s: Seq<u8>, k: int)
    requires
        0 <= k <= s.len(),
    ensures
        hex_value(s.take(k)) <= hex_value(s),
    decreases s.len(),
{
    if k < s.len() {
        let t = s.drop_last();
        assert(t.take(k) =~= s.take(k));
        lemma_hex_value_prefix(t, k);
    } else {
        assert(s.take(k) =~= s);
    }
}

} // verus!
