//! Decimal numerals: parsing tag values such as `admin_level` into integers,
//! and rendering integers back into strings for filename suffixes.
//!
//! Parsing follows the grammar of Rust's integer `FromStr`: an optional `+`
//! or `-` sign followed by one or more ASCII digits, nothing else.

use vstd::prelude::*;

use crate::text::push_char;

verus! {

/// An ASCII decimal digit.
pub open spec fn is_dec_digit(c: char) -> bool {
    48 <= c as int && c as int <= 57
}

/// The numeric value of an ASCII decimal digit.
pub open spec fn digit_val(c: char) -> int {
    c as int - 48
}

pub open spec fn all_dec_digits(s: Seq<char>) -> bool {
    forall|i: int| 0 <= i < s.len() ==> is_dec_digit(#[trigger] s[i])
}

/// The value of a non-empty string of decimal digits, most significant first.
pub open spec fn dec_value(s: Seq<char>) -> int
    decreases s.len(),
{
    if s.len() == 0 {
        0
    } else {
        dec_value(s.drop_last()) * 10 + digit_val(s.last())
    }
}

/// The unbounded integer denoted by a string, if it is a well-formed decimal
/// numeral: an optional sign followed by at least one digit.
pub open spec fn parse_int(s: Seq<char>) -> Option<int> {
    let neg = s.len() > 0 && s[0] == '-';
    let signed = s.len() > 0 && (s[0] == '-' || s[0] == '+');
    let digits = if signed {
        s.subrange(1, s.len() as int)
    } else {
        s
    };
    if digits.len() > 0 && all_dec_digits(digits) {
        if neg {
            Some(-dec_value(digits))
        } else {
            Some(dec_value(digits))
        }
    } else {
        None
    }
}

/// The value of an all-digit string is non-negative, and no prefix of it
/// exceeds the value of the whole.
pub proof fn lemma_dec_value_prefix(s: Seq<char>, k: int)
    requires
        0 <= k <= s.len(),
        all_dec_digits(s),
    ensures
        0 <= dec_value(s.take(k)),
        dec_value(s.take(k)) <= dec_value(s),
    decreases s.len(),
{
    if s.len() == 0 {
        assert(s.take(k) =~= s);
    } else if k == s.len() {
        assert(s.take(k) =~= s);
        assert(all_dec_digits(s.drop_last()));
        lemma_dec_value_prefix(s.drop_last(), s.len() - 1);
        assert(s.drop_last().take(s.len() - 1) =~= s.drop_last());
    } else {
        assert(all_dec_digits(s.drop_last()));
        assert(s.take(k) =~= s.drop_last().take(k));
        lemma_dec_value_prefix(s.drop_last(), k);
    }
}

/// Parses a string as an `i64`, exactly as Rust's `str::parse::<i64>` would:
/// `Some` on a well-formed numeral whose value fits, `None` on anything else.
pub fn parse_i64(s: &str) -> (r: Option<i64>)
    ensures
        match r {
            Some(v) => parse_int(s@) == Some(v as int),
            None => match parse_int(s@) {
                Some(v) => v < i64::MIN || v > i64::MAX,
                None => true,
            },
        },
{
    let len = s.unicode_len();
    let mut start: usize = 0;
    let mut neg = false;
    if len > 0 {
        let c0 = s.get_char(0);
        if c0 == '-' {
            neg = true;
            start = 1;
        } else if c0 == '+' {
            start = 1;
        }
    }
    if start >= len {
        return None;
    }
    let ghost digits = s@.subrange(start as int, s@.len() as int);
    proof {
        if start == 0 {
            assert(digits =~= s@);
        }
        assert(s@.subrange(start as int, start as int) =~= Seq::<char>::empty());
    }
    let mut acc: u128 = 0;
    let mut i: usize = start;
    while i < len
        invariant
            start <= i <= len,
            len == s@.len(),
            start <= 1,
            (start == 1) == (s@.len() > 0 && (s@[0] == '-' || s@[0] == '+')),
            neg == (s@.len() > 0 && s@[0] == '-'),
            digits == s@.subrange(start as int, len as int),
            digits.len() > 0,
            all_dec_digits(s@.subrange(start as int, i as int)),
            acc == dec_value(s@.subrange(start as int, i as int)),
            acc <= 0x6000_0000_0000_0000_0000u128,
        decreases len - i,
    {
        let c = s.get_char(i);
        let cu = c as u32;
        let ghost pre = s@.subrange(start as int, i as int);
        let ghost cur = s@.subrange(start as int, (i + 1) as int);
        proof {
            assert(cur.drop_last() =~= pre);
            assert(cur.last() == s@[i as int]);
        }
        if cu < 48 || cu > 57 {
            // The digit run is broken, so the whole string is no numeral.
            proof {
                assert(digits[i - start] == s@[i as int]);
                assert(!all_dec_digits(digits));
                assert(parse_int(s@) is None);
            }
            return None;
        }
        if acc > 0x8AC7_2304_89E8_0000u128 {
            // Already above 10^19 > |i64| range; more digits cannot shrink it.
            proof {
                if start == 0 {
                    assert(digits =~= s@);
                }
                if all_dec_digits(digits) {
                    assert(pre =~= digits.take(i - start));
                    lemma_dec_value_prefix(digits, i - start);
                    assert(dec_value(digits) > i64::MAX);
                    if neg {
                        assert(parse_int(s@) == Some(-dec_value(digits)));
                    } else {
                        assert(parse_int(s@) == Some(dec_value(digits)));
                    }
                }
            }
            return None;
        }
        acc = acc * 10 + (cu - 48) as u128;
        i += 1;
        proof {
            assert forall|j: int| 0 <= j < cur.len() implies is_dec_digit(#[trigger] cur[j]) by {
                if j < cur.len() - 1 {
                    assert(cur[j] == pre[j]);
                }
            }
        }
    }
    proof {
        assert(s@.subrange(start as int, i as int) =~= digits);
    }
    if neg {
        if acc > 0x8000_0000_0000_0000u128 {
            None
        } else if acc == 0x8000_0000_0000_0000u128 {
            Some(i64::MIN)
        } else {
            Some(-(acc as i64))
        }
    } else {
        if acc > 0x7FFF_FFFF_FFFF_FFFFu128 {
            None
        } else {
            Some(acc as i64)
        }
    }
}

/// The decimal digit character for a value between 0 and 9.
pub open spec fn dec_digit_char(d: int) -> char {
    if d == 0 {
        '0'
    } else if d == 1 {
        '1'
    } else if d == 2 {
        '2'
    } else if d == 3 {
        '3'
    } else if d == 4 {
        '4'
    } else if d == 5 {
        '5'
    } else if d == 6 {
        '6'
    } else if d == 7 {
        '7'
    } else if d == 8 {
        '8'
    } else {
        '9'
    }
}

/// The decimal digit string of a non-negative integer, without sign and
/// without leading zeros (a single `0` for zero).
pub open spec fn dec_digits(n: int) -> Seq<char>
    decreases n,
{
    if n < 10 {
        seq![dec_digit_char(n)]
    } else {
        dec_digits(n / 10).push(dec_digit_char(n % 10))
    }
}

/// The decimal string of an integer: a `-` sign, if negative, then digits.
pub open spec fn dec_string(v: int) -> Seq<char> {
    if v < 0 {
        seq!['-'] + dec_digits(-v)
    } else {
        dec_digits(v)
    }
}

fn dec_digit_char_exec(d: u64) -> (c: char)
    requires
        d < 10,
    ensures
        c == dec_digit_char(d as int),
{
    if d == 0 {
        '0'
    } else if d == 1 {
        '1'
    } else if d == 2 {
        '2'
    } else if d == 3 {
        '3'
    } else if d == 4 {
        '4'
    } else if d == 5 {
        '5'
    } else if d == 6 {
        '6'
    } else if d == 7 {
        '7'
    } else if d == 8 {
        '8'
    } else {
        '9'
    }
}

/// Renders a non-negative integer in decimal.
pub fn u64_to_dec(n: u64) -> (r: String)
    ensures
        r@ == dec_digits(n as int),
    decreases n,
{
    if n < 10 {
        let mut s = String::new();
        push_char(&mut s, dec_digit_char_exec(n));
        proof {
            assert(s@ =~= dec_digits(n as int));
        }
        s
    } else {
        let mut s = u64_to_dec(n / 10);
        push_char(&mut s, dec_digit_char_exec(n % 10));
        s
    }
}

/// Renders a signed integer in decimal, with a leading `-` when negative.
pub fn i64_to_dec(v: i64) -> (r: String)
    ensures
        r@ == dec_string(v as int),
{
    if v >= 0 {
        u64_to_dec(v as u64)
    } else {
        let mag: u64 = if v == i64::MIN {
            0x8000_0000_0000_0000u64
        } else {
            (-v) as u64
        };
        let mut s = String::new();
        push_char(&mut s, '-');
        let t = u64_to_dec(mag);
        let r = s.concat(t.as_str());
        proof {
            assert(r@ =~= dec_string(v as int));
        }
        r
    }
}

} // verus!
