//! Decimal rendering and parsing of the integers the library displays:
//! counters, configuration values, durations.

use vstd::prelude::*;

verus! {

/// The decimal digit character for `d` in `[0, 10)`.
pub open spec fn dec_digit(d: int) -> char {
    ((d + 48) as u8) as char
}

/// The decimal form of `n`, without sign or padding.
pub open spec fn dec_str(n: int) -> Seq<char>
    decreases n,
{
    if n < 10 {
        seq![dec_digit(if n >= 0 {
            n
        } else {
            0
        })]
    } else {
        dec_str(n / 10) + seq![dec_digit(n % 10)]
    }
}

/// The decimal form of a signed value: a minus sign and the magnitude.
pub open spec fn dec_str_i64(n: i64) -> Seq<char> {
    if n >= 0 {
        dec_str(n as int)
    } else {
        seq!['-'] + dec_str(-(n as int))
    }
}

/// The decimal digits of `n`, as characters.
pub fn u64_to_chars(n: u64) -> (r: Vec<char>)
    ensures
        r@ == dec_str(n as int),
    decreases n,
{
    if n < 10 {
        let d: u8 = (n as u8) + 48;
        let mut v: Vec<char> = Vec::new();
        v.push(d as char);
        proof {
            assert(v@ =~= dec_str(n as int));
        }
        v
    } else {
        let mut v = u64_to_chars(n / 10);
        let d: u8 = ((n % 10) as u8) + 48;
        v.push(d as char);
        proof {
            assert(v@ =~= dec_str(n as int / 10) + seq![dec_digit(n as int % 10)]);
        }
        v
    }
}

/// Renders `n` in decimal.
pub fn u64_to_string(n: u64) -> (r: String)
    ensures
        r@ == dec_str(n as int),
{
    let v = u64_to_chars(n);
    crate::chars::chars_to_string(&v)
}

/// Renders `n` in decimal, with a minus sign when negative.
pub fn i64_to_string(n: i64) -> (r: String)
    ensures
        r@ == dec_str_i64(n),
{
    if n >= 0 {
        u64_to_string(n as u64)
    } else {
        let mag: u64 = ((-(n as i128)) as u64);
        let mut v: Vec<char> = Vec::new();
        v.push('-');
        let digits = u64_to_chars(mag);
        let n2 = digits.len();
        let mut i: usize = 0;
        while i < n2
            invariant
                n2 == digits@.len(),
                0 <= i <= n2,
                v@ == seq!['-'] + digits@.take(i as int),
            decreases n2 - i,
        {
            v.push(digits[i]);
            proof {
                assert(seq!['-'] + digits@.take(i + 1) =~= (seq!['-'] + digits@.take(
                    i as int,
                )).push(digits@[i as int]));
            }
            i = i + 1;
        }
        proof {
            assert(digits@.take(n2 as int) =~= digits@);
            assert(mag as int == -(n as int));
        }
        crate::chars::chars_to_string(&v)
    }
}

/// Whether `c` is a decimal digit, and its value.
pub open spec fn digit_val(c: char) -> int {
    c as int - 48
}

pub open spec fn is_digit_char(c: char) -> bool {
    48 <= c as int <= 57
}

/// The value of a digit string, read left to right.
pub open spec fn digits_val(s: Seq<char>) -> int
    decreases s.len(),
{
    if s.len() == 0 {
        0
    } else {
        digits_val(s.drop_last()) * 10 + digit_val(s.last())
    }
}

/// What parsing `s` as a `u32` yields: the value when `s` is one or more
/// decimal digits whose value fits, nothing otherwise.
pub open spec fn parse_u32_spec(s: Seq<char>) -> Option<u32> {
    if s.len() == 0 || (exists|i: int| 0 <= i < s.len() && !is_digit_char(#[trigger] s[i]))
        || digits_val(s) > u32::MAX {
        None
    } else {
        Some(digits_val(s) as u32)
    }
}

proof fn lemma_digits_val_nonneg(s: Seq<char>)
    requires
        forall|i: int| 0 <= i < s.len() ==> is_digit_char(#[trigger] s[i]),
    ensures
        digits_val(s) >= 0,
    decreases s.len(),
{
    if s.len() > 0 {
        lemma_digits_val_nonneg(s.drop_last());
    }
}

proof fn lemma_digits_val_prefix(s: Seq<char>, j: int)
    requires
        forall|i: int| 0 <= i < s.len() ==> is_digit_char(#[trigger] s[i]),
        0 <= j <= s.len(),
    ensures
        digits_val(s.take(j)) <= digits_val(s),
    decreases s.len() - j,
{
    if j < s.len() {
        lemma_digits_val_prefix(s, j + 1);
        lemma_digits_val_nonneg(s.take(j));
        assert(s.take(j + 1).drop_last() =~= s.take(j));
        assert(s.take(j + 1).last() == s[j]);
        assert(digits_val(s.take(j)) * 10 >= digits_val(s.take(j))) by (nonlinear_arith)
            requires
                digits_val(s.take(j)) >= 0,
        ;
    } else {
        assert(s.take(j) =~= s);
    }
}

/// Parses a `u32` from decimal text: one or more digits, value in range.
pub fn parse_u32(s: &str) -> (r: Option<u32>)
    ensures
        r == parse_u32_spec(s@),
{
    let cs = crate::chars::string_to_chars(s);
    let n = cs.len();
    if n == 0 {
        return None;
    }
    let mut acc: u32 = 0;
    let mut i: usize = 0;
    while i < n
        invariant
            n == cs@.len(),
            cs@ == s@,
            n > 0,
            0 <= i <= n,
            forall|p: int| 0 <= p < i ==> is_digit_char(#[trigger] cs@[p]),
            acc as int == digits_val(cs@.take(i as int)),
        decreases n - i,
    {
        let c = cs[i];
        if c < '0' || c > '9' {
            proof {
                assert(!is_digit_char(cs@[i as int]));
            }
            return None;
        }
        let d: u32 = (c as u32) - 48;
        proof {
            assert(cs@.take(i + 1).drop_last() =~= cs@.take(i as int));
            assert(cs@.take(i + 1).last() == cs@[i as int]);
        }
        if acc > (u32::MAX - d) / 10 {
            proof {
                let pre = cs@.take(i + 1);
                assert(digits_val(pre) == acc as int * 10 + d);
                assert(acc as int * 10 + d > u32::MAX) by (nonlinear_arith)
                    requires
                        acc as int > (u32::MAX as int - d) / 10,
                        0 <= d <= 9,
                        acc as int >= 0,
                ;
                assert forall|p: int| 0 <= p < i + 1 implies is_digit_char(
                    #[trigger] cs@[p],
                ) by {}
                if forall|p: int| 0 <= p < n ==> is_digit_char(#[trigger] cs@[p]) {
                    lemma_digits_val_prefix(cs@, i + 1);
                    assert(digits_val(cs@) > u32::MAX);
                }
            }
            return None;
        }
        proof {
            assert(acc as int * 10 + d <= u32::MAX) by (nonlinear_arith)
                requires
                    acc as int <= (u32::MAX as int - d) / 10,
                    0 <= d <= 9,
                    acc as int >= 0,
            ;
        }
        acc = acc * 10 + d;
        i = i + 1;
    }
    proof {
        assert(cs@.take(n as int) =~= cs@);
        lemma_digits_val_nonneg(cs@);
    }
    Some(acc)
}

} // verus!
