//! Stable, well-distributed string hashing.
//!
//! The cache keys rows by a digest of the normalized query and the embedder
//! buckets tokens by a hash, so both need a hash that gives the same value
//! in every process and on every platform.  This is the 64-bit FNV-1a fold,
//! applied to the characters' code points, with its standard offset basis
//! and prime.

use vstd::prelude::*;

verus! {

/// FNV-1a 64-bit offset basis.
pub const FNV_OFFSET: u64 = 0xcbf2_9ce4_8422_2325;

/// FNV-1a 64-bit prime.
pub const FNV_PRIME: u64 = 0x100_0000_01b3;

/// One FNV-1a round: fold one code point into the state.
pub open spec fn fnv_step(h: u64, c: char) -> u64 {
    (h ^ (c as u64)).wrapping_mul(FNV_PRIME)
}

/// The FNV-1a hash of a character sequence.
pub open spec fn fnv_chars(s: Seq<char>) -> u64
    decreases s.len(),
{
    if s.len() == 0 {
        FNV_OFFSET
    } else {
        fnv_step(fnv_chars(s.drop_last()), s.last())
    }
}

/// The FNV-1a hash of the characters of `s`.
pub fn fnv_hash(s: &Vec<char>) -> (r: u64)
    ensures
        r == fnv_chars(s@),
{
    let n = s.len();
    let mut h: u64 = FNV_OFFSET;
    let mut i: usize = 0;
    proof {
        assert(s@.take(0) =~= Seq::<char>::empty());
    }
    while i < n
        invariant
            n == s@.len(),
            0 <= i <= n,
            h == fnv_chars(s@.take(i as int)),
        decreases n - i,
    {
        h = (h ^ (s[i] as u64)).wrapping_mul(FNV_PRIME);
        proof {
            assert(s@.take(i + 1).drop_last() =~= s@.take(i as int));
            assert(s@.take(i + 1).last() == s@[i as int]);
        }
        i = i + 1;
    }
    proof {
        assert(s@.take(n as int) =~= s@);
    }
    h
}

/// 16 to the power `k`.
pub open spec fn pow16(k: int) -> int
    decreases k,
{
    if k <= 0 {
        1
    } else {
        16 * pow16(k - 1)
    }
}

proof fn lemma_pow16_pos(k: int)
    ensures
        pow16(k) >= 1,
    decreases k,
{
    if k > 0 {
        lemma_pow16_pos(k - 1);
    }
}

/// The lowercase hexadecimal digit for `d` in `[0, 16)`.
pub open spec fn hex_digit(d: int) -> char {
    if d < 10 {
        ((d + 48) as u8) as char
    } else {
        ((d + 87) as u8) as char
    }
}

/// The fixed-width, 16-digit lowercase hexadecimal form of `h`.
pub open spec fn hex16(h: u64) -> Seq<char> {
    Seq::new(16, |i: int| hex_digit((h as int / pow16(15 - i)) % 16))
}

/// Renders `h` as 16 lowercase hexadecimal digits.
pub fn to_hex16(h: u64) -> (r: Vec<char>)
    ensures
        r@ == hex16(h),
{
    let mut v: Vec<char> = Vec::new();
    let mut k: usize = 0;
    while k < 16
        invariant
            v@.len() == k,
            0 <= k <= 16,
            forall|p: int| 0 <= p < k ==> v@[p] == '0',
        decreases 16 - k,
    {
        v.push('0');
        k = k + 1;
    }
    let mut rem: u64 = h;
    let mut j: usize = 0;
    while j < 16
        invariant
            v@.len() == 16,
            0 <= j <= 16,
            rem == h as int / pow16(j as int),
            forall|p: int|
                0 <= p < j ==> #[trigger] v@[15 - p] == hex_digit((h as int / pow16(p)) % 16),
            forall|p: int| j <= p < 16 ==> #[trigger] v@[15 - p] == '0',
        decreases 16 - j,
    {
        let m: u64 = rem % 16;
        let d: u8 = m as u8;
        let c: char = if d < 10 {
            (48 + d) as char
        } else {
            (87 + (d - 10) + 10) as char
        };
        proof {
            assert(c == hex_digit((h as int / pow16(j as int)) % 16));
        }
        v.set(15 - j, c);
        rem = rem / 16;
        proof {
            lemma_pow16_pos(j as int);
            vstd::arithmetic::div_mod::lemma_div_denominator(h as int, pow16(j as int), 16);
            assert(pow16(j as int) * 16 == 16 * pow16(j as int)) by {
                vstd::arithmetic::mul::lemma_mul_is_commutative(pow16(j as int), 16);
            }
            assert(pow16(j as int + 1) == 16 * pow16(j as int));
        }
        j = j + 1;
    }
    proof {
        assert forall|i: int| 0 <= i < 16 implies v@[i] == hex16(h)[i] by {
            let p = 15 - i;
            assert(v@[15 - p] == hex_digit((h as int / pow16(p)) % 16));
        }
        assert(v@ =~= hex16(h));
    }
    v
}

} // verus!
