//! The on-disk form of an embedding: each vector entry as eight
//! little-endian bytes.  A blob whose length is not a multiple of eight,
//! as well as any other malformed value, decodes to nothing; the caller
//! then treats the row as having no embedding.

use vstd::prelude::*;

verus! {

/// 256 to the power `k`.
pub open spec fn pow256(k: int) -> int
    decreases k,
{
    if k <= 0 {
        1
    } else {
        256 * pow256(k - 1)
    }
}

proof fn lemma_pow256_pos(k: int)
    ensures
        pow256(k) >= 1,
    decreases k,
{
    if k > 0 {
        lemma_pow256_pos(k - 1);
    }
}

/// The eight little-endian bytes of `x`.
pub open spec fn u64_le8(x: u64) -> Seq<u8> {
    Seq::new(8, |i: int| ((x as int / pow256(i)) % 256) as u8)
}

/// The value the eight little-endian bytes `b` stand for.
pub open spec fn u64_of_le8(b: Seq<u8>) -> u64
    decreases b.len(),
{
    if b.len() == 0 {
        0
    } else {
        (b[0] + 256 * u64_of_le8(b.drop_first())) as u64
    }
}

/// The byte encoding of an embedding vector.
pub open spec fn blob_of(v: Seq<i64>) -> Seq<u8>
    decreases v.len(),
{
    if v.len() == 0 {
        Seq::empty()
    } else {
        u64_le8(v[0] as u64) + blob_of(v.drop_first())
    }
}

/// What a blob decodes to: one vector entry per eight bytes, or nothing
/// when the length is not a multiple of eight.
pub open spec fn blob_decode_spec(b: Seq<u8>) -> Option<Seq<i64>> {
    if b.len() % 8 != 0 {
        None
    } else {
        Some(Seq::new(b.len() / 8, |i: int| u64_of_le8(b.subrange(8 * i, 8 * i + 8)) as i64))
    }
}

/// Writes the eight little-endian bytes of `x`.
fn push_u64_le(out: &mut Vec<u8>, x: u64)
    ensures
        final(out)@ == old(out)@ + u64_le8(x),
{
    let mut rem: u64 = x;
    let mut k: usize = 0;
    let ghost base = out@;
    while k < 8
        invariant
            0 <= k <= 8,
            rem == x as int / pow256(k as int),
            out@.len() == base.len() + k,
            out@.subrange(0, base.len() as int) == base,
            forall|p: int|
                0 <= p < k ==> #[trigger] out@[base.len() + p] == ((x as int / pow256(p))
                    % 256) as u8,
        decreases 8 - k,
    {
        let b: u8 = (rem % 256) as u8;
        out.push(b);
        rem = rem / 256;
        proof {
            lemma_pow256_pos(k as int);
            vstd::arithmetic::div_mod::lemma_div_denominator(x as int, pow256(k as int), 256);
            assert(pow256(k as int) * 256 == 256 * pow256(k as int)) by (nonlinear_arith);
            assert(pow256(k as int + 1) == 256 * pow256(k as int));
            assert(out@.subrange(0, base.len() as int) =~= base);
        }
        k = k + 1;
    }
    proof {
        assert forall|q: int| 0 <= q < base.len() implies out@[q] == base[q] by {
            assert(out@.subrange(0, base.len() as int)[q] == out@[q]);
        }
        assert forall|j: int| base.len() <= j < out@.len() implies out@[j] == u64_le8(x)[j
            - base.len()] by {
            let p = j - base.len();
            assert(out@[base.len() + p] == ((x as int / pow256(p)) % 256) as u8);
        }
        assert(out@ =~= base + u64_le8(x));
    }
}

/// Encodes an embedding vector as bytes.
pub fn blob_encode(v: &Vec<i64>) -> (r: Vec<u8>)
    ensures
        r@ == blob_of(v@),
{
    let n = v.len();
    let mut out: Vec<u8> = Vec::new();
    let mut i: usize = 0;
    proof {
        assert(v@.skip(0) =~= v@);
        assert(out@ + blob_of(v@.skip(0)) =~= blob_of(v@));
    }
    while i < n
        invariant
            n == v@.len(),
            0 <= i <= n,
            out@ + blob_of(v@.skip(i as int)) == blob_of(v@),
        decreases n - i,
    {
        proof {
            assert(v@.skip(i as int)[0] == v@[i as int]);
            assert(v@.skip(i as int).drop_first() =~= v@.skip(i as int + 1));
        }
        push_u64_le(&mut out, v[i] as u64);
        proof {
            assert(out@ + blob_of(v@.skip(i as int + 1)) =~= blob_of(v@));
        }
        i = i + 1;
    }
    proof {
        assert(v@.skip(n as int) =~= Seq::<i64>::empty());
        assert(out@ + blob_of(v@.skip(n as int)) =~= out@);
    }
    out
}

/// Reads the value of eight little-endian bytes starting at `at`.
fn read_u64_le(b: &Vec<u8>, at: usize) -> (r: u64)
    requires
        at + 8 <= b@.len(),
    ensures
        r == u64_of_le8(b@.subrange(at as int, at as int + 8)),
{
    let bl = b.len();
    let mut acc: u64 = 0;
    let mut k: usize = 8;
    while k > 0
        invariant
            0 <= k <= 8,
            bl == b@.len(),
            at + 8 <= bl,
            acc == u64_of_le8(b@.subrange(at + k, at as int + 8)),
            acc < pow256(8 - k),
        decreases k,
    {
        proof {
            lemma_pow256_pos(8 - (k as int));
            let w = b@.subrange(at + k - 1, at as int + 8);
            assert(w[0] == b@[at + k - 1]);
            assert(w.drop_first() =~= b@.subrange(at + k, at as int + 8));
            assert((b@[at + k - 1] as int) + 256 * (acc as int) < 256 * pow256(8 - (k as int)))
                by (nonlinear_arith)
                requires
                    b@[at + k - 1] < 256,
                    0 <= acc as int,
                    (acc as int) < pow256(8 - (k as int)),
                    pow256(8 - (k as int)) >= 1,
            ;
            assert(256 * pow256(8 - (k as int)) == pow256(8 - (k as int - 1)));
            assert(pow256(8) == 0x1_0000_0000_0000_0000) by {
                reveal_with_fuel(pow256, 9);
            }
            assert(pow256(8 - (k as int - 1)) <= pow256(8)) by {
                lemma_pow256_increases(8 - (k as int - 1), 8);
            }
        }
        k = k - 1;
        acc = (b[at + k] as u64) + 256 * acc;
    }
    proof {
        assert(b@.subrange(at as int, at as int + 8) =~= b@.subrange(at + 0, at as int + 8));
    }
    acc
}

proof fn lemma_pow256_increases(a: int, b: int)
    requires
        a <= b,
    ensures
        pow256(a) <= pow256(b),
    decreases b,
{
    if a < b && b > 0 {
        lemma_pow256_increases(a, b - 1);
        lemma_pow256_pos(b - 1);
    }
}

/// Decodes a stored blob back into an embedding vector, or nothing when
/// the blob is malformed.
pub fn blob_decode(b: &Vec<u8>) -> (r: Option<Vec<i64>>)
    ensures
        match r {
            Some(v) => blob_decode_spec(b@) == Some(v@),
            None => blob_decode_spec(b@) is None,
        },
{
    let len = b.len();
    if len % 8 != 0 {
        return None;
    }
    let n = len / 8;
    let mut out: Vec<i64> = Vec::new();
    let mut i: usize = 0;
    while i < n
        invariant
            len == b@.len(),
            len % 8 == 0,
            n == len / 8,
            0 <= i <= n,
            out@.len() == i,
            forall|p: int|
                0 <= p < i ==> #[trigger] out@[p] == u64_of_le8(
                    b@.subrange(8 * p, 8 * p + 8),
                ) as i64,
        decreases n - i,
    {
        let x = read_u64_le(b, 8 * i);
        out.push(x as i64);
        i = i + 1;
    }
    proof {
        let d = blob_decode_spec(b@);
        assert(d is Some);
        assert(out@ =~= d.unwrap());
    }
    Some(out)
}

/// Encoding then decoding an embedding gives the embedding back.
pub proof fn lemma_blob_round_trip(v: Seq<i64>)
    ensures
        blob_decode_spec(blob_of(v)) == Some(v),
    decreases v.len(),
{
    lemma_blob_len(v);
    let b = blob_of(v);
    assert(b.len() % 8 == 0) by {
        assert(b.len() == 8 * v.len());
    }
    let d = blob_decode_spec(b).unwrap();
    assert forall|i: int| 0 <= i < v.len() implies d[i] == v[i] by {
        lemma_blob_slice(v, i);
        lemma_le8_round_trip(#[verifier::truncate] (v[i] as u64));
        assert(d[i] == u64_of_le8(b.subrange(8 * i, 8 * i + 8)) as i64);
        assert(b.subrange(8 * i, 8 * i + 8) == u64_le8(#[verifier::truncate] (v[i] as u64)));
        let x = v[i];
        assert(((x as u64) as i64) == x) by (bit_vector);
    }
    assert(d =~= v);
}

/// The encoding of `v` is eight bytes per entry.
proof fn lemma_blob_len(v: Seq<i64>)
    ensures
        blob_of(v).len() == 8 * v.len(),
    decreases v.len(),
{
    if v.len() > 0 {
        lemma_blob_len(v.drop_first());
    }
}

/// Entry `i` of `v` occupies bytes `8i .. 8i+8` of the encoding.
proof fn lemma_blob_slice(v: Seq<i64>, i: int)
    requires
        0 <= i < v.len(),
    ensures
        blob_of(v).subrange(8 * i, 8 * i + 8) == u64_le8(v[i] as u64),
    decreases i,
{
    lemma_blob_len(v);
    lemma_blob_len(v.drop_first());
    if i == 0 {
        assert(blob_of(v).subrange(0, 8) =~= u64_le8(v[0] as u64));
    } else {
        lemma_blob_slice(v.drop_first(), i - 1);
        assert(blob_of(v).subrange(8 * i, 8 * i + 8) =~= blob_of(v.drop_first()).subrange(
            8 * (i - 1),
            8 * (i - 1) + 8,
        ));
        assert(v.drop_first()[i - 1] == v[i]);
    }
}

/// Reading back the eight little-endian bytes of `x` gives `x`.
proof fn lemma_le8_round_trip(x: u64)
    ensures
        u64_of_le8(u64_le8(x)) == x,
{
    lemma_le8_round_trip_from(x, 0);
    assert(u64_le8(x).subrange(0, 8) =~= u64_le8(x));
    assert(x as int / pow256(0) == x as int);
}

/// Reading the bytes from position `k` on gives `x / 256^k`.
proof fn lemma_le8_round_trip_from(x: u64, k: int)
    requires
        0 <= k <= 8,
    ensures
        u64_of_le8(u64_le8(x).subrange(k, 8)) == x as int / pow256(k),
    decreases 8 - k,
{
    lemma_pow256_pos(k);
    if k == 8 {
        assert(u64_le8(x).subrange(8, 8) =~= Seq::<u8>::empty());
        assert(pow256(8) == 0x1_0000_0000_0000_0000) by {
            reveal_with_fuel(pow256, 9);
        }
        vstd::arithmetic::div_mod::lemma_basic_div(x as int, pow256(8));
    } else {
        let w = u64_le8(x).subrange(k, 8);
        assert(w[0] == u64_le8(x)[k]);
        assert(w.drop_first() =~= u64_le8(x).subrange(k + 1, 8));
        lemma_le8_round_trip_from(x, k + 1);
        let q = x as int / pow256(k);
        vstd::arithmetic::div_mod::lemma_div_denominator(x as int, pow256(k), 256);
        assert(pow256(k) * 256 == 256 * pow256(k)) by (nonlinear_arith);
        assert(pow256(k + 1) == 256 * pow256(k));
        assert(x as int / pow256(k + 1) == q / 256);
        vstd::arithmetic::div_mod::lemma_fundamental_div_mod(q, 256);
        assert(u64_of_le8(w) == (q % 256) + 256 * (q / 256));
        assert(q >= 0) by {
            vstd::arithmetic::div_mod::lemma_div_pos_is_pos(x as int, pow256(k));
        }
        assert(q % 256 + 256 * (q / 256) == q);
    }
}

} // verus!
