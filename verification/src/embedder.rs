//! Deterministic, model-free text embedding and cosine similarity.
//!
//! Text maps to a fixed-length vector by feature hashing: tokens and
//! character trigrams are bucketed by the stable hash of `strhash`.  All
//! arithmetic is fixed point: the rational value `x` is represented by the
//! integer `x * SCALE`, so a unit-length vector holds values in
//! `[0, SCALE]` and a cosine similarity lies in `[-SCALE, SCALE]`.

use vstd::prelude::*;
use crate::chars::{
    lemma_sum_len_nonneg, lemma_sum_len_concat, lemma_sum_len_prefix, lemma_sum_len_singleton,
    lemma_toks_size, lower_of, lowercase, split_tokens, string_to_chars, sum_len, tokens_of,
};
use crate::error::CyxError;
use crate::strhash::{fnv_chars, fnv_hash};

verus! {

broadcast use vstd::seq_lib::group_to_multiset_ensures;

/// The fixed-point scale: this integer stands for the rational 1.0.
pub const SCALE: i64 = 65536;

/// Inputs longer than this many characters are not embedded; they get the
/// zero vector, which never reaches any similarity threshold.
pub const EMBED_MAX_CHARS: usize = 3000000;

/// The largest embedding dimension the embedder accepts.
pub const MAX_DIMENSIONS: usize = 65536;

/// The largest magnitude of a vector entry that `cosine_similarity`
/// accepts; every normalized embedding is far inside it.
pub const MAX_COMPONENT: i64 = 8388608;

/// Division truncating toward zero, as machine division does; `b` is
/// expected positive.
pub open spec fn tdiv(a: int, b: int) -> int {
    if a >= 0 {
        a / b
    } else {
        -((-a) / b)
    }
}

/// `x` clamped to `[lo, hi]`.
pub open spec fn clamp(x: int, lo: int, hi: int) -> int {
    if x < lo {
        lo
    } else if x > hi {
        hi
    } else {
        x
    }
}

/// The dot product of two equally long vectors (0 past the shorter end).
pub open spec fn dotp(a: Seq<i64>, b: Seq<i64>) -> int
    decreases a.len(),
{
    if a.len() == 0 || b.len() == 0 {
        0
    } else {
        a.last() * b.last() + dotp(a.drop_last(), b.drop_last())
    }
}

/// The sum of squares of a vector's entries.
pub open spec fn sumsq(a: Seq<i64>) -> int {
    dotp(a, a)
}

proof fn lemma_sumsq_nonneg(a: Seq<i64>)
    ensures
        sumsq(a) >= 0,
    decreases a.len(),
{
    if a.len() > 0 {
        lemma_sumsq_nonneg(a.drop_last());
        assert(a.last() * a.last() >= 0) by (nonlinear_arith);
    }
}

proof fn lemma_sumsq_element(a: Seq<i64>, k: int)
    requires
        0 <= k < a.len(),
    ensures
        a[k] * a[k] <= sumsq(a),
    decreases a.len(),
{
    if k == a.len() - 1 {
        lemma_sumsq_nonneg(a.drop_last());
        assert(a.last() == a[k]);
    } else {
        lemma_sumsq_element(a.drop_last(), k);
        assert(a.drop_last()[k] == a[k]);
        assert(a.last() * a.last() >= 0) by (nonlinear_arith);
    }
}

/// The integer square root: the largest `r` with `r * r <= n`.
pub open spec fn isqrt_spec(n: int) -> int
    decreases n,
{
    if n <= 0 {
        0
    } else {
        let r = isqrt_spec(n - 1);
        if (r + 1) * (r + 1) <= n {
            r + 1
        } else {
            r
        }
    }
}

pub proof fn lemma_isqrt_bounds(n: int)
    requires
        n >= 0,
    ensures
        isqrt_spec(n) >= 0,
        isqrt_spec(n) * isqrt_spec(n) <= n,
        n < (isqrt_spec(n) + 1) * (isqrt_spec(n) + 1),
    decreases n,
{
    if n == 0 {
    } else {
        lemma_isqrt_bounds(n - 1);
        let r = isqrt_spec(n - 1);
        if (r + 1) * (r + 1) <= n {
            assert(n - 1 < (r + 1) * (r + 1));
            assert(n < (r + 2) * (r + 2)) by (nonlinear_arith)
                requires
                    n <= (r + 1) * (r + 1),
                    r >= 0,
            ;
        }
    }
}

pub proof fn lemma_isqrt_unique(n: int, r: int)
    requires
        n >= 0,
        r >= 0,
        r * r <= n,
        n < (r + 1) * (r + 1),
    ensures
        r == isqrt_spec(n),
{
    lemma_isqrt_bounds(n);
    let s = isqrt_spec(n);
    if r < s {
        assert((r + 1) * (r + 1) <= s * s) by (nonlinear_arith)
            requires
                0 <= r,
                r + 1 <= s,
        ;
    }
    if s < r {
        assert((s + 1) * (s + 1) <= r * r) by (nonlinear_arith)
            requires
                0 <= s,
                s + 1 <= r,
        ;
    }
}

/// The integer square root of `n`.
pub fn isqrt(n: u128) -> (r: u64)
    requires
        n < (1u128 << 126),
    ensures
        r == isqrt_spec(n as int),
{
    proof {
        assert((1u128 << 126) == 0x4000_0000_0000_0000_0000_0000_0000_0000u128) by (bit_vector);
        assert((1u128 << 63) == 0x8000_0000_0000_0000u128) by (bit_vector);
    }
    let mut lo: u128 = 0;
    let mut hi: u128 = 1u128 << 63;
    proof {
        assert(hi * hi == 0x4000_0000_0000_0000_0000_0000_0000_0000) by (nonlinear_arith)
            requires
                hi == 0x8000_0000_0000_0000u128,
        ;
    }
    while lo + 1 < hi
        invariant
            0 <= lo < hi,
            hi <= 0x8000_0000_0000_0000u128,
            lo * lo <= n,
            n < hi * hi,
        decreases hi - lo,
    {
        let mid: u128 = lo + (hi - lo) / 2;
        proof {
            assert(mid * mid < 0x4000_0000_0000_0000_0000_0000_0000_0000u128) by (nonlinear_arith)
                requires
                    mid < 0x8000_0000_0000_0000u128,
            ;
        }
        if mid * mid <= n {
            lo = mid;
        } else {
            hi = mid;
        }
    }
    proof {
        assert(hi == lo + 1);
        lemma_isqrt_unique(n as int, lo as int);
    }
    lo as u64
}

/// The fixed-point cosine similarity of `a` and `b`: their dot product
/// over the product of their norms, scaled by `SCALE` and clamped to
/// `[-SCALE, SCALE]`; `0` when the lengths differ or either vector has
/// zero norm.
pub open spec fn cosine_spec(a: Seq<i64>, b: Seq<i64>) -> i64 {
    if a.len() != b.len() {
        0
    } else {
        let p = sumsq(a) * sumsq(b);
        if p == 0 {
            0
        } else {
            clamp(tdiv(dotp(a, b) * SCALE, isqrt_spec(p)), -(SCALE as int), SCALE as int) as i64
        }
    }
}

/// Whether every entry of `v` is small enough for `cosine_similarity`.
pub open spec fn bounded_vec(v: Seq<i64>) -> bool {
    v.len() <= MAX_DIMENSIONS && forall|i: int|
        0 <= i < v.len() ==> -MAX_COMPONENT <= #[trigger] v[i] <= MAX_COMPONENT
}

/// The cosine similarity of two vectors, in fixed point: `SCALE` stands
/// for 1.0.  Mismatched lengths and zero-norm vectors give 0, not an
/// error.
pub fn cosine_similarity(a: &[i64], b: &[i64]) -> (r: i64)
    requires
        bounded_vec(a@),
        bounded_vec(b@),
    ensures
        r == cosine_spec(a@, b@),
{
    if a.len() != b.len() {
        return 0;
    }
    let n = a.len();
    let mut dot: i128 = 0;
    let mut sa: i128 = 0;
    let mut sb: i128 = 0;
    let mut i: usize = 0;
    proof {
        assert(a@.take(0) =~= Seq::<i64>::empty());
        assert(b@.take(0) =~= Seq::<i64>::empty());
    }
    while i < n
        invariant
            n == a@.len(),
            n == b@.len(),
            bounded_vec(a@),
            bounded_vec(b@),
            0 <= i <= n,
            dot == dotp(a@.take(i as int), b@.take(i as int)),
            sa == sumsq(a@.take(i as int)),
            sb == sumsq(b@.take(i as int)),
            -(i as int) * 0x4000_0000_0000 <= dot <= (i as int) * 0x4000_0000_0000,
            0 <= sa <= (i as int) * 0x4000_0000_0000,
            0 <= sb <= (i as int) * 0x4000_0000_0000,
        decreases n - i,
    {
        let x = a[i];
        let y = b[i];
        proof {
            assert(a@.take(i + 1).drop_last() =~= a@.take(i as int));
            assert(b@.take(i + 1).drop_last() =~= b@.take(i as int));
            assert(a@.take(i + 1).last() == a@[i as int]);
            assert(b@.take(i + 1).last() == b@[i as int]);
            assert(-0x4000_0000_0000 <= (x as int) * (y as int) <= 0x4000_0000_0000)
                by (nonlinear_arith)
                requires
                    -0x80_0000 <= x as int <= 0x80_0000,
                    -0x80_0000 <= y as int <= 0x80_0000,
            ;
            assert(0 <= (x as int) * (x as int) <= 0x4000_0000_0000) by (nonlinear_arith)
                requires
                    -0x80_0000 <= x as int <= 0x80_0000,
            ;
            assert(0 <= (y as int) * (y as int) <= 0x4000_0000_0000) by (nonlinear_arith)
                requires
                    -0x80_0000 <= y as int <= 0x80_0000,
            ;
        }
        dot = dot + (x as i128) * (y as i128);
        sa = sa + (x as i128) * (x as i128);
        sb = sb + (y as i128) * (y as i128);
        i = i + 1;
    }
    proof {
        assert(a@.take(n as int) =~= a@);
        assert(b@.take(n as int) =~= b@);
    }
    if sa == 0 || sb == 0 {
        proof {
            assert(sumsq(a@) * sumsq(b@) == 0) by (nonlinear_arith)
                requires
                    sumsq(a@) == 0 || sumsq(b@) == 0,
            ;
        }
        return 0;
    }
    proof {
        assert((1u128 << 126) == 0x4000_0000_0000_0000_0000_0000_0000_0000u128) by (bit_vector);
        assert((sa as int) * (sb as int) == sumsq(a@) * sumsq(b@));
        assert(0 < (sa as int) * (sb as int)
            < 0x4000_0000_0000_0000_0000_0000_0000_0000) by (nonlinear_arith)
            requires
                0 < sa as int <= 0x4000_0000_0000_0000,
                0 < sb as int <= 0x4000_0000_0000_0000,
        ;
    }
    let p: u128 = (sa as u128) * (sb as u128);
    let den: u64 = isqrt(p);
    proof {
        lemma_isqrt_bounds(p as int);
        assert(den >= 1) by (nonlinear_arith)
            requires
                den as int == isqrt_spec(p as int),
                isqrt_spec(p as int) * isqrt_spec(p as int) <= p as int,
                p as int >= 1,
                (isqrt_spec(p as int) + 1) * (isqrt_spec(p as int) + 1) > p as int,
                isqrt_spec(p as int) >= 0,
        ;
    }
    let neg = dot < 0;
    let mag: u128 = if neg {
        (-dot) as u128
    } else {
        dot as u128
    };
    let num: u128 = mag * (SCALE as u128);
    proof {
        assert(mag * (SCALE as u128) == mag * 65536) by (nonlinear_arith)
            requires
                SCALE as u128 == 65536,
        ;
        assert(mag <= 0x4000_0000_0000_0000);
        assert(mag * 65536 <= 0x4000_0000_0000_0000 * 65536) by (nonlinear_arith)
            requires
                mag <= 0x4000_0000_0000_0000u128,
        ;
    }
    let q: u128 = num / (den as u128);
    let clamped: i64 = if q >= (SCALE as u128) {
        SCALE
    } else {
        q as i64
    };
    let result = if neg {
        -clamped
    } else {
        clamped
    };
    proof {
        let d = dotp(a@, b@);
        let m = mag as int;
        assert(m == if d >= 0 { d } else { -d });
        assert(q == (m * SCALE) / (den as int));
        assert(m * SCALE >= 0) by (nonlinear_arith)
            requires
                m >= 0,
        ;
        vstd::arithmetic::div_mod::lemma_div_is_ordered(0, m * SCALE, den as int);
        if d >= 0 {
            assert(tdiv(d * SCALE, isqrt_spec(p as int)) == q as int);
            assert(result == clamp(tdiv(d * SCALE, isqrt_spec(p as int)), -(SCALE as int), SCALE as int));
        } else {
            assert(d * SCALE == -(m * SCALE)) by (nonlinear_arith)
                requires
                    d == -m,
            ;
            assert(tdiv(d * SCALE, isqrt_spec(p as int)) == -(q as int));
            assert(result == clamp(tdiv(d * SCALE, isqrt_spec(p as int)), -(SCALE as int), SCALE as int));
        }
    }
    result
}

/// Cosine similarity of a vector with itself is exactly 1.0 (`SCALE`),
/// whenever the vector has nonzero norm.
pub proof fn lemma_cosine_self(v: Seq<i64>)
    requires
        sumsq(v) > 0,
    ensures
        cosine_spec(v, v) == SCALE,
{
    let s = sumsq(v);
    let p = s * s;
    assert(s * s > 0 && s * s < (s + 1) * (s + 1)) by (nonlinear_arith)
        requires
            s > 0,
    ;
    lemma_isqrt_unique(p, s);
    assert(isqrt_spec(p) == s);
    assert(dotp(v, v) * SCALE == s * SCALE);
    assert((s * SCALE) / s == SCALE) by (nonlinear_arith)
        requires
            s > 0,
    ;
    assert(tdiv(s * SCALE, s) == SCALE) by {
        assert(s * SCALE >= 0) by (nonlinear_arith)
            requires
                s > 0,
        ;
    }
}

/// Cosine similarity of orthogonal vectors (dot product zero) is 0.
pub proof fn lemma_cosine_orthogonal(a: Seq<i64>, b: Seq<i64>)
    requires
        a.len() == b.len(),
        dotp(a, b) == 0,
    ensures
        cosine_spec(a, b) == 0,
{
    let p = sumsq(a) * sumsq(b);
    if p != 0 {
        lemma_sumsq_nonneg(a);
        lemma_sumsq_nonneg(b);
        assert(p > 0) by (nonlinear_arith)
            requires
                p == sumsq(a) * sumsq(b),
                sumsq(a) >= 0,
                sumsq(b) >= 0,
                p != 0,
        ;
        lemma_isqrt_bounds(p);
        assert(isqrt_spec(p) >= 1) by (nonlinear_arith)
            requires
                isqrt_spec(p) >= 0,
                isqrt_spec(p) * isqrt_spec(p) <= p,
                (isqrt_spec(p) + 1) * (isqrt_spec(p) + 1) > p,
                p >= 1,
        ;
        assert(tdiv(0, isqrt_spec(p)) == 0) by {
            assert(0int / isqrt_spec(p) == 0);
        }
    }
}

proof fn lemma_dotp_negated(a: Seq<i64>, b: Seq<i64>)
    requires
        a.len() == b.len(),
        forall|i: int| 0 <= i < b.len() ==> #[trigger] b[i] == -a[i] && a[i] != i64::MIN,
    ensures
        dotp(a, b) == -sumsq(a),
        sumsq(b) == sumsq(a),
    decreases a.len(),
{
    if a.len() > 0 {
        let a1 = a.drop_last();
        let b1 = b.drop_last();
        assert(forall|i: int| 0 <= i < b1.len() ==> #[trigger] b1[i] == -a1[i] && a1[i]
            != i64::MIN);
        lemma_dotp_negated(a1, b1);
        assert(b.last() == -a.last());
        assert(a.last() * b.last() == -(a.last() * a.last())) by (nonlinear_arith)
            requires
                b.last() == -a.last(),
        ;
        assert(b.last() * b.last() == a.last() * a.last()) by (nonlinear_arith)
            requires
                b.last() == -a.last(),
        ;
    }
}

/// Cosine similarity of a vector and its negation is exactly -1.0
/// (`-SCALE`), whenever the vector has nonzero norm.
pub proof fn lemma_cosine_opposite(a: Seq<i64>, b: Seq<i64>)
    requires
        a.len() == b.len(),
        sumsq(a) > 0,
        forall|i: int| 0 <= i < b.len() ==> #[trigger] b[i] == -a[i] && a[i] != i64::MIN,
    ensures
        cosine_spec(a, b) == -SCALE,
{
    lemma_dotp_negated(a, b);
    let s = sumsq(a);
    let p = s * s;
    assert(s * s > 0 && s * s < (s + 1) * (s + 1)) by (nonlinear_arith)
        requires
            s > 0,
    ;
    lemma_isqrt_unique(p, s);
    assert(dotp(a, b) * SCALE == -(s * SCALE)) by (nonlinear_arith)
        requires
            dotp(a, b) == -s,
    ;
    assert((s * SCALE) / s == SCALE) by (nonlinear_arith)
        requires
            s > 0,
    ;
    assert(s * SCALE >= 0) by (nonlinear_arith)
        requires
            s > 0,
    ;
    assert(tdiv(-(s * SCALE), s) == -SCALE);
}

/// Cosine similarity of vectors of different lengths is 0, by definition
/// and by the code.
pub proof fn lemma_cosine_length_mismatch(a: Seq<i64>, b: Seq<i64>)
    requires
        a.len() != b.len(),
    ensures
        cosine_spec(a, b) == 0,
{
}

proof fn lemma_udiv_le(x: int, y: int)
    requires
        x >= 0,
        y >= 1,
    ensures
        0 <= x / y <= x,
{
    vstd::arithmetic::div_mod::lemma_div_is_ordered_by_denominator(x, 1, y);
    vstd::arithmetic::div_mod::lemma_div_pos_is_pos(x, y);
}

/// The all-zero vector of the given dimension.
pub open spec fn zero_seq(dims: int) -> Seq<i64> {
    Seq::new(dims as nat, |i: int| 0i64)
}

/// The slot a token or trigram lands in: its stable hash, reduced modulo
/// the dimension.
pub open spec fn slot_of(t: Seq<char>, dims: int) -> int {
    (fnv_chars(t) as int) % dims
}

/// `v` with `amt` added into slot `idx`.
pub open spec fn bump(v: Seq<i64>, idx: int, amt: int) -> Seq<i64> {
    v.update(idx, (v[idx] + amt) as i64)
}

/// The token pass from position `i` on: token `i` adds `SCALE / (i + 1)`
/// to its slot, so earlier tokens weigh more.
pub open spec fn word_pass(v: Seq<i64>, ts: Seq<Seq<char>>, i: int, dims: int) -> Seq<i64>
    decreases ts.len() - i,
{
    if i < 0 || i >= ts.len() {
        v
    } else {
        word_pass(bump(v, slot_of(ts[i], dims), (SCALE as int) / (i + 1)), ts, i + 1, dims)
    }
}

/// The trigram pass over one token from window start `j` on: every
/// three-character window adds `SCALE / 2` to its slot.
pub open spec fn tri_token(v: Seq<i64>, t: Seq<char>, j: int, dims: int) -> Seq<i64>
    decreases t.len() - j,
{
    if j < 0 || t.len() < 3 || j > t.len() - 3 {
        v
    } else {
        tri_token(bump(v, slot_of(t.subrange(j, j + 3), dims), (SCALE as int) / 2), t, j + 1, dims)
    }
}

/// The trigram pass over the tokens from index `i` on.
pub open spec fn tri_pass(v: Seq<i64>, ts: Seq<Seq<char>>, i: int, dims: int) -> Seq<i64>
    decreases ts.len() - i,
{
    if i < 0 || i >= ts.len() {
        v
    } else {
        tri_pass(tri_token(v, ts[i], 0, dims), ts, i + 1, dims)
    }
}

/// The two scalar summary features, written into the last two slots when
/// the dimension exceeds 10: mean token length over 10, and token count
/// over 20.
pub open spec fn with_summary(v: Seq<i64>, ts: Seq<Seq<char>>, dims: int) -> Seq<i64> {
    if dims > 10 {
        let cnt = ts.len() as int;
        let avg_slot = if cnt == 0 {
            0
        } else {
            sum_len(ts) * (SCALE as int) / (10 * cnt)
        };
        v.update(dims - 1, avg_slot as i64).update(dims - 2, (cnt * (SCALE as int) / 20) as i64)
    } else {
        v
    }
}

/// Fixed-point L2 normalization: each entry becomes
/// `entry * SCALE / norm` where `norm` is the integer square root of the
/// sum of squares; the zero vector stays unchanged.
pub open spec fn norm_seq(v: Seq<i64>) -> Seq<i64> {
    if sumsq(v) == 0 {
        v
    } else {
        Seq::new(v.len(), |i: int| ((v[i] * (SCALE as int)) / isqrt_spec(sumsq(v))) as i64)
    }
}

/// The embedding of already-lowercased text `s` in dimension `dims`:
/// the token pass, the trigram pass, the summary features, then
/// normalization.  Oversized text gets the zero vector, which matches
/// nothing in a similarity scan.
pub open spec fn embed_spec(s: Seq<char>, dims: int) -> Seq<i64> {
    if s.len() > EMBED_MAX_CHARS {
        zero_seq(dims)
    } else {
        let ts = tokens_of(s);
        norm_seq(
            with_summary(tri_pass(word_pass(zero_seq(dims), ts, 0, dims), ts, 0, dims), ts, dims),
        )
    }
}

/// Lightweight feature-hashing embedder; no model files involved.
pub struct Embedder {
    dimensions: usize,
}

impl Embedder {
    /// The embedding dimension this embedder produces.
    pub closed spec fn spec_dimensions(&self) -> int {
        self.dimensions as int
    }

    /// A usable embedder: dimension at least 1 and within bounds.
    pub open spec fn wf(&self) -> bool {
        1 <= self.spec_dimensions() <= MAX_DIMENSIONS as int
    }

    /// A feature-hashing embedder of the given dimension.
    pub fn new_simple(dimensions: usize) -> (r: Embedder)
        requires
            1 <= dimensions <= MAX_DIMENSIONS,
        ensures
            r.wf(),
            r.spec_dimensions() == dimensions,
    {
        Embedder { dimensions }
    }

    pub fn dimensions(&self) -> (r: usize)
        ensures
            r == self.spec_dimensions(),
    {
        self.dimensions
    }

    /// The dimension used when none is configured.
    pub fn get_default_dimensions() -> (r: usize)
        ensures
            r == 256,
    {
        256
    }

    /// The embedding of `text`: the text is lowercased, split into
    /// whitespace tokens, and feature-hashed as `embed_spec` describes.
    pub fn embed(&self, text: &str) -> (r: Vec<i64>)
        requires
            self.wf(),
        ensures
            r@.len() == self.spec_dimensions(),
            r@ == embed_spec(lower_of(text@), self.spec_dimensions()),
            forall|k: int| 0 <= k < r@.len() ==> 0 <= #[trigger] r@[k] <= SCALE,
            bounded_vec(r@),
    {
        let dims = self.dimensions;
        let ghost dd = dims as int;
        let lowered = lowercase(text);
        let cs = string_to_chars(lowered.as_str());
        let ghost s = lower_of(text@);
        let mut v: Vec<i64> = Vec::new();
        let mut z: usize = 0;
        while z < dims
            invariant
                0 <= z <= dims,
                v@.len() == z,
                forall|k: int| 0 <= k < z ==> v@[k] == 0i64,
            decreases dims - z,
        {
            v.push(0);
            z = z + 1;
        }
        proof {
            assert(v@ =~= zero_seq(dd));
        }
        if cs.len() > EMBED_MAX_CHARS {
            proof {
                assert(embed_spec(s, dd) == zero_seq(dd));
            }
            return v;
        }
        let tokens = split_tokens(&cs);
        let ghost ts = tokens_of(s);
        proof {
            assert(tokens.deep_view() == ts);
            lemma_toks_size(s, Seq::empty());
            assert(ts.len() <= s.len());
            assert(sum_len(ts) <= s.len());
            lemma_sum_len_nonneg(ts);
        }
        let nt = tokens.len();
        let ghost after_words = word_pass(zero_seq(dd), ts, 0, dd);
        let mut i: usize = 0;
        while i < nt
            invariant
                self.wf(),
                dims == self.dimensions,
                dd == dims as int,
                1 <= dims <= MAX_DIMENSIONS,
                nt == tokens@.len(),
                nt == ts.len(),
                nt <= EMBED_MAX_CHARS,
                ts == tokens.deep_view(),
                forall|j: int| 0 <= j < nt ==> tokens.deep_view()[j] == tokens@[j]@,
                0 <= i <= nt,
                v@.len() == dd,
                after_words == word_pass(v@, ts, i as int, dd),
                forall|k: int| 0 <= k < dd ==> 0 <= #[trigger] v@[k] <= (i as int) * 65536,
            decreases nt - i,
        {
            let h = fnv_hash(&tokens[i]);
            let idx = (h % (dims as u64)) as usize;
            let add_u: u64 = 65536u64 / (i as u64 + 1);
            proof {
                assert(ts[i as int] == tokens@[i as int]@);
                assert(idx as int == slot_of(ts[i as int], dd));
                lemma_udiv_le(65536, i as int + 1);
                assert(add_u as int == (SCALE as int) / (i as int + 1));
            }
            let cur = v[idx];
            proof {
                assert(0 <= cur as int <= (i as int) * 65536);
                assert((i as int) * 65536 + 65536 == (i as int + 1) * 65536) by (nonlinear_arith);
                assert((i as int + 1) * 65536 <= (nt as int) * 65536) by (nonlinear_arith)
                    requires
                        i as int + 1 <= nt as int,
                ;
                assert((nt as int) * 65536 <= 3000000 * 65536) by (nonlinear_arith)
                    requires
                        nt as int <= 3000000,
                ;
            }
            let newval: i64 = cur + (add_u as i64);
            let ghost oldv = v@;
            v.set(idx, newval);
            proof {
                assert(v@ == bump(oldv, idx as int, add_u as int));
                assert(word_pass(oldv, ts, i as int, dd) == word_pass(v@, ts, i as int + 1, dd));
                assert forall|k: int| 0 <= k < dd implies 0 <= #[trigger] v@[k] <= (i as int + 1)
                    * 65536 by {
                    assert((i as int) * 65536 + 65536 == (i as int + 1) * 65536)
                        by (nonlinear_arith);
                    if k != idx as int {
                        assert(v@[k] == oldv[k]);
                        assert((i as int) * 65536 <= (i as int + 1) * 65536) by (nonlinear_arith);
                    }
                }
            }
            i = i + 1;
        }
        proof {
            assert(after_words == v@);
        }
        let ghost after_tris = tri_pass(v@, ts, 0, dd);
        let ghost words_bound = (nt as int) * 65536;
        let mut i: usize = 0;
        while i < nt
            invariant
                self.wf(),
                dims == self.dimensions,
                dd == dims as int,
                1 <= dims <= MAX_DIMENSIONS,
                nt == tokens@.len(),
                nt == ts.len(),
                nt <= EMBED_MAX_CHARS,
                sum_len(ts) <= 3000000,
                words_bound == (nt as int) * 65536,
                words_bound <= 3000000 * 65536,
                ts == tokens.deep_view(),
                forall|j: int| 0 <= j < nt ==> tokens.deep_view()[j] == tokens@[j]@,
                0 <= i <= nt,
                v@.len() == dd,
                after_tris == tri_pass(v@, ts, i as int, dd),
                forall|k: int|
                    0 <= k < dd ==> 0 <= #[trigger] v@[k] <= words_bound + sum_len(
                        ts.take(i as int),
                    ) * 65536,
            decreases nt - i,
        {
            let tl = tokens[i].len();
            let ghost t = ts[i as int];
            let ghost enter = v@;
            let ghost tok_target = tri_token(enter, t, 0, dd);
            let ghost base_bound = words_bound + sum_len(ts.take(i as int)) * 65536;
            proof {
                assert(t == tokens@[i as int]@);
                assert(tl == t.len());
                lemma_sum_len_prefix(ts, i as int);
                lemma_sum_len_nonneg(ts.take(i as int));
                assert(ts.take(i as int) + ts.skip(i as int) =~= ts);
                lemma_sum_len_concat(ts.take(i as int), ts.skip(i as int));
                assert(ts.skip(i as int)[0] == ts[i as int]);
                assert(ts.skip(i as int).drop_first() =~= ts.skip(i as int + 1));
                lemma_sum_len_nonneg(ts.skip(i as int + 1));
                assert(sum_len(ts.skip(i as int)) >= t.len());
                assert(sum_len(ts.take(i as int)) <= 3000000);
                assert(sum_len(ts.take(i as int)) * 65536 <= 3000000 * 65536) by (nonlinear_arith)
                    requires
                        0 <= sum_len(ts.take(i as int)) <= 3000000,
                ;
            }
            if tl >= 3 {
                let mut j: usize = 0;
                while j <= tl - 3
                    invariant
                        self.wf(),
                        dims == self.dimensions,
                        dd == dims as int,
                        1 <= dims <= MAX_DIMENSIONS,
                        nt == tokens@.len(),
                        i < nt,
                        t == ts[i as int],
                        t == tokens@[i as int]@,
                        tl == t.len(),
                        3 <= tl,
                        tl <= sum_len(ts) - sum_len(ts.take(i as int)),
                        tl <= 3000000,
                        sum_len(ts) <= 3000000,
                        sum_len(ts.take(i as int)) >= 0,
                        sum_len(ts.take(i as int)) * 65536 <= 3000000 * 65536,
                        words_bound == (nt as int) * 65536,
                        words_bound <= 3000000 * 65536,
                        0 <= j <= tl - 2,
                        v@.len() == dd,
                        tok_target == tri_token(v@, t, j as int, dd),
                        forall|k: int|
                            0 <= k < dd ==> 0 <= #[trigger] v@[k] <= base_bound + (j as int)
                                * 65536,
                        base_bound == words_bound + sum_len(ts.take(i as int)) * 65536,
                    decreases tl - j,
                {
                    let mut tri: Vec<char> = Vec::new();
                    tri.push(tokens[i][j]);
                    tri.push(tokens[i][j + 1]);
                    tri.push(tokens[i][j + 2]);
                    proof {
                        assert(tri@ =~= t.subrange(j as int, j as int + 3));
                    }
                    let h = fnv_hash(&tri);
                    let idx = (h % (dims as u64)) as usize;
                    proof {
                        assert(idx as int == slot_of(t.subrange(j as int, j as int + 3), dd));
                        assert((SCALE as int) / 2 == 32768);
                    }
                    let cur = v[idx];
                    proof {
                        assert(0 <= cur as int <= base_bound + (j as int) * 65536);
                        let q = sum_len(ts.take(i as int));
                        assert(q + (j as int) + 1 <= 3000000);
                        assert(base_bound + (j as int) * 65536 + 65536 <= 7000000 * 65536)
                            by (nonlinear_arith)
                            requires
                                base_bound == words_bound + q * 65536,
                                words_bound <= 3000000 * 65536,
                                0 <= q,
                                0 <= j as int,
                                q + (j as int) + 1 <= 3000000,
                        ;
                        assert((j as int) * 65536 + 32768 <= ((j as int) + 1) * 65536)
                            by (nonlinear_arith);
                    }
                    let newval: i64 = cur + 32768;
                    let ghost oldv = v@;
                    v.set(idx, newval);
                    proof {
                        assert(v@ == bump(oldv, idx as int, 32768));
                        assert(tri_token(oldv, t, j as int, dd) == tri_token(
                            v@,
                            t,
                            j as int + 1,
                            dd,
                        ));
                        assert forall|k: int| 0 <= k < dd implies 0 <= #[trigger] v@[k]
                            <= base_bound + (j as int + 1) * 65536 by {
                            assert((j as int) * 65536 + 65536 == (j as int + 1) * 65536)
                                by (nonlinear_arith);
                            if k != idx as int {
                                assert(v@[k] == oldv[k]);
                            }
                        }
                    }
                    j = j + 1;
                }
                proof {
                    assert(tri_token(v@, t, j as int, dd) == v@);
                    assert(tok_target == v@);
                }
            } else {
                proof {
                    assert(tri_token(v@, t, 0, dd) == v@);
                    assert(tok_target == v@);
                }
            }
            proof {
                assert(tri_pass(enter, ts, i as int, dd) == tri_pass(
                    tok_target,
                    ts,
                    i as int + 1,
                    dd,
                ));
                assert(ts.take(i as int + 1) =~= ts.take(i as int).push(t));
                assert(ts.take(i as int).push(t) =~= ts.take(i as int) + seq![t]);
                lemma_sum_len_concat(ts.take(i as int), seq![t]);
                lemma_sum_len_singleton(t);
                assert(sum_len(seq![t]) == t.len());
                assert(sum_len(ts.take(i as int + 1)) == sum_len(ts.take(i as int)) + t.len());
                assert forall|k: int| 0 <= k < dd implies 0 <= #[trigger] v@[k] <= words_bound
                    + sum_len(ts.take(i as int + 1)) * 65536 by {
                    assert((sum_len(ts.take(i as int)) + t.len()) * 65536 == sum_len(
                        ts.take(i as int),
                    ) * 65536 + t.len() * 65536) by (nonlinear_arith);
                    if tl >= 3 {
                        assert((tl - 2) * 65536 <= t.len() * 65536) by (nonlinear_arith)
                            requires
                                tl == t.len(),
                                tl >= 3,
                        ;
                    } else {
                        assert(0 <= t.len() * 65536) by (nonlinear_arith);
                    }
                }
            }
            i = i + 1;
        }
        proof {
            assert(after_tris == v@);
            lemma_sum_len_prefix(ts, nt as int);
        }
        let ghost all_bound = words_bound + sum_len(ts) * 65536;
        proof {
            assert(ts.take(nt as int) =~= ts);
            assert(sum_len(ts) * 65536 <= 3000000 * 65536) by (nonlinear_arith)
                requires
                    0 <= sum_len(ts) <= 3000000,
            ;
            assert(all_bound <= 7000000 * 65536);
            assert(forall|k: int| 0 <= k < dd ==> 0 <= #[trigger] v@[k] <= all_bound);
        }
        let mut sum_u: u64 = 0;
        let mut i: usize = 0;
        while i < nt
            invariant
                nt == tokens@.len(),
                nt == ts.len(),
                ts == tokens.deep_view(),
                forall|j: int| 0 <= j < nt ==> tokens.deep_view()[j] == tokens@[j]@,
                0 <= i <= nt,
                sum_len(ts) <= 3000000,
                sum_u == sum_len(ts.take(i as int)),
                sum_u <= 3000000,
            decreases nt - i,
        {
            let tl = tokens[i].len();
            proof {
                let t = ts[i as int];
                assert(t == tokens@[i as int]@);
                assert(ts.take(i as int + 1) =~= ts.take(i as int) + seq![t]);
                lemma_sum_len_concat(ts.take(i as int), seq![t]);
                lemma_sum_len_singleton(t);
                assert(sum_len(seq![t]) == t.len());
                lemma_sum_len_prefix(ts, i as int + 1);
                lemma_sum_len_nonneg(ts.take(i as int));
            }
            sum_u = sum_u + (tl as u64);
            i = i + 1;
        }
        proof {
            assert(ts.take(nt as int) =~= ts);
        }
        let ghost pre_summary = v@;
        if dims > 10 {
            let cnt: u64 = nt as u64;
            let avg: u64 = if cnt == 0 {
                0
            } else {
                proof {
                    lemma_udiv_le((sum_u as int) * 65536, 10 * (cnt as int));
                    assert((sum_u as int) * 65536 <= 3000000 * 65536) by (nonlinear_arith)
                        requires
                            sum_u as int <= 3000000,
                    ;
                }
                (sum_u * 65536) / (10 * cnt)
            };
            proof {
                lemma_udiv_le((cnt as int) * 65536, 20);
                assert((cnt as int) * 65536 <= 3000000 * 65536) by (nonlinear_arith)
                    requires
                        cnt as int <= 3000000,
                ;
                assert(avg as int <= 3000000 * 65536);
            }
            let cslot: u64 = (cnt * 65536) / 20;
            v.set(dims - 1, avg as i64);
            v.set(dims - 2, cslot as i64);
            proof {
                assert(v@ == with_summary(pre_summary, ts, dd));
                assert forall|k: int| 0 <= k < dd implies 0 <= #[trigger] v@[k] <= 7000000
                    * 65536 by {
                    if k != dd - 1 && k != dd - 2 {
                        assert(v@[k] == pre_summary[k]);
                    }
                }
            }
        } else {
            proof {
                assert(v@ == with_summary(pre_summary, ts, dd));
                assert(forall|k: int| 0 <= k < dd ==> 0 <= #[trigger] v@[k] <= 7000000 * 65536);
            }
        }
        let ghost w = v@;
        let mut ss: u128 = 0;
        let mut i: usize = 0;
        proof {
            assert(w.take(0) =~= Seq::<i64>::empty());
        }
        while i < dims
            invariant
                dims == v@.len(),
                dd == dims as int,
                w == v@,
                0 <= i <= dims,
                dims <= MAX_DIMENSIONS,
                forall|k: int| 0 <= k < dd ==> 0 <= #[trigger] w[k] <= 7000000 * 65536,
                ss == sumsq(w.take(i as int)),
                ss <= (i as int) * 0x4000_0000_0000_0000_0000,
            decreases dims - i,
        {
            let x = v[i];
            proof {
                assert(w.take(i + 1).drop_last() =~= w.take(i as int));
                assert(w.take(i + 1).last() == w[i as int]);
                assert(0 <= (x as int) * (x as int) <= 0x4000_0000_0000_0000_0000)
                    by (nonlinear_arith)
                    requires
                        0 <= x as int <= 7000000 * 65536,
                ;
                assert((i as int) * 0x4000_0000_0000_0000_0000 + 0x4000_0000_0000_0000_0000 == (
                i as int + 1) * 0x4000_0000_0000_0000_0000) by (nonlinear_arith);
                assert((i as int + 1) * 0x4000_0000_0000_0000_0000 <= 65536
                    * 0x4000_0000_0000_0000_0000) by (nonlinear_arith)
                    requires
                        i as int + 1 <= 65536,
                ;
            }
            ss = ss + (x as u128) * (x as u128);
            i = i + 1;
        }
        proof {
            assert(w.take(dims as int) =~= w);
            assert(ss == sumsq(w));
        }
        if ss == 0 {
            proof {
                assert(norm_seq(w) == w);
                assert(embed_spec(s, dd) == w);
                assert forall|k: int| 0 <= k < w.len() implies 0 <= #[trigger] w[k] <= SCALE by {
                    lemma_sumsq_element(w, k);
                    assert(w[k] * w[k] <= 0);
                    assert(w[k] == 0) by (nonlinear_arith)
                        requires
                            w[k] * w[k] <= 0,
                    ;
                }
            }
            return v;
        }
        proof {
            assert(65536 * 0x4000_0000_0000_0000_0000 < (1u128 << 126)) by (bit_vector);
        }
        let den: u64 = isqrt(ss);
        proof {
            lemma_isqrt_bounds(ss as int);
            assert(den as int >= 1) by (nonlinear_arith)
                requires
                    den as int == isqrt_spec(ss as int),
                    isqrt_spec(ss as int) >= 0,
                    isqrt_spec(ss as int) * isqrt_spec(ss as int) <= ss as int,
                    (isqrt_spec(ss as int) + 1) * (isqrt_spec(ss as int) + 1) > ss as int,
                    ss as int >= 1,
            ;
        }
        let mut out: Vec<i64> = Vec::new();
        let mut i: usize = 0;
        while i < dims
            invariant
                dims == v@.len(),
                dd == dims as int,
                w == v@,
                sumsq(w) == ss as int,
                ss > 0,
                den as int == isqrt_spec(ss as int),
                1 <= den,
                den as int * (den as int) <= ss as int,
                (den as int + 1) * (den as int + 1) > ss as int,
                forall|k: int| 0 <= k < dd ==> 0 <= #[trigger] w[k] <= 7000000 * 65536,
                0 <= i <= dims,
                out@.len() == i,
                forall|k: int|
                    0 <= k < i ==> #[trigger] out@[k] == (((w[k] as int) * (SCALE as int))
                        / isqrt_spec(sumsq(w))) as i64,
                forall|k: int| 0 <= k < i ==> 0 <= #[trigger] out@[k] <= SCALE,
            decreases dims - i,
        {
            let x = v[i];
            proof {
                lemma_sumsq_element(w, i as int);
                assert(x as int <= den as int) by (nonlinear_arith)
                    requires
                        (x as int) * (x as int) <= ss as int,
                        (den as int + 1) * (den as int + 1) > ss as int,
                        x as int >= 0,
                        den as int >= 0,
                ;
                assert((x as int) * 65536 <= 7000000 * 65536 * 65536) by (nonlinear_arith)
                    requires
                        0 <= x as int <= 7000000 * 65536,
                ;
                assert((x as int) * 65536 <= (den as int) * 65536) by (nonlinear_arith)
                    requires
                        x as int <= den as int,
                ;
                vstd::arithmetic::div_mod::lemma_div_is_ordered(
                    (x as int) * 65536,
                    (den as int) * 65536,
                    den as int,
                );
                assert(((den as int) * 65536) / (den as int) == 65536) by (nonlinear_arith)
                    requires
                        den as int >= 1,
                ;
                lemma_udiv_le((x as int) * 65536, den as int);
            }
            let q: u64 = ((x as u64) * 65536) / den;
            proof {
                assert(q as int == ((x as int) * (SCALE as int)) / isqrt_spec(sumsq(w)));
                assert(0 <= q as int <= 65536);
            }
            out.push(q as i64);
            i = i + 1;
        }
        proof {
            assert(out@ =~= norm_seq(w));
            assert(embed_spec(s, dd) == norm_seq(w));
        }
        out
    }
}

/// Metadata for one downloadable embedding model.
#[derive(Debug, Clone)]
pub struct ModelInfo {
    pub name: String,
    pub dimensions: usize,
    pub size_mb: u64,
    pub description: String,
    pub hf_repo: String,
    pub onnx_file: String,
    pub tokenizer_file: String,
    pub files: Vec<ModelFile>,
}

/// One file of a downloadable model.
#[derive(Debug, Clone)]
pub struct ModelFile {
    pub name: String,
    pub url: String,
}

/// The registry of known models, keyed by size label.
pub struct ModelRegistry {
    pub models: Vec<(String, ModelInfo)>,
    pub default_model: String,
}

/// Whether two model records hold the same data.
pub open spec fn same_model(a: ModelInfo, b: ModelInfo) -> bool {
    &&& a.name@ == b.name@
    &&& a.dimensions == b.dimensions
    &&& a.size_mb == b.size_mb
    &&& a.description@ == b.description@
    &&& a.hf_repo@ == b.hf_repo@
    &&& a.onnx_file@ == b.onnx_file@
    &&& a.tokenizer_file@ == b.tokenizer_file@
    &&& a.files@.len() == b.files@.len()
    &&& forall|i: int|
        0 <= i < a.files@.len() ==> (#[trigger] a.files@[i]).name@ == b.files@[i].name@
            && a.files@[i].url@ == b.files@[i].url@
}

/// The first registry entry under this size label, if any.
pub open spec fn find_model(ms: Seq<(String, ModelInfo)>, key: Seq<char>) -> Option<int>
    decreases ms.len(),
{
    if ms.len() == 0 {
        None
    } else if ms[0].0@ == key {
        Some(0)
    } else {
        match find_model(ms.drop_first(), key) {
            Some(k) => Some(k + 1),
            None => None,
        }
    }
}

proof fn lemma_find_model_found(ms: Seq<(String, ModelInfo)>, key: Seq<char>, i: int)
    requires
        0 <= i < ms.len(),
        forall|k: int| 0 <= k < i ==> ms[k].0@ != key,
        ms[i].0@ == key,
    ensures
        find_model(ms, key) == Some(i),
    decreases i,
{
    if i > 0 {
        lemma_find_model_found(ms.drop_first(), key, i - 1);
    }
}

proof fn lemma_find_model_missing(ms: Seq<(String, ModelInfo)>, key: Seq<char>)
    requires
        forall|k: int| 0 <= k < ms.len() ==> ms[k].0@ != key,
    ensures
        find_model(ms, key) is None,
    decreases ms.len(),
{
    if ms.len() > 0 {
        lemma_find_model_missing(ms.drop_first(), key);
    }
}

/// A copy of a model record, equal field by field.
fn clone_model(m: &ModelInfo) -> (r: ModelInfo)
    ensures
        same_model(r, *m),
{
    let mut files: Vec<ModelFile> = Vec::new();
    let n = m.files.len();
    let mut i: usize = 0;
    while i < n
        invariant
            n == m.files@.len(),
            0 <= i <= n,
            files@.len() == i,
            forall|k: int|
                0 <= k < i ==> (#[trigger] files@[k]).name@ == m.files@[k].name@
                    && files@[k].url@ == m.files@[k].url@,
        decreases n - i,
    {
        files.push(ModelFile { name: m.files[i].name.clone(), url: m.files[i].url.clone() });
        i = i + 1;
    }
    ModelInfo {
        name: m.name.clone(),
        dimensions: m.dimensions,
        size_mb: m.size_mb,
        description: m.description.clone(),
        hf_repo: m.hf_repo.clone(),
        onnx_file: m.onnx_file.clone(),
        tokenizer_file: m.tokenizer_file.clone(),
        files,
    }
}

/// Whether a listed pair carries the same label and model data as a
/// registry entry.
pub open spec fn same_entry(a: (String, ModelInfo), b: (String, ModelInfo)) -> bool {
    a.0@ == b.0@ && same_model(a.1, b.1)
}

/// Whether a listed pair carries the data of some registry entry.
pub open spec fn listed_entry_ok(ms: Seq<(String, ModelInfo)>, p: (String, ModelInfo)) -> bool {
    exists|j: int| 0 <= j < ms.len() && same_entry(p, ms[j])
}

impl Embedder {
    /// The registry entry for a size label, or an error when the label
    /// is unknown.
    pub fn get_model_info(registry: &ModelRegistry, model_size: &str) -> (r: Result<
        ModelInfo,
        CyxError,
    >)
        ensures
            match find_model(registry.models@, model_size@) {
                Some(i) => r matches Ok(m) && same_model(m, registry.models@[i].1),
                None => r is Err,
            },
    {
        let n = registry.models.len();
        let mut i: usize = 0;
        while i < n
            invariant
                n == registry.models@.len(),
                0 <= i <= n,
                forall|k: int| 0 <= k < i ==> (#[trigger] registry.models@[k]).0@ != model_size@,
            decreases n - i,
        {
            if crate::chars::str_eq(registry.models[i].0.as_str(), model_size) {
                proof {
                    lemma_find_model_found(registry.models@, model_size@, i as int);
                }
                return Ok(clone_model(&registry.models[i].1));
            }
            i = i + 1;
        }
        proof {
            lemma_find_model_missing(registry.models@, model_size@);
        }
        Err(CyxError::new("unknown model size".to_owned()))
    }

    /// The registry's entries, ordered by download size, smallest first.
    pub fn list_available_models(registry: &ModelRegistry) -> (r: Result<
        Vec<(String, ModelInfo)>,
        CyxError,
    >)
        ensures
            r is Ok,
            r matches Ok(v) ==> {
                &&& v@.len() == registry.models@.len()
                &&& forall|a: int, b: int|
                    0 <= a < b < v@.len() ==> v@[a].1.size_mb <= v@[b].1.size_mb
                &&& forall|k: int|
                    0 <= k < v@.len() ==> #[trigger] listed_entry_ok(registry.models@, v@[k])
            },
    {
        let n = registry.models.len();
        let mut copies: Vec<(String, ModelInfo)> = Vec::new();
        let mut i: usize = 0;
        while i < n
            invariant
                n == registry.models@.len(),
                0 <= i <= n,
                copies@.len() == i,
                forall|k: int|
                    0 <= k < i ==> same_entry(#[trigger] copies@[k], registry.models@[k]),
            decreases n - i,
        {
            let label = registry.models[i].0.clone();
            let info = clone_model(&registry.models[i].1);
            copies.push((label, info));
            i = i + 1;
        }
        let ghost originals = registry.models@;
        let ghost source = copies@;
        let mut src = copies;
        let mut out: Vec<(String, ModelInfo)> = Vec::new();
        proof {
            assert(out@.to_multiset().add(src@.to_multiset()) =~= source.to_multiset());
        }
        while src.len() > 0
            invariant
                out@.to_multiset().add(src@.to_multiset()) == source.to_multiset(),
                out@.len() + src@.len() == source.len(),
                source.len() == originals.len(),
                forall|k: int|
                    0 <= k < source.len() ==> same_entry(#[trigger] source[k], originals[k]),
                forall|a: int, b: int| 0 <= a < b < out@.len() ==> out@[a].1.size_mb <= out@[b].1.size_mb,
                forall|a: int, b: int|
                    0 <= a < out@.len() && 0 <= b < src@.len() ==> out@[a].1.size_mb
                        <= src@[b].1.size_mb,
            decreases src.len(),
        {
            let m = src.len();
            let mut best: usize = 0;
            let mut j: usize = 1;
            while j < m
                invariant
                    m == src@.len(),
                    1 <= j <= m,
                    0 <= best < j,
                    forall|p: int| 0 <= p < j ==> src@[best as int].1.size_mb <= src@[p].1.size_mb,
                decreases m - j,
            {
                if src[j].1.size_mb < src[best].1.size_mb {
                    best = j;
                }
                j = j + 1;
            }
            let ghost vpre = src@;
            let ghost opre = out@;
            let item = src.remove(best);
            out.push(item);
            proof {
                assert(vpre.to_multiset().count(item) > 0) by {
                    assert(vpre[best as int] == item);
                    assert(vpre.contains(item));
                }
                assert(src@.to_multiset() =~= vpre.to_multiset().remove(item));
                assert(out@.to_multiset() =~= opre.to_multiset().insert(item));
                assert(out@.to_multiset().add(src@.to_multiset()) =~= source.to_multiset()) by {
                    assert forall|e: (String, ModelInfo)|
                        out@.to_multiset().add(src@.to_multiset()).count(e)
                            == source.to_multiset().count(e) by {
                        assert(opre.to_multiset().add(vpre.to_multiset()).count(e)
                            == source.to_multiset().count(e));
                    }
                }
                assert forall|a: int, b: int|
                    0 <= a < out@.len() && 0 <= b < src@.len() implies out@[a].1.size_mb
                    <= src@[b].1.size_mb by {
                    let b0 = if b < best as int {
                        b
                    } else {
                        b + 1
                    };
                    assert(src@[b] == vpre[b0]);
                    assert(item.1.size_mb <= vpre[b0].1.size_mb);
                    if a < opre.len() {
                        assert(out@[a] == opre[a]);
                    } else {
                        assert(out@[a] == item);
                    }
                }
                assert forall|a: int, b: int|
                    0 <= a < b < out@.len() implies out@[a].1.size_mb <= out@[b].1.size_mb by {
                    if b < opre.len() {
                    } else {
                        assert(out@[b] == item);
                        assert(opre[a].1.size_mb <= vpre[best as int].1.size_mb);
                    }
                }
            }
        }
        proof {
            assert forall|k: int| 0 <= k < out@.len() implies #[trigger] listed_entry_ok(
                originals,
                out@[k],
            ) by {
                assert(out@.contains(out@[k]));
                assert(out@.to_multiset().count(out@[k]) > 0);
                assert(source.to_multiset().count(out@[k]) > 0) by {
                    assert(out@.to_multiset().add(src@.to_multiset()).count(out@[k]) > 0);
                }
                assert(source.contains(out@[k]));
                let j = choose|j: int| 0 <= j < source.len() && source[j] == out@[k];
                assert(same_entry(out@[k], originals[j]));
            }
        }
        Ok(out)
    }
}

} // verus!