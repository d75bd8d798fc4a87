//! Character primitives shared by the normalizer and the embedder.
//!
//! Text is processed as `Vec<char>` so that every step of the pipelines can
//! be specified over `Seq<char>`.  Unicode case mapping and the
//! `Alphanumeric` character class are taken from the standard library on
//! trust; the `White_Space` class is small enough to be written out.

use vstd::prelude::*;
use vstd::std_specs::iter::IteratorSpec;

verus! {

broadcast use vstd::string::group_string_axioms;

/// The Unicode `White_Space` code points, the class that
/// `char::is_whitespace` is documented to test.
pub open spec fn ws_char(c: char) -> bool {
    c == ' ' || c == '\u{0009}' || c == '\u{000A}' || c == '\u{000B}' || c == '\u{000C}'
        || c == '\u{000D}' || c == '\u{0085}' || c == '\u{00A0}' || c == '\u{1680}'
        || c == '\u{2000}' || c == '\u{2001}' || c == '\u{2002}' || c == '\u{2003}'
        || c == '\u{2004}' || c == '\u{2005}' || c == '\u{2006}' || c == '\u{2007}'
        || c == '\u{2008}' || c == '\u{2009}' || c == '\u{200A}' || c == '\u{2028}'
        || c == '\u{2029}' || c == '\u{202F}' || c == '\u{205F}' || c == '\u{3000}'
}

/// Whether `char::is_alphanumeric` accepts `c`: membership in the Unicode
/// `Alphabetic` class or one of the number classes.  The class is far too
/// large to write out, so it is only named here.
pub uninterp spec fn alnum_char(c: char) -> bool;

/// Relies on `char::is_whitespace`: true exactly on the Unicode
/// `White_Space` code points, which `ws_char` lists.
pub assume_specification[ char::is_whitespace ](c: char) -> (r: bool)
    ensures
        r == ws_char(c),
;

/// Relies on `char::is_alphanumeric`: a fixed class of `char`, named here
/// by `alnum_char`.
pub assume_specification[ char::is_alphanumeric ](c: char) -> (r: bool)
    ensures
        r == alnum_char(c),
;

/// What `str::to_lowercase` returns: the full Unicode lowercase mapping,
/// a function of the character sequence alone.
pub uninterp spec fn lower_of(s: Seq<char>) -> Seq<char>;

/// Relies on `str::to_lowercase`: the result depends on the characters
/// alone, and the empty string stays empty.
#[verifier::external_body]
pub fn lowercase(s: &str) -> (r: String)
    ensures
        r@ == lower_of(s@),
        s@.len() == 0 ==> r@.len() == 0,
{
    s.to_lowercase()
}

/// Relies on building a `String` from an iterator over `char`: the
/// resulting string holds exactly the given characters in order.
#[verifier::external_body]
pub fn chars_to_string(v: &Vec<char>) -> (r: String)
    ensures
        r@ == v@,
{
    v.iter().collect()
}

/// The characters of `s`, collected into a vector.
pub fn string_to_chars(s: &str) -> (r: Vec<char>)
    ensures
        r@ == s@,
{
    let mut it = s.chars();
    let mut out: Vec<char> = Vec::new();
    loop
        invariant
            it.obeys_prophetic_iter_laws(),
            it.decrease() is Some,
            out@ + it.remaining() == s@,
        ensures
            out@ == s@,
        decreases it.decrease()->0,
    {
        match it.next() {
            Some(c) => {
                proof {
                    assert(out@.push(c) + it.remaining() =~= s@);
                }
                out.push(c);
            },
            None => {
                proof {
                    assert(it.remaining().len() == 0);
                    assert(out@ + it.remaining() =~= out@);
                    assert(out@ == s@);
                }
                break ;
            },
        }
    }
    out
}

/// The singleton token list for a pending token, or nothing when the
/// pending token is empty.
pub open spec fn flush(cur: Seq<char>) -> Seq<Seq<char>> {
    if cur.len() == 0 {
        seq![]
    } else {
        seq![cur]
    }
}

/// The whitespace-delimited tokens of `s`, given a token `cur` already
/// read.  Whitespace is `ws_char`; empty tokens are never produced.
pub open spec fn toks(s: Seq<char>, cur: Seq<char>) -> Seq<Seq<char>>
    decreases s.len(),
{
    if s.len() == 0 {
        flush(cur)
    } else if ws_char(s[0]) {
        flush(cur) + toks(s.drop_first(), Seq::empty())
    } else {
        toks(s.drop_first(), cur.push(s[0]))
    }
}

/// The whitespace-delimited tokens of `s`.
pub open spec fn tokens_of(s: Seq<char>) -> Seq<Seq<char>> {
    toks(s, Seq::empty())
}

/// Splits `s` into its whitespace-delimited tokens.
pub fn split_tokens(s: &Vec<char>) -> (r: Vec<Vec<char>>)
    ensures
        r.deep_view() == tokens_of(s@),
{
    let n = s.len();
    let mut out: Vec<Vec<char>> = Vec::new();
    let mut cur: Vec<char> = Vec::new();
    let mut i: usize = 0;
    proof {
        assert(s@.skip(0) =~= s@);
    }
    while i < n
        invariant
            n == s@.len(),
            0 <= i <= n,
            tokens_of(s@) == out.deep_view() + toks(s@.skip(i as int), cur@),
        decreases n - i,
    {
        let c = s[i];
        proof {
            assert(s@.skip(i as int)[0] == s@[i as int]);
            assert(s@.skip(i as int).drop_first() =~= s@.skip(i as int + 1));
        }
        if c.is_whitespace() {
            if cur.len() > 0 {
                let ghost old_dv = out.deep_view();
                let ghost cur_snap = cur@;
                out.push(cur);
                cur = Vec::new();
                proof {
                    assert(flush(cur_snap) =~= seq![cur_snap]);
                    assert(out.deep_view() =~~= old_dv + flush(cur_snap));
                }
            } else {
                proof {
                    assert(out.deep_view() + flush(cur@) =~= out.deep_view());
                }
            }
            proof {
                assert(tokens_of(s@) == out.deep_view() + toks(
                    s@.skip(i as int + 1),
                    Seq::<char>::empty(),
                ));
                assert(cur@ =~= Seq::<char>::empty());
            }
        } else {
            cur.push(c);
        }
        i = i + 1;
    }
    proof {
        assert(s@.skip(n as int) =~= Seq::<char>::empty());
    }
    if cur.len() > 0 {
        let ghost old_dv = out.deep_view();
        let ghost cur_snap = cur@;
        out.push(cur);
        proof {
            assert(flush(cur_snap) =~= seq![cur_snap]);
            assert(out.deep_view() =~~= old_dv + flush(cur_snap));
        }
    } else {
        proof {
            assert(out.deep_view() + flush(cur@) =~= out.deep_view());
        }
    }
    out
}

/// `s` with its leading whitespace removed.
pub open spec fn trim_front(s: Seq<char>) -> Seq<char>
    decreases s.len(),
{
    if s.len() == 0 {
        s
    } else if ws_char(s[0]) {
        trim_front(s.drop_first())
    } else {
        s
    }
}

/// `s` with its trailing whitespace removed.
pub open spec fn trim_back(s: Seq<char>) -> Seq<char>
    decreases s.len(),
{
    if s.len() == 0 {
        s
    } else if ws_char(s.last()) {
        trim_back(s.drop_last())
    } else {
        s
    }
}

/// `s` with leading and trailing whitespace removed.
pub open spec fn trim_spec(s: Seq<char>) -> Seq<char> {
    trim_back(trim_front(s))
}

proof fn lemma_trim_front_skip(s: Seq<char>, k: int)
    requires
        0 <= k <= s.len(),
        forall|j: int| 0 <= j < k ==> ws_char(s[j]),
        k < s.len() ==> !ws_char(s[k]),
    ensures
        trim_front(s) == s.skip(k),
    decreases k,
{
    if k == 0 {
        assert(s.skip(0) =~= s);
        if s.len() > 0 {
            assert(!ws_char(s[0]));
        }
    } else {
        assert(ws_char(s[0]));
        lemma_trim_front_skip(s.drop_first(), k - 1);
        assert(s.drop_first().skip(k - 1) =~= s.skip(k));
    }
}

proof fn lemma_trim_back_take(s: Seq<char>, m: int)
    requires
        0 <= m <= s.len(),
        forall|j: int| m <= j < s.len() ==> ws_char(s[j]),
        m > 0 ==> !ws_char(s[m - 1]),
    ensures
        trim_back(s) == s.take(m),
    decreases s.len() - m,
{
    if m == s.len() {
        assert(s.take(m) =~= s);
        if s.len() > 0 {
            assert(!ws_char(s.last()));
        }
    } else {
        assert(ws_char(s.last()));
        lemma_trim_back_take(s.drop_last(), m);
        assert(s.drop_last().take(m) =~= s.take(m));
    }
}

/// `s` without leading and trailing whitespace.
pub fn trim(s: &Vec<char>) -> (r: Vec<char>)
    ensures
        r@ == trim_spec(s@),
{
    let n = s.len();
    let mut start: usize = 0;
    while start < n && s[start].is_whitespace()
        invariant
            n == s@.len(),
            0 <= start <= n,
            forall|j: int| 0 <= j < start ==> ws_char(s@[j]),
        decreases n - start,
    {
        start = start + 1;
    }
    proof {
        lemma_trim_front_skip(s@, start as int);
    }
    let mut end: usize = n;
    while end > start && s[end - 1].is_whitespace()
        invariant
            n == s@.len(),
            start <= end <= n,
            forall|j: int| 0 <= j < start ==> ws_char(s@[j]),
            forall|j: int| end <= j < n ==> ws_char(s@[j]),
        decreases end,
    {
        end = end - 1;
    }
    proof {
        let f = s@.skip(start as int);
        lemma_trim_back_take(f, end - start);
        assert(trim_spec(s@) == f.take(end - start));
    }
    let mut r: Vec<char> = Vec::new();
    let mut i: usize = start;
    while i < end
        invariant
            start <= i <= end <= n,
            n == s@.len(),
            r@ == s@.skip(start as int).take(i - start),
        decreases end - i,
    {
        r.push(s[i]);
        proof {
            assert(s@.skip(start as int).take(i + 1 - start) =~= s@.skip(start as int).take(
                i - start,
            ).push(s@[i as int]));
        }
        i = i + 1;
    }
    r
}

/// The tokens joined by single spaces.
pub open spec fn join_tokens(ts: Seq<Seq<char>>) -> Seq<char>
    decreases ts.len(),
{
    if ts.len() == 0 {
        Seq::empty()
    } else if ts.len() == 1 {
        ts[0]
    } else {
        ts[0] + seq![' '] + join_tokens(ts.drop_first())
    }
}

proof fn lemma_join_push(ts: Seq<Seq<char>>, t: Seq<char>)
    ensures
        ts.len() == 0 ==> join_tokens(ts.push(t)) == t,
        ts.len() > 0 ==> join_tokens(ts.push(t)) == join_tokens(ts) + seq![' '] + t,
    decreases ts.len(),
{
    if ts.len() == 0 {
        assert(ts.push(t)[0] == t);
        assert(join_tokens(ts.push(t)) == t);
    } else if ts.len() == 1 {
        let p = ts.push(t);
        assert(p.len() == 2);
        assert(p[0] == ts[0]);
        assert(p.drop_first() =~= seq![t]);
        assert(join_tokens(seq![t]) == seq![t][0]);
        assert(seq![t][0] == t);
        assert(join_tokens(p) == ts[0] + seq![' '] + t);
    } else {
        let p = ts.push(t);
        assert(p.drop_first() =~= ts.drop_first().push(t));
        lemma_join_push(ts.drop_first(), t);
        assert(join_tokens(p) == p[0] + seq![' '] + join_tokens(ts.drop_first().push(t)));
        assert(p[0] == ts[0]);
        assert(join_tokens(ts.drop_first().push(t)) == join_tokens(ts.drop_first()) + seq![' ']
            + t);
        assert(ts[0] + seq![' '] + (join_tokens(ts.drop_first()) + seq![' '] + t) =~= (ts[0]
            + seq![' '] + join_tokens(ts.drop_first())) + seq![' '] + t);
    }
}

/// Joins tokens with single spaces.
pub fn join(ts: &Vec<Vec<char>>) -> (r: Vec<char>)
    ensures
        r@ == join_tokens(ts.deep_view()),
{
    let n = ts.len();
    let mut r: Vec<char> = Vec::new();
    let mut i: usize = 0;
    proof {
        assert(ts.deep_view().len() == n);
        assert(ts.deep_view().take(0) =~= Seq::<Seq<char>>::empty());
    }
    while i < n
        invariant
            n == ts@.len(),
            n == ts.deep_view().len(),
            0 <= i <= n,
            r@ == join_tokens(ts.deep_view().take(i as int)),
            forall|j: int| 0 <= j < n ==> ts.deep_view()[j] == ts@[j]@,
        decreases n - i,
    {
        if i > 0 {
            r.push(' ');
        }
        let mut k: usize = 0;
        let ti = &ts[i];
        let m = ti.len();
        let ghost r_before = r@;
        while k < m
            invariant
                m == ti@.len(),
                0 <= k <= m,
                r@ == r_before + ti@.take(k as int),
            decreases m - k,
        {
            r.push(ti[k]);
            proof {
                assert(ti@.take(k + 1) =~= ti@.take(k as int).push(ti@[k as int]));
            }
            k = k + 1;
        }
        proof {
            let dv = ts.deep_view();
            assert(ti@.take(m as int) =~= ti@);
            assert(dv.take(i + 1) =~= dv.take(i as int).push(dv[i as int]));
            lemma_join_push(dv.take(i as int), dv[i as int]);
            if i == 0 {
                assert(r@ =~= join_tokens(dv.take(1)));
            } else {
                assert(r@ =~= join_tokens(dv.take(i as int)) + seq![' '] + dv[i as int]);
            }
        }
        i = i + 1;
    }
    proof {
        assert(ts.deep_view().take(n as int) =~= ts.deep_view());
    }
    r
}

/// A well-formed whitespace token: nonempty, with no whitespace inside.
pub open spec fn wf_token(t: Seq<char>) -> bool {
    t.len() > 0 && forall|j: int| 0 <= j < t.len() ==> !ws_char(t[j])
}

/// Every token that the tokenizer produces is well formed.
pub proof fn lemma_toks_wf(s: Seq<char>, cur: Seq<char>)
    requires
        forall|j: int| 0 <= j < cur.len() ==> !ws_char(cur[j]),
    ensures
        forall|i: int| 0 <= i < toks(s, cur).len() ==> wf_token(#[trigger] toks(s, cur)[i]),
    decreases s.len(),
{
    if s.len() == 0 {
        assert forall|i: int| 0 <= i < toks(s, cur).len() implies wf_token(
            #[trigger] toks(s, cur)[i],
        ) by {
            assert(toks(s, cur) == flush(cur));
            assert(cur.len() > 0);
            assert(toks(s, cur)[i] == cur);
        }
    } else if ws_char(s[0]) {
        lemma_toks_wf(s.drop_first(), Seq::empty());
        assert forall|i: int| 0 <= i < toks(s, cur).len() implies wf_token(
            #[trigger] toks(s, cur)[i],
        ) by {
            if i < flush(cur).len() {
                assert(cur.len() > 0);
                assert(toks(s, cur)[i] == cur);
            } else {
                assert(toks(s, cur)[i] == toks(s.drop_first(), Seq::empty())[i - flush(
                    cur,
                ).len()]);
            }
        }
    } else {
        let cur2 = cur.push(s[0]);
        assert(forall|j: int| 0 <= j < cur2.len() ==> !ws_char(cur2[j]));
        lemma_toks_wf(s.drop_first(), cur2);
        assert(toks(s, cur) == toks(s.drop_first(), cur2));
    }
}

/// Reading a whitespace-free prefix only extends the pending token.
pub proof fn lemma_toks_prefix(t: Seq<char>, rest: Seq<char>, cur: Seq<char>)
    requires
        forall|j: int| 0 <= j < t.len() ==> !ws_char(t[j]),
    ensures
        toks(t + rest, cur) == toks(rest, cur + t),
    decreases t.len(),
{
    if t.len() == 0 {
        assert(t + rest =~= rest);
        assert(cur + t =~= cur);
    } else {
        let full = t + rest;
        assert(full[0] == t[0]);
        assert(!ws_char(full[0]));
        assert(full.drop_first() =~= t.drop_first() + rest);
        lemma_toks_prefix(t.drop_first(), rest, cur.push(t[0]));
        assert(cur.push(t[0]) + t.drop_first() =~= cur + t);
    }
}

/// Joining well-formed tokens with single spaces and tokenizing again
/// gives the tokens back: the collapse step is a no-op on already
/// collapsed text.
pub proof fn lemma_tokens_of_join(ts: Seq<Seq<char>>)
    requires
        forall|i: int| 0 <= i < ts.len() ==> wf_token(#[trigger] ts[i]),
    ensures
        tokens_of(join_tokens(ts)) == ts,
    decreases ts.len(),
{
    let e = Seq::<char>::empty();
    if ts.len() == 0 {
        assert(tokens_of(join_tokens(ts)) =~= ts);
    } else if ts.len() == 1 {
        lemma_toks_prefix(ts[0], e, e);
        assert(ts[0] + e =~= ts[0]);
        assert(e + ts[0] =~= ts[0]);
        assert(toks(e, ts[0]) == flush(ts[0]));
        assert(flush(ts[0]) =~= seq![ts[0]]);
        assert(seq![ts[0]] =~= ts);
    } else {
        let rest = ts.drop_first();
        let tail = seq![' '] + join_tokens(rest);
        assert(join_tokens(ts) == ts[0] + seq![' '] + join_tokens(rest));
        assert(ts[0] + seq![' '] + join_tokens(rest) =~= ts[0] + tail);
        lemma_toks_prefix(ts[0], tail, e);
        assert(e + ts[0] =~= ts[0]);
        assert(tokens_of(join_tokens(ts)) == toks(tail, ts[0]));
        assert(tail[0] == ' ');
        assert(ws_char(' '));
        assert(tail.drop_first() =~= join_tokens(rest));
        assert(toks(tail, ts[0]) == flush(ts[0]) + toks(join_tokens(rest), e));
        lemma_tokens_of_join(rest);
        assert(flush(ts[0]) =~= seq![ts[0]]);
        assert(seq![ts[0]] + rest =~= ts);
    }
}

/// The total character count of a token list.
pub open spec fn sum_len(ts: Seq<Seq<char>>) -> int
    decreases ts.len(),
{
    if ts.len() == 0 {
        0
    } else {
        ts[0].len() + sum_len(ts.drop_first())
    }
}

pub proof fn lemma_sum_len_nonneg(ts: Seq<Seq<char>>)
    ensures
        sum_len(ts) >= 0,
    decreases ts.len(),
{
    if ts.len() > 0 {
        lemma_sum_len_nonneg(ts.drop_first());
    }
}

pub proof fn lemma_sum_len_concat(x: Seq<Seq<char>>, y: Seq<Seq<char>>)
    ensures
        sum_len(x + y) == sum_len(x) + sum_len(y),
    decreases x.len(),
{
    if x.len() == 0 {
        assert(x + y =~= y);
    } else {
        assert((x + y).drop_first() =~= x.drop_first() + y);
        assert((x + y)[0] == x[0]);
        lemma_sum_len_concat(x.drop_first(), y);
    }
}

/// The character count of a single-token list.
pub proof fn lemma_sum_len_singleton(t: Seq<char>)
    ensures
        sum_len(seq![t]) == t.len(),
{
    assert(seq![t][0] == t);
    assert(seq![t].drop_first() =~= Seq::<Seq<char>>::empty());
    assert(sum_len(Seq::<Seq<char>>::empty()) == 0);
}

/// A prefix of a token list counts no more characters than the whole.
pub proof fn lemma_sum_len_prefix(ts: Seq<Seq<char>>, i: int)
    requires
        0 <= i <= ts.len(),
    ensures
        sum_len(ts.take(i)) <= sum_len(ts),
{
    assert(ts.take(i) + ts.skip(i) =~= ts);
    lemma_sum_len_concat(ts.take(i), ts.skip(i));
    lemma_sum_len_nonneg(ts.skip(i));
}

/// The tokenizer produces at most one token per input character, and the
/// tokens together hold at most the input's characters.
pub proof fn lemma_toks_size(s: Seq<char>, cur: Seq<char>)
    ensures
        toks(s, cur).len() <= s.len() + flush(cur).len(),
        sum_len(toks(s, cur)) <= s.len() + cur.len(),
    decreases s.len(),
{
    if s.len() == 0 {
        if cur.len() > 0 {
            assert(toks(s, cur) == flush(cur));
            assert(seq![cur].drop_first() =~= Seq::<Seq<char>>::empty());
            assert(seq![cur][0] == cur);
            assert(sum_len(seq![cur]) == cur.len() + sum_len(Seq::<Seq<char>>::empty()));
        }
    } else if ws_char(s[0]) {
        lemma_toks_size(s.drop_first(), Seq::empty());
        lemma_sum_len_concat(flush(cur), toks(s.drop_first(), Seq::empty()));
        if cur.len() > 0 {
            assert(seq![cur].drop_first() =~= Seq::<Seq<char>>::empty());
            assert(seq![cur][0] == cur);
            assert(sum_len(flush(cur)) == cur.len() + sum_len(Seq::<Seq<char>>::empty()));
        }
    } else {
        lemma_toks_size(s.drop_first(), cur.push(s[0]));
        assert(flush(cur.push(s[0])).len() == 1);
        assert(flush(cur).len() <= 1);
    }
}

/// Whether `pat` occurs in `s` at position `k`.
pub open spec fn match_at(s: Seq<char>, pat: Seq<char>, k: int) -> bool {
    0 <= k && k + pat.len() <= s.len() && s.subrange(k, k + pat.len()) == pat
}

/// Whether `pat` occurs anywhere in `s`.
pub open spec fn contains_sub(s: Seq<char>, pat: Seq<char>) -> bool {
    exists|k: int| match_at(s, pat, k)
}

/// The first occurrence of `pat` in `s` at or after `k`.
pub open spec fn find_from(s: Seq<char>, pat: Seq<char>, k: int) -> Option<int>
    decreases s.len() - k + 1,
{
    if k < 0 || k + pat.len() > s.len() {
        None
    } else if match_at(s, pat, k) {
        Some(k)
    } else {
        find_from(s, pat, k + 1)
    }
}

pub proof fn lemma_find_from_props(s: Seq<char>, pat: Seq<char>, k: int)
    requires
        0 <= k,
    ensures
        match find_from(s, pat, k) {
            Some(i) => k <= i && match_at(s, pat, i) && forall|j: int|
                k <= j < i ==> !match_at(s, pat, j),
            None => forall|j: int| j >= k ==> !match_at(s, pat, j),
        },
    decreases s.len() - k + 1,
{
    if k + pat.len() > s.len() {
        assert forall|j: int| j >= k implies !match_at(s, pat, j) by {}
    } else if match_at(s, pat, k) {
    } else {
        lemma_find_from_props(s, pat, k + 1);
    }
}

/// Whether `pat` occurs in `s` starting exactly at `k`.
fn matches_here(s: &Vec<char>, pat: &Vec<char>, k: usize) -> (r: bool)
    requires
        k + pat@.len() <= s@.len(),
    ensures
        r == match_at(s@, pat@, k as int),
{
    let m = pat.len();
    let sl = s.len();
    let mut j: usize = 0;
    while j < m
        invariant
            m == pat@.len(),
            sl == s@.len(),
            k + m <= sl,
            0 <= j <= m,
            forall|p: int| 0 <= p < j ==> s@[k + p] == pat@[p],
        decreases m - j,
    {
        if s[k + j] != pat[j] {
            proof {
                assert(s@.subrange(k as int, k + m) != pat@) by {
                    assert(s@.subrange(k as int, k + m)[j as int] == s@[k + j]);
                }
            }
            return false;
        }
        j = j + 1;
    }
    proof {
        assert(s@.subrange(k as int, k + m) =~= pat@);
    }
    true
}

/// The position of the first occurrence of `pat` in `s`, if any.
pub fn find_sub(s: &Vec<char>, pat: &Vec<char>) -> (r: Option<usize>)
    ensures
        match r {
            Some(i) => find_from(s@, pat@, 0) == Some(i as int),
            None => find_from(s@, pat@, 0) is None,
        },
{
    let n = s.len();
    let m = pat.len();
    if m > n {
        return None;
    }
    let mut k: usize = 0;
    while k <= n - m
        invariant
            n == s@.len(),
            m == pat@.len(),
            m <= n,
            0 <= k <= n - m + 1,
            find_from(s@, pat@, 0) == find_from(s@, pat@, k as int),
        decreases n - k,
    {
        if matches_here(s, pat, k) {
            return Some(k);
        }
        proof {
            if m == 0 {
                assert(s@.subrange(k as int, k as int) =~= pat@);
                assert(match_at(s@, pat@, k as int));
            }
        }
        k = k + 1;
    }
    None
}

/// Whether `s` holds `pat` as a substring.
pub fn contains_chars(s: &Vec<char>, pat: &Vec<char>) -> (r: bool)
    ensures
        r == contains_sub(s@, pat@),
{
    match find_sub(s, pat) {
        Some(i) => {
            proof {
                lemma_find_from_props(s@, pat@, 0);
            }
            true
        },
        None => {
            proof {
                lemma_find_from_props(s@, pat@, 0);
                if contains_sub(s@, pat@) {
                    let k = choose|k: int| match_at(s@, pat@, k);
                    assert(!match_at(s@, pat@, k));
                }
            }
            false
        },
    }
}

/// Whether two string slices hold the same characters.
pub fn str_eq(a: &str, b: &str) -> (r: bool)
    ensures
        r == (a@ == b@),
{
    let ca = string_to_chars(a);
    let cb = string_to_chars(b);
    chars_eq(&ca, &cb)
}

/// Whether two character vectors hold the same sequence.
pub fn chars_eq(a: &Vec<char>, b: &Vec<char>) -> (r: bool)
    ensures
        r == (a@ == b@),
{
    if a.len() != b.len() {
        proof {
            assert(a@.len() != b@.len());
        }
        return false;
    }
    let n = a.len();
    let mut i: usize = 0;
    while i < n
        invariant
            n == a@.len(),
            n == b@.len(),
            0 <= i <= n,
            forall|j: int| 0 <= j < i ==> a@[j] == b@[j],
        decreases n - i,
    {
        if a[i] != b[i] {
            return false;
        }
        i = i + 1;
    }
    proof {
        assert(a@ =~= b@);
    }
    true
}

} // verus!
