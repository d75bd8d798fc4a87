//! Query canonicalization.
//!
//! `normalize` rewrites raw query text into a canonical form so that
//! queries that differ only in case, surrounding whitespace or covered
//! punctuation share one cache row.  The pipeline applies, in a fixed
//! order: trim, lowercase, abbreviation expansion, punctuation stripping,
//! stopword removal, and a final whitespace collapse.  `compute_hash`
//! digests the canonical form with the stable hash of `strhash`.

use vstd::prelude::*;
use crate::chars::{
    alnum_char, chars_eq, chars_to_string, join, join_tokens, lemma_tokens_of_join, lemma_toks_wf,
    lowercase, lower_of, split_tokens, string_to_chars, tokens_of, trim, trim_spec, wf_token,
};
use crate::error::CyxError;
use crate::strhash::{fnv_chars, fnv_hash, hex16, to_hex16};

verus! {

/// Which normalization steps run; immutable once constructed.
#[derive(Debug, Clone)]
pub struct NormalizationConfig {
    pub lowercase: bool,
    pub remove_punctuation: bool,
    pub expand_abbreviations: bool,
    pub trim_whitespace: bool,
    pub remove_stopwords: bool,
}

/// The configuration that `Default` yields: everything but punctuation
/// stripping is on.
pub open spec fn default_config() -> NormalizationConfig {
    NormalizationConfig {
        lowercase: true,
        remove_punctuation: false,
        expand_abbreviations: true,
        trim_whitespace: true,
        remove_stopwords: true,
    }
}

impl Default for NormalizationConfig {
    fn default() -> (r: NormalizationConfig)
        ensures
            r == default_config(),
    {
        NormalizationConfig {
            lowercase: true,
            remove_punctuation: false,
            expand_abbreviations: true,
            trim_whitespace: true,
            remove_stopwords: true,
        }
    }
}

/// Canonicalizes query text against an abbreviation lexicon and a
/// stopword lexicon, both fixed at construction.
pub struct QueryNormalizer {
    config: NormalizationConfig,
    abbreviations: Vec<(Vec<char>, Vec<char>)>,
    stopwords: Vec<Vec<char>>,
}

/// `t` with its trailing non-alphanumeric characters removed; this is the
/// form under which a token is looked up in the abbreviation lexicon.
pub open spec fn strip_trailing(t: Seq<char>) -> Seq<char>
    decreases t.len(),
{
    if t.len() == 0 {
        t
    } else if !alnum_char(t.last()) {
        strip_trailing(t.drop_last())
    } else {
        t
    }
}

/// The expansion of the first lexicon entry whose key is `key`, if any.
pub open spec fn lookup_abbrev(ab: Seq<(Seq<char>, Seq<char>)>, key: Seq<char>) -> Option<
    Seq<char>,
>
    decreases ab.len(),
{
    if ab.len() == 0 {
        None
    } else if ab[0].0 == key {
        Some(ab[0].1)
    } else {
        lookup_abbrev(ab.drop_first(), key)
    }
}

/// A token's replacement: its expansion when the stripped token is in the
/// lexicon, the token itself otherwise.
pub open spec fn expand_token(ab: Seq<(Seq<char>, Seq<char>)>, t: Seq<char>) -> Seq<char> {
    match lookup_abbrev(ab, strip_trailing(t)) {
        Some(e) => e,
        None => t,
    }
}

/// The abbreviation-expansion step: every whitespace token replaced
/// independently, the results joined by single spaces.
pub open spec fn expand_spec(ab: Seq<(Seq<char>, Seq<char>)>, s: Seq<char>) -> Seq<char> {
    join_tokens(tokens_of(s).map_values(|t: Seq<char>| expand_token(ab, t)))
}

/// A character that the punctuation-stripping step keeps.
pub open spec fn kept_char(c: char) -> bool {
    alnum_char(c) || c == '-' || c == '_' || c == '/'
}

/// The punctuation-stripping scan: kept characters pass through, every
/// other run collapses to a single space.  `last_sp` records whether a
/// space was just emitted.
pub open spec fn punct_scan(s: Seq<char>, last_sp: bool) -> Seq<char>
    decreases s.len(),
{
    if s.len() == 0 {
        Seq::empty()
    } else if kept_char(s[0]) {
        seq![s[0]] + punct_scan(s.drop_first(), false)
    } else if last_sp {
        punct_scan(s.drop_first(), true)
    } else {
        seq![' '] + punct_scan(s.drop_first(), true)
    }
}

/// The punctuation-stripping step, trimmed of boundary spaces.
pub open spec fn clean_punct_spec(s: Seq<char>) -> Seq<char> {
    trim_spec(punct_scan(s, false))
}

/// The stopword-removal step: tokens present in the stopword lexicon are
/// dropped, the rest joined by single spaces.
pub open spec fn stop_spec(sw: Seq<Seq<char>>, s: Seq<char>) -> Seq<char> {
    join_tokens(tokens_of(s).filter(|t: Seq<char>| !sw.contains(t)))
}

/// The final unconditional canonicalization: whitespace runs collapse to
/// single spaces and boundary whitespace goes away.
pub open spec fn collapse_spec(s: Seq<char>) -> Seq<char> {
    join_tokens(tokens_of(s))
}

/// The input after the configured trim and lowercase steps; the remaining
/// steps depend only on this string's whitespace tokens.
pub open spec fn pre_spec(cfg: NormalizationConfig, q: Seq<char>) -> Seq<char> {
    let s1 = if cfg.trim_whitespace {
        trim_spec(q)
    } else {
        q
    };
    if cfg.lowercase {
        lower_of(s1)
    } else {
        s1
    }
}

/// The pipeline stages after trim and lowercase, applied to the
/// trimmed, lowercased text `s2`.
pub open spec fn normalize_spec_tail(
    cfg: NormalizationConfig,
    ab: Seq<(Seq<char>, Seq<char>)>,
    sw: Seq<Seq<char>>,
    s2: Seq<char>,
) -> Seq<char> {
    let s3 = if cfg.expand_abbreviations {
        expand_spec(ab, s2)
    } else {
        s2
    };
    let s4 = if cfg.remove_punctuation {
        clean_punct_spec(s3)
    } else {
        s3
    };
    let s5 = if cfg.remove_stopwords {
        stop_spec(sw, s4)
    } else {
        s4
    };
    collapse_spec(s5)
}

/// The whole normalization pipeline.
pub open spec fn normalize_spec(
    cfg: NormalizationConfig,
    ab: Seq<(Seq<char>, Seq<char>)>,
    sw: Seq<Seq<char>>,
    q: Seq<char>,
) -> Seq<char> {
    normalize_spec_tail(cfg, ab, sw, pre_spec(cfg, q))
}

/// A copy of a character vector.
fn copy_chars(v: &Vec<char>) -> (r: Vec<char>)
    ensures
        r@ == v@,
{
    let mut r: Vec<char> = Vec::new();
    let n = v.len();
    let mut i: usize = 0;
    while i < n
        invariant
            n == v@.len(),
            0 <= i <= n,
            r@ == v@.take(i as int),
        decreases n - i,
    {
        r.push(v[i]);
        proof {
            assert(v@.take(i + 1) =~= v@.take(i as int).push(v@[i as int]));
        }
        i = i + 1;
    }
    proof {
        assert(v@.take(n as int) =~= v@);
    }
    r
}

proof fn lemma_strip_trailing_take(t: Seq<char>, j: int)
    requires
        0 <= j <= t.len(),
        forall|p: int| j <= p < t.len() ==> !alnum_char(t[p]),
        j > 0 ==> alnum_char(t[j - 1]),
    ensures
        strip_trailing(t) == t.take(j),
    decreases t.len() - j,
{
    if j == t.len() {
        assert(t.take(j) =~= t);
        if t.len() > 0 {
            assert(alnum_char(t.last()));
        }
    } else {
        assert(!alnum_char(t.last()));
        lemma_strip_trailing_take(t.drop_last(), j);
        assert(t.drop_last().take(j) =~= t.take(j));
    }
}

proof fn lemma_lookup_found(ab: Seq<(Seq<char>, Seq<char>)>, key: Seq<char>, i: int)
    requires
        0 <= i < ab.len(),
        forall|k: int| 0 <= k < i ==> ab[k].0 != key,
        ab[i].0 == key,
    ensures
        lookup_abbrev(ab, key) == Some(ab[i].1),
    decreases i,
{
    if i > 0 {
        lemma_lookup_found(ab.drop_first(), key, i - 1);
    }
}

proof fn lemma_lookup_missing(ab: Seq<(Seq<char>, Seq<char>)>, key: Seq<char>)
    requires
        forall|k: int| 0 <= k < ab.len() ==> ab[k].0 != key,
    ensures
        lookup_abbrev(ab, key) is None,
    decreases ab.len(),
{
    if ab.len() > 0 {
        lemma_lookup_missing(ab.drop_first(), key);
    }
}

impl QueryNormalizer {
    /// The configuration this normalizer runs with.
    pub closed spec fn spec_config(&self) -> NormalizationConfig {
        self.config
    }

    /// The abbreviation lexicon, as key/expansion character sequences.
    pub closed spec fn abbrevs(&self) -> Seq<(Seq<char>, Seq<char>)> {
        self.abbreviations.deep_view()
    }

    /// The stopword lexicon, as character sequences.
    pub closed spec fn stops(&self) -> Seq<Seq<char>> {
        self.stopwords.deep_view()
    }

    /// A normalizer over the given configuration and lexicons.  The
    /// lexicons come in as plain pairs and words; reading and parsing the
    /// lexicon files is the caller's concern.
    pub fn new(
        config: NormalizationConfig,
        abbreviations: Vec<(String, String)>,
        stopwords: Vec<String>,
    ) -> (r: QueryNormalizer)
        ensures
            r.spec_config() == config,
            r.abbrevs() == abbreviations.deep_view(),
            r.stops() == stopwords.deep_view(),
    {
        let mut ab: Vec<(Vec<char>, Vec<char>)> = Vec::new();
        let n = abbreviations.len();
        let mut i: usize = 0;
        while i < n
            invariant
                n == abbreviations@.len(),
                0 <= i <= n,
                ab@.len() == i,
                forall|k: int|
                    0 <= k < i ==> (#[trigger] ab@[k]).0@ == abbreviations@[k].0@ && ab@[k].1@
                        == abbreviations@[k].1@,
            decreases n - i,
        {
            let key = string_to_chars(abbreviations[i].0.as_str());
            let val = string_to_chars(abbreviations[i].1.as_str());
            ab.push((key, val));
            i = i + 1;
        }
        let mut sw: Vec<Vec<char>> = Vec::new();
        let m = stopwords.len();
        let mut j: usize = 0;
        while j < m
            invariant
                m == stopwords@.len(),
                0 <= j <= m,
                sw@.len() == j,
                forall|k: int| 0 <= k < j ==> (#[trigger] sw@[k])@ == stopwords@[k]@,
            decreases m - j,
        {
            let w = string_to_chars(stopwords[j].as_str());
            sw.push(w);
            j = j + 1;
        }
        proof {
            assert forall|k: int| 0 <= k < n implies ab.deep_view()[k]
                == abbreviations.deep_view()[k] by {
                assert(ab.deep_view()[k] == (ab@[k].0@, ab@[k].1@));
                assert(abbreviations.deep_view()[k] == (
                    abbreviations@[k].0@,
                    abbreviations@[k].1@,
                ));
            }
            assert(ab.deep_view() =~= abbreviations.deep_view());
            assert forall|k: int| 0 <= k < m implies sw.deep_view()[k]
                == stopwords.deep_view()[k] by {
                assert(sw.deep_view()[k] == sw@[k]@);
            }
            assert(sw.deep_view() =~= stopwords.deep_view());
        }
        QueryNormalizer { config, abbreviations: ab, stopwords: sw }
    }

    /// A normalizer with the default configuration over the given
    /// lexicons.
    pub fn with_defaults(abbreviations: Vec<(String, String)>, stopwords: Vec<String>) -> (r:
        QueryNormalizer)
        ensures
            r.spec_config() == default_config(),
            r.abbrevs() == abbreviations.deep_view(),
            r.stops() == stopwords.deep_view(),
    {
        QueryNormalizer::new(NormalizationConfig::default(), abbreviations, stopwords)
    }

    /// `t` without its trailing non-alphanumeric characters.
    fn strip_token(t: &Vec<char>) -> (r: Vec<char>)
        ensures
            r@ == strip_trailing(t@),
    {
        let n = t.len();
        let mut j: usize = n;
        while j > 0 && !t[j - 1].is_alphanumeric()
            invariant
                n == t@.len(),
                0 <= j <= n,
                forall|p: int| j <= p < n ==> !alnum_char(t@[p]),
            decreases j,
        {
            j = j - 1;
        }
        proof {
            lemma_strip_trailing_take(t@, j as int);
        }
        let mut r: Vec<char> = Vec::new();
        let mut i: usize = 0;
        while i < j
            invariant
                0 <= i <= j <= n,
                n == t@.len(),
                r@ == t@.take(i as int),
            decreases j - i,
        {
            r.push(t[i]);
            proof {
                assert(t@.take(i + 1) =~= t@.take(i as int).push(t@[i as int]));
            }
            i = i + 1;
        }
        r
    }

    /// The expansion for `key`, if the lexicon has it.
    fn lookup(&self, key: &Vec<char>) -> (r: Option<Vec<char>>)
        ensures
            match r {
                Some(v) => lookup_abbrev(self.abbrevs(), key@) == Some(v@),
                None => lookup_abbrev(self.abbrevs(), key@) is None,
            },
    {
        let n = self.abbreviations.len();
        let mut i: usize = 0;
        while i < n
            invariant
                n == self.abbreviations@.len(),
                0 <= i <= n,
                forall|k: int| 0 <= k < i ==> self.abbrevs()[k].0 != key@,
            decreases n - i,
        {
            if chars_eq(&self.abbreviations[i].0, key) {
                proof {
                    assert(self.abbrevs()[i as int].0 == key@);
                    lemma_lookup_found(self.abbrevs(), key@, i as int);
                }
                return Some(copy_chars(&self.abbreviations[i].1));
            }
            proof {
                assert(self.abbrevs()[i as int].0 == self.abbreviations@[i as int].0@);
            }
            i = i + 1;
        }
        proof {
            lemma_lookup_missing(self.abbrevs(), key@);
        }
        None
    }

    /// Replaces each whitespace token that the abbreviation lexicon knows
    /// (looked up with trailing punctuation stripped) by its expansion,
    /// and joins the tokens with single spaces.
    pub fn expand_abbreviations(&self, text: &str) -> (r: String)
        ensures
            r@ == expand_spec(self.abbrevs(), text@),
    {
        let cs = string_to_chars(text);
        let tokens = split_tokens(&cs);
        let ghost f = |t: Seq<char>| expand_token(self.abbrevs(), t);
        let mut expanded: Vec<Vec<char>> = Vec::new();
        let n = tokens.len();
        let mut i: usize = 0;
        while i < n
            invariant
                n == tokens@.len(),
                0 <= i <= n,
                f == (|t: Seq<char>| expand_token(self.abbrevs(), t)),
                expanded@.len() == i,
                forall|k: int|
                    0 <= k < i ==> (#[trigger] expanded@[k])@ == f(tokens.deep_view()[k]),
            decreases n - i,
        {
            let stripped = Self::strip_token(&tokens[i]);
            let out = match self.lookup(&stripped) {
                Some(e) => e,
                None => copy_chars(&tokens[i]),
            };
            proof {
                assert(tokens.deep_view()[i as int] == tokens@[i as int]@);
                assert(out@ == f(tokens.deep_view()[i as int]));
            }
            expanded.push(out);
            i = i + 1;
        }
        proof {
            let dv = tokens.deep_view();
            assert forall|k: int| 0 <= k < n implies expanded.deep_view()[k]
                == dv.map_values(f)[k] by {
                assert(expanded.deep_view()[k] == expanded@[k]@);
            }
            assert(expanded.deep_view() =~= dv.map_values(f));
        }
        let joined = join(&expanded);
        chars_to_string(&joined)
    }

    /// Keeps alphanumerics, `-`, `_` and `/`; collapses every other run
    /// of characters to a single space; trims the ends.
    pub fn clean_punctuation(&self, text: &str) -> (r: String)
        ensures
            r@ == clean_punct_spec(text@),
    {
        let cs = string_to_chars(text);
        let n = cs.len();
        let mut out: Vec<char> = Vec::new();
        let mut last_sp = false;
        let mut i: usize = 0;
        proof {
            assert(cs@.skip(0) =~= cs@);
        }
        while i < n
            invariant
                n == cs@.len(),
                0 <= i <= n,
                punct_scan(cs@, false) == out@ + punct_scan(cs@.skip(i as int), last_sp),
            decreases n - i,
        {
            let c = cs[i];
            proof {
                assert(cs@.skip(i as int)[0] == cs@[i as int]);
                assert(cs@.skip(i as int).drop_first() =~= cs@.skip(i as int + 1));
            }
            if c.is_alphanumeric() || c == '-' || c == '_' || c == '/' {
                out.push(c);
                last_sp = false;
                proof {
                    assert(out@ =~= out@.drop_last() + seq![c]);
                    assert(out@.drop_last() + (seq![c] + punct_scan(cs@.skip(i as int + 1), false))
                        =~= out@ + punct_scan(cs@.skip(i as int + 1), false));
                }
            } else if !last_sp {
                out.push(' ');
                last_sp = true;
                proof {
                    assert(out@ =~= out@.drop_last() + seq![' ']);
                    assert(out@.drop_last() + (seq![' '] + punct_scan(cs@.skip(i as int + 1), true))
                        =~= out@ + punct_scan(cs@.skip(i as int + 1), true));
                }
            }
            i = i + 1;
        }
        proof {
            assert(cs@.skip(n as int) =~= Seq::<char>::empty());
            assert(out@ + punct_scan(Seq::<char>::empty(), last_sp) =~= out@);
        }
        let trimmed = trim(&out);
        chars_to_string(&trimmed)
    }

    /// Whether the stopword lexicon holds `t`.
    fn is_stopword(&self, t: &Vec<char>) -> (r: bool)
        ensures
            r == self.stops().contains(t@),
    {
        let n = self.stopwords.len();
        let mut i: usize = 0;
        while i < n
            invariant
                n == self.stopwords@.len(),
                0 <= i <= n,
                forall|k: int| 0 <= k < i ==> self.stops()[k] != t@,
            decreases n - i,
        {
            if chars_eq(&self.stopwords[i], t) {
                proof {
                    assert(self.stops()[i as int] == t@);
                }
                return true;
            }
            proof {
                assert(self.stops()[i as int] == self.stopwords@[i as int]@);
            }
            i = i + 1;
        }
        proof {
            if self.stops().contains(t@) {
                let k = choose|k: int| 0 <= k < self.stops().len() && self.stops()[k] == t@;
                assert(self.stops()[k] != t@);
            }
        }
        false
    }

    /// Drops every whitespace token that the stopword lexicon holds and
    /// joins the rest with single spaces.
    pub fn remove_stopwords(&self, text: &str) -> (r: String)
        ensures
            r@ == stop_spec(self.stops(), text@),
    {
        let cs = string_to_chars(text);
        let tokens = split_tokens(&cs);
        let ghost pred = |t: Seq<char>| !self.stops().contains(t);
        let mut kept: Vec<Vec<char>> = Vec::new();
        let n = tokens.len();
        let mut i: usize = 0;
        proof {
            reveal_with_fuel(Seq::<Seq<char>>::filter, 2);
            assert(tokens.deep_view().take(0) =~= Seq::<Seq<char>>::empty());
            assert(kept.deep_view() =~= Seq::<Seq<char>>::empty().filter(pred));
        }
        while i < n
            invariant
                n == tokens@.len(),
                0 <= i <= n,
                pred == (|t: Seq<char>| !self.stops().contains(t)),
                kept.deep_view() == tokens.deep_view().take(i as int).filter(pred),
            decreases n - i,
        {
            let ghost dv = tokens.deep_view();
            proof {
                reveal_with_fuel(Seq::<Seq<char>>::filter, 2);
                assert(dv[i as int] == tokens@[i as int]@);
                assert(dv.take(i + 1).drop_last() =~= dv.take(i as int));
                assert(dv.take(i + 1).last() == dv[i as int]);
            }
            if !self.is_stopword(&tokens[i]) {
                let ghost prev = kept.deep_view();
                let t = copy_chars(&tokens[i]);
                kept.push(t);
                proof {
                    reveal_with_fuel(Seq::<Seq<char>>::filter, 2);
                    assert(kept.deep_view() =~~= prev.push(dv[i as int]));
                    assert(kept.deep_view() =~~= dv.take(i + 1).filter(pred));
                }
            } else {
                proof {
                    reveal_with_fuel(Seq::<Seq<char>>::filter, 2);
                    assert(kept.deep_view() =~~= dv.take(i + 1).filter(pred));
                }
            }
            i = i + 1;
        }
        proof {
            assert(tokens.deep_view().take(n as int) =~= tokens.deep_view());
        }
        let joined = join(&kept);
        chars_to_string(&joined)
    }

    /// Canonicalizes `query`: trims, lowercases, expands abbreviations,
    /// strips punctuation and removes stopwords as configured, then
    /// collapses whitespace.  Never fails; the `Result` mirrors the shape
    /// callers consume.
    pub fn normalize(&self, query: &str) -> (r: Result<String, CyxError>)
        ensures
            r is Ok,
            r matches Ok(v) ==> v@ == normalize_spec(
                self.spec_config(),
                self.abbrevs(),
                self.stops(),
                query@,
            ),
            query@.len() == 0 ==> (r matches Ok(v) ==> v@.len() == 0),
    {
        let step1: String = if self.config.trim_whitespace {
            let cs = string_to_chars(query);
            let t = trim(&cs);
            chars_to_string(&t)
        } else {
            let cs = string_to_chars(query);
            chars_to_string(&cs)
        };
        proof {
            if !self.config.trim_whitespace {
                assert(step1@ == query@);
            }
            if query@.len() == 0 {
                assert(trim_spec(query@) =~= query@);
            }
        }
        let step2: String = if self.config.lowercase {
            lowercase(step1.as_str())
        } else {
            step1
        };
        proof {
            assert(step2@ == pre_spec(self.spec_config(), query@));
        }
        let step3: String = if self.config.expand_abbreviations {
            self.expand_abbreviations(step2.as_str())
        } else {
            step2
        };
        let step4: String = if self.config.remove_punctuation {
            self.clean_punctuation(step3.as_str())
        } else {
            step3
        };
        let step5: String = if self.config.remove_stopwords {
            self.remove_stopwords(step4.as_str())
        } else {
            step4
        };
        let cs5 = string_to_chars(step5.as_str());
        let tokens = split_tokens(&cs5);
        let joined = join(&tokens);
        let result = chars_to_string(&joined);
        proof {
            if query@.len() == 0 {
                lemma_normalize_of_empty_stages(
                    self.spec_config(),
                    self.abbrevs(),
                    self.stops(),
                    step2@,
                );
            }
        }
        Ok(result)
    }

    /// The stable digest of a normalized query: the FNV-1a hash of its
    /// characters, as 16 lowercase hexadecimal digits.
    pub fn compute_hash(&self, normalized_query: &str) -> (r: String)
        ensures
            r@ == hex16(fnv_chars(normalized_query@)),
    {
        let cs = string_to_chars(normalized_query);
        let h = fnv_hash(&cs);
        let hx = to_hex16(h);
        chars_to_string(&hx)
    }
}

/// Every stage maps the empty string to the empty string, so an empty
/// query normalizes to the empty string.
proof fn lemma_normalize_of_empty_stages(
    cfg: NormalizationConfig,
    ab: Seq<(Seq<char>, Seq<char>)>,
    sw: Seq<Seq<char>>,
    s2: Seq<char>,
)
    requires
        s2.len() == 0,
    ensures
        normalize_spec_tail(cfg, ab, sw, s2).len() == 0,
{
    let e = Seq::<char>::empty();
    let et = Seq::<Seq<char>>::empty();
    reveal_with_fuel(Seq::<Seq<char>>::filter, 2);
    assert(s2 =~= e);
    assert(tokens_of(e) =~= et);
    assert(et.map_values(|t: Seq<char>| expand_token(ab, t)) =~= et);
    assert(join_tokens(et) =~= e);
    assert(expand_spec(ab, e) == e);
    assert(punct_scan(e, false) =~= e);
    assert(trim_spec(e) =~= e);
    assert(clean_punct_spec(e) == e);
    assert(et.filter(|t: Seq<char>| !sw.contains(t)) =~= et);
    assert(stop_spec(sw, e) == e);
    assert(collapse_spec(e) == e);
}

proof fn lemma_filter_none(s: Seq<Seq<char>>, pred: spec_fn(Seq<char>) -> bool)
    requires
        forall|i: int| 0 <= i < s.len() ==> !pred(s[i]),
    ensures
        s.filter(pred).len() == 0,
    decreases s.len(),
{
    reveal_with_fuel(Seq::<Seq<char>>::filter, 2);
    if s.len() > 0 {
        assert(!pred(s.last()));
        lemma_filter_none(s.drop_last(), pred);
    }
}

/// Normalization is a function of the whitespace tokens of the trimmed,
/// lowercased input: two queries that differ only in letter case, in
/// surrounding whitespace, or in the length of whitespace runs have the
/// same tokens there, so they normalize to the same text and
/// `compute_hash` gives them the same digest.
pub proof fn lemma_normalize_token_function(
    cfg: NormalizationConfig,
    ab: Seq<(Seq<char>, Seq<char>)>,
    sw: Seq<Seq<char>>,
    a: Seq<char>,
    b: Seq<char>,
)
    requires
        cfg.expand_abbreviations,
        tokens_of(pre_spec(cfg, a)) == tokens_of(pre_spec(cfg, b)),
    ensures
        normalize_spec(cfg, ab, sw, a) == normalize_spec(cfg, ab, sw, b),
        hex16(fnv_chars(normalize_spec(cfg, ab, sw, a))) == hex16(
            fnv_chars(normalize_spec(cfg, ab, sw, b)),
        ),
{
    let s2a = pre_spec(cfg, a);
    let s2b = pre_spec(cfg, b);
    assert(expand_spec(ab, s2a) == expand_spec(ab, s2b));
    assert(normalize_spec_tail(cfg, ab, sw, s2a) == normalize_spec_tail(cfg, ab, sw, s2b));
}

/// A query made only of stopwords normalizes to the empty string: when
/// every whitespace token of the trimmed, lowercased input is a stopword
/// and none of them (with trailing punctuation stripped) is an
/// abbreviation key, the stopword step drops them all.  Stated for
/// configurations that do not strip punctuation, as the default
/// configuration does not.
pub proof fn lemma_stopwords_only_normalize_to_empty(
    cfg: NormalizationConfig,
    ab: Seq<(Seq<char>, Seq<char>)>,
    sw: Seq<Seq<char>>,
    q: Seq<char>,
)
    requires
        cfg.remove_stopwords,
        !cfg.remove_punctuation,
        forall|i: int|
            0 <= i < tokens_of(pre_spec(cfg, q)).len() ==> sw.contains(
                #[trigger] tokens_of(pre_spec(cfg, q))[i],
            ),
        forall|i: int|
            0 <= i < tokens_of(pre_spec(cfg, q)).len() ==> lookup_abbrev(
                ab,
                strip_trailing(#[trigger] tokens_of(pre_spec(cfg, q))[i]),
            ) is None,
    ensures
        normalize_spec(cfg, ab, sw, q).len() == 0,
{
    let s2 = pre_spec(cfg, q);
    let ts = tokens_of(s2);
    let s3 = if cfg.expand_abbreviations {
        expand_spec(ab, s2)
    } else {
        s2
    };
    let f = |t: Seq<char>| expand_token(ab, t);
    assert forall|i: int| 0 <= i < ts.len() implies ts.map_values(f)[i] == #[trigger] ts[i] by {
        assert(lookup_abbrev(ab, strip_trailing(ts[i])) is None);
        assert(ts.map_values(f)[i] == f(ts[i]));
    }
    assert(ts.map_values(f) =~= ts);
    assert(ts.map_values(|t: Seq<char>| expand_token(ab, t)) == ts.map_values(f));
    assert(expand_spec(ab, s2) == join_tokens(ts));
    lemma_toks_wf(s2, Seq::empty());
    assert(forall|i: int| 0 <= i < ts.len() ==> wf_token(#[trigger] ts[i]));
    lemma_tokens_of_join(ts);
    assert(tokens_of(s3) == ts);
    let s4 = s3;
    let pred = |t: Seq<char>| !sw.contains(t);
    lemma_filter_none(ts, pred);
    assert(tokens_of(s4).filter(pred).len() == 0);
    assert(tokens_of(s4).filter(pred) =~= Seq::<Seq<char>>::empty());
    let s5 = stop_spec(sw, s4);
    assert(s5 == join_tokens(Seq::<Seq<char>>::empty()));
    assert(s5 =~= Seq::<char>::empty());
    lemma_normalize_of_empty_stages(cfg, ab, sw, s5);
    assert(collapse_spec(s5).len() == 0);
}

} // verus!