//! Web-search result records.  Issuing the search and parsing the result
//! page stay outside this crate; the trust decision on a URL is made
//! here.

use vstd::prelude::*;
use crate::chars::{contains_chars, contains_sub, string_to_chars};

verus! {

/// One search hit, flagged when its URL comes from a trusted source.
#[derive(Debug, Clone)]
pub struct SearchResult {
    pub title: String,
    pub snippet: String,
    pub url: String,
    pub is_trusted: bool,
}

impl SearchResult {
    /// A search hit; it is trusted exactly when the URL holds one of the
    /// trusted source fragments as a substring.
    pub fn new(title: String, snippet: String, url: String, trusted_sources: &[String]) -> (r:
        SearchResult)
        ensures
            r.title == title,
            r.snippet == snippet,
            r.url == url,
            r.is_trusted == exists|i: int|
                0 <= i < trusted_sources@.len() && contains_sub(
                    url@,
                    #[trigger] trusted_sources@[i]@,
                ),
    {
        let uc = string_to_chars(url.as_str());
        let n = trusted_sources.len();
        let mut is_trusted = false;
        let mut i: usize = 0;
        while i < n && !is_trusted
            invariant
                n == trusted_sources@.len(),
                uc@ == url@,
                0 <= i <= n,
                is_trusted ==> exists|k: int|
                    0 <= k < n && contains_sub(url@, #[trigger] trusted_sources@[k]@),
                !is_trusted ==> forall|k: int|
                    0 <= k < i ==> !contains_sub(url@, #[trigger] trusted_sources@[k]@),
            decreases n - i,
        {
            let sc = string_to_chars(trusted_sources[i].as_str());
            if contains_chars(&uc, &sc) {
                is_trusted = true;
            }
            i = i + 1;
        }
        proof {
            if !is_trusted && exists|k: int|
                0 <= k < n && contains_sub(url@, #[trigger] trusted_sources@[k]@) {
                let k = choose|k: int|
                    0 <= k < n && contains_sub(url@, #[trigger] trusted_sources@[k]@);
                assert(!contains_sub(url@, trusted_sources@[k]@));
            }
        }
        SearchResult { title, snippet, url, is_trusted }
    }
}

} // verus!
