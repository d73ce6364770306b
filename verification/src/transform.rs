use vstd::prelude::*;

use crate::strutil::{has_match, lemma_replace_all_absent, replace_all, replace_all_str};

verus! {

/// The characters of `"/commit/"`.
pub open spec fn commit_segment() -> Seq<char> {
    seq!['/', 'c', 'o', 'm', 'm', 'i', 't', '/']
}

/// The characters of `"github.com"`.
pub open spec fn github_host() -> Seq<char> {
    seq!['g', 'i', 't', 'h', 'u', 'b', '.', 'c', 'o', 'm']
}

/// The characters of `"travis-ci.org"`.
pub open spec fn travis_host() -> Seq<char> {
    seq!['t', 'r', 'a', 'v', 'i', 's', '-', 'c', 'i', '.', 'o', 'r', 'g']
}

/// Appends the commit page path for `hash` to a canonical repository URL.
/// The hash is taken as an opaque string: no format validation.
pub fn with_commit(repo_url: &str, hash: &str) -> (r: String)
    ensures
        r@ == repo_url@ + commit_segment() + hash@,
{
    let mut out = String::from_str(repo_url);
    out.append("/commit/");
    proof {
        reveal_strlit("/commit/");
        assert("/commit/"@ =~= commit_segment());
    }
    out.append(hash);
    out
}

/// Derives the CI-provider page from a canonical repository URL by replacing
/// every occurrence of `"github.com"` with `"travis-ci.org"`.
pub fn to_ci_url(repo_url: &str) -> (r: String)
    ensures
        r@ == replace_all(repo_url@, github_host(), travis_host()),
{
    proof {
        reveal_strlit("github.com");
        reveal_strlit("travis-ci.org");
        assert("github.com"@ =~= github_host());
        assert("travis-ci.org"@ =~= travis_host());
    }
    replace_all_str(repo_url, "github.com", "travis-ci.org")
}

/// The standard-library documentation search page for `term`. The term is
/// taken as an opaque string; it needs no repository context.
pub fn doc_search_url(term: &str) -> (r: String)
    ensures
        r@ == "https://doc.rust-lang.org/std/index.html?search="@ + term@,
{
    let mut out = String::from_str("https://doc.rust-lang.org/std/index.html?search=");
    out.append(term);
    out
}

/// A URL in which `"github.com"` does not occur is returned by `to_ci_url`
/// unchanged.
pub proof fn lemma_to_ci_url_absent(url: Seq<char>)
    requires
        !has_match(url, github_host()),
    ensures
        replace_all(url, github_host(), travis_host()) == url,
{
    lemma_replace_all_absent(url, github_host(), travis_host());
}

} // verus!
