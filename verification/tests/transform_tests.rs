use goto::transform::{doc_search_url, to_ci_url, with_commit};

#[test]
fn commit_page_is_appended() {
    let r = with_commit("https://github.com/u/r", "abc123");
    assert_eq!(r, "https://github.com/u/r/commit/abc123");
}

#[test]
fn commit_hash_is_opaque() {
    let r = with_commit("https://github.com/u/r", "not-a-hash!");
    assert_eq!(r, "https://github.com/u/r/commit/not-a-hash!");
}

#[test]
fn ci_url_replaces_github_host() {
    let r = to_ci_url("https://github.com/u/r");
    assert_eq!(r, "https://travis-ci.org/u/r");
}

#[test]
fn ci_url_leaves_other_hosts_unchanged() {
    let r = to_ci_url("https://gitlab.com/u/r");
    assert_eq!(r, "https://gitlab.com/u/r");
}

#[test]
fn doc_search_url_appends_term() {
    let r = doc_search_url("Vec");
    assert_eq!(r, "https://doc.rust-lang.org/std/index.html?search=Vec");
}
