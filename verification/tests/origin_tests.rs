use goto::errors::Error;
use goto::origin::parse;

#[test]
fn ssh_remote_with_git_suffix() {
    let r = parse("git@github.com:owner/repo.git");
    assert_eq!(r.unwrap(), "https://owner/repo");
}

#[test]
fn ssh_remote_without_git_suffix() {
    let r = parse("git@github.com:owner/repo");
    assert_eq!(r.unwrap(), "https://owner/repo");
}

#[test]
fn ssh_remote_other_host() {
    let r = parse("git@gitlab.example.org:team/proj.git");
    assert_eq!(r.unwrap(), "https://team/proj");
}

#[test]
fn https_remote_with_git_suffix() {
    let r = parse("https://github.com/owner/repo.git");
    assert_eq!(r.unwrap(), "https://github.com/owner/repo");
}

#[test]
fn https_remote_without_git_suffix() {
    let r = parse("https://github.com/owner/repo");
    assert_eq!(r.unwrap(), "https://github.com/owner/repo");
}

#[test]
fn http_scheme_is_preserved() {
    let r = parse("http://example.com/owner/repo.git");
    assert_eq!(r.unwrap(), "http://example.com/owner/repo");
}

#[test]
fn repeated_git_suffix_is_fully_stripped() {
    let r = parse("https://github.com/owner/repo.git.git");
    assert_eq!(r.unwrap(), "https://github.com/owner/repo");
    let r2 = parse("git@github.com:owner/repo.git.git");
    assert_eq!(r2.unwrap(), "https://owner/repo");
}

#[test]
fn git_suffix_mid_string_is_not_stripped() {
    let r = parse("https://example.com/a.gitx");
    assert_eq!(r.unwrap(), "https://example.com/a.gitx");
    let r2 = parse("https://a.git/b");
    assert_eq!(r2.unwrap(), "https://a.git/b");
}

#[test]
fn https_remote_with_user_is_not_ssh() {
    let r = parse("https://user@github.com/owner/repo.git");
    assert_eq!(r.unwrap(), "https://user@github.com/owner/repo");
}

#[test]
fn svn_remote_is_unsupported() {
    let r = parse("svn://example.com/repo");
    assert_eq!(r, Err(Error::UnsupportedFormat));
}

#[test]
fn empty_remote_is_unsupported() {
    assert_eq!(parse(""), Err(Error::UnsupportedFormat));
}

#[test]
fn bare_path_is_unsupported() {
    assert_eq!(parse("owner/repo"), Err(Error::UnsupportedFormat));
}
