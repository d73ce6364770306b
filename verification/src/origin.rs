use vstd::prelude::*;

use crate::errors::Error;
use crate::strutil::{find_char, first_index, has_char, is_first, starts_with, starts_with_str};

verus! {

/// The characters of `".git"`.
pub open spec fn git_suffix() -> Seq<char> {
    seq!['.', 'g', 'i', 't']
}

/// The characters of `"https://"`.
pub open spec fn https_prefix() -> Seq<char> {
    seq!['h', 't', 't', 'p', 's', ':', '/', '/']
}

/// The characters of `"http://"`.
pub open spec fn http_prefix() -> Seq<char> {
    seq!['h', 't', 't', 'p', ':', '/', '/']
}

/// `s` ends in `p`.
pub open spec fn ends_with(s: Seq<char>, p: Seq<char>) -> bool {
    s.len() >= p.len() && s.subrange(s.len() - p.len(), s.len() as int) == p
}

/// `s` with every trailing `".git"` removed: suffixes are stripped until
/// none remains, so the result never ends in `".git"`. A mid-string
/// occurrence is untouched.
pub open spec fn strip_git(s: Seq<char>) -> Seq<char>
    decreases s.len(),
{
    if ends_with(s, git_suffix()) {
        strip_git(s.take(s.len() - 4))
    } else {
        s
    }
}

/// What stripping leaves never ends in `".git"`.
pub proof fn lemma_strip_git_no_suffix(s: Seq<char>)
    ensures
        !ends_with(strip_git(s), git_suffix()),
    decreases s.len(),
{
    if ends_with(s, git_suffix()) {
        lemma_strip_git_no_suffix(s.take(s.len() - 4));
    }
}

/// Stripping twice gives the same result as stripping once.
pub proof fn lemma_strip_git_idempotent(s: Seq<char>)
    ensures
        strip_git(strip_git(s)) == strip_git(s),
{
    lemma_strip_git_no_suffix(s);
}

/// Appending a `".git"` suffix does not change what stripping leaves.
pub proof fn lemma_strip_git_append(s: Seq<char>)
    ensures
        strip_git(s + git_suffix()) == strip_git(s),
{
    let t = s + git_suffix();
    assert(t.subrange(t.len() - 4, t.len() as int) =~= git_suffix());
    assert(ends_with(t, git_suffix()));
    assert(t.take(t.len() - 4) =~= s);
}

/// The SSH-style convention: a non-empty user token, then `@`, then a
/// non-empty host, then the first `:`; the owner/repo path follows the colon.
pub open spec fn ssh_form(s: Seq<char>) -> bool {
    &&& has_char(s, '@')
    &&& has_char(s, ':')
    &&& first_index(s, '@') >= 1
    &&& first_index(s, ':') >= first_index(s, '@') + 2
}

/// The HTTP(S) convention: the string carries its own scheme.
pub open spec fn http_form(s: Seq<char>) -> bool {
    starts_with(s, http_prefix()) || starts_with(s, https_prefix())
}

/// A remote that carries its own HTTP(S) scheme never matches the SSH-style
/// convention: its first colon ends the scheme, and no `@` stands before it.
pub proof fn lemma_http_not_ssh(s: Seq<char>)
    requires
        http_form(s),
    ensures
        !ssh_form(s),
{
    if ssh_form(s) {
        let i = first_index(s, '@');
        let j = first_index(s, ':');
        assert(is_first(s, '@', i) && is_first(s, ':', j)) by {
            crate::strutil::lemma_has_first(s, '@');
            crate::strutil::lemma_has_first(s, ':');
        }
        if starts_with(s, http_prefix()) {
            assert(forall|k: int|
                0 <= k < 7 ==> #[trigger] s[k] == s.subrange(0, 7)[k] && s.subrange(0, 7)[k]
                    == http_prefix()[k]);
            assert(s[4] == ':');
            assert(j <= 4);
            assert(i <= 2);
            assert(s[1] == 't' && s[2] == 't');
        } else {
            assert(forall|k: int|
                0 <= k < 8 ==> #[trigger] s[k] == s.subrange(0, 8)[k] && s.subrange(0, 8)[k]
                    == https_prefix()[k]);
            assert(s[5] == ':');
            assert(j <= 5);
            assert(i <= 3);
            assert(s[1] == 't' && s[2] == 't' && s[3] == 'p');
        }
    }
}

/// An HTTP(S) remote canonicalizes to the same string whether or not a
/// trailing `".git"` is appended: both shapes are HTTP-form, neither is
/// SSH-form, and stripping gives one result.
pub proof fn lemma_parse_git_suffix_insensitive(s: Seq<char>)
    requires
        http_form(s),
    ensures
        http_form(s + git_suffix()),
        !ssh_form(s),
        !ssh_form(s + git_suffix()),
        strip_git(s + git_suffix()) == strip_git(s),
{
    let t = s + git_suffix();
    assert(http_form(t)) by {
        if starts_with(s, http_prefix()) {
            assert(t.subrange(0, 7) =~= s.subrange(0, 7));
        } else {
            assert(t.subrange(0, 8) =~= s.subrange(0, 8));
        }
    }
    lemma_http_not_ssh(s);
    lemma_http_not_ssh(t);
    lemma_strip_git_append(s);
}

/// What `parse` returns on an SSH-style remote: `"https://"` followed by the
/// text after the first colon, with trailing `".git"` stripped. The host
/// named before the colon is not re-derived from the input: this tool is
/// single-host-oriented, so a non-GitHub SSH remote maps to a path-only URL
/// rather than to its real host; a known, deliberate limitation.
pub open spec fn ssh_result(s: Seq<char>) -> Seq<char> {
    https_prefix() + strip_git(s.skip(first_index(s, ':') + 1))
}

/// Stripping `".git"` suffixes preserves an HTTP(S) scheme: the suffix
/// window never reaches into the scheme, whose characters exclude `'.'`.
pub proof fn lemma_strip_git_keeps_scheme(s: Seq<char>)
    requires
        http_form(s),
    ensures
        http_form(strip_git(s)),
    decreases s.len(),
{
    if ends_with(s, git_suffix()) {
        let t = s.take(s.len() - 4);
        assert(s.subrange(s.len() - 4, s.len() as int)[0] == s[s.len() - 4]);
        assert(s[s.len() - 4] == '.');
        if starts_with(s, http_prefix()) {
            assert(forall|k: int| 0 <= k < 7 ==> #[trigger] s.subrange(0, 7)[k] == s[k]);
            assert(s.len() - 4 >= 7) by {
                if s.len() - 4 < 7 {
                    assert(s[s.len() - 4] == http_prefix()[s.len() - 4]);
                }
            }
            assert(t.subrange(0, 7) =~= s.subrange(0, 7));
            assert(starts_with(t, http_prefix()));
        } else {
            assert(forall|k: int| 0 <= k < 8 ==> #[trigger] s.subrange(0, 8)[k] == s[k]);
            assert(s.len() - 4 >= 8) by {
                if s.len() - 4 < 8 {
                    assert(s[s.len() - 4] == https_prefix()[s.len() - 4]);
                }
            }
            assert(t.subrange(0, 8) =~= s.subrange(0, 8));
            assert(starts_with(t, https_prefix()));
        }
        lemma_strip_git_keeps_scheme(t);
    }
}

/// What `parse` promises of every successful result: a canonical repository
/// URL starts with the scheme it was given (always `"https://"` for an
/// SSH-style remote) and never ends in `".git"`.
pub proof fn lemma_canonical_form(s: Seq<char>)
    ensures
        ssh_form(s) ==> starts_with(ssh_result(s), https_prefix()) && !ends_with(
            ssh_result(s),
            git_suffix(),
        ),
        http_form(s) ==> http_form(strip_git(s)) && !ends_with(strip_git(s), git_suffix()),
{
    if ssh_form(s) {
        let p = strip_git(s.skip(first_index(s, ':') + 1));
        lemma_strip_git_no_suffix(s.skip(first_index(s, ':') + 1));
        let r = https_prefix() + p;
        assert(r.subrange(0, 8) =~= https_prefix());
        assert(!ends_with(r, git_suffix())) by {
            if ends_with(r, git_suffix()) {
                assert(r.subrange(r.len() - 4, r.len() as int)[0] == r[r.len() - 4]);
                assert(r[r.len() - 4] == '.');
                if p.len() >= 4 {
                    assert(p.subrange(p.len() - 4, p.len() as int) =~= r.subrange(
                        r.len() - 4,
                        r.len() as int,
                    ));
                    assert(ends_with(p, git_suffix()));
                } else {
                    assert(r[r.len() - 4] == https_prefix()[4 + p.len() as int]);
                }
            }
        }
    }
    if http_form(s) {
        lemma_strip_git_keeps_scheme(s);
        lemma_strip_git_no_suffix(s);
    }
}

/// Normalizes a raw remote URL to its canonical web form.
///
/// An SSH-style remote becomes `"https://"` plus the path after the colon;
/// an HTTP(S) remote is kept, scheme and all; either way every trailing
/// `".git"` is stripped, so the result never ends in the suffix. Anything
/// else is `UnsupportedFormat`.
pub fn parse(raw: &str) -> (r: Result<String, Error>)
    ensures
        ssh_form(raw@) ==> (r matches Ok(u) && u@ == ssh_result(raw@)),
        !ssh_form(raw@) && http_form(raw@) ==> (r matches Ok(u) && u@ == strip_git(raw@)),
        !ssh_form(raw@) && !http_form(raw@) ==> r == Err::<String, Error>(
            Error::UnsupportedFormat,
        ),
{
    let len = raw.unicode_len();
    let at = find_char(raw, '@');
    let colon = find_char(raw, ':');
    if let (Some(i), Some(j)) = (at, colon) {
        if i >= 1 && j > i && j - i >= 2 {
            assert(ssh_form(raw@));
            assert(j < len);
            let mut out = String::from_str("https://");
            proof {
                reveal_strlit("https://");
                assert(out@ =~= https_prefix());
            }
            let path = strip_git_from(raw, j + 1);
            out.append(path.as_str());
            return Ok(out);
        }
    }
    assert(!ssh_form(raw@)) by {
        if ssh_form(raw@) {
            let ia = choose|k: int| is_first(raw@, '@', k);
            let ic = choose|k: int| is_first(raw@, ':', k);
            if let Some(i) = at {
                crate::strutil::lemma_first_unique(raw@, '@', i as int, ia);
            }
            if let Some(j) = colon {
                crate::strutil::lemma_first_unique(raw@, ':', j as int, ic);
            }
        }
    }
    let is_http = starts_with_str(raw, "http://");
    let is_https = starts_with_str(raw, "https://");
    proof {
        reveal_strlit("http://");
        reveal_strlit("https://");
        assert("http://"@ =~= http_prefix());
        assert("https://"@ =~= https_prefix());
    }
    if is_http || is_https {
        let out = strip_git_from(raw, 0);
        proof {
            assert(raw@.skip(0) =~= raw@);
        }
        Ok(out)
    } else {
        Err(Error::UnsupportedFormat)
    }
}

/// The suffix of `s` from `from` on, with every trailing `".git"` stripped.
fn strip_git_from(s: &str, from: usize) -> (r: String)
    requires
        from <= s@.len(),
    ensures
        r@ == strip_git(s@.skip(from as int)),
{
    let len = s.unicode_len();
    let mut end = len;
    proof {
        assert(s@.subrange(from as int, len as int) =~= s@.skip(from as int));
    }
    loop
        invariant
            len == s@.len(),
            from <= end <= len,
            strip_git(s@.skip(from as int)) == strip_git(s@.subrange(from as int, end as int)),
        decreases end,
    {
        let ghost cur = s@.subrange(from as int, end as int);
        proof {
            assert(forall|k: int| 0 <= k < cur.len() ==> #[trigger] cur[k] == s@[from + k]);
        }
        if end - from < 4 {
            assert(cur.len() < 4);
            assert(strip_git(cur) == cur);
            let sub = s.substring_char(from, end);
            assert(sub@ =~= cur);
            return String::from_str(sub);
        }
        let c0 = s.get_char(end - 4);
        let c1 = s.get_char(end - 3);
        let c2 = s.get_char(end - 2);
        let c3 = s.get_char(end - 1);
        if c0 == '.' && c1 == 'g' && c2 == 'i' && c3 == 't' {
            proof {
                assert(cur.subrange(cur.len() - 4, cur.len() as int) =~= git_suffix());
                assert(ends_with(cur, git_suffix()));
                assert(cur.take(cur.len() - 4) =~= s@.subrange(from as int, end - 4));
            }
            end -= 4;
        } else {
            proof {
                assert(!ends_with(cur, git_suffix())) by {
                    if cur.subrange(cur.len() - 4, cur.len() as int) == git_suffix() {
                        assert(forall|k: int|
                            0 <= k < 4 ==> #[trigger] cur.subrange(
                                cur.len() - 4,
                                cur.len() as int,
                            )[k] == cur[cur.len() - 4 + k]);
                        assert(cur[cur.len() - 4] == s@[end - 4]);
                        assert(cur[cur.len() - 3] == s@[end - 3]);
                        assert(cur[cur.len() - 2] == s@[end - 2]);
                        assert(cur[cur.len() - 1] == s@[end - 1]);
                    }
                }
                assert(strip_git(cur) == cur);
            }
            let sub = s.substring_char(from, end);
            assert(sub@ =~= cur);
            return String::from_str(sub);
        }
    }
}

} // verus!
