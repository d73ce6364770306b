use vstd::prelude::*;

use crate::registry::Kv;
use crate::strutil::starts_with;

verus! {

// ---------------------------------------------------------------------------
// The registry file format, at the model level.
//
// A registry is stored as one object whose single field holds the mapping:
//
//     {
//       "url_map": {
//         "key": "url",
//         "key2": "url2"
//       }
//     }
//
// Keys and URLs are quoted strings in which `"` and `\` are written with a
// leading backslash; every other character stands for itself. The parser
// additionally accepts the standard single-character escapes of the JSON
// family (`\/`, `\n`, `\t`, `\r`, `\b`, `\f`), so files written by an
// ordinary JSON serializer read back; the renderer never emits them.
// ---------------------------------------------------------------------------

pub open spec fn is_ws(c: char) -> bool {
    c == ' ' || c == '\n' || c == '\t' || c == '\r'
}

pub open spec fn all_ws(s: Seq<char>) -> bool {
    forall|i: int| 0 <= i < s.len() ==> is_ws(#[trigger] s[i])
}

/// `s` without its leading whitespace.
pub open spec fn skip_ws(s: Seq<char>) -> Seq<char>
    decreases s.len(),
{
    if s.len() > 0 && is_ws(s[0]) {
        skip_ws(s.skip(1))
    } else {
        s
    }
}

/// How one character is written inside a quoted string.
pub open spec fn escape_char(c: char) -> Seq<char> {
    if c == '"' || c == '\\' {
        seq!['\\', c]
    } else {
        seq![c]
    }
}

/// How a whole string's characters are written inside the quotes.
pub open spec fn escape(s: Seq<char>) -> Seq<char>
    decreases s.len(),
{
    if s.len() == 0 {
        Seq::empty()
    } else {
        escape_char(s[0]) + escape(s.skip(1))
    }
}

/// A quoted, escaped string.
pub open spec fn render_string(s: Seq<char>) -> Seq<char> {
    seq!['"'] + escape(s) + seq!['"']
}

/// One rendered entry line: indentation, key, separator, URL.
pub open spec fn render_entry(k: Seq<char>, v: Seq<char>) -> Seq<char> {
    seq![' ', ' ', ' ', ' '] + render_string(k) + seq![':', ' '] + render_string(v)
}

/// The rendered entries after the first, each preceded by a separator.
pub open spec fn render_more(kvs: Seq<Kv>) -> Seq<char>
    decreases kvs.len(),
{
    if kvs.len() == 0 {
        Seq::empty()
    } else {
        seq![',', '\n'] + render_entry(kvs[0].0, kvs[0].1) + render_more(kvs.skip(1))
    }
}

/// The text up to and including the brace that opens the mapping.
pub open spec fn header() -> Seq<char> {
    seq!['{', '\n', ' ', ' ', '"', 'u', 'r', 'l', '_', 'm', 'a', 'p', '"', ':', ' ', '{']
}

/// The quoted field name that holds the mapping.
pub open spec fn field_tok() -> Seq<char> {
    seq!['"', 'u', 'r', 'l', '_', 'm', 'a', 'p', '"']
}

/// The rendered mapping between its braces: nothing for an empty registry,
/// else the entry lines and the closing brace's indentation.
pub open spec fn render_mid(kvs: Seq<Kv>) -> Seq<char> {
    if kvs.len() == 0 {
        Seq::<char>::empty()
    } else {
        seq!['\n'] + render_entry(kvs[0].0, kvs[0].1) + render_more(kvs.skip(1)) + seq![
            '\n',
            ' ',
            ' ',
        ]
    }
}

/// The whole rendered registry file.
pub open spec fn render_file(kvs: Seq<Kv>) -> Seq<char> {
    header() + render_mid(kvs) + seq!['}', '\n', '}', '\n']
}

// ---------------------------------------------------------------------------
// The parser, consuming from the front.
// ---------------------------------------------------------------------------

/// The character an escape sequence `\c` stands for, if `c` is an accepted
/// escape character.
pub open spec fn unescape_char(c: char) -> Option<char> {
    if c == '"' {
        Some('"')
    } else if c == '\\' {
        Some('\\')
    } else if c == '/' {
        Some('/')
    } else if c == 'n' {
        Some('\n')
    } else if c == 't' {
        Some('\t')
    } else if c == 'r' {
        Some('\r')
    } else if c == 'b' {
        Some('\u{0008}')
    } else if c == 'f' {
        Some('\u{000C}')
    } else {
        None
    }
}

/// The inside of a quoted string, starting after the opening quote: the
/// string's characters and the text after the closing quote. A backslash
/// must start one of the accepted escapes, and a string that ends before
/// its closing quote does not parse.
pub open spec fn parse_str_body(s: Seq<char>) -> Option<(Seq<char>, Seq<char>)>
    decreases s.len(),
{
    if s.len() == 0 {
        None
    } else if s[0] == '"' {
        Some((Seq::empty(), s.skip(1)))
    } else if s[0] == '\\' {
        if s.len() >= 2 && unescape_char(s[1]) is Some {
            match parse_str_body(s.skip(2)) {
                Some(p) => Some((seq![unescape_char(s[1])->0] + p.0, p.1)),
                None => None,
            }
        } else {
            None
        }
    } else {
        match parse_str_body(s.skip(1)) {
            Some(p) => Some((seq![s[0]] + p.0, p.1)),
            None => None,
        }
    }
}

/// A quoted string.
pub open spec fn parse_string(s: Seq<char>) -> Option<(Seq<char>, Seq<char>)> {
    if s.len() > 0 && s[0] == '"' {
        parse_str_body(s.skip(1))
    } else {
        None
    }
}

/// One `"key": "url"` pair, with leading whitespace allowed around the
/// tokens.
pub open spec fn parse_pair(s: Seq<char>) -> Option<(Kv, Seq<char>)> {
    let s1 = skip_ws(s);
    match parse_string(s1) {
        None => None,
        Some(kp) => {
            let s3 = skip_ws(kp.1);
            if s3.len() > 0 && s3[0] == ':' {
                match parse_string(skip_ws(s3.skip(1))) {
                    None => None,
                    Some(vp) => Some(((kp.0, vp.0), vp.1)),
                }
            } else {
                None
            }
        },
    }
}

pub proof fn lemma_skip_ws_len(s: Seq<char>)
    ensures
        skip_ws(s).len() <= s.len(),
    decreases s.len(),
{
    if s.len() > 0 && is_ws(s[0]) {
        lemma_skip_ws_len(s.skip(1));
    }
}

pub proof fn lemma_parse_str_body_len(s: Seq<char>)
    ensures
        parse_str_body(s) matches Some(p) ==> p.1.len() < s.len(),
    decreases s.len(),
{
    if s.len() == 0 {
    } else if s[0] == '"' {
    } else if s[0] == '\\' {
        if s.len() >= 2 && unescape_char(s[1]) is Some {
            lemma_parse_str_body_len(s.skip(2));
        }
    } else {
        lemma_parse_str_body_len(s.skip(1));
    }
}

pub proof fn lemma_parse_string_len(s: Seq<char>)
    ensures
        parse_string(s) matches Some(p) ==> p.1.len() + 2 <= s.len(),
{
    if s.len() > 0 && s[0] == '"' {
        lemma_parse_str_body_len(s.skip(1));
    }
}

pub proof fn lemma_parse_pair_len(s: Seq<char>)
    ensures
        parse_pair(s) matches Some(p) ==> p.1.len() < s.len(),
{
    let s1 = skip_ws(s);
    lemma_skip_ws_len(s);
    match parse_string(s1) {
        None => {},
        Some(kp) => {
            lemma_parse_string_len(s1);
            let s3 = skip_ws(kp.1);
            lemma_skip_ws_len(kp.1);
            if s3.len() > 0 && s3[0] == ':' {
                lemma_skip_ws_len(s3.skip(1));
                lemma_parse_string_len(skip_ws(s3.skip(1)));
            }
        },
    }
}

/// The entries after the first: either the closing brace, or a comma and
/// another pair, repeated.
pub open spec fn parse_more_entries(s: Seq<char>) -> Option<(Seq<Kv>, Seq<char>)>
    decreases s.len(),
    via parse_more_entries_dec
{
    let s1 = skip_ws(s);
    if s1.len() == 0 {
        None
    } else if s1[0] == '}' {
        Some((Seq::empty(), s1.skip(1)))
    } else if s1[0] == ',' {
        match parse_pair(s1.skip(1)) {
            None => None,
            Some(p) => match parse_more_entries(p.1) {
                None => None,
                Some(q) => Some((seq![p.0] + q.0, q.1)),
            },
        }
    } else {
        None
    }
}

#[via_fn]
proof fn parse_more_entries_dec(s: Seq<char>) {
    lemma_skip_ws_len(s);
    let s1 = skip_ws(s);
    if s1.len() > 0 && s1[0] != '}' && s1[0] == ',' {
        lemma_parse_pair_len(s1.skip(1));
    }
}

/// The mapping's entries, read just after its opening brace, through its
/// closing brace.
pub open spec fn parse_entry_list(s: Seq<char>) -> Option<(Seq<Kv>, Seq<char>)> {
    let s1 = skip_ws(s);
    if s1.len() > 0 && s1[0] == '}' {
        Some((Seq::empty(), s1.skip(1)))
    } else {
        match parse_pair(s) {
            None => None,
            Some(p) => match parse_more_entries(p.1) {
                None => None,
                Some(q) => Some((seq![p.0] + q.0, q.1)),
            },
        }
    }
}

/// The whole registry file: the outer object, the field name, the mapping,
/// and nothing but whitespace after the final brace.
pub open spec fn parse_file(s: Seq<char>) -> Option<Seq<Kv>> {
    let s1 = skip_ws(s);
    if !(s1.len() > 0 && s1[0] == '{') {
        None
    } else {
        let s2 = skip_ws(s1.skip(1));
        if !starts_with(s2, field_tok()) {
            None
        } else {
            let s3 = skip_ws(s2.skip(field_tok().len() as int));
            if !(s3.len() > 0 && s3[0] == ':') {
                None
            } else {
                let s4 = skip_ws(s3.skip(1));
                if !(s4.len() > 0 && s4[0] == '{') {
                    None
                } else {
                    match parse_entry_list(s4.skip(1)) {
                        None => None,
                        Some(p) => {
                            let s5 = skip_ws(p.1);
                            if s5.len() > 0 && s5[0] == '}' && skip_ws(s5.skip(1)).len() == 0 {
                                Some(p.0)
                            } else {
                                None
                            }
                        },
                    }
                }
            }
        }
    }
}

// ---------------------------------------------------------------------------
// Executable parsing, by index into the text.
// ---------------------------------------------------------------------------

fn ws_char(c: char) -> (r: bool)
    ensures
        r == is_ws(c),
{
    c == ' ' || c == '\n' || c == '\t' || c == '\r'
}

/// The index just past the whitespace that starts at `i`.
pub(crate) fn skip_ws_exec(s: &str, i: usize) -> (j: usize)
    requires
        i <= s@.len(),
    ensures
        i <= j <= s@.len(),
        skip_ws(s@.skip(i as int)) == s@.skip(j as int),
{
    let len = s.unicode_len();
    let mut j = i;
    loop
        invariant
            len == s@.len(),
            i <= j <= len,
            skip_ws(s@.skip(i as int)) == skip_ws(s@.skip(j as int)),
        decreases len - j,
    {
        if j >= len {
            assert(s@.skip(j as int).len() == 0);
            return j;
        }
        let c = s.get_char(j);
        assert(s@.skip(j as int)[0] == s@[j as int]);
        if !ws_char(c) {
            assert(skip_ws(s@.skip(j as int)) == s@.skip(j as int));
            return j;
        }
        proof {
            assert(s@.skip(j as int).skip(1) =~= s@.skip(j + 1));
        }
        j += 1;
    }
}

/// How a partial scan of a quoted string's body combines with the rest.
pub open spec fn body_result(acc: Seq<char>, rem: Option<(Seq<char>, Seq<char>)>) -> Option<
    (Seq<char>, Seq<char>),
> {
    match rem {
        Some(p) => Some((acc + p.0, p.1)),
        None => None,
    }
}

/// Reads a quoted string's body starting at `i` (just after the opening
/// quote); yields the string's characters and the index after the closing
/// quote.
pub(crate) fn parse_str_body_exec(s: &str, i: usize) -> (r: Option<(String, usize)>)
    requires
        i <= s@.len(),
    ensures
        match r {
            Some(p) => i < p.1 <= s@.len() && parse_str_body(s@.skip(i as int)) == Some(
                (p.0@, s@.skip(p.1 as int)),
            ),
            None => parse_str_body(s@.skip(i as int)) is None,
        },
{
    let len = s.unicode_len();
    let mut acc = String::new();
    let mut j = i;
    proof {
        assert(parse_str_body(s@.skip(i as int)) == body_result(
            acc@,
            parse_str_body(s@.skip(i as int)),
        )) by {
            match parse_str_body(s@.skip(i as int)) {
                Some(p) => {
                    assert(acc@ + p.0 =~= p.0);
                },
                None => {},
            }
        }
    }
    loop
        invariant
            len == s@.len(),
            i <= j <= len,
            parse_str_body(s@.skip(i as int)) == body_result(
                acc@,
                parse_str_body(s@.skip(j as int)),
            ),
        decreases len - j,
    {
        if j >= len {
            assert(s@.skip(j as int).len() == 0);
            return None;
        }
        let c = s.get_char(j);
        assert(s@.skip(j as int)[0] == s@[j as int]);
        if c == '"' {
            proof {
                assert(parse_str_body(s@.skip(j as int)) == Some(
                    (Seq::<char>::empty(), s@.skip(j as int).skip(1)),
                ));
                assert(s@.skip(j as int).skip(1) =~= s@.skip(j + 1));
                assert(acc@ + Seq::<char>::empty() =~= acc@);
            }
            return Some((acc, j + 1));
        }
        if c == '\\' {
            if j + 1 >= len {
                assert(s@.skip(j as int).len() < 2);
                return None;
            }
            let c2 = s.get_char(j + 1);
            assert(s@.skip(j as int)[1] == s@[j + 1]);
            proof {
                reveal_strlit("\"");
                reveal_strlit("\\");
                reveal_strlit("/");
                reveal_strlit("\n");
                reveal_strlit("\t");
                reveal_strlit("\r");
                reveal_strlit("\u{0008}");
                reveal_strlit("\u{000C}");
            }
            let piece: &str;
            if c2 == '"' {
                piece = "\"";
            } else if c2 == '\\' {
                piece = "\\";
            } else if c2 == '/' {
                piece = "/";
            } else if c2 == 'n' {
                piece = "\n";
            } else if c2 == 't' {
                piece = "\t";
            } else if c2 == 'r' {
                piece = "\r";
            } else if c2 == 'b' {
                piece = "\u{0008}";
            } else if c2 == 'f' {
                piece = "\u{000C}";
            } else {
                assert(unescape_char(c2) is None);
                return None;
            }
            proof {
                let u = unescape_char(c2)->0;
                assert(piece@ =~= seq![u]);
                assert(s@.skip(j as int).skip(2) =~= s@.skip(j + 2));
                let old_acc = acc@;
                assert(parse_str_body(s@.skip(i as int)) == body_result(
                    old_acc + seq![u],
                    parse_str_body(s@.skip(j + 2)),
                )) by {
                    match parse_str_body(s@.skip(j + 2)) {
                        Some(p) => {
                            assert(old_acc + (seq![u] + p.0) =~= (old_acc + seq![u]) + p.0);
                        },
                        None => {},
                    }
                }
            }
            acc.append(piece);
            j += 2;
        } else {
            let piece = s.substring_char(j, j + 1);
            proof {
                assert(piece@ =~= seq![s@[j as int]]);
                assert(s@.skip(j as int).skip(1) =~= s@.skip(j + 1));
                let old_acc = acc@;
                assert(parse_str_body(s@.skip(i as int)) == body_result(
                    old_acc + seq![c],
                    parse_str_body(s@.skip(j + 1)),
                )) by {
                    match parse_str_body(s@.skip(j + 1)) {
                        Some(p) => {
                            assert(old_acc + (seq![c] + p.0) =~= (old_acc + seq![c]) + p.0);
                        },
                        None => {},
                    }
                }
            }
            acc.append(piece);
            j += 1;
        }
    }
}

/// Reads a quoted string starting at `i` (at the opening quote).
pub(crate) fn parse_string_exec(s: &str, i: usize) -> (r: Option<(String, usize)>)
    requires
        i <= s@.len(),
    ensures
        match r {
            Some(p) => i < p.1 <= s@.len() && parse_string(s@.skip(i as int)) == Some(
                (p.0@, s@.skip(p.1 as int)),
            ),
            None => parse_string(s@.skip(i as int)) is None,
        },
{
    let len = s.unicode_len();
    if i >= len {
        assert(s@.skip(i as int).len() == 0);
        return None;
    }
    let c = s.get_char(i);
    assert(s@.skip(i as int)[0] == s@[i as int]);
    if c != '"' {
        return None;
    }
    proof {
        assert(s@.skip(i as int).skip(1) =~= s@.skip(i + 1));
    }
    parse_str_body_exec(s, i + 1)
}

/// Reads one `"key": "url"` pair starting at `i`.
pub(crate) fn parse_pair_exec(s: &str, i: usize) -> (r: Option<(String, String, usize)>)
    requires
        i <= s@.len(),
    ensures
        match r {
            Some(p) => i < p.2 <= s@.len() && parse_pair(s@.skip(i as int)) == Some(
                ((p.0@, p.1@), s@.skip(p.2 as int)),
            ),
            None => parse_pair(s@.skip(i as int)) is None,
        },
{
    let len = s.unicode_len();
    let j1 = skip_ws_exec(s, i);
    let key;
    let j2;
    match parse_string_exec(s, j1) {
        None => {
            return None;
        },
        Some(p) => {
            key = p.0;
            j2 = p.1;
        },
    }
    let j3 = skip_ws_exec(s, j2);
    if j3 >= len {
        assert(s@.skip(j3 as int).len() == 0);
        return None;
    }
    let c = s.get_char(j3);
    assert(s@.skip(j3 as int)[0] == s@[j3 as int]);
    if c != ':' {
        return None;
    }
    proof {
        assert(s@.skip(j3 as int).skip(1) =~= s@.skip(j3 + 1));
    }
    let j4 = skip_ws_exec(s, j3 + 1);
    match parse_string_exec(s, j4) {
        None => {
            return None;
        },
        Some(p) => Some((key, p.0, p.1)),
    }
}

/// How entries already read combine with the rest of the entry list.
pub open spec fn entries_result(acc: Seq<Kv>, rem: Option<(Seq<Kv>, Seq<char>)>) -> Option<
    (Seq<Kv>, Seq<char>),
> {
    match rem {
        Some(q) => Some((acc + q.0, q.1)),
        None => None,
    }
}

/// Whether the quoted field name stands at position `i`.
pub(crate) fn field_tok_at(s: &str, i: usize) -> (r: bool)
    requires
        i <= s@.len(),
    ensures
        r == starts_with(s@.skip(i as int), field_tok()),
{
    let len = s.unicode_len();
    if len - i < 9 {
        assert(s@.skip(i as int).len() < field_tok().len());
        return false;
    }
    let r = s.get_char(i) == '"' && s.get_char(i + 1) == 'u' && s.get_char(i + 2) == 'r'
        && s.get_char(i + 3) == 'l' && s.get_char(i + 4) == '_' && s.get_char(i + 5) == 'm'
        && s.get_char(i + 6) == 'a' && s.get_char(i + 7) == 'p' && s.get_char(i + 8) == '"';
    proof {
        let t = s@.skip(i as int);
        assert(forall|m: int| 0 <= m < 9 ==> #[trigger] t.subrange(0, 9)[m] == s@[i + m]);
        if r {
            assert(t.subrange(0, field_tok().len() as int) =~= field_tok());
        } else {
            assert(t.subrange(0, 9) != field_tok()) by {
                if t.subrange(0, 9) == field_tok() {
                    assert(s@[i as int] == '"');
                    assert(s@[i + 1] == 'u');
                    assert(s@[i + 2] == 'r');
                    assert(s@[i + 3] == 'l');
                    assert(s@[i + 4] == '_');
                    assert(s@[i + 5] == 'm');
                    assert(s@[i + 6] == 'a');
                    assert(s@[i + 7] == 'p');
                    assert(s@[i + 8] == '"');
                }
            }
        }
    }
    r
}

// ---------------------------------------------------------------------------
// Executable rendering, by appending to an output string.
// ---------------------------------------------------------------------------

/// Appends `s`'s characters in their escaped written form.
pub(crate) fn append_escaped(out: &mut String, s: &str)
    ensures
        final(out)@ == old(out)@ + escape(s@),
{
    let len = s.unicode_len();
    let mut i: usize = 0;
    proof {
        assert(s@.skip(0) =~= s@);
    }
    while i < len
        invariant
            len == s@.len(),
            0 <= i <= len,
            out@ + escape(s@.skip(i as int)) == old(out)@ + escape(s@),
        decreases len - i,
    {
        let c = s.get_char(i);
        proof {
            assert(s@.skip(i as int)[0] == s@[i as int]);
            assert(s@.skip(i as int).skip(1) =~= s@.skip(i + 1));
        }
        let ghost mid = out@;
        if c == '"' || c == '\\' {
            out.append("\\");
            proof {
                reveal_strlit("\\");
                assert("\\"@ =~= seq!['\\']);
            }
        }
        let piece = s.substring_char(i, i + 1);
        proof {
            assert(piece@ =~= seq![s@[i as int]]);
        }
        out.append(piece);
        proof {
            if c == '"' || c == '\\' {
                assert(out@ =~= mid + escape_char(c));
            } else {
                assert(out@ =~= mid + escape_char(c));
            }
            assert(out@ + escape(s@.skip(i + 1)) =~= mid + escape(s@.skip(i as int)));
        }
        i += 1;
    }
    proof {
        assert(s@.skip(len as int).len() == 0);
        assert(out@ + escape(s@.skip(len as int)) =~= out@);
    }
}

/// Appends `s` as a quoted, escaped string.
pub(crate) fn append_rendered_string(out: &mut String, s: &str)
    ensures
        final(out)@ == old(out)@ + render_string(s@),
{
    out.append("\"");
    append_escaped(out, s);
    out.append("\"");
    proof {
        reveal_strlit("\"");
        assert("\""@ =~= seq!['"']);
        assert(out@ =~= old(out)@ + render_string(s@));
    }
}

/// Appends one rendered entry line for `key` and `url`.
pub(crate) fn append_entry(out: &mut String, key: &str, url: &str)
    ensures
        final(out)@ == old(out)@ + render_entry(key@, url@),
{
    out.append("    ");
    append_rendered_string(out, key);
    out.append(": ");
    append_rendered_string(out, url);
    proof {
        reveal_strlit("    ");
        reveal_strlit(": ");
        assert("    "@ =~= seq![' ', ' ', ' ', ' ']);
        assert(": "@ =~= seq![':', ' ']);
        assert(out@ =~= old(out)@ + render_entry(key@, url@));
    }
}

// ---------------------------------------------------------------------------
// The parser inverts the renderer.
// ---------------------------------------------------------------------------

pub proof fn lemma_skip_ws_all(w: Seq<char>, s: Seq<char>)
    requires
        all_ws(w),
    ensures
        skip_ws(w + s) == skip_ws(s),
    decreases w.len(),
{
    if w.len() == 0 {
        assert(w + s =~= s);
    } else {
        assert((w + s)[0] == w[0]);
        assert((w + s).skip(1) =~= w.skip(1) + s);
        assert(all_ws(w.skip(1)));
        lemma_skip_ws_all(w.skip(1), s);
    }
}

pub proof fn lemma_skip_ws_nonws(s: Seq<char>)
    requires
        s.len() > 0,
        !is_ws(s[0]),
    ensures
        skip_ws(s) == s,
{
}

/// A string's escaped form, the closing quote, and anything after parse back
/// to the string itself and that remainder.
pub proof fn lemma_parse_escape(v: Seq<char>, rest: Seq<char>)
    ensures
        parse_str_body(escape(v) + seq!['"'] + rest) == Some((v, rest)),
    decreases v.len(),
{
    let s = escape(v) + seq!['"'] + rest;
    if v.len() == 0 {
        assert(escape(v) =~= Seq::<char>::empty());
        assert(s =~= seq!['"'] + rest);
        assert(s[0] == '"');
        assert(s.skip(1) =~= rest);
    } else {
        let c = v[0];
        assert(escape(v) == escape_char(c) + escape(v.skip(1)));
        lemma_parse_escape(v.skip(1), rest);
        if c == '"' || c == '\\' {
            assert(escape_char(c) == seq!['\\', c]);
            assert(escape(v)[0] == '\\' && escape(v)[1] == c);
            assert(s[0] == '\\' && s[1] == c);
            assert(s.len() >= 2);
            assert(s.skip(2) =~= escape(v.skip(1)) + seq!['"'] + rest);
            assert(seq![c] + v.skip(1) =~= v);
        } else {
            assert(escape_char(c) == seq![c]);
            assert(escape(v)[0] == c);
            assert(s[0] == c);
            assert(s.skip(1) =~= escape(v.skip(1)) + seq!['"'] + rest);
            assert(seq![c] + v.skip(1) =~= v);
        }
    }
}

pub proof fn lemma_parse_render_string(v: Seq<char>, rest: Seq<char>)
    ensures
        parse_string(render_string(v) + rest) == Some((v, rest)),
{
    let s = render_string(v) + rest;
    assert(s[0] == '"');
    assert(s.skip(1) =~= escape(v) + seq!['"'] + rest);
    lemma_parse_escape(v, rest);
}

/// Leading whitespace does not change what a pair parse yields.
pub proof fn lemma_parse_pair_ws(w: Seq<char>, x: Seq<char>)
    requires
        all_ws(w),
    ensures
        parse_pair(w + x) == parse_pair(x),
{
    lemma_skip_ws_all(w, x);
}

/// A rendered entry line and anything after parse back to its pair and that
/// remainder.
pub proof fn lemma_parse_render_entry(k: Seq<char>, v: Seq<char>, rest: Seq<char>)
    ensures
        parse_pair(render_entry(k, v) + rest) == Some(((k, v), rest)),
{
    let rest2 = seq![':', ' '] + (render_string(v) + rest);
    let x = render_string(k) + rest2;
    assert(render_entry(k, v) + rest =~= seq![' ', ' ', ' ', ' '] + x);
    assert(all_ws(seq![' ', ' ', ' ', ' ']));
    lemma_skip_ws_all(seq![' ', ' ', ' ', ' '], x);
    assert(x[0] == '"');
    lemma_skip_ws_nonws(x);
    lemma_parse_render_string(k, rest2);
    assert(rest2[0] == ':');
    lemma_skip_ws_nonws(rest2);
    assert(rest2.skip(1) =~= seq![' '] + (render_string(v) + rest));
    assert(all_ws(seq![' ']));
    lemma_skip_ws_all(seq![' '], render_string(v) + rest);
    assert((render_string(v) + rest)[0] == '"');
    lemma_skip_ws_nonws(render_string(v) + rest);
    lemma_parse_render_string(v, rest);
}

/// The rendered entries after the first, the closing of the mapping, and
/// anything after parse back to those entries and that remainder.
pub proof fn lemma_parse_render_more(kvs: Seq<Kv>, rest: Seq<char>)
    ensures
        parse_more_entries(render_more(kvs) + seq!['\n', ' ', ' ', '}'] + rest) == Some(
            (kvs, rest),
        ),
    decreases kvs.len(),
{
    let s = render_more(kvs) + seq!['\n', ' ', ' ', '}'] + rest;
    if kvs.len() == 0 {
        assert(render_more(kvs) =~= Seq::<char>::empty());
        assert(s =~= seq!['\n', ' ', ' '] + (seq!['}'] + rest));
        assert(all_ws(seq!['\n', ' ', ' ']));
        lemma_skip_ws_all(seq!['\n', ' ', ' '], seq!['}'] + rest);
        assert((seq!['}'] + rest)[0] == '}');
        lemma_skip_ws_nonws(seq!['}'] + rest);
        assert((seq!['}'] + rest).skip(1) =~= rest);
        assert(kvs =~= Seq::<Kv>::empty());
    } else {
        let rest3 = render_more(kvs.skip(1)) + seq!['\n', ' ', ' ', '}'] + rest;
        let y = render_entry(kvs[0].0, kvs[0].1) + rest3;
        assert(render_more(kvs) == seq![',', '\n'] + render_entry(kvs[0].0, kvs[0].1)
            + render_more(kvs.skip(1)));
        assert(s =~= seq![','] + (seq!['\n'] + y));
        assert(s[0] == ',');
        lemma_skip_ws_nonws(s);
        assert(s.skip(1) =~= seq!['\n'] + y);
        assert(all_ws(seq!['\n']));
        lemma_parse_pair_ws(seq!['\n'], y);
        lemma_parse_render_entry(kvs[0].0, kvs[0].1, rest3);
        lemma_parse_render_more(kvs.skip(1), rest);
        assert((kvs[0].0, kvs[0].1) == kvs[0]);
        assert(seq![kvs[0]] + kvs.skip(1) =~= kvs);
    }
}

/// The rendered mapping, its closing brace, and anything after parse back to
/// the registry's pairs and that remainder.
pub proof fn lemma_parse_render_list(kvs: Seq<Kv>, rest: Seq<char>)
    ensures
        parse_entry_list(render_mid(kvs) + seq!['}'] + rest) == Some((kvs, rest)),
{
    let s = render_mid(kvs) + seq!['}'] + rest;
    if kvs.len() == 0 {
        assert(render_mid(kvs) =~= Seq::<char>::empty());
        assert(s =~= seq!['}'] + rest);
        assert(s[0] == '}');
        lemma_skip_ws_nonws(s);
        assert(s.skip(1) =~= rest);
        assert(kvs =~= Seq::<Kv>::empty());
    } else {
        let rest3 = render_more(kvs.skip(1)) + seq!['\n', ' ', ' ', '}'] + rest;
        let y = render_entry(kvs[0].0, kvs[0].1) + rest3;
        let z = render_string(kvs[0].0) + (seq![':', ' '] + (render_string(kvs[0].1) + rest3));
        assert(s =~= seq!['\n'] + y);
        assert(y =~= seq![' ', ' ', ' ', ' '] + z);
        assert(s =~= seq!['\n', ' ', ' ', ' ', ' '] + z);
        assert(all_ws(seq!['\n', ' ', ' ', ' ', ' ']));
        lemma_skip_ws_all(seq!['\n', ' ', ' ', ' ', ' '], z);
        assert(z[0] == '"');
        lemma_skip_ws_nonws(z);
        assert(skip_ws(s)[0] != '}');
        assert(all_ws(seq!['\n']));
        lemma_parse_pair_ws(seq!['\n'], y);
        lemma_parse_render_entry(kvs[0].0, kvs[0].1, rest3);
        lemma_parse_render_more(kvs.skip(1), rest);
        assert((kvs[0].0, kvs[0].1) == kvs[0]);
        assert(seq![kvs[0]] + kvs.skip(1) =~= kvs);
    }
}

/// A rendered registry file parses back to exactly the registry's pairs.
pub proof fn lemma_parse_render_file(kvs: Seq<Kv>)
    ensures
        parse_file(render_file(kvs)) == Some(kvs),
{
    let s = render_file(kvs);
    let tail4 = seq!['}', '\n', '}', '\n'];
    let w = render_mid(kvs) + tail4;
    let z2 = field_tok() + (seq![':', ' ', '{'] + w);
    assert(s[0] == '{');
    lemma_skip_ws_nonws(s);
    assert(s.skip(1) =~= seq!['\n', ' ', ' '] + z2);
    assert(all_ws(seq!['\n', ' ', ' ']));
    lemma_skip_ws_all(seq!['\n', ' ', ' '], z2);
    assert(z2[0] == '"');
    lemma_skip_ws_nonws(z2);
    assert(z2.subrange(0, 9) =~= field_tok());
    assert(starts_with(z2, field_tok()));
    let z3 = seq![':', ' ', '{'] + w;
    assert(z2.skip(9) =~= z3);
    assert(z3[0] == ':');
    lemma_skip_ws_nonws(z3);
    assert(z3.skip(1) =~= seq![' '] + (seq!['{'] + w));
    assert(all_ws(seq![' ']));
    lemma_skip_ws_all(seq![' '], seq!['{'] + w);
    assert((seq!['{'] + w)[0] == '{');
    lemma_skip_ws_nonws(seq!['{'] + w);
    assert((seq!['{'] + w).skip(1) =~= w);
    assert(w =~= render_mid(kvs) + seq!['}'] + seq!['\n', '}', '\n']);
    lemma_parse_render_list(kvs, seq!['\n', '}', '\n']);
    assert(seq!['\n', '}', '\n'] =~= seq!['\n'] + (seq!['}'] + seq!['\n']));
    assert(all_ws(seq!['\n']));
    lemma_skip_ws_all(seq!['\n'], seq!['}'] + seq!['\n']);
    assert((seq!['}'] + seq!['\n'])[0] == '}');
    lemma_skip_ws_nonws(seq!['}'] + seq!['\n']);
    assert((seq!['}'] + seq!['\n']).skip(1) =~= seq!['\n']);
    assert(all_ws(seq!['\n']));
    lemma_skip_ws_all(seq!['\n'], Seq::<char>::empty());
    assert(seq!['\n'] + Seq::<char>::empty() =~= seq!['\n']);
    assert(skip_ws(Seq::<char>::empty()).len() == 0);
}

/// Saving a registry and loading the text back yields the registry's pairs
/// exactly, and upserting those pairs into an empty registry, in order,
/// rebuilds the registry: a save/load round trip loses nothing.
pub proof fn lemma_save_load_round_trip(kvs: Seq<Kv>)
    requires
        crate::registry::sorted_kvs(kvs),
    ensures
        parse_file(render_file(kvs)) == Some(kvs),
        crate::registry::build_kvs(kvs) == kvs,
{
    lemma_parse_render_file(kvs);
    crate::registry::lemma_build_sorted_id(kvs);
}

} // verus!
