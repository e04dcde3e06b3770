//! CSS rewriting.
//!
//! The rewriter walks the stylesheet character by character and copies it
//! verbatim, except at the URL-bearing sites, which are rewritten through
//! the proxy:
//!
//! * `url(…)`, quoted or unquoted: the argument is resolved against the
//!   base and emitted as a double-quoted string;
//! * `image-set(…)`: quoted strings and nested `url(…)` inside the
//!   argument list are rewritten, everything else passes through;
//! * `@import "…"`: the next quoted string before the closing `;` is
//!   rewritten as a URL (`@import url(…)` is caught by the `url(` site).
//!
//! Comments and quoted strings outside URL context are copied untouched,
//! so a `url(` inside either is never mistaken for a rewrite site.
//! Malformed input is consumed best-effort: an unterminated comment,
//! string or `url(` runs to the end of the input and the output built so
//! far is kept.  Rewritten URLs are emitted double-quoted with `\`, `"`
//! and newline escaped (newline as `\a `).

use vstd::prelude::*;

use crate::chars::{
    chars_of, contains_seq, has_prefix, has_prefix_lower, is_space, is_space_char, lower_char,
    lower_seq, prefix_at, push_all, starts_with_at, starts_with_lower_at, string_of, subrange_vec,
    trim_chars, trim_seq,
};
use crate::urlcodec::{
    encode_url_with_base, lemma_encode_passthrough, needs_resolve, spec_encode,
    spec_encode_with_base,
};

verus! {

/// A character that can sit inside a CSS identifier.
pub open spec fn is_ident_char(c: char) -> bool {
    ('a' <= c && c <= 'z') || ('A' <= c && c <= 'Z') || ('0' <= c && c <= '9') || c == '-' || c
        == '_'
}

/// What one character of a rewritten URL becomes inside a double-quoted
/// CSS string.
pub open spec fn css_esc_char(c: char) -> Seq<char> {
    if c == '\\' {
        seq!['\\', '\\']
    } else if c == '"' {
        seq!['\\', '"']
    } else if c == '\n' {
        seq!['\\', 'a', ' ']
    } else {
        seq![c]
    }
}

/// A URL escaped for a double-quoted CSS string.
pub open spec fn css_escape(s: Seq<char>) -> Seq<char>
    decreases s.len(),
{
    if s.len() == 0 {
        Seq::<char>::empty()
    } else {
        css_esc_char(s[0]) + css_escape(s.skip(1))
    }
}

/// A rewritten URL, double-quoted.
pub open spec fn css_quote(s: Seq<char>) -> Seq<char> {
    seq!['"'] + css_escape(s) + seq!['"']
}

/// The proxied form of a URL found in CSS, or the URL itself when the
/// codec has nothing to do with it.
pub open spec fn css_url_rewrite(p: Seq<char>, b: Seq<char>, t: Seq<char>) -> Seq<char> {
    match spec_encode_with_base(p, b, t) {
        Some(e) => e,
        None => t,
    }
}

/// The first index at or after `i` where `pat` occurs, or -1.
pub open spec fn find_from(s: Seq<char>, i: int, pat: Seq<char>) -> int
    decreases s.len() - i,
{
    if i < 0 || pat.len() <= 0 || i + pat.len() > s.len() {
        -1
    } else if prefix_at(s, i, pat) {
        i
    } else {
        find_from(s, i + 1, pat)
    }
}

pub proof fn lemma_find_from(s: Seq<char>, i: int, pat: Seq<char>)
    requires
        0 <= i,
    ensures
        find_from(s, i, pat) == -1 || (i <= find_from(s, i, pat) && find_from(s, i, pat)
            + pat.len() <= s.len() && prefix_at(s, find_from(s, i, pat), pat)),
    decreases s.len() - i,
{
    if !(pat.len() <= 0 || i + pat.len() > s.len()) && !prefix_at(s, i, pat) {
        lemma_find_from(s, i + 1, pat);
    }
}

/// The first non-whitespace index at or after `j`.
pub open spec fn ws_end(s: Seq<char>, j: int) -> int
    decreases s.len() - j,
{
    if j < 0 || j >= s.len() || !is_space(s[j]) {
        j
    } else {
        ws_end(s, j + 1)
    }
}

pub proof fn lemma_ws_end(s: Seq<char>, j: int)
    requires
        0 <= j <= s.len(),
    ensures
        j <= ws_end(s, j) <= s.len(),
    decreases s.len() - j,
{
    if j < s.len() && is_space(s[j]) {
        lemma_ws_end(s, j + 1);
    }
}

/// The index of the closing quote `q` at or after `i`, with `\` escaping
/// the next character; `s.len()` when the string never closes.
pub open spec fn str_end(s: Seq<char>, q: char, i: int) -> int
    decreases s.len() - i,
{
    if i < 0 || i >= s.len() {
        s.len() as int
    } else if s[i] == q {
        i
    } else if s[i] == '\\' {
        if i + 2 <= s.len() {
            str_end(s, q, i + 2)
        } else {
            s.len() as int
        }
    } else {
        str_end(s, q, i + 1)
    }
}

pub proof fn lemma_str_end(s: Seq<char>, q: char, i: int)
    requires
        0 <= i <= s.len(),
    ensures
        i <= str_end(s, q, i) <= s.len(),
    decreases s.len() - i,
{
    if i < s.len() && s[i] != q {
        if s[i] == '\\' {
            if i + 2 <= s.len() {
                lemma_str_end(s, q, i + 2);
            }
        } else {
            lemma_str_end(s, q, i + 1);
        }
    }
}

/// The smaller of two indices.
pub open spec fn min_int(a: int, b: int) -> int {
    if a < b {
        a
    } else {
        b
    }
}

/// What a `url(` site starting at `i` emits, and where scanning resumes.
/// `i` points at the `u` of `url(`.
pub open spec fn url_site(p: Seq<char>, b: Seq<char>, s: Seq<char>, i: int) -> (Seq<char>, int) {
    let j = i + 4;
    let k = ws_end(s, j);
    if k < s.len() && (s[k] == '"' || s[k] == '\'') {
        let e = str_end(s, s[k], k + 1);
        let content = s.subrange(min_int(k + 1, s.len() as int), e);
        let m = min_int(e + 1, s.len() as int);
        let close = find_from(s, m, ")"@);
        let next = if close < 0 {
            s.len() as int
        } else {
            close + 1
        };
        ("url("@ + css_quote(css_url_rewrite(p, b, content)) + ")"@, next)
    } else {
        let e = find_from(s, j, ")"@);
        let content_end = if e < 0 {
            s.len() as int
        } else {
            e
        };
        let content = trim_seq(s.subrange(min_int(j, s.len() as int), content_end));
        let next = if e < 0 {
            s.len() as int
        } else {
            e + 1
        };
        ("url("@ + css_quote(css_url_rewrite(p, b, content)) + ")"@, next)
    }
}

pub proof fn lemma_url_site(p: Seq<char>, b: Seq<char>, s: Seq<char>, i: int)
    requires
        0 <= i,
        i + 4 <= s.len(),
    ensures
        i < url_site(p, b, s, i).1 <= s.len(),
{
    reveal_strlit(")");
    let j = i + 4;
    lemma_ws_end(s, j);
    let k = ws_end(s, j);
    if k < s.len() && (s[k] == '"' || s[k] == '\'') {
        lemma_str_end(s, s[k], k + 1);
        let e = str_end(s, s[k], k + 1);
        let m = min_int(e + 1, s.len() as int);
        lemma_find_from(s, m, ")"@);
    } else {
        lemma_find_from(s, j, ")"@);
    }
}

/// Whether a `url(` site starts at `i`: the letters match regardless of
/// case and no identifier character comes right before them.
pub open spec fn at_url_site(s: Seq<char>, i: int) -> bool {
    prefix_at(crate::chars::lower_seq(s), i, "url("@) && (i == 0 || !is_ident_char(s[i - 1]))
}

/// Whether an `image-set(` site starts at `i`.
pub open spec fn at_image_set_site(s: Seq<char>, i: int) -> bool {
    prefix_at(crate::chars::lower_seq(s), i, "image-set("@) && (i == 0 || !is_ident_char(s[i - 1]))
}

/// Whether `@import` starts at `i`, as a complete at-keyword.
pub open spec fn at_import_site(s: Seq<char>, i: int) -> bool {
    prefix_at(crate::chars::lower_seq(s), i, "@import"@) && (i + 7 == s.len() || !is_ident_char(
        s[i + 7],
    ))
}

/// What the argument list of `image-set(` emits, starting at `i` with
/// `depth` open parentheses, and the index right after the parenthesis
/// that closes the list.
pub open spec fn css_args(p: Seq<char>, b: Seq<char>, s: Seq<char>, i: int, depth: int) -> (
    Seq<char>,
    int,
)
    decreases s.len() - i, 0int,
    via css_args_decreases
{
    if i < 0 || i >= s.len() || depth <= 0 {
        (Seq::<char>::empty(), if i < 0 {
            s.len() as int
        } else {
            min_int(i, s.len() as int)
        })
    } else {
        let c = s[i];
        if c == '"' || c == '\'' {
            let e = str_end(s, c, i + 1);
            let content = s.subrange(min_int(i + 1, s.len() as int), e);
            let m = min_int(e + 1, s.len() as int);
            let rest = css_args(p, b, s, m, depth);
            (css_quote(css_url_rewrite(p, b, content)) + rest.0, rest.1)
        } else if at_url_site(s, i) && i + 4 <= s.len() {
            let site = url_site(p, b, s, i);
            let rest = css_args(p, b, s, site.1, depth);
            (site.0 + rest.0, rest.1)
        } else if c == '(' {
            let rest = css_args(p, b, s, i + 1, depth + 1);
            (seq!['('] + rest.0, rest.1)
        } else if c == ')' {
            if depth == 1 {
                (seq![')'], i + 1)
            } else {
                let rest = css_args(p, b, s, i + 1, depth - 1);
                (seq![')'] + rest.0, rest.1)
            }
        } else {
            let rest = css_args(p, b, s, i + 1, depth);
            (seq![c] + rest.0, rest.1)
        }
    }
}

#[via_fn]
proof fn css_args_decreases(p: Seq<char>, b: Seq<char>, s: Seq<char>, i: int, depth: int) {
    reveal_strlit(")");
    if !(i < 0 || i >= s.len() || depth <= 0) {
        let c = s[i];
        if c == '"' || c == '\'' {
            lemma_str_end(s, c, i + 1);
        } else if at_url_site(s, i) && i + 4 <= s.len() {
            lemma_url_site(p, b, s, i);
        }
    }
}

pub proof fn lemma_css_args(p: Seq<char>, b: Seq<char>, s: Seq<char>, i: int, depth: int)
    requires
        0 <= i <= s.len(),
    ensures
        i <= css_args(p, b, s, i, depth).1 <= s.len(),
    decreases s.len() - i,
{
    if !(i >= s.len() || depth <= 0) {
        let c = s[i];
        if c == '"' || c == '\'' {
            lemma_str_end(s, c, i + 1);
            let e = str_end(s, c, i + 1);
            let m = min_int(e + 1, s.len() as int);
            lemma_css_args(p, b, s, m, depth);
        } else if at_url_site(s, i) && i + 4 <= s.len() {
            lemma_url_site(p, b, s, i);
            lemma_css_args(p, b, s, url_site(p, b, s, i).1, depth);
        } else if c == '(' {
            lemma_css_args(p, b, s, i + 1, depth + 1);
        } else if c == ')' {
            if depth != 1 {
                lemma_css_args(p, b, s, i + 1, depth - 1);
            }
        } else {
            lemma_css_args(p, b, s, i + 1, depth);
        }
    }
}

/// The rewritten stylesheet from index `i` on.  `in_import` records that
/// an `@import` keyword is waiting for its URL string.
pub open spec fn css_rw(p: Seq<char>, b: Seq<char>, s: Seq<char>, i: int, in_import: bool) -> Seq<
    char,
>
    decreases s.len() - i, 1int,
    via css_rw_decreases
{
    if i < 0 || i >= s.len() {
        Seq::<char>::empty()
    } else {
        let c = s[i];
        if c == '/' && i + 1 < s.len() && s[i + 1] == '*' {
            let e = find_from(s, i + 2, "*/"@);
            if e < 0 {
                s.subrange(i, s.len() as int)
            } else {
                s.subrange(i, e + 2) + css_rw(p, b, s, e + 2, in_import)
            }
        } else if c == '"' || c == '\'' {
            let e = str_end(s, c, i + 1);
            let m = min_int(e + 1, s.len() as int);
            if in_import {
                let content = s.subrange(min_int(i + 1, s.len() as int), e);
                css_quote(css_url_rewrite(p, b, content)) + css_rw(p, b, s, m, false)
            } else {
                s.subrange(i, m) + css_rw(p, b, s, m, in_import)
            }
        } else if at_url_site(s, i) && i + 4 <= s.len() {
            let site = url_site(p, b, s, i);
            site.0 + css_rw(p, b, s, site.1, in_import)
        } else if at_image_set_site(s, i) && i + 10 <= s.len() {
            let args = css_args(p, b, s, i + 10, 1);
            "image-set("@ + args.0 + css_rw(p, b, s, args.1, in_import)
        } else if at_import_site(s, i) && i + 7 <= s.len() {
            s.subrange(i, i + 7) + css_rw(p, b, s, i + 7, true)
        } else if c == ';' {
            seq![';'] + css_rw(p, b, s, i + 1, false)
        } else {
            seq![c] + css_rw(p, b, s, i + 1, in_import)
        }
    }
}

#[via_fn]
proof fn css_rw_decreases(p: Seq<char>, b: Seq<char>, s: Seq<char>, i: int, in_import: bool) {
    reveal_strlit(")");
    reveal_strlit("*/");
    if !(i < 0 || i >= s.len()) {
        let c = s[i];
        if c == '/' && i + 1 < s.len() && s[i + 1] == '*' {
            lemma_find_from(s, i + 2, "*/"@);
        } else if c == '"' || c == '\'' {
            lemma_str_end(s, c, i + 1);
        } else if at_url_site(s, i) && i + 4 <= s.len() {
            lemma_url_site(p, b, s, i);
        } else if at_image_set_site(s, i) && i + 10 <= s.len() {
            lemma_css_args(p, b, s, i + 10, 1);
        }
    }
}

/// What `rewrite_css` returns.
pub open spec fn spec_rewrite_css(p: Seq<char>, b: Seq<char>, s: Seq<char>) -> Seq<char> {
    css_rw(p, b, s, 0, false)
}

/// Whether `c` can sit inside a CSS identifier.
fn is_ident_char_exec(c: char) -> (r: bool)
    ensures
        r == is_ident_char(c),
{
    ('a' <= c && c <= 'z') || ('A' <= c && c <= 'Z') || ('0' <= c && c <= '9') || c == '-' || c
        == '_'
}

/// Escaping distributes over concatenation.
proof fn lemma_css_escape_concat(a: Seq<char>, b: Seq<char>)
    ensures
        css_escape(a + b) == css_escape(a) + css_escape(b),
    decreases a.len(),
{
    if a.len() == 0 {
        assert(a + b =~= b);
        assert(css_escape(a) + css_escape(b) =~= css_escape(b));
    } else {
        assert((a + b).skip(1) =~= a.skip(1) + b);
        lemma_css_escape_concat(a.skip(1), b);
        assert((a + b)[0] == a[0]);
        assert(css_esc_char(a[0]) + (css_escape(a.skip(1)) + css_escape(b)) =~= (css_esc_char(a[0])
            + css_escape(a.skip(1))) + css_escape(b));
    }
}

/// Escape a URL for a double-quoted CSS string.
fn css_escape_exec(v: &Vec<char>) -> (r: Vec<char>)
    ensures
        r@ == css_escape(v@),
{
    let n = v.len();
    let mut out: Vec<char> = Vec::new();
    let mut i: usize = 0;
    while i < n
        invariant
            n == v@.len(),
            i <= n,
            out@ == css_escape(v@.subrange(0, i as int)),
        decreases n - i,
    {
        let c = v[i];
        if c == '\\' {
            out.push('\\');
            out.push('\\');
        } else if c == '"' {
            out.push('\\');
            out.push('"');
        } else if c == '\n' {
            out.push('\\');
            out.push('a');
            out.push(' ');
        } else {
            out.push(c);
        }
        proof {
            let pre = v@.subrange(0, i as int);
            let one = seq![v@[i as int]];
            assert(v@.subrange(0, i + 1 as int) =~= pre + one);
            lemma_css_escape_concat(pre, one);
            assert(one.skip(1) =~= Seq::<char>::empty());
            assert(css_escape(Seq::<char>::empty()) == Seq::<char>::empty());
            assert(css_escape(one) == css_esc_char(v@[i as int]) + css_escape(
                Seq::<char>::empty(),
            ));
            assert(css_escape(one) =~= css_esc_char(v@[i as int]));
            assert(out@ =~= css_escape(pre) + css_esc_char(v@[i as int]));
        }
        i += 1;
    }
    assert(v@.subrange(0, n as int) =~= v@);
    out
}

/// A URL double-quoted and escaped for CSS output.
fn css_quote_exec(u: &Vec<char>) -> (r: Vec<char>)
    ensures
        r@ == css_quote(u@),
{
    let mut out: Vec<char> = Vec::new();
    out.push('"');
    let esc = css_escape_exec(u);
    push_all(&mut out, &esc);
    out.push('"');
    assert(out@ =~= css_quote(u@));
    out
}

/// The proxied form of a URL found in CSS.
fn css_url_rewrite_exec(p: &str, b: &str, t: &Vec<char>) -> (r: Vec<char>)
    ensures
        r@ == css_url_rewrite(p@, b@, t@),
{
    let ts = string_of(t);
    match encode_url_with_base(p, b, ts.as_str()) {
        Some(e) => chars_of(e.as_str()),
        None => {
            let c = subrange_vec(t, 0, t.len());
            assert(c@ =~= t@);
            c
        },
    }
}

/// The first index at or after `i` where `pat` occurs.
pub(crate) fn find_from_exec(v: &Vec<char>, i: usize, pat: &str) -> (r: Option<usize>)
    requires
        i <= v@.len(),
    ensures
        match r {
            Some(j) => i <= j && j as int == find_from(v@, i as int, pat@),
            None => find_from(v@, i as int, pat@) == -1,
        },
    decreases v@.len() - i,
{
    let m = pat.unicode_len();
    let n = v.len();
    if m == 0 || n - i < m {
        return None;
    }
    if starts_with_at(v, i, pat) {
        Some(i)
    } else {
        find_from_exec(v, i + 1, pat)
    }
}

/// The first non-whitespace index at or after `j`.
pub(crate) fn ws_end_exec(v: &Vec<char>, j: usize) -> (r: usize)
    requires
        j <= v@.len(),
    ensures
        r as int == ws_end(v@, j as int),
        j <= r <= v@.len(),
    decreases v@.len() - j,
{
    let n = v.len();
    if j == n || !is_space_char(v[j]) {
        j
    } else {
        ws_end_exec(v, j + 1)
    }
}

/// The index of the closing quote, `\` escaping the next character.
pub(crate) fn str_end_exec(v: &Vec<char>, q: char, i: usize) -> (r: usize)
    requires
        i <= v@.len(),
    ensures
        r as int == str_end(v@, q, i as int),
        i <= r <= v@.len(),
    decreases v@.len() - i,
{
    let n = v.len();
    if i == n {
        n
    } else if v[i] == q {
        i
    } else if v[i] == '\\' {
        if n - i >= 2 {
            str_end_exec(v, q, i + 2)
        } else {
            n
        }
    } else {
        str_end_exec(v, q, i + 1)
    }
}

/// Emit the rewrite of a `url(` site that starts at `i`, and say where
/// scanning resumes.
fn url_site_exec(p: &str, b: &str, v: &Vec<char>, i: usize) -> (r: (Vec<char>, usize))
    requires
        i + 4 <= v@.len(),
    ensures
        r.0@ == url_site(p@, b@, v@, i as int).0,
        r.1 as int == url_site(p@, b@, v@, i as int).1,
        i < r.1 <= v@.len(),
    decreases v@.len() - i,
{
    proof {
        lemma_url_site(p@, b@, v@, i as int);
    }
    let n = v.len();
    let j = i + 4;
    let k = ws_end_exec(v, j);
    let mut out = chars_of("url(");
    if k < n && (v[k] == '"' || v[k] == '\'') {
        let q = v[k];
        let e = str_end_exec(v, q, k + 1);
        let content = subrange_vec(v, k + 1, e);
        assert(content@ =~= v@.subrange(
            min_int(k + 1, v@.len() as int),
            str_end(v@, q, k + 1 as int),
        ));
        let m = if e < n {
            e + 1
        } else {
            n
        };
        let close = find_from_exec(v, m, ")");
        let next = match close {
            Some(c) => c + 1,
            None => n,
        };
        let rewritten = css_url_rewrite_exec(p, b, &content);
        let quoted = css_quote_exec(&rewritten);
        push_all(&mut out, &quoted);
        out.push(')');
        proof {
            reveal_strlit(")");
            assert(out@ =~= url_site(p@, b@, v@, i as int).0);
        }
        (out, next)
    } else {
        let close = find_from_exec(v, j, ")");
        let content_end = match close {
            Some(e) => e,
            None => n,
        };
        let raw = subrange_vec(v, j, content_end);
        let content = trim_chars(&raw);
        let next = match close {
            Some(e) => e + 1,
            None => n,
        };
        let rewritten = css_url_rewrite_exec(p, b, &content);
        let quoted = css_quote_exec(&rewritten);
        push_all(&mut out, &quoted);
        out.push(')');
        proof {
            reveal_strlit(")");
            assert(raw@ =~= v@.subrange(min_int(j as int, v@.len() as int), content_end as int));
            assert(out@ =~= url_site(p@, b@, v@, i as int).0);
        }
        (out, next)
    }
}

/// Rewrite the argument list of `image-set(` starting at `i` with `depth`
/// open parentheses; the second component is where scanning resumes.
fn css_args_exec(p: &str, b: &str, v: &Vec<char>, i: usize, depth: usize) -> (r: (Vec<char>, usize))
    requires
        i <= v@.len(),
        depth >= 1,
        depth + (v@.len() - i) <= usize::MAX,
    ensures
        r.0@ == css_args(p@, b@, v@, i as int, depth as int).0,
        r.1 as int == css_args(p@, b@, v@, i as int, depth as int).1,
        i <= r.1 <= v@.len(),
    decreases v@.len() - i,
{
    proof {
        lemma_css_args(p@, b@, v@, i as int, depth as int);
    }
    let n = v.len();
    if i == n {
        let out: Vec<char> = Vec::new();
        return (out, i);
    }
    let c = v[i];
    if c == '"' || c == '\'' {
        let e = str_end_exec(v, c, i + 1);
        let content = subrange_vec(v, i + 1, e);
        assert(content@ =~= v@.subrange(
            min_int(i + 1, v@.len() as int),
            str_end(v@, c, i + 1 as int),
        ));
        let m = if e < n {
            e + 1
        } else {
            n
        };
        let rewritten = css_url_rewrite_exec(p, b, &content);
        let mut out = css_quote_exec(&rewritten);
        let rest = css_args_exec(p, b, v, m, depth);
        push_all(&mut out, &rest.0);
        assert(out@ =~= css_args(p@, b@, v@, i as int, depth as int).0);
        (out, rest.1)
    } else if starts_with_lower_at(v, i, "url(") && (i == 0 || !is_ident_char_exec(v[i - 1])) {
        proof {
            reveal_strlit("url(");
        }
        let site = url_site_exec(p, b, v, i);
        let mut out = site.0;
        let rest = css_args_exec(p, b, v, site.1, depth);
        push_all(&mut out, &rest.0);
        assert(out@ =~= css_args(p@, b@, v@, i as int, depth as int).0);
        (out, rest.1)
    } else if c == '(' {
        let mut out: Vec<char> = Vec::new();
        out.push('(');
        let rest = css_args_exec(p, b, v, i + 1, depth + 1);
        push_all(&mut out, &rest.0);
        assert(out@ =~= css_args(p@, b@, v@, i as int, depth as int).0);
        (out, rest.1)
    } else if c == ')' {
        if depth == 1 {
            let mut out: Vec<char> = Vec::new();
            out.push(')');
            assert(out@ =~= css_args(p@, b@, v@, i as int, depth as int).0);
            (out, i + 1)
        } else {
            let mut out: Vec<char> = Vec::new();
            out.push(')');
            let rest = css_args_exec(p, b, v, i + 1, depth - 1);
            push_all(&mut out, &rest.0);
            assert(out@ =~= css_args(p@, b@, v@, i as int, depth as int).0);
            (out, rest.1)
        }
    } else {
        let mut out: Vec<char> = Vec::new();
        out.push(c);
        let rest = css_args_exec(p, b, v, i + 1, depth);
        push_all(&mut out, &rest.0);
        assert(out@ =~= css_args(p@, b@, v@, i as int, depth as int).0);
        (out, rest.1)
    }
}

/// Rewrite the stylesheet from index `i` on.
fn css_rw_exec(p: &str, b: &str, v: &Vec<char>, i: usize, in_import: bool) -> (r: Vec<char>)
    requires
        i <= v@.len(),
    ensures
        r@ == css_rw(p@, b@, v@, i as int, in_import),
    decreases v@.len() - i,
{
    let n = v.len();
    if i == n {
        let out: Vec<char> = Vec::new();
        return out;
    }
    let c = v[i];
    if c == '/' && i + 1 < n && v[i + 1] == '*' {
        proof {
            reveal_strlit("*/");
            lemma_find_from(v@, i + 2, "*/"@);
        }
        match find_from_exec(v, i + 2, "*/") {
            None => {
                let out = subrange_vec(v, i, n);
                assert(out@ =~= css_rw(p@, b@, v@, i as int, in_import));
                out
            },
            Some(e) => {
                let mut out = subrange_vec(v, i, e + 2);
                let rest = css_rw_exec(p, b, v, e + 2, in_import);
                push_all(&mut out, &rest);
                assert(out@ =~= css_rw(p@, b@, v@, i as int, in_import));
                out
            },
        }
    } else if c == '"' || c == '\'' {
        let e = str_end_exec(v, c, i + 1);
        let m = if e < n {
            e + 1
        } else {
            n
        };
        if in_import {
            let content = subrange_vec(v, i + 1, e);
            assert(content@ =~= v@.subrange(
                min_int(i + 1, v@.len() as int),
                str_end(v@, c, i + 1 as int),
            ));
            let rewritten = css_url_rewrite_exec(p, b, &content);
            let mut out = css_quote_exec(&rewritten);
            let rest = css_rw_exec(p, b, v, m, false);
            push_all(&mut out, &rest);
            assert(out@ =~= css_rw(p@, b@, v@, i as int, in_import));
            out
        } else {
            let mut out = subrange_vec(v, i, m);
            let rest = css_rw_exec(p, b, v, m, in_import);
            push_all(&mut out, &rest);
            assert(out@ =~= css_rw(p@, b@, v@, i as int, in_import));
            out
        }
    } else if starts_with_lower_at(v, i, "url(") && (i == 0 || !is_ident_char_exec(v[i - 1])) {
        proof {
            reveal_strlit("url(");
        }
        let site = url_site_exec(p, b, v, i);
        let mut out = site.0;
        let rest = css_rw_exec(p, b, v, site.1, in_import);
        push_all(&mut out, &rest);
        assert(out@ =~= css_rw(p@, b@, v@, i as int, in_import));
        out
    } else if starts_with_lower_at(v, i, "image-set(") && (i == 0 || !is_ident_char_exec(
        v[i - 1],
    )) {
        proof {
            reveal_strlit("image-set(");
            lemma_css_args(p@, b@, v@, i + 10, 1);
        }
        let args = css_args_exec(p, b, v, i + 10, 1);
        let mut out = chars_of("image-set(");
        push_all(&mut out, &args.0);
        let rest = css_rw_exec(p, b, v, args.1, in_import);
        push_all(&mut out, &rest);
        assert(out@ =~= css_rw(p@, b@, v@, i as int, in_import));
        out
    } else if starts_with_lower_at(v, i, "@import") && ({
        proof {
            reveal_strlit("@import");
        }
        i + 7 == n || !is_ident_char_exec(v[i + 7])
    }) {
        proof {
            reveal_strlit("@import");
        }
        let mut out = subrange_vec(v, i, i + 7);
        let rest = css_rw_exec(p, b, v, i + 7, true);
        push_all(&mut out, &rest);
        assert(out@ =~= css_rw(p@, b@, v@, i as int, in_import));
        out
    } else if c == ';' {
        let mut out: Vec<char> = Vec::new();
        out.push(';');
        let rest = css_rw_exec(p, b, v, i + 1, false);
        push_all(&mut out, &rest);
        assert(out@ =~= css_rw(p@, b@, v@, i as int, in_import));
        out
    } else {
        let mut out: Vec<char> = Vec::new();
        out.push(c);
        let rest = css_rw_exec(p, b, v, i + 1, in_import);
        push_all(&mut out, &rest);
        assert(out@ =~= css_rw(p@, b@, v@, i as int, in_import));
        out
    }
}

/// Rewrite a complete CSS stylesheet so every URL it references resolves
/// through the proxy.
pub fn rewrite_css(proxy_origin: &str, base_url: &str, css: &str) -> (r: String)
    ensures
        r@ == spec_rewrite_css(proxy_origin@, base_url@, css@),
{
    rewrite_css_string(proxy_origin, base_url, css)
}

/// Rewrite an arbitrary CSS string: a stylesheet, an inline `style`
/// attribute value, or any fragment.  The HTML rewriter calls this for
/// `style="…"` attributes and `<style>` elements.
pub fn rewrite_css_string(proxy_origin: &str, base_url: &str, css: &str) -> (r: String)
    ensures
        r@ == spec_rewrite_css(proxy_origin@, base_url@, css@),
{
    let v = chars_of(css);
    let out = css_rw_exec(proxy_origin, base_url, &v, 0, false);
    string_of(&out)
}

/// Rewrite a CSS rule string as handed to `CSSStyleSheet.insertRule`.
pub fn rewrite_insert_rule(proxy_origin: &str, base_url: &str, rule: &str) -> (r: String)
    ensures
        r@ == spec_rewrite_css(proxy_origin@, base_url@, rule@),
{
    rewrite_css_string(proxy_origin, base_url, rule)
}

/// Rewrite a full stylesheet string as handed to `CSSStyleSheet.replace`
/// or `replaceSync`.
pub fn rewrite_replace_sync(proxy_origin: &str, base_url: &str, css: &str) -> (r: String)
    ensures
        r@ == spec_rewrite_css(proxy_origin@, base_url@, css@),
{
    rewrite_css_string(proxy_origin, base_url, css)
}

/// Escaping changes nothing in a string free of `\\`, `"` and newlines.
proof fn lemma_css_escape_id(t: Seq<char>)
    requires
        forall|i: int| 0 <= i < t.len() ==> t[i] != '\\' && t[i] != '"' && t[i] != '\n',
    ensures
        css_escape(t) == t,
    decreases t.len(),
{
    if t.len() > 0 {
        assert(forall|i: int| 0 <= i < t.skip(1).len() ==> t.skip(1)[i] == t[i + 1]);
        lemma_css_escape_id(t.skip(1));
        assert(css_esc_char(t[0]) == seq![t[0]]);
        assert(seq![t[0]] + t.skip(1) =~= t);
    }
}

/// A `data:` URL at a CSS rewrite site stays intact: the codec passes it
/// through unchanged, and when it holds no `\\`, `"` or newline the
/// emitted double-quoted argument contains it byte for byte.
pub proof fn lemma_css_data_url_intact(p: Seq<char>, b: Seq<char>, t: Seq<char>)
    requires
        trim_seq(t) == t,
        has_prefix(t, "data:"@),
        forall|i: int| 0 <= i < t.len() ==> t[i] != '\\' && t[i] != '"' && t[i] != '\n',
    ensures
        css_url_rewrite(p, b, t) == t,
        css_quote(css_url_rewrite(p, b, t)) == seq!['"'] + t + seq!['"'],
        contains_seq(css_quote(css_url_rewrite(p, b, t)), t),
{
    reveal_strlit("data:");
    lemma_encode_passthrough(p, t);
    assert(forall|i: int| 0 <= i < 5 ==> t.subrange(0, 5)[i] == t[i]);
    assert(has_prefix_lower(t, "data:"@)) by {
        assert(lower_seq(t).subrange(0, 5) =~= "data:"@) by {
            assert(forall|i: int| 0 <= i < 5 ==> lower_seq(t)[i] == lower_char(t[i]));
            assert(forall|i: int| 0 <= i < 5 ==> lower_char("data:"@[i]) == "data:"@[i]);
        }
    }
    assert(!needs_resolve(t));
    assert(t[0] == 'd');
    assert(spec_encode_with_base(p, b, t) == spec_encode(p, t));
    assert(css_url_rewrite(p, b, t) == t);
    lemma_css_escape_id(t);
    let q = css_quote(t);
    assert(q =~= seq!['"'] + t + seq!['"']);
    assert(prefix_at(q, 1, t)) by {
        assert(q.subrange(1, 1 + t.len() as int) =~= t);
    }
}

} // verus!
