//! JavaScript rewriting.
//!
//! A shallow textual rewrite that routes the common URL-, HTML- and
//! eval-bearing call sites through the client runtime: `fetch`,
//! `sendBeacon` and `importScripts` calls, `new` expressions over the
//! URL-taking constructors, `eval`/`Function`/`setTimeout`/`setInterval`
//! with a string-literal argument, `.open(…)` and `.setAttribute(…)`
//! calls, the HTML sink methods, and assignments to URL and HTML
//! properties.  The scanner respects strings, template literals and
//! comments — inside an argument or right-hand side as well — matches
//! brackets, and wraps a complete expression in a runtime call, so
//! wrapping keeps a valid program valid.  An argument that already
//! starts with `__internex.` is copied whole, its interior not
//! rescanned, so running the rewriter over its own output changes
//! nothing: no wrapped expression, and nothing nested inside one, is
//! ever wrapped twice.  Bare global reads (`window`, `self`, …) are
//! deliberately not wrapped: a textual pass cannot tell a read from a
//! declaration or a parameter position, where wrapping would break the
//! program; the client runtime's scope hook covers global access at
//! execution time.  Anything the scanner does not recognize — including
//! regular-expression literals, which are not tracked, and the
//! interpolations inside template literals — is copied verbatim, so
//! unrecognized or malformed input passes through unchanged.

use vstd::prelude::*;

use crate::chars::{
    chars_of, eq_lit, has_prefix, is_space, is_space_char, lower_seq, push_all, push_str_chars,
    starts_with_at, string_of, subrange_vec,
};
use crate::css::{
    find_from, lemma_find_from, lemma_str_end, lemma_ws_end, min_int, str_end, ws_end,
};

verus! {

/// A character that can start a JavaScript identifier.
pub open spec fn is_js_ident_start(c: char) -> bool {
    ('a' <= c && c <= 'z') || ('A' <= c && c <= 'Z') || c == '_' || c == '$'
}

/// A character that can continue a JavaScript identifier.
pub open spec fn is_js_ident_char(c: char) -> bool {
    is_js_ident_start(c) || ('0' <= c && c <= '9')
}

/// The end of the identifier that starts before `i`.
pub open spec fn ident_end(s: Seq<char>, i: int) -> int
    decreases s.len() - i,
{
    if i < 0 || i >= s.len() || !is_js_ident_char(s[i]) {
        i
    } else {
        ident_end(s, i + 1)
    }
}

pub proof fn lemma_ident_end(s: Seq<char>, i: int)
    requires
        0 <= i <= s.len(),
    ensures
        i <= ident_end(s, i) <= s.len(),
    decreases s.len() - i,
{
    if i < s.len() && is_js_ident_char(s[i]) {
        lemma_ident_end(s, i + 1);
    }
}

/// The end of the expression that starts at `i`: the first `,` at
/// bracket depth zero, the first closing bracket below depth zero, or,
/// when `stop_semi` is set, the first `;` at depth zero.  Strings,
/// template literals and comments are skipped, so a bracket inside any
/// of them does not count.
pub open spec fn arg_end(s: Seq<char>, i: int, depth: int, stop_semi: bool) -> int
    decreases s.len() - i,
    via arg_end_decreases
{
    if i < 0 || i >= s.len() {
        s.len() as int
    } else {
        let c = s[i];
        if c == '/' && i + 1 < s.len() && s[i + 1] == '/' {
            let e = find_from(s, i + 2, "\n"@);
            if e < 0 {
                s.len() as int
            } else {
                arg_end(s, e + 1, depth, stop_semi)
            }
        } else if c == '/' && i + 1 < s.len() && s[i + 1] == '*' {
            let e = find_from(s, i + 2, "*/"@);
            if e < 0 {
                s.len() as int
            } else {
                arg_end(s, e + 2, depth, stop_semi)
            }
        } else if c == '"' || c == '\'' || c == '`' {
            arg_end(s, min_int(str_end(s, c, i + 1) + 1, s.len() as int), depth, stop_semi)
        } else if c == '(' || c == '[' || c == '{' {
            arg_end(s, i + 1, depth + 1, stop_semi)
        } else if c == ')' || c == ']' || c == '}' {
            if depth == 0 {
                i
            } else {
                arg_end(s, i + 1, depth - 1, stop_semi)
            }
        } else if c == ',' && depth == 0 {
            i
        } else if c == ';' && depth == 0 && stop_semi {
            i
        } else {
            arg_end(s, i + 1, depth, stop_semi)
        }
    }
}

#[via_fn]
proof fn arg_end_decreases(s: Seq<char>, i: int, depth: int, stop_semi: bool) {
    reveal_strlit("\n");
    reveal_strlit("*/");
    if !(i < 0 || i >= s.len()) {
        let c = s[i];
        if c == '/' && i + 1 < s.len() && (s[i + 1] == '/' || s[i + 1] == '*') {
            lemma_find_from(s, i + 2, "\n"@);
            lemma_find_from(s, i + 2, "*/"@);
        } else if c == '"' || c == '\'' || c == '`' {
            lemma_str_end(s, c, i + 1);
        }
    }
}

pub proof fn lemma_arg_end(s: Seq<char>, i: int, depth: int, stop_semi: bool)
    requires
        0 <= i <= s.len(),
    ensures
        i <= arg_end(s, i, depth, stop_semi) <= s.len(),
    decreases s.len() - i,
{
    reveal_strlit("\n");
    reveal_strlit("*/");
    if !(i >= s.len()) {
        let c = s[i];
        if c == '/' && i + 1 < s.len() && s[i + 1] == '/' {
            lemma_find_from(s, i + 2, "\n"@);
            let e = find_from(s, i + 2, "\n"@);
            if e >= 0 {
                lemma_arg_end(s, e + 1, depth, stop_semi);
            }
        } else if c == '/' && i + 1 < s.len() && s[i + 1] == '*' {
            lemma_find_from(s, i + 2, "*/"@);
            let e = find_from(s, i + 2, "*/"@);
            if e >= 0 {
                lemma_arg_end(s, e + 2, depth, stop_semi);
            }
        } else if c == '"' || c == '\'' || c == '`' {
            lemma_str_end(s, c, i + 1);
            lemma_arg_end(s, min_int(str_end(s, c, i + 1) + 1, s.len() as int), depth, stop_semi);
        } else if c == '(' || c == '[' || c == '{' {
            lemma_arg_end(s, i + 1, depth + 1, stop_semi);
        } else if c == ')' || c == ']' || c == '}' {
            if depth != 0 {
                lemma_arg_end(s, i + 1, depth - 1, stop_semi);
            }
        } else if c == ',' && depth == 0 {
        } else if c == ';' && depth == 0 && stop_semi {
        } else {
            lemma_arg_end(s, i + 1, depth, stop_semi);
        }
    }
}

/// A constructor whose first argument is a URL.
pub open spec fn is_url_ctor(w: Seq<char>) -> bool {
    ||| w == "Worker"@
    ||| w == "SharedWorker"@
    ||| w == "URL"@
    ||| w == "Request"@
    ||| w == "Response"@
    ||| w == "WebSocket"@
    ||| w == "EventSource"@
    ||| w == "RTCPeerConnection"@
}

/// An element property whose assigned value is a URL.
pub open spec fn is_url_prop(w: Seq<char>) -> bool {
    ||| w == "src"@
    ||| w == "href"@
    ||| w == "action"@
    ||| w == "poster"@
    ||| w == "formAction"@
    ||| w == "data"@
    ||| w == "codeBase"@
    ||| w == "background"@
}

/// The URL properties in the form `setAttribute` sees them: attribute
/// names compare case-insensitively, so the lower-cased name is matched
/// against lower-cased entries.
pub open spec fn is_url_prop_lower(w: Seq<char>) -> bool {
    ||| w == "src"@
    ||| w == "href"@
    ||| w == "action"@
    ||| w == "poster"@
    ||| w == "formaction"@
    ||| w == "data"@
    ||| w == "codebase"@
    ||| w == "background"@
}

/// A method whose argument is an HTML string.
pub open spec fn is_html_sink_arg0(w: Seq<char>) -> bool {
    ||| w == "write"@
    ||| w == "writeln"@
    ||| w == "parseFromString"@
    ||| w == "createContextualFragment"@
}

/// A function whose string-literal first argument is code.
pub open spec fn is_eval_sink(w: Seq<char>) -> bool {
    w == "eval"@ || w == "Function"@ || w == "setTimeout"@ || w == "setInterval"@
}

/// `__internex.rewriteUrl(span)`.
pub open spec fn wrap_url(span: Seq<char>) -> Seq<char> {
    "__internex.rewriteUrl("@ + span + ")"@
}

/// `__internex.rewriteHtml(span)`.
pub open spec fn wrap_html(span: Seq<char>) -> Seq<char> {
    "__internex.rewriteHtml("@ + span + ")"@
}

/// `__internex.rewriteEval(span)`.
pub open spec fn wrap_eval(span: Seq<char>) -> Seq<char> {
    "__internex.rewriteEval("@ + span + ")"@
}

/// A span the rewriter copies whole instead of wrapping: empty, or
/// already a runtime call.  Its interior is not rescanned, which makes
/// the rewrite idempotent.
pub open spec fn skip_span(span: Seq<char>) -> bool {
    span.len() == 0 || has_prefix(span, "__internex."@)
}

/// The rewritten source from index `i` on.  `prev_dot` records that the
/// last significant character was `.`, so the coming identifier is a
/// member; `prev_new` records that the last identifier was `new`.
pub open spec fn js_rw(s: Seq<char>, i: int, prev_dot: bool, prev_new: bool) -> Seq<char>
    decreases s.len() - i, 3int,
    via js_rw_decreases
{
    if i < 0 || i >= s.len() {
        Seq::<char>::empty()
    } else {
        let c = s[i];
        if c == '/' && i + 1 < s.len() && s[i + 1] == '/' {
            let e = find_from(s, i + 2, "\n"@);
            if e < 0 {
                s.subrange(i, s.len() as int)
            } else {
                s.subrange(i, e + 1) + js_rw(s, e + 1, prev_dot, prev_new)
            }
        } else if c == '/' && i + 1 < s.len() && s[i + 1] == '*' {
            let e = find_from(s, i + 2, "*/"@);
            if e < 0 {
                s.subrange(i, s.len() as int)
            } else {
                s.subrange(i, e + 2) + js_rw(s, e + 2, prev_dot, prev_new)
            }
        } else if c == '"' || c == '\'' || c == '`' {
            let m = min_int(str_end(s, c, i + 1) + 1, s.len() as int);
            s.subrange(i, m) + js_rw(s, m, false, false)
        } else if is_space(c) {
            seq![c] + js_rw(s, i + 1, prev_dot, prev_new)
        } else if c == '.' {
            seq![c] + js_rw(s, i + 1, true, false)
        } else if is_js_ident_start(c) && (i == 0 || !is_js_ident_char(s[i - 1])) {
            let we = ident_end(s, i + 1);
            let w = s.subrange(i, we);
            let k = ws_end(s, we);
            js_word(s, i, we, w, k, prev_dot, prev_new)
        } else {
            seq![c] + js_rw(s, i + 1, false, false)
        }
    }
}

/// What becomes of the identifier `w` spanning `[i, we)`, with `k` the
/// first significant index after it.
pub open spec fn js_word(
    s: Seq<char>,
    i: int,
    we: int,
    w: Seq<char>,
    k: int,
    prev_dot: bool,
    prev_new: bool,
) -> Seq<char>
    decreases s.len() - i, 2int,
    via js_word_decreases
{
    if !(0 <= i && i < we && we <= k && k <= s.len()) {
        Seq::<char>::empty()
    } else if k < s.len() && s[k] == '(' {
        if !prev_dot && (prev_new && is_url_ctor(w) || w == "fetch"@ || w == "sendBeacon"@) {
            let a0 = ws_end(s, k + 1);
            let e0 = arg_end(s, a0, 0, false);
            let span = s.subrange(a0, e0);
            if skip_span(span) {
                s.subrange(i, e0) + js_rw(s, e0, false, false)
            } else {
                s.subrange(i, a0) + wrap_url(span) + js_rw(s, e0, false, false)
            }
        } else if !prev_dot && w == "importScripts"@ {
            let args = js_args_all(s, k + 1);
            s.subrange(i, k + 1) + args.0 + js_rw(s, args.1, false, false)
        } else if !prev_dot && is_eval_sink(w) {
            let a0 = ws_end(s, k + 1);
            if a0 < s.len() && (s[a0] == '"' || s[a0] == '\'') {
                let m = min_int(str_end(s, s[a0], a0 + 1) + 1, s.len() as int);
                let after = ws_end(s, m);
                if after < s.len() && (s[after] == ',' || s[after] == ')') {
                    s.subrange(i, a0) + wrap_eval(s.subrange(a0, m)) + js_rw(s, m, false, false)
                } else {
                    js_default(s, i, we, w)
                }
            } else {
                js_default(s, i, we, w)
            }
        } else if prev_dot && w == "insertAdjacentHTML"@ {
            js_arg1(s, i, we, w, k, false)
        } else if prev_dot && is_html_sink_arg0(w) {
            let a0 = ws_end(s, k + 1);
            let e0 = arg_end(s, a0, 0, false);
            let span = s.subrange(a0, e0);
            if skip_span(span) {
                s.subrange(i, e0) + js_rw(s, e0, false, false)
            } else {
                s.subrange(i, a0) + wrap_html(span) + js_rw(s, e0, false, false)
            }
        } else if prev_dot && w == "open"@ {
            js_arg1(s, i, we, w, k, true)
        } else if prev_dot && w == "setAttribute"@ {
            let a0 = ws_end(s, k + 1);
            if a0 < s.len() && (s[a0] == '"' || s[a0] == '\'') && is_url_prop_lower(
                lower_seq(s.subrange(min_int(a0 + 1, s.len() as int), str_end(s, s[a0], a0 + 1))),
            ) {
                js_arg1(s, i, we, w, k, true)
            } else {
                js_default(s, i, we, w)
            }
        } else {
            js_default(s, i, we, w)
        }
    } else if prev_dot && k < s.len() && s[k] == '=' && (k + 1 >= s.len() || s[k + 1] != '=')
        && (is_url_prop(w) || w == "innerHTML"@ || w == "outerHTML"@) {
        let r0 = ws_end(s, k + 1);
        let e = arg_end(s, r0, 0, true);
        let span = s.subrange(r0, e);
        if skip_span(span) {
            s.subrange(i, e) + js_rw(s, e, false, false)
        } else if is_url_prop(w) {
            s.subrange(i, r0) + wrap_url(span) + js_rw(s, e, false, false)
        } else {
            s.subrange(i, r0) + wrap_html(span) + js_rw(s, e, false, false)
        }
    } else {
        js_default(s, i, we, w)
    }
}

/// The rewritten argument list of an `importScripts` call: every
/// argument is wrapped, one already wrapped or empty is copied whole.
/// `j` points right after the `(` or after a `,`; the second component
/// is the index of the closing parenthesis (or the input's end).
pub open spec fn js_args_all(s: Seq<char>, j: int) -> (Seq<char>, int)
    decreases s.len() - j,
    via js_args_all_decreases
{
    if j < 0 || j > s.len() {
        (Seq::<char>::empty(), s.len() as int)
    } else {
        let a = ws_end(s, j);
        let e = arg_end(s, a, 0, false);
        let span = s.subrange(a, e);
        let piece = if skip_span(span) {
            s.subrange(j, e)
        } else {
            s.subrange(j, a) + wrap_url(span)
        };
        if e < s.len() && s[e] == ',' {
            let rest = js_args_all(s, e + 1);
            (piece + seq![','] + rest.0, rest.1)
        } else {
            (piece, e)
        }
    }
}

#[via_fn]
proof fn js_args_all_decreases(s: Seq<char>, j: int) {
    if 0 <= j && j <= s.len() {
        lemma_ws_end(s, j);
        lemma_arg_end(s, ws_end(s, j), 0, false);
    }
}

pub proof fn lemma_js_args_all(s: Seq<char>, j: int)
    requires
        0 <= j <= s.len(),
    ensures
        j <= js_args_all(s, j).1 <= s.len(),
    decreases s.len() - j,
{
    lemma_ws_end(s, j);
    let a = ws_end(s, j);
    lemma_arg_end(s, a, 0, false);
    let e = arg_end(s, a, 0, false);
    if e < s.len() && s[e] == ',' {
        lemma_js_args_all(s, e + 1);
    }
}

/// Copy the identifier and scan on.
pub open spec fn js_default(s: Seq<char>, i: int, we: int, w: Seq<char>) -> Seq<char>
    decreases s.len() - i, 0int,
    via js_default_decreases
{
    if 0 <= i && i < we && we <= s.len() {
        s.subrange(i, we) + js_rw(s, we, false, w == "new"@)
    } else {
        Seq::<char>::empty()
    }
}

/// Wrap the second argument of the call to `w` that opens at `k`.
pub open spec fn js_arg1(s: Seq<char>, i: int, we: int, w: Seq<char>, k: int, url: bool) -> Seq<
    char,
>
    decreases s.len() - i, 1int,
    via js_arg1_decreases
{
    if !(0 <= i && i < we && we <= k && k < s.len()) {
        Seq::<char>::empty()
    } else {
        let a0 = ws_end(s, k + 1);
        let e0 = arg_end(s, a0, 0, false);
        if e0 >= s.len() || s[e0] != ',' {
            js_default(s, i, we, w)
        } else {
            let a1 = ws_end(s, e0 + 1);
            let e1 = arg_end(s, a1, 0, false);
            let span = s.subrange(a1, e1);
            if skip_span(span) {
                s.subrange(i, e1) + js_rw(s, e1, false, false)
            } else if url {
                s.subrange(i, a1) + wrap_url(span) + js_rw(s, e1, false, false)
            } else {
                s.subrange(i, a1) + wrap_html(span) + js_rw(s, e1, false, false)
            }
        }
    }
}

#[via_fn]
proof fn js_rw_decreases(s: Seq<char>, i: int, prev_dot: bool, prev_new: bool) {
    reveal_strlit("\n");
    reveal_strlit("*/");
    if !(i < 0 || i >= s.len()) {
        let c = s[i];
        if c == '/' && i + 1 < s.len() && (s[i + 1] == '/' || s[i + 1] == '*') {
            lemma_find_from(s, i + 2, "\n"@);
            lemma_find_from(s, i + 2, "*/"@);
        } else if c == '"' || c == '\'' || c == '`' {
            lemma_str_end(s, c, i + 1);
        } else if is_js_ident_start(c) && (i == 0 || !is_js_ident_char(s[i - 1])) {
            lemma_ident_end(s, i + 1);
            lemma_ws_end(s, ident_end(s, i + 1));
        }
    }
}

#[via_fn]
proof fn js_word_decreases(
    s: Seq<char>,
    i: int,
    we: int,
    w: Seq<char>,
    k: int,
    prev_dot: bool,
    prev_new: bool,
) {
    if 0 <= i && i < we && we <= k && k <= s.len() {
        if k < s.len() {
            lemma_ws_end(s, k + 1);
            let a0 = ws_end(s, k + 1);
            lemma_arg_end(s, a0, 0, false);
            if a0 < s.len() {
                lemma_str_end(s, s[a0], a0 + 1);
                let m = min_int(str_end(s, s[a0], a0 + 1) + 1, s.len() as int);
                lemma_ws_end(s, m);
            }
            let r0 = ws_end(s, k + 1);
            lemma_arg_end(s, r0, 0, true);
            lemma_js_args_all(s, k + 1);
        }
    }
}

#[via_fn]
proof fn js_default_decreases(s: Seq<char>, i: int, we: int, w: Seq<char>) {
}

#[via_fn]
proof fn js_arg1_decreases(s: Seq<char>, i: int, we: int, w: Seq<char>, k: int, url: bool) {
    if 0 <= i && i < we && we <= k && k < s.len() {
        lemma_ws_end(s, k + 1);
        let a0 = ws_end(s, k + 1);
        lemma_arg_end(s, a0, 0, false);
        let e0 = arg_end(s, a0, 0, false);
        if !(e0 >= s.len() || s[e0] != ',') {
            lemma_ws_end(s, e0 + 1);
            lemma_arg_end(s, ws_end(s, e0 + 1), 0, false);
        }
    }
}

/// What `rewrite_js` returns.
pub open spec fn spec_rewrite_js(s: Seq<char>) -> Seq<char> {
    js_rw(s, 0, false, false)
}

/// Whether `c` can start an identifier.
fn is_js_ident_start_exec(c: char) -> (r: bool)
    ensures
        r == is_js_ident_start(c),
{
    ('a' <= c && c <= 'z') || ('A' <= c && c <= 'Z') || c == '_' || c == '$'
}

/// Whether `c` can continue an identifier.
fn is_js_ident_char_exec(c: char) -> (r: bool)
    ensures
        r == is_js_ident_char(c),
{
    is_js_ident_start_exec(c) || ('0' <= c && c <= '9')
}

/// The end of the identifier that starts before `i`.
fn ident_end_exec(v: &Vec<char>, i: usize) -> (r: usize)
    requires
        i <= v@.len(),
    ensures
        r as int == ident_end(v@, i as int),
        i <= r <= v@.len(),
    decreases v@.len() - i,
{
    let n = v.len();
    if i == n || !is_js_ident_char_exec(v[i]) {
        i
    } else {
        ident_end_exec(v, i + 1)
    }
}

/// The end of the expression that starts at `i`.
fn arg_end_exec(v: &Vec<char>, i: usize, depth: usize, stop_semi: bool) -> (r: usize)
    requires
        i <= v@.len(),
        depth + (v@.len() - i) <= usize::MAX,
    ensures
        r as int == arg_end(v@, i as int, depth as int, stop_semi),
        i <= r <= v@.len(),
    decreases v@.len() - i,
{
    let n = v.len();
    if i == n {
        return n;
    }
    let c = v[i];
    if c == '/' && i + 1 < n && v[i + 1] == '/' {
        proof {
            reveal_strlit("\n");
            lemma_find_from(v@, i + 2, "\n"@);
        }
        match crate::css::find_from_exec(v, i + 2, "\n") {
            None => n,
            Some(e) => arg_end_exec(v, e + 1, depth, stop_semi),
        }
    } else if c == '/' && i + 1 < n && v[i + 1] == '*' {
        proof {
            reveal_strlit("*/");
            lemma_find_from(v@, i + 2, "*/"@);
        }
        match crate::css::find_from_exec(v, i + 2, "*/") {
            None => n,
            Some(e) => arg_end_exec(v, e + 2, depth, stop_semi),
        }
    } else if c == '"' || c == '\'' || c == '`' {
        let e = crate::css::str_end_exec(v, c, i + 1);
        let m = if e < n {
            e + 1
        } else {
            n
        };
        arg_end_exec(v, m, depth, stop_semi)
    } else if c == '(' || c == '[' || c == '{' {
        arg_end_exec(v, i + 1, depth + 1, stop_semi)
    } else if c == ')' || c == ']' || c == '}' {
        if depth == 0 {
            i
        } else {
            arg_end_exec(v, i + 1, depth - 1, stop_semi)
        }
    } else if c == ',' && depth == 0 {
        i
    } else if c == ';' && depth == 0 && stop_semi {
        i
    } else {
        arg_end_exec(v, i + 1, depth, stop_semi)
    }
}

/// Whether the word `w` is a URL-taking constructor.
fn is_url_ctor_exec(w: &Vec<char>) -> (r: bool)
    ensures
        r == is_url_ctor(w@),
{
    eq_lit(w, "Worker") || eq_lit(w, "SharedWorker") || eq_lit(w, "URL") || eq_lit(w, "Request")
        || eq_lit(w, "Response") || eq_lit(w, "WebSocket") || eq_lit(w, "EventSource") || eq_lit(
        w,
        "RTCPeerConnection",
    )
}

/// Whether the word `w` is a URL property.
fn is_url_prop_exec(w: &Vec<char>) -> (r: bool)
    ensures
        r == is_url_prop(w@),
{
    eq_lit(w, "src") || eq_lit(w, "href") || eq_lit(w, "action") || eq_lit(w, "poster") || eq_lit(
        w,
        "formAction",
    ) || eq_lit(w, "data") || eq_lit(w, "codeBase") || eq_lit(w, "background")
}

/// Whether the lower-cased attribute name `w` is a URL property.
fn is_url_prop_lower_exec(w: &Vec<char>) -> (r: bool)
    ensures
        r == is_url_prop_lower(w@),
{
    eq_lit(w, "src") || eq_lit(w, "href") || eq_lit(w, "action") || eq_lit(w, "poster") || eq_lit(
        w,
        "formaction",
    ) || eq_lit(w, "data") || eq_lit(w, "codebase") || eq_lit(w, "background")
}

/// Whether the word `w` is an HTML sink method with the HTML in its
/// first argument.
fn is_html_sink_arg0_exec(w: &Vec<char>) -> (r: bool)
    ensures
        r == is_html_sink_arg0(w@),
{
    eq_lit(w, "write") || eq_lit(w, "writeln") || eq_lit(w, "parseFromString") || eq_lit(
        w,
        "createContextualFragment",
    )
}

/// Whether the word `w` is an eval-like sink.
fn is_eval_sink_exec(w: &Vec<char>) -> (r: bool)
    ensures
        r == is_eval_sink(w@),
{
    eq_lit(w, "eval") || eq_lit(w, "Function") || eq_lit(w, "setTimeout") || eq_lit(
        w,
        "setInterval",
    )
}

/// Whether the rewriter leaves this span alone.
fn skip_span_exec(span: &Vec<char>) -> (r: bool)
    ensures
        r == skip_span(span@),
{
    span.len() == 0 || starts_with_at(span, 0, "__internex.")
}

/// Append `wrap_url`/`wrap_html`/`wrap_eval` of `span` to `out`:
/// `kind` 0 is a URL, 1 is HTML, 2 is code.
fn push_wrapped(out: &mut Vec<char>, kind: u8, span: &Vec<char>)
    requires
        kind <= 2,
    ensures
        kind == 0 ==> final(out)@ == old(out)@ + wrap_url(span@),
        kind == 1 ==> final(out)@ == old(out)@ + wrap_html(span@),
        kind == 2 ==> final(out)@ == old(out)@ + wrap_eval(span@),
{
    if kind == 0 {
        push_str_chars(out, "__internex.rewriteUrl(");
    } else if kind == 1 {
        push_str_chars(out, "__internex.rewriteHtml(");
    } else {
        push_str_chars(out, "__internex.rewriteEval(");
    }
    push_all(out, span);
    out.push(')');
    proof {
        reveal_strlit(")");
        if kind == 0 {
            assert(final(out)@ =~= old(out)@ + wrap_url(span@));
        } else if kind == 1 {
            assert(final(out)@ =~= old(out)@ + wrap_html(span@));
        } else {
            assert(final(out)@ =~= old(out)@ + wrap_eval(span@));
        }
    }
}

/// Copy the identifier and scan on.
fn js_default_exec(v: &Vec<char>, i: usize, we: usize, w: &Vec<char>) -> (r: Vec<char>)
    requires
        i < we <= v@.len(),
        w@ == v@.subrange(i as int, we as int),
    ensures
        r@ == js_default(v@, i as int, we as int, w@),
    decreases v@.len() - i, 0int,
{
    let mut out = subrange_vec(v, i, we);
    let is_new = eq_lit(w, "new");
    let rest = js_rw_exec(v, we, false, is_new);
    push_all(&mut out, &rest);
    assert(out@ =~= js_default(v@, i as int, we as int, w@));
    out
}

/// Wrap the second argument of the call to `w` that opens at `k`.
fn js_arg1_exec(v: &Vec<char>, i: usize, we: usize, w: &Vec<char>, k: usize, url: bool) -> (r: Vec<
    char,
>)
    requires
        i < we <= k < v@.len(),
        w@ == v@.subrange(i as int, we as int),
    ensures
        r@ == js_arg1(v@, i as int, we as int, w@, k as int, url),
    decreases v@.len() - i, 1int,
{
    let n = v.len();
    let a0 = crate::css::ws_end_exec(v, k + 1);
    let e0 = arg_end_exec(v, a0, 0, false);
    if e0 == n || v[e0] != ',' {
        js_default_exec(v, i, we, w)
    } else {
        let a1 = crate::css::ws_end_exec(v, e0 + 1);
        let e1 = arg_end_exec(v, a1, 0, false);
        let span = subrange_vec(v, a1, e1);
        if skip_span_exec(&span) {
            let mut out = subrange_vec(v, i, e1);
            let rest = js_rw_exec(v, e1, false, false);
            push_all(&mut out, &rest);
            assert(out@ =~= js_arg1(v@, i as int, we as int, w@, k as int, url));
            out
        } else {
            let mut out = subrange_vec(v, i, a1);
            push_wrapped(&mut out, if url { 0 } else { 1 }, &span);
            let rest = js_rw_exec(v, e1, false, false);
            push_all(&mut out, &rest);
            assert(out@ =~= js_arg1(v@, i as int, we as int, w@, k as int, url));
            out
        }
    }
}

/// The rewritten argument list of an `importScripts` call, and the
/// index of its closing parenthesis.
fn js_args_all_exec(v: &Vec<char>, j: usize) -> (r: (Vec<char>, usize))
    requires
        j <= v@.len(),
    ensures
        r.0@ == js_args_all(v@, j as int).0,
        r.1 as int == js_args_all(v@, j as int).1,
        j <= r.1 <= v@.len(),
    decreases v@.len() - j,
{
    proof {
        lemma_js_args_all(v@, j as int);
    }
    let n = v.len();
    let a = crate::css::ws_end_exec(v, j);
    let e = arg_end_exec(v, a, 0, false);
    let span = subrange_vec(v, a, e);
    let mut piece: Vec<char>;
    if skip_span_exec(&span) {
        piece = subrange_vec(v, j, e);
    } else {
        piece = subrange_vec(v, j, a);
        push_wrapped(&mut piece, 0, &span);
    }
    if e < n && v[e] == ',' {
        let rest = js_args_all_exec(v, e + 1);
        piece.push(',');
        push_all(&mut piece, &rest.0);
        assert(piece@ =~= js_args_all(v@, j as int).0);
        (piece, rest.1)
    } else {
        assert(piece@ =~= js_args_all(v@, j as int).0);
        (piece, e)
    }
}

/// What becomes of the identifier `w` spanning `[i, we)`.
fn js_word_exec(
    v: &Vec<char>,
    i: usize,
    we: usize,
    w: &Vec<char>,
    k: usize,
    prev_dot: bool,
    prev_new: bool,
) -> (r: Vec<char>)
    requires
        i < we <= k <= v@.len(),
        w@ == v@.subrange(i as int, we as int),
    ensures
        r@ == js_word(v@, i as int, we as int, w@, k as int, prev_dot, prev_new),
    decreases v@.len() - i, 2int,
{
    let n = v.len();
    if k < n && v[k] == '(' {
        let is_ctor_site = !prev_dot && (prev_new && is_url_ctor_exec(w) || eq_lit(w, "fetch")
            || eq_lit(w, "sendBeacon"));
        if is_ctor_site {
            let a0 = crate::css::ws_end_exec(v, k + 1);
            let e0 = arg_end_exec(v, a0, 0, false);
            let span = subrange_vec(v, a0, e0);
            if skip_span_exec(&span) {
                let mut out = subrange_vec(v, i, e0);
                let rest = js_rw_exec(v, e0, false, false);
                push_all(&mut out, &rest);
                assert(out@ =~= js_word(v@, i as int, we as int, w@, k as int, prev_dot, prev_new));
                out
            } else {
                let mut out = subrange_vec(v, i, a0);
                push_wrapped(&mut out, 0, &span);
                let rest = js_rw_exec(v, e0, false, false);
                push_all(&mut out, &rest);
                assert(out@ =~= js_word(v@, i as int, we as int, w@, k as int, prev_dot, prev_new));
                out
            }
        } else if !prev_dot && eq_lit(w, "importScripts") {
            proof {
                lemma_js_args_all(v@, k + 1);
            }
            let args = js_args_all_exec(v, k + 1);
            let mut out = subrange_vec(v, i, k + 1);
            push_all(&mut out, &args.0);
            let rest = js_rw_exec(v, args.1, false, false);
            push_all(&mut out, &rest);
            assert(out@ =~= js_word(v@, i as int, we as int, w@, k as int, prev_dot, prev_new));
            out
        } else if !prev_dot && is_eval_sink_exec(w) {
            let a0 = crate::css::ws_end_exec(v, k + 1);
            if a0 < n && (v[a0] == '"' || v[a0] == '\'') {
                let e = crate::css::str_end_exec(v, v[a0], a0 + 1);
                let m = if e < n {
                    e + 1
                } else {
                    n
                };
                let after = crate::css::ws_end_exec(v, m);
                if after < n && (v[after] == ',' || v[after] == ')') {
                    let span = subrange_vec(v, a0, m);
                    let mut out = subrange_vec(v, i, a0);
                    push_wrapped(&mut out, 2, &span);
                    let rest = js_rw_exec(v, m, false, false);
                    push_all(&mut out, &rest);
                    assert(out@ =~= js_word(
                        v@,
                        i as int,
                        we as int,
                        w@,
                        k as int,
                        prev_dot,
                        prev_new,
                    ));
                    out
                } else {
                    js_default_exec(v, i, we, w)
                }
            } else {
                js_default_exec(v, i, we, w)
            }
        } else if prev_dot && eq_lit(w, "insertAdjacentHTML") {
            js_arg1_exec(v, i, we, w, k, false)
        } else if prev_dot && is_html_sink_arg0_exec(w) {
            let a0 = crate::css::ws_end_exec(v, k + 1);
            let e0 = arg_end_exec(v, a0, 0, false);
            let span = subrange_vec(v, a0, e0);
            if skip_span_exec(&span) {
                let mut out = subrange_vec(v, i, e0);
                let rest = js_rw_exec(v, e0, false, false);
                push_all(&mut out, &rest);
                assert(out@ =~= js_word(v@, i as int, we as int, w@, k as int, prev_dot, prev_new));
                out
            } else {
                let mut out = subrange_vec(v, i, a0);
                push_wrapped(&mut out, 1, &span);
                let rest = js_rw_exec(v, e0, false, false);
                push_all(&mut out, &rest);
                assert(out@ =~= js_word(v@, i as int, we as int, w@, k as int, prev_dot, prev_new));
                out
            }
        } else if prev_dot && eq_lit(w, "open") {
            js_arg1_exec(v, i, we, w, k, true)
        } else if prev_dot && eq_lit(w, "setAttribute") {
            let a0 = crate::css::ws_end_exec(v, k + 1);
            let mut is_site = false;
            if a0 < n && (v[a0] == '"' || v[a0] == '\'') {
                let e = crate::css::str_end_exec(v, v[a0], a0 + 1);
                let content = subrange_vec(v, a0 + 1, e);
                assert(content@ =~= v@.subrange(
                    min_int(a0 + 1, v@.len() as int),
                    str_end(v@, v@[a0 as int], a0 + 1 as int),
                ));
                let lowered = crate::chars::to_lower_vec(&content);
                if is_url_prop_lower_exec(&lowered) {
                    is_site = true;
                }
            }
            if is_site {
                js_arg1_exec(v, i, we, w, k, true)
            } else {
                js_default_exec(v, i, we, w)
            }
        } else {
            js_default_exec(v, i, we, w)
        }
    } else if prev_dot && k < n && v[k] == '=' && (k + 1 >= n || v[k + 1] != '=') && {
        let u = is_url_prop_exec(w);
        u || eq_lit(w, "innerHTML") || eq_lit(w, "outerHTML")
    } {
        let r0 = crate::css::ws_end_exec(v, k + 1);
        let e = arg_end_exec(v, r0, 0, true);
        let span = subrange_vec(v, r0, e);
        if skip_span_exec(&span) {
            let mut out = subrange_vec(v, i, e);
            let rest = js_rw_exec(v, e, false, false);
            push_all(&mut out, &rest);
            assert(out@ =~= js_word(v@, i as int, we as int, w@, k as int, prev_dot, prev_new));
            out
        } else if is_url_prop_exec(w) {
            let mut out = subrange_vec(v, i, r0);
            push_wrapped(&mut out, 0, &span);
            let rest = js_rw_exec(v, e, false, false);
            push_all(&mut out, &rest);
            assert(out@ =~= js_word(v@, i as int, we as int, w@, k as int, prev_dot, prev_new));
            out
        } else {
            let mut out = subrange_vec(v, i, r0);
            push_wrapped(&mut out, 1, &span);
            let rest = js_rw_exec(v, e, false, false);
            push_all(&mut out, &rest);
            assert(out@ =~= js_word(v@, i as int, we as int, w@, k as int, prev_dot, prev_new));
            out
        }
    } else {
        js_default_exec(v, i, we, w)
    }
}

/// The rewritten source from index `i` on.
fn js_rw_exec(v: &Vec<char>, i: usize, prev_dot: bool, prev_new: bool) -> (r: Vec<char>)
    requires
        i <= v@.len(),
    ensures
        r@ == js_rw(v@, i as int, prev_dot, prev_new),
    decreases v@.len() - i, 3int,
{
    let n = v.len();
    if i == n {
        let out: Vec<char> = Vec::new();
        return out;
    }
    let c = v[i];
    if c == '/' && i + 1 < n && v[i + 1] == '/' {
        proof {
            reveal_strlit("\n");
            lemma_find_from(v@, i + 2, "\n"@);
        }
        match crate::css::find_from_exec(v, i + 2, "\n") {
            None => {
                let out = subrange_vec(v, i, n);
                assert(out@ =~= js_rw(v@, i as int, prev_dot, prev_new));
                out
            },
            Some(e) => {
                let mut out = subrange_vec(v, i, e + 1);
                let rest = js_rw_exec(v, e + 1, prev_dot, prev_new);
                push_all(&mut out, &rest);
                assert(out@ =~= js_rw(v@, i as int, prev_dot, prev_new));
                out
            },
        }
    } else if c == '/' && i + 1 < n && v[i + 1] == '*' {
        proof {
            reveal_strlit("*/");
            lemma_find_from(v@, i + 2, "*/"@);
        }
        match crate::css::find_from_exec(v, i + 2, "*/") {
            None => {
                let out = subrange_vec(v, i, n);
                assert(out@ =~= js_rw(v@, i as int, prev_dot, prev_new));
                out
            },
            Some(e) => {
                let mut out = subrange_vec(v, i, e + 2);
                let rest = js_rw_exec(v, e + 2, prev_dot, prev_new);
                push_all(&mut out, &rest);
                assert(out@ =~= js_rw(v@, i as int, prev_dot, prev_new));
                out
            },
        }
    } else if c == '"' || c == '\'' || c == '`' {
        let e = crate::css::str_end_exec(v, c, i + 1);
        let m = if e < n {
            e + 1
        } else {
            n
        };
        let mut out = subrange_vec(v, i, m);
        let rest = js_rw_exec(v, m, false, false);
        push_all(&mut out, &rest);
        assert(out@ =~= js_rw(v@, i as int, prev_dot, prev_new));
        out
    } else if is_space_char(c) {
        let mut out: Vec<char> = Vec::new();
        out.push(c);
        let rest = js_rw_exec(v, i + 1, prev_dot, prev_new);
        push_all(&mut out, &rest);
        assert(out@ =~= js_rw(v@, i as int, prev_dot, prev_new));
        out
    } else if c == '.' {
        let mut out: Vec<char> = Vec::new();
        out.push(c);
        let rest = js_rw_exec(v, i + 1, true, false);
        push_all(&mut out, &rest);
        assert(out@ =~= js_rw(v@, i as int, prev_dot, prev_new));
        out
    } else if is_js_ident_start_exec(c) && (i == 0 || !is_js_ident_char_exec(v[i - 1])) {
        let we = ident_end_exec(v, i + 1);
        let w = subrange_vec(v, i, we);
        let k = crate::css::ws_end_exec(v, we);
        let out = js_word_exec(v, i, we, &w, k, prev_dot, prev_new);
        assert(out@ =~= js_rw(v@, i as int, prev_dot, prev_new));
        out
    } else {
        let mut out: Vec<char> = Vec::new();
        out.push(c);
        let rest = js_rw_exec(v, i + 1, false, false);
        push_all(&mut out, &rest);
        assert(out@ =~= js_rw(v@, i as int, prev_dot, prev_new));
        out
    }
}

/// Rewrite a JavaScript source so the common URL, HTML and code sinks
/// route through the client runtime.  The first argument is accepted for
/// interface parity: the emitted calls name the runtime object, never
/// the proxy origin itself.
pub fn rewrite_js(_proxy_origin: &str, source: &str) -> (r: String)
    ensures
        r@ == spec_rewrite_js(source@),
{
    let v = chars_of(source);
    let out = js_rw_exec(&v, 0, false, false);
    string_of(&out)
}

} // verus!
