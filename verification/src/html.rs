//! HTML rewriting.
//!
//! The document is parsed into a DOM through the trusted bindings in
//! `dom`; the walk itself, and every string transform it applies, is
//! verified here.  For each element the walk rewrites the URL-bearing
//! attributes, `srcset`/`imagesrcset` lists, `<meta http-equiv=refresh>`
//! content, inline `style` attributes, inline event handlers and SVG link
//! attributes; `<style>` bodies run through the CSS rewriter, `<script>`
//! bodies are wrapped in the client-runtime scope, and the client runtime
//! loader is injected at the front of `<head>`.  A `<base href>` found in
//! the document replaces the caller's base URL.
//!
//! The rewriter recognizes its own artifacts: an event handler already
//! inside the scope hook, a script body already wrapped (or the injected
//! base-setter), and an already-injected runtime loader are all left
//! alone, so a second pass repeats none of them.  URL values are the one
//! deliberate exception: the codec rewrites every absolute URL as its
//! classification prescribes, a proxied URL included.

use vstd::prelude::*;

use crate::chars::{
    chars_of, eq_lit, has_prefix, join_with, lower_seq, prefix_at, push_all, push_str_chars,
    split_char, split_char_vec, starts_with_at, starts_with_lower_at, string_of, subrange_vec,
    token_end, trim_chars, trim_seq, views_of,
};
use crate::css::{find_from, rewrite_css_string};
use crate::dom::{
    append_child, child_nodes, detach_node, element_name, get_attr, new_text_node, parse_document,
    prepend_child, serialize_node, set_attr, template_contents, text_of,
};
use crate::urlcodec::{encode_url_with_base, opt_str_view, spec_encode_with_base};

verus! {

/// The proxied form of a URL reference, or the reference itself when the
/// codec leaves it alone.
pub open spec fn url_or_keep(p: Seq<char>, b: Seq<char>, u: Seq<char>) -> Seq<char> {
    match spec_encode_with_base(p, b, u) {
        Some(e) => e,
        None => u,
    }
}

fn url_or_keep_exec(p: &str, b: &str, u: &Vec<char>) -> (r: Vec<char>)
    ensures
        r@ == url_or_keep(p@, b@, u@),
{
    let us = string_of(u);
    match encode_url_with_base(p, b, us.as_str()) {
        Some(e) => chars_of(e.as_str()),
        None => {
            let c = subrange_vec(u, 0, u.len());
            assert(c@ =~= u@);
            c
        },
    }
}

/// What one comma-separated `srcset` entry becomes: the URL before the
/// first whitespace is rewritten, a descriptor after it is kept.
pub open spec fn srcset_entry_out(p: Seq<char>, b: Seq<char>, entry: Seq<char>) -> Seq<char> {
    let t = trim_seq(entry);
    let te = token_end(t);
    if te >= t.len() {
        url_or_keep(p, b, t)
    } else {
        url_or_keep(p, b, t.take(te)) + seq![' '] + t.skip(te + 1)
    }
}

/// What `rewrite_srcset` returns: each entry rewritten, re-joined with
/// `", "`.
pub open spec fn spec_rewrite_srcset(p: Seq<char>, b: Seq<char>, s: Seq<char>) -> Seq<char> {
    join_with(
        split_char(s, ',').map(|_i: int, e: Seq<char>| srcset_entry_out(p, b, e)),
        ", "@,
    )
}

/// Rewrite a `srcset` or `imagesrcset` attribute value.
pub fn rewrite_srcset(proxy_origin: &str, base_url: &str, srcset: &str) -> (r: String)
    ensures
        r@ == spec_rewrite_srcset(proxy_origin@, base_url@, srcset@),
{
    let v = chars_of(srcset);
    let entries = split_char_vec(&v, ',');
    let ghost spec_entries = split_char(v@, ',');
    let ghost f = |_i: int, e: Seq<char>| srcset_entry_out(proxy_origin@, base_url@, e);
    let n = entries.len();
    let mut outs: Vec<Vec<char>> = Vec::new();
    let mut i: usize = 0;
    while i < n
        invariant
            n == entries@.len(),
            views_of(entries@) == spec_entries,
            i <= n,
            outs@.len() == i,
            forall|k: int|
                0 <= k < i ==> views_of(outs@)[k] == srcset_entry_out(
                    proxy_origin@,
                    base_url@,
                    spec_entries[k],
                ),
        decreases n - i,
    {
        let t = trim_chars(&entries[i]);
        assert(entries@[i as int]@ == spec_entries[i as int]);
        let te = crate::chars::token_end_vec(&t);
        let out: Vec<char>;
        if te == t.len() {
            out = url_or_keep_exec(proxy_origin, base_url, &t);
        } else {
            let upart = subrange_vec(&t, 0, te);
            assert(upart@ =~= t@.take(te as int));
            let mut o = url_or_keep_exec(proxy_origin, base_url, &upart);
            o.push(' ');
            let desc = subrange_vec(&t, te + 1, t.len());
            assert(desc@ =~= t@.skip(te + 1 as int));
            push_all(&mut o, &desc);
            assert(o@ =~= url_or_keep(proxy_origin@, base_url@, t@.take(te as int)) + seq![' ']
                + t@.skip(te + 1 as int));
            out = o;
        }
        proof {
            assert(out@ == srcset_entry_out(proxy_origin@, base_url@, spec_entries[i as int]));
        }
        let ghost ov = out@;
        let ghost prev = outs@;
        outs.push(out);
        proof {
            assert(views_of(outs@) =~= views_of(prev).push(ov));
            assert(forall|k: int| 0 <= k < i ==> views_of(outs@)[k] == views_of(prev)[k]);
        }
        i += 1;
    }
    let joined = crate::chars::join_vec(&outs, ", ");
    proof {
        assert(views_of(outs@) =~= spec_entries.map(f));
    }
    string_of(&joined)
}

/// What rewriting a `<meta http-equiv=refresh>` `content` value yields:
/// the URL after the first case-insensitive `url=` is rewritten in
/// place; `None` when there is no `url=` or the codec refuses the URL.
pub open spec fn spec_meta_refresh(p: Seq<char>, b: Seq<char>, content: Seq<char>) -> Option<
    Seq<char>,
> {
    let idx = find_from(lower_seq(content), 0, "url="@);
    if idx < 0 {
        None
    } else {
        match spec_encode_with_base(p, b, content.skip(idx + 4)) {
            Some(e) => Some(content.take(idx + 4) + e),
            None => None,
        }
    }
}

/// The first index at or after `i` where `pat` occurs, up to ASCII case.
fn find_lower_from(v: &Vec<char>, i: usize, pat: &str) -> (r: Option<usize>)
    requires
        i <= v@.len(),
    ensures
        match r {
            Some(j) => i <= j && j as int == find_from(lower_seq(v@), i as int, pat@),
            None => find_from(lower_seq(v@), i as int, pat@) == -1,
        },
    decreases v@.len() - i,
{
    let m = pat.unicode_len();
    let n = v.len();
    assert(lower_seq(v@).len() == v@.len());
    if m == 0 || n - i < m {
        return None;
    }
    if starts_with_lower_at(v, i, pat) {
        Some(i)
    } else {
        find_lower_from(v, i + 1, pat)
    }
}

/// Rewrite the `content` of a `<meta http-equiv="refresh">` element.
pub fn rewrite_meta_content(proxy_origin: &str, base_url: &str, content: &str) -> (r: Option<
    String,
>)
    ensures
        opt_str_view(r) == spec_meta_refresh(proxy_origin@, base_url@, content@),
{
    let v = chars_of(content);
    match find_lower_from(&v, 0, "url=") {
        None => None,
        Some(idx) => {
            let n = v.len();
            proof {
                reveal_strlit("url=");
                crate::css::lemma_find_from(lower_seq(v@), 0, "url="@);
                assert(lower_seq(v@).len() == v@.len());
            }
            assert(idx + 4 <= n);
            let upart = subrange_vec(&v, idx + 4, n);
            assert(upart@ =~= v@.skip(idx + 4 as int));
            let us = string_of(&upart);
            match encode_url_with_base(proxy_origin, base_url, us.as_str()) {
                Some(e) => {
                    let mut out = subrange_vec(&v, 0, idx + 4);
                    assert(out@ =~= v@.take(idx + 4 as int));
                    push_str_chars(&mut out, e.as_str());
                    Some(string_of(&out))
                },
                None => None,
            }
        },
    }
}

/// What wrapping an inline event handler yields: the body runs inside
/// the client runtime's scope hook.
pub open spec fn spec_wrap_handler(body: Seq<char>) -> Seq<char> {
    "__internex.scope(this,function(){ "@ + body + " }).call(this,event)"@
}

/// A handler body that is already a scope call is left alone, so
/// rewriting a second time changes nothing.
pub open spec fn handler_already_wrapped(body: Seq<char>) -> bool {
    has_prefix(body, "__internex.scope("@)
}

/// Wrap an inline event-handler body.
pub fn wrap_event_handler(body: &str) -> (r: String)
    ensures
        r@ == spec_wrap_handler(body@),
{
    let mut out: Vec<char> = Vec::new();
    push_str_chars(&mut out, "__internex.scope(this,function(){ ");
    push_str_chars(&mut out, body);
    push_str_chars(&mut out, " }).call(this,event)");
    string_of(&out)
}

/// The new value of an event-handler attribute: wrapped, or `None` when
/// the body is already wrapped and must stay as it is.
pub fn event_handler_out(body: &str) -> (r: Option<String>)
    ensures
        opt_str_view(r) == (if handler_already_wrapped(body@) {
            None
        } else {
            Some(spec_wrap_handler(body@))
        }),
{
    let v = chars_of(body);
    if starts_with_at(&v, 0, "__internex.scope(") {
        None
    } else {
        Some(wrap_event_handler(body))
    }
}

/// What wrapping an inline `<script>` body yields: an IIFE that hands
/// the body the client runtime.
pub open spec fn spec_wrap_script(text: Seq<char>) -> Seq<char> {
    "(function(__internex_proxy){\n"@ + text + "\n})(window.__internex);"@
}

/// A script body the rewriter must not wrap again: one it wrapped
/// itself, or the injected loader's base-setter.  Leaving both alone
/// keeps a second rewrite from changing the document.
pub open spec fn script_already_wrapped(text: Seq<char>) -> bool {
    has_prefix(text, "(function(__internex_proxy){"@) || has_prefix(
        text,
        "window.__internex_base"@,
    )
}

/// Wrap an inline script body in the client-runtime scope.
pub fn wrap_inline_script(text: &str) -> (r: String)
    ensures
        r@ == spec_wrap_script(text@),
{
    let mut out: Vec<char> = Vec::new();
    push_str_chars(&mut out, "(function(__internex_proxy){\n");
    push_str_chars(&mut out, text);
    push_str_chars(&mut out, "\n})(window.__internex);");
    string_of(&out)
}

/// The new text of an inline `<script>` element: wrapped, or `None`
/// when it is already a rewriter artifact and must stay as it is.
pub fn inline_script_out(text: &str) -> (r: Option<String>)
    ensures
        opt_str_view(r) == (if script_already_wrapped(text@) {
            None
        } else {
            Some(spec_wrap_script(text@))
        }),
{
    let v = chars_of(text);
    if starts_with_at(&v, 0, "(function(__internex_proxy){") || starts_with_at(
        &v,
        0,
        "window.__internex_base",
    ) {
        None
    } else {
        Some(wrap_inline_script(text))
    }
}

/// A single or double quote.
pub open spec fn is_quote(c: char) -> bool {
    c == '\'' || c == '"'
}

/// `s` without leading quote characters.
pub open spec fn trim_q_start(s: Seq<char>) -> Seq<char>
    decreases s.len(),
{
    if s.len() == 0 {
        s
    } else if is_quote(s[0]) {
        trim_q_start(s.skip(1))
    } else {
        s
    }
}

/// `s` without trailing quote characters.
pub open spec fn trim_q_end(s: Seq<char>) -> Seq<char>
    decreases s.len(),
{
    if s.len() == 0 {
        s
    } else if is_quote(s[s.len() - 1]) {
        trim_q_end(s.take(s.len() - 1))
    } else {
        s
    }
}

/// `s` without surrounding quote characters.
pub open spec fn trim_quotes(s: Seq<char>) -> Seq<char> {
    trim_q_end(trim_q_start(s))
}

fn first_non_quote(v: &Vec<char>, i: usize) -> (r: usize)
    requires
        i <= v@.len(),
    ensures
        i <= r <= v@.len(),
        trim_q_start(v@.skip(i as int)) == v@.skip(r as int),
        r < v@.len() ==> !is_quote(v@[r as int]),
    decreases v@.len() - i,
{
    if i == v.len() {
        assert(v@.skip(i as int) =~= Seq::<char>::empty());
        i
    } else if v[i] == '\'' || v[i] == '"' {
        assert(v@.skip(i as int)[0] == v@[i as int]);
        assert(v@.skip(i as int).skip(1) =~= v@.skip(i + 1 as int));
        first_non_quote(v, i + 1)
    } else {
        assert(v@.skip(i as int)[0] == v@[i as int]);
        i
    }
}

fn last_non_quote(v: &Vec<char>, a: usize, b: usize) -> (r: usize)
    requires
        a < b <= v@.len(),
        !is_quote(v@[a as int]),
    ensures
        a < r <= b,
        trim_q_end(v@.subrange(a as int, b as int)) == v@.subrange(a as int, r as int),
    decreases b,
{
    let ghost piece = v@.subrange(a as int, b as int);
    if v[b - 1] == '\'' || v[b - 1] == '"' {
        assert(piece[piece.len() - 1] == v@[b - 1]);
        if b - 1 == a {
            assert(false);
            b
        } else {
            assert(piece.take(piece.len() - 1) =~= v@.subrange(a as int, b - 1 as int));
            last_non_quote(v, a, b - 1)
        }
    } else {
        assert(piece[piece.len() - 1] == v@[b - 1]);
        b
    }
}

/// `v` without surrounding quote characters.
fn trim_quotes_vec(v: &Vec<char>) -> (r: Vec<char>)
    ensures
        r@ == trim_quotes(v@),
{
    let a = first_non_quote(v, 0);
    assert(v@.skip(0) =~= v@);
    if a == v.len() {
        assert(v@.skip(a as int) =~= Seq::<char>::empty());
        let r: Vec<char> = Vec::new();
        assert(r@ =~= trim_quotes(v@));
        return r;
    }
    let b = last_non_quote(v, a, v.len());
    assert(v@.subrange(a as int, v@.len() as int) =~= v@.skip(a as int));
    let r = subrange_vec(v, a, b);
    assert(r@ == trim_quotes(v@));
    r
}

/// What an SVG link attribute value becomes: local references
/// (`#…`, `url(#…)`) are left alone, a `url(…)` wrapper is stripped, its
/// inner URL rewritten and the wrapper restored, and a bare reference is
/// rewritten directly.  `None` means the attribute is left unchanged.
pub open spec fn spec_svg_attr(p: Seq<char>, b: Seq<char>, val: Seq<char>) -> Option<Seq<char>> {
    if has_prefix(val, "url(#"@) || has_prefix(val, "#"@) {
        None
    } else {
        let wrapped = has_prefix(val, "url("@) && val.len() > 0 && val[val.len() - 1] == ')';
        let inner = if wrapped {
            trim_quotes(trim_seq(val.subrange(4, val.len() - 1)))
        } else {
            val
        };
        if has_prefix(inner, "#"@) {
            None
        } else {
            match spec_encode_with_base(p, b, inner) {
                Some(e) => Some(
                    if wrapped {
                        "url("@ + e + ")"@
                    } else {
                        e
                    },
                ),
                None => None,
            }
        }
    }
}

/// Rewrite one SVG link attribute value; `None` leaves it unchanged.
pub fn rewrite_svg_value(proxy_origin: &str, base_url: &str, val: &str) -> (r: Option<String>)
    ensures
        opt_str_view(r) == spec_svg_attr(proxy_origin@, base_url@, val@),
{
    let v = chars_of(val);
    if starts_with_at(&v, 0, "url(#") || starts_with_at(&v, 0, "#") {
        return None;
    }
    let wrapped = starts_with_at(&v, 0, "url(") && v.len() > 0 && v[v.len() - 1] == ')';
    let inner: Vec<char>;
    if wrapped {
        proof {
            reveal_strlit("url(");
            assert(v@.len() >= 4);
            if v@.len() == 4 {
                assert(v@.subrange(0, 4)[3] == v@[3]);
                assert(false);
            }
        }
        let raw = subrange_vec(&v, 4, v.len() - 1);
        assert(raw@ =~= v@.subrange(4, v@.len() - 1));
        let t = trim_chars(&raw);
        inner = trim_quotes_vec(&t);
    } else {
        let c = subrange_vec(&v, 0, v.len());
        assert(c@ =~= v@);
        inner = c;
    }
    if starts_with_at(&inner, 0, "#") {
        return None;
    }
    let is_ = string_of(&inner);
    match encode_url_with_base(proxy_origin, base_url, is_.as_str()) {
        Some(e) => {
            if wrapped {
                let mut out: Vec<char> = Vec::new();
                push_str_chars(&mut out, "url(");
                push_str_chars(&mut out, e.as_str());
                out.push(')');
                proof {
                    reveal_strlit(")");
                    assert(out@ =~= "url("@ + e@ + ")"@);
                }
                Some(string_of(&out))
            } else {
                Some(e)
            }
        },
        None => None,
    }
}

/// The lower-case hex digit for `d` in `0..16`.
pub open spec fn lhex(d: int) -> char {
    if d < 10 {
        ((48 + d) as u8) as char
    } else {
        ((87 + d) as u8) as char  // 'a' is 97, so 'a' + (d - 10)
    }
}

/// What one character becomes inside a JSON string literal, as
/// `serde_json` writes it: `"` and `\` escaped, the named control
/// escapes, other controls as `\u00xx`, everything else verbatim.
pub open spec fn json_esc_char(c: char) -> Seq<char> {
    if c == '"' {
        seq!['\\', '"']
    } else if c == '\\' {
        seq!['\\', '\\']
    } else if c == '\u{8}' {
        seq!['\\', 'b']
    } else if c == '\t' {
        seq!['\\', 't']
    } else if c == '\n' {
        seq!['\\', 'n']
    } else if c == '\u{c}' {
        seq!['\\', 'f']
    } else if c == '\r' {
        seq!['\\', 'r']
    } else if (c as u32) < 0x20 {
        seq!['\\', 'u', '0', '0', lhex(c as u32 as int / 16), lhex(c as u32 as int % 16)]
    } else {
        seq![c]
    }
}

/// A string escaped for a JSON string literal.
pub open spec fn json_escape(s: Seq<char>) -> Seq<char>
    decreases s.len(),
{
    if s.len() == 0 {
        Seq::<char>::empty()
    } else {
        json_esc_char(s[0]) + json_escape(s.skip(1))
    }
}

/// A JSON string literal holding `s`.
pub open spec fn json_quote(s: Seq<char>) -> Seq<char> {
    seq!['"'] + json_escape(s) + seq!['"']
}

proof fn lemma_json_escape_concat(a: Seq<char>, b: Seq<char>)
    ensures
        json_escape(a + b) == json_escape(a) + json_escape(b),
    decreases a.len(),
{
    if a.len() == 0 {
        assert(a + b =~= b);
        assert(json_escape(a) + json_escape(b) =~= json_escape(b));
    } else {
        assert((a + b).skip(1) =~= a.skip(1) + b);
        lemma_json_escape_concat(a.skip(1), b);
        assert((a + b)[0] == a[0]);
        assert(json_esc_char(a[0]) + (json_escape(a.skip(1)) + json_escape(b)) =~= (json_esc_char(
            a[0],
        ) + json_escape(a.skip(1))) + json_escape(b));
    }
}

fn json_escape_exec(v: &Vec<char>) -> (r: Vec<char>)
    ensures
        r@ == json_escape(v@),
{
    let n = v.len();
    let mut out: Vec<char> = Vec::new();
    let mut i: usize = 0;
    while i < n
        invariant
            n == v@.len(),
            i <= n,
            out@ == json_escape(v@.subrange(0, i as int)),
        decreases n - i,
    {
        let c = v[i];
        if c == '"' {
            out.push('\\');
            out.push('"');
        } else if c == '\\' {
            out.push('\\');
            out.push('\\');
        } else if c == '\u{8}' {
            out.push('\\');
            out.push('b');
        } else if c == '\t' {
            out.push('\\');
            out.push('t');
        } else if c == '\n' {
            out.push('\\');
            out.push('n');
        } else if c == '\u{c}' {
            out.push('\\');
            out.push('f');
        } else if c == '\r' {
            out.push('\\');
            out.push('r');
        } else if (c as u32) < 0x20 {
            out.push('\\');
            out.push('u');
            out.push('0');
            out.push('0');
            let cv = c as u32;
            if cv / 16 < 10 {
                out.push(((48 + cv / 16) as u8) as char);
            } else {
                out.push(((87 + cv / 16) as u8) as char);
            }
            if cv % 16 < 10 {
                out.push(((48 + cv % 16) as u8) as char);
            } else {
                out.push(((87 + cv % 16) as u8) as char);
            }
        } else {
            out.push(c);
        }
        proof {
            let pre = v@.subrange(0, i as int);
            let one = seq![v@[i as int]];
            assert(v@.subrange(0, i + 1 as int) =~= pre + one);
            lemma_json_escape_concat(pre, one);
            assert(one.skip(1) =~= Seq::<char>::empty());
            assert(json_escape(Seq::<char>::empty()) == Seq::<char>::empty());
            assert(json_escape(one) == json_esc_char(v@[i as int]) + json_escape(
                Seq::<char>::empty(),
            ));
            assert(json_escape(one) =~= json_esc_char(v@[i as int]));
            assert(out@ =~= json_escape(pre) + json_esc_char(v@[i as int]));
        }
        i += 1;
    }
    assert(v@.subrange(0, n as int) =~= v@);
    out
}

/// What the injected client-runtime loader looks like: one script that
/// records the effective base URL as a JSON string, and one that loads
/// the runtime from the proxy.
pub open spec fn spec_runtime_html(p: Seq<char>, b: Seq<char>) -> Seq<char> {
    "<script>window.__internex_base = "@ + json_quote(b) + ";</script><script src=\""@ + p
        + "/internex.runtime.js\"></script>"@
}

/// The HTML of the client-runtime loader for this proxy and base.
pub fn runtime_script_html(proxy_origin: &str, base_url: &str) -> (r: String)
    ensures
        r@ == spec_runtime_html(proxy_origin@, base_url@),
{
    let mut out: Vec<char> = Vec::new();
    push_str_chars(&mut out, "<script>window.__internex_base = ");
    out.push('"');
    let bv = chars_of(base_url);
    let esc = json_escape_exec(&bv);
    push_all(&mut out, &esc);
    out.push('"');
    push_str_chars(&mut out, ";</script><script src=\"");
    push_str_chars(&mut out, proxy_origin);
    push_str_chars(&mut out, "/internex.runtime.js\"></script>");
    assert(out@ =~= spec_runtime_html(proxy_origin@, base_url@));
    string_of(&out)
}

/// The `i`-th single-URL attribute name.
fn url_attr_name(i: usize) -> &'static str {
    match i {
        0 => "href",
        1 => "src",
        2 => "action",
        3 => "formaction",
        4 => "poster",
        5 => "data",
        6 => "manifest",
        7 => "background",
        8 => "ping",
        9 => "cite",
        10 => "longdesc",
        11 => "usemap",
        12 => "archive",
        13 => "codebase",
        _ => "classid",
    }
}

/// The `i`-th inline event-handler attribute name.
fn event_attr_name(i: usize) -> &'static str {
    match i {
        0 => "onabort",
        1 => "onblur",
        2 => "oncanplay",
        3 => "oncanplaythrough",
        4 => "onchange",
        5 => "onclick",
        6 => "oncontextmenu",
        7 => "ondblclick",
        8 => "ondrag",
        9 => "ondragend",
        10 => "ondragenter",
        11 => "ondragleave",
        12 => "ondragover",
        13 => "ondragstart",
        14 => "ondrop",
        15 => "ondurationchange",
        16 => "onemptied",
        17 => "onended",
        18 => "onerror",
        19 => "onfocus",
        20 => "oninput",
        21 => "oninvalid",
        22 => "onkeydown",
        23 => "onkeypress",
        24 => "onkeyup",
        25 => "onload",
        26 => "onloadeddata",
        27 => "onloadedmetadata",
        28 => "onloadstart",
        29 => "onmousedown",
        30 => "onmouseenter",
        31 => "onmouseleave",
        32 => "onmousemove",
        33 => "onmouseout",
        34 => "onmouseover",
        35 => "onmouseup",
        36 => "onpause",
        37 => "onplay",
        38 => "onplaying",
        39 => "onprogress",
        40 => "onratechange",
        41 => "onreset",
        42 => "onresize",
        43 => "onscroll",
        44 => "onseeked",
        45 => "onseeking",
        46 => "onselect",
        47 => "onshow",
        48 => "onstalled",
        49 => "onsubmit",
        50 => "onsuspend",
        51 => "ontimeupdate",
        52 => "ontoggle",
        53 => "onvolumechange",
        54 => "onwaiting",
        55 => "onmessage",
        56 => "onmessageerror",
        57 => "onbeforeunload",
        58 => "onhashchange",
        _ => "onpopstate",
    }
}

/// The `i`-th SVG element name that carries link attributes.
fn svg_tag_name(i: usize) -> &'static str {
    match i {
        0 => "svg",
        1 => "use",
        2 => "image",
        3 => "a",
        4 => "pattern",
        5 => "mask",
        6 => "clippath",
        7 => "filter",
        8 => "fegaussianblur",
        9 => "feimage",
        10 => "lineargradient",
        11 => "radialgradient",
        12 => "marker",
        13 => "symbol",
        _ => "defs",
    }
}

/// The `i`-th SVG link attribute name.
fn svg_attr_name(i: usize) -> &'static str {
    match i {
        0 => "xlink:href",
        1 => "href",
        2 => "clip-path",
        3 => "mask",
        4 => "filter",
        5 => "fill",
        6 => "stroke",
        7 => "marker-start",
        8 => "marker-mid",
        _ => "marker-end",
    }
}

/// Rewrite the plain URL attributes of one element.
fn rewrite_url_attrs(n: &kuchikiki::NodeRef, p: &str, b: &str) {
    let mut i: usize = 0;
    while i < 15
        decreases 15 - i,
    {
        let name = url_attr_name(i);
        match get_attr(n, name) {
            Some(val) => {
                match encode_url_with_base(p, b, val.as_str()) {
                    Some(enc) => set_attr(n, name, enc.as_str()),
                    None => (),
                }
            },
            None => (),
        }
        i += 1;
    }
}

/// Rewrite a `srcset`-shaped attribute of one element.
fn rewrite_srcset_attr(n: &kuchikiki::NodeRef, attr: &str, p: &str, b: &str) {
    match get_attr(n, attr) {
        Some(val) => {
            let out = rewrite_srcset(p, b, val.as_str());
            set_attr(n, attr, out.as_str());
        },
        None => (),
    }
}

/// Rewrite the `content` of a `<meta http-equiv="refresh">` element.
fn rewrite_meta_refresh(n: &kuchikiki::NodeRef, p: &str, b: &str) {
    let is_refresh = match get_attr(n, "http-equiv") {
        Some(v) => {
            let lv = lower_string(v.as_str());
            let lvv = chars_of(lv.as_str());
            eq_lit(&lvv, "refresh")
        },
        None => false,
    };
    if !is_refresh {
        return;
    }
    match get_attr(n, "content") {
        Some(content) => {
            match rewrite_meta_content(p, b, content.as_str()) {
                Some(out) => set_attr(n, "content", out.as_str()),
                None => (),
            }
        },
        None => (),
    }
}

/// Lower-case the ASCII letters of a string.
fn lower_string(s: &str) -> (r: String)
    ensures
        r@ == lower_seq(s@),
{
    let v = chars_of(s);
    let low = crate::chars::to_lower_vec(&v);
    string_of(&low)
}

/// Wrap every inline event handler of one element.
fn rewrite_event_handlers(n: &kuchikiki::NodeRef, _p: &str, _b: &str) {
    let mut i: usize = 0;
    while i < 60
        decreases 60 - i,
    {
        let name = event_attr_name(i);
        match get_attr(n, name) {
            Some(val) => {
                match event_handler_out(val.as_str()) {
                    Some(out) => set_attr(n, name, out.as_str()),
                    None => (),
                }
            },
            None => (),
        }
        i += 1;
    }
}

/// Rewrite the SVG link attributes of an SVG element.
fn rewrite_svg_attrs(n: &kuchikiki::NodeRef, tag: &Vec<char>, p: &str, b: &str) {
    let mut is_svg = false;
    let mut i: usize = 0;
    while i < 15
        decreases 15 - i,
    {
        if eq_lit(tag, svg_tag_name(i)) {
            is_svg = true;
        }
        i += 1;
    }
    if !is_svg {
        return;
    }
    let mut j: usize = 0;
    while j < 10
        decreases 10 - j,
    {
        let name = svg_attr_name(j);
        match get_attr(n, name) {
            Some(val) => {
                match rewrite_svg_value(p, b, val.as_str()) {
                    Some(out) => set_attr(n, name, out.as_str()),
                    None => (),
                }
            },
            None => (),
        }
        j += 1;
    }
}

/// The concatenated text children of a node.
fn text_children(n: &kuchikiki::NodeRef) -> String {
    let kids = child_nodes(n);
    let mut out: Vec<char> = Vec::new();
    let mut i: usize = 0;
    while i < kids.len()
        decreases kids@.len() - i,
    {
        match text_of(&kids[i]) {
            Some(t) => push_str_chars(&mut out, t.as_str()),
            None => (),
        }
        i += 1;
    }
    string_of(&out)
}

/// Replace every child of `n` with a single text node holding `text`.
fn replace_children_with_text(n: &kuchikiki::NodeRef, text: &str) {
    let kids = child_nodes(n);
    let mut i: usize = 0;
    while i < kids.len()
        decreases kids@.len() - i,
    {
        detach_node(&kids[i]);
        i += 1;
    }
    append_child(n, new_text_node(text));
}

/// Run the CSS rewriter over a `<style>` element's text.
fn rewrite_style_element(n: &kuchikiki::NodeRef, p: &str, b: &str) {
    let text = text_children(n);
    if text.as_str().unicode_len() == 0 {
        return;
    }
    let out = rewrite_css_string(p, b, text.as_str());
    replace_children_with_text(n, out.as_str());
}

/// Wrap an inline `<script>` element's text in the runtime scope,
/// leaving the rewriter's own artifacts alone.
fn rewrite_script_element(n: &kuchikiki::NodeRef, p: &str, b: &str) {
    let text = text_children(n);
    if text.as_str().unicode_len() == 0 {
        return;
    }
    match inline_script_out(text.as_str()) {
        Some(out) => replace_children_with_text(n, out.as_str()),
        None => (),
    }
}

/// Apply every per-element rewrite to one node.  The injected runtime
/// loader is the rewriter's own artifact and is left alone, so a second
/// pass does not proxy the loader's own address.
fn process_node(n: &kuchikiki::NodeRef, p: &str, b: &str) {
    let tag0 = match element_name(n) {
        Some(t) => t,
        None => {
            return;
        },
    };
    let tag_s = lower_string(tag0.as_str());
    let tag = chars_of(tag_s.as_str());
    if eq_lit(&tag, "script") {
        match get_attr(n, "src") {
            Some(v) => {
                let loader = runtime_src(p);
                if v == loader {
                    return;
                }
            },
            None => (),
        }
    }
    rewrite_url_attrs(n, p, b);
    rewrite_srcset_attr(n, "srcset", p, b);
    rewrite_srcset_attr(n, "imagesrcset", p, b);
    if eq_lit(&tag, "meta") {
        rewrite_meta_refresh(n, p, b);
    }
    match get_attr(n, "style") {
        Some(style) => {
            let out = rewrite_css_string(p, b, style.as_str());
            set_attr(n, "style", out.as_str());
        },
        None => (),
    }
    rewrite_event_handlers(n, p, b);
    rewrite_svg_attrs(n, &tag, p, b);
    if eq_lit(&tag, "style") {
        rewrite_style_element(n, p, b);
    }
    if eq_lit(&tag, "script") {
        rewrite_script_element(n, p, b);
    }
}

/// Walk the whole document in pre-order, `<template>` content included,
/// and rewrite every element.  The walk is bounded by a step counter far
/// beyond any real document, so its termination does not rest on the
/// shape of the opaque DOM.
fn walk_document(doc: &kuchikiki::NodeRef, p: &str, b: &str) {
    let mut stack: Vec<kuchikiki::NodeRef> = child_nodes(doc);
    let mut fuel: u64 = 0xFFFF_FFFF_FFFF_FFFF;
    while fuel > 0
        decreases fuel,
    {
        fuel = fuel - 1;
        match stack.pop() {
            Some(node) => {
                process_node(&node, p, b);
                match template_contents(&node) {
                    Some(tc) => stack.push(tc),
                    None => (),
                }
                let mut kids = child_nodes(&node);
                while kids.len() > 0
                    decreases kids@.len(),
                {
                    match kids.pop() {
                        Some(k) => stack.push(k),
                        None => (),
                    }
                }
            },
            None => {
                return;
            },
        }
    }
}

/// The first element in pre-order whose tag equals `tag`, as the parser
/// names tags.  Bounded by a step counter like `walk_document`.
fn find_element(doc: &kuchikiki::NodeRef, tag: &str) -> Option<kuchikiki::NodeRef> {
    let mut stack: Vec<kuchikiki::NodeRef> = Vec::new();
    let mut pending = child_nodes(doc);
    while pending.len() > 0
        decreases pending@.len(),
    {
        match pending.pop() {
            Some(k) => stack.push(k),
            None => (),
        }
    }
    let mut fuel: u64 = 0xFFFF_FFFF_FFFF_FFFF;
    while fuel > 0
        decreases fuel,
    {
        fuel = fuel - 1;
        match stack.pop() {
            Some(node) => {
                let is_match = match element_name(&node) {
                    Some(nm) => {
                        let nv = chars_of(nm.as_str());
                        eq_lit(&nv, tag)
                    },
                    None => false,
                };
                if is_match {
                    return Some(node);
                }
                let mut kids = child_nodes(&node);
                while kids.len() > 0
                    decreases kids@.len(),
                {
                    match kids.pop() {
                        Some(k) => stack.push(k),
                        None => (),
                    }
                }
            },
            None => {
                return None;
            },
        }
    }
    None
}

/// The `href` of the document's first `<base>` element, if any.
fn find_base_href(doc: &kuchikiki::NodeRef) -> Option<String> {
    match find_element(doc, "base") {
        Some(node) => get_attr(&node, "href"),
        None => None,
    }
}

/// The address the client runtime is served from.
fn runtime_src(p: &str) -> (r: String)
    ensures
        r@ == p@ + "/internex.runtime.js"@,
{
    let mut out: Vec<char> = Vec::new();
    push_str_chars(&mut out, p);
    push_str_chars(&mut out, "/internex.runtime.js");
    string_of(&out)
}

/// Whether the document already holds a `<script>` whose `src` is the
/// runtime loader.  Bounded by a step counter like `walk_document`.
fn has_runtime_loader(doc: &kuchikiki::NodeRef, src: &String) -> bool {
    let mut stack: Vec<kuchikiki::NodeRef> = child_nodes(doc);
    let mut fuel: u64 = 0xFFFF_FFFF_FFFF_FFFF;
    while fuel > 0
        decreases fuel,
    {
        fuel = fuel - 1;
        match stack.pop() {
            Some(node) => {
                let is_script = match element_name(&node) {
                    Some(nm) => {
                        let nv = chars_of(nm.as_str());
                        eq_lit(&nv, "script")
                    },
                    None => false,
                };
                if is_script {
                    match get_attr(&node, "src") {
                        Some(val) => {
                            if val == *src {
                                return true;
                            }
                        },
                        None => (),
                    }
                }
                let mut kids = child_nodes(&node);
                while kids.len() > 0
                    decreases kids@.len(),
                {
                    match kids.pop() {
                        Some(kid) => stack.push(kid),
                        None => (),
                    }
                }
            },
            None => {
                return false;
            },
        }
    }
    false
}

/// Every element with this tag in the parsed fragment, in document
/// order.  Bounded by a step counter like `walk_document`.
fn collect_elements(doc: &kuchikiki::NodeRef, tag: &str) -> Vec<kuchikiki::NodeRef> {
    let mut found: Vec<kuchikiki::NodeRef> = Vec::new();
    let mut stack: Vec<kuchikiki::NodeRef> = child_nodes(doc);
    let mut fuel: u64 = 0xFFFF_FFFF_FFFF_FFFF;
    while fuel > 0
        decreases fuel,
    {
        fuel = fuel - 1;
        match stack.pop() {
            Some(node) => {
                let is_match = match element_name(&node) {
                    Some(nm) => {
                        let nv = chars_of(nm.as_str());
                        eq_lit(&nv, tag)
                    },
                    None => false,
                };
                let mut kids = child_nodes(&node);
                while kids.len() > 0
                    decreases kids@.len(),
                {
                    match kids.pop() {
                        Some(kid) => stack.push(kid),
                        None => (),
                    }
                }
                if is_match {
                    found.push(node);
                }
            },
            None => {
                return found;
            },
        }
    }
    found
}

/// Build the runtime loader's two `<script>` elements (by parsing the
/// loader HTML and picking them out) and insert them at the front of the
/// document's `<head>`.  A document with no `<head>` is left alone, and
/// so is one that already loads the runtime, so a second rewrite does
/// not inject twice.
fn inject_client_script(doc: &kuchikiki::NodeRef, p: &str, b: &str) {
    let src = runtime_src(p);
    if has_runtime_loader(doc, &src) {
        return;
    }
    let script_html = runtime_script_html(p, b);
    match find_element(doc, "head") {
        Some(head) => {
            let frag = parse_document(script_html.as_str());
            let mut scripts = collect_elements(&frag, "script");
            while scripts.len() > 0
                decreases scripts@.len(),
            {
                match scripts.pop() {
                    Some(node) => prepend_child(&head, node),
                    None => (),
                }
            }
        },
        None => (),
    }
}

/// Rewrite a full HTML document so every URL it carries routes through
/// the proxy, and inject the client-runtime loader into `<head>`.
///
/// This function carries no `ensures`.  The document lives behind the
/// contract-free bindings in `dom` — kuchikiki shares and mutates nodes
/// through interior mutability, so no claim over a bare node handle
/// would survive a mutation made through another handle, and a sound
/// contract would need the whole document owned by one structure with a
/// ghost tree model, which these bindings do not attempt.  What the
/// rewrite writes into the document is therefore pinned down one level
/// lower: every string it stores is produced by one of the
/// exactly-specified functions above (`encode_url_with_base`,
/// `rewrite_srcset`, `rewrite_meta_content`, `event_handler_out`,
/// `rewrite_svg_value`, `rewrite_css_string`, `inline_script_out`,
/// `runtime_script_html`), and the glue that carries them to the DOM is
/// exercised by the tests.  A document that fails to serialize comes
/// back unchanged.
pub fn rewrite_html(proxy_origin: &str, base_url: &str, html: &str) -> String {
    let doc = parse_document(html);
    let eff_base: String = match find_base_href(&doc) {
        Some(h) => h,
        None => {
            let v = chars_of(base_url);
            string_of(&v)
        },
    };
    walk_document(&doc, proxy_origin, eff_base.as_str());
    inject_client_script(&doc, proxy_origin, eff_base.as_str());
    match serialize_node(&doc) {
        Some(s) => s,
        None => {
            let v = chars_of(html);
            string_of(&v)
        },
    }
}

/// The injected loader always names the client runtime script: whatever
/// proxy origin and base URL are in force, the HTML that
/// `runtime_script_html` builds contains `internex.runtime.js`.
pub proof fn lemma_runtime_loader_named(p: Seq<char>, b: Seq<char>)
    ensures
        crate::chars::contains_seq(spec_runtime_html(p, b), "internex.runtime.js"@),
{
    reveal_strlit("<script>window.__internex_base = ");
    reveal_strlit(";</script><script src=\"");
    reveal_strlit("/internex.runtime.js\"></script>");
    reveal_strlit("internex.runtime.js");
    let o = spec_runtime_html(p, b);
    let head = "<script>window.__internex_base = "@ + json_quote(b) + ";</script><script src=\""@
        + p;
    let tail = "/internex.runtime.js\"></script>"@;
    assert(o =~= head + tail);
    let idx = head.len() as int + 1;
    assert(prefix_at(o, idx, "internex.runtime.js"@)) by {
        assert(forall|i: int| 0 <= i < tail.len() ==> o[head.len() + i] == #[trigger] tail[i]);
        assert(o.subrange(idx, idx + 19) =~= "internex.runtime.js"@) by {
            assert(forall|i: int|
                0 <= i < 19 ==> #[trigger] o.subrange(idx, idx + 19)[i] == o[idx + i]);
            assert(forall|i: int|
                0 <= i < 19 ==> tail[1 + i] == #[trigger] "internex.runtime.js"@[i]);
        }
    }
}

} // verus!
