//! Content-Security-Policy rewriting.
//!
//! A policy is split into directives on `;`, each directive into
//! whitespace-separated tokens.  Directives that break proxied browsing
//! (`upgrade-insecure-requests`, `block-all-mixed-content`) are dropped.
//! Source-list directives keep every original token — keywords, nonces and
//! hashes byte for byte — and additionally get every host source rewritten
//! through the proxy, plus the proxy origin and, when missing, the
//! upstream origin, so both the proxy's injected resources and the page's
//! own assets stay loadable.  All other directives pass through with their
//! tokens unchanged.

use vstd::prelude::*;

use crate::chars::{
    chars_of, eq_lit, first_index_of, has_prefix, is_space, join_vec, join_with, lower_char,
    lower_seq, split_char, split_char_vec, string_of, subrange_vec, to_lower_vec, token_end,
    tokens_of, tokens_vec, views_of,
};
use crate::pct::opt_chars_view;
use crate::urlcodec::{encode_chars, spec_encode};

verus! {

/// Directive names whose value is a source list the proxy must extend.
pub open spec fn is_source_list_name(n: Seq<char>) -> bool {
    ||| n == "default-src"@
    ||| n == "script-src"@
    ||| n == "style-src"@
    ||| n == "img-src"@
    ||| n == "connect-src"@
    ||| n == "frame-src"@
    ||| n == "worker-src"@
    ||| n == "child-src"@
    ||| n == "manifest-src"@
    ||| n == "media-src"@
    ||| n == "font-src"@
    ||| n == "object-src"@
    ||| n == "base-uri"@
    ||| n == "form-action"@
}

/// Directive names removed outright because they defeat proxying.
pub open spec fn is_strip_name(n: Seq<char>) -> bool {
    n == "upgrade-insecure-requests"@ || n == "block-all-mixed-content"@
}

/// A single-quoted keyword, nonce or hash token.
pub open spec fn is_quoted_token(t: Seq<char>) -> bool {
    t.len() > 0 && t[0] == '\'' && t[t.len() - 1] == '\''
}

/// A scheme source such as `data:` or `https:`.
pub open spec fn is_scheme_token(t: Seq<char>) -> bool {
    t.len() > 0 && t[t.len() - 1] == ':' && first_index_of(t, '/') == -1
}

/// What one source-list token becomes: keywords, quoted tokens and scheme
/// sources are kept; anything else is proxy-encoded and the original kept
/// beside it, so resources the rewriter misses still load.
pub open spec fn source_token_out(p: Seq<char>, t: Seq<char>) -> Seq<Seq<char>> {
    if t == "*"@ || t == "'none'"@ {
        seq![t]
    } else if is_quoted_token(t) {
        seq![t]
    } else if is_scheme_token(t) {
        seq![t]
    } else {
        match spec_encode(p, t) {
            Some(e) => seq![e, t],
            None => seq![t, t],
        }
    }
}

/// The rewritten tokens of a whole source list, in order.
pub open spec fn rewrite_source_tokens(p: Seq<char>, vals: Seq<Seq<char>>) -> Seq<Seq<char>>
    decreases vals.len(),
{
    if vals.len() == 0 {
        Seq::<Seq<char>>::empty()
    } else {
        source_token_out(p, vals[0]) + rewrite_source_tokens(p, vals.skip(1))
    }
}

/// A full source list: the rewritten tokens, then the proxy origin, then
/// the upstream origin unless some token already equals it.
pub open spec fn source_list_out(p: Seq<char>, up: Seq<char>, vals: Seq<Seq<char>>) -> Seq<
    Seq<char>,
> {
    let toks = rewrite_source_tokens(p, vals) + seq![p];
    if toks.contains(up) {
        toks
    } else {
        toks + seq![up]
    }
}

/// What one directive becomes: `None` when it is empty or stripped.
pub open spec fn directive_out(p: Seq<char>, up: Seq<char>, d: Seq<char>) -> Option<Seq<char>> {
    let parts = tokens_of(d);
    if parts.len() == 0 {
        None
    } else {
        let name = lower_seq(parts[0]);
        if is_strip_name(name) {
            None
        } else if is_source_list_name(name) {
            Some(name + " "@ + join_with(source_list_out(p, up, parts.skip(1)), " "@))
        } else {
            Some(join_with(parts, " "@))
        }
    }
}

/// The surviving directives of a policy, in their original order.
pub open spec fn directives_out(p: Seq<char>, up: Seq<char>, ds: Seq<Seq<char>>) -> Seq<Seq<char>>
    decreases ds.len(),
{
    if ds.len() == 0 {
        Seq::<Seq<char>>::empty()
    } else {
        (match directive_out(p, up, ds[0]) {
            Some(d) => seq![d],
            None => Seq::<Seq<char>>::empty(),
        }) + directives_out(p, up, ds.skip(1))
    }
}

/// What `rewrite_csp` returns.
pub open spec fn spec_rewrite_csp(p: Seq<char>, up: Seq<char>, c: Seq<char>) -> Seq<char> {
    join_with(directives_out(p, up, split_char(c, ';')), "; "@)
}

/// A `'nonce-…'` token.
pub open spec fn nonce_token(t: Seq<char>) -> bool {
    has_prefix(t, "'nonce-"@) && t.len() >= 8 && t[t.len() - 1] == '\''
}

/// The nonce value inside a `'nonce-…'` token.
pub open spec fn nonce_of(t: Seq<char>) -> Seq<char> {
    t.subrange(7, t.len() - 1)
}

/// The first nonce among a directive's tokens.
pub open spec fn first_nonce_in_tokens(ts: Seq<Seq<char>>) -> Option<Seq<char>>
    decreases ts.len(),
{
    if ts.len() == 0 {
        None::<Seq<char>>
    } else if nonce_token(ts[0]) {
        Some(nonce_of(ts[0]))
    } else {
        first_nonce_in_tokens(ts.skip(1))
    }
}

/// The first nonce in a policy, directive by directive.
pub open spec fn first_nonce_in_dirs(ds: Seq<Seq<char>>) -> Option<Seq<char>>
    decreases ds.len(),
{
    if ds.len() == 0 {
        None::<Seq<char>>
    } else {
        match first_nonce_in_tokens(tokens_of(ds[0])) {
            Some(n) => Some(n),
            None => first_nonce_in_dirs(ds.skip(1)),
        }
    }
}

/// What `extract_nonce` returns.
pub open spec fn spec_extract_nonce(c: Seq<char>) -> Option<Seq<char>> {
    first_nonce_in_dirs(split_char(c, ';'))
}

/// Whether `n` names a source-list directive.
fn is_source_list_name_exec(n: &Vec<char>) -> (r: bool)
    ensures
        r == is_source_list_name(n@),
{
    eq_lit(n, "default-src") || eq_lit(n, "script-src") || eq_lit(n, "style-src") || eq_lit(
        n,
        "img-src",
    ) || eq_lit(n, "connect-src") || eq_lit(n, "frame-src") || eq_lit(n, "worker-src") || eq_lit(
        n,
        "child-src",
    ) || eq_lit(n, "manifest-src") || eq_lit(n, "media-src") || eq_lit(n, "font-src") || eq_lit(
        n,
        "object-src",
    ) || eq_lit(n, "base-uri") || eq_lit(n, "form-action")
}

/// Whether `n` names a stripped directive.
fn is_strip_name_exec(n: &Vec<char>) -> (r: bool)
    ensures
        r == is_strip_name(n@),
{
    eq_lit(n, "upgrade-insecure-requests") || eq_lit(n, "block-all-mixed-content")
}

/// Whether two character vectors hold the same characters.
fn eq_vec(a: &Vec<char>, b: &Vec<char>) -> (r: bool)
    ensures
        r == (a@ == b@),
{
    let n = a.len();
    if n != b.len() {
        return false;
    }
    let mut i: usize = 0;
    while i < n
        invariant
            n == a@.len() == b@.len(),
            i <= n,
            forall|k: int| 0 <= k < i ==> a@[k] == b@[k],
        decreases n - i,
    {
        if a[i] != b[i] {
            return false;
        }
        i += 1;
    }
    assert(a@ =~= b@);
    true
}

/// A copy of `v`.
fn copy_vec(v: &Vec<char>) -> (r: Vec<char>)
    ensures
        r@ == v@,
{
    let r = subrange_vec(v, 0, v.len());
    assert(r@ =~= v@);
    r
}

/// The rewritten form(s) of one source-list token.
fn source_token_out_exec(p: &Vec<char>, t: &Vec<char>) -> (r: Vec<Vec<char>>)
    ensures
        views_of(r@) == source_token_out(p@, t@),
{
    let mut r: Vec<Vec<char>> = Vec::new();
    if eq_lit(t, "*") || eq_lit(t, "'none'") {
        r.push(copy_vec(t));
        assert(views_of(r@) =~= seq![t@]);
        return r;
    }
    let n = t.len();
    if n > 0 && t[0] == '\'' && t[n - 1] == '\'' {
        r.push(copy_vec(t));
        assert(views_of(r@) =~= seq![t@]);
        return r;
    }
    let has_slash = match crate::chars::find_char_from(t, 0, '/') {
        Some(_) => true,
        None => false,
    };
    proof {
        assert(t@.skip(0) =~= t@);
    }
    if n > 0 && t[n - 1] == ':' && !has_slash {
        r.push(copy_vec(t));
        assert(views_of(r@) =~= seq![t@]);
        return r;
    }
    match encode_chars(p, t) {
        Some(e) => {
            r.push(e);
            r.push(copy_vec(t));
            assert(views_of(r@) =~= source_token_out(p@, t@));
        },
        None => {
            r.push(copy_vec(t));
            r.push(copy_vec(t));
            assert(views_of(r@) =~= source_token_out(p@, t@));
        },
    }
    r
}

/// The rewritten tokens of the source list `parts[from..]`.
fn rewrite_tokens_from(p: &Vec<char>, parts: &Vec<Vec<char>>, from: usize) -> (r: Vec<Vec<char>>)
    requires
        from <= parts@.len(),
    ensures
        views_of(r@) == rewrite_source_tokens(p@, views_of(parts@).skip(from as int)),
    decreases parts@.len() - from,
{
    let ghost vals = views_of(parts@).skip(from as int);
    let n = parts.len();
    if from == n {
        let r: Vec<Vec<char>> = Vec::new();
        assert(vals =~= Seq::<Seq<char>>::empty());
        assert(views_of(r@) =~= rewrite_source_tokens(p@, vals));
        r
    } else {
        let mut r = source_token_out_exec(p, &parts[from]);
        let mut rest = rewrite_tokens_from(p, parts, from + 1);
        proof {
            assert(vals[0] == parts@[from as int]@);
            assert(vals.skip(1) =~= views_of(parts@).skip(from + 1 as int));
        }
        r.append(&mut rest);
        assert(views_of(r@) =~= source_token_out(p@, vals[0]) + rewrite_source_tokens(
            p@,
            vals.skip(1),
        ));
        r
    }
}

/// Whether some element of `toks` equals `up`.
fn contains_vec(toks: &Vec<Vec<char>>, up: &Vec<char>) -> (r: bool)
    ensures
        r == views_of(toks@).contains(up@),
{
    let n = toks.len();
    let mut i: usize = 0;
    while i < n
        invariant
            n == toks@.len(),
            i <= n,
            forall|k: int| 0 <= k < i ==> views_of(toks@)[k] != up@,
        decreases n - i,
    {
        if eq_vec(&toks[i], up) {
            assert(views_of(toks@)[i as int] == up@);
            return true;
        }
        i += 1;
    }
    assert(!views_of(toks@).contains(up@));
    false
}

/// The full token list of a rewritten source list.
fn source_list_out_exec(p: &Vec<char>, up: &Vec<char>, parts: &Vec<Vec<char>>, from: usize) -> (r:
    Vec<Vec<char>>)
    requires
        from <= parts@.len(),
    ensures
        views_of(r@) == source_list_out(p@, up@, views_of(parts@).skip(from as int)),
{
    let mut toks = rewrite_tokens_from(p, parts, from);
    toks.push(copy_vec(p));
    let ghost vals = views_of(parts@).skip(from as int);
    assert(views_of(toks@) =~= rewrite_source_tokens(p@, vals) + seq![p@]);
    if contains_vec(&toks, up) {
        toks
    } else {
        toks.push(copy_vec(up));
        assert(views_of(toks@) =~= (rewrite_source_tokens(p@, vals) + seq![p@]) + seq![up@]);
        toks
    }
}

/// What one directive becomes, or `None` when it is dropped.
fn directive_out_exec(p: &Vec<char>, up: &Vec<char>, d: &Vec<char>) -> (r: Option<Vec<char>>)
    ensures
        opt_chars_view(r) == directive_out(p@, up@, d@),
{
    let parts = tokens_vec(d);
    if parts.len() == 0 {
        return None;
    }
    assert(views_of(parts@)[0] == parts@[0]@);
    let name = to_lower_vec(&parts[0]);
    if is_strip_name_exec(&name) {
        return None;
    }
    if is_source_list_name_exec(&name) {
        let toks = source_list_out_exec(p, up, &parts, 1);
        let mut out = copy_vec(&name);
        out.push(' ');
        let joined = join_vec(&toks, " ");
        crate::chars::push_all(&mut out, &joined);
        proof {
            let ghost nm = lower_seq(parts@[0]@);
            assert(out@ =~= nm + " "@ + join_with(
                source_list_out(p@, up@, views_of(parts@).skip(1)),
                " "@,
            )) by {
                reveal_strlit(" ");
                assert(nm + " "@ + join_with(
                    source_list_out(p@, up@, views_of(parts@).skip(1)),
                    " "@,
                ) =~= (nm + " "@) + join_with(
                    source_list_out(p@, up@, views_of(parts@).skip(1)),
                    " "@,
                ));
                assert((nm + " "@).len() == nm.len() + 1);
                assert((nm + " "@)[nm.len() as int] == ' ');
            }
        }
        Some(out)
    } else {
        Some(join_vec(&parts, " "))
    }
}

/// The surviving directives of the policy `ds[from..]`.
fn directives_out_from(p: &Vec<char>, up: &Vec<char>, ds: &Vec<Vec<char>>, from: usize) -> (r: Vec<
    Vec<char>,
>)
    requires
        from <= ds@.len(),
    ensures
        views_of(r@) == directives_out(p@, up@, views_of(ds@).skip(from as int)),
    decreases ds@.len() - from,
{
    let ghost dd = views_of(ds@).skip(from as int);
    let n = ds.len();
    if from == n {
        let r: Vec<Vec<char>> = Vec::new();
        assert(dd =~= Seq::<Seq<char>>::empty());
        assert(views_of(r@) =~= directives_out(p@, up@, dd));
        r
    } else {
        proof {
            assert(dd[0] == ds@[from as int]@);
            assert(dd.skip(1) =~= views_of(ds@).skip(from + 1 as int));
        }
        let head = directive_out_exec(p, up, &ds[from]);
        let mut rest = directives_out_from(p, up, ds, from + 1);
        match head {
            Some(h) => {
                rest.insert(0, h);
                assert(views_of(rest@) =~= seq![directive_out(p@, up@, dd[0])->Some_0]
                    + directives_out(p@, up@, dd.skip(1)));
                rest
            },
            None => {
                assert(views_of(rest@) =~= Seq::<Seq<char>>::empty() + directives_out(
                    p@,
                    up@,
                    dd.skip(1),
                ));
                rest
            },
        }
    }
}

/// Rewrite a full Content-Security-Policy header value so the proxied
/// page keeps working: mix-breaking directives are dropped, every
/// source-list directive keeps its original tokens and additionally
/// admits the proxy origin and the upstream origin, and all other
/// directives pass through unchanged.
pub fn rewrite_csp(proxy_origin: &str, upstream_origin: &str, csp: &str) -> (r: String)
    ensures
        r@ == spec_rewrite_csp(proxy_origin@, upstream_origin@, csp@),
{
    let p = chars_of(proxy_origin);
    let up = chars_of(upstream_origin);
    let c = chars_of(csp);
    let dirs = split_char_vec(&c, ';');
    let outs = directives_out_from(&p, &up, &dirs, 0);
    assert(views_of(dirs@).skip(0) =~= views_of(dirs@));
    let joined = join_vec(&outs, "; ");
    string_of(&joined)
}

/// The first nonce among the tokens `parts[from..]`.
fn first_nonce_tokens_from(parts: &Vec<Vec<char>>, from: usize) -> (r: Option<Vec<char>>)
    requires
        from <= parts@.len(),
    ensures
        opt_chars_view(r) == first_nonce_in_tokens(views_of(parts@).skip(from as int)),
    decreases parts@.len() - from,
{
    let ghost ts = views_of(parts@).skip(from as int);
    let n = parts.len();
    if from == n {
        assert(ts =~= Seq::<Seq<char>>::empty());
        return None;
    }
    assert(ts[0] == parts@[from as int]@);
    let t = &parts[from];
    let tn = t.len();
    if crate::chars::starts_with_at(t, 0, "'nonce-") && tn >= 8 && t[tn - 1] == '\'' {
        let nv = subrange_vec(t, 7, tn - 1);
        assert(nv@ =~= nonce_of(t@));
        Some(nv)
    } else {
        proof {
            reveal_strlit("'nonce-");
            assert(ts.skip(1) =~= views_of(parts@).skip(from + 1 as int));
            if has_prefix(t@, "'nonce-"@) && !(tn >= 8 && t@[tn - 1] == '\'') {
                assert(!nonce_token(ts[0]));
            }
        }
        first_nonce_tokens_from(parts, from + 1)
    }
}

/// The first nonce in the directives `ds[from..]`.
fn first_nonce_dirs_from(ds: &Vec<Vec<char>>, from: usize) -> (r: Option<Vec<char>>)
    requires
        from <= ds@.len(),
    ensures
        opt_chars_view(r) == first_nonce_in_dirs(views_of(ds@).skip(from as int)),
    decreases ds@.len() - from,
{
    let ghost dd = views_of(ds@).skip(from as int);
    let n = ds.len();
    if from == n {
        assert(dd =~= Seq::<Seq<char>>::empty());
        return None;
    }
    proof {
        assert(dd[0] == ds@[from as int]@);
        assert(dd.skip(1) =~= views_of(ds@).skip(from + 1 as int));
    }
    let parts = tokens_vec(&ds[from]);
    match first_nonce_tokens_from(&parts, 0) {
        Some(nv) => {
            assert(views_of(parts@).skip(0) =~= views_of(parts@));
            Some(nv)
        },
        None => {
            assert(views_of(parts@).skip(0) =~= views_of(parts@));
            first_nonce_dirs_from(ds, from + 1)
        },
    }
}

/// Find the first `'nonce-…'` token in the policy and return the nonce
/// value, without its quoting.
pub fn extract_nonce(csp: &str) -> (r: Option<String>)
    ensures
        crate::urlcodec::opt_str_view(r) == spec_extract_nonce(csp@),
{
    let c = chars_of(csp);
    let dirs = split_char_vec(&c, ';');
    assert(views_of(dirs@).skip(0) =~= views_of(dirs@));
    match first_nonce_dirs_from(&dirs, 0) {
        Some(nv) => Some(string_of(&nv)),
        None => None,
    }
}

/// A sequence free of whitespace characters.
pub open spec fn no_space_seq(s: Seq<char>) -> bool {
    forall|i: int| 0 <= i < s.len() ==> !is_space(s[i])
}

/// A well-formed token: nonempty and free of whitespace.
pub open spec fn wf_token(t: Seq<char>) -> bool {
    t.len() > 0 && no_space_seq(t)
}

/// All pieces of `ts` are well-formed tokens.
pub open spec fn wf_tokens(ts: Seq<Seq<char>>) -> bool {
    forall|k: int| 0 <= k < ts.len() ==> wf_token(#[trigger] ts[k])
}

proof fn lemma_contains_concat(a: Seq<Seq<char>>, b: Seq<Seq<char>>, x: Seq<char>)
    requires
        a.contains(x) || b.contains(x),
    ensures
        (a + b).contains(x),
{
    if a.contains(x) {
        let i = choose|i: int| 0 <= i < a.len() && a[i] == x;
        assert((a + b)[i] == x);
    } else {
        let i = choose|i: int| 0 <= i < b.len() && b[i] == x;
        assert((a + b)[a.len() + i] == x);
    }
}

/// Whatever a source-list token becomes, the original token is among it.
proof fn lemma_source_token_keeps(p: Seq<char>, t: Seq<char>)
    ensures
        source_token_out(p, t).contains(t),
{
    let o = source_token_out(p, t);
    if t == "*"@ || t == "'none'"@ || is_quoted_token(t) || is_scheme_token(t) {
        assert(o[0] == t);
    } else {
        assert(o[1] == t);
    }
}

/// Every original token of a source list survives the rewrite.
proof fn lemma_rewrite_tokens_keep(p: Seq<char>, vals: Seq<Seq<char>>, k: int)
    requires
        0 <= k < vals.len(),
    ensures
        rewrite_source_tokens(p, vals).contains(vals[k]),
    decreases vals.len(),
{
    if k == 0 {
        lemma_source_token_keeps(p, vals[0]);
        lemma_contains_concat(
            source_token_out(p, vals[0]),
            rewrite_source_tokens(p, vals.skip(1)),
            vals[0],
        );
    } else {
        lemma_rewrite_tokens_keep(p, vals.skip(1), k - 1);
        assert(vals.skip(1)[k - 1] == vals[k]);
        lemma_contains_concat(
            source_token_out(p, vals[0]),
            rewrite_source_tokens(p, vals.skip(1)),
            vals[k],
        );
    }
}

/// The rewritten source list admits the proxy origin and keeps every
/// original token.
proof fn lemma_source_list_keeps(p: Seq<char>, up: Seq<char>, vals: Seq<Seq<char>>)
    ensures
        source_list_out(p, up, vals).contains(p),
        forall|k: int|
            0 <= k < vals.len() ==> source_list_out(p, up, vals).contains(#[trigger] vals[k]),
{
    let toks = rewrite_source_tokens(p, vals) + seq![p];
    assert(toks[toks.len() - 1] == p);
    assert(toks.contains(p));
    assert(forall|k: int| 0 <= k < vals.len() ==> toks.contains(#[trigger] vals[k])) by {
        assert forall|k: int| 0 <= k < vals.len() implies toks.contains(#[trigger] vals[k]) by {
            lemma_rewrite_tokens_keep(p, vals, k);
            lemma_contains_concat(rewrite_source_tokens(p, vals), seq![p], vals[k]);
        }
    }
    if !toks.contains(up) {
        assert forall|x: Seq<char>| toks.contains(x) implies (toks + seq![up]).contains(x) by {
            lemma_contains_concat(toks, seq![up], x);
        }
    }
}

/// No whitespace sits before the end of the leading token run.
proof fn lemma_token_run_nonspace(s: Seq<char>, j: int)
    requires
        0 <= j < token_end(s),
    ensures
        !is_space(s[j]),
    decreases s.len(),
{
    crate::chars::lemma_token_end(s);
    if j > 0 {
        assert(s.skip(1)[j - 1] == s[j]);
        lemma_token_run_nonspace(s.skip(1), j - 1);
    }
}

/// Every token that `tokens_of` produces is nonempty and whitespace-free.
proof fn lemma_tokens_of_wf(s: Seq<char>)
    ensures
        wf_tokens(tokens_of(s)),
    decreases s.len(),
{
    crate::chars::lemma_token_end(s);
    if s.len() == 0 {
    } else if is_space(s[0]) {
        lemma_tokens_of_wf(s.skip(1));
    } else {
        let te = token_end(s);
        let head = s.take(te);
        assert(wf_token(head)) by {
            assert(head.len() == te >= 1);
            assert forall|j: int| 0 <= j < head.len() implies !is_space(head[j]) by {
                assert(head[j] == s[j]);
                lemma_token_run_nonspace(s, j);
            }
        }
        lemma_tokens_of_wf(s.skip(te));
        let rest = tokens_of(s.skip(te));
        assert forall|k: int| 0 <= k < tokens_of(s).len() implies wf_token(
            #[trigger] tokens_of(s)[k],
        ) by {
            if k == 0 {
                assert(tokens_of(s)[0] == head);
            } else {
                assert(tokens_of(s)[k] == rest[k - 1]);
            }
        }
    }
}

/// Percent-encoded output never holds whitespace: every whitespace
/// character is in the encode set and comes out as an escape.
proof fn lemma_pct_encode_nonspace(s: Seq<char>)
    ensures
        no_space_seq(crate::pct::pct_encode(s)),
    decreases s.len(),
{
    if s.len() > 0 {
        lemma_pct_encode_nonspace(s.skip(1));
        let e = crate::pct::enc_char(s[0]);
        assert(no_space_seq(e)) by {
            if crate::pct::in_encode_set(s[0]) {
                assert(!is_space(crate::pct::hex_char(s[0] as u32 as int / 16)));
                assert(!is_space(crate::pct::hex_char(s[0] as u32 as int % 16)));
            } else {
                assert(!is_space(s[0]));
            }
        }
        assert forall|i: int| 0 <= i < crate::pct::pct_encode(s).len() implies !is_space(
            crate::pct::pct_encode(s)[i],
        ) by {
            if i < e.len() {
                assert(crate::pct::pct_encode(s)[i] == e[i]);
            } else {
                assert(crate::pct::pct_encode(s)[i] == crate::pct::pct_encode(s.skip(1))[i
                    - e.len()]);
            }
        }
    }
}

/// Stripping trailing slashes keeps a prefix of the original.
proof fn lemma_strip_slashes_chars(p: Seq<char>)
    ensures
        crate::urlcodec::strip_end_slashes(p).len() <= p.len(),
        forall|i: int|
            0 <= i < crate::urlcodec::strip_end_slashes(p).len()
                ==> crate::urlcodec::strip_end_slashes(p)[i] == p[i],
    decreases p.len(),
{
    if p.len() > 0 && p[p.len() - 1] == '/' {
        lemma_strip_slashes_chars(p.take(p.len() - 1));
        assert(forall|i: int|
            0 <= i < p.take(p.len() - 1).len() ==> p.take(p.len() - 1)[i] == p[i]);
    }
}

/// Trimming a whitespace-free sequence changes nothing.
proof fn lemma_trim_id_nonspace(s: Seq<char>)
    requires
        no_space_seq(s),
    ensures
        crate::chars::trim_seq(s) == s,
{
    if s.len() > 0 {
        assert(crate::chars::trim_start_seq(s) == s);
        assert(crate::chars::trim_end_seq(s) == s);
    } else {
        assert(crate::chars::trim_start_seq(s) == s);
        assert(crate::chars::trim_end_seq(s) == s);
    }
}

/// What the codec hands back for a well-formed token is itself a
/// well-formed token, provided the proxy origin is whitespace-free.
proof fn lemma_spec_encode_wf(p: Seq<char>, t: Seq<char>)
    requires
        no_space_seq(p),
        p.len() > 0,
        wf_token(t),
    ensures
        match spec_encode(p, t) {
            Some(e) => wf_token(e),
            None => true,
        },
    decreases t.len(),
{
    reveal_strlit("blob:");
    reveal_strlit("https:");
    reveal_strlit("/proxy?url=");
    lemma_trim_id_nonspace(t);
    let tt = crate::chars::trim_seq(t);
    assert(tt == t);
    if crate::urlcodec::is_unproxiable(tt) {
    } else if crate::chars::has_prefix_lower(tt, "file:"@) {
    } else if crate::chars::has_prefix_lower(tt, "javascript:"@) {
    } else if crate::chars::has_prefix_lower(tt, "data:"@) {
    } else if crate::chars::has_prefix_lower(tt, "blob:"@) {
        let inner = t.skip(5);
        assert(crate::chars::lower_seq(t).len() == t.len());
        if inner.len() > 0 {
            assert(wf_token(inner)) by {
                assert(forall|i: int| 0 <= i < inner.len() ==> inner[i] == t[i + 5]);
            }
            lemma_spec_encode_wf(p, inner);
        } else {
            assert(crate::chars::trim_seq(inner) =~= Seq::<char>::empty());
            lemma_trim_id_nonspace(inner);
        }
        match spec_encode(p, inner) {
            Some(e) => {
                let o = "blob:"@ + e;
                assert(wf_token(o)) by {
                    assert(forall|i: int| 0 <= i < 5 ==> o[i] == "blob:"@[i]);
                    assert(forall|i: int| 5 <= i < o.len() ==> o[i] == e[i - 5]);
                }
            },
            None => {},
        }
    } else {
        let absolute = if crate::chars::has_prefix(tt, "//"@) {
            "https:"@ + tt
        } else {
            tt
        };
        let o = crate::urlcodec::proxy_prefix(p) + crate::pct::pct_encode(absolute);
        assert(wf_token(o)) by {
            lemma_strip_slashes_chars(p);
            lemma_pct_encode_nonspace(absolute);
            let pp = crate::urlcodec::proxy_prefix(p);
            let sl = crate::urlcodec::strip_end_slashes(p);
            assert(no_space_seq(pp)) by {
                assert(forall|i: int| 0 <= i < sl.len() ==> pp[i] == sl[i]);
                assert(forall|i: int|
                    sl.len() <= i < pp.len() ==> pp[i] == "/proxy?url="@[i - sl.len()]);
                assert(forall|i: int| 0 <= i < 11 ==> !is_space("/proxy?url="@[i]));
                assert forall|i: int| 0 <= i < pp.len() implies !is_space(pp[i]) by {
                    if i < sl.len() {
                        assert(pp[i] == sl[i]);
                        assert(sl[i] == p[i]);
                    } else {
                        assert(pp[i] == "/proxy?url="@[i - sl.len()]);
                    }
                }
            }
            assert(pp.len() >= 11);
            assert(forall|i: int| 0 <= i < pp.len() ==> o[i] == pp[i]);
            assert(forall|i: int|
                pp.len() <= i < o.len() ==> o[i] == crate::pct::pct_encode(absolute)[i - pp.len()]);
        }
    }
}

/// Every token that a source-list rewrite emits is well-formed, given
/// well-formed inputs and whitespace-free origins.
proof fn lemma_source_list_wf(p: Seq<char>, up: Seq<char>, vals: Seq<Seq<char>>)
    requires
        no_space_seq(p),
        p.len() > 0,
        wf_token(up),
        wf_tokens(vals),
    ensures
        wf_tokens(source_list_out(p, up, vals)),
{
    lemma_rewrite_tokens_wf(p, vals);
    let rst = rewrite_source_tokens(p, vals);
    let toks = rst + seq![p];
    assert(wf_tokens(toks)) by {
        assert(forall|k: int| 0 <= k < rst.len() ==> toks[k] == rst[k]);
        assert(toks[rst.len() as int] == p);
    }
    if !toks.contains(up) {
        let o = toks + seq![up];
        assert(wf_tokens(o)) by {
            assert(forall|k: int| 0 <= k < toks.len() ==> o[k] == toks[k]);
            assert(o[toks.len() as int] == up);
        }
    }
}

proof fn lemma_rewrite_tokens_wf(p: Seq<char>, vals: Seq<Seq<char>>)
    requires
        no_space_seq(p),
        p.len() > 0,
        wf_tokens(vals),
    ensures
        wf_tokens(rewrite_source_tokens(p, vals)),
    decreases vals.len(),
{
    if vals.len() > 0 {
        assert(wf_token(vals[0]));
        let head = source_token_out(p, vals[0]);
        assert(wf_tokens(head)) by {
            lemma_spec_encode_wf(p, vals[0]);
        }
        assert(wf_tokens(vals.skip(1))) by {
            assert(forall|k: int| 0 <= k < vals.skip(1).len() ==> vals.skip(1)[k] == vals[k + 1]);
        }
        lemma_rewrite_tokens_wf(p, vals.skip(1));
        let rest = rewrite_source_tokens(p, vals.skip(1));
        assert forall|k: int| 0 <= k < rewrite_source_tokens(p, vals).len() implies wf_token(
            #[trigger] rewrite_source_tokens(p, vals)[k],
        ) by {
            if k < head.len() {
                assert(rewrite_source_tokens(p, vals)[k] == head[k]);
            } else {
                assert(rewrite_source_tokens(p, vals)[k] == rest[k - head.len()]);
            }
        }
    }
}

/// A whitespace-free run followed by whitespace (or nothing) is the
/// whole leading token.
proof fn lemma_token_end_concat(a: Seq<char>, b: Seq<char>)
    requires
        no_space_seq(a),
        b.len() == 0 || is_space(b[0]),
    ensures
        token_end(a + b) == a.len(),
    decreases a.len(),
{
    if a.len() == 0 {
        assert(a + b =~= b);
    } else {
        assert((a + b)[0] == a[0]);
        assert((a + b).skip(1) =~= a.skip(1) + b);
        assert(no_space_seq(a.skip(1))) by {
            assert(forall|i: int| 0 <= i < a.skip(1).len() ==> a.skip(1)[i] == a[i + 1]);
        }
        lemma_token_end_concat(a.skip(1), b);
    }
}

/// Tokenizing a space-joined list of well-formed tokens yields the list
/// again.
proof fn lemma_tokens_of_join(ts: Seq<Seq<char>>)
    requires
        wf_tokens(ts),
    ensures
        tokens_of(join_with(ts, " "@)) == ts,
    decreases ts.len(),
{
    reveal_strlit(" ");
    if ts.len() == 0 {
        assert(tokens_of(join_with(ts, " "@)) =~= ts);
    } else if ts.len() == 1 {
        let t = ts[0];
        assert(wf_token(t));
        let j = join_with(ts, " "@);
        assert(j == t);
        assert(t + Seq::<char>::empty() =~= t);
        lemma_token_end_concat(t, Seq::<char>::empty());
        assert(token_end(t) == t.len());
        assert(!is_space(t[0]));
        assert(t.take(t.len() as int) =~= t);
        assert(t.skip(t.len() as int) =~= Seq::<char>::empty());
        assert(tokens_of(Seq::<char>::empty()) =~= Seq::<Seq<char>>::empty());
        assert(tokens_of(j) == seq![t.take(token_end(t))] + tokens_of(t.skip(token_end(t))));
        assert(tokens_of(j) =~= ts);
    } else {
        let t = ts[0];
        assert(wf_token(t));
        let rest = join_with(ts.skip(1), " "@);
        let j = join_with(ts, " "@);
        assert(j == t + " "@ + rest);
        let tail = " "@ + rest;
        assert(j =~= t + tail);
        assert(tail[0] == ' ');
        lemma_token_end_concat(t, tail);
        assert(token_end(j) == t.len());
        assert(j[0] == t[0]);
        assert(!is_space(j[0]));
        assert(j.take(t.len() as int) =~= t);
        assert(j.skip(t.len() as int) =~= tail);
        assert(tail.skip(1) =~= rest);
        assert(wf_tokens(ts.skip(1))) by {
            assert(forall|k: int| 0 <= k < ts.skip(1).len() ==> ts.skip(1)[k] == ts[k + 1]);
        }
        lemma_tokens_of_join(ts.skip(1));
        assert(tokens_of(tail) == tokens_of(rest));
        assert(tokens_of(j) == seq![t] + ts.skip(1));
        assert(seq![t] + ts.skip(1) =~= ts);
    }
}

/// Lower-casing keeps a token well-formed.
proof fn lemma_lower_wf(t: Seq<char>)
    requires
        wf_token(t),
    ensures
        wf_token(lower_seq(t)),
{
    assert forall|i: int| 0 <= i < lower_seq(t).len() implies !is_space(lower_seq(t)[i]) by {
        assert(lower_seq(t)[i] == lower_char(t[i]));
        assert(!is_space(t[i]));
    }
}

/// Lower-casing is idempotent.
proof fn lemma_lower_idem(t: Seq<char>)
    ensures
        lower_seq(lower_seq(t)) == lower_seq(t),
{
    assert(lower_seq(lower_seq(t)) =~= lower_seq(t)) by {
        assert(forall|i: int|
            0 <= i < t.len() ==> lower_seq(lower_seq(t))[i] == lower_char(lower_char(t[i])));
    }
}

/// A source-list directive name is none of the stripped names and does
/// not start with a quote.
proof fn lemma_source_name_facts(n: Seq<char>)
    requires
        is_source_list_name(n),
    ensures
        !is_strip_name(n),
        n.len() > 0 && n[0] != '\'',
{
    reveal_strlit("default-src");
    reveal_strlit("script-src");
    reveal_strlit("style-src");
    reveal_strlit("img-src");
    reveal_strlit("connect-src");
    reveal_strlit("frame-src");
    reveal_strlit("worker-src");
    reveal_strlit("child-src");
    reveal_strlit("manifest-src");
    reveal_strlit("media-src");
    reveal_strlit("font-src");
    reveal_strlit("object-src");
    reveal_strlit("base-uri");
    reveal_strlit("form-action");
    reveal_strlit("upgrade-insecure-requests");
    reveal_strlit("block-all-mixed-content");
}

/// The tokens of a surviving directive's output.  A stripped or empty
/// directive has no output; a source-list directive comes out as its
/// lower-cased name followed by the extended source list; anything else
/// keeps its tokens as they were.
pub proof fn lemma_directive_out_tokens(p: Seq<char>, up: Seq<char>, d: Seq<char>)
    requires
        no_space_seq(p),
        p.len() > 0,
        wf_token(up),
    ensures
        ({
            let parts = tokens_of(d);
            match directive_out(p, up, d) {
                Some(o) => parts.len() > 0 && !is_strip_name(lower_seq(parts[0])) && tokens_of(o)
                    == (if is_source_list_name(lower_seq(parts[0])) {
                    seq![lower_seq(parts[0])] + source_list_out(p, up, parts.skip(1))
                } else {
                    parts
                }),
                None => parts.len() == 0 || is_strip_name(lower_seq(parts[0])),
            }
        }),
{
    let parts = tokens_of(d);
    lemma_tokens_of_wf(d);
    if parts.len() > 0 {
        let name = lower_seq(parts[0]);
        if is_strip_name(name) {
        } else if is_source_list_name(name) {
            let vals = parts.skip(1);
            assert(wf_tokens(vals)) by {
                assert(forall|k: int| 0 <= k < vals.len() ==> vals[k] == parts[k + 1]);
            }
            lemma_source_list_wf(p, up, vals);
            lemma_lower_wf(parts[0]);
            let toks = source_list_out(p, up, vals);
            let all = seq![name] + toks;
            assert(wf_tokens(all)) by {
                assert(all[0] == name);
                assert(forall|k: int| 1 <= k < all.len() ==> all[k] == toks[k - 1]);
            }
            lemma_tokens_of_join(all);
            let o = name + " "@ + join_with(toks, " "@);
            assert(join_with(all, " "@) == o) by {
                reveal_strlit(" ");
                if toks.len() == 0 {
                } else {
                    assert(all[0] == name);
                    assert(all.skip(1) =~= toks);
                }
            }
        } else {
            lemma_tokens_of_join(parts);
        }
    }
}

/// Rewriting a policy drops exactly the mix-breaking directives: every
/// directive that survives into the output still has a first token, and
/// its lower-cased name is neither `upgrade-insecure-requests` nor
/// `block-all-mixed-content`.
pub proof fn lemma_csp_strips_mix_breakers(p: Seq<char>, up: Seq<char>, c: Seq<char>)
    requires
        no_space_seq(p),
        p.len() > 0,
        wf_token(up),
    ensures
        ({
            let outs = directives_out(p, up, split_char(c, ';'));
            forall|j: int|
                0 <= j < outs.len() ==> tokens_of(#[trigger] outs[j]).len() > 0 && !is_strip_name(
                    lower_seq(tokens_of(outs[j])[0]),
                )
        }),
{
    lemma_dirs_out_all(p, up, split_char(c, ';'));
}

proof fn lemma_dirs_out_all(p: Seq<char>, up: Seq<char>, ds: Seq<Seq<char>>)
    requires
        no_space_seq(p),
        p.len() > 0,
        wf_token(up),
    ensures
        ({
            let outs = directives_out(p, up, ds);
            forall|j: int|
                0 <= j < outs.len() ==> tokens_of(#[trigger] outs[j]).len() > 0 && !is_strip_name(
                    lower_seq(tokens_of(outs[j])[0]),
                )
        }),
    decreases ds.len(),
{
    if ds.len() > 0 {
        lemma_dirs_out_all(p, up, ds.skip(1));
        let outs = directives_out(p, up, ds);
        let rest = directives_out(p, up, ds.skip(1));
        lemma_directive_out_tokens(p, up, ds[0]);
        assert forall|j: int| 0 <= j < outs.len() implies tokens_of(#[trigger] outs[j]).len() > 0
            && !is_strip_name(lower_seq(tokens_of(outs[j])[0])) by {
            match directive_out(p, up, ds[0]) {
                Some(o) => {
                    if j == 0 {
                        assert(outs[0] == o);
                        let parts = tokens_of(ds[0]);
                        let name = lower_seq(parts[0]);
                        if is_source_list_name(name) {
                            lemma_source_name_facts(name);
                            lemma_lower_idem(parts[0]);
                            assert(tokens_of(o)[0] == name);
                        } else {
                            assert(tokens_of(o)[0] == parts[0]);
                        }
                    } else {
                        assert(outs[j] == rest[j - 1]);
                    }
                },
                None => {
                    assert(outs =~= Seq::<Seq<char>>::empty() + rest);
                    assert(outs[j] == rest[j]);
                },
            }
        }
    }
}

/// Every source-list directive of the input yields an output directive,
/// present in the rewritten policy, whose tokens include the proxy
/// origin: the proxy's own resources are admitted by every source list
/// that appeared.
pub proof fn lemma_csp_admits_proxy(p: Seq<char>, up: Seq<char>, c: Seq<char>, i: int)
    requires
        no_space_seq(p),
        p.len() > 0,
        wf_token(up),
        0 <= i < split_char(c, ';').len(),
        tokens_of(split_char(c, ';')[i]).len() > 0,
        is_source_list_name(lower_seq(tokens_of(split_char(c, ';')[i])[0])),
    ensures
        ({
            let d = split_char(c, ';')[i];
            directive_out(p, up, d) is Some && directives_out(p, up, split_char(c, ';')).contains(
                directive_out(p, up, d)->Some_0,
            ) && tokens_of(directive_out(p, up, d)->Some_0).contains(p)
        }),
{
    let ds = split_char(c, ';');
    let d = ds[i];
    let parts = tokens_of(d);
    let name = lower_seq(parts[0]);
    lemma_source_name_facts(name);
    lemma_directive_out_tokens(p, up, d);
    let o = directive_out(p, up, d)->Some_0;
    lemma_source_list_keeps(p, up, parts.skip(1));
    assert(tokens_of(o).contains(p)) by {
        let toks = source_list_out(p, up, parts.skip(1));
        let kk = choose|kk: int| 0 <= kk < toks.len() && toks[kk] == p;
        assert(tokens_of(o)[kk + 1] == p);
    }
    lemma_dirs_out_member(p, up, ds, i);
}

proof fn lemma_dirs_out_member(p: Seq<char>, up: Seq<char>, ds: Seq<Seq<char>>, i: int)
    requires
        0 <= i < ds.len(),
        directive_out(p, up, ds[i]) is Some,
    ensures
        directives_out(p, up, ds).contains(directive_out(p, up, ds[i])->Some_0),
    decreases ds.len(),
{
    let outs = directives_out(p, up, ds);
    if i == 0 {
        assert(outs[0] == directive_out(p, up, ds[0])->Some_0);
    } else {
        assert(ds.skip(1)[i - 1] == ds[i]);
        lemma_dirs_out_member(p, up, ds.skip(1), i - 1);
        let rest = directives_out(p, up, ds.skip(1));
        let head: Seq<Seq<char>> = match directive_out(p, up, ds[0]) {
            Some(o0) => seq![o0],
            None => Seq::<Seq<char>>::empty(),
        };
        assert(outs == head + rest);
        lemma_contains_concat(head, rest, directive_out(p, up, ds[i])->Some_0);
    }
}

/// A quoted token — a nonce or a hash among them — of any directive that
/// survives the rewrite appears byte for byte among the tokens of that
/// directive's output.
pub proof fn lemma_csp_preserves_quoted(p: Seq<char>, up: Seq<char>, d: Seq<char>, t: Seq<char>)
    requires
        no_space_seq(p),
        p.len() > 0,
        wf_token(up),
        tokens_of(d).contains(t),
        t.len() > 0 && t[0] == '\'',
        directive_out(p, up, d) is Some,
    ensures
        tokens_of(directive_out(p, up, d)->Some_0).contains(t),
{
    let parts = tokens_of(d);
    let name = lower_seq(parts[0]);
    lemma_directive_out_tokens(p, up, d);
    let o = directive_out(p, up, d)->Some_0;
    let k = choose|k: int| 0 <= k < parts.len() && parts[k] == t;
    if is_source_list_name(name) {
        lemma_source_name_facts(name);
        assert(k != 0) by {
            if k == 0 {
                assert(name[0] == lower_char(t[0]));
            }
        }
        let vals = parts.skip(1);
        assert(vals[k - 1] == t);
        lemma_source_list_keeps(p, up, vals);
        let toks = source_list_out(p, up, vals);
        let kk = choose|kk: int| 0 <= kk < toks.len() && toks[kk] == t;
        assert(tokens_of(o)[kk + 1] == t);
    } else {
        assert(tokens_of(o) == parts);
    }
}

/// A sequence in which `c` never occurs.
pub open spec fn char_free(s: Seq<char>, c: char) -> bool {
    forall|i: int| 0 <= i < s.len() ==> s[i] != c
}

/// The pieces that `split_char` produces never hold the separator.
proof fn lemma_split_char_free(s: Seq<char>, sep: char)
    ensures
        forall|k: int|
            0 <= k < split_char(s, sep).len() ==> char_free(#[trigger] split_char(s, sep)[k], sep),
    decreases s.len(),
{
    crate::chars::lemma_first_index_of(s, sep);
    let f = first_index_of(s, sep);
    if f < 0 {
        assert(char_free(s, sep));
        assert forall|k: int| 0 <= k < split_char(s, sep).len() implies char_free(
            #[trigger] split_char(s, sep)[k],
            sep,
        ) by {
            assert(split_char(s, sep)[k] == s);
        }
    } else {
        let head = s.take(f);
        assert(char_free(head, sep)) by {
            assert(forall|j: int| 0 <= j < f ==> head[j] == s[j]);
        }
        lemma_split_char_free(s.skip(f + 1), sep);
        let rest = split_char(s.skip(f + 1), sep);
        assert forall|k: int| 0 <= k < split_char(s, sep).len() implies char_free(
            #[trigger] split_char(s, sep)[k],
            sep,
        ) by {
            if k == 0 {
                assert(split_char(s, sep)[0] == head);
            } else {
                assert(split_char(s, sep)[k] == rest[k - 1]);
            }
        }
    }
}

/// Tokens of a `c`-free sequence are `c`-free.
proof fn lemma_tokens_char_free(s: Seq<char>, c: char)
    requires
        char_free(s, c),
    ensures
        forall|k: int|
            0 <= k < tokens_of(s).len() ==> char_free(#[trigger] tokens_of(s)[k], c),
    decreases s.len(),
{
    crate::chars::lemma_token_end(s);
    if s.len() == 0 {
    } else if is_space(s[0]) {
        assert(char_free(s.skip(1), c)) by {
            assert(forall|i: int| 0 <= i < s.skip(1).len() ==> s.skip(1)[i] == s[i + 1]);
        }
        lemma_tokens_char_free(s.skip(1), c);
        assert(tokens_of(s) == tokens_of(s.skip(1)));
        assert forall|k: int| 0 <= k < tokens_of(s).len() implies char_free(
            #[trigger] tokens_of(s)[k],
            c,
        ) by {
            assert(tokens_of(s)[k] == tokens_of(s.skip(1))[k]);
        }
    } else {
        let te = token_end(s);
        let head = s.take(te);
        assert(char_free(head, c)) by {
            assert(forall|j: int| 0 <= j < te ==> head[j] == s[j]);
        }
        assert(char_free(s.skip(te), c)) by {
            assert(forall|i: int| 0 <= i < s.skip(te).len() ==> s.skip(te)[i] == s[i + te]);
        }
        lemma_tokens_char_free(s.skip(te), c);
        let rest = tokens_of(s.skip(te));
        assert forall|k: int| 0 <= k < tokens_of(s).len() implies char_free(
            #[trigger] tokens_of(s)[k],
            c,
        ) by {
            if k == 0 {
                assert(tokens_of(s)[0] == head);
            } else {
                assert(tokens_of(s)[k] == rest[k - 1]);
            }
        }
    }
}

/// Percent-encoding a `;`-free sequence yields a `;`-free sequence.
proof fn lemma_pct_encode_semi(s: Seq<char>)
    requires
        char_free(s, ';'),
    ensures
        char_free(crate::pct::pct_encode(s), ';'),
    decreases s.len(),
{
    if s.len() > 0 {
        assert(char_free(s.skip(1), ';')) by {
            assert(forall|i: int| 0 <= i < s.skip(1).len() ==> s.skip(1)[i] == s[i + 1]);
        }
        lemma_pct_encode_semi(s.skip(1));
        let e = crate::pct::enc_char(s[0]);
        assert(char_free(e, ';')) by {
            if crate::pct::in_encode_set(s[0]) {
                assert(crate::pct::hex_char(s[0] as u32 as int / 16) != ';');
                assert(crate::pct::hex_char(s[0] as u32 as int % 16) != ';');
            } else {
                assert(s[0] != ';');
            }
        }
        assert forall|i: int| 0 <= i < crate::pct::pct_encode(s).len() implies crate::pct::pct_encode(
            s,
        )[i] != ';' by {
            if i < e.len() {
                assert(crate::pct::pct_encode(s)[i] == e[i]);
            } else {
                assert(crate::pct::pct_encode(s)[i] == crate::pct::pct_encode(s.skip(1))[i
                    - e.len()]);
            }
        }
    }
}

/// What the codec hands back for a `;`-free token is `;`-free, given a
/// `;`-free proxy origin.
proof fn lemma_spec_encode_semi(p: Seq<char>, t: Seq<char>)
    requires
        char_free(p, ';'),
        char_free(t, ';'),
        no_space_seq(t),
    ensures
        match spec_encode(p, t) {
            Some(e) => char_free(e, ';'),
            None => true,
        },
    decreases t.len(),
{
    reveal_strlit("blob:");
    reveal_strlit("https:");
    reveal_strlit("/proxy?url=");
    lemma_trim_id_nonspace(t);
    let tt = crate::chars::trim_seq(t);
    assert(tt == t);
    if crate::urlcodec::is_unproxiable(tt) {
    } else if crate::chars::has_prefix_lower(tt, "file:"@) {
    } else if crate::chars::has_prefix_lower(tt, "javascript:"@) {
    } else if crate::chars::has_prefix_lower(tt, "data:"@) {
    } else if crate::chars::has_prefix_lower(tt, "blob:"@) {
        let inner = t.skip(5);
        assert(crate::chars::lower_seq(t).len() == t.len());
        assert(char_free(inner, ';') && no_space_seq(inner)) by {
            assert(forall|i: int| 0 <= i < inner.len() ==> inner[i] == t[i + 5]);
        }
        lemma_spec_encode_semi(p, inner);
        match spec_encode(p, inner) {
            Some(e) => {
                let o = "blob:"@ + e;
                assert(char_free(o, ';')) by {
                    assert(forall|i: int| 0 <= i < 5 ==> o[i] == "blob:"@[i]);
                    assert(forall|i: int| 5 <= i < o.len() ==> o[i] == e[i - 5]);
                }
            },
            None => {},
        }
    } else {
        let absolute = if crate::chars::has_prefix(tt, "//"@) {
            "https:"@ + tt
        } else {
            tt
        };
        assert(char_free(absolute, ';')) by {
            assert forall|i: int| 0 <= i < absolute.len() implies absolute[i] != ';' by {
                if crate::chars::has_prefix(tt, "//"@) {
                    if i < 6 {
                        assert(absolute[i] == "https:"@[i]);
                        assert("https:"@[i] != ';');
                    } else {
                        assert(absolute[i] == tt[i - 6]);
                    }
                } else {
                    assert(absolute[i] == tt[i]);
                }
            }
        }
        let o = crate::urlcodec::proxy_prefix(p) + crate::pct::pct_encode(absolute);
        assert(char_free(o, ';')) by {
            lemma_strip_slashes_chars(p);
            lemma_pct_encode_semi(absolute);
            let pp = crate::urlcodec::proxy_prefix(p);
            let sl = crate::urlcodec::strip_end_slashes(p);
            assert(char_free(pp, ';')) by {
                assert(forall|i: int| 0 <= i < 11 ==> "/proxy?url="@[i] != ';');
                assert forall|i: int| 0 <= i < pp.len() implies pp[i] != ';' by {
                    if i < sl.len() {
                        assert(pp[i] == sl[i]);
                        assert(sl[i] == p[i]);
                    } else {
                        assert(pp[i] == "/proxy?url="@[i - sl.len()]);
                    }
                }
            }
            assert forall|i: int| 0 <= i < o.len() implies o[i] != ';' by {
                if i < pp.len() {
                    assert(o[i] == pp[i]);
                } else {
                    assert(o[i] == crate::pct::pct_encode(absolute)[i - pp.len()]);
                }
            }
        }
    }
}

/// Lower-casing maps no character to `;`.
proof fn lemma_lower_semi(t: Seq<char>)
    requires
        char_free(t, ';'),
    ensures
        char_free(lower_seq(t), ';'),
{
    assert forall|i: int| 0 <= i < lower_seq(t).len() implies lower_seq(t)[i] != ';' by {
        assert(lower_seq(t)[i] == lower_char(t[i]));
    }
}

/// Joining `;`-free tokens with spaces is `;`-free.
proof fn lemma_join_semi(ts: Seq<Seq<char>>)
    requires
        forall|k: int| 0 <= k < ts.len() ==> char_free(#[trigger] ts[k], ';'),
    ensures
        char_free(join_with(ts, " "@), ';'),
    decreases ts.len(),
{
    reveal_strlit(" ");
    if ts.len() == 0 {
    } else if ts.len() == 1 {
        assert(join_with(ts, " "@) == ts[0]);
    } else {
        assert(forall|k: int|
            0 <= k < ts.skip(1).len() ==> ts.skip(1)[k] == ts[k + 1]);
        lemma_join_semi(ts.skip(1));
        let j = join_with(ts, " "@);
        let rest = join_with(ts.skip(1), " "@);
        assert(j == ts[0] + " "@ + rest);
        assert forall|i: int| 0 <= i < j.len() implies j[i] != ';' by {
            if i < ts[0].len() {
                assert(j[i] == ts[0][i]);
            } else if i == ts[0].len() {
                assert(j[i] == ' ');
            } else {
                assert(j[i] == rest[i - ts[0].len() - 1]);
            }
        }
    }
}

/// Every directive the rewrite emits is `;`-free, so joining them with
/// `"; "` can be split back apart.
proof fn lemma_directive_out_semi(p: Seq<char>, up: Seq<char>, d: Seq<char>)
    requires
        no_space_seq(p),
        p.len() > 0,
        char_free(p, ';'),
        char_free(up, ';'),
        char_free(d, ';'),
    ensures
        match directive_out(p, up, d) {
            Some(o) => char_free(o, ';'),
            None => true,
        },
{
    let parts = tokens_of(d);
    lemma_tokens_char_free(d, ';');
    lemma_tokens_of_wf(d);
    if parts.len() > 0 {
        let name = lower_seq(parts[0]);
        lemma_lower_semi(parts[0]);
        if is_strip_name(name) {
        } else if is_source_list_name(name) {
            let vals = parts.skip(1);
            assert(forall|k: int|
                0 <= k < vals.len() ==> vals[k] == parts[k + 1]);
            let toks = source_list_out(p, up, vals);
            assert(forall|k: int| 0 <= k < toks.len() ==> char_free(#[trigger] toks[k], ';'))
                by {
                lemma_source_list_semi(p, up, vals);
            }
            lemma_join_semi(toks);
            let o = name + " "@ + join_with(toks, " "@);
            reveal_strlit(" ");
            assert forall|i: int| 0 <= i < o.len() implies o[i] != ';' by {
                if i < name.len() {
                    assert(o[i] == name[i]);
                } else if i == name.len() {
                    assert(o[i] == ' ');
                } else {
                    assert(o[i] == join_with(toks, " "@)[i - name.len() - 1]);
                }
            }
        } else {
            lemma_join_semi(parts);
        }
    }
}

proof fn lemma_source_list_semi(p: Seq<char>, up: Seq<char>, vals: Seq<Seq<char>>)
    requires
        no_space_seq(p),
        p.len() > 0,
        char_free(p, ';'),
        char_free(up, ';'),
        forall|k: int| 0 <= k < vals.len() ==> char_free(#[trigger] vals[k], ';'),
        wf_tokens(vals),
    ensures
        forall|k: int|
            0 <= k < source_list_out(p, up, vals).len() ==> char_free(
                #[trigger] source_list_out(p, up, vals)[k],
                ';',
            ),
{
    lemma_rewrite_tokens_semi(p, vals);
    let rst = rewrite_source_tokens(p, vals);
    let toks = rst + seq![p];
    assert(forall|k: int| 0 <= k < rst.len() ==> toks[k] == rst[k]);
    assert(toks[rst.len() as int] == p);
    if !toks.contains(up) {
        let o = toks + seq![up];
        assert(forall|k: int| 0 <= k < toks.len() ==> o[k] == toks[k]);
        assert(o[toks.len() as int] == up);
    }
}

proof fn lemma_rewrite_tokens_semi(p: Seq<char>, vals: Seq<Seq<char>>)
    requires
        no_space_seq(p),
        p.len() > 0,
        char_free(p, ';'),
        forall|k: int| 0 <= k < vals.len() ==> char_free(#[trigger] vals[k], ';'),
        wf_tokens(vals),
    ensures
        forall|k: int|
            0 <= k < rewrite_source_tokens(p, vals).len() ==> char_free(
                #[trigger] rewrite_source_tokens(p, vals)[k],
                ';',
            ),
    decreases vals.len(),
{
    if vals.len() > 0 {
        let head = source_token_out(p, vals[0]);
        assert(forall|k: int| 0 <= k < head.len() ==> char_free(#[trigger] head[k], ';')) by {
            lemma_spec_encode_semi(p, vals[0]);
        }
        assert(forall|k: int|
            0 <= k < vals.skip(1).len() ==> vals.skip(1)[k] == vals[k + 1]);
        lemma_rewrite_tokens_semi(p, vals.skip(1));
        let rest = rewrite_source_tokens(p, vals.skip(1));
        assert forall|k: int| 0 <= k < rewrite_source_tokens(p, vals).len() implies char_free(
            #[trigger] rewrite_source_tokens(p, vals)[k],
            ';',
        ) by {
            if k < head.len() {
                assert(rewrite_source_tokens(p, vals)[k] == head[k]);
            } else {
                assert(rewrite_source_tokens(p, vals)[k] == rest[k - head.len()]);
            }
        }
    }
}

/// In a `;`-free head followed by a `;`, the first `;` sits right after
/// the head.
proof fn lemma_first_index_concat(a: Seq<char>, b: Seq<char>)
    requires
        char_free(a, ';'),
        b.len() > 0,
        b[0] == ';',
    ensures
        first_index_of(a + b, ';') == a.len(),
    decreases a.len(),
{
    if a.len() == 0 {
        assert(a + b =~= b);
    } else {
        assert((a + b)[0] == a[0]);
        assert((a + b).skip(1) =~= a.skip(1) + b);
        assert(char_free(a.skip(1), ';')) by {
            assert(forall|i: int| 0 <= i < a.skip(1).len() ==> a.skip(1)[i] == a[i + 1]);
        }
        lemma_first_index_concat(a.skip(1), b);
    }
}

/// Splitting after a prepended space: the space lands on the first
/// piece, the rest are untouched.
proof fn lemma_split_space_head(j: Seq<char>)
    ensures
        split_char(seq![' '] + j, ';').len() == split_char(j, ';').len(),
        split_char(seq![' '] + j, ';')[0] == seq![' '] + split_char(j, ';')[0],
        forall|k: int|
            1 <= k < split_char(j, ';').len() ==> #[trigger] split_char(seq![' '] + j, ';')[k]
                == split_char(j, ';')[k],
{
    let sj = seq![' '] + j;
    crate::chars::lemma_first_index_of(j, ';');
    crate::chars::lemma_first_index_of(sj, ';');
    let f = first_index_of(j, ';');
    assert(sj[0] == ' ');
    assert(sj.skip(1) =~= j);
    if f < 0 {
        assert(first_index_of(sj, ';') == -1);
        assert(split_char(sj, ';')[0] == sj);
    } else {
        assert(first_index_of(sj, ';') == f + 1);
        assert(sj.take(f + 1) =~= seq![' '] + j.take(f));
        assert(sj.skip(f + 2) =~= j.skip(f + 1));
        let rest = split_char(j.skip(f + 1), ';');
        assert(split_char(sj, ';') == seq![sj.take(f + 1)] + rest);
        assert(split_char(j, ';') == seq![j.take(f)] + rest);
        assert(forall|k: int|
            1 <= k < split_char(j, ';').len() ==> split_char(sj, ';')[k] == rest[k - 1]
                && split_char(j, ';')[k] == rest[k - 1]);
    }
}

/// Splitting the `"; "`-joined directives on `;` recovers them: piece
/// for piece the same tokens, in the same order.
proof fn lemma_split_join(outs: Seq<Seq<char>>)
    requires
        outs.len() > 0,
        forall|k: int| 0 <= k < outs.len() ==> char_free(#[trigger] outs[k], ';'),
    ensures
        split_char(join_with(outs, "; "@), ';').len() == outs.len(),
        forall|k: int|
            0 <= k < outs.len() ==> tokens_of(
                #[trigger] split_char(join_with(outs, "; "@), ';')[k],
            ) == tokens_of(outs[k]),
    decreases outs.len(),
{
    reveal_strlit("; ");
    let sp = split_char(join_with(outs, "; "@), ';');
    if outs.len() == 1 {
        let o = outs[0];
        assert(join_with(outs, "; "@) == o);
        crate::chars::lemma_first_index_of(o, ';');
        assert(first_index_of(o, ';') == -1);
        assert(sp[0] == o);
    } else {
        let o = outs[0];
        let rest_join = join_with(outs.skip(1), "; "@);
        let s = join_with(outs, "; "@);
        assert(s == o + "; "@ + rest_join);
        let tail = "; "@ + rest_join;
        assert(s =~= o + tail);
        assert(tail[0] == ';');
        lemma_first_index_concat(o, tail);
        assert(first_index_of(s, ';') == o.len());
        assert(s.take(o.len() as int) =~= o);
        assert(s.skip(o.len() as int + 1) =~= seq![' '] + rest_join);
        assert(forall|k: int|
            0 <= k < outs.skip(1).len() ==> outs.skip(1)[k] == outs[k + 1]);
        lemma_split_join(outs.skip(1));
        lemma_split_space_head(rest_join);
        let inner = split_char(rest_join, ';');
        let shifted = split_char(seq![' '] + rest_join, ';');
        assert(sp == seq![o] + shifted);
        assert(sp.len() == 1 + shifted.len());
        assert forall|k: int| 0 <= k < outs.len() implies tokens_of(#[trigger] sp[k])
            == tokens_of(outs[k]) by {
            if k == 0 {
                assert(sp[0] == o);
            } else {
                assert(sp[k] == shifted[k - 1]);
                if k == 1 {
                    assert(shifted[0] == seq![' '] + inner[0]);
                    assert(tokens_of(seq![' '] + inner[0]) == tokens_of(inner[0])) by {
                        assert((seq![' '] + inner[0])[0] == ' ');
                        assert((seq![' '] + inner[0]).skip(1) =~= inner[0]);
                    }
                    assert(tokens_of(inner[0]) == tokens_of(outs.skip(1)[0]));
                    assert(outs.skip(1)[0] == outs[1]);
                } else {
                    assert(shifted[k - 1] == inner[k - 1]);
                    assert(tokens_of(inner[k - 1]) == tokens_of(outs.skip(1)[k - 1]));
                    assert(outs.skip(1)[k - 1] == outs[k]);
                }
            }
        }
    }
}

/// All surviving directives are `;`-free.
proof fn lemma_dirs_out_semi(p: Seq<char>, up: Seq<char>, ds: Seq<Seq<char>>)
    requires
        no_space_seq(p),
        p.len() > 0,
        char_free(p, ';'),
        char_free(up, ';'),
        forall|k: int| 0 <= k < ds.len() ==> char_free(#[trigger] ds[k], ';'),
    ensures
        forall|k: int|
            0 <= k < directives_out(p, up, ds).len() ==> char_free(
                #[trigger] directives_out(p, up, ds)[k],
                ';',
            ),
    decreases ds.len(),
{
    if ds.len() > 0 {
        lemma_directive_out_semi(p, up, ds[0]);
        assert(forall|k: int|
            0 <= k < ds.skip(1).len() ==> ds.skip(1)[k] == ds[k + 1]);
        lemma_dirs_out_semi(p, up, ds.skip(1));
        let outs = directives_out(p, up, ds);
        let rest = directives_out(p, up, ds.skip(1));
        assert forall|k: int| 0 <= k < outs.len() implies char_free(#[trigger] outs[k], ';') by {
            match directive_out(p, up, ds[0]) {
                Some(o) => {
                    if k == 0 {
                        assert(outs[0] == o);
                    } else {
                        assert(outs[k] == rest[k - 1]);
                    }
                },
                None => {
                    assert(outs =~= Seq::<Seq<char>>::empty() + rest);
                    assert(outs[k] == rest[k]);
                },
            }
        }
    }
}

/// The rewritten policy, split back into directives on `;`, holds no
/// mix-breaking directive: every piece that has tokens at all has a
/// first token whose lower-casing is neither `upgrade-insecure-requests`
/// nor `block-all-mixed-content`.
pub proof fn lemma_csp_output_drops_mix_breakers(p: Seq<char>, up: Seq<char>, c: Seq<char>)
    requires
        no_space_seq(p),
        p.len() > 0,
        char_free(p, ';'),
        wf_token(up),
        char_free(up, ';'),
    ensures
        ({
            let pieces = split_char(spec_rewrite_csp(p, up, c), ';');
            forall|j: int|
                0 <= j < pieces.len() && tokens_of(#[trigger] pieces[j]).len() > 0
                    ==> !is_strip_name(lower_seq(tokens_of(pieces[j])[0]))
        }),
{
    let ds = split_char(c, ';');
    lemma_split_char_free(c, ';');
    lemma_dirs_out_semi(p, up, ds);
    lemma_dirs_out_all(p, up, ds);
    let outs = directives_out(p, up, ds);
    let pieces = split_char(spec_rewrite_csp(p, up, c), ';');
    if outs.len() == 0 {
        assert(spec_rewrite_csp(p, up, c) == Seq::<char>::empty());
        crate::chars::lemma_first_index_of(Seq::<char>::empty(), ';');
        assert(pieces[0] == Seq::<char>::empty());
        assert(tokens_of(Seq::<char>::empty()).len() == 0);
        assert(pieces.len() == 1);
    } else {
        lemma_split_join(outs);
        assert forall|j: int|
            0 <= j < pieces.len() && tokens_of(#[trigger] pieces[j]).len() > 0 implies
            !is_strip_name(lower_seq(tokens_of(pieces[j])[0])) by {
            assert(tokens_of(pieces[j]) == tokens_of(outs[j]));
        }
    }
}

/// The rewritten policy, split back into directives on `;`, has for
/// every source-list directive of the input a piece whose tokens include
/// the proxy origin.
pub proof fn lemma_csp_output_admits_proxy(p: Seq<char>, up: Seq<char>, c: Seq<char>, i: int)
    requires
        no_space_seq(p),
        p.len() > 0,
        char_free(p, ';'),
        wf_token(up),
        char_free(up, ';'),
        0 <= i < split_char(c, ';').len(),
        tokens_of(split_char(c, ';')[i]).len() > 0,
        is_source_list_name(lower_seq(tokens_of(split_char(c, ';')[i])[0])),
    ensures
        ({
            let pieces = split_char(spec_rewrite_csp(p, up, c), ';');
            exists|j: int|
                0 <= j < pieces.len() && tokens_of(#[trigger] pieces[j]).contains(p)
        }),
{
    let ds = split_char(c, ';');
    lemma_split_char_free(c, ';');
    lemma_dirs_out_semi(p, up, ds);
    lemma_csp_admits_proxy(p, up, c, i);
    let outs = directives_out(p, up, ds);
    let o = directive_out(p, up, ds[i])->Some_0;
    let j = choose|j: int| 0 <= j < outs.len() && outs[j] == o;
    lemma_split_join(outs);
    let pieces = split_char(spec_rewrite_csp(p, up, c), ';');
    assert(tokens_of(pieces[j]) == tokens_of(outs[j]));
}

/// A quoted token of any surviving directive appears, byte for byte,
/// among the tokens of some piece of the rewritten policy.
pub proof fn lemma_csp_output_preserves_quoted(
    p: Seq<char>,
    up: Seq<char>,
    c: Seq<char>,
    i: int,
    t: Seq<char>,
)
    requires
        no_space_seq(p),
        p.len() > 0,
        char_free(p, ';'),
        wf_token(up),
        char_free(up, ';'),
        0 <= i < split_char(c, ';').len(),
        tokens_of(split_char(c, ';')[i]).contains(t),
        t.len() > 0 && t[0] == '\'',
        directive_out(p, up, split_char(c, ';')[i]) is Some,
    ensures
        ({
            let pieces = split_char(spec_rewrite_csp(p, up, c), ';');
            exists|j: int|
                0 <= j < pieces.len() && tokens_of(#[trigger] pieces[j]).contains(t)
        }),
{
    let ds = split_char(c, ';');
    lemma_split_char_free(c, ';');
    lemma_dirs_out_semi(p, up, ds);
    lemma_csp_preserves_quoted(p, up, ds[i], t);
    lemma_dirs_out_member(p, up, ds, i);
    let outs = directives_out(p, up, ds);
    let o = directive_out(p, up, ds[i])->Some_0;
    let j = choose|j: int| 0 <= j < outs.len() && outs[j] == o;
    lemma_split_join(outs);
    let pieces = split_char(spec_rewrite_csp(p, up, c), ';');
    assert(tokens_of(pieces[j]) == tokens_of(outs[j]));
}

} // verus!
