//! URL encoding and decoding for the proxy.
//!
//! Every absolute URL that flows through the rewriters is converted into a
//! proxy-routed form, `{proxy_origin}/proxy?url={percent-encoded URL}`, so
//! the browser always talks to the proxy.  Classification of the raw
//! reference, in order: empty and fragment-only references are refused;
//! `file:` is blocked; `javascript:` and `data:` are self-contained and
//! pass through; `blob:` has its inner URL encoded; protocol-relative
//! references get `https:` prepended; absolute URLs are encoded; anything
//! else is relative and is returned unchanged by `encode_url` (resolution
//! needs a base) or resolved against the base by `encode_url_with_base`.

use vstd::prelude::*;

use crate::chars::{
    chars_of, contains_seq, contains_sub, has_prefix, has_prefix_lower, has_prefix_lower_vec,
    has_prefix_vec, is_space, lemma_trim_len, lower_char, lower_seq, prefix_at, push_all,
    push_str_chars, string_of, subrange_vec, trim_chars, trim_end_seq, trim_seq, trim_start_seq,
};
use crate::pct::{opt_chars_view, pct_decode, pct_encode, pct_encode_chars, pct_decode_chars};

verus! {

/// Whether `url::Url::parse` accepts `s` as an absolute URL.
pub uninterp spec fn parse_ok(s: Seq<char>) -> bool;

/// What resolving `rel` against `base` yields: the serialization of
/// `url::Url::parse(base)` joined with `rel`, or `None` when the base does
/// not parse or the join fails.
pub uninterp spec fn join_res(base: Seq<char>, rel: Seq<char>) -> Option<Seq<char>>;

/// The view of an optional string.
pub open spec fn opt_str_view(r: Option<String>) -> Option<Seq<char>> {
    match r {
        Some(s) => Some(s@),
        None => None,
    }
}

/// Relies on `url::Url::parse`: whether `s` parses as an absolute URL
/// under the WHATWG URL parser, which accepts no relative reference
/// without a base.  The result depends on `s` alone.
#[verifier::external_body]
fn url_parse_ok(s: &str) -> (r: bool)
    ensures
        r == parse_ok(s@),
{
    url::Url::parse(s).is_ok()
}

/// Relies on `url::Url::join` (and `url::Url::parse` for the base): the
/// serialization of `rel` resolved against `base` by standard URL
/// resolution, `None` when the base does not parse or the join fails.
/// The result depends on the two arguments alone.
#[verifier::external_body]
fn url_resolve(base: &str, rel: &str) -> (r: Option<String>)
    ensures
        opt_str_view(r) == join_res(base@, rel@),
{
    match url::Url::parse(base) {
        Ok(b) => match b.join(rel) {
            Ok(u) => Some(u.to_string()),
            Err(_) => None,
        },
        Err(_) => None,
    }
}

/// `p` without its trailing `/` characters.
pub open spec fn strip_end_slashes(p: Seq<char>) -> Seq<char>
    decreases p.len(),
{
    if p.len() > 0 && p[p.len() - 1] == '/' {
        strip_end_slashes(p.take(p.len() - 1))
    } else {
        p
    }
}

/// The prefix of every proxy-routed URL built for proxy origin `p`.
pub open spec fn proxy_prefix(p: Seq<char>) -> Seq<char> {
    strip_end_slashes(p) + "/proxy?url="@
}

/// Whether a trimmed reference is refused outright: empty or a bare
/// fragment.
pub open spec fn is_unproxiable(t: Seq<char>) -> bool {
    t.len() == 0 || t[0] == '#'
}

/// What `encode_url` returns, as a function of the proxy origin and the
/// raw reference.
pub open spec fn spec_encode(p: Seq<char>, raw: Seq<char>) -> Option<Seq<char>>
    decreases raw.len(),
    via spec_encode_decreases
{
    let t = trim_seq(raw);
    if is_unproxiable(t) {
        None
    } else if has_prefix_lower(t, "file:"@) {
        None
    } else if has_prefix_lower(t, "javascript:"@) {
        Some(t)
    } else if has_prefix_lower(t, "data:"@) {
        Some(t)
    } else if has_prefix_lower(t, "blob:"@) {
        match spec_encode(p, t.skip(5)) {
            Some(inner) => Some("blob:"@ + inner),
            None => Some(t),
        }
    } else {
        let absolute = if has_prefix(t, "//"@) {
            "https:"@ + t
        } else {
            t
        };
        if !has_prefix(t, "//"@) && (t[0] == '/' || !contains_seq(t, "://"@)) && !parse_ok(t) {
            // a truly relative reference: nothing to do without a base
            Some(t)
        } else if !parse_ok(absolute) {
            Some(t)
        } else {
            Some(proxy_prefix(p) + pct_encode(absolute))
        }
    }
}

#[via_fn]
proof fn spec_encode_decreases(p: Seq<char>, raw: Seq<char>) {
    reveal_strlit("blob:");
    lemma_trim_len(raw);
}

/// What `encode_url_with_base` does for references that need resolving:
/// everything that carries no scheme of its own and is not
/// protocol-relative or already absolute.
pub open spec fn needs_resolve(t: Seq<char>) -> bool {
    &&& t.len() > 0
    &&& !has_prefix_lower(t, "file:"@)
    &&& !has_prefix_lower(t, "javascript:"@)
    &&& !has_prefix_lower(t, "data:"@)
    &&& !has_prefix_lower(t, "blob:"@)
    &&& !has_prefix(t, "//"@)
    &&& (t[0] == '/' || (!contains_seq(t, "://"@) && !parse_ok(t)))
}

/// What `encode_url_with_base` returns.
pub open spec fn spec_encode_with_base(p: Seq<char>, base: Seq<char>, raw: Seq<char>) -> Option<
    Seq<char>,
> {
    let t = trim_seq(raw);
    if is_unproxiable(t) {
        None
    } else if needs_resolve(t) {
        match join_res(base, t) {
            Some(resolved) => spec_encode(p, resolved),
            None => {
                if parse_ok(base) {
                    // the base parses but the reference cannot be joined
                    Some(t)
                } else {
                    spec_encode(p, t)
                }
            },
        }
    } else {
        spec_encode(p, t)
    }
}

/// What `decode_url` returns: the percent-decoded value when it is
/// well-formed and parses as an absolute URL.
pub open spec fn spec_decode(s: Seq<char>) -> Option<Seq<char>> {
    match pct_decode(s) {
        Some(d) => if parse_ok(d) {
            Some(d)
        } else {
            None
        },
        None => None,
    }
}

/// Strip trailing `/` characters of `v`, as an index into it.
fn strip_slash_end(v: &Vec<char>, b: usize) -> (r: usize)
    requires
        b <= v@.len(),
    ensures
        r <= b,
        strip_end_slashes(v@.take(b as int)) == v@.take(r as int),
    decreases b,
{
    if b > 0 && v[b - 1] == '/' {
        assert(v@.take(b as int)[b - 1] == v@[b - 1]);
        assert(v@.take(b as int).take(b - 1 as int) =~= v@.take(b - 1 as int));
        strip_slash_end(v, b - 1)
    } else {
        if b > 0 {
            assert(v@.take(b as int)[b - 1] == v@[b - 1]);
        }
        b
    }
}

/// Build `{p without trailing slashes}/proxy?url={encoded}`.
fn build_proxied(p: &Vec<char>, encoded: &Vec<char>) -> (r: Vec<char>)
    ensures
        r@ == proxy_prefix(p@) + encoded@,
{
    let cut = strip_slash_end(p, p.len());
    proof {
        assert(p@.take(p@.len() as int) =~= p@);
    }
    let mut out = subrange_vec(p, 0, cut);
    push_str_chars(&mut out, "/proxy?url=");
    push_all(&mut out, encoded);
    assert(out@ =~= proxy_prefix(p@) + encoded@);
    out
}

/// Encode an arbitrary URL reference so it routes through the proxy.
/// Character-level worker shared by the public entry points and the other
/// rewriters.
pub(crate) fn encode_chars(p: &Vec<char>, raw: &Vec<char>) -> (r: Option<Vec<char>>)
    ensures
        opt_chars_view(r) == spec_encode(p@, raw@),
    decreases raw@.len(),
{
    let t = trim_chars(raw);
    if t.len() == 0 || t[0] == '#' {
        return None;
    }
    if has_prefix_lower_vec(&t, "file:") {
        return None;
    }
    if has_prefix_lower_vec(&t, "javascript:") {
        return Some(t);
    }
    if has_prefix_lower_vec(&t, "data:") {
        return Some(t);
    }
    if has_prefix_lower_vec(&t, "blob:") {
        proof {
            reveal_strlit("blob:");
        }
        assert(t@.len() >= 5);
        let inner = subrange_vec(&t, 5, t.len());
        assert(inner@ =~= t@.skip(5));
        proof {
            lemma_trim_len(raw@);
        }
        let encoded_inner = encode_chars(p, &inner);
        match encoded_inner {
            Some(enc) => {
                let mut out = chars_of("blob:");
                push_all(&mut out, &enc);
                return Some(out);
            },
            None => {
                return Some(t);
            },
        }
    }
    let is_pr = has_prefix_vec(&t, "//");
    if !is_pr && (t[0] == '/' || !contains_sub(&t, "://")) {
        let ts = string_of(&t);
        if !url_parse_ok(ts.as_str()) {
            return Some(t);
        }
    }
    let absolute = if is_pr {
        let mut a = chars_of("https:");
        push_all(&mut a, &t);
        a
    } else {
        subrange_vec(&t, 0, t.len())
    };
    proof {
        if !is_pr {
            assert(absolute@ =~= t@);
        }
    }
    let astr = string_of(&absolute);
    if !url_parse_ok(astr.as_str()) {
        return Some(t);
    }
    let enc = pct_encode_chars(&absolute);
    Some(build_proxied(p, &enc))
}

/// Encode an arbitrary URL so it routes through the proxy.
///
/// Returns `None` for `file:` URLs (blocked) and for references that
/// cannot be proxied at all (empty strings and bare fragments).  Malformed
/// or relative references come back unchanged, trimmed of surrounding
/// whitespace, so callers can keep the original content.
pub fn encode_url(proxy_origin: &str, raw: &str) -> (r: Option<String>)
    ensures
        opt_str_view(r) == spec_encode(proxy_origin@, raw@),
{
    let p = chars_of(proxy_origin);
    let v = chars_of(raw);
    match encode_chars(&p, &v) {
        Some(out) => Some(string_of(&out)),
        None => None,
    }
}

/// Encode a URL reference, resolving it against `base` when it is
/// relative.  References with a scheme of their own are classified exactly
/// as by `encode_url`; only schemeless references are joined to the base.
pub fn encode_url_with_base(proxy_origin: &str, base: &str, raw: &str) -> (r: Option<String>)
    ensures
        opt_str_view(r) == spec_encode_with_base(proxy_origin@, base@, raw@),
{
    let p = chars_of(proxy_origin);
    let v = chars_of(raw);
    let t = trim_chars(&v);
    if t.len() == 0 || t[0] == '#' {
        return None;
    }
    let needs = !has_prefix_lower_vec(&t, "file:") && !has_prefix_lower_vec(&t, "javascript:")
        && !has_prefix_lower_vec(&t, "data:") && !has_prefix_lower_vec(&t, "blob:")
        && !has_prefix_vec(&t, "//") && (t[0] == '/' || {
        let no_scheme = !contains_sub(&t, "://");
        let ts = string_of(&t);
        no_scheme && !url_parse_ok(ts.as_str())
    });
    if needs {
        let ts = string_of(&t);
        match url_resolve(base, ts.as_str()) {
            Some(resolved) => {
                let rv = chars_of(resolved.as_str());
                match encode_chars(&p, &rv) {
                    Some(out) => Some(string_of(&out)),
                    None => None,
                }
            },
            None => {
                if url_parse_ok(base) {
                    Some(ts)
                } else {
                    match encode_chars(&p, &t) {
                        Some(out) => Some(string_of(&out)),
                        None => None,
                    }
                }
            },
        }
    } else {
        match encode_chars(&p, &t) {
            Some(out) => Some(string_of(&out)),
            None => None,
        }
    }
}

/// Decode a proxied URL back to the original upstream URL.  The input is
/// the `url` query-parameter value, already extracted.  Returns `None`
/// when the percent-decoded value is not well-formed UTF-8 or does not
/// parse as an absolute URL.
pub fn decode_url(encoded: &str) -> (r: Option<String>)
    ensures
        opt_str_view(r) == spec_decode(encoded@),
{
    let v = chars_of(encoded);
    match pct_decode_chars(&v) {
        Some(d) => {
            let s = string_of(&d);
            if url_parse_ok(s.as_str()) {
                Some(s)
            } else {
                None
            }
        },
        None => None,
    }
}

/// Trimming keeps a prefix whose first and last characters are not
/// whitespace.
pub proof fn lemma_trim_keeps_prefix(s: Seq<char>, pat: Seq<char>)
    requires
        has_prefix(s, pat),
        pat.len() > 0,
        !is_space(pat[0]),
        !is_space(pat[pat.len() - 1]),
    ensures
        has_prefix(trim_seq(s), pat),
{
    assert(s.subrange(0, pat.len() as int)[0] == s[0]);
    assert(trim_start_seq(s) == s);
    lemma_trim_end_prefix(s, pat);
}

proof fn lemma_trim_end_prefix(s: Seq<char>, pat: Seq<char>)
    requires
        has_prefix(s, pat),
        pat.len() > 0,
        !is_space(pat[pat.len() - 1]),
    ensures
        has_prefix(trim_end_seq(s), pat),
    decreases s.len(),
{
    if s.len() > 0 && is_space(s[s.len() - 1]) {
        assert(s.len() > pat.len()) by {
            if s.len() == pat.len() {
                assert(s.subrange(0, pat.len() as int) =~= s);
                assert(s[s.len() - 1] == pat[pat.len() - 1]);
            }
        }
        assert(has_prefix(s.take(s.len() - 1), pat)) by {
            assert(s.take(s.len() - 1).subrange(0, pat.len() as int) =~= s.subrange(
                0,
                pat.len() as int,
            ));
        }
        lemma_trim_end_prefix(s.take(s.len() - 1), pat);
    }
}

/// The characters of a prefix are the characters of the sequence.
proof fn lemma_prefix_chars(s: Seq<char>, pat: Seq<char>)
    requires
        has_prefix(s, pat),
    ensures
        pat.len() <= s.len(),
        forall|i: int| 0 <= i < pat.len() ==> s[i] == pat[i],
{
    assert(forall|i: int| 0 <= i < pat.len() ==> s.subrange(0, pat.len() as int)[i] == s[i]);
}

/// A sequence whose first character lower-cases to something other than
/// the first character of `pat` does not start with `pat`, even up to
/// case.
proof fn lemma_no_lower_prefix(s: Seq<char>, pat: Seq<char>)
    requires
        s.len() > 0,
        pat.len() > 0,
        lower_char(s[0]) != pat[0],
    ensures
        !has_prefix_lower(s, pat),
{
    if has_prefix_lower(s, pat) {
        lemma_prefix_chars(lower_seq(s), pat);
        assert(lower_seq(s)[0] == lower_char(s[0]));
    }
}

/// A reference that carries a self-contained scheme passes through the
/// codec unchanged: a `data:` or `javascript:` URL with no surrounding
/// whitespace is returned exactly as it came.
pub proof fn lemma_encode_passthrough(p: Seq<char>, raw: Seq<char>)
    requires
        trim_seq(raw) == raw,
        has_prefix(raw, "data:"@) || has_prefix(raw, "javascript:"@),
    ensures
        spec_encode(p, raw) == Some(raw),
{
    reveal_strlit("data:");
    reveal_strlit("javascript:");
    reveal_strlit("file:");
    if has_prefix(raw, "data:"@) {
        lemma_prefix_chars(raw, "data:"@);
        assert(raw[0] == 'd');
        lemma_no_lower_prefix(raw, "file:"@);
        lemma_no_lower_prefix(raw, "javascript:"@);
        assert(has_prefix_lower(raw, "data:"@)) by {
            assert(lower_seq(raw).subrange(0, 5) =~= "data:"@) by {
                assert(forall|i: int| 0 <= i < 5 ==> lower_seq(raw)[i] == lower_char(raw[i]));
                assert(forall|i: int|
                    0 <= i < 5 ==> lower_char("data:"@[i]) == "data:"@[i]);
            }
        }
    } else {
        lemma_prefix_chars(raw, "javascript:"@);
        assert(raw[0] == 'j');
        lemma_no_lower_prefix(raw, "file:"@);
        assert(has_prefix_lower(raw, "javascript:"@)) by {
            assert(lower_seq(raw).subrange(0, 11) =~= "javascript:"@) by {
                assert(forall|i: int|
                    0 <= i < 11 ==> lower_seq(raw)[i] == lower_char(raw[i]));
                assert(forall|i: int|
                    0 <= i < 11 ==> lower_char("javascript:"@[i]) == "javascript:"@[i]);
            }
        }
    }
}

/// Every absolute or protocol-relative reference that the URL parser
/// accepts is routed through the proxy: the encoded form is the proxy
/// prefix followed by the percent-encoded absolute URL, so in particular
/// it starts with `{proxy}/proxy?url=`.
pub proof fn lemma_encode_routes_absolute(p: Seq<char>, raw: Seq<char>)
    ensures
        ({
            let t = trim_seq(raw);
            &&& (has_prefix(raw, "http://"@) || has_prefix(raw, "https://"@)) && parse_ok(t)
                ==> spec_encode(p, raw) == Some(proxy_prefix(p) + pct_encode(t)) && has_prefix(
                proxy_prefix(p) + pct_encode(t),
                proxy_prefix(p),
            )
            &&& has_prefix(raw, "//"@) && parse_ok("https:"@ + t) ==> spec_encode(p, raw) == Some(
                proxy_prefix(p) + pct_encode("https:"@ + t),
            ) && has_prefix(proxy_prefix(p) + pct_encode("https:"@ + t), proxy_prefix(p))
        }),
{
    reveal_strlit("http://");
    reveal_strlit("https://");
    reveal_strlit("//");
    reveal_strlit("file:");
    reveal_strlit("javascript:");
    reveal_strlit("data:");
    reveal_strlit("blob:");
    let t = trim_seq(raw);
    if has_prefix(raw, "http://"@) {
        lemma_trim_keeps_prefix(raw, "http://"@);
    }
    if has_prefix(raw, "https://"@) {
        lemma_trim_keeps_prefix(raw, "https://"@);
    }
    if has_prefix(raw, "//"@) {
        lemma_trim_keeps_prefix(raw, "//"@);
    }
    if (has_prefix(t, "http://"@) || has_prefix(t, "https://"@)) && parse_ok(t) {
        if has_prefix(t, "http://"@) {
            lemma_prefix_chars(t, "http://"@);
        } else {
            lemma_prefix_chars(t, "https://"@);
        }
        assert(t[0] == 'h');
        lemma_no_lower_prefix(t, "file:"@);
        lemma_no_lower_prefix(t, "javascript:"@);
        lemma_no_lower_prefix(t, "data:"@);
        lemma_no_lower_prefix(t, "blob:"@);
        assert(!has_prefix(t, "//"@)) by {
            if has_prefix(t, "//"@) {
                lemma_prefix_chars(t, "//"@);
            }
        }
        assert(spec_encode(p, raw) == Some(proxy_prefix(p) + pct_encode(t)));
        lemma_concat_prefix(proxy_prefix(p), pct_encode(t));
    }
    if has_prefix(t, "//"@) && parse_ok("https:"@ + t) {
        lemma_prefix_chars(t, "//"@);
        assert(t[0] == '/');
        lemma_no_lower_prefix(t, "file:"@);
        lemma_no_lower_prefix(t, "javascript:"@);
        lemma_no_lower_prefix(t, "data:"@);
        lemma_no_lower_prefix(t, "blob:"@);
        assert(spec_encode(p, raw) == Some(proxy_prefix(p) + pct_encode("https:"@ + t)));
        lemma_concat_prefix(proxy_prefix(p), pct_encode("https:"@ + t));
    }
}

/// A concatenation starts with its first operand.
proof fn lemma_concat_prefix(a: Seq<char>, b: Seq<char>)
    ensures
        has_prefix(a + b, a),
{
    assert((a + b).subrange(0, a.len() as int) =~= a);
}

/// Round trip: an absolute `http` or `https` URL that the parser accepts
/// is encoded to `{proxy}/proxy?url={q}` with `q` its percent-encoding,
/// and decoding `q` yields the URL again, byte for byte.
pub proof fn lemma_encode_decode_roundtrip(p: Seq<char>, u: Seq<char>)
    requires
        trim_seq(u) == u,
        has_prefix(u, "http://"@) || has_prefix(u, "https://"@),
    ensures
        parse_ok(u) ==> spec_encode(p, u) == Some(proxy_prefix(p) + pct_encode(u)),
        parse_ok(u) ==> spec_decode(pct_encode(u)) == Some(u),
{
    if parse_ok(u) {
        lemma_encode_routes_absolute(p, u);
        crate::pct::lemma_pct_roundtrip(u);
    }
}

} // verus!
