//! Percent-encoding for the `url=` query value.
//!
//! Encoding escapes the C0 controls, DEL, and the characters that break a
//! query value (`space " # < > & = + %`); all other characters, including
//! anything outside ASCII, pass through unchanged.  Decoding reverses the
//! escapes at the byte level: an escape below 0x80 yields that ASCII
//! character, and escapes at or above 0x80 are assembled as a UTF-8
//! sequence, which must be complete and well formed or the whole value is
//! rejected, exactly as a byte-level percent-decode followed by a UTF-8
//! check would do.  A `%` that does not introduce two hex digits passes
//! through unchanged.

use vstd::prelude::*;

verus! {

/// Characters that `pct_encode` escapes.
pub open spec fn in_encode_set(c: char) -> bool {
    (c as u32) < 0x20 || c == '\u{7f}' || c == ' ' || c == '"' || c == '#' || c == '<' || c == '>'
        || c == '&' || c == '=' || c == '+' || c == '%'
}

/// The upper-case hex digit for `d` in `0..16`.
pub open spec fn hex_char(d: int) -> char {
    if d < 10 {
        ((48 + d) as u8) as char
    } else {
        ((55 + d) as u8) as char  // 'A' is 65, so 'A' + (d - 10)
    }
}

/// A hex digit of either case.
pub open spec fn is_hex(c: char) -> bool {
    ('0' <= c && c <= '9') || ('a' <= c && c <= 'f') || ('A' <= c && c <= 'F')
}

/// The value of a hex digit.
pub open spec fn hex_val(c: char) -> int {
    if '0' <= c && c <= '9' {
        c as u32 - '0' as u32
    } else if 'a' <= c && c <= 'f' {
        c as u32 - 'a' as u32 + 10
    } else {
        c as u32 - 'A' as u32 + 10
    }
}

/// The character with code point `v`.
pub open spec fn cp_char(v: int) -> char {
    (v as u32) as char
}

/// What `pct_encode` emits for one character.
pub open spec fn enc_char(c: char) -> Seq<char> {
    if in_encode_set(c) {
        seq!['%', hex_char(c as u32 as int / 16), hex_char(c as u32 as int % 16)]
    } else {
        seq![c]
    }
}

/// The percent-encoding of `s`.
pub open spec fn pct_encode(s: Seq<char>) -> Seq<char>
    decreases s.len(),
{
    if s.len() == 0 {
        Seq::<char>::empty()
    } else {
        enc_char(s[0]) + pct_encode(s.skip(1))
    }
}

/// An escape `%hh` sits at index `i` of `s`.
pub open spec fn esc_at(s: Seq<char>, i: int) -> bool {
    0 <= i && i + 3 <= s.len() && s[i] == '%' && is_hex(s[i + 1]) && is_hex(s[i + 2])
}

/// The byte value of the escape at index `i`.
pub open spec fn esc_val(s: Seq<char>, i: int) -> int {
    hex_val(s[i + 1]) * 16 + hex_val(s[i + 2])
}

/// A UTF-8 continuation byte.
pub open spec fn is_cont(b: int) -> bool {
    0x80 <= b && b <= 0xBF
}

/// The extra constraint UTF-8 places on the first continuation byte of a
/// three-byte sequence: no overlong encoding, no surrogate.
pub open spec fn valid3(b0: int, b1: int) -> bool {
    (b0 == 0xE0 ==> b1 >= 0xA0) && (b0 == 0xED ==> b1 < 0xA0)
}

/// The extra constraint on the first continuation byte of a four-byte
/// sequence: no overlong encoding, nothing above U+10FFFF.
pub open spec fn valid4(b0: int, b1: int) -> bool {
    (b0 == 0xF0 ==> b1 >= 0x90) && (b0 == 0xF4 ==> b1 < 0x90)
}

/// Prepend a character to a decode result.
pub open spec fn opt_cons(c: char, r: Option<Seq<char>>) -> Option<Seq<char>> {
    match r {
        Some(t) => Some(seq![c] + t),
        None => None,
    }
}

/// The percent-decoding of `s`, or `None` when the decoded bytes are not
/// well-formed UTF-8.
pub open spec fn pct_decode(s: Seq<char>) -> Option<Seq<char>>
    decreases s.len(),
{
    if s.len() == 0 {
        Some(Seq::<char>::empty())
    } else if esc_at(s, 0) {
        let b0 = esc_val(s, 0);
        if b0 < 0x80 {
            opt_cons(cp_char(b0), pct_decode(s.skip(3)))
        } else if 0xC2 <= b0 && b0 <= 0xDF {
            if esc_at(s, 3) && is_cont(esc_val(s, 3)) {
                opt_cons(cp_char((b0 - 0xC0) * 0x40 + (esc_val(s, 3) - 0x80)), pct_decode(s.skip(6)))
            } else {
                None
            }
        } else if 0xE0 <= b0 && b0 <= 0xEF {
            if esc_at(s, 3) && is_cont(esc_val(s, 3)) && esc_at(s, 6) && is_cont(esc_val(s, 6))
                && valid3(b0, esc_val(s, 3)) {
                opt_cons(
                    cp_char(
                        (b0 - 0xE0) * 0x1000 + (esc_val(s, 3) - 0x80) * 0x40 + (esc_val(s, 6)
                            - 0x80),
                    ),
                    pct_decode(s.skip(9)),
                )
            } else {
                None
            }
        } else if 0xF0 <= b0 && b0 <= 0xF4 {
            if esc_at(s, 3) && is_cont(esc_val(s, 3)) && esc_at(s, 6) && is_cont(esc_val(s, 6))
                && esc_at(s, 9) && is_cont(esc_val(s, 9)) && valid4(b0, esc_val(s, 3)) {
                opt_cons(
                    cp_char(
                        (b0 - 0xF0) * 0x40000 + (esc_val(s, 3) - 0x80) * 0x1000 + (esc_val(s, 6)
                            - 0x80) * 0x40 + (esc_val(s, 9) - 0x80),
                    ),
                    pct_decode(s.skip(12)),
                )
            } else {
                None
            }
        } else {
            // 0x80..0xC1 (bare continuation or overlong lead) and
            // 0xF5..0xFF can start no UTF-8 sequence
            None
        }
    } else {
        opt_cons(s[0], pct_decode(s.skip(1)))
    }
}

/// Encoding distributes over concatenation.
pub proof fn lemma_pct_encode_concat(a: Seq<char>, b: Seq<char>)
    ensures
        pct_encode(a + b) == pct_encode(a) + pct_encode(b),
    decreases a.len(),
{
    if a.len() == 0 {
        assert(a + b =~= b);
        assert(pct_encode(a) + pct_encode(b) =~= pct_encode(b));
    } else {
        assert((a + b).skip(1) =~= a.skip(1) + b);
        lemma_pct_encode_concat(a.skip(1), b);
        assert((a + b)[0] == a[0]);
        assert(enc_char(a[0]) + (pct_encode(a.skip(1)) + pct_encode(b)) =~= (enc_char(a[0])
            + pct_encode(a.skip(1))) + pct_encode(b));
    }
}

/// A hex digit emitted by the encoder reads back as its value.
proof fn lemma_hex_char_val(d: int)
    requires
        0 <= d < 16,
    ensures
        is_hex(hex_char(d)),
        hex_val(hex_char(d)) == d,
        hex_char(d) != '%',
{
}

/// Decoding inverts encoding.
pub proof fn lemma_pct_roundtrip(s: Seq<char>)
    ensures
        pct_decode(pct_encode(s)) == Some(s),
    decreases s.len(),
{
    if s.len() == 0 {
    } else {
        let c = s[0];
        let e = pct_encode(s);
        lemma_pct_roundtrip(s.skip(1));
        if in_encode_set(c) {
            let cv = c as u32 as int;
            let hi = cv / 16;
            let lo = cv % 16;
            assert(cv < 0x80);
            lemma_hex_char_val(hi);
            lemma_hex_char_val(lo);
            let ec = enc_char(c);
            assert(ec.len() == 3);
            assert(e == ec + pct_encode(s.skip(1)));
            assert(e[0] == ec[0] && e[1] == ec[1] && e[2] == ec[2]);
            assert(ec[0] == '%' && ec[1] == hex_char(hi) && ec[2] == hex_char(lo));
            assert(esc_at(e, 0));
            assert(esc_val(e, 0) == hi * 16 + lo);
            assert(hi * 16 + lo == cv);
            assert(cp_char(esc_val(e, 0)) == c) by {
                vstd::utf8::char_u32_cast(c, c as u32);
            }
            assert(e.skip(3) =~= pct_encode(s.skip(1)));
            assert(seq![c] + s.skip(1) =~= s);
        } else {
            assert(e[0] == c);
            assert(c != '%');
            assert(!esc_at(e, 0));
            assert(e.skip(1) =~= pct_encode(s.skip(1)));
            assert(seq![c] + s.skip(1) =~= s);
        }
    }
}

/// Whether `c` must be escaped.
pub fn in_encode_set_exec(c: char) -> (r: bool)
    ensures
        r == in_encode_set(c),
{
    (c as u32) < 0x20 || c == '\u{7f}' || c == ' ' || c == '"' || c == '#' || c == '<' || c == '>'
        || c == '&' || c == '=' || c == '+' || c == '%'
}

/// The upper-case hex digit for `d`.
fn hex_char_exec(d: u32) -> (r: char)
    requires
        d < 16,
    ensures
        r == hex_char(d as int),
{
    if d < 10 {
        ((48 + d) as u8) as char
    } else {
        ((55 + d) as u8) as char
    }
}

/// Percent-encode `v`.
pub fn pct_encode_chars(v: &Vec<char>) -> (r: Vec<char>)
    ensures
        r@ == pct_encode(v@),
{
    let n = v.len();
    let mut out: Vec<char> = Vec::new();
    let mut i: usize = 0;
    while i < n
        invariant
            n == v@.len(),
            i <= n,
            out@ == pct_encode(v@.subrange(0, i as int)),
        decreases n - i,
    {
        let c = v[i];
        if in_encode_set_exec(c) {
            out.push('%');
            out.push(hex_char_exec((c as u32) / 16));
            out.push(hex_char_exec((c as u32) % 16));
        } else {
            out.push(c);
        }
        proof {
            let pre = v@.subrange(0, i as int);
            assert(v@.subrange(0, i + 1 as int) =~= pre + seq![v@[i as int]]);
            lemma_pct_encode_concat(pre, seq![v@[i as int]]);
            let one = seq![v@[i as int]];
            assert(one.skip(1) =~= Seq::<char>::empty());
            assert(pct_encode(Seq::<char>::empty()) == Seq::<char>::empty());
            assert(pct_encode(one) == enc_char(v@[i as int]) + pct_encode(Seq::<char>::empty()));
            assert(enc_char(v@[i as int]) + Seq::<char>::empty() =~= enc_char(v@[i as int]));
            assert(out@ =~= pct_encode(pre) + enc_char(v@[i as int]));
        }
        i += 1;
    }
    assert(v@.subrange(0, n as int) =~= v@);
    out
}

/// Whether `c` is a hex digit.
fn is_hex_exec(c: char) -> (r: bool)
    ensures
        r == is_hex(c),
{
    ('0' <= c && c <= '9') || ('a' <= c && c <= 'f') || ('A' <= c && c <= 'F')
}

/// The value of a hex digit.
fn hex_val_exec(c: char) -> (r: u32)
    requires
        is_hex(c),
    ensures
        r == hex_val(c),
        r < 16,
{
    if '0' <= c && c <= '9' {
        c as u32 - '0' as u32
    } else if 'a' <= c && c <= 'f' {
        c as u32 - 'a' as u32 + 10
    } else {
        c as u32 - 'A' as u32 + 10
    }
}

/// Relies on `char::from_u32`: every code point outside the surrogate
/// range and below 0x110000 is a `char`.
#[verifier::external_body]
fn char_of_u32(v: u32) -> (c: char)
    requires
        v < 0xD800 || (0xE000 <= v && v < 0x110000),
    ensures
        c == cp_char(v as int),
{
    char::from_u32(v).unwrap()
}

/// An escape `%hh` sits at index `i` of `v`.
fn esc_at_exec(v: &Vec<char>, i: usize) -> (r: bool)
    requires
        i <= v@.len(),
    ensures
        r == esc_at(v@, i as int),
{
    let n = v.len();
    n - i >= 3 && v[i] == '%' && is_hex_exec(v[i + 1]) && is_hex_exec(v[i + 2])
}

/// The byte value of the escape at index `i` of `v`.
fn esc_val_exec(v: &Vec<char>, i: usize) -> (r: u32)
    requires
        esc_at(v@, i as int),
    ensures
        r == esc_val(v@, i as int),
        r < 256,
{
    let n = v.len();
    assert(i + 3 <= n);
    hex_val_exec(v[i + 1]) * 16 + hex_val_exec(v[i + 2])
}

/// The view of an optional character vector.
pub open spec fn opt_chars_view(r: Option<Vec<char>>) -> Option<Seq<char>> {
    match r {
        Some(v) => Some(v@),
        None => None,
    }
}

/// Escapes inside a suffix line up with escapes of the whole sequence.
proof fn lemma_esc_shift(v: Seq<char>, i: int, j: int)
    requires
        0 <= i <= v.len(),
        0 <= j,
    ensures
        esc_at(v.skip(i), j) == (i + j + 3 <= v.len() && esc_at(v, i + j)),
        esc_at(v, i + j) && i + j + 3 <= v.len() ==> esc_val(v.skip(i), j) == esc_val(v, i + j),
{
    let s = v.skip(i);
    assert(s.len() == v.len() - i);
    if j + 3 <= s.len() {
        assert(s[j] == v[i + j]);
        assert(s[j + 1] == v[i + j + 1]);
        assert(s[j + 2] == v[i + j + 2]);
    }
}

/// Prepend a character to a decode result.
fn cons_front(c: char, rest: Option<Vec<char>>) -> (r: Option<Vec<char>>)
    ensures
        opt_chars_view(r) == opt_cons(c, opt_chars_view(rest)),
{
    match rest {
        Some(mut t) => {
            t.insert(0, c);
            assert(t@ =~= seq![c] + old_insert_tail(t@));
            Some(t)
        },
        None => None,
    }
}

/// The sequence without its first element; used only to phrase the
/// extensionality step in `cons_front`.
spec fn old_insert_tail(s: Seq<char>) -> Seq<char> {
    s.skip(1)
}

/// Percent-decode the tail of `v` that starts at `i`.
#[verifier::rlimit(50)]
fn pct_decode_from(v: &Vec<char>, i: usize) -> (r: Option<Vec<char>>)
    requires
        i <= v@.len(),
    ensures
        opt_chars_view(r) == pct_decode(v@.skip(i as int)),
    decreases v@.len() - i,
{
    let ghost s = v@.skip(i as int);
    let n = v.len();
    if i == n {
        assert(s =~= Seq::<char>::empty());
        return Some(Vec::new());
    }
    assert(s.len() > 0);
    proof {
        lemma_esc_shift(v@, i as int, 0);
    }
    if esc_at_exec(v, i) {
        let b0 = esc_val_exec(v, i);
        assert(b0 == esc_val(s, 0));
        if b0 < 0x80 {
            let c = char_of_u32(b0);
            let rest = pct_decode_from(v, i + 3);
            assert(s.skip(3) =~= v@.skip(i + 3 as int));
            let r = cons_front(c, rest);
            assert(opt_chars_view(r) == pct_decode(s));
            r
        } else if 0xC2 <= b0 && b0 <= 0xDF {
            proof {
                lemma_esc_shift(v@, i as int, 3);
            }
            if i + 3 < n && esc_at_exec(v, i + 3) {
                let b1 = esc_val_exec(v, i + 3);
                assert(esc_at(s, 3) && b1 == esc_val(s, 3));
                if 0x80 <= b1 && b1 <= 0xBF {
                    let cp = (b0 - 0xC0) * 0x40 + (b1 - 0x80);
                    assert(0x80 <= cp && cp <= 0x7FF);
                    let c = char_of_u32(cp);
                    let rest = pct_decode_from(v, i + 6);
                    assert(s.skip(6) =~= v@.skip(i + 6 as int));
                    let r = cons_front(c, rest);
                    assert(opt_chars_view(r) == pct_decode(s));
                    r
                } else {
                    None
                }
            } else {
                assert(!esc_at(s, 3));
                None
            }
        } else if 0xE0 <= b0 && b0 <= 0xEF {
            proof {
                lemma_esc_shift(v@, i as int, 3);
                lemma_esc_shift(v@, i as int, 6);
            }
            if i + 3 < n && esc_at_exec(v, i + 3) && i + 6 < n && esc_at_exec(v, i + 6) {
                let b1 = esc_val_exec(v, i + 3);
                let b2 = esc_val_exec(v, i + 6);
                assert(esc_at(s, 3) && b1 == esc_val(s, 3));
                assert(esc_at(s, 6) && b2 == esc_val(s, 6));
                if 0x80 <= b1 && b1 <= 0xBF && 0x80 <= b2 && b2 <= 0xBF && (b0 != 0xE0 || b1
                    >= 0xA0) && (b0 != 0xED || b1 < 0xA0) {
                    let cp = (b0 - 0xE0) * 0x1000 + (b1 - 0x80) * 0x40 + (b2 - 0x80);
                    assert(cp <= 0xFFFF);
                    assert(cp < 0xD800 || cp >= 0xE000);
                    let c = char_of_u32(cp);
                    let rest = pct_decode_from(v, i + 9);
                    assert(s.skip(9) =~= v@.skip(i + 9 as int));
                    let r = cons_front(c, rest);
                    assert(opt_chars_view(r) == pct_decode(s));
                    r
                } else {
                    None
                }
            } else {
                assert(!(esc_at(s, 3) && esc_at(s, 6)));
                None
            }
        } else if 0xF0 <= b0 && b0 <= 0xF4 {
            proof {
                lemma_esc_shift(v@, i as int, 3);
                lemma_esc_shift(v@, i as int, 6);
                lemma_esc_shift(v@, i as int, 9);
            }
            if i + 3 < n && esc_at_exec(v, i + 3) && i + 6 < n && esc_at_exec(v, i + 6) && i + 9
                < n && esc_at_exec(v, i + 9) {
                let b1 = esc_val_exec(v, i + 3);
                let b2 = esc_val_exec(v, i + 6);
                let b3 = esc_val_exec(v, i + 9);
                assert(esc_at(s, 3) && b1 == esc_val(s, 3));
                assert(esc_at(s, 6) && b2 == esc_val(s, 6));
                assert(esc_at(s, 9) && b3 == esc_val(s, 9));
                if 0x80 <= b1 && b1 <= 0xBF && 0x80 <= b2 && b2 <= 0xBF && 0x80 <= b3 && b3 <= 0xBF
                    && (b0 != 0xF0 || b1 >= 0x90) && (b0 != 0xF4 || b1 < 0x90) {
                    let cp = (b0 - 0xF0) * 0x40000 + (b1 - 0x80) * 0x1000 + (b2 - 0x80) * 0x40 + (b3
                        - 0x80);
                    assert(0x10000 <= cp && cp <= 0x10FFFF);
                    let c = char_of_u32(cp);
                    let rest = pct_decode_from(v, i + 12);
                    assert(s.skip(12) =~= v@.skip(i + 12 as int));
                    let r = cons_front(c, rest);
                    assert(opt_chars_view(r) == pct_decode(s));
                    r
                } else {
                    None
                }
            } else {
                assert(!(esc_at(s, 3) && esc_at(s, 6) && esc_at(s, 9)));
                None
            }
        } else {
            None
        }
    } else {
        let c = v[i];
        assert(c == s[0]);
        let rest = pct_decode_from(v, i + 1);
        assert(s.skip(1) =~= v@.skip(i + 1 as int));
        let r = cons_front(c, rest);
        assert(opt_chars_view(r) == pct_decode(s));
        r
    }
}

/// Percent-decode `v`.
pub fn pct_decode_chars(v: &Vec<char>) -> (r: Option<Vec<char>>)
    ensures
        opt_chars_view(r) == pct_decode(v@),
{
    let r = pct_decode_from(v, 0);
    assert(v@.skip(0) =~= v@);
    r
}

} // verus!
