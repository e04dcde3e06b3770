//! Character-sequence utilities shared by all rewriters.
//!
//! Every rewriter in this crate works on `Vec<char>`, whose view is the
//! same `Seq<char>` that `&str` and `String` present, so one set of spec
//! functions describes both the executable code and the contracts.

use vstd::prelude::*;

verus! {

/// ASCII whitespace as the rewriters understand it: what `trim_chars`
/// strips and what separates tokens in directive and attribute values.
pub open spec fn is_space(c: char) -> bool {
    c == ' ' || c == '\t' || c == '\n' || c == '\r' || c == '\u{0b}' || c == '\u{0c}'
}

/// Lower-case an ASCII letter; leave every other character alone.
pub open spec fn lower_char(c: char) -> char {
    if 'A' <= c && c <= 'Z' {
        ((c as u8) + 32) as char
    } else {
        c
    }
}

/// The sequence with every ASCII letter lower-cased.
pub open spec fn lower_seq(s: Seq<char>) -> Seq<char> {
    s.map(|_i: int, c: char| lower_char(c))
}

/// `p` occurs in `s` starting at index `i`.
pub open spec fn prefix_at(s: Seq<char>, i: int, p: Seq<char>) -> bool {
    0 <= i && i + p.len() <= s.len() && s.subrange(i, i + p.len()) == p
}

/// `s` starts with `p`.
pub open spec fn has_prefix(s: Seq<char>, p: Seq<char>) -> bool {
    prefix_at(s, 0, p)
}

/// `s` starts with `p` up to ASCII case.
pub open spec fn has_prefix_lower(s: Seq<char>, p: Seq<char>) -> bool {
    has_prefix(lower_seq(s), p)
}

/// `p` occurs somewhere in `s`.
pub open spec fn contains_seq(s: Seq<char>, p: Seq<char>) -> bool {
    exists|i: int| prefix_at(s, i, p)
}

/// `s` without its leading whitespace.
pub open spec fn trim_start_seq(s: Seq<char>) -> Seq<char>
    decreases s.len(),
{
    if s.len() == 0 {
        s
    } else if is_space(s[0]) {
        trim_start_seq(s.skip(1))
    } else {
        s
    }
}

/// `s` without its trailing whitespace.
pub open spec fn trim_end_seq(s: Seq<char>) -> Seq<char>
    decreases s.len(),
{
    if s.len() == 0 {
        s
    } else if is_space(s[s.len() - 1]) {
        trim_end_seq(s.take(s.len() - 1))
    } else {
        s
    }
}

/// `s` without leading and trailing whitespace.
pub open spec fn trim_seq(s: Seq<char>) -> Seq<char> {
    trim_end_seq(trim_start_seq(s))
}

pub proof fn lemma_trim_start_len(s: Seq<char>)
    ensures
        trim_start_seq(s).len() <= s.len(),
    decreases s.len(),
{
    if s.len() > 0 && is_space(s[0]) {
        lemma_trim_start_len(s.skip(1));
    }
}

pub proof fn lemma_trim_end_len(s: Seq<char>)
    ensures
        trim_end_seq(s).len() <= s.len(),
    decreases s.len(),
{
    if s.len() > 0 && is_space(s[s.len() - 1]) {
        lemma_trim_end_len(s.take(s.len() - 1));
    }
}

pub proof fn lemma_trim_len(s: Seq<char>)
    ensures
        trim_seq(s).len() <= s.len(),
{
    lemma_trim_start_len(s);
    lemma_trim_end_len(trim_start_seq(s));
}

/// Collect the characters of a string slice.
pub fn chars_of(s: &str) -> (r: Vec<char>)
    ensures
        r@ == s@,
{
    let n = s.unicode_len();
    let mut r: Vec<char> = Vec::new();
    let mut i: usize = 0;
    while i < n
        invariant
            n == s@.len(),
            i <= n,
            r@ == s@.subrange(0, i as int),
        decreases n - i,
    {
        r.push(s.get_char(i));
        assert(r@ =~= s@.subrange(0, i + 1 as int));
        i += 1;
    }
    assert(r@ =~= s@);
    r
}

/// Relies on `String`'s `FromIterator<char>` impl: collecting a vector of
/// characters yields the string with exactly those characters.
#[verifier::external_body]
pub fn string_of(v: &Vec<char>) -> (r: String)
    ensures
        r@ == v@,
{
    v.iter().collect()
}

/// Lower-case an ASCII letter; leave every other character alone.
pub fn to_lower_char(c: char) -> (r: char)
    ensures
        r == lower_char(c),
{
    if 'A' <= c && c <= 'Z' {
        ((c as u8) + 32) as char
    } else {
        c
    }
}

/// Lower-case every ASCII letter of `v`.
pub fn to_lower_vec(v: &Vec<char>) -> (r: Vec<char>)
    ensures
        r@ == lower_seq(v@),
{
    let n = v.len();
    let mut r: Vec<char> = Vec::new();
    let mut i: usize = 0;
    while i < n
        invariant
            n == v@.len(),
            i <= n,
            r@.len() == i,
            forall|k: int| 0 <= k < i ==> r@[k] == lower_char(v@[k]),
        decreases n - i,
    {
        r.push(to_lower_char(v[i]));
        i += 1;
    }
    assert(r@ =~= lower_seq(v@));
    r
}

/// Whether `c` is ASCII whitespace.
pub fn is_space_char(c: char) -> (r: bool)
    ensures
        r == is_space(c),
{
    c == ' ' || c == '\t' || c == '\n' || c == '\r' || c == '\u{0b}' || c == '\u{0c}'
}

/// Append every character of `src` to `out`.
pub fn push_all(out: &mut Vec<char>, src: &Vec<char>)
    ensures
        final(out)@ == old(out)@ + src@,
{
    let mut i: usize = 0;
    while i < src.len()
        invariant
            i <= src@.len(),
            out@ == old(out)@ + src@.subrange(0, i as int),
        decreases src@.len() - i,
    {
        out.push(src[i]);
        assert(out@ =~= old(out)@ + src@.subrange(0, i + 1 as int));
        i += 1;
    }
    assert(out@ =~= old(out)@ + src@);
}

/// Append every character of the string slice `src` to `out`.
pub fn push_str_chars(out: &mut Vec<char>, src: &str)
    ensures
        final(out)@ == old(out)@ + src@,
{
    let n = src.unicode_len();
    let mut i: usize = 0;
    while i < n
        invariant
            n == src@.len(),
            i <= n,
            out@ == old(out)@ + src@.subrange(0, i as int),
        decreases n - i,
    {
        out.push(src.get_char(i));
        assert(out@ =~= old(out)@ + src@.subrange(0, i + 1 as int));
        i += 1;
    }
    assert(out@ =~= old(out)@ + src@);
}

/// Whether `pat` occurs in `v` starting at index `i`.
pub fn starts_with_at(v: &Vec<char>, i: usize, pat: &str) -> (r: bool)
    requires
        i <= v@.len(),
    ensures
        r == prefix_at(v@, i as int, pat@),
{
    let m = pat.unicode_len();
    let n = v.len();
    if n - i < m {
        return false;
    }
    let mut j: usize = 0;
    while j < m
        invariant
            m == pat@.len(),
            n == v@.len(),
            i + m <= n,
            j <= m,
            forall|k: int| 0 <= k < j ==> v@[i + k] == pat@[k],
        decreases m - j,
    {
        if v[i + j] != pat.get_char(j) {
            assert(v@.subrange(i as int, i + m) != pat@) by {
                assert(v@.subrange(i as int, i + m)[j as int] != pat@[j as int]);
            }
            return false;
        }
        j += 1;
    }
    assert(v@.subrange(i as int, i + m) =~= pat@);
    true
}

/// Whether `pat` occurs in `v` starting at index `i`, up to ASCII case.
/// `pat` is compared as given, so a lower-case pattern matches
/// case-insensitively.
pub fn starts_with_lower_at(v: &Vec<char>, i: usize, pat: &str) -> (r: bool)
    requires
        i <= v@.len(),
    ensures
        r == prefix_at(lower_seq(v@), i as int, pat@),
{
    let m = pat.unicode_len();
    let n = v.len();
    if n - i < m {
        return false;
    }
    let mut j: usize = 0;
    while j < m
        invariant
            m == pat@.len(),
            n == v@.len(),
            i + m <= n,
            j <= m,
            forall|k: int| 0 <= k < j ==> lower_seq(v@)[i + k] == pat@[k],
        decreases m - j,
    {
        if to_lower_char(v[i + j]) != pat.get_char(j) {
            assert(lower_seq(v@).subrange(i as int, i + m) != pat@) by {
                assert(lower_seq(v@).subrange(i as int, i + m)[j as int] != pat@[j as int]);
            }
            return false;
        }
        j += 1;
    }
    assert(lower_seq(v@).subrange(i as int, i + m) =~= pat@);
    true
}

/// `v` starts with `pat`, up to ASCII case.
pub fn has_prefix_lower_vec(v: &Vec<char>, pat: &str) -> (r: bool)
    ensures
        r == has_prefix_lower(v@, pat@),
{
    starts_with_lower_at(v, 0, pat)
}

/// `v` starts with `pat`.
pub fn has_prefix_vec(v: &Vec<char>, pat: &str) -> (r: bool)
    ensures
        r == has_prefix(v@, pat@),
{
    starts_with_at(v, 0, pat)
}

/// The first index at which `pat` occurs in `v`, if any.
pub fn find_sub(v: &Vec<char>, pat: &str) -> (r: Option<usize>)
    ensures
        match r {
            Some(i) => prefix_at(v@, i as int, pat@) && forall|j: int|
                0 <= j < i ==> !prefix_at(v@, j, pat@),
            None => forall|j: int| !prefix_at(v@, j, pat@),
        },
{
    if pat.unicode_len() == 0 {
        assert(v@.subrange(0, 0) =~= pat@);
        return Some(0);
    }
    let mut i: usize = 0;
    while i < v.len()
        invariant
            i <= v@.len(),
            pat@.len() > 0,
            forall|j: int| 0 <= j < i ==> !prefix_at(v@, j, pat@),
        decreases v@.len() - i,
    {
        if starts_with_at(v, i, pat) {
            return Some(i);
        }
        i += 1;
    }
    assert(forall|j: int| i <= j ==> !prefix_at(v@, j, pat@));
    None
}

/// Whether `pat` occurs anywhere in `v`.
pub fn contains_sub(v: &Vec<char>, pat: &str) -> (r: bool)
    ensures
        r == contains_seq(v@, pat@),
{
    match find_sub(v, pat) {
        Some(i) => {
            assert(prefix_at(v@, i as int, pat@));
            true
        },
        None => false,
    }
}

/// The index of the first non-whitespace character at or after `i`, with
/// the tail of the leading-whitespace scan described through
/// `trim_start_seq`.
pub fn first_non_space(v: &Vec<char>, i: usize) -> (r: usize)
    requires
        i <= v@.len(),
    ensures
        i <= r <= v@.len(),
        trim_start_seq(v@.skip(i as int)) == v@.skip(r as int),
        r < v@.len() ==> !is_space(v@[r as int]),
    decreases v@.len() - i,
{
    if i == v.len() {
        assert(v@.skip(i as int) =~= Seq::<char>::empty());
        i
    } else if is_space_char(v[i]) {
        assert(v@.skip(i as int).skip(1) =~= v@.skip(i + 1 as int));
        first_non_space(v, i + 1)
    } else {
        assert(v@.skip(i as int)[0] == v@[i as int]);
        i
    }
}

/// The end of `v@.subrange(a, b)` once trailing whitespace is dropped,
/// assuming the character at `a` is not whitespace.
fn last_non_space(v: &Vec<char>, a: usize, b: usize) -> (r: usize)
    requires
        a < b <= v@.len(),
        !is_space(v@[a as int]),
    ensures
        a < r <= b,
        trim_end_seq(v@.subrange(a as int, b as int)) == v@.subrange(a as int, r as int),
    decreases b,
{
    let ghost piece = v@.subrange(a as int, b as int);
    if is_space_char(v[b - 1]) {
        assert(piece[piece.len() - 1] == v@[b - 1]);
        if b - 1 == a {
            // cannot happen: v[a] is not whitespace
            assert(false);
            b
        } else {
            assert(piece.take(piece.len() - 1) =~= v@.subrange(a as int, b - 1 as int));
            last_non_space(v, a, b - 1)
        }
    } else {
        assert(piece[piece.len() - 1] == v@[b - 1]);
        assert(trim_end_seq(piece) == piece);
        b
    }
}

/// `v` without leading and trailing whitespace.
pub fn trim_chars(v: &Vec<char>) -> (r: Vec<char>)
    ensures
        r@ == trim_seq(v@),
{
    let a = first_non_space(v, 0);
    assert(v@.skip(0) =~= v@);
    if a == v.len() {
        assert(v@.skip(a as int) =~= Seq::<char>::empty());
        let r: Vec<char> = Vec::new();
        assert(r@ =~= trim_seq(v@));
        return r;
    }
    let b = last_non_space(v, a, v.len());
    assert(v@.subrange(a as int, v@.len() as int) =~= v@.skip(a as int));
    let mut r: Vec<char> = Vec::new();
    let mut i: usize = a;
    while i < b
        invariant
            a <= i <= b <= v@.len(),
            r@ == v@.subrange(a as int, i as int),
        decreases b - i,
    {
        r.push(v[i]);
        assert(r@ =~= v@.subrange(a as int, i + 1 as int));
        i += 1;
    }
    assert(r@ == trim_seq(v@));
    r
}

/// A copy of `v[a..b]`.
pub fn subrange_vec(v: &Vec<char>, a: usize, b: usize) -> (r: Vec<char>)
    requires
        a <= b <= v@.len(),
    ensures
        r@ == v@.subrange(a as int, b as int),
{
    let mut r: Vec<char> = Vec::new();
    let mut i: usize = a;
    while i < b
        invariant
            a <= i <= b <= v@.len(),
            r@ == v@.subrange(a as int, i as int),
        decreases b - i,
    {
        r.push(v[i]);
        assert(r@ =~= v@.subrange(a as int, i + 1 as int));
        i += 1;
    }
    r
}

/// The views of a sequence of character vectors.
pub open spec fn views_of(v: Seq<Vec<char>>) -> Seq<Seq<char>> {
    v.map(|_i: int, x: Vec<char>| x@)
}

/// The index of the first occurrence of `c` in `s`, or -1.
pub open spec fn first_index_of(s: Seq<char>, c: char) -> int
    decreases s.len(),
{
    if s.len() == 0 {
        -1
    } else if s[0] == c {
        0
    } else {
        let r = first_index_of(s.skip(1), c);
        if r < 0 {
            -1
        } else {
            r + 1
        }
    }
}

pub proof fn lemma_first_index_of(s: Seq<char>, c: char)
    ensures
        first_index_of(s, c) == -1 ==> forall|j: int| 0 <= j < s.len() ==> s[j] != c,
        first_index_of(s, c) != -1 ==> 0 <= first_index_of(s, c) < s.len() && s[first_index_of(
            s,
            c,
        )] == c && forall|j: int| 0 <= j < first_index_of(s, c) ==> s[j] != c,
    decreases s.len(),
{
    if s.len() > 0 && s[0] != c {
        lemma_first_index_of(s.skip(1), c);
        let t = s.skip(1);
        assert(forall|j: int| 0 <= j < t.len() ==> t[j] == s[j + 1]);
        if first_index_of(t, c) == -1 {
            assert(forall|j: int| 1 <= j < s.len() ==> s[j] == t[j - 1]);
        } else {
            let r = first_index_of(t, c);
            assert(s[r + 1] == t[r]);
            assert(forall|j: int| 1 <= j < r + 1 ==> s[j] == t[j - 1]);
        }
    }
}

/// Split `s` at every occurrence of `sep`; adjacent separators give empty
/// pieces, as `str::split` does.
pub open spec fn split_char(s: Seq<char>, sep: char) -> Seq<Seq<char>>
    decreases s.len(),
    via split_char_decreases
{
    let i = first_index_of(s, sep);
    if i < 0 {
        seq![s]
    } else {
        seq![s.take(i)] + split_char(s.skip(i + 1), sep)
    }
}

#[via_fn]
proof fn split_char_decreases(s: Seq<char>, sep: char) {
    lemma_first_index_of(s, sep);
}

/// The length of the whitespace-free run at the head of `s`.
pub open spec fn token_end(s: Seq<char>) -> int
    decreases s.len(),
{
    if s.len() == 0 || is_space(s[0]) {
        0
    } else {
        1 + token_end(s.skip(1))
    }
}

pub proof fn lemma_token_end(s: Seq<char>)
    ensures
        0 <= token_end(s) <= s.len(),
        s.len() > 0 && !is_space(s[0]) ==> token_end(s) >= 1,
    decreases s.len(),
{
    if s.len() > 0 && !is_space(s[0]) {
        lemma_token_end(s.skip(1));
    }
}

/// The whitespace-separated tokens of `s`.
pub open spec fn tokens_of(s: Seq<char>) -> Seq<Seq<char>>
    decreases s.len(),
    via tokens_of_decreases
{
    if s.len() == 0 {
        Seq::<Seq<char>>::empty()
    } else if is_space(s[0]) {
        tokens_of(s.skip(1))
    } else {
        seq![s.take(token_end(s))] + tokens_of(s.skip(token_end(s)))
    }
}

#[via_fn]
proof fn tokens_of_decreases(s: Seq<char>) {
    lemma_token_end(s);
}

/// The pieces joined with `sep` between them.
pub open spec fn join_with(parts: Seq<Seq<char>>, sep: Seq<char>) -> Seq<char>
    decreases parts.len(),
{
    if parts.len() == 0 {
        Seq::<char>::empty()
    } else if parts.len() == 1 {
        parts[0]
    } else {
        parts[0] + sep + join_with(parts.skip(1), sep)
    }
}

/// The index of the first occurrence of `sep` at or after `i`, if any.
pub fn find_char_from(v: &Vec<char>, i: usize, sep: char) -> (r: Option<usize>)
    requires
        i <= v@.len(),
    ensures
        match r {
            Some(j) => i <= j < v@.len() && first_index_of(v@.skip(i as int), sep) == j - i,
            None => first_index_of(v@.skip(i as int), sep) == -1,
        },
    decreases v@.len() - i,
{
    if i == v.len() {
        assert(v@.skip(i as int) =~= Seq::<char>::empty());
        None
    } else if v[i] == sep {
        assert(v@.skip(i as int)[0] == v@[i as int]);
        Some(i)
    } else {
        assert(v@.skip(i as int)[0] == v@[i as int]);
        assert(v@.skip(i as int).skip(1) =~= v@.skip(i + 1 as int));
        find_char_from(v, i + 1, sep)
    }
}

/// Split the tail of `v` that starts at `i` at every `sep`.
fn split_char_from(v: &Vec<char>, i: usize, sep: char) -> (r: Vec<Vec<char>>)
    requires
        i <= v@.len(),
    ensures
        views_of(r@) == split_char(v@.skip(i as int), sep),
    decreases v@.len() - i,
{
    let ghost s = v@.skip(i as int);
    let n = v.len();
    match find_char_from(v, i, sep) {
        None => {
            let piece = subrange_vec(v, i, v.len());
            assert(piece@ =~= s);
            let mut r: Vec<Vec<char>> = Vec::new();
            r.push(piece);
            assert(views_of(r@) =~= seq![s]);
            r
        },
        Some(j) => {
            let piece = subrange_vec(v, i, j);
            proof {
                lemma_first_index_of(s, sep);
                assert(piece@ =~= s.take(j - i));
                assert(s.skip(j - i + 1) =~= v@.skip(j + 1 as int));
            }
            let mut rest = split_char_from(v, j + 1, sep);
            rest.insert(0, piece);
            assert(views_of(rest@) =~= seq![s.take(j - i)] + split_char(
                v@.skip(j + 1 as int),
                sep,
            ));
            rest
        },
    }
}

/// Split `v` at every occurrence of `sep`.
pub fn split_char_vec(v: &Vec<char>, sep: char) -> (r: Vec<Vec<char>>)
    ensures
        views_of(r@) == split_char(v@, sep),
{
    let r = split_char_from(v, 0, sep);
    assert(v@.skip(0) =~= v@);
    r
}

/// The end of the whitespace-free run that starts at `i`.
fn token_end_from(v: &Vec<char>, i: usize) -> (r: usize)
    requires
        i <= v@.len(),
    ensures
        i <= r <= v@.len(),
        token_end(v@.skip(i as int)) == r - i,
        r < v@.len() ==> is_space(v@[r as int]),
    decreases v@.len() - i,
{
    if i == v.len() {
        assert(v@.skip(i as int) =~= Seq::<char>::empty());
        i
    } else if is_space_char(v[i]) {
        assert(v@.skip(i as int)[0] == v@[i as int]);
        i
    } else {
        assert(v@.skip(i as int)[0] == v@[i as int]);
        assert(v@.skip(i as int).skip(1) =~= v@.skip(i + 1 as int));
        token_end_from(v, i + 1)
    }
}

/// The whitespace-separated tokens of the tail of `v` that starts at `i`.
fn tokens_from(v: &Vec<char>, i: usize) -> (r: Vec<Vec<char>>)
    requires
        i <= v@.len(),
    ensures
        views_of(r@) == tokens_of(v@.skip(i as int)),
    decreases v@.len() - i,
{
    let ghost s = v@.skip(i as int);
    if i == v.len() {
        assert(s =~= Seq::<char>::empty());
        let r: Vec<Vec<char>> = Vec::new();
        assert(views_of(r@) =~= tokens_of(s));
        r
    } else if is_space_char(v[i]) {
        assert(s[0] == v@[i as int]);
        assert(s.skip(1) =~= v@.skip(i + 1 as int));
        tokens_from(v, i + 1)
    } else {
        assert(s[0] == v@[i as int]);
        let j = token_end_from(v, i);
        proof {
            lemma_token_end(s);
        }
        let piece = subrange_vec(v, i, j);
        assert(piece@ =~= s.take(j - i));
        assert(s.skip(j - i) =~= v@.skip(j as int));
        let mut rest = tokens_from(v, j);
        rest.insert(0, piece);
        assert(views_of(rest@) =~= seq![s.take(token_end(s))] + tokens_of(s.skip(token_end(s))));
        rest
    }
}

/// The length of the whitespace-free run at the head of `v`.
pub fn token_end_vec(v: &Vec<char>) -> (r: usize)
    ensures
        r as int == token_end(v@),
        r <= v@.len(),
{
    let r = token_end_from(v, 0);
    assert(v@.skip(0) =~= v@);
    r
}

/// The whitespace-separated tokens of `v`.
pub fn tokens_vec(v: &Vec<char>) -> (r: Vec<Vec<char>>)
    ensures
        views_of(r@) == tokens_of(v@),
{
    let r = tokens_from(v, 0);
    assert(v@.skip(0) =~= v@);
    r
}

/// Join the pieces of `parts` from index `i` on, with `sep` between them.
fn join_from(parts: &Vec<Vec<char>>, i: usize, sep: &str) -> (r: Vec<char>)
    requires
        i <= parts@.len(),
    ensures
        r@ == join_with(views_of(parts@).skip(i as int), sep@),
    decreases parts@.len() - i,
{
    let ghost ps = views_of(parts@).skip(i as int);
    let n = parts.len();
    if i == n {
        let r: Vec<char> = Vec::new();
        assert(ps =~= Seq::<Seq<char>>::empty());
        r
    } else if i + 1 == n {
        let r = subrange_vec(&parts[i], 0, parts[i].len());
        assert(ps.len() == 1);
        assert(ps[0] == parts@[i as int]@);
        assert(r@ =~= parts@[i as int]@);
        r
    } else {
        let mut r = subrange_vec(&parts[i], 0, parts[i].len());
        assert(r@ =~= parts@[i as int]@);
        push_str_chars(&mut r, sep);
        let rest = join_from(parts, i + 1, sep);
        push_all(&mut r, &rest);
        proof {
            assert(ps[0] == parts@[i as int]@);
            assert(ps.skip(1) =~= views_of(parts@).skip(i + 1 as int));
            assert(r@ =~= ps[0] + sep@ + join_with(ps.skip(1), sep@));
        }
        r
    }
}

/// Join the pieces with `sep` between them.
pub fn join_vec(parts: &Vec<Vec<char>>, sep: &str) -> (r: Vec<char>)
    ensures
        r@ == join_with(views_of(parts@), sep@),
{
    let r = join_from(parts, 0, sep);
    assert(views_of(parts@).skip(0) =~= views_of(parts@));
    r
}

/// Whether `v` is exactly the string `pat`.
pub fn eq_lit(v: &Vec<char>, pat: &str) -> (r: bool)
    ensures
        r == (v@ == pat@),
{
    if v.len() != pat.unicode_len() {
        return false;
    }
    let r = starts_with_at(v, 0, pat);
    proof {
        if r {
            assert(v@.subrange(0, pat@.len() as int) =~= v@);
        } else {
            if v@ == pat@ {
                assert(v@.subrange(0, pat@.len() as int) =~= pat@);
            }
        }
    }
    r
}

/// Whether `c` occurs in `v`.
pub fn contains_char_vec(v: &Vec<char>, c: char) -> (r: bool)
    ensures
        r == (first_index_of(v@, c) != -1),
{
    let r = find_char_from(v, 0, c);
    assert(v@.skip(0) =~= v@);
    match r {
        Some(_) => true,
        None => false,
    }
}

} // verus!
