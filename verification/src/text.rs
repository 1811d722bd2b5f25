//! Character-sequence helpers shared by the parsers: conversion between
//! `&str`/`String` and `Vec<char>`, the whitespace rules of `str::trim`,
//! ASCII case folding, line splitting and decimal numbers.

use vstd::prelude::*;

verus! {

// ------------------------------------------------------------ conversions

/// Appends one character to a `String`.
///
/// Trusted: calls `String::push`, which std documents as appending the
/// character to the end of the string.
#[verifier::external_body]
fn push_char(s: &mut String, c: char)
    ensures
        final(s)@ == old(s)@.push(c),
{
    s.push(c);
}

/// Builds a `String` whose characters are exactly `v`.
pub fn string_of(v: &[char]) -> (r: String)
    ensures
        r@ == v@,
{
    let mut r = String::new();
    let mut i: usize = 0;
    while i < v.len()
        invariant
            i <= v.len(),
            r@ == v@.subrange(0, i as int),
        decreases v.len() - i,
    {
        push_char(&mut r, v[i]);
        assert(v@.subrange(0, i + 1) == v@.subrange(0, i as int).push(v@[i as int]));
        i += 1;
    }
    assert(v@.subrange(0, v.len() as int) == v@);
    r
}

/// The characters of `s`, in order.
pub fn chars_of(s: &str) -> (r: Vec<char>)
    ensures
        r@ == s@,
{
    let mut out: Vec<char> = Vec::new();
    for c in it: s.chars()
        invariant
            out@ == it.seq().subrange(0, it.index() as int),
    {
        out.push(c);
    }
    out
}

/// Copies a slice of characters into a new vector.
pub fn to_vec(s: &[char]) -> (r: Vec<char>)
    ensures
        r@ == s@,
{
    let mut out: Vec<char> = Vec::new();
    let mut i: usize = 0;
    while i < s.len()
        invariant
            i <= s.len(),
            out@ == s@.subrange(0, i as int),
        decreases s.len() - i,
    {
        out.push(s[i]);
        assert(s@.subrange(0, i + 1) == s@.subrange(0, i as int).push(s@[i as int]));
        i += 1;
    }
    assert(s@.subrange(0, s.len() as int) == s@);
    out
}

/// The characters of `s[from..to]`.
pub fn slice_vec(s: &[char], from: usize, to: usize) -> (r: Vec<char>)
    requires
        from <= to <= s.len(),
    ensures
        r@ == s@.subrange(from as int, to as int),
{
    let mut out: Vec<char> = Vec::new();
    let mut i: usize = from;
    while i < to
        invariant
            from <= i <= to <= s.len(),
            out@ == s@.subrange(from as int, i as int),
        decreases to - i,
    {
        out.push(s[i]);
        assert(s@.subrange(from as int, i + 1) == s@.subrange(from as int, i as int).push(
            s@[i as int],
        ));
        i += 1;
    }
    out
}

/// Appends `b` to `a`.
pub fn extend(a: &mut Vec<char>, b: &[char])
    ensures
        final(a)@ == old(a)@ + b@,
{
    let mut i: usize = 0;
    while i < b.len()
        invariant
            i <= b.len(),
            a@ == old(a)@ + b@.subrange(0, i as int),
        decreases b.len() - i,
    {
        a.push(b[i]);
        assert(b@.subrange(0, i + 1) == b@.subrange(0, i as int).push(b@[i as int]));
        i += 1;
    }
    assert(b@.subrange(0, b.len() as int) == b@);
}

/// Appends the characters of `b` to `a`.
pub fn extend_str(a: &mut Vec<char>, b: &str)
    ensures
        final(a)@ == old(a)@ + b@,
{
    let v = chars_of(b);
    extend(a, &v);
}

/// The concatenation of two strings.
pub fn cat2(a: &str, b: &str) -> (r: String)
    ensures
        r@ == a@ + b@,
{
    let mut out = chars_of(a);
    extend_str(&mut out, b);
    string_of(&out)
}

/// The concatenation of three strings.
pub fn cat3(a: &str, b: &str, c: &str) -> (r: String)
    ensures
        r@ == a@ + b@ + c@,
{
    let mut out = chars_of(a);
    extend_str(&mut out, b);
    extend_str(&mut out, c);
    string_of(&out)
}

/// Whether two character slices are equal.
pub fn eq(a: &[char], b: &[char]) -> (r: bool)
    ensures
        r == (a@ == b@),
{
    if a.len() != b.len() {
        return false;
    }
    let mut i: usize = 0;
    while i < a.len()
        invariant
            a.len() == b.len(),
            i <= a.len(),
            forall|k: int| 0 <= k < i ==> a@[k] == b@[k],
        decreases a.len() - i,
    {
        if a[i] != b[i] {
            return false;
        }
        i += 1;
    }
    assert(a@ =~= b@);
    true
}

// ------------------------------------------------------------ whitespace

/// The characters with the Unicode `White_Space` property, which is what
/// `char::is_whitespace` and `str::trim` use.
pub open spec fn is_ws(c: char) -> bool {
    ||| ('\u{9}' <= c && c <= '\u{d}')
    ||| c == ' '
    ||| c == '\u{85}'
    ||| c == '\u{a0}'
    ||| c == '\u{1680}'
    ||| ('\u{2000}' <= c && c <= '\u{200a}')
    ||| c == '\u{2028}'
    ||| c == '\u{2029}'
    ||| c == '\u{202f}'
    ||| c == '\u{205f}'
    ||| c == '\u{3000}'
}

pub fn is_whitespace(c: char) -> (r: bool)
    ensures
        r == is_ws(c),
{
    ('\u{9}' <= c && c <= '\u{d}') || c == ' ' || c == '\u{85}' || c == '\u{a0}' || c
        == '\u{1680}' || ('\u{2000}' <= c && c <= '\u{200a}') || c == '\u{2028}' || c
        == '\u{2029}' || c == '\u{202f}' || c == '\u{205f}' || c == '\u{3000}'
}

/// `s` without leading whitespace.
pub open spec fn trim_start(s: Seq<char>) -> Seq<char>
    decreases s.len(),
{
    if s.len() > 0 && is_ws(s[0]) {
        trim_start(s.drop_first())
    } else {
        s
    }
}

/// `s` without trailing whitespace.
pub open spec fn trim_end(s: Seq<char>) -> Seq<char>
    decreases s.len(),
{
    if s.len() > 0 && is_ws(s.last()) {
        trim_end(s.drop_last())
    } else {
        s
    }
}

/// `s` without leading and trailing whitespace, as `str::trim`.
pub open spec fn trim(s: Seq<char>) -> Seq<char> {
    trim_end(trim_start(s))
}

/// Index of the first character of `s[from..]` that is not whitespace.
fn skip_ws(s: &[char], from: usize) -> (r: usize)
    requires
        from <= s.len(),
    ensures
        from <= r <= s.len(),
        trim_start(s@.subrange(from as int, s.len() as int)) == s@.subrange(
            r as int,
            s.len() as int,
        ),
    decreases s.len() - from,
{
    if from < s.len() && is_whitespace(s[from]) {
        let r = skip_ws(s, from + 1);
        assert(s@.subrange(from as int, s.len() as int).drop_first() == s@.subrange(
            from + 1,
            s.len() as int,
        ));
        r
    } else {
        r_self(s, from)
    }
}

fn r_self(s: &[char], from: usize) -> (r: usize)
    requires
        from <= s.len(),
        !(from < s.len() && is_ws(s@[from as int])),
    ensures
        r == from,
        trim_start(s@.subrange(from as int, s.len() as int)) == s@.subrange(
            r as int,
            s.len() as int,
        ),
{
    from
}

/// End index of `s[..to]` once trailing whitespace is removed.
fn back_ws(s: &[char], to: usize) -> (r: usize)
    requires
        to <= s.len(),
    ensures
        r <= to,
        trim_end(s@.subrange(0, to as int)) == s@.subrange(0, r as int),
    decreases to,
{
    if to > 0 && is_whitespace(s[to - 1]) {
        assert(s@.subrange(0, to as int).drop_last() == s@.subrange(0, to - 1));
        back_ws(s, to - 1)
    } else {
        to
    }
}


/// `trim` on a character slice.
pub fn trim_vec(s: &[char]) -> (r: Vec<char>)
    ensures
        r@ == trim(s@),
{
    let a = skip_ws(s, 0);
    assert(s@.subrange(0, s.len() as int) == s@);
    let t = slice_vec(s, a, s.len());
    let b = back_ws(&t, t.len());
    assert(t@.subrange(0, t.len() as int) == t@);
    slice_vec(&t, 0, b)
}

/// `trim` on a string.
pub fn trim_str(s: &str) -> (r: Vec<char>)
    ensures
        r@ == trim(s@),
{
    let v = chars_of(s);
    trim_vec(&v)
}


// ------------------------------------------------------------ case folding

pub open spec fn lower_char(c: char) -> char {
    if 'A' <= c && c <= 'Z' {
        ((c as u32) + 32) as char
    } else {
        c
    }
}

pub open spec fn upper_char(c: char) -> char {
    if 'a' <= c && c <= 'z' {
        ((c as u32) - 32) as char
    } else {
        c
    }
}

/// ASCII lower case, as `str::to_ascii_lowercase`.
pub open spec fn ascii_lower(s: Seq<char>) -> Seq<char> {
    s.map_values(|c: char| lower_char(c))
}

/// ASCII upper case, as `str::to_ascii_uppercase`.
pub open spec fn ascii_upper(s: Seq<char>) -> Seq<char> {
    s.map_values(|c: char| upper_char(c))
}

/// Equality up to ASCII case, as `str::eq_ignore_ascii_case`.
pub open spec fn eq_ic(a: Seq<char>, b: Seq<char>) -> bool {
    ascii_lower(a) == ascii_lower(b)
}

pub fn lower_c(c: char) -> (r: char)
    ensures
        r == lower_char(c),
{
    if 'A' <= c && c <= 'Z' {
        proof {
            assert((c as u32) + 32 <= 0x7f);
        }
        ((c as u8) + 32) as char
    } else {
        c
    }
}

pub fn upper_c(c: char) -> (r: char)
    ensures
        r == upper_char(c),
{
    if 'a' <= c && c <= 'z' {
        ((c as u8) - 32) as char
    } else {
        c
    }
}

pub fn lower_vec(s: &[char]) -> (r: Vec<char>)
    ensures
        r@ == ascii_lower(s@),
{
    let mut out: Vec<char> = Vec::new();
    let mut i: usize = 0;
    while i < s.len()
        invariant
            i <= s.len(),
            out@ == ascii_lower(s@.subrange(0, i as int)),
        decreases s.len() - i,
    {
        out.push(lower_c(s[i]));
        assert(s@.subrange(0, i + 1) == s@.subrange(0, i as int).push(s@[i as int]));
        assert(ascii_lower(s@.subrange(0, i + 1)) =~= ascii_lower(s@.subrange(0, i as int)).push(
            lower_char(s@[i as int]),
        ));
        i += 1;
    }
    assert(s@.subrange(0, s.len() as int) == s@);
    out
}

pub fn upper_vec(s: &[char]) -> (r: Vec<char>)
    ensures
        r@ == ascii_upper(s@),
{
    let mut out: Vec<char> = Vec::new();
    let mut i: usize = 0;
    while i < s.len()
        invariant
            i <= s.len(),
            out@ == ascii_upper(s@.subrange(0, i as int)),
        decreases s.len() - i,
    {
        out.push(upper_c(s[i]));
        assert(s@.subrange(0, i + 1) == s@.subrange(0, i as int).push(s@[i as int]));
        assert(ascii_upper(s@.subrange(0, i + 1)) =~= ascii_upper(s@.subrange(0, i as int)).push(
            upper_char(s@[i as int]),
        ));
        i += 1;
    }
    assert(s@.subrange(0, s.len() as int) == s@);
    out
}

pub fn eq_ignore_case(a: &[char], b: &[char]) -> (r: bool)
    ensures
        r == eq_ic(a@, b@),
{
    let la = lower_vec(a);
    let lb = lower_vec(b);
    eq(&la, &lb)
}

// ------------------------------------------------------------ searching

/// `s` starts with `p`.
pub open spec fn starts_with(s: Seq<char>, p: Seq<char>) -> bool {
    p.len() <= s.len() && s.subrange(0, p.len() as int) == p
}

/// `s` ends with `p`.
pub open spec fn ends_with(s: Seq<char>, p: Seq<char>) -> bool {
    p.len() <= s.len() && s.subrange(s.len() - p.len(), s.len() as int) == p
}

/// `p` occurs in `s` at position `i`.
pub open spec fn occurs_at(s: Seq<char>, p: Seq<char>, i: int) -> bool {
    0 <= i && i + p.len() <= s.len() && s.subrange(i, i + p.len()) == p
}

/// `s` contains `p`, as `str::contains`.
pub open spec fn contains(s: Seq<char>, p: Seq<char>) -> bool {
    exists|i: int| occurs_at(s, p, i)
}

pub fn occurs_at_exec(s: &[char], p: &[char], i: usize) -> (r: bool)
    ensures
        r == occurs_at(s@, p@, i as int),
{
    if i > s.len() || p.len() > s.len() - i {
        return false;
    }
    let mut k: usize = 0;
    while k < p.len()
        invariant
            i + p.len() <= s.len(),
            k <= p.len(),
            forall|j: int| 0 <= j < k ==> s@[i + j] == p@[j],
        decreases p.len() - k,
    {
        if s[i + k] != p[k] {
            assert(s@.subrange(i as int, i + p.len())[k as int] != p@[k as int]);
            return false;
        }
        k += 1;
    }
    assert(s@.subrange(i as int, i + p.len()) =~= p@);
    true
}

pub fn starts_with_exec(s: &[char], p: &[char]) -> (r: bool)
    ensures
        r == starts_with(s@, p@),
{
    occurs_at_exec(s, p, 0)
}

pub fn ends_with_exec(s: &[char], p: &[char]) -> (r: bool)
    ensures
        r == ends_with(s@, p@),
{
    if p.len() > s.len() {
        return false;
    }
    occurs_at_exec(s, p, s.len() - p.len())
}

pub fn contains_exec(s: &[char], p: &[char]) -> (r: bool)
    ensures
        r == contains(s@, p@),
{
    if p.len() > s.len() {
        return false;
    }
    if p.len() == 0 {
        assert(occurs_at(s@, p@, 0)) by {
            assert(s@.subrange(0, 0) =~= p@);
        }
        return true;
    }
    let mut i: usize = 0;
    while i <= s.len() - p.len()
        invariant
            1 <= p.len() <= s.len(),
            i <= s.len() - p.len() + 1,
            forall|j: int| 0 <= j < i ==> !occurs_at(s@, p@, j),
        decreases s.len() - p.len() + 1 - i,
    {
        if occurs_at_exec(s, p, i) {
            return true;
        }
        i += 1;
    }
    assert forall|j: int| !occurs_at(s@, p@, j) by {
        if 0 <= j && j + p.len() <= s.len() {
            assert(j < i);
        }
    }
    false
}

pub fn contains_str(s: &[char], p: &str) -> (r: bool)
    ensures
        r == contains(s@, p@),
{
    let pv = chars_of(p);
    contains_exec(s, &pv)
}

pub fn starts_with_str(s: &[char], p: &str) -> (r: bool)
    ensures
        r == starts_with(s@, p@),
{
    let pv = chars_of(p);
    starts_with_exec(s, &pv)
}

pub fn ends_with_str(s: &[char], p: &str) -> (r: bool)
    ensures
        r == ends_with(s@, p@),
{
    let pv = chars_of(p);
    ends_with_exec(s, &pv)
}

/// Index of the first `c` in `s`, or `s.len()` when there is none.
pub open spec fn first_index(s: Seq<char>, c: char) -> int
    decreases s.len(),
{
    if s.len() == 0 {
        0
    } else if s[0] == c {
        0
    } else {
        1 + first_index(s.drop_first(), c)
    }
}

pub proof fn lemma_first_index(s: Seq<char>, c: char)
    ensures
        0 <= first_index(s, c) <= s.len(),
        forall|k: int| 0 <= k < first_index(s, c) ==> s[k] != c,
        first_index(s, c) < s.len() ==> s[first_index(s, c)] == c,
    decreases s.len(),
{
    if s.len() > 0 && s[0] != c {
        lemma_first_index(s.drop_first(), c);
        assert forall|k: int| 0 <= k < first_index(s, c) implies s[k] != c by {
            if k > 0 {
                assert(s[k] == s.drop_first()[k - 1]);
            }
        }
    }
}

pub proof fn lemma_first_index_unique(s: Seq<char>, c: char, i: int)
    requires
        0 <= i <= s.len(),
        forall|k: int| 0 <= k < i ==> s[k] != c,
        i < s.len() ==> s[i] == c,
    ensures
        first_index(s, c) == i,
    decreases s.len(),
{
    if s.len() > 0 && s[0] != c {
        lemma_first_index_unique(s.drop_first(), c, i - 1);
    }
}

/// Index of the first `c` in `s[from..]`, or `s.len()`.
pub fn find_char(s: &[char], from: usize, c: char) -> (r: usize)
    requires
        from <= s.len(),
    ensures
        from <= r <= s.len(),
        r - from == first_index(s@.subrange(from as int, s.len() as int), c),
        forall|k: int| from <= k < r ==> s@[k] != c,
        r < s.len() ==> s@[r as int] == c,
{
    let mut i = from;
    while i < s.len() && s[i] != c
        invariant
            from <= i <= s.len(),
            forall|k: int| from <= k < i ==> s@[k] != c,
        decreases s.len() - i,
    {
        i += 1;
    }
    proof {
        lemma_first_index_unique(s@.subrange(from as int, s.len() as int), c, i - from);
    }
    i
}

// ------------------------------------------------------------ lines

/// The lines of `s` as `str::lines` yields them, before trimming: split at
/// `'\n'`, with no empty piece after a final newline. (Every caller trims
/// each line, so a `'\r'` before the newline makes no difference.)
pub open spec fn lines(s: Seq<char>) -> Seq<Seq<char>>
    decreases s.len(),
{
    if s.len() == 0 {
        Seq::empty()
    } else {
        let i = first_index(s, '\n');
        proof {
            lemma_first_index(s, '\n');
        }
        if i >= s.len() {
            seq![s]
        } else {
            seq![s.subrange(0, i)] + lines(s.subrange(i + 1, s.len() as int))
        }
    }
}

/// The lines of `s[from..]`.
pub fn lines_from(s: &[char], from: usize) -> (r: Vec<Vec<char>>)
    requires
        from <= s.len(),
    ensures
        r@.len() == lines(s@.subrange(from as int, s.len() as int)).len(),
        forall|k: int| 0 <= k < r@.len() ==> #[trigger] r@[k]@ == lines(s@.subrange(from as int, s.len() as int))[k],
    decreases s.len() - from,
{
    let ghost rest = s@.subrange(from as int, s.len() as int);
    if from == s.len() {
        return Vec::new();
    }
    let i = find_char(s, from, '\n');
    let first = slice_vec(s, from, i);
    let mut out: Vec<Vec<char>> = Vec::new();
    out.push(first);
    proof {
        lemma_first_index(rest, '\n');
    }
    if i == s.len() {
        assert(rest.subrange(0, (i - from) as int) == first@);
        return out;
    }
    let tail = lines_from(s, i + 1);
    assert(rest.subrange((i - from + 1) as int, rest.len() as int) == s@.subrange(i + 1, s.len() as int));
    assert(rest.subrange(0, (i - from) as int) == first@);
    let mut t = tail;
    let ghost tl = t@;
    let mut k: usize = 0;
    let n = t.len();
    let mut rev_out: Vec<Vec<char>> = out;
    while k < n
        invariant
            n == tl.len(),
            k <= n,
            rev_out@.len() == 1 + k,
            rev_out@[0]@ == first@,
            forall|j: int| 1 <= j < 1 + k ==> #[trigger] rev_out@[j]@ == tl[j - 1]@,
            t@ == tl,
        decreases n - k,
    {
        let line = slice_vec(&t[k], 0, t[k].len());
        assert(t[k as int]@.subrange(0, t[k as int]@.len() as int) == t[k as int]@);
        rev_out.push(line);
        k += 1;
    }
    rev_out
}

/// `lines` on a whole slice.
pub fn lines_of(s: &[char]) -> (r: Vec<Vec<char>>)
    ensures
        r@.len() == lines(s@).len(),
        forall|k: int| 0 <= k < r@.len() ==> #[trigger] r@[k]@ == lines(s@)[k],
{
    assert(s@.subrange(0, s.len() as int) == s@);
    lines_from(s, 0)
}

// ------------------------------------------------------------ numbers

pub open spec fn is_digit(c: char) -> bool {
    '0' <= c && c <= '9'
}

pub open spec fn digit_val(c: char) -> nat {
    (c as nat - '0' as nat) as nat
}

pub open spec fn all_digits(s: Seq<char>) -> bool {
    forall|i: int| 0 <= i < s.len() ==> is_digit(#[trigger] s[i])
}

/// Value of a string of decimal digits.
pub open spec fn digits_value(s: Seq<char>) -> nat
    decreases s.len(),
{
    if s.len() == 0 {
        0
    } else {
        digits_value(s.drop_last()) * 10 + digit_val(s.last())
    }
}

/// What `str::parse` gives for an unsigned integer type whose largest value
/// is `max`: an optional `+`, then one or more decimal digits, within range.
pub open spec fn parse_uint(s: Seq<char>, max: nat) -> Option<nat> {
    let body = if s.len() > 0 && s[0] == '+' {
        s.drop_first()
    } else {
        s
    };
    if body.len() > 0 && all_digits(body) && digits_value(body) <= max {
        Some(digits_value(body))
    } else {
        None
    }
}

pub fn digit_of(c: char) -> (r: u64)
    requires
        is_digit(c),
    ensures
        r == digit_val(c),
        r < 10,
{
    (c as u32 - '0' as u32) as u64
}

/// A longer digit string never has a smaller value than its prefix.
pub proof fn lemma_prefix_value_le(s: Seq<char>, n: int)
    requires
        0 <= n <= s.len(),
    ensures
        all_digits(s) ==> digits_value(s.subrange(0, n)) <= digits_value(s),
    decreases s.len() - n,
{
    if n < s.len() && all_digits(s) {
        lemma_prefix_value_le(s.drop_last(), n);
        assert(s.drop_last().subrange(0, n) == s.subrange(0, n));
        assert(all_digits(s.drop_last()));
    } else if n == s.len() {
        assert(s.subrange(0, n) == s);
    }
}

/// `str::parse::<u64>` restricted by `max`, e.g. `u32::MAX` for `u32`.
pub fn parse_uint_exec(s: &[char], max: u64) -> (r: Option<u64>)
    ensures
        match parse_uint(s@, max as nat) {
            Some(v) => r == Some(v as u64),
            None => r is None,
        },
{
    let start: usize = if s.len() > 0 && s[0] == '+' {
        1
    } else {
        0
    };
    let ghost body = if s@.len() > 0 && s@[0] == '+' {
        s@.drop_first()
    } else {
        s@
    };
    assert(body == s@.subrange(start as int, s.len() as int));
    if start == s.len() {
        return None;
    }
    let mut acc: u64 = 0;
    let mut i = start;
    while i < s.len()
        invariant
            start <= i <= s.len(),
            start < s.len(),
            body == s@.subrange(start as int, s.len() as int),
            body == (if s@.len() > 0 && s@[0] == '+' {
                s@.drop_first()
            } else {
                s@
            }),
            all_digits(s@.subrange(start as int, i as int)),
            acc as nat == digits_value(s@.subrange(start as int, i as int)),
            acc <= max,
        decreases s.len() - i,
    {
        let c = s[i];
        let ghost pre = s@.subrange(start as int, i as int);
        assert(s@.subrange(start as int, i + 1).drop_last() == pre);
        if !('0' <= c && c <= '9') {
            assert(!all_digits(body)) by {
                assert(body[i - start] == c);
            }
            assert(parse_uint(s@, max as nat) is None);
            return None;
        }
        let d = digit_of(c);
        if d > max || acc > (max - d) / 10 {
            proof {
                assert(digits_value(s@.subrange(start as int, i + 1)) == acc * 10 + d);
                assert(acc * 10 + d > max) by (nonlinear_arith)
                    requires
                        d > max || acc > (max - d) / 10,
                        d <= 9,
                ;
                assert(body.subrange(0, i + 1 - start) == s@.subrange(start as int, i + 1));
                lemma_prefix_value_le(body, i + 1 - start);
                assert(parse_uint(s@, max as nat) is None);
            }
            return None;
        }
        proof {
            assert(acc * 10 + d <= max) by (nonlinear_arith)
                requires
                    acc <= (max - d) / 10,
                    d <= max,
            ;
        }
        acc = acc * 10 + d;
        assert(all_digits(s@.subrange(start as int, i + 1)));
        i += 1;
    }
    assert(s@.subrange(start as int, s.len() as int) == body);
    Some(acc)
}


/// The decimal digits of `n`, without leading zeros ("0" for zero).
pub open spec fn decimal(n: nat) -> Seq<char>
    decreases n,
{
    if n < 10 {
        seq![digit_char(n)]
    } else {
        decimal(n / 10).push(digit_char(n % 10))
    }
}

pub open spec fn digit_char(d: nat) -> char {
    (('0' as nat) + d) as char
}

/// `s` padded on the left with `c` up to `width` characters.
pub open spec fn pad_left(s: Seq<char>, width: nat, c: char) -> Seq<char> {
    if s.len() >= width {
        s
    } else {
        Seq::new((width - s.len()) as nat, |i: int| c) + s
    }
}

pub fn digit_c(d: u64) -> (r: char)
    requires
        d < 10,
    ensures
        r == digit_char(d as nat),
{
    proof {
        assert(('0' as nat) + d < 0xD800);
    }
    ((d as u8) + ('0' as u8)) as char
}

/// The decimal digits of `n`, as `format!("{}", n)`.
pub fn decimal_vec(n: u64) -> (r: Vec<char>)
    ensures
        r@ == decimal(n as nat),
    decreases n,
{
    if n < 10 {
        let mut v: Vec<char> = Vec::new();
        v.push(digit_c(n));
        v
    } else {
        let mut v = decimal_vec(n / 10);
        v.push(digit_c(n % 10));
        v
    }
}

/// `decimal(n)` padded with zeros to `width`, as `format!("{:0width$}", n)`.
pub fn decimal_padded(n: u64, width: usize) -> (r: Vec<char>)
    ensures
        r@ == pad_left(decimal(n as nat), width as nat, '0'),
{
    let d = decimal_vec(n);
    if d.len() >= width {
        return d;
    }
    let mut out: Vec<char> = Vec::new();
    let mut i: usize = 0;
    let k = width - d.len();
    while i < k
        invariant
            i <= k,
            out@ == Seq::new(i as nat, |j: int| '0'),
        decreases k - i,
    {
        out.push('0');
        assert(out@ =~= Seq::new((i + 1) as nat, |j: int| '0'));
        i += 1;
    }
    extend(&mut out, &d);
    out
}

pub proof fn lemma_decimal_ascii(n: nat)
    ensures
        decimal(n).len() >= 1,
        forall|i: int| 0 <= i < decimal(n).len() ==> is_digit(#[trigger] decimal(n)[i]),
    decreases n,
{
    if n >= 10 {
        lemma_decimal_ascii(n / 10);
    }
}

/// Reading back a number written in decimal gives the number.
pub proof fn lemma_decimal_value(n: nat)
    ensures
        digits_value(decimal(n)) == n,
    decreases n,
{
    let c = digit_char(n % 10);
    assert(c as nat == '0' as nat + n % 10);
    assert(digit_val(c) == n % 10);
    if n >= 10 {
        lemma_decimal_value(n / 10);
        let d = decimal(n / 10).push(c);
        assert(decimal(n) == d);
        assert(d.drop_last() =~= decimal(n / 10));
        assert(d.last() == c);
        assert(digits_value(d) == digits_value(decimal(n / 10)) * 10 + digit_val(c));
        assert((n / 10) * 10 + n % 10 == n);
    } else {
        assert(decimal(n) =~= seq![c]);
        assert(seq![c].drop_last() =~= Seq::<char>::empty());
        assert(digits_value(seq![c]) == digits_value(Seq::<char>::empty()) * 10 + digit_val(c));
    }
}

/// Leading zeros do not change a decimal number's value.
pub proof fn lemma_zeros_value(z: nat, s: Seq<char>)
    ensures
        digits_value(Seq::new(z, |i: int| '0') + s) == digits_value(s),
    decreases s.len(), z,
{
    let zs = Seq::new(z, |i: int| '0');
    if s.len() == 0 {
        assert(zs + s =~= zs);
        if z > 0 {
            let zt = Seq::new((z - 1) as nat, |i: int| '0');
            lemma_zeros_value((z - 1) as nat, s);
            assert(zs.drop_last() =~= zt + s);
        }
    } else {
        lemma_zeros_value(z, s.drop_last());
        assert((zs + s).drop_last() =~= zs + s.drop_last());
        assert((zs + s).last() == s.last());
    }
}

/// A text that neither starts nor ends with whitespace is its own trim.
pub proof fn lemma_trim_keeps(s: Seq<char>)
    requires
        s.len() > 0,
        !is_ws(s[0]),
        !is_ws(s.last()),
    ensures
        trim(s) == s,
{
}

// ------------------------------------------------------------ Unicode case

/// What `str::to_lowercase` gives for `s`: the Unicode lower-case mapping,
/// which takes the Unicode character database to state.
pub uninterp spec fn unicode_lower(s: Seq<char>) -> Seq<char>;

pub open spec fn is_ascii_seq(s: Seq<char>) -> bool {
    forall|i: int| 0 <= i < s.len() ==> (#[trigger] s[i] as u32) < 128
}

/// Unicode lower case of `s`.
///
/// Trusted: calls `str::to_lowercase`. Claimed: the result depends on `s`
/// alone, and on ASCII input it is the ASCII lower case (std documents the
/// mapping as Unicode's, which maps `A`..`Z` to `a`..`z` and leaves the other
/// ASCII characters alone).
#[verifier::external_body]
pub(crate) fn to_lowercase(s: &[char]) -> (r: Vec<char>)
    ensures
        r@ == unicode_lower(s@),
        is_ascii_seq(s@) ==> r@ == ascii_lower(s@),
{
    let st: String = s.iter().collect();
    st.to_lowercase().chars().collect()
}


/// What `str::to_lowercase` gives: ASCII lower case on ASCII text, the
/// Unicode mapping otherwise.
pub open spec fn lowered(s: Seq<char>) -> Seq<char> {
    if is_ascii_seq(s) {
        ascii_lower(s)
    } else {
        unicode_lower(s)
    }
}

// ------------------------------------------------------------ joining

/// `parts` joined with `sep`, as `[String]::join`.
pub open spec fn join(parts: Seq<Seq<char>>, sep: Seq<char>) -> Seq<char>
    decreases parts.len(),
{
    if parts.len() == 0 {
        Seq::empty()
    } else if parts.len() == 1 {
        parts[0]
    } else {
        join(parts.drop_last(), sep) + sep + parts.last()
    }
}

/// The views of a sequence of strings.
pub open spec fn views(v: Seq<String>) -> Seq<Seq<char>> {
    v.map_values(|s: String| s@)
}

/// `parts` joined with `sep`.
pub fn join_strings(parts: &Vec<String>, sep: &str) -> (r: Vec<char>)
    ensures
        r@ == join(views(parts@), sep@),
{
    let mut out: Vec<char> = Vec::new();
    let mut i: usize = 0;
    while i < parts.len()
        invariant
            i <= parts.len(),
            out@ == join(views(parts@).take(i as int), sep@),
        decreases parts.len() - i,
    {
        let ghost before = out@;
        if i > 0 {
            extend_str(&mut out, sep);
        }
        extend_str(&mut out, parts[i].as_str());
        proof {
            let vs = views(parts@);
            assert(vs.take(i + 1).drop_last() =~= vs.take(i as int));
            assert(vs.take(i + 1).last() == parts@[i as int]@);
            if i == 0 {
                assert(vs.take(1) =~= seq![parts@[0]@]);
            }
        }
        i += 1;
    }
    assert(views(parts@).take(parts.len() as int) =~= views(parts@));
    out
}


/// One more element of a prefix, through `Seq::filter`.
pub proof fn lemma_filter_take<A>(s: Seq<A>, pred: spec_fn(A) -> bool, i: int)
    requires
        0 <= i < s.len(),
    ensures
        s.take(i + 1).filter(pred) == (if pred(s[i]) {
            s.take(i).filter(pred).push(s[i])
        } else {
            s.take(i).filter(pred)
        }),
{
    reveal_with_fuel(Seq::filter, 1);
    assert(s.take(i + 1).drop_last() =~= s.take(i));
    assert(s.take(i + 1).last() == s[i]);
}


/// The results of `f` that are `Some`, in order (`Iterator::filter_map`).
pub open spec fn filter_map<A, B>(s: Seq<A>, f: spec_fn(A) -> Option<B>) -> Seq<B>
    decreases s.len(),
{
    if s.len() == 0 {
        Seq::empty()
    } else {
        let rest = filter_map(s.drop_last(), f);
        match f(s.last()) {
            Some(b) => rest.push(b),
            None => rest,
        }
    }
}

/// One more element of a prefix, through `filter_map`.
pub proof fn lemma_filter_map_take<A, B>(s: Seq<A>, f: spec_fn(A) -> Option<B>, i: int)
    requires
        0 <= i < s.len(),
    ensures
        filter_map(s.take(i + 1), f) == (match f(s[i]) {
            Some(b) => filter_map(s.take(i), f).push(b),
            None => filter_map(s.take(i), f),
        }),
{
    assert(s.take(i + 1).drop_last() =~= s.take(i));
    assert(s.take(i + 1).last() == s[i]);
}

pub proof fn lemma_take_full<A>(s: Seq<A>)
    ensures
        s.take(s.len() as int) == s,
{
    assert(s.take(s.len() as int) =~= s);
}

/// `filter_map` over a concatenation.
pub proof fn lemma_filter_map_add<A, B>(a: Seq<A>, b: Seq<A>, f: spec_fn(A) -> Option<B>)
    ensures
        filter_map(a + b, f) == filter_map(a, f) + filter_map(b, f),
    decreases b.len(),
{
    if b.len() == 0 {
        assert(a + b =~= a);
        assert(filter_map(b, f) =~= Seq::<B>::empty());
        assert(filter_map(a, f) + Seq::<B>::empty() =~= filter_map(a, f));
    } else {
        lemma_filter_map_add(a, b.drop_last(), f);
        assert((a + b).drop_last() =~= a + b.drop_last());
        assert((a + b).last() == b.last());
        match f(b.last()) {
            Some(x) => {
                assert(filter_map(a, f) + filter_map(b, f) =~= (filter_map(a, f) + filter_map(
                    b.drop_last(),
                    f,
                )).push(x));
            },
            None => {},
        }
    }
}

/// No two elements are the same.
pub open spec fn distinct_seq(s: Seq<Seq<char>>) -> bool {
    forall|i: int, j: int| 0 <= i < j < s.len() ==> s[i] != s[j]
}

/// The views of a sequence of character vectors.
pub open spec fn vviews(v: Seq<Vec<char>>) -> Seq<Seq<char>> {
    v.map_values(|s: Vec<char>| s@)
}

/// A copy of `s`.
pub fn copy_string(s: &String) -> (r: String)
    ensures
        r@ == s@,
{
    let v = chars_of(s.as_str());
    string_of(&v)
}

/// `s` as an owned string.
pub fn owned(s: &str) -> (r: String)
    ensures
        r@ == s@,
{
    let v = chars_of(s);
    string_of(&v)
}

/// Whether `s` is one of `list`.
pub fn one_of(s: &[char], list: &[&str]) -> (r: bool)
    ensures
        r == exists|i: int| 0 <= i < list@.len() && (#[trigger] list@[i])@ == s@,
{
    let mut i: usize = 0;
    while i < list.len()
        invariant
            i <= list.len(),
            forall|k: int| 0 <= k < i ==> (#[trigger] list@[k])@ != s@,
        decreases list.len() - i,
    {
        let c = chars_of(list[i]);
        if eq(&c, s) {
            return true;
        }
        i += 1;
    }
    false
}

/// Whether `s` equals one of `list`, ignoring ASCII case.
pub fn one_of_ic(s: &[char], list: &[&str]) -> (r: bool)
    ensures
        r == exists|i: int| 0 <= i < list@.len() && eq_ic(s@, (#[trigger] list@[i])@),
{
    let mut i: usize = 0;
    while i < list.len()
        invariant
            i <= list.len(),
            forall|k: int| 0 <= k < i ==> !eq_ic(s@, (#[trigger] list@[k])@),
        decreases list.len() - i,
    {
        let c = chars_of(list[i]);
        if eq_ignore_case(s, &c) {
            return true;
        }
        i += 1;
    }
    false
}

// ------------------------------------------------------------ facts on lines, joins and trimming

/// No character of `s` is `c`.
pub open spec fn free_of(s: Seq<char>, c: char) -> bool {
    forall|i: int| 0 <= i < s.len() ==> s[i] != c
}

/// The lines of a text hold no newline; a non-empty text has lines, and
/// its last line is non-empty unless the text ends with a newline.
pub proof fn lemma_lines_parts(s: Seq<char>)
    ensures
        forall|k: int| 0 <= k < lines(s).len() ==> free_of(#[trigger] lines(s)[k], '\n'),
        s.len() > 0 ==> lines(s).len() > 0,
        s.len() > 0 && s.last() != '\n' ==> lines(s).last().len() > 0,
    decreases s.len(),
{
    if s.len() > 0 {
        let i = first_index(s, '\n');
        lemma_first_index(s, '\n');
        if i >= s.len() {
            assert(lines(s) == seq![s]);
        } else {
            let head = s.subrange(0, i);
            let rest = s.subrange(i + 1, s.len() as int);
            lemma_lines_parts(rest);
            assert(lines(s) == seq![head] + lines(rest));
            assert forall|k: int| 0 <= k < lines(s).len() implies free_of(
                #[trigger] lines(s)[k],
                '\n',
            ) by {
                if k > 0 {
                    assert(lines(s)[k] == lines(rest)[k - 1]);
                }
            }
            if s.last() != '\n' {
                assert(rest.len() > 0);
                assert(rest.last() == s.last());
                assert(lines(s).last() == lines(rest).last());
            }
        }
    }
}

/// A line without newline, a newline, then the rest: that line, then the
/// lines of the rest.
pub proof fn lemma_lines_cons(a: Seq<char>, b: Seq<char>)
    requires
        free_of(a, '\n'),
    ensures
        lines(a + seq!['\n'] + b) == seq![a] + lines(b),
{
    let s = a + seq!['\n'] + b;
    lemma_first_index_unique(s, '\n', a.len() as int);
    assert(s.subrange(0, a.len() as int) =~= a);
    assert(s.subrange(a.len() + 1 as int, s.len() as int) =~= b);
}

/// A non-empty text without newline is one line.
pub proof fn lemma_lines_single(a: Seq<char>)
    requires
        a.len() > 0,
        free_of(a, '\n'),
    ensures
        lines(a) == seq![a],
{
    lemma_first_index_unique(a, '\n', a.len() as int);
}

/// A join of two parts or more is its first part, the separator, and the
/// join of the others.
pub proof fn lemma_join_front(ps: Seq<Seq<char>>, sep: Seq<char>)
    requires
        ps.len() >= 2,
    ensures
        join(ps, sep) == ps[0] + sep + join(ps.drop_first(), sep),
    decreases ps.len(),
{
    if ps.len() == 2 {
        assert(ps.drop_last().len() == 1);
        assert(ps.drop_first().len() == 1);
        assert(join(ps.drop_first(), sep) == ps[1]);
        assert(join(ps.drop_last(), sep) == ps[0]);
        assert(join(ps, sep) =~= ps[0] + sep + join(ps.drop_first(), sep));
    } else {
        let init = ps.drop_last();
        lemma_join_front(init, sep);
        assert(init.drop_first() =~= ps.drop_first().drop_last());
        assert(ps.drop_first().last() == ps.last());
        assert(join(ps.drop_first(), sep) == join(ps.drop_first().drop_last(), sep) + sep
            + ps.last());
        assert(join(ps, sep) =~= ps[0] + sep + join(ps.drop_first(), sep));
    }
}

/// Lines without newlines, joined with newlines (and one more newline when
/// `nl`), read back as the same lines; without the final newline the last
/// line must be non-empty.
pub proof fn lemma_lines_join(ps: Seq<Seq<char>>, nl: bool)
    requires
        ps.len() > 0,
        forall|k: int| 0 <= k < ps.len() ==> free_of(#[trigger] ps[k], '\n'),
        nl || ps.last().len() > 0,
    ensures
        lines(join(ps, seq!['\n']) + (if nl {
            seq!['\n']
        } else {
            Seq::empty()
        })) == ps,
    decreases ps.len(),
{
    let suf: Seq<char> = if nl {
        seq!['\n']
    } else {
        Seq::empty()
    };
    assert(free_of(ps[0], '\n'));
    if ps.len() == 1 {
        if nl {
            lemma_lines_cons(ps[0], Seq::empty());
            assert(join(ps, seq!['\n']) + suf =~= ps[0] + seq!['\n'] + Seq::<char>::empty());
            assert(lines(Seq::<char>::empty()) == Seq::<Seq<char>>::empty());
        } else {
            lemma_lines_single(ps[0]);
            assert(join(ps, seq!['\n']) + suf =~= ps[0]);
        }
        assert(seq![ps[0]] =~= ps);
    } else {
        let rest = ps.drop_first();
        lemma_join_front(ps, seq!['\n']);
        assert forall|k: int| 0 <= k < rest.len() implies free_of(#[trigger] rest[k], '\n') by {
            assert(rest[k] == ps[k + 1]);
        }
        assert(rest.last() == ps.last());
        lemma_lines_join(rest, nl);
        let tail = join(rest, seq!['\n']) + suf;
        assert(join(ps, seq!['\n']) + suf =~= ps[0] + seq!['\n'] + tail);
        lemma_lines_cons(ps[0], tail);
        assert(seq![ps[0]] + rest =~= ps);
    }
}

/// Trimming the start keeps a text free of `c`.
pub proof fn lemma_trim_start_free(s: Seq<char>, c: char)
    requires
        free_of(s, c),
    ensures
        free_of(trim_start(s), c),
    decreases s.len(),
{
    if s.len() > 0 && is_ws(s[0]) {
        assert forall|i: int| 0 <= i < s.drop_first().len() implies s.drop_first()[i] != c by {
            assert(s.drop_first()[i] == s[i + 1]);
        }
        lemma_trim_start_free(s.drop_first(), c);
    }
}

/// Trimming the end keeps a prefix of the text.
pub proof fn lemma_trim_end_prefix(s: Seq<char>)
    ensures
        trim_end(s).len() <= s.len(),
        forall|i: int| 0 <= i < trim_end(s).len() ==> trim_end(s)[i] == s[i],
    decreases s.len(),
{
    if s.len() > 0 && is_ws(s.last()) {
        lemma_trim_end_prefix(s.drop_last());
        assert forall|i: int| 0 <= i < trim_end(s).len() implies trim_end(s)[i] == s[i] by {
            assert(s.drop_last()[i] == s[i]);
        }
    }
}

/// A non-empty text trimmed at the start begins with a non-whitespace
/// character.
pub proof fn lemma_trim_start_head(s: Seq<char>)
    ensures
        trim_start(s).len() > 0 ==> !is_ws(trim_start(s)[0]),
    decreases s.len(),
{
    if s.len() > 0 && is_ws(s[0]) {
        lemma_trim_start_head(s.drop_first());
    }
}

/// A trimmed text holds no `c` when the text holds none; when non-empty it
/// begins with a non-whitespace character.
pub proof fn lemma_trim_facts(s: Seq<char>, c: char)
    ensures
        free_of(s, c) ==> free_of(trim(s), c),
        trim(s).len() > 0 ==> !is_ws(trim(s)[0]),
{
    let ts = trim_start(s);
    lemma_trim_end_prefix(ts);
    lemma_trim_start_head(s);
    if free_of(s, c) {
        lemma_trim_start_free(s, c);
        assert forall|i: int| 0 <= i < trim(s).len() implies trim(s)[i] != c by {
            assert(trim(s)[i] == ts[i]);
        }
    }
    if trim(s).len() > 0 {
        assert(trim(s)[0] == ts[0]);
    }
}

/// Trailing whitespace after a non-whitespace character is all that
/// trimming the end of `x + v` removes, and it comes from `v`.
pub proof fn lemma_trim_end_append(x: Seq<char>, v: Seq<char>)
    requires
        x.len() > 0,
        !is_ws(x.last()),
    ensures
        trim_end(x + v) == x + trim_end(v),
    decreases v.len(),
{
    if v.len() == 0 {
        assert(x + v =~= x);
        assert(x + trim_end(v) =~= x);
    } else if is_ws(v.last()) {
        assert((x + v).drop_last() =~= x + v.drop_last());
        lemma_trim_end_append(x, v.drop_last());
    } else {
        assert((x + v).last() == v.last());
    }
}

/// A trailing whitespace character does not change a trimmed text.
pub proof fn lemma_trim_drop_ws_last(v: Seq<char>)
    requires
        v.len() > 0,
        is_ws(v.last()),
    ensures
        trim(v) == trim(v.drop_last()),
    decreases v.len(),
{
    if v.len() == 1 {
        assert(trim_start(v) == trim_start(v.drop_first()));
        assert(v.drop_first().len() == 0);
        assert(v.drop_last().len() == 0);
    } else if is_ws(v[0]) {
        let d = v.drop_first();
        assert(d.last() == v.last());
        lemma_trim_drop_ws_last(d);
        assert(v.drop_last()[0] == v[0]);
        assert(v.drop_last().drop_first() =~= d.drop_last());
        assert(trim_start(v.drop_last()) == trim_start(d.drop_last()));
    } else {
        assert(v.drop_last()[0] == v[0]);
        assert(trim_start(v) == v);
        assert(trim_start(v.drop_last()) == v.drop_last());
    }
}

/// Trimming the end first changes nothing of a trimmed text.
pub proof fn lemma_trim_trim_end(v: Seq<char>)
    ensures
        trim(trim_end(v)) == trim(v),
    decreases v.len(),
{
    if v.len() > 0 && is_ws(v.last()) {
        lemma_trim_trim_end(v.drop_last());
        lemma_trim_drop_ws_last(v);
    }
}

} // verus!
