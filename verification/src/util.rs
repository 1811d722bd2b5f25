//! Hashes and hex, the stable key of a game directory, UTC time stamps and
//! human-readable sizes.

use vstd::prelude::*;
use crate::text;
use sha1::Sha1;
use sha2::Digest;
use sha2::Sha256;

verus! {

// ------------------------------------------------------------ hex

pub open spec fn hex_digit(v: nat) -> char {
    if v < 10 {
        (('0' as nat) + v) as char
    } else {
        (('a' as nat) + v - 10) as char
    }
}

/// Lower-case hexadecimal, two characters per byte.
pub open spec fn hex(b: Seq<u8>) -> Seq<char>
    decreases b.len(),
{
    if b.len() == 0 {
        Seq::empty()
    } else {
        hex(b.drop_last()) + seq![
            hex_digit((b.last() / 16) as nat),
            hex_digit((b.last() % 16) as nat),
        ]
    }
}

pub proof fn lemma_hex_len(b: Seq<u8>)
    ensures
        hex(b).len() == 2 * b.len(),
    decreases b.len(),
{
    if b.len() > 0 {
        lemma_hex_len(b.drop_last());
    }
}

fn hex_c(v: u8) -> (r: char)
    requires
        v < 16,
    ensures
        r == hex_digit(v as nat),
{
    if v < 10 {
        (v + ('0' as u8)) as char
    } else {
        (v - 10 + ('a' as u8)) as char
    }
}

fn hex_vec(bytes: &[u8]) -> (r: Vec<char>)
    ensures
        r@ == hex(bytes@),
{
    let mut out: Vec<char> = Vec::new();
    let mut i: usize = 0;
    while i < bytes.len()
        invariant
            i <= bytes.len(),
            out@ == hex(bytes@.subrange(0, i as int)),
        decreases bytes.len() - i,
    {
        let b = bytes[i];
        out.push(hex_c(b / 16));
        out.push(hex_c(b % 16));
        proof {
            assert(bytes@.subrange(0, i + 1).drop_last() == bytes@.subrange(0, i as int));
        }
        i += 1;
    }
    assert(bytes@.subrange(0, bytes.len() as int) == bytes@);
    out
}

/// Lower-case hexadecimal of `bytes`.
pub fn to_hex(bytes: &[u8]) -> (r: String)
    ensures
        r@ == hex(bytes@),
{
    let v = hex_vec(bytes);
    text::string_of(&v)
}

// ------------------------------------------------------------ hashes

/// The SHA-256 digest of a byte sequence, as the `sha2` crate computes it.
pub uninterp spec fn sha256_of(data: Seq<u8>) -> Seq<u8>;

/// The SHA-1 digest of a byte sequence, as the `sha1` crate computes it.
pub uninterp spec fn sha1_of(data: Seq<u8>) -> Seq<u8>;

/// SHA-256 of `data`.
///
/// Trusted: calls `<Sha256 as Digest>::digest` of the `sha2` crate. Claimed:
/// the digest is a function of the input bytes and is 32 bytes long.
#[verifier::external_body]
fn sha256_digest(data: &[u8]) -> (r: Vec<u8>)
    ensures
        r@ == sha256_of(data@),
        r@.len() == 32,
{
    Sha256::digest(data).to_vec()
}

/// SHA-1 of `data`.
///
/// Trusted: calls `<Sha1 as Digest>::digest` of the `sha1` crate. Claimed:
/// the digest is a function of the input bytes and is 20 bytes long.
#[verifier::external_body]
fn sha1_digest(data: &[u8]) -> (r: Vec<u8>)
    ensures
        r@ == sha1_of(data@),
        r@.len() == 20,
{
    Sha1::digest(data).to_vec()
}

/// The lower-case hex SHA-256 of `data`.
pub open spec fn sha256_hex_of(data: Seq<u8>) -> Seq<char> {
    hex(sha256_of(data))
}

/// Lower-case hex SHA-256 of `data` (64 characters).
pub fn sha256_hex(data: &[u8]) -> (r: String)
    ensures
        r@ == sha256_hex_of(data@),
        r@.len() == 64,
{
    let d = sha256_digest(data);
    proof {
        lemma_hex_len(d@);
    }
    to_hex(&d)
}

/// The bytes git hashes before the content of a blob: `"blob <len>\0"`.
pub open spec fn blob_header(len: nat) -> Seq<u8> {
    "blob "@.map_values(|c: char| c as u8) + text::decimal(len).map_values(|c: char| c as u8)
        + seq![0u8]
}

/// The git blob id of `data`: SHA-1 over the blob header and the content.
pub open spec fn git_blob_sha1_of(data: Seq<u8>) -> Seq<char> {
    hex(sha1_of(blob_header(data.len()) + data))
}

fn ascii_bytes(s: &[char]) -> (r: Vec<u8>)
    ensures
        r@ == s@.map_values(|c: char| c as u8),
{
    let mut out: Vec<u8> = Vec::new();
    let mut i: usize = 0;
    while i < s.len()
        invariant
            i <= s.len(),
            out@ == s@.subrange(0, i as int).map_values(|c: char| c as u8),
        decreases s.len() - i,
    {
        out.push(s[i] as u8);
        assert(s@.subrange(0, i + 1).map_values(|c: char| c as u8) =~= s@.subrange(
            0,
            i as int,
        ).map_values(|c: char| c as u8).push(s@[i as int] as u8));
        i += 1;
    }
    assert(s@.subrange(0, s.len() as int) == s@);
    out
}

/// The git blob id of `data`, lower-case hex.
pub fn git_blob_sha1(data: &[u8]) -> (r: String)
    ensures
        r@ == git_blob_sha1_of(data@),
{
    let head = text::chars_of("blob ");
    let mut buf = ascii_bytes(&head);
    let n = text::decimal_vec(data.len() as u64);
    let nb = ascii_bytes(&n);
    let mut i: usize = 0;
    let ghost b0 = buf@;
    while i < nb.len()
        invariant
            i <= nb.len(),
            buf@ == b0 + nb@.subrange(0, i as int),
        decreases nb.len() - i,
    {
        buf.push(nb[i]);
        assert(nb@.subrange(0, i + 1) == nb@.subrange(0, i as int).push(nb@[i as int]));
        i += 1;
    }
    buf.push(0u8);
    let ghost b1 = buf@;
    let mut j: usize = 0;
    while j < data.len()
        invariant
            j <= data.len(),
            buf@ == b1 + data@.subrange(0, j as int),
        decreases data.len() - j,
    {
        buf.push(data[j]);
        assert(data@.subrange(0, j + 1) == data@.subrange(0, j as int).push(data@[j as int]));
        j += 1;
    }
    assert(nb@.subrange(0, nb.len() as int) == nb@);
    assert(data@.subrange(0, data.len() as int) == data@);
    assert(buf@ =~= blob_header(data@.len()) + data@);
    let d = sha1_digest(&buf);
    to_hex(&d)
}


// ------------------------------------------------------------ directory key

/// `s` with every `from` replaced by `to`.
pub open spec fn replace_char(s: Seq<char>, from: char, to: char) -> Seq<char> {
    s.map_values(|c: char| if c == from { to } else { c })
}

/// `s` without trailing `c`s, as `str::trim_end_matches(c)`.
pub open spec fn trim_end_char(s: Seq<char>, c: char) -> Seq<char>
    decreases s.len(),
{
    if s.len() > 0 && s.last() == c {
        trim_end_char(s.drop_last(), c)
    } else {
        s
    }
}

/// The stable key of a directory: separators unified to `\`, trailing
/// separators dropped, lower-cased, then the first 16 hex digits of the
/// SHA-256 of its UTF-8 bytes.
pub open spec fn dir_key_of(dir: Seq<char>) -> Seq<char> {
    sha256_hex_of(
        vstd::utf8::encode_utf8(
            text::lowered(trim_end_char(replace_char(dir, '/', '\\'), '\\')),
        ),
    ).take(16)
}

pub fn replace_vec(s: &[char], from: char, to: char) -> (r: Vec<char>)
    ensures
        r@ == replace_char(s@, from, to),
{
    let mut out: Vec<char> = Vec::new();
    let mut i: usize = 0;
    while i < s.len()
        invariant
            i <= s.len(),
            out@ == replace_char(s@.take(i as int), from, to),
        decreases s.len() - i,
    {
        out.push(if s[i] == from { to } else { s[i] });
        assert(replace_char(s@.take(i + 1), from, to) =~= replace_char(s@.take(i as int), from, to).push(
            if s@[i as int] == from { to } else { s@[i as int] },
        ));
        i += 1;
    }
    assert(s@.take(s.len() as int) =~= s@);
    out
}

pub fn trim_end_vec(s: &[char], c: char) -> (r: Vec<char>)
    ensures
        r@ == trim_end_char(s@, c),
{
    let mut n = s.len();
    assert(s@.take(s.len() as int) =~= s@);
    while n > 0 && s[n - 1] == c
        invariant
            n <= s.len(),
            trim_end_char(s@, c) == trim_end_char(s@.take(n as int), c),
        decreases n,
    {
        assert(s@.take(n as int).drop_last() =~= s@.take(n - 1));
        n -= 1;
    }
    assert(s@.take(s.len() as int) =~= s@);
    text::slice_vec(s, 0, n)
}

/// The stable key of a directory (see [`dir_key_of`]).
pub fn dir_key(dir: &str) -> (r: String)
    ensures
        r@ == dir_key_of(dir@),
{
    let v = text::chars_of(dir);
    let a = replace_vec(&v, '/', '\\');
    let b = trim_end_vec(&a, '\\');
    let c = text::to_lowercase(&b);
    let st = text::string_of(&c);
    let bytes = st.as_str().as_bytes();
    let h = sha256_hex(bytes);
    let hv = text::chars_of(h.as_str());
    let k = text::slice_vec(&hv, 0, 16);
    assert(k@ =~= hv@.take(16));
    text::string_of(&k)
}

/// A directory's text as its key sees it: separators unified to `\`,
/// trailing separators dropped, ASCII letters lower-cased.
pub open spec fn dir_normal(dir: Seq<char>) -> Seq<char> {
    text::ascii_lower(trim_end_char(replace_char(dir, '/', '\\'), '\\'))
}

proof fn lemma_trim_end_char_prefix(s: Seq<char>, c: char)
    ensures
        trim_end_char(s, c).len() <= s.len(),
        forall|i: int| 0 <= i < trim_end_char(s, c).len() ==> trim_end_char(s, c)[i] == s[i],
    decreases s.len(),
{
    if s.len() > 0 && s.last() == c {
        lemma_trim_end_char_prefix(s.drop_last(), c);
        assert forall|i: int| 0 <= i < trim_end_char(s, c).len() implies trim_end_char(s, c)[i] == s[i] by {
            assert(s.drop_last()[i] == s[i]);
        }
    }
}

proof fn lemma_key_text_ascii(dir: Seq<char>)
    requires
        text::is_ascii_seq(dir),
    ensures
        text::lowered(trim_end_char(replace_char(dir, '/', '\\'), '\\')) == dir_normal(dir),
{
    let r = replace_char(dir, '/', '\\');
    let x = trim_end_char(r, '\\');
    lemma_trim_end_char_prefix(r, '\\');
    assert forall|i: int| 0 <= i < x.len() implies (#[trigger] x[i] as u32) < 128 by {
        assert(x[i] == r[i]);
        assert((dir[i] as u32) < 128);
    }
}

/// Two ASCII spellings of a directory that differ only in letter case, in
/// `/` against `\`, and in trailing separators have the same key.
pub proof fn law_dir_key_ignores_case_and_separators(a: Seq<char>, b: Seq<char>)
    requires
        text::is_ascii_seq(a),
        text::is_ascii_seq(b),
        dir_normal(a) == dir_normal(b),
    ensures
        dir_key_of(a) == dir_key_of(b),
{
    lemma_key_text_ascii(a);
    lemma_key_text_ascii(b);
}

// ------------------------------------------------------------ paths and numbers

/// `name` inside `dir`, as `Path::join` writes it on Windows: a `\` goes
/// between them unless `dir` is empty or already ends with a separator.
pub open spec fn join_path(dir: Seq<char>, name: Seq<char>) -> Seq<char> {
    if dir.len() == 0 {
        name
    } else if dir.last() == '\\' || dir.last() == '/' {
        dir + name
    } else {
        dir + seq!['\\'] + name
    }
}

/// `name` inside `dir` (see [`join_path`]).
pub fn join_path_str(dir: &str, name: &str) -> (r: String)
    ensures
        r@ == join_path(dir@, name@),
{
    let mut v = text::chars_of(dir);
    let n = v.len();
    if n > 0 && !(v[n - 1] == '\\' || v[n - 1] == '/') {
        v.push('\\');
    }
    let ghost d = v@;
    text::extend_str(&mut v, name);
    proof {
        if dir@.len() == 0 {
            assert(v@ =~= name@);
        }
    }
    text::string_of(&v)
}

pub open spec fn hex_upper_digit(v: nat) -> char {
    if v < 10 {
        (('0' as nat) + v) as char
    } else {
        (('A' as nat) + v - 10) as char
    }
}

/// `n` in upper-case hexadecimal without leading zeros, as `{:X}`.
pub open spec fn hex_upper(n: nat) -> Seq<char>
    decreases n,
{
    if n < 16 {
        seq![hex_upper_digit(n)]
    } else {
        hex_upper(n / 16) + seq![hex_upper_digit(n % 16)]
    }
}

/// `n` in upper-case hexadecimal (see [`hex_upper`]).
pub fn hex_upper_vec(n: u32) -> (r: Vec<char>)
    ensures
        r@ == hex_upper(n as nat),
    decreases n,
{
    let d = n % 16;
    let c = if d < 10 {
        ((d as u8) + ('0' as u8)) as char
    } else {
        ((d as u8) - 10 + ('A' as u8)) as char
    };
    if n < 16 {
        let mut v: Vec<char> = Vec::new();
        v.push(c);
        v
    } else {
        let mut v = hex_upper_vec(n / 16);
        v.push(c);
        v
    }
}

// ------------------------------------------------------------ UTC time

/// Division truncating toward zero, as Rust's `/` on signed integers.
pub open spec fn tdiv(a: int, b: int) -> int {
    if a >= 0 {
        a / b
    } else {
        -((-a) / b)
    }
}

/// The civil date (year, month, day) of a day number counted from
/// 1970-01-01, by Howard Hinnant's `civil_from_days`: days are shifted to
/// an epoch of 0000-03-01, split into 400-year eras of 146097 days, and the
/// day of the era is turned into year, day of year and month with March
/// first.
pub open spec fn civil_of(z: int) -> (int, int, int) {
    let z2 = z + 719468;
    let era = tdiv(if z2 >= 0 {
        z2
    } else {
        z2 - 146096
    }, 146097);
    let doe = z2 - era * 146097;
    let yoe = tdiv(doe - tdiv(doe, 1460) + tdiv(doe, 36524) - tdiv(doe, 146096), 365);
    let y = yoe + era * 400;
    let doy = doe - (365 * yoe + tdiv(yoe, 4) - tdiv(yoe, 100));
    let mp = tdiv(5 * doy + 2, 153);
    let d = doy - tdiv(153 * mp + 2, 5) + 1;
    let m = if mp < 10 {
        mp + 3
    } else {
        mp - 9
    };
    (if m <= 2 {
        y + 1
    } else {
        y
    }, m, d)
}

/// The civil date of a day number counted from 1970-01-01; the month and
/// the day are always those of a real date.
pub fn civil_from_days(z: i64) -> (r: (i64, u32, u32))
    requires
        z + 719468 <= i64::MAX,
    ensures
        r.0 == civil_of(z as int).0 as i64,
        r.1 == civil_of(z as int).1 as u32,
        r.2 == civil_of(z as int).2 as u32,
        1 <= r.1 <= 12,
        1 <= r.2 <= 31,
{
    proof {
        law_dates_are_real(z as int);
    }
    let z2: i128 = z as i128 + 719468;
    let num: i128 = if z2 >= 0 {
        z2
    } else {
        z2 - 146096
    };
    let era: i128 = num / 146097;
    let doe: i128 = z2 - era * 146097;
    let yoe: i128 = (doe - doe / 1460 + doe / 36524 - doe / 146096) / 365;
    let y: i128 = yoe + era * 400;
    let doy: i128 = doe - (365 * yoe + yoe / 4 - yoe / 100);
    let mp: i128 = (5 * doy + 2) / 153;
    let d: i128 = doy - (153 * mp + 2) / 5 + 1;
    let m: i128 = if mp < 10 {
        mp + 3
    } else {
        mp - 9
    };
    let yy: i128 = if m <= 2 {
        y + 1
    } else {
        y
    };
    #[verifier::truncate]
    let ry = yy as i64;
    #[verifier::truncate]
    let rm = m as u32;
    #[verifier::truncate]
    let rd = d as u32;
    (ry, rm, rd)
}

/// The year of the era of a day of the era.
pub open spec fn yoe_of(doe: u32) -> u32 {
    ((doe - doe / 1460u32 + doe / 36524u32 - doe / 146096u32) as u32) / 365u32
}

/// The day of the year (from March 1st) of a day of the era.
pub open spec fn doy_of(doe: u32) -> u32 {
    (doe - (365u32 * yoe_of(doe) + yoe_of(doe) / 4u32 - yoe_of(doe) / 100u32)) as u32
}

/// The month index (0 for March) of a day of the year.
pub open spec fn mp_of(doy: u32) -> u32 {
    ((5u32 * doy + 2u32) as u32) / 153u32
}

/// Within an era, a day of the era gives a year of the era up to 399 and
/// a day of the year up to 365.
#[verifier::rlimit(100)]
proof fn lemma_day_of_era(doe: u32)
    by (bit_vector)
    requires
        doe < 146097u32,
    ensures
        doe - doe / 1460u32 + doe / 36524u32 - doe / 146096u32 >= 0,
        doe - doe / 1460u32 + doe / 36524u32 - doe / 146096u32 < 146097,
        yoe_of(doe) <= 399u32,
        doe - (365u32 * yoe_of(doe) + yoe_of(doe) / 4u32 - yoe_of(doe) / 100u32) >= 0,
        doe - (365u32 * yoe_of(doe) + yoe_of(doe) / 4u32 - yoe_of(doe) / 100u32) <= 365,
{
}

/// A day of the year gives a month index up to 11 and a day 1 to 31.
proof fn lemma_day_of_year(doy: u32)
    by (bit_vector)
    requires
        doy <= 365u32,
    ensures
        mp_of(doy) <= 11u32,
        doy - ((153u32 * mp_of(doy) + 2u32) as u32) / 5u32 + 1 >= 1,
        doy - ((153u32 * mp_of(doy) + 2u32) as u32) / 5u32 + 1 <= 31,
{
}

/// The era of a day number (400 years, from March 1st of a year divisible
/// by 400) and the day of that era.
pub open spec fn era_of(z: int) -> int {
    let z2 = z + 719468;
    tdiv(if z2 >= 0 {
        z2
    } else {
        z2 - 146096
    }, 146097)
}

/// The date of day `doe` of era `era`, read through the day-of-era
/// formulas.
pub open spec fn civil_parts(era: int, doe: u32) -> (int, int, int) {
    let yoe = yoe_of(doe);
    let doy = doy_of(doe);
    let mp = mp_of(doy);
    let m: int = if mp < 10 {
        mp + 3
    } else {
        mp - 9
    };
    (yoe + era * 400 + (if m <= 2 {
        1int
    } else {
        0
    }), m, dom_of(doy) as int)
}

proof fn lemma_civil_parts(z: int)
    ensures
        0 <= z + 719468 - era_of(z) * 146097 < 146097,
        civil_of(z) == civil_parts(era_of(z), (z + 719468 - era_of(z) * 146097) as u32),
{
    let z2 = z + 719468;
    let num = if z2 >= 0 {
        z2
    } else {
        z2 - 146096
    };
    let era = tdiv(num, 146097);
    let doe = z2 - era * 146097;
    if z2 >= 0 {
        vstd::arithmetic::div_mod::lemma_fundamental_div_mod(z2, 146097);
        vstd::arithmetic::div_mod::lemma_mod_bound(z2, 146097);
        assert(era == z2 / 146097);
    } else {
        let a = -num;
        vstd::arithmetic::div_mod::lemma_fundamental_div_mod(a, 146097);
        vstd::arithmetic::div_mod::lemma_mod_bound(a, 146097);
        assert(era == -(a / 146097));
        assert(doe == 146096 - a % 146097);
    }
    assert(0 <= doe < 146097);
    let d32 = doe as u32;
    lemma_day_of_era(d32);
    let t = doe - doe / 1460 + doe / 36524 - doe / 146096;
    assert(tdiv(doe, 1460) == doe / 1460);
    assert(tdiv(doe, 36524) == doe / 36524);
    assert(tdiv(doe, 146096) == doe / 146096);
    assert(t == d32 - d32 / 1460u32 + d32 / 36524u32 - d32 / 146096u32);
    assert(0 <= t < 146097);
    let yoe = tdiv(t, 365);
    assert(yoe == yoe_of(d32));
    assert(0 <= yoe <= 399);
    let doy = doe - (365 * yoe + tdiv(yoe, 4) - tdiv(yoe, 100));
    assert(doy == d32 - (365u32 * yoe_of(d32) + yoe_of(d32) / 4u32 - yoe_of(d32) / 100u32));
    assert(0 <= doy <= 365);
    assert(doy == doy_of(d32));
    let y32 = doy as u32;
    lemma_day_of_year(y32);
    let mp = tdiv(5 * doy + 2, 153);
    assert(mp == mp_of(y32));
    let d = doy - tdiv(153 * mp + 2, 5) + 1;
    assert(d == y32 - ((153u32 * mp_of(y32) + 2u32) as u32) / 5u32 + 1);
    assert(civil_of(z).2 == d);
    assert(d == dom_of(y32));
}

/// 1 when the February that closes year `yoe` of an era (counted from
/// March 1st) has a 29th, else 0.
pub open spec fn leap_extra(yoe: u32) -> u32 {
    if ((yoe + 1u32) as u32) % 4u32 == 0u32 && (((yoe + 1u32) as u32) % 100u32 != 0u32 || ((yoe
        + 1u32) as u32) % 400u32 == 0u32) {
        1u32
    } else {
        0u32
    }
}

/// The length of month `mp` (0 for March) when it is not February.
pub open spec fn month_len(mp: u32) -> u32 {
    if mp == 1u32 || mp == 3u32 || mp == 6u32 || mp == 8u32 {
        30u32
    } else {
        31u32
    }
}

/// Within an era, the next day is either the next day of the same year
/// (counted from March 1st) or the first day of the next year; a year
/// ends on its 365th day, or its 366th when the February that closes it
/// has a 29th.
#[verifier::rlimit(100)]
proof fn lemma_year_step(doe: u32)
    by (bit_vector)
    requires
        doe < 146096u32,
    ensures
        doy_of(doe) <= ((364u32 + leap_extra(yoe_of(doe))) as u32),
        (yoe_of((doe + 1u32) as u32) == yoe_of(doe) && doy_of((doe + 1u32) as u32) == ((doy_of(doe)
            + 1u32) as u32)) || (yoe_of((doe + 1u32) as u32) == ((yoe_of(doe) + 1u32) as u32)
            && doy_of((doe + 1u32) as u32) == 0u32 && doy_of(doe) == ((364u32 + leap_extra(
            yoe_of(doe),
        )) as u32)),
{
}

/// The day of the month of a day of the year (from March 1st).
pub open spec fn dom_of(doy: u32) -> u32 {
    ((doy - ((153u32 * mp_of(doy) + 2u32) as u32) / 5u32) as u32 + 1u32) as u32
}

/// Within a year (from March 1st), the next day is the next day of the
/// same month, or the first of the next month after a month's last day;
/// February, the last, never ends inside the year.
#[verifier::rlimit(100)]
proof fn lemma_month_step(doy: u32)
    by (bit_vector)
    requires
        doy < 365u32,
    ensures
        mp_of(doy) == 11u32 ==> dom_of(doy) == ((doy - 336u32) as u32),
        (mp_of((doy + 1u32) as u32) == mp_of(doy) && dom_of((doy + 1u32) as u32) == ((dom_of(doy)
            + 1u32) as u32) && (mp_of(doy) < 11u32 ==> dom_of(doy) < month_len(mp_of(doy)))) || (
        mp_of((doy + 1u32) as u32) == ((mp_of(doy) + 1u32) as u32) && mp_of(doy) < 11u32 && dom_of(
            (doy + 1u32) as u32,
        ) == 1u32 && dom_of(doy) == month_len(mp_of(doy))),
{
}


/// Every day number gives a real month (1 to 12) and day (1 to 31).
pub proof fn law_dates_are_real(z: int)
    ensures
        1 <= civil_of(z).1 <= 12,
        1 <= civil_of(z).2 <= 31,
{
    lemma_civil_parts(z);
    let doe = (z + 719468 - era_of(z) * 146097) as u32;
    lemma_day_of_era(doe);
    lemma_day_of_year(doy_of(doe));
}

/// A leap year of the proleptic Gregorian calendar.
pub open spec fn is_leap(y: int) -> bool {
    y % 4 == 0 && (y % 100 != 0 || y % 400 == 0)
}

/// The number of days of month `m` of year `y`.
pub open spec fn month_days(y: int, m: int) -> int {
    if m == 2 {
        if is_leap(y) {
            29
        } else {
            28
        }
    } else if m == 4 || m == 6 || m == 9 || m == 11 {
        30
    } else {
        31
    }
}

/// The date after `(year, month, day)`.
pub open spec fn next_day(c: (int, int, int)) -> (int, int, int) {
    if c.2 < month_days(c.0, c.1) {
        (c.0, c.1, c.2 + 1)
    } else if c.1 < 12 {
        (c.0, c.1 + 1, 1)
    } else {
        (c.0 + 1, 1, 1)
    }
}

/// Whether a year is a leap year is the same 400 years later.
proof fn lemma_leap_period(y: int, era: int)
    ensures
        is_leap(y + era * 400) == is_leap(y),
{
    vstd::arithmetic::div_mod::lemma_mod_multiples_vanish(era * 100, y, 4);
    vstd::arithmetic::div_mod::lemma_mod_multiples_vanish(era * 4, y, 100);
    vstd::arithmetic::div_mod::lemma_mod_multiples_vanish(era, y, 400);
    assert(4 * (era * 100) + y == y + era * 400);
    assert(100 * (era * 4) + y == y + era * 400);
    assert(400 * era + y == y + era * 400);
}

/// The February that closes year `yoe` of an era has a 29th exactly in a
/// leap year.
proof fn lemma_leap_extra(yoe: u32, era: int)
    requires
        yoe <= 399,
    ensures
        (leap_extra(yoe) == 1) == is_leap(yoe + 1 + era * 400),
        leap_extra(yoe) <= 1,
{
    lemma_leap_period(yoe + 1, era);
    assert(((yoe + 1u32) as u32) == yoe + 1);
}

/// The last days of a year, and the first.
proof fn lemma_year_ends()
    ensures
        mp_of(364u32) == 11u32 && dom_of(364u32) == 28u32,
        mp_of(365u32) == 11u32 && dom_of(365u32) == 29u32,
        mp_of(0u32) == 0u32 && dom_of(0u32) == 1u32,
        yoe_of(146096u32) == 399u32 && doy_of(146096u32) == 365u32,
{
    assert(mp_of(364u32) == 11u32 && dom_of(364u32) == 28u32) by (bit_vector);
    assert(mp_of(365u32) == 11u32 && dom_of(365u32) == 29u32) by (bit_vector);
    assert(mp_of(0u32) == 0u32 && dom_of(0u32) == 1u32) by (bit_vector);
    assert(yoe_of(146096u32) == 399u32 && doy_of(146096u32) == 365u32) by (bit_vector);
}

/// Within an era, the date of the next day is the next date.
proof fn lemma_parts_step(era: int, doe: u32)
    requires
        doe < 146096,
    ensures
        civil_parts(era, (doe + 1) as u32) == next_day(civil_parts(era, doe)),
{
    let d1 = (doe + 1) as u32;
    lemma_year_step(doe);
    lemma_day_of_era(doe);
    lemma_day_of_era(d1);
    lemma_year_ends();
    let yoe = yoe_of(doe);
    let doy = doy_of(doe);
    lemma_leap_extra(yoe, era);
    let c = civil_parts(era, doe);
    if yoe_of(d1) == yoe {
        // the same year: doy + 1 is a day of it
        if d1 == 146096 {
            assert(doy == 364);
        } else {
            lemma_year_step(d1);
        }
        assert(doy < 365);
        lemma_month_step(doy);
        lemma_day_of_year(doy);
        let mp = mp_of(doy);
        if mp == 11 {
            assert(dom_of(doy) < month_days(c.0, 2));
        }
    } else {
        assert(doy == 364 + leap_extra(yoe));
        assert(c == (yoe + 1 + era * 400, 2int, (28 + leap_extra(yoe)) as int));
    }
}

/// The date after the last day of an era is the first day of the next.
proof fn lemma_parts_wrap(era: int)
    ensures
        civil_parts(era + 1, 0u32) == next_day(civil_parts(era, 146096u32)),
{
    lemma_year_ends();
    lemma_leap_period(0, era + 1);
    assert(yoe_of(0u32) == 0u32 && doy_of(0u32) == 0u32) by (bit_vector);
    assert(is_leap(0));
    assert(399 + era * 400 + 1 == 0 + (era + 1) * 400);
}

/// The day numbers count days of the proleptic Gregorian calendar from
/// 1970-01-01: day 0 is January 1st, 1970, and each next day number is the
/// next date (leap years every 4 years, except centuries not divisible by
/// 400).
pub proof fn law_gregorian_days(z: int)
    ensures
        civil_of(0) == (1970int, 1int, 1int),
        civil_of(z + 1) == next_day(civil_of(z)),
{
    lemma_civil_parts(z);
    lemma_civil_parts(z + 1);
    lemma_civil_parts(0);
    let e = era_of(z);
    let doe = z + 719468 - e * 146097;
    let e1 = era_of(z + 1);
    let doe1 = z + 1 + 719468 - e1 * 146097;
    if doe < 146096 {
        assert(e1 == e) by {
            assert((e - e1) * 146097 == doe1 - doe - 1);
        }
        lemma_parts_step(e, doe as u32);
    } else {
        assert(e1 == e + 1) by {
            assert((e + 1 - e1) * 146097 == doe1);
        }
        lemma_parts_wrap(e);
    }
    assert(era_of(0) == 4);
    assert((719468 - 4 * 146097) as u32 == 135080u32);
    assert(yoe_of(135080u32) == 369u32 && doy_of(135080u32) == 306u32) by (bit_vector);
    assert(mp_of(306u32) == 10u32 && dom_of(306u32) == 1u32) by (bit_vector);
}

proof fn lemma_year_range(z: int)
    requires
        0 <= z <= 0x1_0000_0000_0000,
    ensures
        0 <= civil_of(z).0 <= 0x1_0000_0000_0000,
{
    let z2 = z + 719468;
    vstd::arithmetic::div_mod::lemma_fundamental_div_mod(z2, 146097);
    vstd::arithmetic::div_mod::lemma_mod_bound(z2, 146097);
    let era = z2 / 146097;
    let doe = z2 - era * 146097;
    assert(0 <= doe < 146097);
    assert(0 <= era <= z2);
    let t = doe - doe / 1460 + doe / 36524 - doe / 146096;
    vstd::arithmetic::div_mod::lemma_fundamental_div_mod(doe, 1460);
    vstd::arithmetic::div_mod::lemma_mod_bound(doe, 1460);
    vstd::arithmetic::div_mod::lemma_fundamental_div_mod(doe, 36524);
    vstd::arithmetic::div_mod::lemma_mod_bound(doe, 36524);
    vstd::arithmetic::div_mod::lemma_fundamental_div_mod(doe, 146096);
    vstd::arithmetic::div_mod::lemma_mod_bound(doe, 146096);
    assert(0 <= t <= 146097 + 146097);
    vstd::arithmetic::div_mod::lemma_fundamental_div_mod(t, 365);
    vstd::arithmetic::div_mod::lemma_mod_bound(t, 365);
    let yoe = t / 365;
    assert(0 <= yoe <= 1000);
}

/// A UTC time stamp `YYYY-MM-DD hh:mm:ss UTC` of Unix seconds.
pub open spec fn utc_text(secs: nat) -> Seq<char> {
    let days = secs / 86400;
    let rem = secs % 86400;
    let c = civil_of(days as int);
    text::pad_left(text::decimal(c.0 as nat), 4, '0') + seq!['-'] + text::pad_left(
        text::decimal(c.1 as u32 as nat),
        2,
        '0',
    ) + seq!['-'] + text::pad_left(text::decimal(c.2 as u32 as nat), 2, '0') + seq![' ']
        + text::pad_left(text::decimal(rem / 3600), 2, '0') + seq![':'] + text::pad_left(
        text::decimal((rem % 3600) / 60),
        2,
        '0',
    ) + seq![':'] + text::pad_left(text::decimal(rem % 60), 2, '0') + " UTC"@
}

/// The UTC time stamp of a moment given in Unix seconds.
pub fn format_utc(secs: u64) -> (r: String)
    ensures
        r@ == utc_text(secs as nat),
{
    let days = secs / 86400;
    let rem = secs % 86400;
    let (y, m, d) = civil_from_days(days as i64);
    proof {
        lemma_year_range(days as int);
    }
    let mut out = text::decimal_padded(y as u64, 4);
    out.push('-');
    let mm = text::decimal_padded(m as u64, 2);
    text::extend(&mut out, &mm);
    out.push('-');
    let dd = text::decimal_padded(d as u64, 2);
    text::extend(&mut out, &dd);
    out.push(' ');
    let hh = text::decimal_padded(rem / 3600, 2);
    text::extend(&mut out, &hh);
    out.push(':');
    let mi = text::decimal_padded((rem % 3600) / 60, 2);
    text::extend(&mut out, &mi);
    out.push(':');
    let ss = text::decimal_padded(rem % 60, 2);
    text::extend(&mut out, &ss);
    text::extend_str(&mut out, " UTC");
    text::string_of(&out)
}

/// The current time in Unix seconds.
///
/// Trusted: reads `std::time::SystemTime::now()` since `UNIX_EPOCH` (0 when
/// the clock is before it). Nothing is claimed of the value: it is the time.
#[verifier::external_body]
fn unix_now() -> (r: u64) {
    std::time::SystemTime::now().duration_since(std::time::UNIX_EPOCH).map(|d| d.as_secs()).unwrap_or(0)
}

/// The current UTC time stamp.
pub fn now_utc() -> (r: String)
    ensures
        exists|s: u64| r@ == utc_text(s as nat),
{
    let s = unix_now();
    format_utc(s)
}

// ------------------------------------------------------------ where files live

/// The configuration file's name.
pub const CONFIG_NAME: &'static str = "framegen-manager.json";

pub open spec fn opt_str(o: Option<&str>) -> Option<Seq<char>> {
    match o {
        Some(s) => Some(s@),
        None => None,
    }
}

/// A directory kept beside the program when that is writable, else in the
/// per-user data directory, else relative to the working directory.
pub open spec fn portable_dir(exe_dir: Option<Seq<char>>, beside_writable: bool, data_dir: Option<Seq<char>>, name: Seq<char>) -> Seq<char> {
    if exe_dir is Some && beside_writable {
        join_path(exe_dir.unwrap(), name)
    } else if data_dir is Some {
        join_path(data_dir.unwrap(), name)
    } else {
        name
    }
}

fn portable_dir_exec(exe_dir: Option<&str>, beside_writable: bool, data_dir: Option<&str>, name: &str) -> (r: String)
    ensures
        r@ == portable_dir(opt_str(exe_dir), beside_writable, opt_str(data_dir), name@),
{
    match exe_dir {
        Some(d) => if beside_writable {
            return join_path_str(d, name);
        },
        None => {},
    }
    match data_dir {
        Some(d) => join_path_str(d, name),
        None => text::owned(name),
    }
}

/// Where backups go: `backups` beside the program when that is writable
/// (`beside_writable`), else in the data directory (`None` when it cannot
/// be had).
pub fn default_backups_dir(exe_dir: Option<&str>, beside_writable: bool, data_dir: Option<&str>) -> (r: String)
    ensures
        r@ == portable_dir(opt_str(exe_dir), beside_writable, opt_str(data_dir), "backups"@),
{
    portable_dir_exec(exe_dir, beside_writable, data_dir, "backups")
}

/// Where downloaded assets go by default: `assets` beside the program when
/// that is writable, else in the data directory.
pub fn default_asset_dir(exe_dir: Option<&str>, beside_writable: bool, data_dir: Option<&str>) -> (r: String)
    ensures
        r@ == portable_dir(opt_str(exe_dir), beside_writable, opt_str(data_dir), "assets"@),
{
    portable_dir_exec(exe_dir, beside_writable, data_dir, "assets")
}

/// Where the configuration file is: beside the program when one is already
/// there or the program's directory is writable (`beside_ok`), else in the
/// data directory.
pub fn config_path(exe_dir: Option<&str>, beside_ok: bool, data_dir: Option<&str>) -> (r: String)
    ensures
        r@ == portable_dir(opt_str(exe_dir), beside_ok, opt_str(data_dir), CONFIG_NAME@),
{
    portable_dir_exec(exe_dir, beside_ok, data_dir, CONFIG_NAME)
}

/// Whether backups are moved from the old location to the new one: they
/// are different places, the old one is a directory with entries, and the
/// new one is empty.
pub open spec fn should_migrate(new_dir: Seq<char>, old_dir: Seq<char>, old_is_dir: bool, new_empty: bool, old_count: nat) -> bool {
    new_dir != old_dir && old_is_dir && new_empty && old_count > 0
}

/// Decides whether to move the backups from the old location, and the
/// message reporting a completed move.
pub fn migrate_backups(new_dir: &str, old_dir: &str, old_is_dir: bool, new_empty: bool, old_count: usize) -> (r: Option<String>)
    ensures
        should_migrate(new_dir@, old_dir@, old_is_dir, new_empty, old_count as nat) <==> r is Some,
        r matches Some(m) ==> m@ == "已把旧位置的 "@ + text::decimal(old_count as nat)
            + " 项备份搬到程序目录的 backups\\"@,
{
    let a = text::chars_of(new_dir);
    let b = text::chars_of(old_dir);
    if text::eq(&a, &b) || !old_is_dir || !new_empty || old_count == 0 {
        return None;
    }
    let mut out = text::chars_of("已把旧位置的 ");
    let d = text::decimal_vec(old_count as u64);
    text::extend(&mut out, &d);
    text::extend_str(&mut out, " 项备份搬到程序目录的 backups\\");
    Some(text::string_of(&out))
}

/// The application's settings.
#[derive(Debug, Clone)]
pub struct AppConfig {
    /// The asset directory the user chose; `None` for the default.
    pub asset_dir: Option<String>,
    /// The user agreed to use a backup download source.
    pub allow_backup_source: bool,
    /// The backup source prefix put in front of official addresses (empty
    /// for the built-in mirrors).
    pub backup_prefix: String,
    /// Use the 310.1 build (for RTX 20 series).
    pub legacy_3101: bool,
}

impl Default for AppConfig {
    fn default() -> (r: Self)
        ensures
            r.asset_dir is None,
            !r.allow_backup_source,
            r.backup_prefix@.len() == 0,
            !r.legacy_3101,
    {
        AppConfig { asset_dir: None, allow_backup_source: false, backup_prefix: String::new(), legacy_3101: false }
    }
}

} // verus!
