//! Upstream files: where they live in the repository, how their versions and
//! fingerprints are read, which local copies are current, how download
//! sources are ordered, the deploy-time INI rewrite, and the one-file ZIP
//! reader.

use vstd::prelude::*;
use crate::text;
use crate::scan::GpuRoute;
use crate::pe::{u16_at, u32_at, rd_u16, rd_u32};
use crate::util;

verus! {

pub const REPO: &'static str = "sdli1995/dlssg_for_sm86";

pub const BRANCH: &'static str = "main";

pub const INI_REPO_PATH: &'static str = "dlssg_sm86.ini";

/// This program's own repository, asked for its latest version.
pub const SELF_REPO: &'static str = "XiaoQAQ10086/FrameGen-Manager";

pub const RELEASES_URL: &'static str = "https://github.com/XiaoQAQ10086/FrameGen-Manager/releases";

/// The text a cancelled download fails with; callers tell a cancel from a
/// failure by it.
pub const CANCELLED_MSG: &'static str = "已取消下载";

/// Where the DLSS runtime archives are released.
pub const DLSS_REPO: &'static str = "RankFTW/rhi-repo";

// ------------------------------------------------------------ repository paths

/// The repository path of a proxy entry's binary: the alternative entries
/// are separate binaries under `alternatives/`; anything else is the
/// default `version.dll`. The 310.1 build keeps the same layout under
/// `310.1/`.
pub open spec fn repo_path_of(proxy: Seq<char>, legacy: bool) -> Seq<char> {
    if !legacy {
        if proxy == "winmm.dll"@ {
            "alternatives/winmm.dll"@
        } else if proxy == "dbghelp.dll"@ {
            "alternatives/dbghelp.dll"@
        } else if proxy == "dinput8.dll"@ {
            "alternatives/dinput8.dll"@
        } else if proxy == "dxgi.dll"@ {
            "alternatives/dxgi.dll"@
        } else if proxy == "d3d12.dll"@ {
            "alternatives/d3d12.dll"@
        } else {
            "version.dll"@
        }
    } else {
        if proxy == "winmm.dll"@ {
            "310.1/alternatives/winmm.dll"@
        } else if proxy == "dbghelp.dll"@ {
            "310.1/alternatives/dbghelp.dll"@
        } else if proxy == "dinput8.dll"@ {
            "310.1/alternatives/dinput8.dll"@
        } else if proxy == "dxgi.dll"@ {
            "310.1/alternatives/dxgi.dll"@
        } else if proxy == "d3d12.dll"@ {
            "310.1/alternatives/d3d12.dll"@
        } else {
            "310.1/version.dll"@
        }
    }
}

fn is_name(v: &Vec<char>, name: &str) -> (r: bool)
    ensures
        r == (v@ == name@),
{
    let n = text::chars_of(name);
    text::eq(v, &n)
}

/// The repository path of the binary for a proxy entry.
pub fn proxy_repo_path(proxy: &str, legacy: bool) -> (r: &'static str)
    ensures
        r@ == repo_path_of(proxy@, legacy),
{
    let p = text::chars_of(proxy);
    if !legacy {
        if is_name(&p, "winmm.dll") {
            "alternatives/winmm.dll"
        } else if is_name(&p, "dbghelp.dll") {
            "alternatives/dbghelp.dll"
        } else if is_name(&p, "dinput8.dll") {
            "alternatives/dinput8.dll"
        } else if is_name(&p, "dxgi.dll") {
            "alternatives/dxgi.dll"
        } else if is_name(&p, "d3d12.dll") {
            "alternatives/d3d12.dll"
        } else {
            "version.dll"
        }
    } else {
        if is_name(&p, "winmm.dll") {
            "310.1/alternatives/winmm.dll"
        } else if is_name(&p, "dbghelp.dll") {
            "310.1/alternatives/dbghelp.dll"
        } else if is_name(&p, "dinput8.dll") {
            "310.1/alternatives/dinput8.dll"
        } else if is_name(&p, "dxgi.dll") {
            "310.1/alternatives/dxgi.dll"
        } else if is_name(&p, "d3d12.dll") {
            "310.1/alternatives/d3d12.dll"
        } else {
            "310.1/version.dll"
        }
    }
}

/// The repository path of the INI: both builds use the one at the root.
pub fn ini_repo_path(legacy: bool) -> (r: &'static str)
    ensures
        r@ == INI_REPO_PATH@,
{
    INI_REPO_PATH
}

/// What follows the last `c` in `s` (all of `s` when there is none).
pub open spec fn after_last(s: Seq<char>, c: char) -> Seq<char>
    decreases s.len(),
{
    if s.len() == 0 {
        s
    } else if s.last() == c {
        Seq::empty()
    } else {
        after_last(s.drop_last(), c).push(s.last())
    }
}

/// The local file name of a repository path: its last component.
pub fn local_name(repo_path: &str) -> (r: String)
    ensures
        r@ == after_last(repo_path@, '/'),
{
    let s = text::chars_of(repo_path);
    let mut out: Vec<char> = Vec::new();
    let mut i: usize = 0;
    while i < s.len()
        invariant
            i <= s.len(),
            out@ == after_last(s@.take(i as int), '/'),
        decreases s.len() - i,
    {
        assert(s@.take(i + 1).drop_last() =~= s@.take(i as int));
        if s[i] == '/' {
            out = Vec::new();
            assert(out@ =~= after_last(s@.take(i + 1), '/'));
        } else {
            out.push(s[i]);
        }
        i += 1;
    }
    assert(s@.take(s.len() as int) =~= s@);
    text::string_of(&out)
}

/// The official download address of a repository file.
pub fn official_url(repo_path: &str) -> (r: String)
    ensures
        r@ == "https://raw.githubusercontent.com/sdli1995/dlssg_for_sm86/main/"@ + repo_path@,
{
    text::cat2("https://raw.githubusercontent.com/sdli1995/dlssg_for_sm86/main/", repo_path)
}

/// The direct link of a release asset of [`DLSS_REPO`].
pub fn release_url(tag: &str, asset_name: &str) -> (r: String)
    ensures
        r@ == "https://github.com/RankFTW/rhi-repo/releases/download/"@ + tag@ + "/"@
            + asset_name@,
{
    let head = text::cat3("https://github.com/RankFTW/rhi-repo/releases/download/", tag, "/");
    text::cat2(head.as_str(), asset_name)
}

// ------------------------------------------------------------ versions

/// `s` without any leading `c`, as `str::trim_start_matches` with a char.
pub open spec fn strip_lead(s: Seq<char>, c: char) -> Seq<char>
    decreases s.len(),
{
    if s.len() > 0 && s[0] == c {
        strip_lead(s.drop_first(), c)
    } else {
        s
    }
}

/// `s` without any trailing `c`, as `str::trim_end_matches` with a char.
pub open spec fn strip_trail(s: Seq<char>, c: char) -> Seq<char>
    decreases s.len(),
{
    if s.len() > 0 && s.last() == c {
        strip_trail(s.drop_last(), c)
    } else {
        s
    }
}

fn strip_lead_vec(s: &[char], c: char) -> (r: Vec<char>)
    ensures
        r@ == strip_lead(s@, c),
{
    let mut i: usize = 0;
    assert(s@.skip(0) =~= s@);
    while i < s.len() && s[i] == c
        invariant
            i <= s.len(),
            strip_lead(s@, c) == strip_lead(s@.skip(i as int), c),
        decreases s.len() - i,
    {
        assert(s@.skip(i as int).drop_first() =~= s@.skip(i + 1));
        i += 1;
    }
    text::slice_vec(s, i, s.len())
}

fn strip_trail_vec(s: &[char], c: char) -> (r: Vec<char>)
    ensures
        r@ == strip_trail(s@, c),
{
    let mut j: usize = s.len();
    assert(s@.take(s.len() as int) =~= s@);
    while j > 0 && s[j - 1] == c
        invariant
            j <= s.len(),
            strip_trail(s@, c) == strip_trail(s@.take(j as int), c),
        decreases j,
    {
        assert(s@.take(j as int).drop_last() =~= s@.take(j - 1));
        j -= 1;
    }
    let r = text::slice_vec(s, 0, j);
    assert(r@ =~= s@.take(j as int));
    r
}

/// The `i`-th piece of `t` split at `'.'`, or `None` when there are fewer.
pub open spec fn dot_field(t: Seq<char>, i: nat) -> Option<Seq<char>>
    decreases i,
{
    let k = text::first_index(t, '.');
    if i == 0 {
        Some(t.take(k))
    } else if k >= t.len() {
        None
    } else {
        dot_field(t.skip(k + 1), (i - 1) as nat)
    }
}

/// A `u64` as `str::parse` reads it.
pub open spec fn parse_u64(s: Seq<char>) -> Option<nat> {
    text::parse_uint(s, u64::MAX as nat)
}

/// The number a missing version piece stands for.
pub open spec fn zero_field() -> Seq<char> {
    seq!['0']
}

/// A version such as `0.2.0` or `v0.2.0`: trimmed, leading `v`s dropped,
/// split at dots; the first piece is needed, a missing second or third
/// counts as `0`, pieces after the third are ignored, and every piece read
/// must be a `u64`.
pub open spec fn version_of(s: Seq<char>) -> Option<(nat, nat, nat)> {
    let t = strip_lead(text::trim(s), 'v');
    let a = dot_field(t, 0).unwrap();
    let b = match dot_field(t, 1) {
        Some(x) => x,
        None => zero_field(),
    };
    let c = match dot_field(t, 2) {
        Some(x) => x,
        None => zero_field(),
    };
    match (parse_u64(a), parse_u64(b), parse_u64(c)) {
        (Some(x), Some(y), Some(z)) => Some((x, y, z)),
        _ => None,
    }
}

/// Version triples in lexicographic order.
pub open spec fn version_lt(a: (nat, nat, nat), b: (nat, nat, nat)) -> bool {
    a.0 < b.0 || (a.0 == b.0 && (a.1 < b.1 || (a.1 == b.1 && a.2 < b.2)))
}

/// `remote` reads as a version strictly after `local`'s; never when either
/// does not read.
pub open spec fn newer(remote: Seq<char>, local: Seq<char>) -> bool {
    match (version_of(remote), version_of(local)) {
        (Some(r), Some(l)) => version_lt(l, r),
        _ => false,
    }
}

/// The piece of `t` after the first dot, with where it starts.
fn next_field(t: &[char]) -> (r: (Vec<char>, Option<Vec<char>>))
    ensures
        r.0@ == t@.take(text::first_index(t@, '.')),
        text::first_index(t@, '.') >= t@.len() ==> r.1 is None,
        text::first_index(t@, '.') < t@.len() ==> (r.1 matches Some(rest) && rest@ == t@.skip(
            text::first_index(t@, '.') + 1,
        )),
{
    let k = text::find_char(t, 0, '.');
    assert(t@.subrange(0, t.len() as int) =~= t@);
    let head = text::slice_vec(t, 0, k);
    assert(head@ =~= t@.take(k as int));
    if k >= t.len() {
        (head, None)
    } else {
        let rest = text::slice_vec(t, k + 1, t.len());
        assert(rest@ =~= t@.skip(k + 1));
        (head, Some(rest))
    }
}

fn parse_u64_exec(s: &[char]) -> (r: Option<u64>)
    ensures
        match parse_u64(s@) {
            Some(v) => r == Some(v as u64),
            None => r is None,
        },
{
    text::parse_uint_exec(s, u64::MAX)
}

/// Reads a version such as `0.2.0` or `v0.2.0` into three numbers; `None`
/// when it does not read.
pub fn parse_version(s: &str) -> (r: Option<(u64, u64, u64)>)
    ensures
        match version_of(s@) {
            Some(v) => r == Some((v.0 as u64, v.1 as u64, v.2 as u64)),
            None => r is None,
        },
{
    let tr = text::trim_str(s);
    let t = strip_lead_vec(&tr, 'v');
    proof {
        reveal_with_fuel(dot_field, 3);
    }
    let (a, rest1) = next_field(&t);
    let zero: Vec<char> = vec!['0'];
    assert(zero@ =~= zero_field());
    let (b, rest2) = match rest1 {
        None => (zero.clone(), None),
        Some(r1) => {
            let (b, r2) = next_field(&r1);
            (b, Some(r2))
        },
    };
    let c = match rest2 {
        None => zero.clone(),
        Some(None) => zero.clone(),
        Some(Some(r2)) => {
            let (c, _) = next_field(&r2);
            c
        },
    };
    let pa = parse_u64_exec(&a);
    let pb = parse_u64_exec(&b);
    let pc = parse_u64_exec(&c);
    match (pa, pb, pc) {
        (Some(x), Some(y), Some(z)) => Some((x, y, z)),
        _ => None,
    }
}

/// Whether `remote` is a later version than `local`; `false` when either
/// does not read as a version.
pub fn is_newer(remote: &str, local: &str) -> (r: bool)
    ensures
        r == newer(remote@, local@),
{
    match (parse_version(remote), parse_version(local)) {
        (Some(r), Some(l)) => l.0 < r.0 || (l.0 == r.0 && (l.1 < r.1 || (l.1 == r.1 && l.2
            < r.2))),
        _ => false,
    }
}

/// Being newer is a strict order: never of itself, never both ways, and
/// transitive.
pub proof fn law_newer_is_strict_order(a: Seq<char>, b: Seq<char>, c: Seq<char>)
    ensures
        !newer(a, a),
        newer(a, b) ==> !newer(b, a),
        newer(a, b) && newer(b, c) ==> newer(a, c),
{
}

/// A version written out as `major.minor.patch` in decimal.
pub open spec fn version_text(v: (nat, nat, nat)) -> Seq<char> {
    text::decimal(v.0) + "."@ + text::decimal(v.1) + "."@ + text::decimal(v.2)
}

proof fn lemma_digits_free(a: Seq<char>, c: char)
    requires
        text::all_digits(a),
        !text::is_digit(c),
    ensures
        forall|k: int| 0 <= k < a.len() ==> a[k] != c,
{
    assert forall|k: int| 0 <= k < a.len() implies a[k] != c by {
        assert(text::is_digit(a[k]));
    }
}

/// A version written out reads back as itself, for numbers a `u64` holds.
pub proof fn law_version_text_reads_back(v: (nat, nat, nat))
    requires
        v.0 <= u64::MAX,
        v.1 <= u64::MAX,
        v.2 <= u64::MAX,
    ensures
        version_of(version_text(v)) == Some(v),
{
    reveal_strlit(".");
    crate::gpu::lemma_number_part(v.0, 0);
    crate::gpu::lemma_number_part(v.1, 0);
    crate::gpu::lemma_number_part(v.2, 0);
    let a = text::decimal(v.0);
    let b = text::decimal(v.1);
    let c = text::decimal(v.2);
    assert(text::pad_left(a, 0, '0') == a);
    assert(text::pad_left(b, 0, '0') == b);
    assert(text::pad_left(c, 0, '0') == c);
    let s = version_text(v);
    assert(s =~= a + seq!['.'] + b + seq!['.'] + c);
    assert(s[0] == a[0] && text::is_digit(a[0]));
    assert(s.last() == c.last() && text::is_digit(c.last()));
    text::lemma_trim_keeps(s);
    assert(strip_lead(s, 'v') == s);
    reveal_with_fuel(dot_field, 3);
    lemma_digits_free(a, '.');
    lemma_digits_free(b, '.');
    lemma_digits_free(c, '.');
    assert forall|k: int| 0 <= k < a.len() implies s[k] != '.' by {
        assert(s[k] == a[k]);
    }
    text::lemma_first_index_unique(s, '.', a.len() as int);
    assert(s.take(a.len() as int) =~= a);
    let s1 = s.skip(a.len() as int + 1);
    assert(s1 =~= b + seq!['.'] + c);
    assert forall|k: int| 0 <= k < b.len() implies s1[k] != '.' by {
        assert(s1[k] == b[k]);
    }
    text::lemma_first_index_unique(s1, '.', b.len() as int);
    assert(s1.take(b.len() as int) =~= b);
    let s2 = s1.skip(b.len() as int + 1);
    assert(s2 =~= c);
    text::lemma_first_index_unique(s2, '.', c.len() as int);
    assert(s2.take(c.len() as int) =~= c);
    assert(dot_field(s, 0) == Some(a));
    assert(dot_field(s, 1) == Some(b));
    assert(dot_field(s, 2) == Some(c));
    crate::gpu::lemma_parse_digits(a, u64::MAX as nat);
    crate::gpu::lemma_parse_digits(b, u64::MAX as nat);
    crate::gpu::lemma_parse_digits(c, u64::MAX as nat);
}

/// Between written versions, "newer" is the order of major, then minor,
/// then patch number: a remote version is newer than the local one exactly
/// when it is greater in that order.
pub proof fn law_newer_compares_numbers(r: (nat, nat, nat), l: (nat, nat, nat))
    requires
        r.0 <= u64::MAX,
        r.1 <= u64::MAX,
        r.2 <= u64::MAX,
        l.0 <= u64::MAX,
        l.1 <= u64::MAX,
        l.2 <= u64::MAX,
    ensures
        newer(version_text(r), version_text(l)) <==> r.0 > l.0 || (r.0 == l.0 && (r.1 > l.1 || (
        r.1 == l.1 && r.2 > l.2))),
{
    law_version_text_reads_back(r);
    law_version_text_reads_back(l);
}

/// `k` is where `pick_latest` lands: a candidate that reads, not older than
/// any that reads, and newer than every one that reads before it.
pub open spec fn latest_at(vs: Seq<Seq<char>>, k: int) -> bool {
    &&& 0 <= k < vs.len()
    &&& version_of(vs[k]) is Some
    &&& forall|j: int|
        0 <= j < vs.len() && (#[trigger] version_of(vs[j])) is Some ==> !version_lt(
            version_of(vs[k]).unwrap(),
            version_of(vs[j]).unwrap(),
        )
    &&& forall|j: int|
        0 <= j < k && (#[trigger] version_of(vs[j])) is Some ==> version_lt(
            version_of(vs[j]).unwrap(),
            version_of(vs[k]).unwrap(),
        )
}

/// The greatest version among the candidates (the first of equal ones);
/// candidates that do not read as versions are ignored, and `None` when no
/// candidate reads.
pub fn pick_latest(versions: Vec<String>) -> (r: Option<String>)
    ensures
        r is None <==> forall|j: int|
            0 <= j < versions@.len() ==> (#[trigger] version_of(versions@[j]@)) is None,
        r matches Some(v) ==> exists|k: int|
            latest_at(text::views(versions@), k) && v@ == versions@[k]@,
{
    let ghost vs = text::views(versions@);
    let mut best: Option<usize> = None;
    let mut i: usize = 0;
    while i < versions.len()
        invariant
            i <= versions.len(),
            vs == text::views(versions@),
            vs.len() == versions@.len(),
            best is None ==> forall|j: int| 0 <= j < i ==> (#[trigger] version_of(vs[j])) is None,
            best matches Some(b) ==> b < i && version_of(vs[b as int]) is Some && (forall|j: int|
                0 <= j < i && (#[trigger] version_of(vs[j])) is Some ==> !version_lt(
                    version_of(vs[b as int]).unwrap(),
                    version_of(vs[j]).unwrap(),
                )) && (forall|j: int|
                0 <= j < b && (#[trigger] version_of(vs[j])) is Some ==> version_lt(
                    version_of(vs[j]).unwrap(),
                    version_of(vs[b as int]).unwrap(),
                )),
        decreases versions.len() - i,
    {
        assert(vs[i as int] == versions@[i as int]@);
        let pv = parse_version(versions[i].as_str());
        if pv.is_some() {
            let replace = match best {
                None => true,
                Some(b) => {
                    assert(vs[b as int] == versions@[b as int]@);
                    is_newer(versions[i].as_str(), versions[b].as_str())
                },
            };
            if replace {
                best = Some(i);
            }
        }
        i += 1;
    }
    match best {
        None => {
            assert forall|j: int| 0 <= j < versions@.len() implies (#[trigger] version_of(
                versions@[j]@,
            )) is None by {
                assert(vs[j] == versions@[j]@);
            }
            None
        },
        Some(b) => {
            assert(latest_at(vs, b as int));
            assert(vs[b as int] == versions@[b as int]@);
            Some(text::copy_string(&versions[b]))
        },
    }
}

// ------------------------------------------------------------ version texts

/// `s` without any leading or trailing `c`, as `str::trim_matches` with a char.
pub open spec fn strip_both(s: Seq<char>, c: char) -> Seq<char> {
    strip_trail(strip_lead(s, c), c)
}

/// The version a line of a Cargo manifest gives: a line `version = "x"`
/// whose key, trimmed, is exactly `version`; the value trimmed, stripped of
/// quotes and trimmed again, and not empty.
pub open spec fn cargo_line_version(line: Seq<char>) -> Option<Seq<char>> {
    let t = text::trim(line);
    let k = text::first_index(t, '=');
    if k >= t.len() {
        None
    } else if text::trim(t.take(k)) != "version"@ {
        None
    } else {
        let v = text::trim(strip_both(text::trim(t.skip(k + 1)), '"'));
        if v.len() > 0 {
            Some(v)
        } else {
            None
        }
    }
}

fn cargo_line_exec(line: &[char]) -> (r: Option<Vec<char>>)
    ensures
        match cargo_line_version(line@) {
            Some(v) => r matches Some(x) && x@ == v,
            None => r is None,
        },
{
    let t = text::trim_vec(line);
    let k = text::find_char(&t, 0, '=');
    assert(t@.subrange(0, t.len() as int) =~= t@);
    if k >= t.len() {
        return None;
    }
    let key = text::slice_vec(&t, 0, k);
    assert(key@ =~= t@.take(k as int));
    let kt = text::trim_vec(&key);
    if !is_name(&kt, "version") {
        return None;
    }
    let rest = text::slice_vec(&t, k + 1, t.len());
    assert(rest@ =~= t@.skip(k + 1));
    let a = text::trim_vec(&rest);
    let b = strip_lead_vec(&a, '"');
    let c = strip_trail_vec(&b, '"');
    let v = text::trim_vec(&c);
    if v.len() > 0 {
        Some(v)
    } else {
        None
    }
}

/// The `version` of a Cargo manifest's text: the first line that gives one.
pub fn parse_cargo_version(text: &str) -> (r: Option<String>)
    ensures
        r is None <==> forall|k: int|
            0 <= k < text::lines(text@).len() ==> (#[trigger] cargo_line_version(
                text::lines(text@)[k],
            )) is None,
        r matches Some(v) ==> exists|i: int|
            0 <= i < text::lines(text@).len() && cargo_line_version(text::lines(text@)[i])
                == Some(v@) && forall|k: int|
                0 <= k < i ==> (#[trigger] cargo_line_version(text::lines(text@)[k])) is None,
{
    let s = text::chars_of(text);
    let ls = text::lines_of(&s);
    let ghost gl = text::lines(text@);
    let mut i: usize = 0;
    while i < ls.len()
        invariant
            i <= ls.len(),
            s@ == text@,
            gl == text::lines(text@),
            ls@.len() == gl.len(),
            forall|k: int| 0 <= k < ls@.len() ==> #[trigger] ls@[k]@ == gl[k],
            forall|k: int| 0 <= k < i ==> (#[trigger] cargo_line_version(gl[k])) is None,
        decreases ls.len() - i,
    {
        assert(ls@[i as int]@ == gl[i as int]);
        match cargo_line_exec(&ls[i]) {
            Some(v) => {
                return Some(text::string_of(&v));
            },
            None => {},
        }
        i += 1;
    }
    None
}

pub open spec fn is_vc(c: char) -> bool {
    text::is_digit(c) || c == '.'
}

/// Length of the run of digits and dots that `t` starts with.
pub open spec fn run_len(t: Seq<char>) -> nat
    decreases t.len(),
{
    if t.len() > 0 && is_vc(t[0]) {
        1 + run_len(t.drop_first())
    } else {
        0
    }
}

/// The run of digits and dots at the start of `t`, without trailing dots.
pub open spec fn number_run(t: Seq<char>) -> Seq<char> {
    strip_trail(t.take(run_len(t) as int), '.')
}

/// The first position at or after `p` where `"Native "` occurs.
pub open spec fn native_from(s: Seq<char>, p: int) -> Option<int>
    decreases s.len() - p,
{
    if p < 0 || p >= s.len() {
        None
    } else if text::occurs_at(s, "Native "@, p) {
        Some(p)
    } else {
        native_from(s, p + 1)
    }
}

/// A dotted number starts at `p` of `line`: a digit not preceded by a digit
/// or a dot, whose run (trailing dots dropped) holds a dot.
pub open spec fn dotted_at(line: Seq<char>, p: int) -> bool {
    &&& text::is_digit(line[p])
    &&& (p == 0 || !is_vc(line[p - 1]))
    &&& number_run(line.skip(p)).contains('.')
}

/// The first dotted number at or after `p`.
pub open spec fn dotted_from(line: Seq<char>, p: int) -> Option<Seq<char>>
    decreases line.len() - p,
{
    if p < 0 || p >= line.len() {
        None
    } else if dotted_at(line, p) {
        Some(number_run(line.skip(p)))
    } else {
        dotted_from(line, p + 1)
    }
}

/// The upstream version a README or INI text carries: the number after the
/// first `"Native "` (trailing dots dropped) when there is one; otherwise
/// the first dotted number on the first line.
pub open spec fn version_in(text: Seq<char>) -> Option<Seq<char>> {
    let anchored = match native_from(text, 0) {
        Some(i) => number_run(text.skip(i + "Native "@.len())),
        None => Seq::empty(),
    };
    if anchored.len() > 0 {
        Some(anchored)
    } else {
        let ls = text::lines(text);
        if ls.len() == 0 {
            None
        } else {
            dotted_from(ls[0], 0)
        }
    }
}

fn number_run_exec(t: &[char], from: usize) -> (r: Vec<char>)
    requires
        from <= t.len(),
    ensures
        r@ == number_run(t@.skip(from as int)),
{
    let mut j = from;
    while j < t.len() && (('0' <= t[j] && t[j] <= '9') || t[j] == '.')
        invariant
            from <= j <= t.len(),
            run_len(t@.skip(from as int)) == (j - from) + run_len(t@.skip(j as int)),
        decreases t.len() - j,
    {
        assert(t@.skip(j as int).drop_first() =~= t@.skip(j + 1));
        j += 1;
    }
    assert(run_len(t@.skip(j as int)) == 0);
    let run = text::slice_vec(t, from, j);
    assert(run@ =~= t@.skip(from as int).take(run_len(t@.skip(from as int)) as int));
    strip_trail_vec(&run, '.')
}

fn contains_dot(v: &[char]) -> (r: bool)
    ensures
        r == v@.contains('.'),
{
    let mut i: usize = 0;
    while i < v.len()
        invariant
            i <= v.len(),
            forall|k: int| 0 <= k < i ==> v@[k] != '.',
        decreases v.len() - i,
    {
        if v[i] == '.' {
            return true;
        }
        i += 1;
    }
    false
}

fn find_native(s: &Vec<char>) -> (r: Option<usize>)
    ensures
        native_from(s@, 0) == match r {
            Some(i) => Some(i as int),
            None => None,
        },
        r matches Some(i) ==> i + "Native "@.len() <= s@.len(),
{
    let pat = text::chars_of("Native ");
    let mut p: usize = 0;
    while p < s.len()
        invariant
            p <= s.len(),
            pat@ == "Native "@,
            native_from(s@, 0) == native_from(s@, p as int),
        decreases s.len() - p,
    {
        if text::occurs_at_exec(s, &pat, p) {
            return Some(p);
        }
        p += 1;
    }
    None
}

/// The upstream version written in a README heading (`# DLSSG Native
/// 0.2.4`, `# DLSSG for SM86（Proxy）- 0.3.0 版本`) or an INI's first comment.
pub fn extract_version(text: &str) -> (r: Option<String>)
    ensures
        match version_in(text@) {
            Some(v) => r matches Some(x) && x@ == v,
            None => r is None,
        },
{
    let s = text::chars_of(text);
    let pat = text::chars_of("Native ");
    assert(s@ == text@);
    assert(pat@ == "Native "@);
    let found = find_native(&s);
    let anchored: Vec<char> = match found {
        Some(i) => number_run_exec(&s, i + pat.len()),
        None => Vec::new(),
    };
    let ghost a = match native_from(text@, 0) {
        Some(i) => number_run(text@.skip(i + "Native "@.len())),
        None => Seq::<char>::empty(),
    };
    assert(anchored@ =~= a);
    if anchored.len() > 0 {
        return Some(text::string_of(&anchored));
    }
    let ls = text::lines_of(&s);
    if ls.len() == 0 {
        return None;
    }
    let line = &ls[0];
    assert(line@ == text::lines(text@)[0]);
    let mut q: usize = 0;
    while q < line.len()
        invariant
            q <= line.len(),
            ls@.len() > 0,
            line@ == text::lines(text@)[0],
            version_in(text@) == dotted_from(line@, 0),
            dotted_from(line@, 0) == dotted_from(line@, q as int),
        decreases line.len() - q,
    {
        let c = line[q];
        if '0' <= c && c <= '9' && (q == 0 || !(('0' <= line[q - 1] && line[q - 1] <= '9')
            || line[q - 1] == '.')) {
            let run = number_run_exec(line, q);
            if contains_dot(&run) {
                assert(dotted_at(line@, q as int));
                return Some(text::string_of(&run));
            }
        }
        q += 1;
    }
    None
}

// ------------------------------------------------------------ local records

/// What a HEAD of a repository file gave.
#[derive(Debug, Clone)]
pub struct RemoteFile {
    /// The repository path, such as `alternatives/winmm.dll`.
    pub name: String,
    pub size: u64,
    /// The content fingerprint from the `ETag` header.
    pub etag: String,
    /// The fingerprint came from the official source; a mirror's does not
    /// match the official one.
    pub etag_trusted: bool,
}

/// The record of a local copy of an upstream file.
#[derive(Debug, Clone)]
pub struct LocalFile {
    /// The copy's git blob SHA-1 (shown only).
    pub blob_sha: String,
    /// The fingerprint the official source gave when it was downloaded.
    pub etag: String,
    pub sha256: String,
    pub bytes: u64,
    pub downloaded_at: String,
    /// The copy was imported by hand rather than downloaded.
    pub imported: bool,
}

/// [`LocalFile`] as plain values.
pub struct LocalFileV {
    pub blob_sha: Seq<char>,
    pub etag: Seq<char>,
    pub sha256: Seq<char>,
    pub bytes: u64,
    pub downloaded_at: Seq<char>,
    pub imported: bool,
}

impl View for LocalFile {
    type V = LocalFileV;

    open spec fn view(&self) -> LocalFileV {
        LocalFileV {
            blob_sha: self.blob_sha@,
            etag: self.etag@,
            sha256: self.sha256@,
            bytes: self.bytes,
            downloaded_at: self.downloaded_at@,
            imported: self.imported,
        }
    }
}

/// The records of the local copies, by local file name.
#[derive(Debug, Clone)]
pub struct UpdateState {
    pub version: Option<String>,
    pub files: Vec<(String, LocalFile)>,
}

/// The record for `name`: that of the first entry with that name.
pub open spec fn record_of(fs: Seq<(String, LocalFile)>, name: Seq<char>) -> Option<LocalFileV>
    decreases fs.len(),
{
    if fs.len() == 0 {
        None
    } else if fs[0].0@ == name {
        Some(fs[0].1@)
    } else {
        record_of(fs.drop_first(), name)
    }
}

/// Index of the first entry named `name`, or the number of entries.
pub open spec fn record_index(fs: Seq<(String, LocalFile)>, name: Seq<char>) -> int
    decreases fs.len(),
{
    if fs.len() == 0 {
        0
    } else if fs[0].0@ == name {
        0
    } else {
        1 + record_index(fs.drop_first(), name)
    }
}

pub proof fn lemma_record_index(fs: Seq<(String, LocalFile)>, name: Seq<char>)
    ensures
        0 <= record_index(fs, name) <= fs.len(),
        forall|j: int| 0 <= j < record_index(fs, name) ==> (#[trigger] fs[j]).0@ != name,
        record_index(fs, name) < fs.len() ==> fs[record_index(fs, name)].0@ == name
            && record_of(fs, name) == Some(fs[record_index(fs, name)].1@),
        record_index(fs, name) == fs.len() ==> record_of(fs, name) is None,
    decreases fs.len(),
{
    if fs.len() > 0 && fs[0].0@ != name {
        lemma_record_index(fs.drop_first(), name);
        assert forall|j: int| 0 <= j < record_index(fs, name) implies (#[trigger] fs[j]).0@
            != name by {
            if j > 0 {
                assert(fs[j] == fs.drop_first()[j - 1]);
            }
        }
    }
}

/// One entry per name: no two entries share a name.
pub open spec fn keys_unique<V>(es: Seq<(String, V)>) -> bool {
    forall|i: int, j: int| 0 <= i < j < es.len() ==> (#[trigger] es[i]).0@ != (#[trigger] es[j]).0@
}

/// The records after `name` is given `f`: the first entry with that name
/// replaced, or `f` appended under it.
pub open spec fn records_with(fs: Seq<(String, LocalFile)>, name: Seq<char>, f: LocalFileV) -> Seq<(Seq<char>, LocalFileV)> {
    let k = record_index(fs, name);
    let plain = fs.map_values(|e: (String, LocalFile)| (e.0@, e.1@));
    if k < fs.len() {
        plain.update(k, (name, f))
    } else {
        plain.push((name, f))
    }
}

pub open spec fn record_views(fs: Seq<(String, LocalFile)>) -> Seq<(Seq<char>, LocalFileV)> {
    fs.map_values(|e: (String, LocalFile)| (e.0@, e.1@))
}

fn find_record(fs: &Vec<(String, LocalFile)>, name: &str) -> (r: usize)
    ensures
        r == record_index(fs@, name@),
{
    proof {
        lemma_record_index(fs@, name@);
    }
    let n = text::chars_of(name);
    let mut i: usize = 0;
    while i < fs.len()
        invariant
            i <= fs.len(),
            n@ == name@,
            forall|j: int| 0 <= j < i ==> (#[trigger] fs@[j]).0@ != name@,
            0 <= record_index(fs@, name@) <= fs@.len(),
            forall|j: int| 0 <= j < record_index(fs@, name@) ==> (#[trigger] fs@[j]).0@ != name@,
            record_index(fs@, name@) < fs@.len() ==> fs@[record_index(fs@, name@)].0@ == name@,
        decreases fs.len() - i,
    {
        let k = text::chars_of(fs[i].0.as_str());
        if text::eq(&k, &n) {
            return i;
        }
        i += 1;
    }
    i
}

impl UpdateState {
    /// The record for a local file name.
    pub fn get(&self, name: &str) -> (r: Option<&LocalFile>)
        ensures
            match record_of(self.files@, name@) {
                Some(f) => r matches Some(x) && x@ == f,
                None => r is None,
            },
    {
        proof {
            lemma_record_index(self.files@, name@);
        }
        let k = find_record(&self.files, name);
        if k < self.files.len() {
            Some(&self.files[k].1)
        } else {
            None
        }
    }

    /// Records `f` for a local file name, replacing its earlier record.
    pub fn insert(&mut self, name: String, f: LocalFile)
        ensures
            record_views(final(self).files@) == records_with(old(self).files@, name@, f@),
            final(self).version == old(self).version,
            keys_unique(old(self).files@) ==> keys_unique(final(self).files@),
    {
        proof {
            lemma_record_index(self.files@, name@);
        }
        let ghost before = self.files@;
        let k = find_record(&self.files, name.as_str());
        let ghost nv = name@;
        let ghost fv = f@;
        if k < self.files.len() {
            self.files.set(k, (name, f));
            assert(record_views(self.files@) =~= records_with(old(self).files@, nv, fv));
            assert forall|i: int| 0 <= i < self.files@.len() implies (#[trigger] self.files@[i]).0@ == before[i].0@ by {}
        } else {
            self.files.push((name, f));
            assert(record_views(self.files@) =~= records_with(old(self).files@, nv, fv));
            assert forall|i: int| 0 <= i < before.len() implies (#[trigger] self.files@[i]) == before[i] by {}
        }
    }

    /// Whether the local copy needs downloading against what the remote
    /// reports: no record, or a downloaded copy whose recorded fingerprint is
    /// empty or differs (ignoring ASCII case) from the remote's. An imported
    /// copy is judged by its presence alone.
    pub fn needs_update(&self, local_name: &str, remote: &RemoteFile) -> (r: bool)
        ensures
            r == match record_of(self.files@, local_name@) {
                None => true,
                Some(l) => !l.imported && (l.etag.len() == 0 || !text::eq_ic(l.etag, remote.etag@)),
            },
    {
        match self.get(local_name) {
            None => true,
            Some(l) => {
                if l.imported {
                    false
                } else {
                    let e = text::chars_of(l.etag.as_str());
                    let re = text::chars_of(remote.etag.as_str());
                    e.len() == 0 || !text::eq_ignore_case(&e, &re)
                }
            },
        }
    }
}

/// Reading a record back after recording it gives what was recorded, and
/// the records of other names are unchanged.
pub proof fn law_get_after_insert(fs: Seq<(String, LocalFile)>, name: Seq<char>, f: LocalFileV, other: Seq<char>)
    ensures
        records_first(records_with(fs, name, f), name) == Some(f),
        other != name ==> records_first(records_with(fs, name, f), other) == record_of(fs, other),
{
    lemma_record_index(fs, name);
    lemma_record_index(fs, other);
    lemma_views_first(fs, other);
    let g = records_with(fs, name, f);
    let k = record_index(fs, name);
    lemma_plain_first(g, name, k);
    if other != name {
        let ko = record_index(fs, other);
        assert forall|j: int| 0 <= j < g.len() && j != k implies (#[trigger] g[j]).0 == fs[j].0@ by {
        }
        if ko < fs.len() {
            lemma_plain_first(g, other, ko);
        } else {
            assert forall|j: int| 0 <= j < g.len() implies (#[trigger] g[j]).0 != other by {
                if j != k {
                    assert(g[j].0 == fs[j].0@);
                }
            }
            lemma_plain_first(g, other, g.len() as int);
        }
    }
}

/// The first value under `name` in plain records.
pub open spec fn records_first(g: Seq<(Seq<char>, LocalFileV)>, name: Seq<char>) -> Option<LocalFileV>
    decreases g.len(),
{
    if g.len() == 0 {
        None
    } else if g[0].0 == name {
        Some(g[0].1)
    } else {
        records_first(g.drop_first(), name)
    }
}

proof fn lemma_plain_first(g: Seq<(Seq<char>, LocalFileV)>, name: Seq<char>, k: int)
    requires
        0 <= k <= g.len(),
        forall|j: int| 0 <= j < k ==> (#[trigger] g[j]).0 != name,
        k < g.len() ==> g[k].0 == name,
    ensures
        records_first(g, name) == if k < g.len() {
            Some(g[k].1)
        } else {
            None
        },
    decreases g.len(),
{
    if g.len() > 0 && g[0].0 != name {
        assert forall|j: int| 0 <= j < k - 1 implies (#[trigger] g.drop_first()[j]).0 != name by {
            assert(g.drop_first()[j] == g[j + 1]);
        }
        lemma_plain_first(g.drop_first(), name, k - 1);
    }
}

proof fn lemma_views_first(fs: Seq<(String, LocalFile)>, name: Seq<char>)
    ensures
        records_first(record_views(fs), name) == record_of(fs, name),
    decreases fs.len(),
{
    if fs.len() > 0 {
        lemma_views_first(fs.drop_first(), name);
        assert(record_views(fs).drop_first() =~= record_views(fs.drop_first()));
    }
}

/// The local copy is current: a record exists, its fingerprint matches the
/// remote's (ignoring ASCII case; an imported copy skips this), and the
/// file on disk has the recorded size. `size_on_disk` is `None` when the
/// file is not there.
pub open spec fn is_current(st: UpdateState, local_name: Seq<char>, size_on_disk: Option<u64>, remote_etag: Seq<char>) -> bool {
    match record_of(st.files@, local_name) {
        None => false,
        Some(l) => (l.imported || (l.etag.len() > 0 && text::eq_ic(l.etag, remote_etag)))
            && size_on_disk == Some(l.bytes),
    }
}

/// Whether the local copy is already current, so the download is skipped.
pub fn local_is_current(state: &UpdateState, local_name: &str, size_on_disk: Option<u64>, remote: &RemoteFile) -> (r: bool)
    ensures
        r == is_current(*state, local_name@, size_on_disk, remote.etag@),
{
    let rec = match state.get(local_name) {
        None => {
            return false;
        },
        Some(l) => l,
    };
    if !rec.imported {
        let e = text::chars_of(rec.etag.as_str());
        let re = text::chars_of(remote.etag.as_str());
        if e.len() == 0 || !text::eq_ignore_case(&e, &re) {
            return false;
        }
    }
    match size_on_disk {
        Some(n) => n == rec.bytes,
        None => false,
    }
}

// ------------------------------------------------------------ asset rows

/// The state of a row of the asset list.
#[derive(Debug, Clone, Copy, PartialEq, Eq, Structural)]
pub enum AssetState {
    Ready,
    Missing,
    Outdated,
}

pub open spec fn asset_state_label(s: AssetState) -> Seq<char> {
    match s {
        AssetState::Ready => "已就绪"@,
        AssetState::Missing => "未下载"@,
        AssetState::Outdated => "有更新"@,
    }
}

impl AssetState {
    pub fn label(self) -> (r: &'static str)
        ensures
            r@ == asset_state_label(self),
    {
        match self {
            AssetState::Ready => "已就绪",
            AssetState::Missing => "未下载",
            AssetState::Outdated => "有更新",
        }
    }
}

/// What is known of an asset row: for a DLSS runtime, whether its file is
/// there signed by NVIDIA; for a mod file, its size on disk (`None` when it
/// is not there), its download record and the remote fingerprint.
pub struct AssetFacts {
    pub runtime: bool,
    pub runtime_nvidia: bool,
    pub size_on_disk: Option<u64>,
    pub record: Option<LocalFile>,
    pub remote_etag_trusted: bool,
    pub remote_etag: Option<String>,
}

/// The state of an asset row, by what is on disk first: a runtime is ready
/// when its file is there signed by NVIDIA; a mod file that is not there is
/// missing; one without a record, or whose size differs from a non-zero
/// recorded size, is outdated; then only an official fingerprint can make
/// it outdated, by differing (ignoring ASCII case) from a non-empty recorded
/// one, and no fingerprint at all leaves it ready.
pub open spec fn asset_state_of(f: AssetFacts) -> AssetState {
    if f.runtime {
        if f.runtime_nvidia {
            AssetState::Ready
        } else {
            AssetState::Missing
        }
    } else if f.size_on_disk is None {
        AssetState::Missing
    } else if f.record is None {
        AssetState::Outdated
    } else if f.record.unwrap().bytes > 0 && f.size_on_disk.unwrap() != f.record.unwrap().bytes {
        AssetState::Outdated
    } else if !f.remote_etag_trusted {
        AssetState::Ready
    } else {
        match f.remote_etag {
            Some(r) => if f.record.unwrap().etag@.len() > 0 && text::eq_ic(
                f.record.unwrap().etag@,
                r@,
            ) {
                AssetState::Ready
            } else {
                AssetState::Outdated
            },
            None => AssetState::Ready,
        }
    }
}

/// What an asset row's state says of the facts: it is missing exactly
/// when the file is not there (for a runtime: not there signed by NVIDIA);
/// a mod file shown ready is on disk with a record whose non-zero size
/// matches, and whose fingerprint is non-empty and agrees (ignoring ASCII
/// case) with any official one; a mod file on disk without a record, with
/// another size than recorded, or whose record disagrees with an official
/// fingerprint, is outdated.
pub proof fn law_asset_state(f: AssetFacts)
    ensures
        asset_state_of(f) == AssetState::Missing <==> (f.runtime && !f.runtime_nvidia) || (!f.runtime
            && f.size_on_disk is None),
        f.runtime ==> (asset_state_of(f) == AssetState::Ready <==> f.runtime_nvidia),
        !f.runtime && asset_state_of(f) == AssetState::Ready ==> {
            &&& f.size_on_disk is Some
            &&& f.record is Some
            &&& (f.record.unwrap().bytes == 0 || f.size_on_disk.unwrap() == f.record.unwrap().bytes)
            &&& (f.remote_etag_trusted && f.remote_etag is Some) ==> f.record.unwrap().etag@.len() > 0
                && text::eq_ic(f.record.unwrap().etag@, f.remote_etag.unwrap()@)
        },
        !f.runtime && f.size_on_disk is Some && (f.record is None || (f.record.unwrap().bytes > 0
            && f.size_on_disk.unwrap() != f.record.unwrap().bytes) || (f.remote_etag_trusted
            && f.remote_etag is Some && !(f.record.unwrap().etag@.len() > 0 && text::eq_ic(
            f.record.unwrap().etag@,
            f.remote_etag.unwrap()@,
        )))) ==> asset_state_of(f) == AssetState::Outdated,
{
}

/// The state shown for an asset row.
pub fn asset_state(f: &AssetFacts) -> (r: AssetState)
    ensures
        r == asset_state_of(*f),
{
    if f.runtime {
        return if f.runtime_nvidia {
            AssetState::Ready
        } else {
            AssetState::Missing
        };
    }
    let size = match f.size_on_disk {
        None => {
            return AssetState::Missing;
        },
        Some(n) => n,
    };
    let rec = match &f.record {
        None => {
            return AssetState::Outdated;
        },
        Some(r) => r,
    };
    if rec.bytes > 0 && size != rec.bytes {
        return AssetState::Outdated;
    }
    if !f.remote_etag_trusted {
        return AssetState::Ready;
    }
    match &f.remote_etag {
        Some(remote) => {
            let e = text::chars_of(rec.etag.as_str());
            let re = text::chars_of(remote.as_str());
            if e.len() > 0 && text::eq_ignore_case(&e, &re) {
                AssetState::Ready
            } else {
                AssetState::Outdated
            }
        },
        None => AssetState::Ready,
    }
}

// ------------------------------------------------------------ sources

/// The built-in mirrors, fastest first as measured.
pub const MIRRORS: [&'static str; 3] = [
    "https://gh-proxy.com/",
    "https://ghfast.top/",
    "https://ghproxy.net/",
];

pub open spec fn mirror_list() -> Seq<Seq<char>> {
    seq!["https://gh-proxy.com/"@, "https://ghfast.top/"@, "https://ghproxy.net/"@]
}

/// The default backup source: the fastest mirror.
pub const DEFAULT_BACKUP_PREFIX: &'static str = "https://gh-proxy.com/";

/// A measured rate at or above this (KB/s) counts as fast enough.
pub const DEFAULT_MIN_SPEED_KBPS: u64 = 300;

/// Measured rates older than this (seconds) no longer count.
pub const SPEED_TTL_SECS: i64 = 21600;

/// `s` with every leading copy of `p` removed, as `str::trim_start_matches`.
pub open spec fn strip_prefix_all(s: Seq<char>, p: Seq<char>) -> Seq<char>
    decreases s.len(),
{
    if p.len() > 0 && text::starts_with(s, p) {
        strip_prefix_all(s.skip(p.len() as int), p)
    } else {
        s
    }
}

fn strip_prefix_all_vec(s: &[char], p: &str) -> (r: Vec<char>)
    ensures
        r@ == strip_prefix_all(s@, p@),
{
    let pv = text::chars_of(p);
    let mut i: usize = 0;
    assert(s@.skip(0) =~= s@);
    while pv.len() > 0 && i <= s.len() && pv.len() <= s.len() - i && text::occurs_at_exec(
        s,
        &pv,
        i,
    )
        invariant
            i <= s.len(),
            pv@ == p@,
            strip_prefix_all(s@, p@) == strip_prefix_all(s@.skip(i as int), p@),
        decreases s.len() - i,
    {
        assert(text::starts_with(s@.skip(i as int), p@)) by {
            assert(s@.skip(i as int).subrange(0, p@.len() as int) =~= s@.subrange(
                i as int,
                i + p@.len(),
            ));
        }
        assert(s@.skip(i as int).skip(p@.len() as int) =~= s@.skip(i + p@.len()));
        i = i + pv.len();
    }
    proof {
        if p@.len() > 0 && i + p@.len() <= s@.len() {
            assert(!text::starts_with(s@.skip(i as int), p@)) by {
                if text::starts_with(s@.skip(i as int), p@) {
                    assert(s@.skip(i as int).subrange(0, p@.len() as int) =~= s@.subrange(
                        i as int,
                        i + p@.len(),
                    ));
                }
            }
        }
    }
    text::slice_vec(s, i, s.len())
}

/// The name a source is shown by: the official source for an empty (or
/// blank) prefix, else the prefix without its scheme and trailing slashes.
pub open spec fn source_name(prefix: Seq<char>) -> Seq<char> {
    let p = text::trim(prefix);
    if p.len() == 0 {
        "官方源"@
    } else {
        strip_trail(strip_prefix_all(strip_prefix_all(p, "https://"@), "http://"@), '/')
    }
}

/// The name a source prefix is shown by.
pub fn source_label(prefix: &str) -> (r: String)
    ensures
        r@ == source_name(prefix@),
{
    let p = text::trim_str(prefix);
    if p.len() == 0 {
        return text::owned("官方源");
    }
    let a = strip_prefix_all_vec(&p, "https://");
    let b = strip_prefix_all_vec(&a, "http://");
    let c = strip_trail_vec(&b, '/');
    text::string_of(&c)
}

/// A chosen source prefix, trimmed and ending in `/`.
pub open spec fn normalized_source(s: Seq<char>) -> Seq<char> {
    with_slash(text::trim(s))
}

/// `t` ending in `/`: unchanged when empty or already so.
pub open spec fn with_slash(t: Seq<char>) -> Seq<char> {
    if t.len() == 0 || t.last() == '/' {
        t
    } else {
        t.push('/')
    }
}

/// Normalizes a source prefix: trimmed, with a trailing slash.
pub fn normalize_source(s: &str) -> (r: String)
    ensures
        r@ == normalized_source(s@),
{
    let mut t = text::trim_str(s);
    if t.len() > 0 && t[t.len() - 1] != '/' {
        t.push('/');
    }
    text::string_of(&t)
}

/// A line of a source list names a source when, trimmed, it starts with
/// `http://` or `https://`.
pub open spec fn source_line(line: Seq<char>) -> Option<Seq<char>> {
    let t = text::trim(line);
    if text::starts_with(t, "http://"@) || text::starts_with(t, "https://"@) {
        Some(with_slash(t))
    } else {
        None
    }
}

/// The sources of the first lines, normalized, each kept once in the order
/// of first appearance.
pub open spec fn sources_of(ls: Seq<Seq<char>>) -> Seq<Seq<char>>
    decreases ls.len(),
{
    if ls.len() == 0 {
        Seq::empty()
    } else {
        let prev = sources_of(ls.drop_last());
        match source_line(ls.last()) {
            Some(x) => if prev.contains(x) {
                prev
            } else {
                prev.push(x)
            },
            None => prev,
        }
    }
}

fn contains_string(v: &Vec<String>, x: &Vec<char>) -> (r: bool)
    ensures
        r == text::views(v@).contains(x@),
{
    let mut i: usize = 0;
    while i < v.len()
        invariant
            i <= v.len(),
            forall|k: int| 0 <= k < i ==> v@[k]@ != x@,
        decreases v.len() - i,
    {
        let c = text::chars_of(v[i].as_str());
        if text::eq(&c, x) {
            assert(text::views(v@)[i as int] == x@);
            return true;
        }
        i += 1;
    }
    assert forall|k: int| 0 <= k < text::views(v@).len() implies text::views(v@)[k] != x@ by {
        assert(text::views(v@)[k] == v@[k]@);
    }
    false
}

/// The sources a text lists, one per line: lines that do not start with
/// `http://` or `https://` are ignored, each source is normalized, and
/// repeats are dropped.
pub fn split_custom_sources(text: &str) -> (r: Vec<String>)
    ensures
        text::views(r@) == sources_of(text::lines(text@)),
{
    let s = text::chars_of(text);
    let ls = text::lines_of(&s);
    let ghost gl = text::lines(text@);
    let mut out: Vec<String> = Vec::new();
    let mut i: usize = 0;
    while i < ls.len()
        invariant
            i <= ls.len(),
            gl == text::lines(text@),
            s@ == text@,
            ls@.len() == gl.len(),
            forall|k: int| 0 <= k < ls@.len() ==> #[trigger] ls@[k]@ == gl[k],
            text::views(out@) == sources_of(gl.take(i as int)),
        decreases ls.len() - i,
    {
        assert(gl.take(i + 1).drop_last() =~= gl.take(i as int));
        assert(gl.take(i + 1).last() == ls@[i as int]@);
        let t = text::trim_vec(&ls[i]);
        if text::starts_with_str(&t, "http://") || text::starts_with_str(&t, "https://") {
            let ghost tv = t@;
            let mut n = t;
            if n.len() > 0 && n[n.len() - 1] != '/' {
                n.push('/');
            }
            assert(n@ == with_slash(tv));
            assert(source_line(gl[i as int]) == Some(n@));
            if !contains_string(&out, &n) {
                let ghost before = text::views(out@);
                out.push(text::string_of(&n));
                assert(text::views(out@) =~= before.push(n@));
            }
        } else {
            assert(source_line(gl[i as int]) is None);
        }
        i += 1;
    }
    assert(gl.take(ls.len() as int) =~= gl);
    out
}

// ------------------------------------------------------------ ranking by measured rate

/// `x` inserted into `s` before the first entry with a smaller rate: in a
/// list sorted by falling rate, after every entry at least as fast.
pub open spec fn insert_desc(s: Seq<(u64, Seq<char>)>, x: (u64, Seq<char>)) -> Seq<(u64, Seq<char>)>
    decreases s.len(),
{
    if s.len() == 0 {
        seq![x]
    } else if s[0].0 >= x.0 {
        seq![s[0]] + insert_desc(s.drop_first(), x)
    } else {
        seq![x] + s
    }
}

/// `s` sorted by falling rate, equal rates keeping their order (a stable
/// sort).
pub open spec fn sort_desc(s: Seq<(u64, Seq<char>)>) -> Seq<(u64, Seq<char>)>
    decreases s.len(),
{
    if s.len() == 0 {
        Seq::empty()
    } else {
        insert_desc(sort_desc(s.drop_last()), s.last())
    }
}

pub open spec fn fast_enough(k: u64) -> bool {
    k >= DEFAULT_MIN_SPEED_KBPS
}

pub open spec fn rated_views(v: Seq<(String, Option<u64>)>) -> Seq<(Seq<char>, Option<u64>)> {
    v.map_values(|e: (String, Option<u64>)| (e.0@, e.1))
}

/// The sources rated fast enough, with their rates, in input order.
pub open spec fn good_of(items: Seq<(Seq<char>, Option<u64>)>) -> Seq<(u64, Seq<char>)>
    decreases items.len(),
{
    if items.len() == 0 {
        Seq::empty()
    } else {
        let prev = good_of(items.drop_last());
        match items.last().1 {
            Some(k) => if fast_enough(k) {
                prev.push((k, items.last().0))
            } else {
                prev
            },
            None => prev,
        }
    }
}

/// The sources rated too slow, with their rates, in input order.
pub open spec fn slow_of(items: Seq<(Seq<char>, Option<u64>)>) -> Seq<(u64, Seq<char>)>
    decreases items.len(),
{
    if items.len() == 0 {
        Seq::empty()
    } else {
        let prev = slow_of(items.drop_last());
        match items.last().1 {
            Some(k) => if !fast_enough(k) {
                prev.push((k, items.last().0))
            } else {
                prev
            },
            None => prev,
        }
    }
}

/// The sources never measured, in input order.
pub open spec fn unrated_of(items: Seq<(Seq<char>, Option<u64>)>) -> Seq<Seq<char>>
    decreases items.len(),
{
    if items.len() == 0 {
        Seq::empty()
    } else {
        let prev = unrated_of(items.drop_last());
        match items.last().1 {
            Some(k) => prev,
            None => prev.push(items.last().0),
        }
    }
}

pub open spec fn names_of(s: Seq<(u64, Seq<char>)>) -> Seq<Seq<char>> {
    s.map_values(|e: (u64, Seq<char>)| e.1)
}

/// Sources ordered for trying: those measured fast enough first, fastest
/// first; then those never measured; then those measured too slow,
/// fastest first; equal rates keep their order.
pub open spec fn ranked(items: Seq<(Seq<char>, Option<u64>)>) -> Seq<Seq<char>> {
    names_of(sort_desc(good_of(items))) + unrated_of(items) + names_of(sort_desc(slow_of(items)))
}

/// Rates in falling order.
pub open spec fn falling(s: Seq<(u64, Seq<char>)>) -> bool {
    forall|i: int, j: int| 0 <= i < j < s.len() ==> (#[trigger] s[i]).0 >= (#[trigger] s[j]).0
}

proof fn lemma_insert_desc(s: Seq<(u64, Seq<char>)>, x: (u64, Seq<char>))
    ensures
        insert_desc(s, x).to_multiset() == s.to_multiset().insert(x),
        falling(s) ==> falling(insert_desc(s, x)),
    decreases s.len(),
{
    broadcast use vstd::seq_lib::group_to_multiset_ensures;

    if s.len() == 0 {
        assert(seq![x] =~= Seq::<(u64, Seq<char>)>::empty().push(x));
    } else if s[0].0 >= x.0 {
        let t = s.drop_first();
        lemma_insert_desc(t, x);
        let it = insert_desc(t, x);
        let r = seq![s[0]] + it;
        assert(s =~= seq![s[0]] + t);
        vstd::seq_lib::lemma_multiset_commutative(seq![s[0]], it);
        vstd::seq_lib::lemma_multiset_commutative(seq![s[0]], t);
        assert(r.to_multiset() =~= s.to_multiset().insert(x));
        if falling(s) {
            assert forall|i: int, j: int| 0 <= i < j < t.len() implies (#[trigger] t[i]).0 >= (
            #[trigger] t[j]).0 by {
                assert(t[i] == s[i + 1] && t[j] == s[j + 1]);
            }
            assert forall|i: int, j: int| 0 <= i < j < r.len() implies (#[trigger] r[i]).0 >= (
            #[trigger] r[j]).0 by {
                if i == 0 {
                    let y = r[j];
                    assert(y == it[j - 1]);
                    assert(it.contains(y));
                    assert(it.to_multiset().count(y) > 0);
                    if y != x {
                        assert(t.to_multiset().count(y) > 0);
                        let k = choose|k: int| 0 <= k < t.len() && t[k] == y;
                        assert(s[k + 1] == y);
                    }
                } else {
                    assert(r[i] == it[i - 1] && r[j] == it[j - 1]);
                }
            }
        }
    } else {
        let r = seq![x] + s;
        vstd::seq_lib::lemma_multiset_commutative(seq![x], s);
        assert(r.to_multiset() =~= s.to_multiset().insert(x));
        if falling(s) {
            assert forall|i: int, j: int| 0 <= i < j < r.len() implies (#[trigger] r[i]).0 >= (
            #[trigger] r[j]).0 by {
                if i == 0 {
                    assert(r[j] == s[j - 1]);
                    assert(s[0].0 >= s[j - 1].0 || j - 1 == 0);
                } else {
                    assert(r[i] == s[i - 1] && r[j] == s[j - 1]);
                }
            }
        }
    }
}

proof fn lemma_sort_desc(s: Seq<(u64, Seq<char>)>)
    ensures
        sort_desc(s).to_multiset() == s.to_multiset(),
        falling(sort_desc(s)),
    decreases s.len(),
{
    broadcast use vstd::seq_lib::group_to_multiset_ensures;

    if s.len() == 0 {
        assert(s.to_multiset() =~= vstd::multiset::Multiset::<(u64, Seq<char>)>::empty());
        assert(sort_desc(s).to_multiset() =~= vstd::multiset::Multiset::<(u64, Seq<char>)>::empty());
    } else {
        lemma_sort_desc(s.drop_last());
        lemma_insert_desc(sort_desc(s.drop_last()), s.last());
        assert(s =~= s.drop_last().push(s.last()));
    }
}

proof fn lemma_rate_groups(items: Seq<(Seq<char>, Option<u64>)>)
    ensures
        forall|p: (u64, Seq<char>)| #[trigger] good_of(items).contains(p) <==> fast_enough(p.0)
            && items.contains((p.1, Some(p.0))),
        forall|p: (u64, Seq<char>)| #[trigger] slow_of(items).contains(p) <==> !fast_enough(p.0)
            && items.contains((p.1, Some(p.0))),
        forall|n: Seq<char>| #[trigger] unrated_of(items).contains(n) <==> items.contains(
            (n, None::<u64>),
        ),
    decreases items.len(),
{
    broadcast use vstd::seq_lib::group_seq_properties;

    if items.len() > 0 {
        let t = items.drop_last();
        let l = items.last();
        lemma_rate_groups(t);
        assert(items =~= t.push(l));
        assert forall|p: (u64, Seq<char>)| #[trigger] good_of(items).contains(p) <==> fast_enough(p.0)
            && items.contains((p.1, Some(p.0))) by {
            assert(items.contains((p.1, Some(p.0))) <==> t.contains((p.1, Some(p.0))) || l == (
            p.1, Some(p.0)));
            match l.1 {
                Some(k) => {
                    assert(l == (l.0, Some(k)));
                    if fast_enough(k) {
                        assert(good_of(items) == good_of(t).push((k, l.0)));
                        assert(good_of(items).contains(p) <==> good_of(t).contains(p) || p == (k, l.0));
                    } else {
                        assert(good_of(items) == good_of(t));
                    }
                },
                None => {
                    assert(good_of(items) == good_of(t));
                },
            }
        }
        assert forall|p: (u64, Seq<char>)| #[trigger] slow_of(items).contains(p) <==> !fast_enough(p.0)
            && items.contains((p.1, Some(p.0))) by {
            assert(items.contains((p.1, Some(p.0))) <==> t.contains((p.1, Some(p.0))) || l == (
            p.1, Some(p.0)));
            match l.1 {
                Some(k) => {
                    assert(l == (l.0, Some(k)));
                    if !fast_enough(k) {
                        assert(slow_of(items) == slow_of(t).push((k, l.0)));
                        assert(slow_of(items).contains(p) <==> slow_of(t).contains(p) || p == (k, l.0));
                    } else {
                        assert(slow_of(items) == slow_of(t));
                    }
                },
                None => {
                    assert(slow_of(items) == slow_of(t));
                },
            }
        }
        assert forall|n: Seq<char>| #[trigger] unrated_of(items).contains(n) <==> items.contains(
            (n, None::<u64>),
        ) by {
            assert(items.contains((n, None::<u64>)) <==> t.contains((n, None::<u64>)) || l == (
            n, None::<u64>));
            match l.1 {
                Some(k) => {
                    assert(unrated_of(items) == unrated_of(t));
                },
                None => {
                    assert(l == (l.0, None::<u64>));
                    assert(unrated_of(items) == unrated_of(t).push(l.0));
                    assert(unrated_of(items).contains(n) <==> unrated_of(t).contains(n) || n == l.0);
                },
            }
        }
    }
}

/// How sources are ranked for trying: first the ones measured fast enough,
/// in falling order of rate; then the ones never measured, in their order;
/// then the ones measured too slow, in falling order of rate. Each group
/// holds exactly the sources of its kind, each as often as listed.
pub proof fn law_ranked_order(items: Seq<(Seq<char>, Option<u64>)>)
    ensures
        ({
            let g = sort_desc(good_of(items));
            let sl = sort_desc(slow_of(items));
            &&& ranked(items) == names_of(g) + unrated_of(items) + names_of(sl)
            &&& falling(g)
            &&& falling(sl)
            &&& forall|p: (u64, Seq<char>)| #[trigger] g.contains(p) <==> fast_enough(p.0)
                && items.contains((p.1, Some(p.0)))
            &&& forall|p: (u64, Seq<char>)| #[trigger] sl.contains(p) <==> !fast_enough(p.0)
                && items.contains((p.1, Some(p.0)))
            &&& forall|n: Seq<char>| #[trigger] unrated_of(items).contains(n) <==> items.contains(
                (n, None::<u64>),
            )
            &&& g.to_multiset() == good_of(items).to_multiset()
            &&& sl.to_multiset() == slow_of(items).to_multiset()
        }),
{
    broadcast use vstd::seq_lib::group_to_multiset_ensures;

    lemma_sort_desc(good_of(items));
    lemma_sort_desc(slow_of(items));
    lemma_rate_groups(items);
    let g = sort_desc(good_of(items));
    let sl = sort_desc(slow_of(items));
    assert forall|p: (u64, Seq<char>)| #[trigger] g.contains(p) <==> good_of(items).contains(p) by {
        assert(g.to_multiset().count(p) == good_of(items).to_multiset().count(p));
    }
    assert forall|p: (u64, Seq<char>)| #[trigger] sl.contains(p) <==> slow_of(items).contains(p) by {
        assert(sl.to_multiset().count(p) == slow_of(items).to_multiset().count(p));
    }
}

/// The mirrors to try: the chosen source, trimmed, first when there is
/// one; after it only the built-in mirrors other than it, ranked by their
/// measured rates as [`law_ranked_order`] says.
pub proof fn law_mirror_order(custom: Seq<char>, es: Seq<(String, SpeedSample)>, now: i64)
    ensures
        ({
            let c = text::trim(custom);
            let m = mirrors_for(custom, es, now);
            let rest = ranked(rates_for(es, other_mirrors(c), now));
            &&& c.len() > 0 ==> m.len() > 0 && m[0] == c && m.drop_first() == rest
            &&& c.len() == 0 ==> m == rest
        }),
{
    let c = text::trim(custom);
    let rest = ranked(rates_for(es, other_mirrors(c), now));
    if c.len() > 0 {
        assert((seq![c] + rest).drop_first() =~= rest);
    }
}

pub open spec fn pair_views(v: Seq<(u64, String)>) -> Seq<(u64, Seq<char>)> {
    v.map_values(|e: (u64, String)| (e.0, e.1@))
}

/// Inserting at the first smaller rate is `insert_desc`.
proof fn lemma_insert_desc_at(s: Seq<(u64, Seq<char>)>, x: (u64, Seq<char>), j: int)
    requires
        0 <= j <= s.len(),
        forall|k: int| 0 <= k < j ==> (#[trigger] s[k]).0 >= x.0,
        j < s.len() ==> s[j].0 < x.0,
    ensures
        insert_desc(s, x) == s.take(j).push(x) + s.skip(j),
    decreases s.len(),
{
    if s.len() == 0 {
        assert(s.take(j).push(x) + s.skip(j) =~= seq![x]);
    } else if j == 0 {
        assert(s.take(0).push(x) + s.skip(0) =~= seq![x] + s);
    } else {
        assert forall|k: int| 0 <= k < j - 1 implies (#[trigger] s.drop_first()[k]).0 >= x.0 by {
            assert(s.drop_first()[k] == s[k + 1]);
        }
        lemma_insert_desc_at(s.drop_first(), x, j - 1);
        assert(s.take(j).push(x) + s.skip(j) =~= seq![s[0]] + (s.drop_first().take(j - 1).push(x)
            + s.drop_first().skip(j - 1)));
    }
}

fn insert_rated(v: &mut Vec<(u64, String)>, k: u64, name: String)
    ensures
        pair_views(final(v)@) == insert_desc(pair_views(old(v)@), (k, name@)),
{
    let ghost s = pair_views(v@);
    let mut j: usize = 0;
    while j < v.len() && v[j].0 >= k
        invariant
            j <= v.len(),
            s == pair_views(v@),
            forall|i: int| 0 <= i < j ==> (#[trigger] s[i]).0 >= k,
        decreases v.len() - j,
    {
        j += 1;
    }
    proof {
        lemma_insert_desc_at(s, (k, name@), j as int);
    }
    let ghost nv = name@;
    v.insert(j, (k, name));
    assert(pair_views(v@) =~= s.take(j as int).push((k, nv)) + s.skip(j as int));
}

/// Orders sources by measured rate (`None` = never measured): fast enough
/// ones first, fastest first; then the unmeasured; then the too slow,
/// fastest first.
pub fn rank_by_scores(items: &Vec<(String, Option<u64>)>) -> (r: Vec<String>)
    ensures
        text::views(r@) == ranked(rated_views(items@)),
{
    let ghost it = rated_views(items@);
    let mut good: Vec<(u64, String)> = Vec::new();
    let mut slow: Vec<(u64, String)> = Vec::new();
    let mut unknown: Vec<String> = Vec::new();
    let mut i: usize = 0;
    while i < items.len()
        invariant
            i <= items.len(),
            it == rated_views(items@),
            pair_views(good@) == sort_desc(good_of(it.take(i as int))),
            pair_views(slow@) == sort_desc(slow_of(it.take(i as int))),
            text::views(unknown@) == unrated_of(it.take(i as int)),
        decreases items.len() - i,
    {
        assert(it.take(i + 1).drop_last() =~= it.take(i as int));
        assert(it.take(i + 1).last() == (items@[i as int].0@, items@[i as int].1));
        let name = text::copy_string(&items[i].0);
        match items[i].1 {
            Some(k) => {
                if k >= DEFAULT_MIN_SPEED_KBPS {
                    let ghost g0 = good_of(it.take(i as int));
                    insert_rated(&mut good, k, name);
                    assert(good_of(it.take(i + 1)) == g0.push((k, items@[i as int].0@)));
                    assert(g0.push((k, items@[i as int].0@)).drop_last() =~= g0);
                } else {
                    let ghost s0 = slow_of(it.take(i as int));
                    insert_rated(&mut slow, k, name);
                    assert(slow_of(it.take(i + 1)) == s0.push((k, items@[i as int].0@)));
                    assert(s0.push((k, items@[i as int].0@)).drop_last() =~= s0);
                }
            },
            None => {
                let ghost u0 = text::views(unknown@);
                unknown.push(name);
                assert(text::views(unknown@) =~= u0.push(items@[i as int].0@));
            },
        }
        i += 1;
    }
    assert(it.take(items.len() as int) =~= it);
    let mut out: Vec<String> = Vec::new();
    let mut j: usize = 0;
    while j < good.len()
        invariant
            j <= good.len(),
            text::views(out@) == names_of(pair_views(good@)).take(j as int),
        decreases good.len() - j,
    {
        let ghost o = text::views(out@);
        let c = text::copy_string(&good[j].1);
        out.push(c);
        assert(text::views(out@) =~= o.push(good@[j as int].1@));
        assert(names_of(pair_views(good@))[j as int] == good@[j as int].1@);
        assert(text::views(out@) =~= names_of(pair_views(good@)).take(j + 1));
        j += 1;
    }
    assert(names_of(pair_views(good@)).take(good.len() as int) =~= names_of(pair_views(good@)));
    let ghost part1 = text::views(out@);
    let mut j: usize = 0;
    while j < unknown.len()
        invariant
            j <= unknown.len(),
            text::views(out@) == part1 + text::views(unknown@).take(j as int),
        decreases unknown.len() - j,
    {
        let ghost o = text::views(out@);
        let c = text::copy_string(&unknown[j]);
        out.push(c);
        assert(text::views(out@) =~= o.push(unknown@[j as int]@));
        assert(text::views(unknown@)[j as int] == unknown@[j as int]@);
        assert(text::views(out@) =~= part1 + text::views(unknown@).take(j + 1));
        j += 1;
    }
    assert(text::views(unknown@).take(unknown.len() as int) =~= text::views(unknown@));
    let ghost part2 = text::views(out@);
    let mut j: usize = 0;
    while j < slow.len()
        invariant
            j <= slow.len(),
            text::views(out@) == part2 + names_of(pair_views(slow@)).take(j as int),
        decreases slow.len() - j,
    {
        let ghost o = text::views(out@);
        let c = text::copy_string(&slow[j].1);
        out.push(c);
        assert(text::views(out@) =~= o.push(slow@[j as int].1@));
        assert(names_of(pair_views(slow@))[j as int] == slow@[j as int].1@);
        assert(text::views(out@) =~= part2 + names_of(pair_views(slow@)).take(j + 1));
        j += 1;
    }
    assert(names_of(pair_views(slow@)).take(slow.len() as int) =~= names_of(pair_views(slow@)));
    out
}

// ------------------------------------------------------------ measured rates

/// A measured rate of a source.
#[derive(Debug, Clone, Copy)]
pub struct SpeedSample {
    /// KB/s.
    pub kbps: u64,
    /// When it was measured, in Unix seconds.
    pub at: i64,
}

/// The measured rates, by source prefix (the empty prefix is the official
/// source).
#[derive(Debug, Clone)]
pub struct SourceSpeeds {
    pub entries: Vec<(String, SpeedSample)>,
}

/// The sample for `prefix`: that of the first entry with that prefix.
pub open spec fn sample_of(es: Seq<(String, SpeedSample)>, prefix: Seq<char>) -> Option<SpeedSample>
    decreases es.len(),
{
    if es.len() == 0 {
        None
    } else if es[0].0@ == prefix {
        Some(es[0].1)
    } else {
        sample_of(es.drop_first(), prefix)
    }
}

/// The rate of a source that still counts at `now`: measured, and not more
/// than [`SPEED_TTL_SECS`] ago.
pub open spec fn rate_at(es: Seq<(String, SpeedSample)>, prefix: Seq<char>, now: i64) -> Option<u64> {
    match sample_of(es, prefix) {
        Some(e) => if now - e.at > SPEED_TTL_SECS {
            None
        } else {
            Some(e.kbps)
        },
        None => None,
    }
}

fn find_sample(es: &Vec<(String, SpeedSample)>, prefix: &str) -> (r: Option<SpeedSample>)
    ensures
        r == sample_of(es@, prefix@),
{
    let p = text::chars_of(prefix);
    let mut i: usize = 0;
    assert(es@.skip(0) =~= es@);
    while i < es.len()
        invariant
            i <= es.len(),
            p@ == prefix@,
            sample_of(es@, prefix@) == sample_of(es@.skip(i as int), prefix@),
        decreases es.len() - i,
    {
        assert(es@.skip(i as int).drop_first() =~= es@.skip(i + 1));
        assert(es@.skip(i as int)[0] == es@[i as int]);
        let k = text::chars_of(es[i].0.as_str());
        if text::eq(&k, &p) {
            return Some(es[i].1);
        }
        i += 1;
    }
    None
}

/// The measured rate of a source at `now`; `None` when never measured or
/// measured too long ago.
pub fn speed_of(s: &SourceSpeeds, prefix: &str, now: i64) -> (r: Option<u64>)
    ensures
        r == rate_at(s.entries@, prefix@, now),
{
    match find_sample(&s.entries, prefix) {
        Some(e) => {
            let age: i128 = now as i128 - e.at as i128;
            if age > SPEED_TTL_SECS as i128 {
                None
            } else {
                Some(e.kbps)
            }
        },
        None => None,
    }
}

/// Records a measured rate for a source at `now`, replacing its earlier one.
pub fn record_speed(s: &mut SourceSpeeds, prefix: &str, kbps: u64, now: i64)
    ensures
        sample_of(final(s).entries@, prefix@) == Some(SpeedSample { kbps, at: now }),
        forall|other: Seq<char>| other != prefix@ ==> sample_of(final(s).entries@, other)
            == sample_of(old(s).entries@, other),
        keys_unique(old(s).entries@) ==> keys_unique(final(s).entries@),
{
    let p = text::chars_of(prefix);
    let ghost old_es = s.entries@;
    let mut i: usize = 0;
    while i < s.entries.len()
        invariant
            i <= s.entries.len(),
            p@ == prefix@,
            s.entries@ == old_es,
            old_es == old(s).entries@,
            forall|k: int| 0 <= k < i ==> (#[trigger] old_es[k]).0@ != prefix@,
        decreases s.entries.len() - i,
    {
        let k = text::chars_of(s.entries[i].0.as_str());
        if text::eq(&k, &p) {
            let name = text::owned(prefix);
            s.entries.set(i, (name, SpeedSample { kbps, at: now }));
            assert forall|j: int| 0 <= j < s.entries@.len() implies (#[trigger] s.entries@[j]).0@ == old_es[j].0@ by {}
            proof {
                lemma_sample_update(old_es, i as int, s.entries@, prefix@);
            }
            return;
        }
        i += 1;
    }
    let name = text::owned(prefix);
    s.entries.push((name, SpeedSample { kbps, at: now }));
    assert forall|j: int| 0 <= j < old_es.len() implies (#[trigger] s.entries@[j]) == old_es[j] by {}
    proof {
        lemma_sample_push(old_es, s.entries@, prefix@);
    }
}

proof fn lemma_sample_update(a: Seq<(String, SpeedSample)>, i: int, b: Seq<(String, SpeedSample)>, p: Seq<char>)
    requires
        0 <= i < a.len(),
        b.len() == a.len(),
        forall|k: int| 0 <= k < b.len() && k != i ==> #[trigger] b[k] == a[k],
        b[i].0@ == p,
        a[i].0@ == p,
        forall|k: int| 0 <= k < i ==> (#[trigger] a[k]).0@ != p,
    ensures
        sample_of(b, p) == Some(b[i].1),
        forall|o: Seq<char>| o != p ==> sample_of(b, o) == sample_of(a, o),
    decreases i,
{
    if i > 0 {
        assert forall|k: int| 0 <= k < b.drop_first().len() && k != i - 1 implies #[trigger] b.drop_first()[k]
            == a.drop_first()[k] by {
            assert(b.drop_first()[k] == b[k + 1]);
        }
        assert forall|k: int| 0 <= k < i - 1 implies (#[trigger] a.drop_first()[k]).0@ != p by {
            assert(a.drop_first()[k] == a[k + 1]);
        }
        lemma_sample_update(a.drop_first(), i - 1, b.drop_first(), p);
        assert(b[0] == a[0]);
        assert forall|o: Seq<char>| o != p implies sample_of(b, o) == sample_of(a, o) by {
            assert(sample_of(b.drop_first(), o) == sample_of(a.drop_first(), o));
        }
    } else {
        assert(b.drop_first() =~= a.drop_first()) by {
            assert forall|k: int| 0 <= k < b.drop_first().len() implies b.drop_first()[k]
                == a.drop_first()[k] by {
                assert(b[k + 1] == a[k + 1]);
            }
        }
        assert forall|o: Seq<char>| o != p implies sample_of(b, o) == sample_of(a, o) by {
            assert(sample_of(b.drop_first(), o) == sample_of(a.drop_first(), o));
        }
    }
}

proof fn lemma_sample_push(a: Seq<(String, SpeedSample)>, b: Seq<(String, SpeedSample)>, p: Seq<char>)
    requires
        b.len() == a.len() + 1,
        forall|k: int| 0 <= k < a.len() ==> #[trigger] b[k] == a[k],
        b[a.len() as int].0@ == p,
        forall|k: int| 0 <= k < a.len() ==> (#[trigger] a[k]).0@ != p,
    ensures
        sample_of(b, p) == Some(b[a.len() as int].1),
        forall|o: Seq<char>| o != p ==> sample_of(b, o) == sample_of(a, o),
    decreases a.len(),
{
    if a.len() > 0 {
        assert forall|k: int| 0 <= k < a.drop_first().len() implies #[trigger] b.drop_first()[k]
            == a.drop_first()[k] by {
            assert(b.drop_first()[k] == b[k + 1]);
        }
        assert forall|k: int| 0 <= k < a.drop_first().len() implies (#[trigger] a.drop_first()[k]).0@
            != p by {
            assert(a.drop_first()[k] == a[k + 1]);
        }
        lemma_sample_push(a.drop_first(), b.drop_first(), p);
        assert(b[0] == a[0]);
        assert forall|o: Seq<char>| o != p implies sample_of(b, o) == sample_of(a, o) by {
            assert(sample_of(b.drop_first(), o) == sample_of(a.drop_first(), o));
        }
    } else {
        assert forall|o: Seq<char>| o != p implies sample_of(b, o) == sample_of(a, o) by {
            assert(sample_of(b.drop_first(), o) is None);
            assert(sample_of(a, o) is None);
        }
    }
}


pub open spec fn rates_for(es: Seq<(String, SpeedSample)>, ms: Seq<Seq<char>>, now: i64) -> Seq<(Seq<char>, Option<u64>)> {
    ms.map_values(|m: Seq<char>| (m, rate_at(es, m, now)))
}

/// Orders mirrors by their measured rates at `now` (see [`rank_by_scores`]).
pub fn rank_mirrors(ms: &Vec<String>, speeds: &SourceSpeeds, now: i64) -> (r: Vec<String>)
    ensures
        text::views(r@) == ranked(rates_for(speeds.entries@, text::views(ms@), now)),
{
    let mut items: Vec<(String, Option<u64>)> = Vec::new();
    let mut i: usize = 0;
    while i < ms.len()
        invariant
            i <= ms.len(),
            rated_views(items@) == rates_for(speeds.entries@, text::views(ms@), now).take(i as int),
        decreases ms.len() - i,
    {
        let k = speed_of(speeds, ms[i].as_str(), now);
        let ghost before = rated_views(items@);
        items.push((text::copy_string(&ms[i]), k));
        assert(rated_views(items@) =~= before.push((ms@[i as int]@, k)));
        assert(rates_for(speeds.entries@, text::views(ms@), now)[i as int] == (ms@[i as int]@, k));
        assert(rated_views(items@) =~= rates_for(speeds.entries@, text::views(ms@), now).take(i + 1));
        i += 1;
    }
    assert(rates_for(speeds.entries@, text::views(ms@), now).take(ms.len() as int) =~= rates_for(
        speeds.entries@,
        text::views(ms@),
        now,
    ));
    rank_by_scores(&items)
}

/// The built-in mirrors other than `c`, in their order.
pub open spec fn other_mirrors(c: Seq<char>) -> Seq<Seq<char>> {
    without(mirror_list(), c)
}

/// `s` without the entries equal to `c`.
pub open spec fn without(s: Seq<Seq<char>>, c: Seq<char>) -> Seq<Seq<char>>
    decreases s.len(),
{
    if s.len() == 0 {
        s
    } else if s.last() == c {
        without(s.drop_last(), c)
    } else {
        without(s.drop_last(), c).push(s.last())
    }
}

/// The mirrors to try: the chosen source (trimmed) first when there is
/// one, then the other built-in mirrors ordered by measured rate at `now`.
pub open spec fn mirrors_for(custom: Seq<char>, es: Seq<(String, SpeedSample)>, now: i64) -> Seq<Seq<char>> {
    let c = text::trim(custom);
    let rest = ranked(rates_for(es, other_mirrors(c), now));
    if c.len() == 0 {
        rest
    } else {
        seq![c] + rest
    }
}

/// The mirrors to try, for a chosen source (empty for none).
pub fn mirrors(custom: &str, speeds: &SourceSpeeds, now: i64) -> (r: Vec<String>)
    ensures
        text::views(r@) == mirrors_for(custom@, speeds.entries@, now),
{
    let c = text::trim_str(custom);
    let mut rest: Vec<String> = Vec::new();
    let mut i: usize = 0;
    let ghost ml = mirror_list();

    while i < 3
        invariant
            i <= 3,
            ml == mirror_list(),
            text::views(rest@) == without(ml.take(i as int), c@),
        decreases 3 - i,
    {
        let m: &str = if i == 0 {
            "https://gh-proxy.com/"
        } else if i == 1 {
            "https://ghfast.top/"
        } else {
            "https://ghproxy.net/"
        };
        assert(m@ == ml[i as int]);
        let mv = text::chars_of(m);
        assert(ml.take(i + 1).drop_last() =~= ml.take(i as int));
        assert(ml.take(i + 1).last() == m@);
        if !text::eq(&mv, &c) {
            let ghost before = text::views(rest@);
            rest.push(text::owned(m));
            assert(text::views(rest@) =~= before.push(m@));
        }
        i += 1;
    }
    assert(ml.take(3) =~= ml);
    let ranked_rest = rank_mirrors(&rest, speeds, now);
    if c.len() == 0 {
        ranked_rest
    } else {
        let mut out: Vec<String> = Vec::new();
        out.push(text::string_of(&c));
        let mut j: usize = 0;
        while j < ranked_rest.len()
            invariant
                j <= ranked_rest.len(),
                text::views(out@) == seq![c@] + text::views(ranked_rest@).take(j as int),
            decreases ranked_rest.len() - j,
        {
            let ghost o = text::views(out@);
            out.push(text::copy_string(&ranked_rest[j]));
            assert(text::views(out@) =~= o.push(ranked_rest@[j as int]@));
            assert(text::views(ranked_rest@)[j as int] == ranked_rest@[j as int]@);
            assert(text::views(out@) =~= seq![c@] + text::views(ranked_rest@).take(j + 1));
            j += 1;
        }
        assert(text::views(ranked_rest@).take(ranked_rest.len() as int) =~= text::views(
            ranked_rest@,
        ));
        out
    }
}

// ------------------------------------------------------------ trying sources

/// One address to try: the full URL, the source prefix (empty for the
/// official source) and the kind of source it is.
#[derive(Debug, Clone)]
pub struct Candidate {
    pub url: String,
    pub prefix: String,
    pub label: &'static str,
}

pub open spec fn candidate_views(v: Seq<Candidate>) -> Seq<(Seq<char>, Seq<char>, Seq<char>)> {
    v.map_values(|c: Candidate| (c.url@, c.prefix@, c.label@))
}

pub open spec fn mirror_candidates(official: Seq<char>, ms: Seq<Seq<char>>) -> Seq<(Seq<char>, Seq<char>, Seq<char>)> {
    ms.map_values(|m: Seq<char>| (m + official, m, "备用源"@))
}

/// The order sources are tried in. A download tries the mirrors first and
/// the official source last; a probe, which needs the official fingerprint,
/// tries the official source first.
pub open spec fn candidates_for(official: Seq<char>, ms: Seq<Seq<char>>, download: bool) -> Seq<(Seq<char>, Seq<char>, Seq<char>)> {
    let own = (official, Seq::<char>::empty(), "官方源"@);
    if download {
        mirror_candidates(official, ms).push(own)
    } else {
        seq![own] + mirror_candidates(official, ms)
    }
}

/// The addresses to try for an official URL, in order.
pub fn source_candidates(official: &str, mirrors: &Vec<String>, download: bool) -> (r: Vec<Candidate>)
    ensures
        candidate_views(r@) == candidates_for(official@, text::views(mirrors@), download),
{
    let ghost mc = mirror_candidates(official@, text::views(mirrors@));
    let mut ms: Vec<Candidate> = Vec::new();
    let mut i: usize = 0;
    while i < mirrors.len()
        invariant
            i <= mirrors.len(),
            mc == mirror_candidates(official@, text::views(mirrors@)),
            candidate_views(ms@) == mc.take(i as int),
        decreases mirrors.len() - i,
    {
        let url = text::cat2(mirrors[i].as_str(), official);
        let c = Candidate { url, prefix: text::copy_string(&mirrors[i]), label: "备用源" };
        let ghost before = candidate_views(ms@);
        let ghost cv = (c.url@, c.prefix@, c.label@);
        ms.push(c);
        assert(candidate_views(ms@) =~= before.push(cv));
        assert(mc[i as int] == (mirrors@[i as int]@ + official@, mirrors@[i as int]@, "备用源"@));
        assert(candidate_views(ms@) =~= mc.take(i + 1));
        i += 1;
    }
    assert(mc.take(mirrors.len() as int) =~= mc);
    let own = Candidate { url: text::owned(official), prefix: String::new(), label: "官方源" };
    if download {
        let ghost before = candidate_views(ms@);
        ms.push(own);
        assert(candidate_views(ms@) =~= candidates_for(official@, text::views(mirrors@), download));
        ms
    } else {
        let mut out: Vec<Candidate> = Vec::new();
        out.push(own);
        let mut j: usize = 0;
        while j < ms.len()
            invariant
                j <= ms.len(),
                candidate_views(out@) == seq![(official@, Seq::<char>::empty(), "官方源"@)]
                    + candidate_views(ms@).take(j as int),
            decreases ms.len() - j,
        {
            let c = Candidate {
                url: text::copy_string(&ms[j].url),
                prefix: text::copy_string(&ms[j].prefix),
                label: ms[j].label,
            };
            let ghost before = candidate_views(out@);
            let ghost cv = (c.url@, c.prefix@, c.label@);
            assert(cv == candidate_views(ms@)[j as int]);
            out.push(c);
            assert(candidate_views(out@) =~= before.push(cv));
            assert(candidate_views(out@) =~= seq![(official@, Seq::<char>::empty(), "官方源"@)]
                + candidate_views(ms@).take(j + 1));
            j += 1;
        }
        assert(candidate_views(ms@).take(ms.len() as int) =~= candidate_views(ms@));
        out
    }
}

/// The failure of the last source tried, when every source failed: the
/// messages of each, joined.
pub fn sources_failed(errs: &Vec<String>) -> (r: String)
    ensures
        r@ == text::join(text::views(errs@), "；"@),
{
    let v = text::join_strings(errs, "；");
    text::string_of(&v)
}

/// What follows an attempt on a source.
pub enum SourceNext {
    /// The attempt succeeded: its result is the answer.
    Stop,
    /// Try the source at this index.
    TryNext(usize),
    /// Every source failed: this message says why.
    GiveUp(String),
}

pub enum SourceNextV {
    Stop,
    TryNext(int),
    GiveUp(Seq<char>),
}

impl View for SourceNext {
    type V = SourceNextV;

    open spec fn view(&self) -> SourceNextV {
        match *self {
            SourceNext::Stop => SourceNextV::Stop,
            SourceNext::TryNext(i) => SourceNextV::TryNext(i as int),
            SourceNext::GiveUp(m) => SourceNextV::GiveUp(m@),
        }
    }
}

/// The record of a failed attempt: the source's label and the error.
pub open spec fn failure_note(label: Seq<char>, err: Seq<char>) -> Seq<char> {
    label + "："@ + err
}

/// The step before the attempt on source `i`: a run whose cancel flag is
/// set stops with the cancellation message, before trying anything more.
pub fn before_attempt(i: usize, cancelled: bool) -> (r: SourceNext)
    ensures
        cancelled ==> r@ == SourceNextV::GiveUp(CANCELLED_MSG@),
        !cancelled ==> r@ == SourceNextV::TryNext(i as int),
{
    if cancelled {
        SourceNext::GiveUp(text::owned(CANCELLED_MSG))
    } else {
        SourceNext::TryNext(i)
    }
}

/// The step after the attempt on source `i` of `n` (in the order of
/// [`source_candidates`]), with `cancelled` the cancel flag as read after
/// it: a success stops; a failure with the flag set stops with the
/// cancellation message; any other failure is recorded in `errs` as
/// `label：error`, then the next source is tried (its own step,
/// [`before_attempt`], checks the flag again), or, after the last, the run
/// gives up with every recorded failure joined.
pub fn after_attempt(
    i: usize,
    n: usize,
    ok: bool,
    cancelled: bool,
    label: &str,
    err: &str,
    errs: &mut Vec<String>,
) -> (r: SourceNext)
    requires
        i < n,
    ensures
        ok ==> r@ == SourceNextV::Stop && final(errs)@ == old(errs)@,
        !ok && cancelled ==> r@ == SourceNextV::GiveUp(CANCELLED_MSG@) && final(errs)@
            == old(errs)@,
        !ok && !cancelled ==> text::views(final(errs)@) == text::views(old(errs)@).push(
            failure_note(label@, err@),
        ),
        !ok && !cancelled && i + 1 < n ==> r@ == SourceNextV::TryNext(i + 1),
        !ok && !cancelled && i + 1 == n ==> r@ == SourceNextV::GiveUp(
            text::join(text::views(final(errs)@), "；"@),
        ),
{
    if ok {
        return SourceNext::Stop;
    }
    if cancelled {
        return SourceNext::GiveUp(text::owned(CANCELLED_MSG));
    }
    let ghost before = text::views(errs@);
    errs.push(text::cat3(label, "：", err));
    proof {
        assert(text::views(errs@) =~= before.push(failure_note(label@, err@)));
    }
    if i + 1 < n {
        SourceNext::TryNext(i + 1)
    } else {
        SourceNext::GiveUp(sources_failed(errs))
    }
}

// ------------------------------------------------------------ response checks

pub open spec fn is_hex(c: char) -> bool {
    ('0' <= c && c <= '9') || ('a' <= c && c <= 'f') || ('A' <= c && c <= 'F')
}

/// The content fingerprint an `ETag` header value gives: trimmed, quotes
/// and the space inside them stripped, lower-cased; kept only when it has the
/// shape of a SHA-256 (64 hexadecimal digits).
pub open spec fn etag_value(raw: Seq<char>) -> Option<Seq<char>> {
    let v = text::ascii_lower(text::trim(strip_both(text::trim(raw), '"')));
    if v.len() == 64 && forall|i: int| 0 <= i < v.len() ==> is_hex(#[trigger] v[i]) {
        Some(v)
    } else {
        None
    }
}

/// The fingerprint an `ETag` header value gives, if it has the right shape.
pub fn etag_of(raw: &str) -> (r: Option<String>)
    ensures
        match etag_value(raw@) {
            Some(v) => r matches Some(x) && x@ == v,
            None => r is None,
        },
{
    let a = text::trim_str(raw);
    let b = strip_lead_vec(&a, '"');
    let c = strip_trail_vec(&b, '"');
    let d = text::trim_vec(&c);
    let v = text::lower_vec(&d);
    if v.len() != 64 {
        return None;
    }
    let mut i: usize = 0;
    while i < v.len()
        invariant
            i <= v.len(),
            v@ == text::ascii_lower(text::trim(strip_both(text::trim(raw@), '"'))),
            forall|k: int| 0 <= k < i ==> is_hex(#[trigger] v@[k]),
        decreases v.len() - i,
    {
        let ch = v[i];
        if !(('0' <= ch && ch <= '9') || ('a' <= ch && ch <= 'f') || ('A' <= ch && ch <= 'F')) {
            assert(!is_hex(v@[i as int]));
            return None;
        }
        i += 1;
    }
    Some(text::string_of(&v))
}

/// What went wrong with a request, as far as the message depends on it.
#[derive(Debug, Clone)]
pub enum NetError {
    Timeout,
    Connect,
    /// The server answered with an error status (0 when it is not known).
    Status(u16),
    Decode,
    /// The request or its body could not be sent.
    Request,
    /// Anything else, with the error's own text.
    Other(String),
}

pub open spec fn net_error_text(e: NetError) -> Seq<char> {
    match e {
        NetError::Timeout => "连接超时，网络太慢或连接被拦截"@,
        NetError::Connect => "连不上下载服务器（网络被墙、DNS 或代理问题）"@,
        NetError::Status(code) => "服务器返回错误状态 "@ + text::decimal(code as nat),
        NetError::Decode => "响应内容无法解码"@,
        NetError::Request => "请求发送失败，通常是网络被拦截或 DNS 解析不了。可以改用备用源重试。"@,
        NetError::Other(t) => "网络请求失败（可以改用备用源重试）："@ + t@,
    }
}

/// A request failure in words a user can act on.
pub fn friendly_error(e: &NetError) -> (r: String)
    ensures
        r@ == net_error_text(*e),
{
    match e {
        NetError::Timeout => text::owned("连接超时，网络太慢或连接被拦截"),
        NetError::Connect => text::owned("连不上下载服务器（网络被墙、DNS 或代理问题）"),
        NetError::Status(code) => {
            let mut out = text::chars_of("服务器返回错误状态 ");
            let d = text::decimal_vec(*code as u64);
            text::extend(&mut out, &d);
            text::string_of(&out)
        },
        NetError::Decode => text::owned("响应内容无法解码"),
        NetError::Request => text::owned(
            "请求发送失败，通常是网络被拦截或 DNS 解析不了。可以改用备用源重试。",
        ),
        NetError::Other(t) => text::cat2("网络请求失败（可以改用备用源重试）：", t.as_str()),
    }
}

/// Why a finished download is thrown away.
pub open spec fn download_problem(repo_path: Seq<char>, expect_etag: Option<Seq<char>>, resp_etag: Option<Seq<char>>, total: u64, got: u64) -> Option<Seq<char>> {
    if expect_etag is Some && resp_etag is Some && !text::eq_ic(expect_etag.unwrap(), resp_etag.unwrap()) {
        Some("完整性校验失败："@ + repo_path + " 的内容指纹和仓库对不上，已丢弃（镜像可能返回了错误内容）"@)
    } else if total > 0 && got != total {
        Some("下载不完整："@ + repo_path + " 期望 "@ + text::decimal(total as nat) + " 字节，实际只收到 "@
            + text::decimal(got as nat) + " 字节，已丢弃"@)
    } else {
        None
    }
}

pub open spec fn opt_str_view(o: Option<&str>) -> Option<Seq<char>> {
    match o {
        Some(s) => Some(s@),
        None => None,
    }
}

/// Checks a finished download: the response's fingerprint must match the
/// expected one (ignoring ASCII case) when both are known, and the bytes
/// received must be the announced length when one was announced.
pub fn check_download(repo_path: &str, expect_etag: Option<&str>, resp_etag: Option<&str>, total: u64, got: u64) -> (r: Result<(), String>)
    ensures
        match download_problem(repo_path@, opt_str_view(expect_etag), opt_str_view(resp_etag), total, got) {
            Some(m) => r matches Err(e) && e@ == m,
            None => r is Ok,
        },
{
    if let (Some(exp), Some(g)) = (expect_etag, resp_etag) {
        let a = text::chars_of(exp);
        let b = text::chars_of(g);
        if !text::eq_ignore_case(&a, &b) {
            return Err(text::cat3(
                "完整性校验失败：",
                repo_path,
                " 的内容指纹和仓库对不上，已丢弃（镜像可能返回了错误内容）",
            ));
        }
    }
    if total > 0 && got != total {
        let mut out = text::chars_of("下载不完整：");
        text::extend_str(&mut out, repo_path);
        text::extend_str(&mut out, " 期望 ");
        let t = text::decimal_vec(total);
        text::extend(&mut out, &t);
        text::extend_str(&mut out, " 字节，实际只收到 ");
        let g = text::decimal_vec(got);
        text::extend(&mut out, &g);
        text::extend_str(&mut out, " 字节，已丢弃");
        return Err(text::string_of(&out));
    }
    Ok(())
}

// ------------------------------------------------------------ the deploy-time INI

/// A trimmed INI line that is not a comment and sets `key`: it starts with
/// `key` immediately followed by `=`.
pub open spec fn sets_key(t: Seq<char>, key: Seq<char>) -> bool {
    &&& !(t.len() > 0 && (t[0] == ';' || t[0] == '#'))
    &&& text::starts_with(t, key)
    &&& t.len() > key.len()
    &&& t[key.len() as int] == '='
}

/// The value of `key` in the first line that sets it, trimmed.
pub open spec fn ini_value_in(ls: Seq<Seq<char>>, key: Seq<char>) -> Option<Seq<char>>
    decreases ls.len(),
{
    if ls.len() == 0 {
        None
    } else {
        let t = text::trim(ls[0]);
        if sets_key(t, key) {
            Some(text::trim(t.skip(key.len() + 1 as int)))
        } else {
            ini_value_in(ls.drop_first(), key)
        }
    }
}

fn sets_key_exec(t: &[char], key: &[char]) -> (r: bool)
    ensures
        r == sets_key(t@, key@),
{
    if t.len() > 0 && (t[0] == ';' || t[0] == '#') {
        return false;
    }
    if !text::starts_with_exec(t, key) {
        return false;
    }
    t.len() > key.len() && t[key.len()] == '='
}

/// The value of `key` in an INI text (comment lines skipped), trimmed.
pub fn ini_get(text: &str, key: &str) -> (r: Option<String>)
    ensures
        match ini_value_in(text::lines(text@), key@) {
            Some(v) => r matches Some(x) && x@ == v,
            None => r is None,
        },
{
    let s = text::chars_of(text);
    let k = text::chars_of(key);
    let ls = text::lines_of(&s);
    let ghost gl = text::lines(text@);
    let mut i: usize = 0;
    assert(gl.skip(0) =~= gl);
    while i < ls.len()
        invariant
            i <= ls.len(),
            s@ == text@,
            k@ == key@,
            gl == text::lines(text@),
            ls@.len() == gl.len(),
            forall|j: int| 0 <= j < ls@.len() ==> #[trigger] ls@[j]@ == gl[j],
            ini_value_in(gl, key@) == ini_value_in(gl.skip(i as int), key@),
        decreases ls.len() - i,
    {
        assert(gl.skip(i as int).drop_first() =~= gl.skip(i + 1));
        assert(gl.skip(i as int)[0] == ls@[i as int]@);
        let t = text::trim_vec(&ls[i]);
        if sets_key_exec(&t, &k) {
            assert(k.len() < t.len());
            let rest = text::slice_vec(&t, k.len() + 1, t.len());
            assert(rest@ =~= t@.skip(key@.len() + 1 as int));
            let v = text::trim_vec(&rest);
            return Some(text::string_of(&v));
        }
        i += 1;
    }
    None
}

/// A line after setting `key` to `value`: a line that sets the key becomes
/// `key=value`; any other is kept.
pub open spec fn set_line(line: Seq<char>, key: Seq<char>, value: Seq<char>) -> Seq<char> {
    if sets_key(text::trim(line), key) {
        key + "="@ + value
    } else {
        line
    }
}

pub open spec fn set_lines(ls: Seq<Seq<char>>, key: Seq<char>, value: Seq<char>) -> Seq<Seq<char>> {
    ls.map_values(|l: Seq<char>| set_line(l, key, value))
}

/// Some line sets the key.
pub open spec fn has_key(ls: Seq<Seq<char>>, key: Seq<char>) -> bool {
    exists|i: int| 0 <= i < ls.len() && sets_key(text::trim(#[trigger] ls[i]), key)
}

/// The text with every line that sets `key` replaced by `key=value`, the
/// other lines and the final newline (if any) kept; `None` when no line
/// sets the key.
pub open spec fn ini_set_of(t: Seq<char>, key: Seq<char>, value: Seq<char>) -> Option<Seq<char>> {
    let ls = text::lines(t);
    if has_key(ls, key) {
        Some(text::join(set_lines(ls, key, value), seq!['\n']) + if t.len() > 0 && t.last() == '\n' {
            seq!['\n']
        } else {
            Seq::empty()
        })
    } else {
        None
    }
}

/// Sets `key` to `value` in an INI text, keeping the other lines and the
/// comments; `None` when no line sets the key.
pub fn ini_set(text: &str, key: &str, value: &str) -> (r: Option<String>)
    ensures
        match ini_set_of(text@, key@, value@) {
            Some(v) => r matches Some(x) && x@ == v,
            None => r is None,
        },
{
    let s = text::chars_of(text);
    let k = text::chars_of(key);
    let ls = text::lines_of(&s);
    let ghost gl = text::lines(text@);
    let mut out: Vec<String> = Vec::new();
    let mut found = false;
    let mut i: usize = 0;
    while i < ls.len()
        invariant
            i <= ls.len(),
            s@ == text@,
            k@ == key@,
            gl == text::lines(text@),
            ls@.len() == gl.len(),
            forall|j: int| 0 <= j < ls@.len() ==> #[trigger] ls@[j]@ == gl[j],
            text::views(out@) == set_lines(gl, key@, value@).take(i as int),
            found == has_key(gl.take(i as int), key@),
        decreases ls.len() - i,
    {
        let t = text::trim_vec(&ls[i]);
        let ghost before = text::views(out@);
        assert(ls@[i as int]@ == gl[i as int]);
        if sets_key_exec(&t, &k) {
            let line = text::cat3(key, "=", value);
            out.push(line);
            assert(set_lines(gl, key@, value@)[i as int] == key@ + "="@ + value@);
            assert(text::views(out@) =~= before.push(key@ + "="@ + value@));
            assert(sets_key(text::trim(gl.take(i + 1)[i as int]), key@));
            found = true;
        } else {
            let line = text::string_of(&ls[i]);
            out.push(line);
            assert(set_lines(gl, key@, value@)[i as int] == gl[i as int]);
            assert(text::views(out@) =~= before.push(gl[i as int]));
            proof {
                if has_key(gl.take(i + 1), key@) {
                    let w = choose|w: int|
                        0 <= w < gl.take(i + 1).len() && sets_key(
                            text::trim(#[trigger] gl.take(i + 1)[w]),
                            key@,
                        );
                    assert(w != i);
                    assert(gl.take(i as int)[w] == gl.take(i + 1)[w]);
                }
            }
        }
        proof {
            assert(text::views(out@) =~= set_lines(gl, key@, value@).take(i + 1));
            if has_key(gl.take(i as int), key@) {
                let w = choose|w: int|
                    0 <= w < gl.take(i as int).len() && sets_key(
                        text::trim(#[trigger] gl.take(i as int)[w]),
                        key@,
                    );
                assert(gl.take(i + 1)[w] == gl.take(i as int)[w]);
            }
        }
        i += 1;
    }
    assert(gl.take(ls.len() as int) =~= gl);
    if !found {
        return None;
    }
    let mut joined = text::join_strings(&out, "\n");
    assert(seq!['\n'] =~= "\n"@) by {
        reveal_strlit("\n");
    }
    assert(set_lines(gl, key@, value@).take(ls.len() as int) =~= set_lines(gl, key@, value@));
    let ghost j0 = text::join(set_lines(gl, key@, value@), seq!['\n']);
    assert(joined@ == j0);
    if s.len() > 0 && s[s.len() - 1] == '\n' {
        joined.push('\n');
        assert(joined@ =~= j0 + seq!['\n']);
    } else {
        assert(joined@ =~= j0 + Seq::<char>::empty());
    }
    Some(text::string_of(&joined))
}

/// A key that some trimmed line sets starts with no whitespace, `;` or
/// `#`, and holds no newline.
proof fn lemma_key_shape(ls: Seq<Seq<char>>, key: Seq<char>)
    requires
        has_key(ls, key),
        forall|k: int| 0 <= k < ls.len() ==> text::free_of(#[trigger] ls[k], '\n'),
    ensures
        key.len() > 0 ==> !text::is_ws(key[0]) && key[0] != ';' && key[0] != '#',
        text::free_of(key, '\n'),
{
    let w = choose|w: int| 0 <= w < ls.len() && sets_key(text::trim(#[trigger] ls[w]), key);
    let t = text::trim(ls[w]);
    text::lemma_trim_facts(ls[w], '\n');
    assert(t.subrange(0, key.len() as int) == key);
    assert forall|i: int| 0 <= i < key.len() implies key[i] != '\n' by {
        assert(key[i] == t[i]);
    }
    if key.len() > 0 {
        assert(key[0] == t[0]);
    }
}

/// The line `key=value` sets `key`, and the value read from it is `value`
/// trimmed.
proof fn lemma_set_line_reads_back(key: Seq<char>, value: Seq<char>)
    requires
        key.len() > 0 ==> !text::is_ws(key[0]) && key[0] != ';' && key[0] != '#',
    ensures
        sets_key(text::trim(key + "="@ + value), key),
        text::trim(text::trim(key + "="@ + value).skip(key.len() + 1 as int)) == text::trim(value),
{
    reveal_strlit("=");
    let x = key + "="@;
    let l = x + value;
    assert(key + "="@ + value == l);
    assert(l[0] == x[0]);
    assert(text::trim_start(l) == l);
    text::lemma_trim_end_append(x, value);
    let t = text::trim(l);
    assert(t == x + text::trim_end(value));
    assert(t.subrange(0, key.len() as int) =~= key);
    assert(t[key.len() as int] == '=');
    assert(t.skip(key.len() + 1 as int) =~= text::trim_end(value));
    text::lemma_trim_trim_end(value);
}

/// After every line that sets `key` became `key=value`, the value read for
/// `key` is `value` trimmed.
proof fn lemma_value_after_set(ls: Seq<Seq<char>>, key: Seq<char>, value: Seq<char>)
    requires
        has_key(ls, key),
        key.len() > 0 ==> !text::is_ws(key[0]) && key[0] != ';' && key[0] != '#',
    ensures
        ini_value_in(set_lines(ls, key, value), key) == Some(text::trim(value)),
    decreases ls.len(),
{
    let sl = set_lines(ls, key, value);
    let w = choose|w: int| 0 <= w < ls.len() && sets_key(text::trim(#[trigger] ls[w]), key);
    assert(sl[0] == set_line(ls[0], key, value));
    if sets_key(text::trim(ls[0]), key) {
        lemma_set_line_reads_back(key, value);
    } else {
        assert(w > 0);
        let rest = ls.drop_first();
        assert(rest[w - 1] == ls[w]);
        assert(has_key(rest, key));
        lemma_value_after_set(rest, key, value);
        assert(sl.drop_first() =~= set_lines(rest, key, value));
    }
}

/// What the INI holds for a key after it was set is the value written,
/// trimmed: reading `key` from the text [`ini_set`] returns gives `value`
/// back (a value holding a newline would start a new line, and is left out).
pub proof fn law_ini_get_after_set(t: Seq<char>, key: Seq<char>, value: Seq<char>)
    requires
        ini_set_of(t, key, value) is Some,
        text::free_of(value, '\n'),
    ensures
        ini_value_in(text::lines(ini_set_of(t, key, value).unwrap()), key) == Some(text::trim(value)),
{
    reveal_strlit("=");
    let ls = text::lines(t);
    text::lemma_lines_parts(t);
    lemma_key_shape(ls, key);
    let sl = set_lines(ls, key, value);
    assert forall|k: int| 0 <= k < sl.len() implies text::free_of(#[trigger] sl[k], '\n') by {
        assert(sl[k] == set_line(ls[k], key, value));
        assert(text::free_of(ls[k], '\n'));
        if sets_key(text::trim(ls[k]), key) {
            let l = key + "="@ + value;
            assert forall|i: int| 0 <= i < l.len() implies l[i] != '\n' by {
                if i < key.len() {
                    assert(l[i] == key[i]);
                } else if i > key.len() {
                    assert(l[i] == value[i - key.len() - 1]);
                }
            }
        }
    }
    let nl = t.len() > 0 && t.last() == '\n';
    let w = choose|w: int| 0 <= w < ls.len() && sets_key(text::trim(#[trigger] ls[w]), key);
    assert(ls.len() > 0);
    assert(t.len() > 0);
    if !nl {
        assert(ls.last().len() > 0);
        assert(sl.last() == set_line(ls.last(), key, value));
        assert(sl.last().len() > 0);
    }
    text::lemma_lines_join(sl, nl);
    lemma_value_after_set(ls, key, value);
}

/// The INI to deploy: where it is written, and what was changed from the
/// upstream file, in words (empty when it is the upstream file).
#[derive(Debug, Clone)]
pub struct IniPlan {
    pub path: String,
    pub changes: Vec<String>,
}

/// The note of a Router rewrite: the upstream value (or that none was
/// read) and the GPU that needs SM75.
pub open spec fn router_note(before: Seq<char>, gpu: Option<Seq<char>>) -> Seq<char> {
    "Router：上游默认 "@ + (if before.len() == 0 {
        "未读到"@
    } else {
        before
    }) + " → 改为 SM75。原因：本机显卡是 "@ + (match gpu {
        Some(g) => g,
        None => "RTX 20 / GTX 16 系"@,
    }) + "，属于 Turing / SM75 架构，走 SM86 路由不会生效。"@
}

/// The INI text to deploy for a GPU route, with its change notes. RTX 30
/// keeps upstream's file. RTX 20 / GTX 16 (SM75) need `Router=SM75`: a
/// file with a Router line gets it (noted unless it already was SM75); a
/// file without one is deployed as it is.
pub open spec fn deploy_ini_of(t: Seq<char>, route: GpuRoute, gpu: Option<Seq<char>>) -> (Seq<char>, Seq<Seq<char>>) {
    if route != GpuRoute::Sm75 {
        (t, Seq::empty())
    } else {
        let before = match ini_value_in(text::lines(t), "Router"@) {
            Some(v) => v,
            None => Seq::empty(),
        };
        match ini_set_of(t, "Router"@, "SM75"@) {
            None => (t, Seq::empty()),
            Some(patched) => (patched, if before != "SM75"@ {
                seq![router_note(before, gpu)]
            } else {
                Seq::empty()
            }),
        }
    }
}

pub open spec fn opt_view(o: Option<&str>) -> Option<Seq<char>> {
    match o {
        Some(s) => Some(s@),
        None => None,
    }
}

/// Rewrites the upstream INI text for a GPU route.
pub fn deploy_ini_text(upstream: &str, route: GpuRoute, gpu_name: Option<&str>) -> (r: (String, Vec<String>))
    ensures
        (r.0@, text::views(r.1@)) == deploy_ini_of(upstream@, route, opt_view(gpu_name)),
{
    if route != GpuRoute::Sm75 {
        let v: Vec<String> = Vec::new();
        assert(text::views(v@) =~= Seq::<Seq<char>>::empty());
        return (text::owned(upstream), v);
    }
    let before = match ini_get(upstream, "Router") {
        Some(v) => v,
        None => String::new(),
    };
    let mut changes: Vec<String> = Vec::new();
    match ini_set(upstream, "Router", "SM75") {
        None => {
            assert(text::views(changes@) =~= Seq::<Seq<char>>::empty());
            (text::owned(upstream), changes)
        },
        Some(patched) => {
            let b = text::chars_of(before.as_str());
            if !is_name(&b, "SM75") {
                let shown: &str = if b.len() == 0 {
                    "未读到"
                } else {
                    before.as_str()
                };
                let gpu: &str = match gpu_name {
                    Some(g) => g,
                    None => "RTX 20 / GTX 16 系",
                };
                let mut out = text::chars_of("Router：上游默认 ");
                text::extend_str(&mut out, shown);
                text::extend_str(&mut out, " → 改为 SM75。原因：本机显卡是 ");
                text::extend_str(&mut out, gpu);
                text::extend_str(&mut out, "，属于 Turing / SM75 架构，走 SM86 路由不会生效。");
                changes.push(text::string_of(&out));
                assert(text::views(changes@) =~= seq![out@]);
            } else {
                assert(text::views(changes@) =~= Seq::<Seq<char>>::empty());
            }
            (patched, changes)
        },
    }
}

/// Prepares the INI to deploy from the upstream file's text (`None` when
/// it has not been downloaded), to be written at `dest`; the plan, and the
/// text to write.
pub fn prepare_deploy_ini(upstream: Option<&str>, route: GpuRoute, gpu_name: Option<&str>, dest: &str) -> (r: Result<(IniPlan, String), String>)
    ensures
        upstream is None <==> r is Err,
        r matches Err(e) ==> e@ == "还没有下载 dlssg_sm86.ini, 请先点「下载 / 更新资产」"@,
        upstream matches Some(u) ==> (r matches Ok(p) && p.0.path@ == dest@ && (p.1@, text::views(
            p.0.changes@,
        )) == deploy_ini_of(u@, route, opt_view(gpu_name))),
{
    match upstream {
        None => Err(text::owned("还没有下载 dlssg_sm86.ini, 请先点「下载 / 更新资产」")),
        Some(u) => {
            let (t, changes) = deploy_ini_text(u, route, gpu_name);
            Ok((IniPlan { path: text::owned(dest), changes }, t))
        },
    }
}

// ------------------------------------------------------------ one file out of a ZIP

/// Why no DLL could be taken out of a ZIP archive.
#[derive(Debug, Clone, Copy, PartialEq, Eq, Structural)]
pub enum ZipError {
    TooSmall,
    NoEnd,
    DirOutOfRange,
    NoDll,
    LocalHeader,
    DataOutOfRange,
    Inflate,
    Method(u16),
    Empty,
}

pub open spec fn zip_error_text(e: ZipError) -> Seq<char> {
    match e {
        ZipError::TooSmall => "zip 文件太小，不像是有效的压缩包"@,
        ZipError::NoEnd => "找不到 zip 中央目录结尾，可能不是有效的 zip"@,
        ZipError::DirOutOfRange => "zip 中央目录偏移越界"@,
        ZipError::NoDll => "zip 里没有 .dll 文件"@,
        ZipError::LocalHeader => "zip 本地头损坏"@,
        ZipError::DataOutOfRange => "zip 数据区越界"@,
        ZipError::Inflate => "Deflate 解压失败"@,
        ZipError::Method(m) => "不支持的 zip 压缩方式 "@ + text::decimal(m as nat),
        ZipError::Empty => "解压结果是空文件"@,
    }
}

impl ZipError {
    /// The text the failure is reported with.
    pub fn message(&self) -> (r: String)
        ensures
            r@ == zip_error_text(*self),
    {
        match self {
            ZipError::TooSmall => text::owned("zip 文件太小，不像是有效的压缩包"),
            ZipError::NoEnd => text::owned("找不到 zip 中央目录结尾，可能不是有效的 zip"),
            ZipError::DirOutOfRange => text::owned("zip 中央目录偏移越界"),
            ZipError::NoDll => text::owned("zip 里没有 .dll 文件"),
            ZipError::LocalHeader => text::owned("zip 本地头损坏"),
            ZipError::DataOutOfRange => text::owned("zip 数据区越界"),
            ZipError::Inflate => text::owned("Deflate 解压失败"),
            ZipError::Method(m) => {
                let mut out = text::chars_of("不支持的 zip 压缩方式 ");
                let d = text::decimal_vec(*m as u64);
                text::extend(&mut out, &d);
                text::string_of(&out)
            },
            ZipError::Empty => text::owned("解压结果是空文件"),
        }
    }
}

/// A ZIP signature `PK a b` at `i`.
pub open spec fn sig_at(d: Seq<u8>, i: int, a: u8, b: u8) -> bool {
    0 <= i && i + 4 <= d.len() && d[i] == 0x50 && d[i + 1] == 0x4b && d[i + 2] == a && d[i + 3]
        == b
}

fn sig_at_exec(d: &[u8], i: usize, a: u8, b: u8) -> (r: bool)
    ensures
        r == sig_at(d@, i as int, a, b),
{
    i <= d.len() && d.len() - i >= 4 && d[i] == 0x50 && d[i + 1] == 0x4b && d[i + 2] == a
        && d[i + 3] == b
}

/// The end-of-central-directory record: the last signature at or before
/// `i`, searched no further back than `lo`.
pub open spec fn eocd_from(d: Seq<u8>, i: int, lo: int) -> Option<int>
    decreases i - lo,
{
    if i < lo {
        None
    } else if sig_at(d, i, 5, 6) {
        Some(i)
    } else if i <= lo {
        None
    } else {
        eocd_from(d, i - 1, lo)
    }
}

/// The name ends in `.dll`, in any ASCII case. (A lossily decoded name
/// ends so exactly when its bytes do: ASCII bytes always decode as
/// themselves.)
pub open spec fn dll_name(b: Seq<u8>) -> bool {
    b.len() >= 4 && b[b.len() - 4] == 0x2e && (b[b.len() - 3] == 0x64 || b[b.len() - 3] == 0x44)
        && (b[b.len() - 2] == 0x6c || b[b.len() - 2] == 0x4c) && (b[b.len() - 1] == 0x6c || b[b.len()
        - 1] == 0x4c)
}

/// A central-directory entry: name bytes, method, compressed size, offset
/// of its local header.
pub struct ZipEntry {
    pub name: Seq<u8>,
    pub method: int,
    pub comp_size: int,
    pub local_off: int,
}

/// The name bytes of the entry at `p` (empty when they run past the end).
pub open spec fn entry_name(d: Seq<u8>, p: int) -> Seq<u8> {
    let nl = u16_at(d, p + 28);
    if p + 46 + nl <= d.len() {
        d.subrange(p + 46, p + 46 + nl)
    } else {
        Seq::empty()
    }
}

/// The first DLL among at most `n` central-directory entries from `p`; the
/// walk stops at the end of the data or at a missing signature.
pub open spec fn first_dll(d: Seq<u8>, p: int, n: nat) -> Option<ZipEntry>
    decreases n,
{
    if n == 0 || p + 46 > d.len() || !sig_at(d, p, 1, 2) {
        None
    } else if dll_name(entry_name(d, p)) {
        Some(
            ZipEntry {
                name: entry_name(d, p),
                method: u16_at(d, p + 10),
                comp_size: u32_at(d, p + 20),
                local_off: u32_at(d, p + 42),
            },
        )
    } else {
        first_dll(
            d,
            p + 46 + u16_at(d, p + 28) + u16_at(d, p + 30) + u16_at(d, p + 32),
            (n - 1) as nat,
        )
    }
}

/// The little-endian 16-bit number at `o`.
pub open spec fn le16(d: Seq<u8>, o: int) -> int {
    d[o] as int + 256 * (d[o + 1] as int)
}

/// The length of the central-directory record at `p`: 46 fixed bytes, then
/// its name, extra field and comment, whose lengths it gives at offsets 28,
/// 30 and 32.
pub open spec fn cd_record_len(d: Seq<u8>, p: int) -> int {
    46 + le16(d, p + 28) + le16(d, p + 30) + le16(d, p + 32)
}

/// The name bytes of the central-directory record at `p`.
pub open spec fn cd_name(d: Seq<u8>, p: int) -> Seq<u8> {
    d.subrange(p + 46, p + 46 + le16(d, p + 28))
}

/// `starts` are consecutive central-directory records of `d`: each begins
/// with the record signature `PK\x01\x02` and lies inside `d`, and each next
/// one begins right after the previous one's name, extra field and comment.
pub open spec fn cd_chain(d: Seq<u8>, starts: Seq<int>) -> bool {
    &&& forall|i: int|
        0 <= i < starts.len() ==> {
            let p = #[trigger] starts[i];
            &&& 0 <= p
            &&& p + cd_record_len(d, p) <= d.len()
            &&& d[p] == 0x50 && d[p + 1] == 0x4b && d[p + 2] == 1 && d[p + 3] == 2
        }
    &&& forall|i: int|
        1 <= i < starts.len() ==> #[trigger] starts[i] == starts[i - 1] + cd_record_len(
            d,
            starts[i - 1],
        )
}

/// Walking a central directory finds the first record whose name ends in
/// `.dll` (in any case), whatever the extra fields and comments of the
/// records before it: for consecutive records from `starts[0]`, with `k`
/// the first DLL among them and at least `k + 1` records to read, the walk
/// gives record `k`'s name, method, compressed size and local-header offset.
pub proof fn law_walk_finds_first_dll(d: Seq<u8>, starts: Seq<int>, k: int, n: nat)
    requires
        cd_chain(d, starts),
        0 <= k < starts.len(),
        n > k,
        dll_name(cd_name(d, starts[k])),
        forall|i: int| 0 <= i < k ==> !dll_name(#[trigger] cd_name(d, starts[i])),
    ensures
        first_dll(d, starts[0], n) == Some(
            ZipEntry {
                name: cd_name(d, starts[k]),
                method: u16_at(d, starts[k] + 10),
                comp_size: u32_at(d, starts[k] + 20),
                local_off: u32_at(d, starts[k] + 42),
            },
        ),
    decreases k,
{
    let p = starts[0];
    assert(0 <= p && p + cd_record_len(d, p) <= d.len());
    assert(sig_at(d, p, 1, 2));
    assert(entry_name(d, p) == cd_name(d, p));
    if k > 0 {
        let rest = starts.drop_first();
        assert(starts[1] == starts[0] + cd_record_len(d, starts[0]));
        assert forall|i: int| 0 <= i < rest.len() implies {
            let q = #[trigger] rest[i];
            &&& 0 <= q
            &&& q + cd_record_len(d, q) <= d.len()
            &&& d[q] == 0x50 && d[q + 1] == 0x4b && d[q + 2] == 1 && d[q + 3] == 2
        } by {
            assert(rest[i] == starts[i + 1]);
        }
        assert forall|i: int| 1 <= i < rest.len() implies #[trigger] rest[i] == rest[i - 1]
            + cd_record_len(d, rest[i - 1]) by {
            assert(rest[i] == starts[i + 1] && rest[i - 1] == starts[i]);
        }
        assert forall|i: int| 0 <= i < k - 1 implies !dll_name(#[trigger] cd_name(d, rest[i])) by {
            assert(rest[i] == starts[i + 1]);
        }
        assert(rest[k - 1] == starts[k]);
        law_walk_finds_first_dll(d, rest, k - 1, (n - 1) as nat);
    }
}

/// The archive's first DLL: its name bytes and its content, or why it
/// cannot be had. The end record is searched from 22 bytes before the end
/// back over at most a maximal comment; the central directory names the
/// entry; its local header gives where the data starts; the data is stored
/// or deflated.
pub open spec fn zip_dll(d: Seq<u8>) -> Result<(Seq<u8>, Seq<u8>), ZipError> {
    if d.len() < 22 {
        Err(ZipError::TooSmall)
    } else {
        let lo = if d.len() > 22 + 65535 {
            d.len() - (22 + 65535)
        } else {
            0
        };
        match eocd_from(d, d.len() - 22, lo) {
            None => Err(ZipError::NoEnd),
            Some(e) => {
                let count = u16_at(d, e + 10);
                let cd = u32_at(d, e + 16);
                if cd >= d.len() {
                    Err(ZipError::DirOutOfRange)
                } else {
                    match first_dll(d, cd, count as nat) {
                        None => Err(ZipError::NoDll),
                        Some(en) => {
                            if en.local_off + 30 > d.len() || !sig_at(d, en.local_off, 3, 4) {
                                Err(ZipError::LocalHeader)
                            } else {
                                let doff = en.local_off + 30 + u16_at(d, en.local_off + 26)
                                    + u16_at(d, en.local_off + 28);
                                let end = doff + en.comp_size;
                                if end > d.len() {
                                    Err(ZipError::DataOutOfRange)
                                } else {
                                    let raw = d.subrange(doff, end);
                                    let out = if en.method == 0 {
                                        Ok(raw)
                                    } else if en.method == 8 {
                                        match inflated(raw) {
                                            Some(o) => Ok(o),
                                            None => Err(ZipError::Inflate),
                                        }
                                    } else {
                                        Err(ZipError::Method(en.method as u16))
                                    };
                                    match out {
                                        Err(x) => Err(x),
                                        Ok(o) => if o.len() == 0 {
                                            Err(ZipError::Empty)
                                        } else {
                                            Ok((en.name, o))
                                        },
                                    }
                                }
                            }
                        }
                    }
                }
            }
        }
    }
}

/// Extracting from an archive whose end record points at consecutive
/// central-directory records gives the first DLL among them, whatever the
/// extra fields and comments of the records before it: for a stored DLL
/// whose local header and data lie inside the archive, its name and its
/// bytes.
pub proof fn law_extract_first_stored_dll(d: Seq<u8>, e: int, starts: Seq<int>, k: int)
    requires
        d.len() >= 22,
        eocd_from(d, d.len() - 22, if d.len() > 22 + 65535 {
            d.len() - (22 + 65535)
        } else {
            0
        }) == Some(e),
        cd_chain(d, starts),
        0 <= k < starts.len(),
        u32_at(d, e + 16) == starts[0],
        u16_at(d, e + 10) > k,
        dll_name(cd_name(d, starts[k])),
        forall|i: int| 0 <= i < k ==> !dll_name(#[trigger] cd_name(d, starts[i])),
        u16_at(d, starts[k] + 10) == 0,
        ({
            let l = u32_at(d, starts[k] + 42);
            let doff = l + 30 + u16_at(d, l + 26) + u16_at(d, l + 28);
            &&& l + 30 <= d.len()
            &&& sig_at(d, l, 3, 4)
            &&& 0 < u32_at(d, starts[k] + 20)
            &&& doff + u32_at(d, starts[k] + 20) <= d.len()
        }),
    ensures
        ({
            let l = u32_at(d, starts[k] + 42);
            let doff = l + 30 + u16_at(d, l + 26) + u16_at(d, l + 28);
            zip_dll(d) == Ok::<(Seq<u8>, Seq<u8>), ZipError>(
                (cd_name(d, starts[k]), d.subrange(doff, doff + u32_at(d, starts[k] + 20))),
            )
        }),
{
    assert(starts[0] + cd_record_len(d, starts[0]) <= d.len());
    law_walk_finds_first_dll(d, starts, k, u16_at(d, e + 10) as nat);
}

/// What raw-deflate decoding of the bytes gives (`None` when they do not
/// decode).
pub uninterp spec fn inflated(data: Seq<u8>) -> Option<Seq<u8>>;

/// Decodes raw deflate data with `flate2::read::DeflateDecoder`, reading
/// to the end. Claimed: the result is `inflated` of the input (decoding is
/// a function of the bytes alone).
#[verifier::external_body]
fn inflate(data: &[u8]) -> (r: Option<Vec<u8>>)
    ensures
        match inflated(data@) {
            Some(o) => r matches Some(v) && v@ == o,
            None => r is None,
        },
{
    let mut v = Vec::new();
    match std::io::Read::read_to_end(&mut flate2::read::DeflateDecoder::new(data), &mut v) {
        Ok(_) => Some(v),
        Err(_) => None,
    }
}

/// What `String::from_utf8_lossy` makes of the bytes.
pub uninterp spec fn lossy_text(b: Seq<u8>) -> Seq<char>;

/// `String::from_utf8_lossy`: invalid sequences become U+FFFD. Claimed:
/// the result is `lossy_text` of the bytes, and the plain decoding when
/// the bytes are valid UTF-8.
#[verifier::external_body]
fn utf8_lossy(b: &[u8]) -> (r: String)
    ensures
        r@ == lossy_text(b@),
        vstd::utf8::valid_utf8(b@) ==> r@ == vstd::utf8::decode_utf8(b@),
{
    String::from_utf8_lossy(b).to_string()
}

fn dll_name_exec(b: &[u8]) -> (r: bool)
    ensures
        r == dll_name(b@),
{
    let n = b.len();
    n >= 4 && b[n - 4] == 0x2e && (b[n - 3] == 0x64 || b[n - 3] == 0x44) && (b[n - 2] == 0x6c
        || b[n - 2] == 0x4c) && (b[n - 1] == 0x6c || b[n - 1] == 0x4c)
}

fn copy_range(d: &[u8], from: usize, to: usize) -> (r: Vec<u8>)
    requires
        from <= to <= d.len(),
    ensures
        r@ == d@.subrange(from as int, to as int),
{
    let mut out: Vec<u8> = Vec::new();
    let mut i = from;
    while i < to
        invariant
            from <= i <= to <= d.len(),
            out@ == d@.subrange(from as int, i as int),
        decreases to - i,
    {
        out.push(d[i]);
        assert(d@.subrange(from as int, i + 1) =~= d@.subrange(from as int, i as int).push(d@[i as int]));
        i += 1;
    }
    out
}

fn find_eocd(d: &[u8]) -> (r: Option<usize>)
    requires
        d.len() >= 22,
    ensures
        eocd_from(d@, d.len() - 22, if d.len() > 22 + 65535 {
            d.len() - (22 + 65535)
        } else {
            0
        }) == match r {
            Some(i) => Some(i as int),
            None => None,
        },
        r matches Some(i) ==> i + 22 <= d.len(),
{
    let lo: usize = if d.len() > 22 + 65535 {
        d.len() - (22 + 65535)
    } else {
        0
    };
    let ghost glo = lo as int;
    let mut i: usize = d.len() - 22;
    loop
        invariant
            lo <= i <= d.len() - 22,
            glo == lo,
            glo == (if d.len() > 22 + 65535 {
                d.len() - (22 + 65535)
            } else {
                0
            }),
            d.len() >= 22,
            eocd_from(d@, d.len() - 22, glo) == eocd_from(d@, i as int, glo),
        decreases i,
    {
        if sig_at_exec(d, i, 5, 6) {
            return Some(i);
        }
        if i <= lo {
            return None;
        }
        i -= 1;
    }
}

fn walk_dir(d: &[u8], start: usize, count: u16) -> (r: Option<(Vec<u8>, u16, u32, u32)>)
    ensures
        match first_dll(d@, start as int, count as nat) {
            Some(en) => r matches Some(x) && x.0@ == en.name && x.1 == en.method && x.2
                == en.comp_size && x.3 == en.local_off,
            None => r is None,
        },
{
    let mut p: u128 = start as u128;
    let mut k: u16 = 0;
    while k < count
        invariant
            k <= count,
            first_dll(d@, start as int, count as nat) == first_dll(d@, p as int, (count - k) as nat),
            p <= start as u128 + 300000 * (k as u128),
        decreases count - k,
    {
        if p + 46 > d.len() as u128 {
            return None;
        }
        let q = p as usize;
        if !sig_at_exec(d, q, 1, 2) {
            return None;
        }
        let method = rd_u16(d, q + 10);
        let comp = rd_u32(d, q + 20);
        let nl = rd_u16(d, q + 28);
        let el = rd_u16(d, q + 30);
        let cl = rd_u16(d, q + 32);
        let local = rd_u32(d, q + 42);
        let name: Vec<u8> = if (nl as usize) <= d.len() - (q + 46) {
            copy_range(d, q + 46, q + 46 + nl as usize)
        } else {
            Vec::new()
        };
        assert(name@ == entry_name(d@, p as int));
        if dll_name_exec(&name) {
            return Some((name, method, comp, local));
        }
        p = p + 46 + nl as u128 + el as u128 + cl as u128;
        k += 1;
    }
    None
}

/// Takes the first `.dll` out of a ZIP archive's bytes: its entry name and
/// its content.
pub fn zip_extract_dll(data: &[u8]) -> (r: Result<(String, Vec<u8>), ZipError>)
    ensures
        match zip_dll(data@) {
            Ok((nb, o)) => r matches Ok(x) && x.0@ == lossy_text(nb) && x.1@ == o,
            Err(e) => r == Err::<(String, Vec<u8>), ZipError>(e),
        },
{
    if data.len() < 22 {
        return Err(ZipError::TooSmall);
    }
    let e = match find_eocd(data) {
        None => {
            return Err(ZipError::NoEnd);
        },
        Some(e) => e,
    };
    let count = rd_u16(data, e + 10);
    let cd = rd_u32(data, e + 16);
    if cd as u64 >= data.len() as u64 {
        return Err(ZipError::DirOutOfRange);
    }
    let (name, method, comp, local) = match walk_dir(data, cd as usize, count) {
        None => {
            return Err(ZipError::NoDll);
        },
        Some(x) => x,
    };
    let lo = local as u64;
    if lo + 30 > data.len() as u64 || !sig_at_exec(data, local as usize, 3, 4) {
        return Err(ZipError::LocalHeader);
    }
    let l = local as usize;
    let lnl = rd_u16(data, l + 26);
    let lel = rd_u16(data, l + 28);
    let doff: u128 = l as u128 + 30 + lnl as u128 + lel as u128;
    let end: u128 = doff + comp as u128;
    if end > data.len() as u128 {
        return Err(ZipError::DataOutOfRange);
    }
    let raw = copy_range(data, doff as usize, end as usize);
    let out = if method == 0 {
        raw
    } else if method == 8 {
        match inflate(raw.as_slice()) {
            Some(o) => o,
            None => {
                return Err(ZipError::Inflate);
            },
        }
    } else {
        return Err(ZipError::Method(method));
    };
    if out.len() == 0 {
        return Err(ZipError::Empty);
    }
    Ok((utf8_lossy(name.as_slice()), out))
}

/// The entry at `p` of a central directory.
pub open spec fn entry_at(d: Seq<u8>, p: int) -> ZipEntry {
    ZipEntry {
        name: entry_name(d, p),
        method: u16_at(d, p + 10),
        comp_size: u32_at(d, p + 20),
        local_off: u32_at(d, p + 42),
    }
}

/// Where the central-directory entry after the one at `p` starts.
pub open spec fn next_entry(d: Seq<u8>, p: int) -> int {
    p + 46 + u16_at(d, p + 28) + u16_at(d, p + 30) + u16_at(d, p + 32)
}

/// At most `n` central-directory entries from `p`, in order; the walk stops
/// at the end of the data or at a missing signature.
pub open spec fn dir_entries(d: Seq<u8>, p: int, n: nat) -> Seq<ZipEntry>
    decreases n,
{
    if n == 0 || p + 46 > d.len() || !sig_at(d, p, 1, 2) {
        Seq::empty()
    } else {
        seq![entry_at(d, p)] + dir_entries(d, next_entry(d, p), (n - 1) as nat)
    }
}

/// The entries an archive's central directory lists, found as for
/// [`zip_dll`], or why the directory cannot be read.
pub open spec fn zip_entries(d: Seq<u8>) -> Result<Seq<ZipEntry>, ZipError> {
    if d.len() < 22 {
        Err(ZipError::TooSmall)
    } else {
        let lo = if d.len() > 22 + 65535 {
            d.len() - (22 + 65535)
        } else {
            0
        };
        match eocd_from(d, d.len() - 22, lo) {
            None => Err(ZipError::NoEnd),
            Some(e) => {
                let cd = u32_at(d, e + 16);
                if cd >= d.len() {
                    Err(ZipError::DirOutOfRange)
                } else {
                    Ok(dir_entries(d, cd, u16_at(d, e + 10) as nat))
                }
            },
        }
    }
}

/// The content of an entry, as for [`zip_dll`] (an empty content is not
/// an error here).
pub open spec fn entry_content(d: Seq<u8>, en: ZipEntry) -> Result<Seq<u8>, ZipError> {
    if en.local_off + 30 > d.len() || !sig_at(d, en.local_off, 3, 4) {
        Err(ZipError::LocalHeader)
    } else {
        let doff = en.local_off + 30 + u16_at(d, en.local_off + 26) + u16_at(d, en.local_off + 28);
        let end = doff + en.comp_size;
        if end > d.len() {
            Err(ZipError::DataOutOfRange)
        } else {
            let raw = d.subrange(doff, end);
            if en.method == 0 {
                Ok(raw)
            } else if en.method == 8 {
                match inflated(raw) {
                    Some(o) => Ok(o),
                    None => Err(ZipError::Inflate),
                }
            } else {
                Err(ZipError::Method(en.method as u16))
            }
        }
    }
}

/// One entry of an archive: its name as text, and where its data is.
#[derive(Debug, Clone)]
pub struct ZipItem {
    pub name: String,
    pub raw_name: Vec<u8>,
    pub method: u16,
    pub comp_size: u32,
    pub local_off: u32,
}

pub open spec fn item_entry(it: ZipItem) -> ZipEntry {
    ZipEntry {
        name: it.raw_name@,
        method: it.method as int,
        comp_size: it.comp_size as int,
        local_off: it.local_off as int,
    }
}

pub open spec fn item_entries(v: Seq<ZipItem>) -> Seq<ZipEntry> {
    v.map_values(|it: ZipItem| item_entry(it))
}

/// Lists the entries of a ZIP archive's bytes (see [`zip_entries`]), each
/// name decoded as `String::from_utf8_lossy` does.
pub fn zip_list(data: &[u8]) -> (r: Result<Vec<ZipItem>, ZipError>)
    ensures
        match zip_entries(data@) {
            Ok(es) => r matches Ok(v) && item_entries(v@) == es && forall|i: int|
                0 <= i < v@.len() ==> (#[trigger] v@[i]).name@ == lossy_text(v@[i].raw_name@),
            Err(e) => r == Err::<Vec<ZipItem>, ZipError>(e),
        },
{
    if data.len() < 22 {
        return Err(ZipError::TooSmall);
    }
    let e = match find_eocd(data) {
        None => {
            return Err(ZipError::NoEnd);
        },
        Some(e) => e,
    };
    let count = rd_u16(data, e + 10);
    let cd = rd_u32(data, e + 16);
    if cd as u64 >= data.len() as u64 {
        return Err(ZipError::DirOutOfRange);
    }
    let ghost start = cd as int;
    let ghost total = dir_entries(data@, start, count as nat);
    assert(zip_entries(data@) == Ok::<Seq<ZipEntry>, ZipError>(total));
    let mut out: Vec<ZipItem> = Vec::new();
    let mut p: u128 = cd as u128;
    let mut k: u16 = 0;
    while k < count
        invariant
            k <= count,
            0 <= start <= u32::MAX,
            total == dir_entries(data@, start, count as nat),
            zip_entries(data@) == Ok::<Seq<ZipEntry>, ZipError>(total),
            item_entries(out@) + dir_entries(data@, p as int, (count - k) as nat) == total,
            forall|i: int|
                0 <= i < out@.len() ==> (#[trigger] out@[i]).name@ == lossy_text(out@[i].raw_name@),
            p <= start + 300000 * (k as int),
        decreases count - k,
    {
        if p + 46 > data.len() as u128 || !sig_at_exec(data, p as usize, 1, 2) {
            assert(dir_entries(data@, p as int, (count - k) as nat) =~= Seq::<ZipEntry>::empty());
            assert(item_entries(out@) =~= item_entries(out@) + Seq::<ZipEntry>::empty());
            return Ok(out);
        }
        let q = p as usize;
        let method = rd_u16(data, q + 10);
        let comp = rd_u32(data, q + 20);
        let nl = rd_u16(data, q + 28);
        let el = rd_u16(data, q + 30);
        let cl = rd_u16(data, q + 32);
        let local = rd_u32(data, q + 42);
        let name: Vec<u8> = if (nl as usize) <= data.len() - (q + 46) {
            copy_range(data, q + 46, q + 46 + nl as usize)
        } else {
            Vec::new()
        };
        assert(name@ == entry_name(data@, p as int));
        let text_name = utf8_lossy(name.as_slice());
        let it = ZipItem { name: text_name, raw_name: name, method, comp_size: comp, local_off: local };
        let ghost before = item_entries(out@);
        let ghost pp = p as int;
        let ghost en = entry_at(data@, pp);
        let ghost rest = dir_entries(data@, next_entry(data@, pp), (count - k - 1) as nat);
        assert(item_entry(it) == en);
        out.push(it);
        assert(item_entries(out@) =~= before.push(en));
        assert(dir_entries(data@, pp, (count - k) as nat) == seq![en] + rest);
        p = p + 46 + nl as u128 + el as u128 + cl as u128;
        assert(p as int == next_entry(data@, pp));
        assert(before.push(en) + rest =~= before + (seq![en] + rest));
        k += 1;
    }
    assert(dir_entries(data@, p as int, 0) =~= Seq::<ZipEntry>::empty());
    assert(item_entries(out@) =~= item_entries(out@) + Seq::<ZipEntry>::empty());
    Ok(out)
}

/// The content of one entry of a ZIP archive's bytes (see [`entry_content`]).
pub fn zip_entry_data(data: &[u8], item: &ZipItem) -> (r: Result<Vec<u8>, ZipError>)
    ensures
        match entry_content(data@, item_entry(*item)) {
            Ok(o) => r matches Ok(v) && v@ == o,
            Err(e) => r == Err::<Vec<u8>, ZipError>(e),
        },
{
    let local = item.local_off;
    let lo = local as u64;
    if lo + 30 > data.len() as u64 || !sig_at_exec(data, local as usize, 3, 4) {
        return Err(ZipError::LocalHeader);
    }
    let l = local as usize;
    let lnl = rd_u16(data, l + 26);
    let lel = rd_u16(data, l + 28);
    let doff: u128 = l as u128 + 30 + lnl as u128 + lel as u128;
    let end: u128 = doff + item.comp_size as u128;
    if end > data.len() as u128 {
        return Err(ZipError::DataOutOfRange);
    }
    let raw = copy_range(data, doff as usize, end as usize);
    if item.method == 0 {
        Ok(raw)
    } else if item.method == 8 {
        match inflate(raw.as_slice()) {
            Some(o) => Ok(o),
            None => Err(ZipError::Inflate),
        }
    } else {
        Err(ZipError::Method(item.method))
    }
}

// ------------------------------------------------------------ downloads and the DLSS runtimes

/// A finished download: its size, its hashes, and the fingerprint the
/// response carried.
#[derive(Debug, Clone)]
pub struct Downloaded {
    pub bytes: u64,
    /// Lower-case hex SHA-256 of the content (recorded only).
    pub sha256: String,
    /// The content's git blob SHA-1 (as GitHub shows it).
    pub blob_sha: String,
    pub etag: Option<String>,
}

/// The record of downloaded content.
pub fn downloaded(buf: &[u8], etag: Option<String>) -> (r: Downloaded)
    requires
        buf.len() <= u64::MAX,
    ensures
        r.bytes == buf@.len(),
        r.sha256@ == util::sha256_hex_of(buf@),
        r.blob_sha@ == util::git_blob_sha1_of(buf@),
        r.etag == etag,
{
    Downloaded {
        bytes: buf.len() as u64,
        sha256: util::sha256_hex(buf),
        blob_sha: util::git_blob_sha1(buf),
        etag,
    }
}

/// The DLSS runtimes: release-tag prefix, expected tag, archive name, the
/// DLL it holds, and the name shown.
pub const DLSS_RUNTIME: [(&'static str, &'static str, &'static str, &'static str, &'static str); 2] = [
    ("dlssg-", "dlssg-310.9.1", "nvngx_dlssg_310.9.1.zip", "nvngx_dlssg.dll", "DLSS 帧生成运行库"),
    ("dlss-", "dlss-310.9.1", "nvngx_dlss_310.9.1.zip", "nvngx_dlss.dll", "DLSS 超分运行库"),
];

/// A DLSS runtime still to download.
#[derive(Debug, Clone)]
pub struct RuntimeStep {
    pub prefix: &'static str,
    pub tag: &'static str,
    pub zip_name: &'static str,
    pub dll_name: &'static str,
    pub label: &'static str,
    pub url: String,
    pub size: u64,
}

/// Progress over several downloads: bytes decide how far the bar goes,
/// steps only number them.
#[derive(Debug, Clone, Copy)]
pub struct ProgressCtx {
    pub base_bytes: u64,
    pub total_bytes: u64,
    pub base_step: usize,
    pub total_steps: usize,
}

pub open spec fn runtime_row(i: int) -> (Seq<char>, Seq<char>, Seq<char>, Seq<char>, Seq<char>) {
    if i == 0 {
        ("dlssg-"@, "dlssg-310.9.1"@, "nvngx_dlssg_310.9.1.zip"@, "nvngx_dlssg.dll"@, "DLSS 帧生成运行库"@)
    } else {
        ("dlss-"@, "dlss-310.9.1"@, "nvngx_dlss_310.9.1.zip"@, "nvngx_dlss.dll"@, "DLSS 超分运行库"@)
    }
}

fn runtime_at(i: usize) -> (r: (&'static str, &'static str, &'static str, &'static str, &'static str))
    requires
        i < 2,
    ensures
        (r.0@, r.1@, r.2@, r.3@, r.4@) == runtime_row(i as int),
{
    if i == 0 {
        ("dlssg-", "dlssg-310.9.1", "nvngx_dlssg_310.9.1.zip", "nvngx_dlssg.dll", "DLSS 帧生成运行库")
    } else {
        ("dlss-", "dlss-310.9.1", "nvngx_dlss_310.9.1.zip", "nvngx_dlss.dll", "DLSS 超分运行库")
    }
}

pub open spec fn step_view(st: RuntimeStep) -> (Seq<char>, Seq<char>, Seq<char>, Seq<char>, Seq<char>, Seq<char>, u64) {
    (st.prefix@, st.tag@, st.zip_name@, st.dll_name@, st.label@, st.url@, st.size)
}

/// The step for runtime `i` with the size the direct link reported.
pub open spec fn step_of(i: int, size: u64) -> (Seq<char>, Seq<char>, Seq<char>, Seq<char>, Seq<char>, Seq<char>, u64) {
    let row = runtime_row(i);
    (row.0, row.1, row.2, row.3, row.4, "https://github.com/RankFTW/rhi-repo/releases/download/"@
        + row.1 + "/"@ + row.2, size)
}

/// The runtimes still to download, in table order: those not already in
/// the asset directory signed by NVIDIA (`have`), each with the size its
/// direct link reported (`sizes`, 0 when unknown).
pub open spec fn runtime_plan_of(have: Seq<bool>, sizes: Seq<u64>, n: int) -> Seq<(Seq<char>, Seq<char>, Seq<char>, Seq<char>, Seq<char>, Seq<char>, u64)>
    decreases n,
{
    if n <= 0 {
        Seq::empty()
    } else if have[n - 1] {
        runtime_plan_of(have, sizes, n - 1)
    } else {
        runtime_plan_of(have, sizes, n - 1).push(step_of(n - 1, sizes[n - 1]))
    }
}

/// Lists the DLSS runtimes still to download.
pub fn dlss_runtime_plan(have: &Vec<bool>, sizes: &Vec<u64>) -> (r: Vec<RuntimeStep>)
    requires
        have.len() == 2,
        sizes.len() == 2,
    ensures
        r@.map_values(|st: RuntimeStep| step_view(st)) == runtime_plan_of(have@, sizes@, 2),
{
    let mut out: Vec<RuntimeStep> = Vec::new();
    let mut i: usize = 0;
    while i < 2
        invariant
            i <= 2,
            have.len() == 2,
            sizes.len() == 2,
            out@.map_values(|st: RuntimeStep| step_view(st)) == runtime_plan_of(have@, sizes@, i as int),
        decreases 2 - i,
    {
        if !have[i] {
            let (prefix, tag, zip_name, dll_name, label) = runtime_at(i);
            let url = release_url(tag, zip_name);
            let st = RuntimeStep { prefix, tag, zip_name, dll_name, label, url, size: sizes[i] };
            let ghost before = out@.map_values(|st: RuntimeStep| step_view(st));
            assert(step_view(st) == step_of(i as int, sizes@[i as int]));
            out.push(st);
            assert(out@.map_values(|st: RuntimeStep| step_view(st)) =~= before.push(step_view(st)));
        }
        i += 1;
    }
    out
}

/// The runtimes a deployment puts into a game directory: those the game
/// does not have (`present`, by table order); the ones it has are left
/// alone. Returns the names it has, and the names to add.
pub open spec fn split_runtimes(present: Seq<bool>, n: int) -> (Seq<Seq<char>>, Seq<Seq<char>>)
    decreases n,
{
    if n <= 0 {
        (Seq::empty(), Seq::empty())
    } else {
        let prev = split_runtimes(present, n - 1);
        if present[n - 1] {
            (prev.0.push(runtime_row(n - 1).3), prev.1)
        } else {
            (prev.0, prev.1.push(runtime_row(n - 1).3))
        }
    }
}

/// Which runtimes a game directory already has and which it lacks.
pub fn runtime_deploy_plan(present: &Vec<bool>) -> (r: (Vec<&'static str>, Vec<&'static str>))
    requires
        present.len() == 2,
    ensures
        (r.0@.map_values(|x: &str| x@), r.1@.map_values(|x: &str| x@)) == split_runtimes(present@, 2),
{
    let mut have: Vec<&'static str> = Vec::new();
    let mut missing: Vec<&'static str> = Vec::new();
    let mut i: usize = 0;
    while i < 2
        invariant
            i <= 2,
            present.len() == 2,
            (have@.map_values(|x: &str| x@), missing@.map_values(|x: &str| x@)) == split_runtimes(
                present@,
                i as int,
            ),
        decreases 2 - i,
    {
        let (_p, _t, _z, dll, _l) = runtime_at(i);
        let ghost h0 = have@.map_values(|x: &str| x@);
        let ghost m0 = missing@.map_values(|x: &str| x@);
        if present[i] {
            have.push(dll);
            assert(have@.map_values(|x: &str| x@) =~= h0.push(dll@));
        } else {
            missing.push(dll);
            assert(missing@.map_values(|x: &str| x@) =~= m0.push(dll@));
        }
        i += 1;
    }
    (have, missing)
}

/// Why an unpacked runtime DLL is discarded, when it is: only a DLL
/// signed by NVIDIA is kept.
pub open spec fn runtime_rejection(label: Seq<char>, entry: Seq<char>, id: crate::scan::FileIdentity) -> Option<Seq<char>> {
    if id == crate::scan::FileIdentity::Nvidia {
        None
    } else {
        Some(label + " 解出来的 "@ + entry + " 不是 NVIDIA 官方签名（判定为 "@ + crate::scan::identity_label(id)
            + "），已丢弃"@)
    }
}

/// The verdict on a runtime DLL unpacked from the archive of step `label`
/// (its archive entry `entry`): kept when NVIDIA signed it, else discarded
/// with the reason.
pub fn runtime_verdict(label: &str, entry: &str, id: crate::scan::FileIdentity) -> (r: Result<(), String>)
    ensures
        match runtime_rejection(label@, entry@, id) {
            None => r is Ok,
            Some(m) => r matches Err(x) && x@ == m,
        },
{
    match id {
        crate::scan::FileIdentity::Nvidia => Ok(()),
        _ => {
            let head = text::cat3(label, " 解出来的 ", entry);
            let mid = text::cat3(head.as_str(), " 不是 NVIDIA 官方签名（判定为 ", id.label());
            Err(text::cat2(mid.as_str(), "），已丢弃"))
        },
    }
}

/// The note for a runtime the game already has.
pub fn runtime_kept_note(dll: &str) -> (r: String)
    ensures
        r@ == "游戏目录已有 "@ + dll@ + "，用游戏自带的那份（不覆盖）"@,
{
    text::cat3("游戏目录已有 ", dll, "，用游戏自带的那份（不覆盖）")
}

// ------------------------------------------------------------ releases

/// The text shown when the GitHub API quota is used up.
pub const RATE_LIMIT_MSG: &'static str = "GitHub 接口配额用完了（未登录每小时 60 次）。本地文件状态不受影响，等一会儿再点「检查更新」即可。";

/// A release asset to download.
#[derive(Debug, Clone)]
pub struct ReleaseAsset {
    pub tag: String,
    pub asset_name: String,
    pub url: String,
    pub size: u64,
}

/// An asset as a release listing describes it; a field the listing lacks
/// (or gives with another type) is `None`.
#[derive(Debug, Clone)]
pub struct AssetInfo {
    pub name: Option<String>,
    pub url: Option<String>,
    pub size: Option<u64>,
}

/// An asset as plain values: its name, download address and size, each
/// when the listing gives it.
pub type AssetV = (Option<Seq<char>>, Option<Seq<char>>, Option<u64>);

pub open spec fn asset_info_view(a: AssetInfo) -> AssetV {
    (crate::scan::opt_str(a.name), crate::scan::opt_str(a.url), a.size)
}

pub open spec fn asset_views(s: Seq<AssetInfo>) -> Seq<AssetV> {
    s.map_values(|a: AssetInfo| asset_info_view(a))
}

/// A release listing as plain values: each release's tag and assets.
pub open spec fn release_views(rs: Seq<(String, Vec<AssetInfo>)>) -> Seq<(Seq<char>, Seq<AssetV>)> {
    rs.map_values(|r: (String, Vec<AssetInfo>)| (r.0@, asset_views(r.1@)))
}

/// The asset's name (empty when missing) ends in `.zip`, in any ASCII case.
pub open spec fn zip_named(a: AssetV) -> bool {
    match a.0 {
        Some(n) => text::ends_with(text::ascii_lower(n), ".zip"@),
        None => false,
    }
}

/// The first `.zip` asset of a release, as a download; `None` when there is
/// none, or when the first one has no download address.
pub open spec fn zip_asset_of(assets: Seq<AssetV>, tag: Seq<char>) -> Option<(Seq<char>, Seq<char>, Seq<char>, u64)>
    decreases assets.len(),
{
    if assets.len() == 0 {
        None
    } else if zip_named(assets[0]) {
        match assets[0].1 {
            Some(u) => Some((tag, assets[0].0.unwrap(), u, match assets[0].2 {
                Some(n) => n,
                None => 0,
            })),
            None => None,
        }
    } else {
        zip_asset_of(assets.drop_first(), tag)
    }
}

pub open spec fn asset_view(a: ReleaseAsset) -> (Seq<char>, Seq<char>, Seq<char>, u64) {
    (a.tag@, a.asset_name@, a.url@, a.size)
}

/// The `.zip` asset of a release.
pub fn pick_zip_asset(assets: &Vec<AssetInfo>, tag: &str) -> (r: Option<ReleaseAsset>)
    ensures
        match zip_asset_of(asset_views(assets@), tag@) {
            Some(v) => r matches Some(a) && asset_view(a) == v,
            None => r is None,
        },
{
    let ghost av = asset_views(assets@);
    let mut i: usize = 0;
    assert(av.skip(0) =~= av);
    while i < assets.len()
        invariant
            i <= assets.len(),
            av == asset_views(assets@),
            zip_asset_of(av, tag@) == zip_asset_of(av.skip(i as int), tag@),
        decreases assets.len() - i,
    {
        assert(av.skip(i as int).drop_first() =~= av.skip(i + 1));
        assert(av.skip(i as int)[0] == av[i as int]);
        assert(av[i as int] == asset_info_view(assets@[i as int]));
        let a = &assets[i];
        let is_zip = match &a.name {
            Some(n) => {
                let v = text::chars_of(n.as_str());
                let l = text::lower_vec(&v);
                text::ends_with_str(&l, ".zip")
            },
            None => false,
        };
        if is_zip {
            return match &a.url {
                Some(u) => Some(
                    ReleaseAsset {
                        tag: text::owned(tag),
                        asset_name: text::copy_string(a.name.as_ref().unwrap()),
                        url: text::copy_string(u),
                        size: match a.size {
                            Some(n) => n,
                            None => 0,
                        },
                    },
                ),
                None => None,
            };
        }
        i += 1;
    }
    None
}

/// The first release whose tag starts with `prefix` and which has a `.zip`
/// asset.
pub open spec fn release_zip_of(rs: Seq<(Seq<char>, Seq<AssetV>)>, prefix: Seq<char>) -> Option<(Seq<char>, Seq<char>, Seq<char>, u64)>
    decreases rs.len(),
{
    if rs.len() == 0 {
        None
    } else if text::starts_with(rs[0].0, prefix) && zip_asset_of(rs[0].1, rs[0].0) is Some {
        zip_asset_of(rs[0].1, rs[0].0)
    } else {
        release_zip_of(rs.drop_first(), prefix)
    }
}

/// Picks, from a release listing (newest first), the asset of the newest
/// release whose tag starts with `prefix`.
pub fn pick_release_zip(releases: &Vec<(String, Vec<AssetInfo>)>, prefix: &str) -> (r: Option<ReleaseAsset>)
    ensures
        match release_zip_of(release_views(releases@), prefix@) {
            Some(v) => r matches Some(a) && asset_view(a) == v,
            None => r is None,
        },
{
    let ghost rv = release_views(releases@);
    let pv = text::chars_of(prefix);
    let mut i: usize = 0;
    assert(rv.skip(0) =~= rv);
    while i < releases.len()
        invariant
            i <= releases.len(),
            pv@ == prefix@,
            rv == release_views(releases@),
            release_zip_of(rv, prefix@) == release_zip_of(rv.skip(i as int), prefix@),
        decreases releases.len() - i,
    {
        assert(rv.skip(i as int).drop_first() =~= rv.skip(i + 1));
        assert(rv.skip(i as int)[0] == rv[i as int]);
        assert(rv[i as int] == (releases@[i as int].0@, asset_views(releases@[i as int].1@)));
        let t = text::chars_of(releases[i].0.as_str());
        if text::starts_with_exec(&t, &pv) {
            let a = pick_zip_asset(&releases[i].1, releases[i].0.as_str());
            if a.is_some() {
                return a;
            }
        }
        i += 1;
    }
    None
}

/// What `serde_json::from_str` makes of GitHub's answer for one release,
/// read as the `name`, `browser_download_url` and `size` of each entry of
/// its `assets` (none when `assets` is not a list); `None` when the text is
/// not JSON.
pub uninterp spec fn release_assets_of(text: Seq<char>) -> Option<Seq<(Option<Seq<char>>, Option<Seq<char>>, Option<u64>)>>;

/// What `serde_json::from_str` makes of GitHub's release listing (a JSON
/// list), read as each release's `tag_name` (empty when missing) and its
/// assets as in [`release_assets_of`]; `None` when the text is not a JSON
/// list.
pub uninterp spec fn release_list_of(text: Seq<char>) -> Option<Seq<(Seq<char>, Seq<(Option<Seq<char>>, Option<Seq<char>>, Option<u64>)>)>>;

/// Parses one release with `serde_json::from_str` and reads its assets'
/// fields with `as_str` / `as_u64` (a missing field, or one of another type,
/// is `None`). Claimed: the result is `release_assets_of` of the text.
#[verifier::external_body]
fn release_assets(text: &str) -> (r: Option<Vec<AssetInfo>>)
    ensures
        match r {
            None => release_assets_of(text@) is None,
            Some(a) => release_assets_of(text@) == Some(asset_views(a@)),
        },
{
    let v: serde_json::Value = serde_json::from_str(text).ok()?;
    Some(v["assets"].as_array().map(|l| l.iter().map(|a| AssetInfo {
        name: a["name"].as_str().map(String::from),
        url: a["browser_download_url"].as_str().map(String::from),
        size: a["size"].as_u64(),
    }).collect()).unwrap_or_default())
}

/// Parses a release listing with `serde_json::from_str` as a list of JSON
/// values and reads each one's `tag_name` and assets as
/// [`release_assets`] does. Claimed: the result is `release_list_of` of the
/// text.
#[verifier::external_body]
fn release_list(text: &str) -> (r: Option<Vec<(String, Vec<AssetInfo>)>>)
    ensures
        match r {
            None => release_list_of(text@) is None,
            Some(l) => release_list_of(text@) == Some(release_views(l@)),
        },
{
    let l: Vec<serde_json::Value> = serde_json::from_str(text).ok()?;
    Some(l.iter().map(|r| (
        r["tag_name"].as_str().unwrap_or_default().to_owned(),
        r["assets"].as_array().map(|l| l.iter().map(|a| AssetInfo {
            name: a["name"].as_str().map(String::from),
            url: a["browser_download_url"].as_str().map(String::from),
            size: a["size"].as_u64(),
        }).collect()).unwrap_or_default(),
    )).collect())
}

/// The `.zip` asset of the release GitHub describes in `text` (its answer for
/// one tag): `None` when the text is not JSON or the release has no usable
/// zip.
pub fn tagged_release_zip(text: &str, tag: &str) -> (r: Option<ReleaseAsset>)
    ensures
        match release_assets_of(text@) {
            None => r is None,
            Some(a) => match zip_asset_of(a, tag@) {
                Some(v) => r matches Some(x) && asset_view(x) == v,
                None => r is None,
            },
        },
{
    match release_assets(text) {
        None => None,
        Some(a) => pick_zip_asset(&a, tag),
    }
}

/// The asset [`pick_release_zip`] picks from the release listing in `text`:
/// `None` when the text is not a JSON list, else the pick (itself `None`
/// when no release fits).
pub fn listed_release_zip(text: &str, prefix: &str) -> (r: Option<Option<ReleaseAsset>>)
    ensures
        match release_list_of(text@) {
            None => r is None,
            Some(rs) => r matches Some(o) && match release_zip_of(rs, prefix@) {
                Some(v) => o matches Some(x) && asset_view(x) == v,
                None => o is None,
            },
        },
{
    match release_list(text) {
        None => None,
        Some(l) => Some(pick_release_zip(&l, prefix)),
    }
}

/// Why a release listing request failed, by its HTTP status: the quota
/// message for 403 and 429, the status for any other failure, `None` on
/// success.
pub open spec fn listing_failure(status: u16) -> Option<Seq<char>> {
    if status == 403 || status == 429 {
        Some(RATE_LIMIT_MSG@)
    } else if !(200 <= status && status < 300) {
        Some("查询 Releases 返回 HTTP "@ + text::decimal(status as nat))
    } else {
        None
    }
}

/// The failure a release listing's HTTP status means, if any.
pub fn listing_status(status: u16) -> (r: Option<String>)
    ensures
        match listing_failure(status) {
            Some(m) => r matches Some(x) && x@ == m,
            None => r is None,
        },
{
    if status == 403 || status == 429 {
        return Some(text::owned(RATE_LIMIT_MSG));
    }
    if !(200 <= status && status < 300) {
        let mut out = text::chars_of("查询 Releases 返回 HTTP ");
        let d = text::decimal_vec(status as u64);
        text::extend(&mut out, &d);
        return Some(text::string_of(&out));
    }
    None
}

// ------------------------------------------------------------ speed test

/// The result of measuring one source.
#[derive(Debug, Clone)]
pub struct SourceSpeed {
    /// The mirror prefix; empty for an official row.
    pub prefix: String,
    pub label: String,
    /// Measured KB/s; meaningless when `error` is set.
    pub kbps: u64,
    pub error: Option<String>,
}

/// A source to measure: the name shown, its prefix, the address read.
pub struct SpeedTarget {
    pub label: String,
    pub prefix: String,
    pub url: String,
}

pub open spec fn target_view(t: SpeedTarget) -> (Seq<char>, Seq<char>, Seq<char>) {
    (t.label@, t.prefix@, t.url@)
}

pub open spec fn raw_probe_url() -> Seq<char> {
    "https://raw.githubusercontent.com/sdli1995/dlssg_for_sm86/main/"@ + "version.dll"@
}

/// The sources measured, in order: the official raw address, each built-in
/// mirror in front of it, then the official release direct link.
pub open spec fn speed_targets_of() -> Seq<(Seq<char>, Seq<char>, Seq<char>)> {
    seq![("官方源（raw）"@, Seq::empty(), raw_probe_url())] + mirror_list().map_values(
        |m: Seq<char>| (source_name(m), m, m + raw_probe_url()),
    ) + seq![
        (
            "官方源（Release 直链）"@,
            Seq::empty(),
            "https://github.com/RankFTW/rhi-repo/releases/download/"@ + "dlssg-310.9.1"@ + "/"@
                + "nvngx_dlssg_310.9.1.zip"@,
        ),
    ]
}

/// The sources a speed test measures.
pub fn speed_test_targets() -> (r: Vec<SpeedTarget>)
    ensures
        r@.map_values(|t: SpeedTarget| target_view(t)) == speed_targets_of(),
{
    let raw = official_url("version.dll");
    let mut out: Vec<SpeedTarget> = Vec::new();
    out.push(SpeedTarget { label: text::owned("官方源（raw）"), prefix: String::new(), url: text::copy_string(&raw) });
    let ghost ml = mirror_list();
    let mut i: usize = 0;
    while i < 3
        invariant
            i <= 3,
            ml == mirror_list(),
            raw@ == raw_probe_url(),
            out@.map_values(|t: SpeedTarget| target_view(t)) == seq![("官方源（raw）"@, Seq::<char>::empty(), raw_probe_url())]
                + ml.map_values(|m: Seq<char>| (source_name(m), m, m + raw_probe_url())).take(i as int),
        decreases 3 - i,
    {
        let m: &str = if i == 0 {
            "https://gh-proxy.com/"
        } else if i == 1 {
            "https://ghfast.top/"
        } else {
            "https://ghproxy.net/"
        };
        assert(m@ == ml[i as int]);
        let t = SpeedTarget { label: source_label(m), prefix: text::owned(m), url: text::cat2(m, raw.as_str()) };
        let ghost before = out@.map_values(|t: SpeedTarget| target_view(t));
        out.push(t);
        assert(out@.map_values(|t: SpeedTarget| target_view(t)) =~= before.push((source_name(m@), m@, m@ + raw_probe_url())));
        assert(out@.map_values(|t: SpeedTarget| target_view(t)) =~= seq![("官方源（raw）"@, Seq::<char>::empty(), raw_probe_url())]
                + ml.map_values(|m: Seq<char>| (source_name(m), m, m + raw_probe_url())).take(i + 1));
        i += 1;
    }
    assert(ml.map_values(|m: Seq<char>| (source_name(m), m, m + raw_probe_url())).take(3) =~= ml.map_values(|m: Seq<char>| (source_name(m), m, m + raw_probe_url())));
    let ghost before = out@.map_values(|t: SpeedTarget| target_view(t));
    let t = SpeedTarget {
        label: text::owned("官方源（Release 直链）"),
        prefix: String::new(),
        url: release_url("dlssg-310.9.1", "nvngx_dlssg_310.9.1.zip"),
    };
    out.push(t);
    assert(out@.map_values(|t: SpeedTarget| target_view(t)) =~= speed_targets_of());
    out
}

// ------------------------------------------------------------ what a probe gave

/// The version shown for upstream: the one the README gives, else the one
/// the local INI's first comment gives.
pub open spec fn upstream_version_of(readme: Option<Seq<char>>, local_ini: Option<Seq<char>>) -> Option<Seq<char>> {
    let from_readme = match readme {
        Some(t) => version_in(t),
        None => None,
    };
    if from_readme is Some {
        from_readme
    } else {
        match local_ini {
            Some(t) => version_in(t),
            None => None,
        }
    }
}

/// The upstream version, from the README's text (`None` when it could not
/// be fetched) or else the local INI's.
pub fn upstream_version(readme: Option<&str>, local_ini: Option<&str>) -> (r: Option<String>)
    ensures
        match upstream_version_of(opt_view(readme), opt_view(local_ini)) {
            Some(v) => r matches Some(x) && x@ == v,
            None => r is None,
        },
{
    if let Some(t) = readme {
        let v = extract_version(t);
        if v.is_some() {
            return v;
        }
    }
    match local_ini {
        Some(t) => extract_version(t),
        None => None,
    }
}

/// A `Content-Length` header value as a size: its number, or 0 when it is
/// missing or not a `u64`.
pub open spec fn content_length_value(h: Option<Seq<char>>) -> u64 {
    match h {
        Some(t) => match parse_u64(t) {
            Some(n) => n as u64,
            None => 0,
        },
        None => 0,
    }
}

/// The size a `Content-Length` header gives.
pub fn content_length_of(h: Option<&str>) -> (r: u64)
    ensures
        r == content_length_value(opt_view(h)),
{
    match h {
        Some(t) => {
            let v = text::chars_of(t);
            match parse_u64_exec(&v) {
                Some(n) => n,
                None => 0,
            }
        },
        None => 0,
    }
}

/// What a HEAD of a repository file gave, from the response's status and
/// headers: an error status, or a missing or malformed fingerprint, fails;
/// `official` says whether the response came from the official source.
pub open spec fn probe_result(repo_path: Seq<char>, status: u16, length: Option<Seq<char>>, etag: Option<Seq<char>>, official: bool) -> Result<(Seq<char>, u64, Seq<char>, bool), Seq<char>> {
    if !(200 <= status && status < 300) {
        Err("返回 HTTP "@ + text::decimal(status as nat))
    } else {
        match match etag {
            Some(e) => etag_value(e),
            None => None,
        } {
            None => Err("没返回可用的 ETag"@),
            Some(e) => Ok((repo_path, content_length_value(length), e, official)),
        }
    }
}

/// The remote file a HEAD response describes.
pub fn remote_from_head(repo_path: &str, status: u16, length: Option<&str>, etag: Option<&str>, official: bool) -> (r: Result<RemoteFile, String>)
    ensures
        match probe_result(repo_path@, status, opt_view(length), opt_view(etag), official) {
            Ok(v) => r matches Ok(f) && (f.name@, f.size, f.etag@, f.etag_trusted) == v,
            Err(m) => r matches Err(e) && e@ == m,
        },
{
    if !(200 <= status && status < 300) {
        let mut out = text::chars_of("返回 HTTP ");
        let d = text::decimal_vec(status as u64);
        text::extend(&mut out, &d);
        return Err(text::string_of(&out));
    }
    let e = match etag {
        Some(raw) => etag_of(raw),
        None => None,
    };
    match e {
        None => Err(text::owned("没返回可用的 ETag")),
        Some(v) => Ok(
            RemoteFile {
                name: text::owned(repo_path),
                size: content_length_of(length),
                etag: v,
                etag_trusted: official,
            },
        ),
    }
}

/// The failure of probing a repository file, once every source failed.
pub fn probe_failed(repo_path: &str, why: &str) -> (r: String)
    ensures
        r@ == "拿不到 "@ + repo_path@ + " 的内容指纹（"@ + why@ + "）"@,
{
    let head = text::cat3("拿不到 ", repo_path, " 的内容指纹（");
    text::cat3(head.as_str(), why, "）")
}

} // verus!
