//! Importing by hand: which files of a user's ZIP are recognised, which copy
//! wins when a name occurs in several builds of the upstream tree, and how
//! each is judged (signature for DLLs, structure for the INI).

use vstd::prelude::*;
use crate::text;
use crate::scan;
use crate::util;
use crate::verify::{self, VerifyReport};

verus! {

/// The INI's file name (that of the repository file).
pub const INI_NAME: &'static str = "dlssg_sm86.ini";

/// The two DLSS runtimes.
pub const RUNTIME_NAMES: [&'static str; 2] = ["nvngx_dlssg.dll", "nvngx_dlss.dll"];

/// The kind of a recognised file.
#[derive(Debug, Clone, Copy, PartialEq, Eq, Structural)]
pub enum Kind {
    Proxy,
    Ini,
    Runtime,
}

pub open spec fn kind_label(k: Kind) -> Seq<char> {
    match k {
        Kind::Proxy => "代理入口"@,
        Kind::Ini => "配置文件"@,
        Kind::Runtime => "DLSS 运行库"@,
    }
}

impl Kind {
    pub fn label(self) -> (r: &'static str)
        ensures
            r@ == kind_label(self),
    {
        match self {
            Kind::Proxy => "代理入口",
            Kind::Ini => "配置文件",
            Kind::Runtime => "DLSS 运行库",
        }
    }
}

/// An archive path with `\` turned into `/` and lower-cased.
pub open spec fn norm_path(path: Seq<char>) -> Seq<char> {
    text::lowered(util::replace_char(path, '\\', '/'))
}

fn norm_path_exec(path: &str) -> (r: Vec<char>)
    ensures
        r@ == norm_path(path@),
{
    let v = text::chars_of(path);
    let s = util::replace_vec(&v, '\\', '/');
    text::to_lowercase(&s)
}

/// Which build of the upstream tree a path belongs to, 0 being preferred
/// when the same name occurs several times: `archive/` is always last (2);
/// in the latest-build mode the root comes first and `310.1/` second; in
/// the 310.1 mode `310.1/` comes first and the root second.
pub open spec fn build_rank_of(path: Seq<char>, legacy: bool) -> u8 {
    let p = norm_path(path);
    if text::contains(p, "archive/"@) {
        2
    } else if text::contains(p, "310.1/"@) {
        if legacy {
            0
        } else {
            1
        }
    } else {
        if legacy {
            1
        } else {
            0
        }
    }
}

/// The preference of a path's build (see [`build_rank_of`]).
pub fn build_rank(path: &str, legacy: bool) -> (r: u8)
    ensures
        r == build_rank_of(path@, legacy),
{
    let p = norm_path_exec(path);
    if text::contains_str(&p, "archive/") {
        return 2;
    }
    if text::contains_str(&p, "310.1/") {
        if legacy {
            0
        } else {
            1
        }
    } else {
        if legacy {
            1
        } else {
            0
        }
    }
}

pub open spec fn build_label_of(path: Seq<char>) -> Seq<char> {
    let p = norm_path(path);
    if text::contains(p, "archive/"@) {
        "归档的老包"@
    } else if text::contains(p, "310.1/"@) {
        "上游的 310.1 老版本目录"@
    } else {
        "当前最新版"@
    }
}

/// The name of a path's build, for people.
pub fn build_label(path: &str) -> (r: &'static str)
    ensures
        r@ == build_label_of(path@),
{
    let p = norm_path_exec(path);
    if text::contains_str(&p, "archive/") {
        "归档的老包"
    } else if text::contains_str(&p, "310.1/") {
        "上游的 310.1 老版本目录"
    } else {
        "当前最新版"
    }
}

/// What follows the last `/` or `\` of `s`.
pub open spec fn last_component(s: Seq<char>) -> Seq<char>
    decreases s.len(),
{
    if s.len() == 0 {
        s
    } else if s.last() == '/' || s.last() == '\\' {
        Seq::empty()
    } else {
        last_component(s.drop_last()).push(s.last())
    }
}

/// The file name of an archive entry, trimmed and lower-cased.
pub open spec fn basename_lower_of(name: Seq<char>) -> Seq<char> {
    text::lowered(text::trim(last_component(name)))
}

/// The file name of an archive entry, trimmed and lower-cased.
pub fn basename_lower(name: &str) -> (r: String)
    ensures
        r@ == basename_lower_of(name@),
{
    let s = text::chars_of(name);
    let mut out: Vec<char> = Vec::new();
    let mut i: usize = 0;
    while i < s.len()
        invariant
            i <= s.len(),
            out@ == last_component(s@.take(i as int)),
        decreases s.len() - i,
    {
        assert(s@.take(i + 1).drop_last() =~= s@.take(i as int));
        if s[i] == '/' || s[i] == '\\' {
            out = Vec::new();
            assert(out@ =~= last_component(s@.take(i + 1)));
        } else {
            out.push(s[i]);
        }
        i += 1;
    }
    assert(s@.take(s.len() as int) =~= s@);
    let t = text::trim_vec(&out);
    let l = text::to_lowercase(&t);
    text::string_of(&l)
}

/// The kind of a file by its (lower-cased) name: a proxy entry, current or
/// historic; the INI; a DLSS runtime; or none.
pub open spec fn kind_of_name(base: Seq<char>) -> Option<Kind> {
    if scan::proxy_all().contains(base) {
        Some(Kind::Proxy)
    } else if base == INI_NAME@ {
        Some(Kind::Ini)
    } else if base == "nvngx_dlssg.dll"@ || base == "nvngx_dlss.dll"@ {
        Some(Kind::Runtime)
    } else {
        None
    }
}

/// The kind of a file by its name.
pub fn kind_of(base: &str) -> (r: Option<Kind>)
    ensures
        r == kind_of_name(base@),
{
    if scan::is_known_proxy(base) {
        return Some(Kind::Proxy);
    }
    let b = text::chars_of(base);
    let ini = text::chars_of(INI_NAME);
    if text::eq(&b, &ini) {
        return Some(Kind::Ini);
    }
    let r0 = text::chars_of("nvngx_dlssg.dll");
    let r1 = text::chars_of("nvngx_dlss.dll");
    if text::eq(&b, &r0) || text::eq(&b, &r1) {
        Some(Kind::Runtime)
    } else {
        None
    }
}

// ------------------------------------------------------------ the INI's structure

/// Bytes `c` takes in UTF-8.
pub open spec fn utf8_width(c: char) -> nat {
    if (c as u32) < 0x80 {
        1
    } else if (c as u32) < 0x800 {
        2
    } else if (c as u32) < 0x10000 {
        3
    } else {
        4
    }
}

/// Length of `s` in UTF-8 bytes, as `str::len`.
pub open spec fn utf8_len(s: Seq<char>) -> nat
    decreases s.len(),
{
    if s.len() == 0 {
        0
    } else {
        utf8_len(s.drop_last()) + utf8_width(s.last())
    }
}

proof fn lemma_utf8_len_mono(s: Seq<char>, j: int, k: int)
    requires
        0 <= j <= k <= s.len(),
    ensures
        utf8_len(s.take(j)) <= utf8_len(s.take(k)),
    decreases k - j,
{
    if j < k {
        lemma_utf8_len_mono(s, j, k - 1);
        assert(s.take(k).drop_last() =~= s.take(k - 1));
    }
}

fn utf8_len_exec(s: &[char]) -> (r: u64)
    requires
        utf8_len(s@) <= u64::MAX,
    ensures
        r == utf8_len(s@),
{
    let mut n: u64 = 0;
    let mut i: usize = 0;
    assert(s@.take(s.len() as int) =~= s@);
    while i < s.len()
        invariant
            i <= s.len(),
            utf8_len(s@) <= u64::MAX,
            s@.take(s.len() as int) == s@,
            n == utf8_len(s@.take(i as int)),
        decreases s.len() - i,
    {
        assert(s@.take(i + 1).drop_last() =~= s@.take(i as int));
        proof {
            lemma_utf8_len_mono(s@, i + 1, s.len() as int);
        }
        let c = s[i] as u32;
        let w: u64 = if c < 0x80 {
            1
        } else if c < 0x800 {
            2
        } else if c < 0x10000 {
            3
        } else {
            4
        };
        n = n + w;
        i += 1;
    }
    n
}

/// The sections the INI may have (lower-cased).
pub open spec fn known_section(name: Seq<char>) -> bool {
    name == "general"@ || name == "framegeneration"@ || name == "compatibility"@ || name
        == "logging"@ || name == "runtime"@
}

/// A trimmed line that is a section header `[...]`.
pub open spec fn is_header(t: Seq<char>) -> bool {
    t.len() >= 2 && t[0] == '[' && t.last() == ']'
}

/// A trimmed line the check passes over: empty, or a comment.
pub open spec fn is_blank(t: Seq<char>) -> bool {
    t.len() == 0 || t[0] == ';' || t[0] == '#'
}

/// A line that is neither blank, a header, nor a key-value line.
pub open spec fn bad_line(line: Seq<char>) -> bool {
    let t = text::trim(line);
    !is_blank(t) && !is_header(t) && !t.contains('=')
}

/// A line that is the header of a known section.
pub open spec fn known_header(line: Seq<char>) -> bool {
    let t = text::trim(line);
    !is_blank(t) && is_header(t) && known_section(
        text::ascii_lower(text::trim(t.subrange(1, t.len() - 1))),
    )
}

/// Index of the first bad line at or after `i`, or the number of lines.
pub open spec fn first_bad(ls: Seq<Seq<char>>, i: int) -> int
    decreases ls.len() - i,
{
    if i < 0 || i >= ls.len() {
        ls.len() as int
    } else if bad_line(ls[i]) {
        i
    } else {
        first_bad(ls, i + 1)
    }
}

/// What is wrong with an INI text, if anything: empty (once trimmed); over
/// 64 KiB; holding a NUL; a line that is neither a comment, a header nor a
/// key-value pair (the first such, shown by its first 40 characters); or
/// no header of a known section.
pub open spec fn ini_problem(t: Seq<char>) -> Option<Seq<char>> {
    let ls = text::lines(t);
    let b = first_bad(ls, 0);
    if text::trim(t).len() == 0 {
        Some("空文件"@)
    } else if utf8_len(t) > 64 * 1024 {
        Some("太大（"@ + text::decimal(utf8_len(t)) + " 字节）"@)
    } else if t.contains('\0') {
        Some("里面有空字节，不像是文本配置"@)
    } else if b < ls.len() {
        let tb = text::trim(ls[b]);
        Some("有一行既不是段落也不是键值："@ + tb.take(if tb.len() < 40 {
            tb.len() as int
        } else {
            40
        }))
    } else if !(exists|i: int| 0 <= i < ls.len() && known_header(#[trigger] ls[i])) {
        Some("没有找到任何已知的配置段落"@)
    } else {
        None
    }
}

fn contains_char(s: &[char], c: char) -> (r: bool)
    ensures
        r == s@.contains(c),
{
    let mut i: usize = 0;
    while i < s.len()
        invariant
            i <= s.len(),
            forall|k: int| 0 <= k < i ==> s@[k] != c,
        decreases s.len() - i,
    {
        if s[i] == c {
            return true;
        }
        i += 1;
    }
    false
}

fn known_section_exec(name: &[char]) -> (r: bool)
    ensures
        r == known_section(name@),
{
    let a = text::chars_of("general");
    let b = text::chars_of("framegeneration");
    let c = text::chars_of("compatibility");
    let d = text::chars_of("logging");
    let e = text::chars_of("runtime");
    text::eq(name, &a) || text::eq(name, &b) || text::eq(name, &c) || text::eq(name, &d)
        || text::eq(name, &e)
}

/// Checks that a text looks like a normal INI: not its keys (upstream may
/// add keys), only its shape.
pub fn ini_sanity(text: &str) -> (r: Result<(), String>)
    requires
        utf8_len(text@) <= u64::MAX,
    ensures
        match ini_problem(text@) {
            Some(m) => r matches Err(e) && e@ == m,
            None => r is Ok,
        },
{
    let s = text::chars_of(text);
    let tr = text::trim_vec(&s);
    if tr.len() == 0 {
        return Err(text::owned("空文件"));
    }
    let n = utf8_len_exec(&s);
    if n > 64 * 1024 {
        let mut out = text::chars_of("太大（");
        let d = text::decimal_vec(n);
        text::extend(&mut out, &d);
        text::extend_str(&mut out, " 字节）");
        return Err(text::string_of(&out));
    }
    if contains_char(&s, '\0') {
        return Err(text::owned("里面有空字节，不像是文本配置"));
    }
    let ls = text::lines_of(&s);
    let ghost gl = text::lines(text@);
    let mut sections: usize = 0;
    let mut i: usize = 0;
    while i < ls.len()
        invariant
            i <= ls.len(),
            s@ == text@,
            gl == text::lines(text@),
            ls@.len() == gl.len(),
            forall|j: int| 0 <= j < ls@.len() ==> #[trigger] ls@[j]@ == gl[j],
            first_bad(gl, 0) == first_bad(gl, i as int),
            text::trim(text@).len() > 0,
            utf8_len(text@) <= 64 * 1024,
            !text@.contains('\0'),
            sections <= i,
            (sections > 0) == (exists|j: int| 0 <= j < i && known_header(#[trigger] gl[j])),
        decreases ls.len() - i,
    {
        assert(ls@[i as int]@ == gl[i as int]);
        let t = text::trim_vec(&ls[i]);
        if t.len() == 0 || t[0] == ';' || t[0] == '#' {
            assert(!known_header(gl[i as int]));
            i += 1;
            continue;
        }
        if t.len() >= 2 && t[0] == '[' && t[t.len() - 1] == ']' {
            let inner = text::slice_vec(&t, 1, t.len() - 1);
            let it = text::trim_vec(&inner);
            let low = text::lower_vec(&it);
            if known_section_exec(&low) {
                assert(known_header(gl[i as int]));
                sections += 1;
            } else {
                assert(!known_header(gl[i as int]));
            }
            i += 1;
            continue;
        }
        if !contains_char(&t, '=') {
            assert(bad_line(gl[i as int]));
            let k: usize = if t.len() < 40 {
                t.len()
            } else {
                40
            };
            let shown = text::slice_vec(&t, 0, k);
            assert(shown@ =~= t@.take(k as int));
            return Err(text::cat2("有一行既不是段落也不是键值：", text::string_of(&shown).as_str()));
        }
        assert(!known_header(gl[i as int]));
        i += 1;
    }
    if sections == 0 {
        return Err(text::owned("没有找到任何已知的配置段落"));
    }
    Ok(())
}

// ------------------------------------------------------------ judging and choosing

/// A checked file waiting to be imported (already unpacked to `tmp`).
#[derive(Debug, Clone)]
pub struct Staged {
    pub kind: Kind,
    /// The name it takes in the asset directory (the standard name, lower case).
    pub name: String,
    /// Where it was unpacked.
    pub tmp: String,
    /// The archive it came from.
    pub from: String,
    pub bytes: u64,
    pub sha256: String,
    /// What the check found, for the user.
    pub note: String,
    /// Imported silently when true; asks the user when false.
    pub trusted: bool,
}

/// What a file was checked by: the INI's structure check, or a DLL's
/// signature.
pub enum Evidence {
    Ini(Result<(), String>),
    Signed(VerifyReport),
}

/// Whether a checked file passes silently, and the note shown for it: an
/// INI by its structure (it has no signature), a DLL by its signature.
pub open spec fn judged(ev: Evidence, bytes: u64) -> (bool, Seq<char>) {
    match ev {
        Evidence::Ini(Ok(())) => (true, "配置文件 "@ + text::decimal(bytes as nat)
            + " 字节，结构检查通过（没有签名，只能检查结构）"@),
        Evidence::Ini(Err(e)) => (false, "配置文件看起来不对："@ + e@),
        Evidence::Signed(rep) => (verify::trusted_spec(rep.sig, rep.kind), verify::summary_spec(rep)
            + "（"@ + text::decimal(bytes as nat) + " 字节）"@),
    }
}

/// Judges a checked file.
pub fn judge(ev: &Evidence, bytes: u64) -> (r: (bool, String))
    ensures
        (r.0, r.1@) == judged(*ev, bytes),
{
    let d = text::decimal_vec(bytes);
    match ev {
        Evidence::Ini(Ok(())) => {
            let mut out = text::chars_of("配置文件 ");
            text::extend(&mut out, &d);
            text::extend_str(&mut out, " 字节，结构检查通过（没有签名，只能检查结构）");
            (true, text::string_of(&out))
        },
        Evidence::Ini(Err(e)) => (false, text::cat2("配置文件看起来不对：", e.as_str())),
        Evidence::Signed(rep) => {
            let sm = rep.summary();
            let mut out = text::chars_of(sm.as_str());
            text::extend_str(&mut out, "（");
            text::extend(&mut out, &d);
            text::extend_str(&mut out, " 字节）");
            (rep.content_trusted(), text::string_of(&out))
        },
    }
}

/// A candidate: the preference of its build, its path in the archive, the
/// checked file.
pub open spec fn cand_view(c: (u8, String, Staged)) -> (u8, Seq<char>, Seq<char>, Seq<char>) {
    (c.0, c.1@, c.2.name@, c.2.tmp@)
}

pub open spec fn cand_views(v: Seq<(u8, String, Staged)>) -> Seq<(u8, Seq<char>, Seq<char>, Seq<char>)> {
    v.map_values(|c: (u8, String, Staged)| cand_view(c))
}

/// Index of the first entry named `name`, or the number of entries.
pub open spec fn slot_of(w: Seq<(u8, Seq<char>, Seq<char>, Seq<char>)>, name: Seq<char>) -> int
    decreases w.len(),
{
    if w.len() == 0 {
        0
    } else if w[0].2 == name {
        0
    } else {
        1 + slot_of(w.drop_first(), name)
    }
}

proof fn lemma_slot_of(w: Seq<(u8, Seq<char>, Seq<char>, Seq<char>)>, name: Seq<char>)
    ensures
        0 <= slot_of(w, name) <= w.len(),
        forall|j: int| 0 <= j < slot_of(w, name) ==> (#[trigger] w[j]).2 != name,
        slot_of(w, name) < w.len() ==> w[slot_of(w, name)].2 == name,
    decreases w.len(),
{
    if w.len() > 0 && w[0].2 != name {
        lemma_slot_of(w.drop_first(), name);
        assert forall|j: int| 0 <= j < slot_of(w, name) implies (#[trigger] w[j]).2 != name by {
            if j > 0 {
                assert(w[j] == w.drop_first()[j - 1]);
            }
        }
    }
}

/// The winners among candidates, one per name in the order names first
/// appear, each the most preferred of its name (the earliest among equals),
/// and the unpacked files of the losers, in the order they lose.
pub open spec fn winners_of(cs: Seq<(u8, Seq<char>, Seq<char>, Seq<char>)>) -> (Seq<(u8, Seq<char>, Seq<char>, Seq<char>)>, Seq<Seq<char>>)
    decreases cs.len(),
{
    if cs.len() == 0 {
        (Seq::empty(), Seq::empty())
    } else {
        let prev = winners_of(cs.drop_last());
        let c = cs.last();
        let k = slot_of(prev.0, c.2);
        if k >= prev.0.len() {
            (prev.0.push(c), prev.1)
        } else if c.0 < prev.0[k].0 {
            (prev.0.update(k, c), prev.1.push(prev.0[k].3))
        } else {
            (prev.0, prev.1.push(c.3))
        }
    }
}

fn slot_exec(w: &Vec<(u8, String, Staged)>, name: &String) -> (r: usize)
    ensures
        r == slot_of(cand_views(w@), name@),
{
    let ghost wv = cand_views(w@);
    proof {
        lemma_slot_of(wv, name@);
    }
    let n = text::chars_of(name.as_str());
    let mut i: usize = 0;
    while i < w.len()
        invariant
            i <= w.len(),
            wv == cand_views(w@),
            n@ == name@,
            forall|j: int| 0 <= j < i ==> (#[trigger] wv[j]).2 != name@,
            0 <= slot_of(wv, name@) <= wv.len(),
            forall|j: int| 0 <= j < slot_of(wv, name@) ==> (#[trigger] wv[j]).2 != name@,
            slot_of(wv, name@) < wv.len() ==> wv[slot_of(wv, name@)].2 == name@,
        decreases w.len() - i,
    {
        let k = text::chars_of(w[i].2.name.as_str());
        assert(wv[i as int].2 == w@[i as int].2.name@);
        if text::eq(&k, &n) {
            return i;
        }
        i += 1;
    }
    i
}

/// Chooses, among candidates of the same name, the one from the preferred
/// build (see [`build_rank`]); returns the winners and the unpacked files
/// of the others, to delete.
pub fn choose_winners(cands: Vec<(u8, String, Staged)>) -> (r: (Vec<(u8, String, Staged)>, Vec<String>))
    ensures
        (cand_views(r.0@), text::views(r.1@)) == winners_of(cand_views(cands@)),
{
    let ghost cs = cand_views(cands@);
    let mut winners: Vec<(u8, String, Staged)> = Vec::new();
    let mut dropped: Vec<String> = Vec::new();
    let n = cands.len();
    let rest = cands;
    let mut i: usize = 0;
    while i < n
        invariant
            i <= n == cs.len(),
            rest@.len() == n,
            cand_views(rest@) == cs,
            (cand_views(winners@), text::views(dropped@)) == winners_of(cs.take(i as int)),
        decreases n - i,
    {
        assert(cs.take(i + 1).drop_last() =~= cs.take(i as int));
        assert(cs.take(i + 1).last() == cs[i as int]);
        let c = clone_cand(&rest[i]);
        let ghost cv = cand_view(c);
        assert(cv == cs[i as int]);
        let k = slot_exec(&winners, &c.2.name);
        let ghost wv = cand_views(winners@);
        let ghost dv = text::views(dropped@);
        if k >= winners.len() {
            winners.push(c);
            assert(cand_views(winners@) =~= wv.push(cv));
        } else if c.0 < winners[k].0 {
            let old_tmp = text::copy_string(&winners[k].2.tmp);
            winners.set(k, c);
            dropped.push(old_tmp);
            assert(cand_views(winners@) =~= wv.update(k as int, cv));
            assert(text::views(dropped@) =~= dv.push(wv[k as int].3));
        } else {
            dropped.push(text::copy_string(&c.2.tmp));
            assert(text::views(dropped@) =~= dv.push(cv.3));
        }
        i += 1;
    }
    assert(cs.take(n as int) =~= cs);
    (winners, dropped)
}

fn clone_staged(s: &Staged) -> (r: Staged)
    ensures
        r.kind == s.kind,
        r.name@ == s.name@,
        r.tmp@ == s.tmp@,
        r.from@ == s.from@,
        r.bytes == s.bytes,
        r.sha256@ == s.sha256@,
        r.note@ == s.note@,
        r.trusted == s.trusted,
{
    Staged {
        kind: s.kind,
        name: text::copy_string(&s.name),
        tmp: text::copy_string(&s.tmp),
        from: text::copy_string(&s.from),
        bytes: s.bytes,
        sha256: text::copy_string(&s.sha256),
        note: text::copy_string(&s.note),
        trusted: s.trusted,
    }
}

fn clone_cand(c: &(u8, String, Staged)) -> (r: (u8, String, Staged))
    ensures
        cand_view(r) == cand_view(*c),
{
    (c.0, text::copy_string(&c.1), clone_staged(&c.2))
}

/// Of the candidates of an import, one winner stays per file name, and it
/// comes from a build at least as preferred as every candidate of its name.
pub proof fn law_one_best_per_name(cs: Seq<(u8, Seq<char>, Seq<char>, Seq<char>)>)
    ensures
        forall|i: int, j: int|
            0 <= i < j < winners_of(cs).0.len() ==> (#[trigger] winners_of(cs).0[i]).2
                != (#[trigger] winners_of(cs).0[j]).2,
        forall|i: int|
            0 <= i < cs.len() ==> exists|k: int|
                0 <= k < winners_of(cs).0.len() && (#[trigger] winners_of(cs).0[k]).2 == (
                #[trigger] cs[i]).2 && winners_of(cs).0[k].0 <= cs[i].0,
    decreases cs.len(),
{
    if cs.len() > 0 {
        let pcs = cs.drop_last();
        law_one_best_per_name(pcs);
        let prev = winners_of(pcs);
        let w = winners_of(cs).0;
        let c = cs.last();
        let k = slot_of(prev.0, c.2);
        lemma_slot_of(prev.0, c.2);
        assert forall|i: int, j: int| 0 <= i < j < w.len() implies (#[trigger] w[i]).2 != (
        #[trigger] w[j]).2 by {
            if k >= prev.0.len() {
                if j == prev.0.len() {
                    assert(w[i] == prev.0[i]);
                } else {
                    assert(w[i] == prev.0[i] && w[j] == prev.0[j]);
                }
            } else {
                assert(w[i].2 == prev.0[i].2);
                assert(w[j].2 == prev.0[j].2);
                assert(prev.0[i].2 != prev.0[j].2);
            }
        }
        assert forall|i: int| 0 <= i < cs.len() implies exists|m: int|
            0 <= m < w.len() && (#[trigger] w[m]).2 == (#[trigger] cs[i]).2 && w[m].0 <= cs[i].0 by {
            if i == cs.len() - 1 {
                if k >= prev.0.len() {
                    assert(w[prev.0.len() as int] == c);
                } else if c.0 < prev.0[k].0 {
                    assert(w[k] == c);
                } else {
                    assert(w[k] == prev.0[k]);
                }
            } else {
                assert(cs[i] == pcs[i]);
                let m = choose|m: int|
                    0 <= m < prev.0.len() && (#[trigger] prev.0[m]).2 == pcs[i].2 && prev.0[m].0
                        <= pcs[i].0;
                if k < prev.0.len() && c.0 < prev.0[k].0 && m == k {
                    assert(w[k] == c);
                } else {
                    assert(w[m] == prev.0[m]);
                }
            }
        }
    }
}

/// Every candidate before `idx` with the same name ranks worse.
#[verifier::opaque]
pub open spec fn first_best(cs: Seq<(u8, Seq<char>, Seq<char>, Seq<char>)>, idx: int) -> bool {
    forall|i: int| 0 <= i < idx && (#[trigger] cs[i]).2 == cs[idx].2 ==> cs[i].0 > cs[idx].0
}

proof fn lemma_first_best_grow(cs: Seq<(u8, Seq<char>, Seq<char>, Seq<char>)>, idx: int)
    requires
        cs.len() > 0,
        0 <= idx < cs.len() - 1,
        first_best(cs.drop_last(), idx),
    ensures
        first_best(cs, idx),
{
    reveal(first_best);
    let pcs = cs.drop_last();
    assert forall|i: int| 0 <= i < idx && (#[trigger] cs[i]).2 == cs[idx].2 implies cs[i].0 > cs[idx].0 by {
        assert(cs[i] == pcs[i] && cs[idx] == pcs[idx]);
    }
}

proof fn lemma_first_best_last(cs: Seq<(u8, Seq<char>, Seq<char>, Seq<char>)>, q: int)
    requires
        cs.len() > 0,
        0 <= q < winners_of(cs.drop_last()).0.len(),
        winners_of(cs.drop_last()).0[q].2 == cs.last().2,
        cs.last().0 < winners_of(cs.drop_last()).0[q].0,
        slot_of(winners_of(cs.drop_last()).0, cs.last().2) >= winners_of(cs.drop_last()).0.len()
            || slot_of(winners_of(cs.drop_last()).0, cs.last().2) == q,
    ensures
        first_best(cs, cs.len() - 1),
{
    reveal(first_best);
    let pcs = cs.drop_last();
    let prev = winners_of(pcs);
    let n = cs.len() - 1;
    law_one_best_per_name(pcs);
    assert forall|i: int| 0 <= i < n && (#[trigger] cs[i]).2 == cs[n].2 implies cs[i].0 > cs[n].0 by {
        assert(cs[i] == pcs[i]);
        let r = choose|r: int|
            0 <= r < prev.0.len() && (#[trigger] prev.0[r]).2 == (#[trigger] pcs[i]).2
                && prev.0[r].0 <= pcs[i].0;
        if r != q {
            assert(prev.0[r].2 != prev.0[q].2);
        }
    }
}

proof fn lemma_first_best_new(cs: Seq<(u8, Seq<char>, Seq<char>, Seq<char>)>)
    requires
        cs.len() > 0,
        slot_of(winners_of(cs.drop_last()).0, cs.last().2) >= winners_of(cs.drop_last()).0.len(),
    ensures
        first_best(cs, cs.len() - 1),
{
    reveal(first_best);
    let pcs = cs.drop_last();
    let prev = winners_of(pcs);
    let n = cs.len() - 1;
    law_one_best_per_name(pcs);
    lemma_slot_of(prev.0, cs.last().2);
    assert forall|i: int| 0 <= i < n && (#[trigger] cs[i]).2 == cs[n].2 implies cs[i].0 > cs[n].0 by {
        assert(cs[i] == pcs[i]);
        let r = choose|r: int|
            0 <= r < prev.0.len() && (#[trigger] prev.0[r]).2 == (#[trigger] pcs[i]).2
                && prev.0[r].0 <= pcs[i].0;
        assert(prev.0[r].2 != cs.last().2);
    }
}

/// Each winner is a candidate, the first of its name with the smallest
/// rank (every earlier candidate of that name ranks worse), and every other
/// candidate's unpacked file is listed for deletion, once.
pub proof fn law_first_best_wins(cs: Seq<(u8, Seq<char>, Seq<char>, Seq<char>)>)
    ensures
        forall|k: int|
            0 <= k < winners_of(cs).0.len() ==> exists|idx: int|
                0 <= idx < cs.len() && cs[idx] == #[trigger] winners_of(cs).0[k] && first_best(cs, idx),
        winners_of(cs).0.len() + winners_of(cs).1.len() == cs.len(),
    decreases cs.len(),
{
    if cs.len() > 0 {
        let pcs = cs.drop_last();
        law_first_best_wins(pcs);
        let prev = winners_of(pcs);
        let w = winners_of(cs).0;
        let c = cs.last();
        let n = cs.len() - 1;
        let k = slot_of(prev.0, c.2);
        lemma_slot_of(prev.0, c.2);
        assert(cs[n] == c);
        assert forall|m: int| 0 <= m < w.len() implies exists|idx: int|
            0 <= idx < cs.len() && cs[idx] == #[trigger] w[m] && first_best(cs, idx) by {
            if k >= prev.0.len() && m == prev.0.len() {
                assert(w[m] == c);
                lemma_first_best_new(cs);
            } else if k < prev.0.len() && c.0 < prev.0[k].0 && m == k {
                assert(w[m] == c);
                lemma_first_best_last(cs, k);
            } else {
                assert(w[m] == prev.0[m]);
                let idx = choose|idx: int|
                    0 <= idx < pcs.len() && pcs[idx] == #[trigger] prev.0[m] && first_best(pcs, idx);
                assert(cs[idx] == pcs[idx]);
                lemma_first_best_grow(cs, idx);
            }
        }
    }
}

/// A winner that is a proxy entry upstream no longer ships: kept as a
/// spare, never deployed.
pub open spec fn spare_entry(c: (u8, String, Staged)) -> bool {
    c.2.kind == Kind::Proxy && !scan::proxy_priority().contains(c.2.name@)
}

/// The note listed for a spare entry.
pub open spec fn spare_note(c: (u8, String, Staged)) -> Option<Seq<char>> {
    if spare_entry(c) {
        Some(c.2.name@ + "：上游当前版本不使用这个入口（只有老版包里才有），仍然放进资产目录备用"@)
    } else {
        None
    }
}

pub open spec fn spare_note_fn() -> spec_fn((u8, String, Staged)) -> Option<Seq<char>> {
    |c: (u8, String, Staged)| spare_note(c)
}

/// How a winner is finally judged: a trusted file from another build than
/// the preferred one (and not a spare entry) asks the user after all, its
/// note saying which build it comes from; any other keeps its judgement.
pub open spec fn final_judgement(c: (u8, String, Staged)) -> (bool, Seq<char>) {
    if !spare_entry(c) && c.0 > 0 && c.2.trusted {
        (false, c.2.note@ + "。注意：这个文件来自"@ + build_label_of(c.1@)
            + "，而不是最新版 —— 继续导入会用它覆盖资产里的同名文件"@)
    } else {
        (c.2.trusted, c.2.note@)
    }
}

/// Finishes the chosen files: each with its final judgement, and the notes
/// on spare entries.
pub fn finish_staged(winners: &Vec<(u8, String, Staged)>) -> (r: (Vec<Staged>, Vec<String>))
    ensures
        r.0@.len() == winners@.len(),
        forall|i: int|
            0 <= i < winners@.len() ==> {
                let st = #[trigger] r.0@[i];
                let c = winners@[i];
                &&& st.kind == c.2.kind
                &&& st.name@ == c.2.name@
                &&& st.tmp@ == c.2.tmp@
                &&& st.from@ == c.2.from@
                &&& st.bytes == c.2.bytes
                &&& st.sha256@ == c.2.sha256@
                &&& (st.trusted, st.note@) == final_judgement(c)
            },
        text::views(r.1@) == text::filter_map(winners@, spare_note_fn()),
{
    let mut out: Vec<Staged> = Vec::new();
    let mut notes: Vec<String> = Vec::new();
    let mut i: usize = 0;
    while i < winners.len()
        invariant
            i <= winners.len(),
            out@.len() == i,
            forall|j: int|
                0 <= j < i ==> {
                    let st = #[trigger] out@[j];
                    let c = winners@[j];
                    &&& st.kind == c.2.kind
                    &&& st.name@ == c.2.name@
                    &&& st.tmp@ == c.2.tmp@
                    &&& st.from@ == c.2.from@
                    &&& st.bytes == c.2.bytes
                    &&& st.sha256@ == c.2.sha256@
                    &&& (st.trusted, st.note@) == final_judgement(c)
                },
            text::views(notes@) == text::filter_map(winners@.take(i as int), spare_note_fn()),
        decreases winners.len() - i,
    {
        proof {
            text::lemma_filter_map_take(winners@, spare_note_fn(), i as int);
        }
        let c = &winners[i];
        let mut st = clone_staged(&c.2);
        let name = text::chars_of(c.2.name.as_str());
        let spare = c.2.kind == Kind::Proxy && !scan::is_current_proxy(&name);
        if spare {
            let ghost before = text::views(notes@);
            notes.push(text::cat2(
                c.2.name.as_str(),
                "：上游当前版本不使用这个入口（只有老版包里才有），仍然放进资产目录备用",
            ));
            assert(text::views(notes@) =~= before.push(spare_note(winners@[i as int]).unwrap()));
        } else if c.0 > 0 && c.2.trusted {
            st.trusted = false;
            let mut out_note = text::chars_of(c.2.note.as_str());
            text::extend_str(&mut out_note, "。注意：这个文件来自");
            text::extend_str(&mut out_note, build_label(c.1.as_str()));
            text::extend_str(&mut out_note, "，而不是最新版 —— 继续导入会用它覆盖资产里的同名文件");
            st.note = text::string_of(&out_note);
        }
        out.push(st);
        i += 1;
    }
    assert(winners@.take(winners.len() as int) =~= winners@);
    (out, notes)
}

} // verus!
