//! Game-library scanning rules, the minimal VDF reader, PE import and
//! certificate parsing, file identity, proxy-entry advice, GPU routing and
//! render-EXE scoring.

use vstd::prelude::*;
use crate::text;
use crate::paths;
use crate::util;
use crate::anticheat::AcTier;
use crate::gpu::GpuAdapter;

verus! {

/// Every proxy entry name, in upstream's order of preference; the last one is
/// a historic name only found in old archives.
pub const PROXY_ALL: [&'static str; 7] = [
    "version.dll",
    "winmm.dll",
    "dbghelp.dll",
    "dinput8.dll",
    "dxgi.dll",
    "d3d12.dll",
    "winhttp.dll",
];

pub open spec fn proxy_all() -> Seq<Seq<char>> {
    seq![
        "version.dll"@,
        "winmm.dll"@,
        "dbghelp.dll"@,
        "dinput8.dll"@,
        "dxgi.dll"@,
        "d3d12.dll"@,
        "winhttp.dll"@,
    ]
}

/// Index of `name` in `names`, or `names.len()`.
pub open spec fn index_in(names: Seq<Seq<char>>, name: Seq<char>) -> int
    decreases names.len(),
{
    if names.len() == 0 {
        0
    } else if names[0] == name {
        0
    } else {
        1 + index_in(names.drop_first(), name)
    }
}

/// The proxy entries the current upstream release ships, in preference order.
pub open spec fn proxy_priority() -> Seq<Seq<char>> {
    proxy_all().take(6)
}

/// The current entries, as upstream orders them (the first six of [`PROXY_ALL`]).
pub const PROXY_PRIORITY: [&'static str; 6] = [
    "version.dll",
    "winmm.dll",
    "dbghelp.dll",
    "dinput8.dll",
    "dxgi.dll",
    "d3d12.dll",
];

/// The historic entry (the last of [`PROXY_ALL`]).
pub const PROXY_HISTORIC: [&'static str; 1] = ["winhttp.dll"];

/// Whether `name` is one of the first `n` names of [`PROXY_ALL`].
pub fn in_proxy_all(name: &[char], n: usize) -> (r: bool)
    requires
        n <= 7,
    ensures
        r == proxy_all().take(n as int).contains(name@),
{
    let mut i: usize = 0;
    while i < n
        invariant
            i <= n <= 7,
            forall|k: int| 0 <= k < i ==> proxy_all()[k] != name@,
        decreases n - i,
    {
        let c = text::chars_of(PROXY_ALL[i]);
        if text::eq(&c, name) {
            assert(proxy_all().take(n as int)[i as int] == name@);
            return true;
        }
        i += 1;
    }
    assert forall|k: int| 0 <= k < n implies proxy_all().take(n as int)[k] != name@ by {
        assert(proxy_all().take(n as int)[k] == proxy_all()[k]);
    }
    false
}

/// Whether `name` is a proxy entry, current or historic.
pub fn is_known_proxy(name: &str) -> (r: bool)
    ensures
        r == proxy_all().contains(name@),
{
    let v = text::chars_of(name);
    let r = in_proxy_all(&v, 7);
    assert(proxy_all().take(7) == proxy_all());
    r
}

/// Whether `name` is one of the entries of the current upstream release.
pub fn is_current_proxy(name: &[char]) -> (r: bool)
    ensures
        r == proxy_priority().contains(name@),
{
    in_proxy_all(name, 6)
}

/// Where a DLL comes from, judged by its Authenticode certificate data.
#[derive(Debug, Clone, Copy, PartialEq, Eq, Structural)]
pub enum FileIdentity {
    /// Signed with one of this project's self-signed certificates.
    ThisProject,
    /// Signed by NVIDIA.
    Nvidia,
    /// Signed by someone else.
    OtherSigned,
    /// No signature.
    Unsigned,
    /// Could not be read.
    Unknown,
}

pub open spec fn identity_label(id: FileIdentity) -> Seq<char> {
    match id {
        FileIdentity::ThisProject => "本项目文件（作者自签证书）"@,
        FileIdentity::Nvidia => "NVIDIA 官方签名"@,
        FileIdentity::OtherSigned => "其他签名者"@,
        FileIdentity::Unsigned => "无签名"@,
        FileIdentity::Unknown => "无法识别"@,
    }
}

impl FileIdentity {
    pub fn label(&self) -> (r: &'static str)
        ensures
            r@ == identity_label(*self),
    {
        match self {
            FileIdentity::ThisProject => "本项目文件（作者自签证书）",
            FileIdentity::Nvidia => "NVIDIA 官方签名",
            FileIdentity::OtherSigned => "其他签名者",
            FileIdentity::Unsigned => "无签名",
            FileIdentity::Unknown => "无法识别",
        }
    }

    /// Whether the file is this project's own, and so safe to overwrite.
    pub fn is_ours(&self) -> (r: bool)
        ensures
            r == (*self == FileIdentity::ThisProject),
    {
        match self {
            FileIdentity::ThisProject => true,
            _ => false,
        }
    }
}

// ------------------------------------------------------------ game library

/// Where a game entry comes from.
#[derive(Debug, Clone, Copy, PartialEq, Eq, Structural)]
pub enum Launcher {
    Steam,
    Epic,
    /// Tencent WeGame (judged conservatively).
    WeGame,
    /// A directory the user saved to the library.
    Manual,
}

pub open spec fn launcher_label(l: Launcher) -> Seq<char> {
    match l {
        Launcher::Steam => "Steam"@,
        Launcher::Epic => "Epic"@,
        Launcher::WeGame => "WeGame"@,
        Launcher::Manual => "手动"@,
    }
}

impl Launcher {
    pub fn label(self) -> (r: &'static str)
        ensures
            r@ == launcher_label(self),
    {
        match self {
            Launcher::Steam => "Steam",
            Launcher::Epic => "Epic",
            Launcher::WeGame => "WeGame",
            Launcher::Manual => "手动",
        }
    }
}

/// One game of the library.
#[derive(Debug, Clone)]
pub struct GameEntry {
    pub source: Launcher,
    pub app_id: String,
    pub name: String,
    pub install_dir: String,
}

/// [`GameEntry`] as plain values.
pub struct GameEntryV {
    pub source: Launcher,
    pub app_id: Seq<char>,
    pub name: Seq<char>,
    pub install_dir: Seq<char>,
}

impl View for GameEntry {
    type V = GameEntryV;

    open spec fn view(&self) -> GameEntryV {
        GameEntryV {
            source: self.source,
            app_id: self.app_id@,
            name: self.name@,
            install_dir: self.install_dir@,
        }
    }
}

pub open spec fn entry_views(v: Seq<GameEntry>) -> Seq<GameEntryV> {
    v.map_values(|g: GameEntry| g@)
}

/// A cached row: the entry, the render EXE found last time, and the
/// anti-cheat tier judged last time.
#[derive(Debug, Clone)]
pub struct CachedRow {
    pub entry: GameEntry,
    pub render_exe: Option<String>,
    pub ac: AcTier,
}

/// The whole library: what scanning found and what the user saved, kept
/// apart so that a new scan never drops the user's entries.
#[derive(Debug, Clone)]
pub struct LibraryCache {
    /// When the last scan finished (UTC), empty when there was none.
    pub scanned_at: String,
    pub scanned: Vec<CachedRow>,
    pub manual: Vec<CachedRow>,
}

/// The scanned rows kept when a cache is loaded: those whose directory
/// still exists (`exists[i]` for row `i`), in order.
pub open spec fn kept_rows(rows: Seq<CachedRow>, exists: Seq<bool>) -> Seq<CachedRow>
    decreases rows.len(),
{
    if rows.len() == 0 {
        Seq::empty()
    } else {
        (if exists[0] {
            seq![rows[0]]
        } else {
            Seq::empty()
        }) + kept_rows(rows.drop_first(), exists.drop_first())
    }
}

proof fn lemma_kept_len(rows: Seq<CachedRow>, exists: Seq<bool>)
    ensures
        kept_rows(rows, exists).len() <= rows.len(),
    decreases rows.len(),
{
    if rows.len() > 0 {
        lemma_kept_len(rows.drop_first(), exists.drop_first());
    }
}

/// Some row is installed in `dir`, or has it as its deploy target
/// (`targets[i]` for row `i`).
pub open spec fn listed(rows: Seq<CachedRow>, targets: Seq<String>, dir: Seq<char>) -> bool {
    exists|i: int|
        0 <= i < rows.len() && ((#[trigger] rows[i]).entry.install_dir@ == dir || targets[i]@ == dir)
}

/// The saved rows that stay when the entry saved for `dir` is removed.
pub open spec fn other_rows(rows: Seq<CachedRow>, dir: Seq<char>) -> Seq<CachedRow> {
    rows.filter(elsewhere(dir))
}

/// A row installed somewhere other than `dir`.
pub open spec fn elsewhere(dir: Seq<char>) -> spec_fn(CachedRow) -> bool {
    |r: CachedRow| r.entry.install_dir@ != dir
}

impl LibraryCache {
    /// Saves a directory's row as the user's own, unless the library has
    /// that directory already (see [`listed`]; `targets` holds the deploy
    /// target of each scanned row, then of each saved one). Returns whether
    /// it was added; the scanned rows are untouched.
    pub fn add_manual(&mut self, row: CachedRow, targets: &Vec<String>) -> (r: bool)
        requires
            targets@.len() == old(self).scanned@.len() + old(self).manual@.len(),
        ensures
            r == !listed(old(self).scanned@ + old(self).manual@, targets@, row.entry.install_dir@),
            final(self).scanned@ == old(self).scanned@,
            final(self).scanned_at@ == old(self).scanned_at@,
            final(self).manual@ == (if r {
                old(self).manual@.push(row)
            } else {
                old(self).manual@
            }),
    {
        let ghost rows = self.scanned@ + self.manual@;
        let dir = text::chars_of(row.entry.install_dir.as_str());
        let ns = self.scanned.len();
        let nm = self.manual.len();
        let total = targets.len();
        let mut i: usize = 0;
        while i < total
            invariant
                total == ns + nm,
                ns == self.scanned@.len(),
                nm == self.manual@.len(),
                rows == self.scanned@ + self.manual@,
                targets@.len() == ns + nm,
                dir@ == row.entry.install_dir@,
                i <= ns + nm,
                forall|j: int|
                    0 <= j < i ==> (#[trigger] rows[j]).entry.install_dir@ != dir@ && targets@[j]@
                        != dir@,
            decreases total - i,
        {
            let here = if i < ns {
                text::chars_of(self.scanned[i].entry.install_dir.as_str())
            } else {
                text::chars_of(self.manual[i - ns].entry.install_dir.as_str())
            };
            assert(here@ == rows[i as int].entry.install_dir@);
            let t = text::chars_of(targets[i].as_str());
            if text::eq(&here, &dir) || text::eq(&t, &dir) {
                return false;
            }
            i += 1;
        }
        self.manual.push(row);
        true
    }

    /// Removes the row saved for `dir`; the scanned rows are untouched.
    pub fn remove_manual(&mut self, dir: &str)
        ensures
            final(self).manual@ == other_rows(old(self).manual@, dir@),
            final(self).scanned@ == old(self).scanned@,
            final(self).scanned_at@ == old(self).scanned_at@,
    {
        let ghost all = self.manual@;
        let d = text::chars_of(dir);
        let mut kept: Vec<CachedRow> = Vec::new();
        let mut k: usize = 0;
        let n = self.manual.len();
        assert(all.take(0) =~= Seq::<CachedRow>::empty());
        proof {
            reveal(Seq::filter);
        }
        while self.manual.len() > 0
            invariant
                all.len() == n,
                k + self.manual@.len() == n,
                self.manual@ == all.skip(k as int),
                kept@ == other_rows(all.take(k as int), dir@),
                d@ == dir@,
                self.scanned@ == old(self).scanned@,
                self.scanned_at@ == old(self).scanned_at@,
            decreases self.manual@.len(),
        {
            let ghost before = kept@;
            let ghost rest = self.manual@;
            let r = self.manual.remove(0);
            assert(r == all[k as int]);
            assert(self.manual@ =~= all.skip(k + 1));
            assert(all.take(k + 1) =~= all.take(k as int).push(r));
            let here = text::chars_of(r.entry.install_dir.as_str());
            let keep = !text::eq(&here, &d);
            assert(all.take(k + 1) =~= all.take(k as int).push(r));
            proof {
                all.take(k as int).lemma_filter_push(r, elsewhere(dir@));
            }
            assert(keep == elsewhere(dir@)(r));
            if keep {
                kept.push(r);
            }
            k += 1;
        }
        assert(all.take(n as int) =~= all);
        self.manual = kept;
    }

    /// The cache after a scan that finished at `at`: the scanned rows are
    /// replaced, and the entries the user saved are kept exactly as they were.
    pub fn with_scan(self, scanned: Vec<CachedRow>, at: String) -> (r: LibraryCache)
        ensures
            r.scanned@ == scanned@,
            r.manual@ == self.manual@,
            r.scanned_at@ == at@,
    {
        LibraryCache { scanned_at: at, scanned, manual: self.manual }
    }

    /// The rows a loaded cache shows: the scanned rows whose install
    /// directory still exists (`exists[i]` for scanned row `i`; a game that
    /// was uninstalled goes), then every saved row, kept even when its
    /// directory is gone (the drive may be unplugged); and how many scanned
    /// rows were dropped.
    pub fn rows_on_load(self, exists: &Vec<bool>) -> (r: (Vec<CachedRow>, usize))
        requires
            exists@.len() == self.scanned@.len(),
        ensures
            r.0@ == kept_rows(self.scanned@, exists@) + self.manual@,
            r.1 == self.scanned@.len() - kept_rows(self.scanned@, exists@).len(),
    {
        let ghost all = self.scanned@;
        let mut sc = self.scanned;
        let n = sc.len();
        assert(all.len() == n);
        let mut out: Vec<CachedRow> = Vec::new();
        let mut dropped: usize = 0;
        let mut k: usize = 0;
        proof {
            lemma_kept_len(all, exists@);
            assert(exists@.skip(0) =~= exists@);
            assert(all.skip(0) =~= all);
            assert(out@ + kept_rows(sc@, exists@.skip(0)) =~= kept_rows(all, exists@));
        }
        while sc.len() > 0
            invariant
                all.len() <= usize::MAX,
                k + sc@.len() == all.len(),
                exists@.len() == all.len(),
                sc@ == all.skip(k as int),
                out@ + kept_rows(sc@, exists@.skip(k as int)) == kept_rows(all, exists@),
                dropped + out@.len() == k,
                kept_rows(all, exists@).len() <= all.len(),
            decreases sc@.len(),
        {
            let ghost before = out@;
            let ghost rest = sc@;
            let ghost ex = exists@.skip(k as int);
            assert(rest.drop_first() =~= all.skip(k + 1));
            assert(ex.drop_first() =~= exists@.skip(k + 1));
            assert(ex[0] == exists@[k as int]);
            let row = sc.remove(0);
            assert(sc@ =~= rest.drop_first());
            if exists[k] {
                out.push(row);
                assert(out@ + kept_rows(sc@, exists@.skip(k + 1)) =~= before + (seq![rest[0]]
                    + kept_rows(rest.drop_first(), ex.drop_first())));
            } else {
                dropped += 1;
                assert(before + kept_rows(sc@, exists@.skip(k + 1)) =~= before + (Seq::<
                    CachedRow,
                >::empty() + kept_rows(rest.drop_first(), ex.drop_first())));
            }
            k += 1;
        }
        assert(kept_rows(sc@, exists@.skip(k as int)) =~= Seq::<CachedRow>::empty());
        assert(out@ =~= kept_rows(all, exists@));
        let mut manual = self.manual;
        let ghost m0 = manual@;
        out.append(&mut manual);
        assert(out@ =~= kept_rows(all, exists@) + m0);
        (out, dropped)
    }
}

/// The tier a cached row has when its record has none.
pub fn tier_none() -> (r: AcTier)
    ensures
        r == AcTier::NotDetected,
{
    AcTier::NotDetected
}

/// The name of a manual entry: the directory's own name, unless that is
/// missing or blank, in which case the whole path.
pub open spec fn manual_name(dir: Seq<char>) -> Seq<char> {
    match paths::file_name(dir) {
        Some(n) => if text::trim(n).len() > 0 {
            n
        } else {
            dir
        },
        None => dir,
    }
}

/// The entry for a directory the user saves to the library: named after
/// the directory, installed in the directory itself.
pub fn manual_entry(dir: &str) -> (r: GameEntry)
    ensures
        r.source == Launcher::Manual,
        r.app_id@ == Seq::<char>::empty(),
        r.name@ == manual_name(dir@),
        r.install_dir@ == dir@,
{
    let name = match paths::file_name_vec(dir) {
        Some(n) => {
            let t = text::trim_vec(&n);
            if t.len() > 0 {
                text::string_of(&n)
            } else {
                text::owned(dir)
            }
        },
        None => text::owned(dir),
    };
    GameEntry { source: Launcher::Manual, app_id: String::new(), name, install_dir: text::owned(dir) }
}

/// Registry paths with `/` written as `\`.
pub open spec fn normalize_win(s: Seq<char>) -> Seq<char> {
    util::replace_char(s, '/', '\\')
}

pub fn normalize_win_path(s: &str) -> (r: String)
    ensures
        r@ == normalize_win(s@),
{
    let v = text::chars_of(s);
    let r = util::replace_vec(&v, '/', '\\');
    text::string_of(&r)
}

/// The key two paths are compared by: lower case, `\` for `/`.
pub open spec fn spec_norm_key(p: Seq<char>) -> Seq<char> {
    util::replace_char(text::lowered(p), '/', '\\')
}

pub fn norm_key(p: &str) -> (r: String)
    ensures
        r@ == spec_norm_key(p@),
{
    let v = text::chars_of(p);
    let l = text::to_lowercase(&v);
    let r = util::replace_vec(&l, '/', '\\');
    text::string_of(&r)
}

/// Whether an uninstall entry's display name is Steam itself (not SteamVR
/// or Steamworks).
pub fn uninstall_is_steam(display: &str) -> (r: bool)
    ensures
        r == text::eq_ic(text::trim(display@), "steam"@),
{
    let t = text::trim_str(display);
    let s = text::chars_of("steam");
    text::eq_ignore_case(&t, &s)
}

pub open spec fn steam_junk_names() -> Seq<Seq<char>> {
    seq![
        "steamworks common redistributables"@,
        "steamvr"@,
        "steamvr beta"@,
        "proton experimental"@,
        "proton hotfix"@,
        "proton - experimental"@,
        "steam linux runtime"@,
    ]
}

const STEAM_JUNK_NAMES: [&'static str; 7] = [
    "steamworks common redistributables",
    "steamvr",
    "steamvr beta",
    "proton experimental",
    "proton hotfix",
    "proton - experimental",
    "steam linux runtime",
];

/// Steam runtimes and redistributables, which are not games: by their fixed
/// names, or "steam linux runtime " with anything after, or "proton "
/// followed by a digit. Compared on the trimmed, lower-cased name, so that
/// a game such as "Proton Bus Simulator" is kept.
pub open spec fn spec_steam_junk(name: Seq<char>) -> bool {
    let n = text::lowered(text::trim(name));
    ||| steam_junk_names().contains(n)
    ||| text::starts_with(n, "steam linux runtime "@)
    ||| (text::starts_with(n, "proton "@) && n.len() > 7 && text::is_digit(n[7]))
}

pub fn is_steam_junk(name: &str) -> (r: bool)
    ensures
        r == spec_steam_junk(name@),
{
    let t = text::trim_str(name);
    let n = text::to_lowercase(&t);
    proof {
        reveal_strlit("steamworks common redistributables");
        reveal_strlit("steamvr");
        reveal_strlit("steamvr beta");
        reveal_strlit("proton experimental");
        reveal_strlit("proton hotfix");
        reveal_strlit("proton - experimental");
        reveal_strlit("steam linux runtime");
        reveal_strlit("proton ");
    }
    let fixed = text::one_of(&n, &STEAM_JUNK_NAMES);
    proof {
        if fixed {
            let i = choose|i: int| 0 <= i < 7 && (#[trigger] STEAM_JUNK_NAMES@[i])@ == n@;
            assert(steam_junk_names()[i] == n@);
        }
        if steam_junk_names().contains(n@) {
            let i = choose|i: int| 0 <= i < 7 && steam_junk_names()[i] == n@;
            assert((STEAM_JUNK_NAMES@[i])@ == n@);
        }
    }
    if fixed {
        return true;
    }
    if text::starts_with_str(&n, "steam linux runtime ") {
        return true;
    }
    if text::starts_with_str(&n, "proton ") && n.len() > 7 {
        let c = n[7];
        return '0' <= c && c <= '9';
    }
    false
}

// ------------------------------------------------------------ GPU routing

/// Which build of the mod a GPU needs.
#[derive(Debug, Clone, Copy, PartialEq, Eq, Structural)]
pub enum GpuRoute {
    /// RTX 30 series: upstream's default.
    Sm86,
    /// RTX 20 series.
    Sm75,
    /// GTX 16 series: Turing without Tensor Cores; frame generation cannot
    /// run, and no build helps.
    Gtx16,
    /// RTX 40 / 50 series: frame generation is native.
    NotNeeded,
    /// AMD, Intel, integrated graphics.
    Unsupported,
    /// Unreadable or unrecognised.
    Unknown,
}

pub open spec fn route_label(r: GpuRoute) -> Seq<char> {
    match r {
        GpuRoute::Sm86 => "RTX 30 系 (SM86)"@,
        GpuRoute::Sm75 => "RTX 20 系 (SM75)"@,
        GpuRoute::Gtx16 => "GTX 16 系（无 Tensor Core）"@,
        GpuRoute::NotNeeded => "RTX 40 / 50 系"@,
        GpuRoute::Unsupported => "非 NVIDIA 显卡"@,
        GpuRoute::Unknown => "未能识别"@,
    }
}

impl GpuRoute {
    pub fn label(self) -> (r: &'static str)
        ensures
            r@ == route_label(self),
    {
        match self {
            GpuRoute::Sm86 => "RTX 30 系 (SM86)",
            GpuRoute::Sm75 => "RTX 20 系 (SM75)",
            GpuRoute::Gtx16 => "GTX 16 系（无 Tensor Core）",
            GpuRoute::NotNeeded => "RTX 40 / 50 系",
            GpuRoute::Unsupported => "非 NVIDIA 显卡",
            GpuRoute::Unknown => "未能识别",
        }
    }
}

/// The route of a GPU by its model name (upper-cased, ASCII): RTX 50/40 need
/// nothing; AMD, Radeon, Intel and Arc are unsupported; then RTX 30, GTX 16
/// (checked before RTX 20, since both are Turing), RTX 20; else unknown.
pub open spec fn spec_classify_gpu(name: Seq<char>) -> GpuRoute {
    let n = text::ascii_upper(name);
    if text::contains(n, "RTX 50"@) || text::contains(n, "RTX 40"@) {
        GpuRoute::NotNeeded
    } else if text::contains(n, "AMD"@) || text::contains(n, "RADEON"@) || text::contains(
        n,
        "INTEL"@,
    ) || text::contains(n, "ARC A"@) {
        GpuRoute::Unsupported
    } else if text::contains(n, "RTX 30"@) {
        GpuRoute::Sm86
    } else if text::contains(n, "GTX 16"@) {
        GpuRoute::Gtx16
    } else if text::contains(n, "RTX 20"@) {
        GpuRoute::Sm75
    } else {
        GpuRoute::Unknown
    }
}

pub fn classify_gpu(name: &str) -> (r: GpuRoute)
    ensures
        r == spec_classify_gpu(name@),
{
    let v = text::chars_of(name);
    let n = text::upper_vec(&v);
    if text::contains_str(&n, "RTX 50") || text::contains_str(&n, "RTX 40") {
        return GpuRoute::NotNeeded;
    }
    if text::contains_str(&n, "AMD") || text::contains_str(&n, "RADEON") || text::contains_str(
        &n,
        "INTEL",
    ) || text::contains_str(&n, "ARC A") {
        return GpuRoute::Unsupported;
    }
    if text::contains_str(&n, "RTX 30") {
        return GpuRoute::Sm86;
    }
    if text::contains_str(&n, "GTX 16") {
        return GpuRoute::Gtx16;
    }
    if text::contains_str(&n, "RTX 20") {
        return GpuRoute::Sm75;
    }
    GpuRoute::Unknown
}

/// How a GPU name decides the route, in its ASCII upper case: an RTX 40 or
/// RTX 50 card needs nothing (it has frame generation of its own), whatever
/// else the name says; an AMD, Radeon, Intel or Arc card is unsupported; an
/// RTX 30 card takes the SM86 route; a GTX 16 card is Turing without Tensor
/// Cores; an RTX 20 card takes the SM75 route; a name that says none of
/// these is unknown.
pub proof fn law_gpu_routes(name: Seq<char>)
    ensures
        ({
            let n = text::ascii_upper(name);
            let newer = text::contains(n, "RTX 40"@) || text::contains(n, "RTX 50"@);
            let other_vendor = text::contains(n, "AMD"@) || text::contains(n, "RADEON"@)
                || text::contains(n, "INTEL"@) || text::contains(n, "ARC A"@);
            &&& newer ==> spec_classify_gpu(name) == GpuRoute::NotNeeded
            &&& !newer && other_vendor ==> spec_classify_gpu(name) == GpuRoute::Unsupported
            &&& !newer && !other_vendor && text::contains(n, "RTX 30"@) ==> spec_classify_gpu(name)
                == GpuRoute::Sm86
            &&& !newer && !other_vendor && !text::contains(n, "RTX 30"@) && text::contains(
                n,
                "GTX 16"@,
            ) ==> spec_classify_gpu(name) == GpuRoute::Gtx16
            &&& !newer && !other_vendor && !text::contains(n, "RTX 30"@) && !text::contains(
                n,
                "GTX 16"@,
            ) && text::contains(n, "RTX 20"@) ==> spec_classify_gpu(name) == GpuRoute::Sm75
            &&& spec_classify_gpu(name) == GpuRoute::Unknown <==> !newer && !other_vendor
                && !text::contains(n, "RTX 30"@) && !text::contains(n, "GTX 16"@)
                && !text::contains(n, "RTX 20"@)
        }),
{
}

// ------------------------------------------------------------ picking the GPU name

/// The adapter's name is not recognised as any route.
pub open spec fn gpu_unknown(a: GpuAdapter) -> bool {
    spec_classify_gpu(a.driver_name@) == GpuRoute::Unknown
}

/// Adapter `a` is preferred to `b`: a recognised name before an unrecognised
/// one, then the greater driver version (in string order) first.
pub open spec fn gpu_better(a: GpuAdapter, b: GpuAdapter) -> bool {
    (!gpu_unknown(a) && gpu_unknown(b)) || (gpu_unknown(a) == gpu_unknown(b) && seq_lt(
        b.driver_version@,
        a.driver_version@,
    ))
}

/// `k` is the adapter a stable sort by preference puts first: none is
/// preferred to it, and it is preferred to every adapter before it.
pub open spec fn gpu_first(v: Seq<GpuAdapter>, k: int) -> bool {
    &&& 0 <= k < v.len()
    &&& forall|j: int| 0 <= j < v.len() ==> !gpu_better(#[trigger] v[j], v[k])
    &&& forall|j: int| 0 <= j < k ==> gpu_better(v[k], #[trigger] v[j])
}

/// nvidia-smi gave a name that is not blank.
pub open spec fn smi_usable(smi: Option<String>) -> bool {
    smi matches Some(n) && text::trim(n@).len() > 0
}

proof fn lemma_gpu_better(a: GpuAdapter, b: GpuAdapter, c: GpuAdapter)
    ensures
        !gpu_better(a, a),
        gpu_better(a, b) ==> !gpu_better(b, a),
        !gpu_better(a, b) && !gpu_better(b, a) ==> gpu_unknown(a) == gpu_unknown(b)
            && a.driver_version@ == b.driver_version@,
        gpu_better(a, b) && gpu_better(b, c) ==> gpu_better(a, c),
{
    lemma_seq_lt_irrefl(a.driver_version@);
    lemma_seq_lt_total(a.driver_version@, b.driver_version@);
    if gpu_better(a, b) && gpu_better(b, c) && gpu_unknown(a) == gpu_unknown(b) && gpu_unknown(b)
        == gpu_unknown(c) {
        lemma_seq_lt_trans(c.driver_version@, b.driver_version@, a.driver_version@);
    }
}

fn gpu_better_exec(a: &GpuAdapter, b: &GpuAdapter) -> (r: bool)
    ensures
        r == gpu_better(*a, *b),
{
    let ua = classify_gpu(a.driver_name.as_str()) == GpuRoute::Unknown;
    let ub = classify_gpu(b.driver_name.as_str()) == GpuRoute::Unknown;
    if !ua && ub {
        return true;
    }
    if ua != ub {
        return false;
    }
    let va = text::chars_of(a.driver_version.as_str());
    let vb = text::chars_of(b.driver_version.as_str());
    lt_exec(&vb, &va)
}

/// The GPU model name to use: nvidia-smi's, when it gave one that is not
/// blank; else the name of the adapter a stable sort puts first, recognised
/// names before unrecognised ones and then the newer driver version first;
/// `None` when there is neither.
pub fn pick_gpu_name(adapters: &Vec<GpuAdapter>, smi_name: Option<String>) -> (r: Option<String>)
    ensures
        smi_usable(smi_name) ==> r == smi_name,
        !smi_usable(smi_name) && adapters@.len() == 0 ==> r is None,
        !smi_usable(smi_name) && adapters@.len() > 0 ==> exists|k: int|
            gpu_first(adapters@, k) && (r matches Some(n) && n@ == adapters@[k].driver_name@),
{
    if let Some(n) = &smi_name {
        let t = text::trim_str(n.as_str());
        if t.len() > 0 {
            return smi_name;
        }
    }
    if adapters.len() == 0 {
        return None;
    }
    let mut best: usize = 0;
    let mut i: usize = 1;
    proof {
        lemma_gpu_better(adapters@[0], adapters@[0], adapters@[0]);
    }
    while i < adapters.len()
        invariant
            1 <= i <= adapters.len(),
            best < i,
            forall|j: int| 0 <= j < i ==> !gpu_better(#[trigger] adapters@[j], adapters@[best as int]),
            forall|j: int| 0 <= j < best ==> gpu_better(adapters@[best as int], #[trigger] adapters@[j]),
        decreases adapters.len() - i,
    {
        if gpu_better_exec(&adapters[i], &adapters[best]) {
            proof {
                let v = adapters@;
                assert forall|j: int| 0 <= j <= i implies !gpu_better(
                    #[trigger] v[j],
                    v[i as int],
                ) by {
                    lemma_gpu_better(v[j], v[i as int], v[best as int]);
                    lemma_gpu_better(v[i as int], v[i as int], v[i as int]);
                }
                assert forall|j: int| 0 <= j < i implies gpu_better(
                    v[i as int],
                    #[trigger] v[j],
                ) by {
                    lemma_gpu_better(v[j], v[best as int], v[i as int]);
                    lemma_gpu_better(v[i as int], v[best as int], v[j]);
                    if j == best {
                    } else {
                        assert(!gpu_better(v[j], v[best as int]));
                    }
                }
            }
            best = i;
        }
        i += 1;
    }
    let r = Some(text::copy_string(&adapters[best].driver_name));
    assert(gpu_first(adapters@, best as int));
    r
}

// ------------------------------------------------------------ minimal VDF reader

/// A token of a VDF text.
#[derive(Debug, Clone)]
pub enum Tok {
    Str(String),
    Open,
    Close,
}

pub enum TokV {
    Str(Seq<char>),
    Open,
    Close,
}

impl View for Tok {
    type V = TokV;

    open spec fn view(&self) -> TokV {
        match *self {
            Tok::Str(s) => TokV::Str(s@),
            Tok::Open => TokV::Open,
            Tok::Close => TokV::Close,
        }
    }
}

pub open spec fn tok_views(v: Seq<Tok>) -> Seq<TokV> {
    v.map_values(|t: Tok| t@)
}

/// The content of a quoted string that starts at `i`, and where it ends
/// (the closing quote, or the end of the text): `\` takes the next
/// character as it is.
pub open spec fn str_body(s: Seq<char>, i: int) -> (Seq<char>, int)
    decreases s.len() - i,
{
    if i < 0 || i >= s.len() || s[i] == '"' {
        (Seq::empty(), i)
    } else if s[i] == '\\' && i + 1 < s.len() {
        let r = str_body(s, i + 2);
        (seq![s[i + 1]] + r.0, r.1)
    } else {
        let r = str_body(s, i + 1);
        (seq![s[i]] + r.0, r.1)
    }
}

pub proof fn lemma_str_body(s: Seq<char>, i: int)
    requires
        0 <= i,
    ensures
        i <= str_body(s, i).1,
        i <= s.len() ==> str_body(s, i).1 <= s.len(),
    decreases s.len() - i,
{
    if i < s.len() && s[i] != '"' {
        if s[i] == '\\' && i + 1 < s.len() {
            lemma_str_body(s, i + 2);
        } else {
            lemma_str_body(s, i + 1);
        }
    }
}

/// The tokens of `s` from `i` on: quoted strings, `{` and `}`; anything
/// else is skipped.
pub open spec fn tokens_from(s: Seq<char>, i: int) -> Seq<TokV>
    decreases s.len() + 1 - i,
{
    if i < 0 || i >= s.len() {
        Seq::empty()
    } else if s[i] == '"' {
        let r = str_body(s, i + 1);
        proof {
            lemma_str_body(s, i + 1);
        }
        seq![TokV::Str(r.0)] + tokens_from(s, r.1 + 1)
    } else if s[i] == '{' {
        seq![TokV::Open] + tokens_from(s, i + 1)
    } else if s[i] == '}' {
        seq![TokV::Close] + tokens_from(s, i + 1)
    } else {
        tokens_from(s, i + 1)
    }
}

/// The tokens of a VDF text.
pub fn tokenize(text: &str) -> (r: Vec<Tok>)
    ensures
        tok_views(r@) == tokens_from(text@, 0),
{
    let chars = text::chars_of(text);
    let ghost s = chars@;
    let n = chars.len();
    let mut toks: Vec<Tok> = Vec::new();
    let mut i: usize = 0;
    assert(tok_views(toks@) + tokens_from(s, 0) =~= tokens_from(s, 0));
    while i < n
        invariant
            s == chars@,
            s == text@,
            n == s.len(),
            i <= n + 1,
            tok_views(toks@) + tokens_from(s, i as int) == tokens_from(s, 0),
        decreases n + 1 - i,
    {
        let c = chars[i];
        let ghost before = tok_views(toks@);
        if c == '"' {
            let ghost i0 = i + 1;
            let mut st: Vec<char> = Vec::new();
            i += 1;
            proof {
                lemma_str_body(s, i0);
            }
            while i < n && chars[i] != '"'
                invariant
                    s == chars@,
                    n == s.len(),
                    i0 <= i <= n,
                    st@ + str_body(s, i as int).0 == str_body(s, i0).0,
                    str_body(s, i as int).1 == str_body(s, i0).1,
                decreases n - i,
            {
                if chars[i] == '\\' && i + 1 < n {
                    st.push(chars[i + 1]);
                    proof {
                        assert(st@ + str_body(s, i + 2).0 =~= str_body(s, i0).0);
                    }
                    i += 2;
                } else {
                    st.push(chars[i]);
                    proof {
                        assert(st@ + str_body(s, i + 1).0 =~= str_body(s, i0).0);
                    }
                    i += 1;
                }
            }
            assert(st@ =~= str_body(s, i0).0);
            if i < n {
                i += 1;
            } else {
                assert(tokens_from(s, i + 1) =~= tokens_from(s, i as int));
            }
            toks.push(Tok::Str(text::string_of(&st)));
            proof {
                assert(tok_views(toks@) =~= before.push(TokV::Str(str_body(s, i0).0)));
                assert(tok_views(toks@) + tokens_from(s, i as int) =~= before + (seq![
                    TokV::Str(str_body(s, i0).0),
                ] + tokens_from(s, i as int)));
            }
        } else if c == '{' {
            toks.push(Tok::Open);
            proof {
                assert(tok_views(toks@) =~= before.push(TokV::Open));
                assert(tok_views(toks@) + tokens_from(s, i + 1) =~= before + (seq![TokV::Open]
                    + tokens_from(s, i + 1)));
            }
            i += 1;
        } else if c == '}' {
            toks.push(Tok::Close);
            proof {
                assert(tok_views(toks@) =~= before.push(TokV::Close));
                assert(tok_views(toks@) + tokens_from(s, i + 1) =~= before + (seq![TokV::Close]
                    + tokens_from(s, i + 1)));
            }
            i += 1;
        } else {
            i += 1;
        }
    }
    assert(tok_views(toks@) =~= tokens_from(s, 0));
    toks
}

/// The key-value pairs of the tokens from `i` on: two strings in a row make
/// a pair; a key followed by `{` opens a block and pairs with nothing.
pub open spec fn pairs_from(t: Seq<TokV>, i: int) -> Seq<(Seq<char>, Seq<char>)>
    decreases t.len() - i,
{
    if i < 0 || i >= t.len() {
        Seq::empty()
    } else if i + 1 < t.len() && t[i] is Str && t[i + 1] is Str {
        seq![(t[i]->Str_0, t[i + 1]->Str_0)] + pairs_from(t, i + 2)
    } else {
        pairs_from(t, i + 1)
    }
}

/// Every `"key" "value"` pair of a VDF text, in order.
pub open spec fn spec_vdf_pairs(text: Seq<char>) -> Seq<(Seq<char>, Seq<char>)> {
    pairs_from(tokens_from(text, 0), 0)
}

pub open spec fn pair_views(v: Seq<(String, String)>) -> Seq<(Seq<char>, Seq<char>)> {
    v.map_values(|p: (String, String)| (p.0@, p.1@))
}

pub fn vdf_pairs(text: &str) -> (r: Vec<(String, String)>)
    ensures
        pair_views(r@) == spec_vdf_pairs(text@),
{
    let toks = tokenize(text);
    let ghost t = tok_views(toks@);
    let n = toks.len();
    let mut out: Vec<(String, String)> = Vec::new();
    let mut i: usize = 0;
    assert(pair_views(out@) + pairs_from(t, 0) =~= pairs_from(t, 0));
    while i < n
        invariant
            t == tok_views(toks@),
            n == t.len(),
            i <= n + 1,
            pair_views(out@) + pairs_from(t, i as int) == pairs_from(t, 0),
        decreases n + 1 - i,
    {
        let ghost before = pair_views(out@);
        if i + 1 < n {
            match (&toks[i], &toks[i + 1]) {
                (Tok::Str(k), Tok::Str(v)) => {
                    out.push((text::copy_string(k), text::copy_string(v)));
                    proof {
                        assert(t[i as int] == toks@[i as int]@);
                        assert(t[i + 1] == toks@[i + 1]@);
                        assert(pair_views(out@) =~= before.push((k@, v@)));
                        assert(pair_views(out@) + pairs_from(t, i + 2) =~= before + (seq![
                            (k@, v@),
                        ] + pairs_from(t, i + 2)));
                    }
                    i += 2;
                    continue;
                },
                _ => {
                    proof {
                        assert(t[i as int] == toks@[i as int]@);
                        assert(t[i + 1] == toks@[i + 1]@);
                    }
                },
            }
        }
        i += 1;
    }
    assert(pair_views(out@) =~= pairs_from(t, 0));
    out
}

// ------------------------------------------------------------ Steam

/// A key of `libraryfolders.vdf` that holds a library path: `path` in the
/// new format, a number in the old one.
pub open spec fn is_library_key(k: Seq<char>) -> bool {
    text::eq_ic(k, "path"@) || (k.len() > 0 && text::all_digits(k))
}

pub open spec fn library_fn() -> spec_fn((Seq<char>, Seq<char>)) -> Option<Seq<char>> {
    |p: (Seq<char>, Seq<char>)|
        if is_library_key(p.0) {
            Some(normalize_win(p.1))
        } else {
            None
        }
}

/// The library paths a `libraryfolders.vdf` lists, in order, with `/`
/// written as `\` (whether they exist is for the caller to check).
pub fn library_candidates(text: &str) -> (r: Vec<String>)
    ensures
        text::views(r@) == text::filter_map(spec_vdf_pairs(text@), library_fn()),
{
    let pairs = vdf_pairs(text);
    let ghost pv = pair_views(pairs@);
    let mut out: Vec<String> = Vec::new();
    let mut i: usize = 0;
    while i < pairs.len()
        invariant
            i <= pairs.len(),
            pv == pair_views(pairs@),
            pv == spec_vdf_pairs(text@),
            text::views(out@) == text::filter_map(pv.take(i as int), library_fn()),
        decreases pairs.len() - i,
    {
        proof {
            text::lemma_filter_map_take(pv, library_fn(), i as int);
        }
        let k = text::chars_of(pairs[i].0.as_str());
        let p = text::chars_of("path");
        let is_path = text::eq_ignore_case(&k, &p) || (k.len() > 0 && all_digits_exec(&k));
        if is_path {
            let ghost before = text::views(out@);
            out.push(normalize_win_path(pairs[i].1.as_str()));
            proof {
                assert(text::views(out@) =~= before.push(normalize_win(pv[i as int].1)));
            }
        }
        i += 1;
    }
    proof {
        text::lemma_take_full(pv);
    }
    out
}

fn all_digits_exec(s: &[char]) -> (r: bool)
    ensures
        r == text::all_digits(s@),
{
    let mut i: usize = 0;
    while i < s.len()
        invariant
            i <= s.len(),
            forall|k: int| 0 <= k < i ==> text::is_digit(#[trigger] s@[k]),
        decreases s.len() - i,
    {
        if !('0' <= s[i] && s[i] <= '9') {
            return false;
        }
        i += 1;
    }
    true
}

/// `libs` after adding `p`, unless a library with the same key is there.
pub open spec fn add_library_spec(libs: Seq<Seq<char>>, p: Seq<char>) -> Seq<Seq<char>> {
    if exists|i: int| 0 <= i < libs.len() && spec_norm_key(#[trigger] libs[i]) == spec_norm_key(p) {
        libs
    } else {
        libs.push(p)
    }
}

/// Adds an existing library directory unless it is already listed.
pub fn add_library(libs: &mut Vec<String>, p: &str)
    ensures
        text::views(final(libs)@) == add_library_spec(text::views(old(libs)@), p@),
{
    let k = norm_key(p);
    let mut i: usize = 0;
    while i < libs.len()
        invariant
            i <= libs.len(),
            k@ == spec_norm_key(p@),
            forall|j: int| 0 <= j < i ==> spec_norm_key(#[trigger] libs@[j]@) != k@,
        decreases libs.len() - i,
    {
        let lk = norm_key(libs[i].as_str());
        let a = text::chars_of(lk.as_str());
        let b = text::chars_of(k.as_str());
        if text::eq(&a, &b) {
            assert(text::views(libs@)[i as int] == libs@[i as int]@);
            return;
        }
        i += 1;
    }
    let ghost before = text::views(libs@);
    assert forall|j: int| 0 <= j < before.len() implies spec_norm_key(#[trigger] before[j])
        != spec_norm_key(p@) by {
        assert(before[j] == libs@[j]@);
    }
    libs.push(text::owned(p));
    assert(text::views(libs@) =~= before.push(p@));
}

/// The value of the first pair whose key is `key` (ignoring ASCII case), or
/// empty.
pub open spec fn vdf_get(pairs: Seq<(Seq<char>, Seq<char>)>, key: Seq<char>) -> Seq<char>
    decreases pairs.len(),
{
    if pairs.len() == 0 {
        Seq::empty()
    } else if text::eq_ic(pairs[0].0, key) {
        pairs[0].1
    } else {
        vdf_get(pairs.drop_first(), key)
    }
}

fn vdf_get_exec(pairs: &Vec<(String, String)>, key: &str) -> (r: String)
    ensures
        r@ == vdf_get(pair_views(pairs@), key@),
{
    let kv = text::chars_of(key);
    let ghost pv = pair_views(pairs@);
    let mut i: usize = 0;
    assert(pv.skip(0) =~= pv);
    while i < pairs.len()
        invariant
            i <= pairs.len(),
            pv == pair_views(pairs@),
            kv@ == key@,
            vdf_get(pv, key@) == vdf_get(pv.skip(i as int), key@),
        decreases pairs.len() - i,
    {
        let k = text::chars_of(pairs[i].0.as_str());
        assert(pv.skip(i as int)[0] == pv[i as int]);
        assert(pv.skip(i as int).drop_first() =~= pv.skip(i + 1));
        if text::eq_ignore_case(&k, &kv) {
            return text::copy_string(&pairs[i].1);
        }
        i += 1;
    }
    assert(pv.skip(pairs.len() as int) =~= Seq::<(Seq<char>, Seq<char>)>::empty());
    String::new()
}

/// What an `appmanifest_*.acf` yields.
#[derive(Debug, Clone)]
pub enum SteamApp {
    /// No name or no install directory in the manifest.
    Incomplete,
    /// A Steam runtime, not a game.
    Runtime { name: String },
    /// A game, installed under `steamapps\common\<installdir>`.
    Game { app_id: String, name: String, installdir: String },
}

pub enum SteamAppV {
    Incomplete,
    Runtime(Seq<char>),
    Game(Seq<char>, Seq<char>, Seq<char>),
}

impl View for SteamApp {
    type V = SteamAppV;

    open spec fn view(&self) -> SteamAppV {
        match *self {
            SteamApp::Incomplete => SteamAppV::Incomplete,
            SteamApp::Runtime { name } => SteamAppV::Runtime(name@),
            SteamApp::Game { app_id, name, installdir } => SteamAppV::Game(
                app_id@,
                name@,
                installdir@,
            ),
        }
    }
}

/// What an app manifest yields: its `appid`, `name` and `installdir`; no
/// name or directory makes it incomplete, and a runtime's name excludes it.
pub open spec fn spec_steam_app(text: Seq<char>) -> SteamAppV {
    let p = spec_vdf_pairs(text);
    let name = vdf_get(p, "name"@);
    let dir = vdf_get(p, "installdir"@);
    if name.len() == 0 || dir.len() == 0 {
        SteamAppV::Incomplete
    } else if spec_steam_junk(name) {
        SteamAppV::Runtime(name)
    } else {
        SteamAppV::Game(vdf_get(p, "appid"@), name, dir)
    }
}

pub fn steam_app(text: &str) -> (r: SteamApp)
    ensures
        r@ == spec_steam_app(text@),
{
    let pairs = vdf_pairs(text);
    let app_id = vdf_get_exec(&pairs, "appid");
    let name = vdf_get_exec(&pairs, "name");
    let dir = vdf_get_exec(&pairs, "installdir");
    if name.as_str().unicode_len() == 0 || dir.as_str().unicode_len() == 0 {
        return SteamApp::Incomplete;
    }
    if is_steam_junk(name.as_str()) {
        return SteamApp::Runtime { name };
    }
    SteamApp::Game { app_id, name, installdir: dir }
}

// ------------------------------------------------------------ Epic

/// What an Epic `.item` manifest yields.
#[derive(Debug, Clone)]
pub enum EpicItem {
    /// An engine, plugin or DLC (`bIsApplication` is false).
    NotApp,
    /// `DisplayName` or `InstallLocation` is missing.
    MissingField,
    /// An application: its name (possibly empty) and location.
    App { app_id: String, name: String, location: String },
}

pub enum EpicItemV {
    NotApp,
    MissingField,
    App(Seq<char>, Seq<char>, Seq<char>),
}

impl View for EpicItem {
    type V = EpicItemV;

    open spec fn view(&self) -> EpicItemV {
        match *self {
            EpicItem::NotApp => EpicItemV::NotApp,
            EpicItem::MissingField => EpicItemV::MissingField,
            EpicItem::App { app_id, name, location } => EpicItemV::App(app_id@, name@, location@),
        }
    }
}

pub open spec fn opt_str(o: Option<String>) -> Option<Seq<char>> {
    match o {
        Some(s) => Some(s@),
        None => None,
    }
}

/// The decision on an Epic manifest from its fields: only applications
/// count, and both the display name and the location must be there; a
/// missing `AppName` gives an empty id.
pub open spec fn epic_item_v(
    is_application: Option<bool>,
    display_name: Option<Seq<char>>,
    install_location: Option<Seq<char>>,
    app_name: Option<Seq<char>>,
) -> EpicItemV {
    if is_application == Some(false) {
        EpicItemV::NotApp
    } else if display_name is None || install_location is None {
        EpicItemV::MissingField
    } else {
        EpicItemV::App(
            match app_name {
                Some(a) => a,
                None => Seq::empty(),
            },
            display_name.unwrap(),
            install_location.unwrap(),
        )
    }
}

/// The decision on an Epic manifest from its fields.
pub fn epic_item(
    is_application: Option<bool>,
    display_name: Option<String>,
    install_location: Option<String>,
    app_name: Option<String>,
) -> (r: EpicItem)
    ensures
        r@ == epic_item_v(is_application, opt_str(display_name), opt_str(install_location), opt_str(app_name)),
{
    if is_application == Some(false) {
        return EpicItem::NotApp;
    }
    match (display_name, install_location) {
        (Some(name), Some(location)) => {
            let app_id = match app_name {
                Some(a) => a,
                None => String::new(),
            };
            EpicItem::App { app_id, name, location }
        },
        _ => EpicItem::MissingField,
    }
}

/// What `serde_json::from_str` makes of an Epic launcher manifest's text,
/// read as its `bIsApplication`, `DisplayName`, `InstallLocation` and
/// `AppName` fields; `None` when the text is not JSON.
pub uninterp spec fn epic_fields_of(text: Seq<char>) -> Option<(Option<bool>, Option<Seq<char>>, Option<Seq<char>>, Option<Seq<char>>)>;

/// Parses the text with `serde_json::from_str` into a `serde_json::Value`
/// and reads `bIsApplication` with `as_bool` and the three names with
/// `as_str` (`None` for a field that is missing or of another type). Claimed:
/// the result depends on the text alone, and is `epic_fields_of` of it.
#[verifier::external_body]
fn epic_fields(text: &str) -> (r: Option<(Option<bool>, Option<String>, Option<String>, Option<String>)>)
    ensures
        match r {
            None => epic_fields_of(text@) is None,
            Some(f) => epic_fields_of(text@) == Some((f.0, opt_str(f.1), opt_str(f.2), opt_str(f.3))),
        },
{
    let v: serde_json::Value = serde_json::from_str(text).ok()?;
    Some((
        v.get("bIsApplication").and_then(|x| x.as_bool()),
        v.get("DisplayName").and_then(|x| x.as_str()).map(|x| x.to_owned()),
        v.get("InstallLocation").and_then(|x| x.as_str()).map(|x| x.to_owned()),
        v.get("AppName").and_then(|x| x.as_str()).map(|x| x.to_owned()),
    ))
}

/// Reads an Epic launcher manifest (an `.item` file's JSON text): `None`
/// when the text is not JSON, else the decision [`epic_item`] makes on its
/// fields.
pub fn epic_item_of_text(text: &str) -> (r: Option<EpicItem>)
    ensures
        match epic_fields_of(text@) {
            None => r is None,
            Some(f) => r matches Some(e) && e@ == epic_item_v(f.0, f.1, f.2, f.3),
        },
{
    match epic_fields(text) {
        None => None,
        Some((is_app, name, location, id)) => Some(epic_item(is_app, name, location, id)),
    }
}

// ------------------------------------------------------------ WeGame

/// Whether a registry value's name looks like an install path.
pub open spec fn spec_path_like(name: Seq<char>) -> bool {
    let n = text::ascii_lower(name);
    text::contains(n, "path"@) || text::contains(n, "dir"@) || text::contains(n, "install"@)
        || text::contains(n, "location"@)
}

pub fn wegame_value_is_path_like(name: &str) -> (r: bool)
    ensures
        r == spec_path_like(name@),
{
    let v = text::chars_of(name);
    let n = text::lower_vec(&v);
    text::contains_str(&n, "path") || text::contains_str(&n, "dir") || text::contains_str(
        &n,
        "install",
    ) || text::contains_str(&n, "location")
}

/// Whether a registry value's name looks like the game's display name.
pub open spec fn spec_name_like(name: Seq<char>) -> bool {
    let n = text::ascii_lower(name);
    n == "name"@ || n == "gamename"@ || n == "displayname"@ || n == "title"@
}

pub fn wegame_value_is_name_like(name: &str) -> (r: bool)
    ensures
        r == spec_name_like(name@),
{
    let v = text::chars_of(name);
    let n = text::lower_vec(&v);
    let a = text::chars_of("name");
    let b = text::chars_of("gamename");
    let c = text::chars_of("displayname");
    let d = text::chars_of("title");
    text::eq(&n, &a) || text::eq(&n, &b) || text::eq(&n, &c) || text::eq(&n, &d)
}

pub open spec fn is_key_sep(c: char) -> bool {
    c == '(' || c == '_' || c == '-'
}

/// Index of the last `(`, `_` or `-` in `s`, or -1.
pub open spec fn last_key_sep(s: Seq<char>) -> int
    decreases s.len(),
{
    if s.len() == 0 {
        -1
    } else if is_key_sep(s.last()) {
        s.len() - 1
    } else {
        last_key_sep(s.drop_last())
    }
}

/// A game name from a registry key name: the key trimmed, without closing
/// parentheses at the end, and without a numeric suffix after its last `(`,
/// `_` or `-` (as in "铁甲雄兵(2000806)"); never empty when that would remove
/// everything.
pub open spec fn spec_name_from_key(key: Seq<char>) -> Seq<char> {
    let s = util::trim_end_char(text::trim(key), ')');
    let i = last_key_sep(s);
    let tail = text::trim(s.skip(i + 1));
    let out = if i >= 0 && tail.len() > 0 && text::all_digits(tail) {
        text::trim_end(s.take(i))
    } else {
        s
    };
    if out.len() == 0 {
        s
    } else {
        out
    }
}

proof fn lemma_last_key_sep(s: Seq<char>)
    ensures
        -1 <= last_key_sep(s) < s.len(),
        last_key_sep(s) >= 0 ==> is_key_sep(s[last_key_sep(s)]),
        forall|j: int| last_key_sep(s) < j < s.len() ==> !is_key_sep(#[trigger] s[j]),
    decreases s.len(),
{
    if s.len() > 0 && !is_key_sep(s.last()) {
        lemma_last_key_sep(s.drop_last());
        assert forall|j: int| last_key_sep(s) < j < s.len() implies !is_key_sep(#[trigger] s[j]) by {
            if j < s.len() - 1 {
                assert(s[j] == s.drop_last()[j]);
            }
        }
    }
}

pub fn wegame_name_from_key(key: &str) -> (r: String)
    ensures
        r@ == spec_name_from_key(key@),
{
    let t = text::trim_str(key);
    let s = util::trim_end_vec(&t, ')');
    let mut i: usize = s.len();
    while i > 0 && !(s[i - 1] == '(' || s[i - 1] == '_' || s[i - 1] == '-')
        invariant
            i <= s.len(),
            forall|j: int| i <= j < s.len() ==> !is_key_sep(#[trigger] s@[j]),
        decreases i,
    {
        i -= 1;
    }
    proof {
        lemma_last_key_sep(s@);
        let l = last_key_sep(s@);
        if i > 0 {
            assert(is_key_sep(s@[i - 1]));
            if l != i - 1 {
                if l < i - 1 {
                    assert(!is_key_sep(s@[i - 1]));
                }
            }
        }
        assert(l == i - 1);
    }
    let mut out = text::to_vec(&s);
    if i > 0 {
        let tailv = text::slice_vec(&s, i, s.len());
        assert(tailv@ =~= s@.skip(i as int));
        let tail = text::trim_vec(&tailv);
        if tail.len() > 0 && all_digits_exec(&tail) {
            let head = text::slice_vec(&s, 0, i - 1);
            assert(head@ =~= s@.take(i - 1));
            out = trim_end_chars(&head);
        }
    }
    if out.len() == 0 {
        text::string_of(&s)
    } else {
        text::string_of(&out)
    }
}

fn trim_end_chars(s: &[char]) -> (r: Vec<char>)
    ensures
        r@ == text::trim_end(s@),
{
    let mut n = s.len();
    assert(s@.take(s.len() as int) =~= s@);
    while n > 0 && text::is_whitespace(s[n - 1])
        invariant
            n <= s.len(),
            text::trim_end(s@) == text::trim_end(s@.take(n as int)),
        decreases n,
    {
        assert(s@.take(n as int).drop_last() =~= s@.take(n - 1));
        n -= 1;
    }
    text::slice_vec(s, 0, n)
}

pub const WEGAME_NON_GAME_KEYS: [&'static str; 9] = [
    "WeGame",
    "wegame",
    "QQ",
    "QQNT",
    "QQProtect",
    "WeChat",
    "Weixin",
    "TIM",
    "TencentDocs",
];

/// Tencent keys that are clients or chat tools, not games (exact names,
/// ignoring ASCII case, so that games such as "QQ飞车" are kept).
pub fn wegame_is_non_game_key(key: &str) -> (r: bool)
    ensures
        r == exists|i: int|
            0 <= i < 9 && text::eq_ic(key@, (#[trigger] WEGAME_NON_GAME_KEYS@[i])@),
{
    let v = text::chars_of(key);
    text::one_of_ic(&v, &WEGAME_NON_GAME_KEYS)
}

/// One string value of a WeGame key: its name, its data, and the existing
/// directory the data points at (the directory itself, or a file's folder),
/// as the caller found it for the trimmed data.
#[derive(Debug, Clone)]
pub struct WegameValue {
    pub name: String,
    pub data: String,
    pub existing_dir: Option<String>,
}

/// What the values of a key give so far: a directory named like a path, a
/// directory from any other value, and a display name.
pub struct WegamePick {
    pub dir: Option<Seq<char>>,
    pub weak: Option<Seq<char>>,
    pub display: Option<Seq<char>>,
}

pub open spec fn wegame_step(p: WegamePick, v: WegameValue) -> WegamePick {
    let s = text::trim(v.data@);
    if s.len() == 0 {
        p
    } else if spec_name_like(v.name@) && p.display is None {
        WegamePick { display: Some(s), ..p }
    } else {
        match v.existing_dir {
            Some(d) => if spec_path_like(v.name@) && p.dir is None {
                WegamePick { dir: Some(d@), ..p }
            } else if p.weak is None {
                WegamePick { weak: Some(d@), ..p }
            } else {
                p
            },
            None => p,
        }
    }
}

pub open spec fn wegame_fold(vs: Seq<WegameValue>) -> WegamePick
    decreases vs.len(),
{
    if vs.len() == 0 {
        WegamePick { dir: None, weak: None, display: None }
    } else {
        wegame_step(wegame_fold(vs.drop_last()), vs.last())
    }
}

/// The directory and display name of a WeGame key, from its values in
/// order: the first directory from a value named like a path, else the
/// first directory from any value; the first non-blank value named like a
/// display name.
pub fn wegame_pick(values: &Vec<WegameValue>) -> (r: (Option<String>, Option<String>))
    ensures
        opt_str(r.0) == (match wegame_fold(values@).dir {
            Some(d) => Some(d),
            None => wegame_fold(values@).weak,
        }),
        opt_str(r.1) == wegame_fold(values@).display,
{
    let mut dir: Option<String> = None;
    let mut weak: Option<String> = None;
    let mut display: Option<String> = None;
    let mut i: usize = 0;
    while i < values.len()
        invariant
            i <= values.len(),
            wegame_fold(values@.take(i as int)) == (WegamePick {
                dir: opt_str(dir),
                weak: opt_str(weak),
                display: opt_str(display),
            }),
        decreases values.len() - i,
    {
        let v = &values[i];
        proof {
            assert(values@.take(i + 1).drop_last() =~= values@.take(i as int));
            assert(values@.take(i + 1).last() == values@[i as int]);
        }
        let s = text::trim_str(v.data.as_str());
        if s.len() > 0 {
            if wegame_value_is_name_like(v.name.as_str()) && display.is_none() {
                display = Some(text::string_of(&s));
            } else {
                match &v.existing_dir {
                    Some(d) => {
                        if wegame_value_is_path_like(v.name.as_str()) && dir.is_none() {
                            dir = Some(text::copy_string(d));
                        } else if weak.is_none() {
                            weak = Some(text::copy_string(d));
                        }
                    },
                    None => {},
                }
            }
        }
        i += 1;
    }
    assert(values@.take(values.len() as int) =~= values@);
    let d = match dir {
        Some(d) => Some(d),
        None => weak,
    };
    (d, display)
}

pub open spec fn has_install_dir(out: Seq<GameEntry>, dir: Seq<char>) -> bool {
    exists|i: int| 0 <= i < out.len() && (#[trigger] out[i]).install_dir@ == dir
}

/// Adds a WeGame game unless one with the same directory is listed.
pub fn push_wegame(out: &mut Vec<GameEntry>, name: String, dir: String)
    ensures
        has_install_dir(old(out)@, dir@) ==> final(out)@ == old(out)@,
        !has_install_dir(old(out)@, dir@) ==> {
            let o = final(out)@;
            &&& o.len() == old(out)@.len() + 1
            &&& o.take(old(out)@.len() as int) == old(out)@
            &&& o.last().source == Launcher::WeGame
            &&& o.last().app_id@ == Seq::<char>::empty()
            &&& o.last().name@ == name@
            &&& o.last().install_dir@ == dir@
        },
{
    let mut i: usize = 0;
    while i < out.len()
        invariant
            i <= out.len(),
            forall|j: int| 0 <= j < i ==> (#[trigger] out@[j]).install_dir@ != dir@,
        decreases out.len() - i,
    {
        let a = text::chars_of(out[i].install_dir.as_str());
        let b = text::chars_of(dir.as_str());
        if text::eq(&a, &b) {
            return;
        }
        i += 1;
    }
    let ghost before = out@;
    out.push(GameEntry { source: Launcher::WeGame, app_id: String::new(), name, install_dir: dir });
    assert(out@.take(before.len() as int) =~= before);
}

// ------------------------------------------------------------ render EXE

/// Fragments of file names that are never the render EXE.
pub const EXE_EXCLUDE: [&'static str; 18] = [
    "unins",
    "vcredist",
    "dxsetup",
    "dxwebsetup",
    "crashreport",
    "unitycrashhandler",
    "unrealcefsubprocess",
    "epicwebhelper",
    "eossdk",
    "easyanticheat",
    "eaclauncher",
    "beservice",
    "prereq",
    "installer",
    "subprocess",
    "helper",
    "launcher",
    "vconsole",
];

pub open spec fn excluded_exe(fname: Seq<char>) -> bool {
    exists|i: int| 0 <= i < 18 && text::contains(fname, (#[trigger] EXE_EXCLUDE@[i])@)
}

/// `s` without every trailing `suffix`, as `str::trim_end_matches`.
pub open spec fn trim_suffix_all(s: Seq<char>, suffix: Seq<char>) -> Seq<char>
    decreases s.len(),
{
    if suffix.len() > 0 && text::ends_with(s, suffix) {
        trim_suffix_all(s.take(s.len() - suffix.len()), suffix)
    } else {
        s
    }
}

pub open spec fn name_or_empty(o: Option<Seq<char>>) -> Seq<char> {
    match o {
        Some(n) => n,
        None => Seq::empty(),
    }
}

pub open spec fn eq_ic_opt(o: Option<Seq<char>>, b: Seq<char>) -> bool {
    match o {
        Some(n) => text::eq_ic(n, b),
        None => false,
    }
}

/// The score of an EXE found under an install directory, or `None` when it
/// is not a candidate (not `.exe`, or an excluded helper). Signals: a
/// `-Win64-Shipping` (+50) or `-Win32-Shipping` (+20) name; a `Win64` parent
/// folder (+10), and then a project folder (above `Binaries` when there is
/// one) named like the EXE (+30); an install folder named like the EXE
/// (+20); a size over 10 MiB (+15) or over 2 MiB (+3).
pub open spec fn spec_exe_score(path: Seq<char>, install_dir: Seq<char>, size: u64) -> Option<
    int,
> {
    let fname = text::ascii_lower(name_or_empty(paths::file_name(path)));
    if !text::ends_with(fname, ".exe"@) || excluded_exe(fname) {
        None
    } else {
        let stem = trim_suffix_all(fname, ".exe"@);
        let ship = if text::ends_with(fname, "-win64-shipping.exe"@) {
            50int
        } else if text::ends_with(fname, "-win32-shipping.exe"@) {
            20int
        } else {
            0int
        };
        let win64 = eq_ic_opt(paths::name_back(path, 1), "Win64"@);
        let binaries = eq_ic_opt(paths::name_back(path, 2), "Binaries"@);
        let proj = if binaries {
            paths::name_back(path, 3)
        } else {
            paths::name_back(path, 2)
        };
        let ue = if win64 {
            10 + if eq_ic_opt(proj, stem) {
                30int
            } else {
                0int
            }
        } else {
            0int
        };
        let dirname = if eq_ic_opt(paths::file_name(install_dir), stem) {
            20int
        } else {
            0int
        };
        let big = if size > 10 * 1024 * 1024 {
            15int
        } else if size > 2 * 1024 * 1024 {
            3int
        } else {
            0int
        };
        Some(ship + ue + dirname + big)
    }
}

/// A render-EXE candidate.
#[derive(Debug, Clone)]
pub struct ExeCand {
    pub path: String,
    pub score: i32,
    pub size: u64,
}

fn eq_ic_opt_exec(o: &Option<Vec<char>>, b: &[char]) -> (r: bool)
    ensures
        r == eq_ic_opt(
            match o {
                Some(v) => Some(v@),
                None => None,
            },
            b@,
        ),
{
    match o {
        Some(v) => text::eq_ignore_case(v, b),
        None => false,
    }
}

fn trim_suffix_exec(s: &[char], suffix: &str) -> (r: Vec<char>)
    ensures
        r@ == trim_suffix_all(s@, suffix@),
{
    let suf = text::chars_of(suffix);
    let mut cur = text::to_vec(s);
    while suf.len() > 0 && text::ends_with_exec(&cur, &suf)
        invariant
            trim_suffix_all(s@, suffix@) == trim_suffix_all(cur@, suffix@),
            suf@ == suffix@,
        decreases cur.len(),
    {
        let n = cur.len() - suf.len();
        cur = text::slice_vec(&cur, 0, n);
    }
    cur
}

/// Scores an EXE found at `path` under `install_dir` (see [`spec_exe_score`]).
pub fn exe_candidate(path: &str, install_dir: &str, size: u64) -> (r: Option<ExeCand>)
    ensures
        match r {
            Some(c) => spec_exe_score(path@, install_dir@, size) == Some(c.score as int) && c.path@
                == path@ && c.size == size,
            None => spec_exe_score(path@, install_dir@, size) is None,
        },
{
    let f = match paths::file_name_vec(path) {
        Some(n) => n,
        None => Vec::new(),
    };
    let fname = text::lower_vec(&f);
    let mut excluded = false;
    let mut i: usize = 0;
    while i < 18
        invariant
            i <= 18,
            excluded == exists|k: int| 0 <= k < i && text::contains(fname@, (#[trigger] EXE_EXCLUDE@[k])@),
        decreases 18 - i,
    {
        if text::contains_str(&fname, EXE_EXCLUDE[i]) {
            excluded = true;
        }
        i += 1;
    }
    if !text::ends_with_str(&fname, ".exe") || excluded {
        return None;
    }
    let stem = trim_suffix_exec(&fname, ".exe");
    let ship: i32 = if text::ends_with_str(&fname, "-win64-shipping.exe") {
        50
    } else if text::ends_with_str(&fname, "-win32-shipping.exe") {
        20
    } else {
        0
    };
    let w64 = text::chars_of("Win64");
    let bin = text::chars_of("Binaries");
    let p1 = paths::name_back_vec(path, 1);
    let p2 = paths::name_back_vec(path, 2);
    let win64 = eq_ic_opt_exec(&p1, &w64);
    let binaries = eq_ic_opt_exec(&p2, &bin);
    let proj = if binaries {
        paths::name_back_vec(path, 3)
    } else {
        p2
    };
    let ue: i32 = if win64 {
        10 + if eq_ic_opt_exec(&proj, &stem) {
            30
        } else {
            0
        }
    } else {
        0
    };
    let dn = paths::file_name_vec(install_dir);
    let dirname: i32 = if eq_ic_opt_exec(&dn, &stem) {
        20
    } else {
        0
    };
    let big: i32 = if size > 10 * 1024 * 1024 {
        15
    } else if size > 2 * 1024 * 1024 {
        3
    } else {
        0
    };
    Some(ExeCand { path: text::owned(path), score: ship + ue + dirname + big, size })
}

/// `a` ranks before `b`: a higher score, or the same score and a bigger file.
pub open spec fn exe_better(a: ExeCand, b: ExeCand) -> bool {
    a.score > b.score || (a.score == b.score && a.size > b.size)
}

/// The render EXE among the candidates: the best score, then the biggest
/// file, the first of equals; none when there are no candidates or the best
/// has no positive signal.
pub fn pick_render_exe(cands: &Vec<ExeCand>) -> (r: Option<usize>)
    ensures
        match r {
            Some(b) => {
                &&& b < cands@.len()
                &&& cands@[b as int].score > 0
                &&& forall|j: int| 0 <= j < cands@.len() ==> !exe_better(#[trigger] cands@[j], cands@[b as int])
                &&& forall|j: int| 0 <= j < b ==> exe_better(cands@[b as int], #[trigger] cands@[j])
            },
            None => cands@.len() == 0 || exists|b: int|
                0 <= b < cands@.len() && (#[trigger] cands@[b]).score <= 0 && forall|j: int|
                    0 <= j < cands@.len() ==> !exe_better(#[trigger] cands@[j], cands@[b]),
        },
{
    if cands.len() == 0 {
        return None;
    }
    let mut best: usize = 0;
    let mut i: usize = 1;
    while i < cands.len()
        invariant
            1 <= i <= cands.len(),
            best < i,
            forall|j: int| 0 <= j < i ==> !exe_better(#[trigger] cands@[j], cands@[best as int]),
            forall|j: int| 0 <= j < best ==> exe_better(cands@[best as int], #[trigger] cands@[j]),
        decreases cands.len() - i,
    {
        let a = &cands[i];
        let c = &cands[best];
        if a.score > c.score || (a.score == c.score && a.size > c.size) {
            best = i;
        }
        i += 1;
    }
    if cands[best].score <= 0 {
        return None;
    }
    Some(best)
}

// ------------------------------------------------------------ ordering the library

/// `a` comes before `b` in character order (as `String`'s `Ord`).
pub open spec fn seq_lt(a: Seq<char>, b: Seq<char>) -> bool
    decreases a.len(),
{
    if a.len() == 0 {
        b.len() > 0
    } else if b.len() == 0 {
        false
    } else if a[0] != b[0] {
        a[0] < b[0]
    } else {
        seq_lt(a.drop_first(), b.drop_first())
    }
}

pub fn lt_exec(a: &[char], b: &[char]) -> (r: bool)
    ensures
        r == seq_lt(a@, b@),
{
    let mut i: usize = 0;
    assert(a@.skip(0) =~= a@);
    assert(b@.skip(0) =~= b@);
    while i < a.len() && i < b.len() && a[i] == b[i]
        invariant
            i <= a.len(),
            i <= b.len(),
            seq_lt(a@, b@) == seq_lt(a@.skip(i as int), b@.skip(i as int)),
        decreases a.len() - i,
    {
        assert(a@.skip(i as int).drop_first() =~= a@.skip(i + 1));
        assert(b@.skip(i as int).drop_first() =~= b@.skip(i + 1));
        i += 1;
    }
    if i == a.len() {
        assert(a@.skip(i as int).len() == 0);
        return i < b.len();
    }
    if i == b.len() {
        return false;
    }
    assert(a@.skip(i as int)[0] == a@[i as int]);
    assert(b@.skip(i as int)[0] == b@[i as int]);
    a[i] < b[i]
}

pub proof fn lemma_seq_lt_irrefl(a: Seq<char>)
    ensures
        !seq_lt(a, a),
    decreases a.len(),
{
    if a.len() > 0 {
        lemma_seq_lt_irrefl(a.drop_first());
    }
}

pub proof fn lemma_seq_lt_total(a: Seq<char>, b: Seq<char>)
    ensures
        a != b ==> seq_lt(a, b) || seq_lt(b, a),
        !(seq_lt(a, b) && seq_lt(b, a)),
    decreases a.len(),
{
    if a.len() > 0 && b.len() > 0 && a[0] == b[0] {
        lemma_seq_lt_total(a.drop_first(), b.drop_first());
        if a != b {
            assert(a.drop_first() != b.drop_first()) by {
                if a.drop_first() == b.drop_first() {
                    assert(a =~= seq![a[0]] + a.drop_first());
                    assert(b =~= seq![b[0]] + b.drop_first());
                }
            }
        }
    } else if a.len() == 0 && b.len() == 0 {
        assert(a =~= b);
    }
}

pub proof fn lemma_seq_lt_trans(a: Seq<char>, b: Seq<char>, c: Seq<char>)
    requires
        seq_lt(a, b),
        seq_lt(b, c),
    ensures
        seq_lt(a, c),
    decreases a.len(),
{
    if a.len() > 0 && b.len() > 0 && c.len() > 0 && a[0] == b[0] && b[0] == c[0] {
        lemma_seq_lt_trans(a.drop_first(), b.drop_first(), c.drop_first());
    } else if a.len() > 0 && b.len() > 0 && c.len() > 0 {
        if a[0] == c[0] {
            if a[0] == b[0] {
            } else {
                assert(a[0] < b[0]);
                assert(b[0] <= c[0]);
            }
        }
    }
}

/// The sort key of a game: its lower-cased name.
pub open spec fn game_key(g: GameEntryV) -> Seq<char> {
    text::lowered(g.name)
}

/// `sorted` with `g` inserted after every entry whose key is not greater.
pub open spec fn insert_game(sorted: Seq<GameEntryV>, g: GameEntryV) -> Seq<GameEntryV>
    decreases sorted.len(),
{
    if sorted.len() == 0 {
        seq![g]
    } else if seq_lt(game_key(g), game_key(sorted.last())) {
        insert_game(sorted.drop_last(), g).push(sorted.last())
    } else {
        sorted.push(g)
    }
}

/// The games sorted by lower-cased name, keeping the order of equal names
/// (a stable sort, as `sort_by_key`).
pub open spec fn sort_games_spec(v: Seq<GameEntryV>) -> Seq<GameEntryV>
    decreases v.len(),
{
    if v.len() == 0 {
        Seq::empty()
    } else {
        insert_game(sort_games_spec(v.drop_last()), v.last())
    }
}

/// In order of their keys: no game has a smaller key than one before it.
pub open spec fn games_sorted(s: Seq<GameEntryV>) -> bool {
    forall|i: int, j: int|
        0 <= i < j < s.len() ==> !seq_lt(game_key(#[trigger] s[j]), game_key(#[trigger] s[i]))
}

proof fn lemma_insert_game(s: Seq<GameEntryV>, g: GameEntryV)
    ensures
        insert_game(s, g).to_multiset() == s.to_multiset().insert(g),
        games_sorted(s) ==> games_sorted(insert_game(s, g)),
    decreases s.len(),
{
    broadcast use vstd::seq_lib::group_to_multiset_ensures;

    if s.len() == 0 {
        assert(seq![g] =~= Seq::<GameEntryV>::empty().push(g));
    } else {
        let dl = s.drop_last();
        let l = s.last();
        assert(s =~= dl.push(l));
        if seq_lt(game_key(g), game_key(l)) {
            lemma_insert_game(dl, g);
            let t = insert_game(dl, g);
            let r = t.push(l);
            assert(r.to_multiset() =~= s.to_multiset().insert(g));
            if games_sorted(s) {
                assert forall|i: int, j: int| 0 <= i < j < dl.len() implies !seq_lt(
                    game_key(#[trigger] dl[j]),
                    game_key(#[trigger] dl[i]),
                ) by {
                    assert(dl[i] == s[i] && dl[j] == s[j]);
                }
                assert forall|i: int| 0 <= i < t.len() implies !seq_lt(
                    game_key(l),
                    game_key(#[trigger] t[i]),
                ) by {
                    assert(t.contains(t[i]));
                    assert(t.to_multiset().count(t[i]) > 0);
                    if t[i] == g {
                        lemma_seq_lt_total(game_key(g), game_key(l));
                    } else {
                        assert(dl.to_multiset().count(t[i]) > 0);
                        let k = choose|k: int| 0 <= k < dl.len() && dl[k] == t[i];
                        assert(s[k] == dl[k]);
                        assert(s[s.len() - 1] == l);
                    }
                }
                assert forall|i: int, j: int| 0 <= i < j < r.len() implies !seq_lt(
                    game_key(#[trigger] r[j]),
                    game_key(#[trigger] r[i]),
                ) by {
                    assert(r[i] == t[i]);
                    if j < t.len() {
                        assert(r[j] == t[j]);
                    }
                }
            }
        } else {
            let r = s.push(g);
            if games_sorted(s) {
                assert forall|i: int, j: int| 0 <= i < j < r.len() implies !seq_lt(
                    game_key(#[trigger] r[j]),
                    game_key(#[trigger] r[i]),
                ) by {
                    assert(r[i] == s[i]);
                    if j < s.len() {
                        assert(r[j] == s[j]);
                    } else if i < s.len() - 1 {
                        assert(s[s.len() - 1] == l);
                        lemma_seq_lt_total(game_key(s[i]), game_key(l));
                        if seq_lt(game_key(g), game_key(s[i])) {
                            if seq_lt(game_key(s[i]), game_key(l)) {
                                lemma_seq_lt_trans(game_key(g), game_key(s[i]), game_key(l));
                            }
                        }
                    }
                }
            }
        }
    }
}

/// The library order is a sorted rearrangement: the same games, each as
/// often, in order of their lower-cased names.
pub proof fn law_sort_games_sorted_permutation(v: Seq<GameEntryV>)
    ensures
        sort_games_spec(v).to_multiset() == v.to_multiset(),
        games_sorted(sort_games_spec(v)),
    decreases v.len(),
{
    broadcast use vstd::seq_lib::group_to_multiset_ensures;

    if v.len() == 0 {
        assert(v.to_multiset() =~= vstd::multiset::Multiset::<GameEntryV>::empty());
        assert(sort_games_spec(v).to_multiset() =~= vstd::multiset::Multiset::<GameEntryV>::empty());
    } else {
        law_sort_games_sorted_permutation(v.drop_last());
        lemma_insert_game(sort_games_spec(v.drop_last()), v.last());
        assert(v =~= v.drop_last().push(v.last()));
    }
}

fn insert_exec(sorted: &mut Vec<GameEntry>, keys: &mut Vec<Vec<char>>, g: GameEntry)
    requires
        old(keys)@.len() == old(sorted)@.len(),
        forall|i: int|
            0 <= i < old(keys)@.len() ==> (#[trigger] old(keys)@[i])@ == game_key(
                old(sorted)@[i]@,
            ),
    ensures
        entry_views(final(sorted)@) == insert_game(entry_views(old(sorted)@), g@),
        final(keys)@.len() == final(sorted)@.len(),
        forall|i: int|
            0 <= i < final(keys)@.len() ==> (#[trigger] final(keys)@[i])@ == game_key(
                final(sorted)@[i]@,
            ),
    decreases old(sorted)@.len(),
{
    let gv = text::chars_of(g.name.as_str());
    let gk = text::to_lowercase(&gv);
    let ghost s0 = entry_views(sorted@);
    if sorted.len() == 0 {
        sorted.push(g);
        keys.push(gk);
        assert(entry_views(sorted@) =~= seq![g@]);
        return;
    }
    let n = sorted.len();
    assert(s0.last() == sorted@[n - 1]@);
    if lt_exec(&gk, &keys[n - 1]) {
        let last = sorted.pop().unwrap();
        let lk = keys.pop().unwrap();
        assert(entry_views(sorted@) =~= s0.drop_last());
        insert_exec(sorted, keys, g);
        let ghost mid = entry_views(sorted@);
        sorted.push(last);
        keys.push(lk);
        assert(entry_views(sorted@) =~= mid.push(s0.last()));
    } else {
        sorted.push(g);
        keys.push(gk);
        assert(entry_views(sorted@) =~= s0.push(g@));
    }
}

/// The games in library order (see [`sort_games_spec`]).
pub fn sort_games(v: Vec<GameEntry>) -> (r: Vec<GameEntry>)
    ensures
        entry_views(r@) == sort_games_spec(entry_views(v@)),
{
    let ghost vv = entry_views(v@);
    let mut out: Vec<GameEntry> = Vec::new();
    let mut keys: Vec<Vec<char>> = Vec::new();
    let mut i: usize = 0;
    assert(entry_views(out@) =~= sort_games_spec(vv.take(0)));
    while i < v.len()
        invariant
            i <= v.len(),
            vv == entry_views(v@),
            entry_views(out@) == sort_games_spec(vv.take(i as int)),
            keys@.len() == out@.len(),
            forall|k: int| 0 <= k < keys@.len() ==> (#[trigger] keys@[k])@ == game_key(out@[k]@),
        decreases v.len() - i,
    {
        proof {
            assert(vv.take(i + 1).drop_last() =~= vv.take(i as int));
            assert(vv.take(i + 1).last() == v@[i as int]@);
        }
        let g = v[i].clone_entry();
        insert_exec(&mut out, &mut keys, g);
        i += 1;
    }
    assert(vv.take(v.len() as int) =~= vv);
    out
}

impl GameEntry {
    /// A copy of the entry.
    pub fn clone_entry(&self) -> (r: GameEntry)
        ensures
            r@ == self@,
    {
        GameEntry {
            source: self.source,
            app_id: text::copy_string(&self.app_id),
            name: text::copy_string(&self.name),
            install_dir: text::copy_string(&self.install_dir),
        }
    }
}

// ------------------------------------------------------------ proxy-entry advice

/// How many modules the advice reads at most, so that a huge game
/// directory does not stall it.
pub const PROXY_SCAN_MAX: usize = 60;

/// A proxy entry already in the target directory.
#[derive(Debug, Clone)]
pub struct ExistingEntry {
    pub name: String,
    pub bytes: u64,
    pub identity: FileIdentity,
}

/// The DLLs one module of the game imports.
#[derive(Debug, Clone)]
pub struct ModuleImports {
    /// The module's file name.
    pub who: String,
    pub imports: Vec<String>,
}

/// Which proxy entry to deploy, and why.
#[derive(Debug, Clone)]
pub struct ProxyAdvice {
    pub recommended: String,
    /// Why, for people.
    pub reason: String,
    /// Entries present that are not this project's (skipped).
    pub occupied: Vec<ExistingEntry>,
    /// Entries present that are this project's (safe to overwrite).
    pub own_existing: Vec<ExistingEntry>,
    /// No module was found to import a free entry; upstream's default or the
    /// first free entry is used.
    pub undetermined: bool,
    pub scanned: usize,
}

pub open spec fn ex_names(v: Seq<ExistingEntry>) -> Seq<Seq<char>> {
    v.map_values(|e: ExistingEntry| e.name@)
}

pub open spec fn own_sel() -> spec_fn(ExistingEntry) -> Option<ExistingEntry> {
    |e: ExistingEntry|
        if e.identity == FileIdentity::ThisProject {
            Some(e)
        } else {
            None
        }
}

pub open spec fn occ_sel() -> spec_fn(ExistingEntry) -> Option<ExistingEntry> {
    |e: ExistingEntry|
        if e.identity != FileIdentity::ThisProject {
            Some(e)
        } else {
            None
        }
}

/// Whether some module imports `cand`.
pub open spec fn imported_by(m: ModuleImports, cand: Seq<char>) -> bool {
    text::views(m.imports@).contains(cand)
}

/// The modules that import `cand`.
pub open spec fn importers(mods: Seq<ModuleImports>, cand: Seq<char>) -> Set<Seq<char>> {
    Set::new(|w: Seq<char>| exists|i: int| 0 <= i < mods.len() && (#[trigger] mods[i]).who@ == w && imported_by(mods[i], cand))
}

/// An entry is free when no foreign file occupies it.
pub open spec fn is_free(occ: Seq<ExistingEntry>, cand: Seq<char>) -> bool {
    !ex_names(occ).contains(cand)
}

/// Entry `k` of the priority list is free and imported by some module.
pub open spec fn usable(occ: Seq<ExistingEntry>, mods: Seq<ModuleImports>) -> spec_fn(int) -> bool {
    |k: int| is_free(occ, proxy_priority()[k]) && !importers(mods, proxy_priority()[k]).is_empty()
}

pub open spec fn free_at(occ: Seq<ExistingEntry>) -> spec_fn(int) -> bool {
    |k: int| is_free(occ, proxy_priority()[k])
}

fn copy_entry(e: &ExistingEntry) -> (r: ExistingEntry)
    ensures
        r.name@ == e.name@ && r.bytes == e.bytes && r.identity == e.identity,
{
    ExistingEntry { name: text::copy_string(&e.name), bytes: e.bytes, identity: e.identity }
}

pub open spec fn same_entries(a: Seq<ExistingEntry>, b: Seq<ExistingEntry>) -> bool {
    a.len() == b.len() && forall|i: int|
        0 <= i < a.len() ==> (#[trigger] a[i]).name@ == b[i].name@ && a[i].bytes == b[i].bytes
            && a[i].identity == b[i].identity
}

fn split_existing(existing: &Vec<ExistingEntry>) -> (r: (Vec<ExistingEntry>, Vec<ExistingEntry>))
    ensures
        same_entries(r.0@, text::filter_map(existing@, own_sel())),
        same_entries(r.1@, text::filter_map(existing@, occ_sel())),
{
    let mut own: Vec<ExistingEntry> = Vec::new();
    let mut occ: Vec<ExistingEntry> = Vec::new();
    let mut i: usize = 0;
    while i < existing.len()
        invariant
            i <= existing.len(),
            same_entries(own@, text::filter_map(existing@.take(i as int), own_sel())),
            same_entries(occ@, text::filter_map(existing@.take(i as int), occ_sel())),
        decreases existing.len() - i,
    {
        proof {
            text::lemma_filter_map_take(existing@, own_sel(), i as int);
            text::lemma_filter_map_take(existing@, occ_sel(), i as int);
        }
        let e = &existing[i];
        if e.identity == FileIdentity::ThisProject {
            own.push(copy_entry(e));
        } else {
            occ.push(copy_entry(e));
        }
        i += 1;
    }
    proof {
        text::lemma_take_full(existing@);
    }
    (own, occ)
}

fn in_strings(v: &Vec<String>, name: &[char]) -> (r: bool)
    ensures
        r == text::views(v@).contains(name@),
{
    let mut i: usize = 0;
    while i < v.len()
        invariant
            i <= v.len(),
            forall|k: int| 0 <= k < i ==> v@[k]@ != name@,
        decreases v.len() - i,
    {
        let c = text::chars_of(v[i].as_str());
        if text::eq(&c, name) {
            assert(text::views(v@)[i as int] == name@);
            return true;
        }
        i += 1;
    }
    assert forall|k: int| 0 <= k < text::views(v@).len() implies text::views(v@)[k] != name@ by {
        assert(text::views(v@)[k] == v@[k]@);
    }
    false
}

fn is_free_exec(occ: &Vec<ExistingEntry>, cand: &[char]) -> (r: bool)
    ensures
        r == is_free(occ@, cand@),
{
    let mut i: usize = 0;
    while i < occ.len()
        invariant
            i <= occ.len(),
            forall|k: int| 0 <= k < i ==> occ@[k].name@ != cand@,
        decreases occ.len() - i,
    {
        let c = text::chars_of(occ[i].name.as_str());
        if text::eq(&c, cand) {
            assert(ex_names(occ@)[i as int] == cand@);
            return false;
        }
        i += 1;
    }
    assert forall|k: int| 0 <= k < ex_names(occ@).len() implies ex_names(occ@)[k] != cand@ by {
        assert(ex_names(occ@)[k] == occ@[k].name@);
    }
    true
}

/// The names of the modules importing `cand`, sorted, each once.
fn importer_names(mods: &Vec<ModuleImports>, cand: &[char]) -> (r: Vec<Vec<char>>)
    ensures
        crate::pe::strictly_sorted(text::vviews(r@)),
        text::vviews(r@).to_set() == importers(mods@, cand@),
{
    let mut out: Vec<Vec<char>> = Vec::new();
    let mut i: usize = 0;
    assert(text::vviews(out@).to_set() =~= Set::<Seq<char>>::empty());
    while i < mods.len()
        invariant
            i <= mods.len(),
            crate::pe::strictly_sorted(text::vviews(out@)),
            text::vviews(out@).to_set() == importers(mods@.take(i as int), cand@),
        decreases mods.len() - i,
    {
        let m = &mods[i];
        let ghost before = text::vviews(out@).to_set();
        let imp = in_strings(&m.imports, cand);
        if imp {
            let w = text::chars_of(m.who.as_str());
            crate::pe::insert_sorted(&mut out, w);
        }
        proof {
            let t1 = mods@.take(i + 1);
            let t0 = mods@.take(i as int);
            assert forall|w: Seq<char>| importers(t1, cand@).contains(w) <==> (importers(
                t0,
                cand@,
            ).contains(w) || (imp && w == mods@[i as int].who@)) by {
                if importers(t1, cand@).contains(w) {
                    let j = choose|j: int| 0 <= j < t1.len() && (#[trigger] t1[j]).who@ == w && imported_by(t1[j], cand@);
                    if j < i {
                        assert(t0[j] == t1[j]);
                    }
                }
                if importers(t0, cand@).contains(w) {
                    let j = choose|j: int| 0 <= j < t0.len() && (#[trigger] t0[j]).who@ == w && imported_by(t0[j], cand@);
                    assert(t1[j] == t0[j]);
                }
                if imp && w == mods@[i as int].who@ {
                    assert(t1[i as int] == mods@[i as int]);
                }
            }
            if imp {
                assert(text::vviews(out@).to_set() =~= importers(t1, cand@));
            } else {
                assert(before =~= importers(t1, cand@));
            }
        }
        i += 1;
    }
    assert(mods@.take(mods.len() as int) =~= mods@);
    out
}

/// The reason given when a module imports the chosen entry.
pub open spec fn import_reason(by: Seq<Seq<char>>) -> Seq<char> {
    text::join(by, "、"@) + " 会加载它"@
}

/// The reason given when nothing was found to import a free entry.
pub open spec fn fallback_reason(scanned: nat) -> Seq<char> {
    if scanned <= 1 {
        "这个目录里几乎没有可执行文件，可能不是渲染 EXE 所在目录"@
    } else {
        "扫了 "@ + text::decimal(scanned) + " 个模块，没有发现哪个候选入口被导入"@
    }
}

/// Which proxy entry to deploy into a directory, from the entries already
/// there (present ones, in priority order) and the imports of the modules
/// read there.
///
/// When one of this project's proxies is there, reuse it (two proxies side
/// by side are to be avoided). Otherwise the first entry, in upstream's
/// order, that no foreign file occupies and some module imports, with those
/// modules as the reason. Otherwise, undetermined: the first free entry (or
/// `version.dll` when all are taken).
pub fn advise_proxy(existing: &Vec<ExistingEntry>, modules: &Vec<ModuleImports>) -> (r: ProxyAdvice)
    ensures
        ({
            let own = text::filter_map(existing@, own_sel());
            let occ = text::filter_map(existing@, occ_sel());
            let k = crate::deploy::first_from(0, 6, usable(occ, modules@));
            let f = crate::deploy::first_from(0, 6, free_at(occ));
            &&& same_entries(r.occupied@, occ)
            &&& own.len() > 0 ==> {
                &&& r.recommended@ == own[0].name@
                &&& r.reason@ == "目录里已经有本项目的 "@ + own[0].name@
                    + "，直接复用它，避免同时存在两个代理"@
                &&& same_entries(r.own_existing@, own)
                &&& !r.undetermined
                &&& r.scanned == 0
            }
            &&& own.len() == 0 && k < 6 ==> {
                &&& r.recommended@ == proxy_priority()[k]
                &&& exists|by: Seq<Seq<char>>|
                    crate::pe::strictly_sorted(by) && by.to_set() == importers(
                        modules@,
                        proxy_priority()[k],
                    ) && r.reason@ == import_reason(by)
                &&& r.own_existing@.len() == 0
                &&& !r.undetermined
                &&& r.scanned == modules@.len()
            }
            &&& own.len() == 0 && k >= 6 ==> {
                &&& r.recommended@ == (if f < 6 {
                    proxy_priority()[f]
                } else {
                    proxy_priority()[0]
                })
                &&& r.reason@ == fallback_reason(modules@.len())
                &&& r.own_existing@.len() == 0
                &&& r.undetermined
                &&& r.scanned == modules@.len()
            }
        }),
{
    let (own, occupied) = split_existing(existing);
    let ghost occ = text::filter_map(existing@, occ_sel());
    let ghost ownv = text::filter_map(existing@, own_sel());
    proof {
        assert(ex_names(occupied@) =~= ex_names(occ));
    }
    if own.len() > 0 {
        let first = &own[0];
        let mut reason = text::chars_of("目录里已经有本项目的 ");
        text::extend_str(&mut reason, first.name.as_str());
        text::extend_str(&mut reason, "，直接复用它，避免同时存在两个代理");
        let rec = text::copy_string(&first.name);
        return ProxyAdvice {
            recommended: rec,
            reason: text::string_of(&reason),
            occupied,
            own_existing: own,
            undetermined: false,
            scanned: 0,
        };
    }
    proof {
        reveal_strlit("version.dll");
        reveal_strlit("winmm.dll");
        reveal_strlit("dbghelp.dll");
        reveal_strlit("dinput8.dll");
        reveal_strlit("dxgi.dll");
        reveal_strlit("d3d12.dll");
    }
    let mut k: usize = 0;
    while k < 6
        invariant
            k <= 6,
            same_entries(occupied@, occ),
            ex_names(occupied@) == ex_names(occ),
            occ == text::filter_map(existing@, occ_sel()),
            text::filter_map(existing@, own_sel()).len() == 0,
            forall|j: int| 0 <= j < k ==> !#[trigger] usable(occ, modules@)(j),
        decreases 6 - k,
    {
        let cand = text::chars_of(PROXY_PRIORITY[k]);
        assert(cand@ == proxy_priority()[k as int]);
        if is_free_exec(&occupied, &cand) {
            let by = importer_names(modules, &cand);
            if by.len() > 0 {
                proof {
                    assert(text::vviews(by@).to_set().contains(text::vviews(by@)[0]));
                    crate::deploy::lemma_first_from(0, 6, usable(occ, modules@), k as int);
                }
                let mut names: Vec<String> = Vec::new();
                let mut j: usize = 0;
                while j < by.len()
                    invariant
                        j <= by.len(),
                        text::views(names@) == text::vviews(by@).take(j as int),
                    decreases by.len() - j,
                {
                    let ghost b0 = text::views(names@);
                    names.push(text::string_of(&by[j]));
                    assert(text::vviews(by@)[j as int] == by@[j as int]@);
                    assert(text::views(names@) =~= b0.push(by@[j as int]@));
                    assert(text::views(names@) =~= text::vviews(by@).take(j + 1));
                    j += 1;
                }
                assert(text::vviews(by@).take(by.len() as int) =~= text::vviews(by@));
                let mut reason = text::join_strings(&names, "、");
                text::extend_str(&mut reason, " 会加载它");
                assert(reason@ == import_reason(text::vviews(by@)));
                assert(crate::pe::strictly_sorted(text::vviews(by@)) && text::vviews(by@).to_set()
                    == importers(modules@, proxy_priority()[k as int]) && reason@ == import_reason(
                    text::vviews(by@),
                ));
                return ProxyAdvice {
                    recommended: text::owned(PROXY_PRIORITY[k]),
                    reason: text::string_of(&reason),
                    occupied,
                    own_existing: Vec::new(),
                    undetermined: false,
                    scanned: modules.len(),
                };
            } else {
                proof {
                    assert(text::vviews(by@).to_set() =~= Set::<Seq<char>>::empty());
                }
            }
        }
        k += 1;
    }
    proof {
        crate::deploy::lemma_first_from(0, 6, usable(occ, modules@), 6);
    }
    let mut f: usize = 0;
    let mut found = false;
    while f < 6 && !found
        invariant
            f <= 6,
            ex_names(occupied@) == ex_names(occ),
            found ==> f < 6 && free_at(occ)(f as int),
            forall|j: int| 0 <= j < f ==> !#[trigger] free_at(occ)(j),
        decreases 6 - f, if found { 0int } else { 1int },
    {
        let cand = text::chars_of(PROXY_PRIORITY[f]);
        assert(cand@ == proxy_priority()[f as int]);
        if is_free_exec(&occupied, &cand) {
            found = true;
        } else {
            f += 1;
        }
    }
    proof {
        crate::deploy::lemma_first_from(0, 6, free_at(occ), f as int);
    }
    let rec = if f < 6 {
        text::owned(PROXY_PRIORITY[f])
    } else {
        text::owned(PROXY_PRIORITY[0])
    };
    let reason = if modules.len() <= 1 {
        text::owned("这个目录里几乎没有可执行文件，可能不是渲染 EXE 所在目录")
    } else {
        let mut v = text::chars_of("扫了 ");
        let d = text::decimal_vec(modules.len() as u64);
        text::extend(&mut v, &d);
        text::extend_str(&mut v, " 个模块，没有发现哪个候选入口被导入");
        text::string_of(&v)
    };
    ProxyAdvice { recommended: rec, reason, occupied, own_existing: Vec::new(), undetermined: true, scanned: modules.len() }
}

// ------------------------------------------------------------ the whole library

/// Where the Epic launcher keeps its install manifests.
pub fn epic_manifest_dir() -> (r: &'static str)
    ensures
        r@ == "C:\\ProgramData\\Epic\\EpicGamesLauncher\\Data\\Manifests"@,
{
    "C:\\ProgramData\\Epic\\EpicGamesLauncher\\Data\\Manifests"
}

/// The library cache's file name.
pub const LIBRARY_NAME: &'static str = "game_library.json";

/// The part of a path up to and including its last separator (`\` or
/// `/`); empty when it has none.
pub open spec fn parent_part(p: Seq<char>) -> Seq<char>
    decreases p.len(),
{
    if p.len() == 0 {
        p
    } else if p.last() == '\\' || p.last() == '/' {
        p
    } else {
        parent_part(p.drop_last())
    }
}

/// The library cache sits beside the configuration file: its path with the
/// file name replaced.
pub fn library_path(config_path: &str) -> (r: String)
    ensures
        r@ == parent_part(config_path@) + LIBRARY_NAME@,
{
    let s = text::chars_of(config_path);
    let mut k: usize = s.len();
    assert(s@.take(s.len() as int) =~= s@);
    while k > 0 && !(s[k - 1] == '\\' || s[k - 1] == '/')
        invariant
            k <= s.len(),
            parent_part(s@) == parent_part(s@.take(k as int)),
        decreases k,
    {
        assert(s@.take(k as int).drop_last() =~= s@.take(k - 1));
        k -= 1;
    }
    let mut out = text::slice_vec(&s, 0, k);
    assert(out@ =~= s@.take(k as int));
    text::extend_str(&mut out, LIBRARY_NAME);
    text::string_of(&out)
}

/// All scanned games, sorted by lower-cased name (ties keep the order
/// Steam, Epic, WeGame, then each launcher's own order).
pub fn scan_all(steam: Vec<GameEntry>, epic: Vec<GameEntry>, wegame: Vec<GameEntry>) -> (r: Vec<GameEntry>)
    ensures
        entry_views(r@) == sort_games_spec(entry_views(steam@) + entry_views(epic@) + entry_views(wegame@)),
{
    let mut all = steam;
    let mut e = epic;
    let mut w = wegame;
    let ghost a0 = entry_views(all@);
    let ghost e0 = entry_views(e@);
    let ghost w0 = entry_views(w@);
    all.append(&mut e);
    assert(entry_views(all@) =~= a0 + e0);
    all.append(&mut w);
    assert(entry_views(all@) =~= a0 + e0 + w0);
    sort_games(all)
}

} // verus!
