//! Deploying, backing up and restoring: every decision of a deployment is
//! made here from facts about the target directory, and the effect of a
//! deployment and of its restore is modelled so that the round trip can be
//! proved.
//!
//! Each deployment keeps its record and its backup copies (`<name>.bak`) in
//! a directory of its own.

use vstd::prelude::*;
use crate::scan::{self, FileIdentity};
use crate::text;
use crate::util;

verus! {

/// The configuration file deployed next to the proxy.
pub const INI_NAME: &'static str = "dlssg_sm86.ini";

/// The proxy entries, the same list as [`scan::PROXY_ALL`]: only one of them
/// should be present in a game directory at a time.
pub const PROXY_ENTRIES: [&'static str; 7] = [
    "version.dll",
    "winmm.dll",
    "dbghelp.dll",
    "dinput8.dll",
    "dxgi.dll",
    "d3d12.dll",
    "winhttp.dll",
];

/// The two DLSS runtimes.
pub const RUNTIME_NAMES: [&'static str; 2] = ["nvngx_dlssg.dll", "nvngx_dlss.dll"];

pub open spec fn runtime_names() -> Seq<Seq<char>> {
    seq!["nvngx_dlssg.dll"@, "nvngx_dlss.dll"@]
}

// ------------------------------------------------------------ records

/// One file of a deployment, as the manifest records it.
#[derive(Debug, Clone)]
pub struct BackupEntry {
    pub rel_path: String,
    /// Whether a file of that name was there before this tool first wrote it.
    pub existed_before: bool,
    /// Name of the backup copy under `files/`, when there is one.
    pub backup_name: Option<String>,
    pub original_sha256: Option<String>,
    /// SHA-256 of what this tool wrote there.
    pub deployed_sha256: String,
}

/// What a backup entry says, as plain values.
pub struct EntryV {
    pub rel_path: Seq<char>,
    pub existed_before: bool,
    pub backup_name: Option<Seq<char>>,
    pub original_sha256: Option<Seq<char>>,
    pub deployed_sha256: Seq<char>,
}

pub open spec fn opt_view(o: Option<String>) -> Option<Seq<char>> {
    match o {
        Some(s) => Some(s@),
        None => None,
    }
}

impl View for BackupEntry {
    type V = EntryV;

    open spec fn view(&self) -> EntryV {
        EntryV {
            rel_path: self.rel_path@,
            existed_before: self.existed_before,
            backup_name: opt_view(self.backup_name),
            original_sha256: opt_view(self.original_sha256),
            deployed_sha256: self.deployed_sha256@,
        }
    }
}

pub open spec fn entry_views(v: Seq<BackupEntry>) -> Seq<EntryV> {
    v.map_values(|e: BackupEntry| e@)
}

/// The record of one deployment into one directory.
#[derive(Debug, Clone)]
pub struct BackupManifest {
    pub game_key: String,
    pub game_dir: String,
    pub deployed_at: String,
    pub proxy_name: String,
    pub files: Vec<BackupEntry>,
}

// ------------------------------------------------------------ state of a directory

/// How a game directory stands.
#[derive(Debug, Clone, PartialEq, Eq)]
pub enum DeployState {
    NotDeployed,
    /// Deployed by this tool (there is a manifest; one click restores).
    Deployed { proxy: String, deployed_at: String },
    /// This project's files are there, but this tool has no record of them.
    ManuallyInstalled { files: Vec<String> },
    /// A proxy entry is there and it is not this project's.
    Occupied { files: Vec<String> },
}

pub open spec fn state_label(s: DeployState) -> Seq<char> {
    match s {
        DeployState::NotDeployed => "未部署"@,
        DeployState::Deployed { proxy, .. } => "已部署 ("@ + proxy@ + ")"@,
        DeployState::ManuallyInstalled { files } => "已安装，本工具无记录（"@ + text::join(
            text::views(files@),
            "、"@,
        ) + "）"@,
        DeployState::Occupied { files } => "入口被占用: "@ + text::join(
            text::views(files@),
            ", "@,
        ),
    }
}

impl DeployState {
    pub fn label(&self) -> (r: String)
        ensures
            r@ == state_label(*self),
    {
        let mut out: Vec<char> = Vec::new();
        match self {
            DeployState::NotDeployed => {
                text::extend_str(&mut out, "未部署");
            },
            DeployState::Deployed { proxy, .. } => {
                text::extend_str(&mut out, "已部署 (");
                text::extend_str(&mut out, proxy.as_str());
                text::extend_str(&mut out, ")");
            },
            DeployState::ManuallyInstalled { files } => {
                text::extend_str(&mut out, "已安装，本工具无记录（");
                let j = text::join_strings(files, "、");
                text::extend(&mut out, &j);
                text::extend_str(&mut out, "）");
            },
            DeployState::Occupied { files } => {
                text::extend_str(&mut out, "入口被占用: ");
                let j = text::join_strings(files, ", ");
                text::extend(&mut out, &j);
            },
        }
        text::string_of(&out)
    }
}

/// What is on disk at one proxy entry of a directory.
#[derive(Debug, Clone)]
pub struct ProxyFacts {
    pub name: String,
    /// The entry is a file.
    pub present: bool,
    /// Its signer is this project.
    pub ours: bool,
}

/// The entry is present, and it is this project's exactly when `ours`.
pub open spec fn pick(ours: bool, f: ProxyFacts) -> bool {
    f.present && f.ours == ours
}

/// The names of the present entries that are (or, with `ours` false, are
/// not) this project's, in order.
pub open spec fn names_pick(v: Seq<ProxyFacts>, ours: bool) -> Seq<Seq<char>> {
    v.filter(|f: ProxyFacts| pick(ours, f)).map_values(|f: ProxyFacts| f.name@)
}

/// The state of a directory from its manifest (proxy and time, when there
/// is one), the facts about its proxy entries, and which DLSS runtimes are
/// present.
pub open spec fn spec_state(
    manifest: Option<(Seq<char>, Seq<char>)>,
    entries: Seq<ProxyFacts>,
    runtimes: Seq<bool>,
) -> DeployStateV {
    match manifest {
        Some((p, t)) => DeployStateV::Deployed(p, t),
        None => {
            let ours = names_pick(entries, true);
            let others = names_pick(entries, false);
            if ours.len() > 0 {
                DeployStateV::ManuallyInstalled(ours + runtime_present(runtimes))
            } else if others.len() == 0 {
                DeployStateV::NotDeployed
            } else {
                DeployStateV::Occupied(others)
            }
        },
    }
}

proof fn lemma_pick_members(v: Seq<ProxyFacts>, ours: bool)
    ensures
        forall|k: int|
            0 <= k < v.filter(|f: ProxyFacts| pick(ours, f)).len() ==> exists|i: int|
                0 <= i < v.len() && v[i].present && v[i].ours == ours && #[trigger] names_pick(
                    v,
                    ours,
                )[k] == v[i].name@,
        names_pick(v, ours).len() == 0 <==> forall|i: int|
            0 <= i < v.len() ==> !(#[trigger] v[i].present && v[i].ours == ours),
{
    broadcast use vstd::seq_lib::group_filter_ensures;

    let p = |f: ProxyFacts| pick(ours, f);
    let fl = v.filter(p);
    assert forall|k: int| 0 <= k < fl.len() implies exists|i: int|
        0 <= i < v.len() && v[i].present && v[i].ours == ours && #[trigger] names_pick(v, ours)[k]
            == v[i].name@ by {
        assert(p(fl[k]));
        assert(fl.contains(fl[k]));
        v.lemma_filter_contains_rev(p, fl[k]);
        let i = choose|i: int| 0 <= i < v.len() && v[i] == fl[k];
        assert(names_pick(v, ours)[k] == fl[k].name@);
    }
    if exists|i: int| 0 <= i < v.len() && (#[trigger] v[i].present && v[i].ours == ours) {
        let i = choose|i: int| 0 <= i < v.len() && (#[trigger] v[i].present && v[i].ours == ours);
        assert(p(v[i]));
        assert(fl.contains(v[i]));
    }
    if fl.len() > 0 {
        assert(p(fl[0]));
        assert(fl.contains(fl[0]));
        v.lemma_filter_contains_rev(p, fl[0]);
    }
}

/// What a directory's state says: with a manifest it is deployed, with the
/// manifest's proxy and time; without one it is not deployed exactly when
/// no proxy entry is present; it is occupied only when some present entry
/// is foreign and none is this project's, and then it lists present
/// foreign entries, at least one; it is manually installed only when an
/// entry of this project is present.
pub proof fn law_state_cases(
    manifest: Option<(Seq<char>, Seq<char>)>,
    entries: Seq<ProxyFacts>,
    runtimes: Seq<bool>,
)
    ensures
        manifest matches Some((p, t)) ==> spec_state(manifest, entries, runtimes)
            == DeployStateV::Deployed(p, t),
        manifest is None ==> (spec_state(manifest, entries, runtimes) is NotDeployed <==> forall|
            i: int,
        | 0 <= i < entries.len() ==> !(#[trigger] entries[i]).present),
        spec_state(manifest, entries, runtimes) matches DeployStateV::Occupied(fs) ==> {
            &&& fs.len() > 0
            &&& forall|i: int|
                0 <= i < entries.len() && (#[trigger] entries[i]).present ==> !entries[i].ours
            &&& forall|k: int|
                0 <= k < fs.len() ==> exists|i: int|
                    0 <= i < entries.len() && entries[i].present && !entries[i].ours
                        && #[trigger] fs[k] == entries[i].name@
        },
        spec_state(manifest, entries, runtimes) is ManuallyInstalled ==> exists|i: int|
            0 <= i < entries.len() && (#[trigger] entries[i]).present && entries[i].ours,
{
    lemma_pick_members(entries, true);
    lemma_pick_members(entries, false);
    if manifest is None {
        if forall|i: int| 0 <= i < entries.len() ==> !(#[trigger] entries[i]).present {
        } else {
            let i = choose|i: int| 0 <= i < entries.len() && (#[trigger] entries[i]).present;
            assert(entries[i].present && entries[i].ours == entries[i].ours);
            if entries[i].ours {
                assert(entries[i].present && entries[i].ours == true);
            } else {
                assert(entries[i].present && entries[i].ours == false);
            }
        }
        if names_pick(entries, true).len() > 0 {
            assert(names_pick(entries, true)[0] == names_pick(entries, true)[0]);
        }
    }
}

/// The runtime names whose flag is set.
pub open spec fn runtime_present(runtimes: Seq<bool>) -> Seq<Seq<char>> {
    if runtimes.len() >= 2 {
        (if runtimes[0] {
            seq![runtime_names()[0]]
        } else {
            Seq::empty()
        }) + (if runtimes[1] {
            seq![runtime_names()[1]]
        } else {
            Seq::empty()
        })
    } else {
        Seq::empty()
    }
}

/// [`DeployState`] as plain values.
pub enum DeployStateV {
    NotDeployed,
    Deployed(Seq<char>, Seq<char>),
    ManuallyInstalled(Seq<Seq<char>>),
    Occupied(Seq<Seq<char>>),
}

impl View for DeployState {
    type V = DeployStateV;

    open spec fn view(&self) -> DeployStateV {
        match *self {
            DeployState::NotDeployed => DeployStateV::NotDeployed,
            DeployState::Deployed { proxy, deployed_at } => DeployStateV::Deployed(
                proxy@,
                deployed_at@,
            ),
            DeployState::ManuallyInstalled { files } => DeployStateV::ManuallyInstalled(
                text::views(files@),
            ),
            DeployState::Occupied { files } => DeployStateV::Occupied(text::views(files@)),
        }
    }
}

fn clone_string(s: &String) -> (r: String)
    ensures
        r@ == s@,
{
    s.clone()
}

fn string_from(s: &str) -> (r: String)
    ensures
        r@ == s@,
{
    let v = text::chars_of(s);
    text::string_of(&v)
}

/// The names of the entries `pick(ours, _)` selects, in order.
fn select_names(entries: &Vec<ProxyFacts>, ours: bool) -> (r: Vec<String>)
    ensures
        text::views(r@) == names_pick(entries@, ours),
{
    let mut out: Vec<String> = Vec::new();
    let mut i: usize = 0;
    while i < entries.len()
        invariant
            i <= entries.len(),
            text::views(out@) == names_pick(entries@.take(i as int), ours),
        decreases entries.len() - i,
    {
        let e = &entries[i];
        let ghost before = out@;
        proof {
            text::lemma_filter_take(entries@, |f: ProxyFacts| pick(ours, f), i as int);
        }
        if e.present && e.ours == ours {
            out.push(clone_string(&e.name));
            proof {
                assert(text::views(out@) =~= text::views(before).push(e.name@));
            }
        }
        i += 1;
    }
    assert(entries@.take(entries.len() as int) =~= entries@);
    out
}

/// The state of a directory: deployed when there is a manifest; otherwise
/// manually installed when one of this project's proxies is there (listing
/// them, then the DLSS runtimes that are present); otherwise occupied when a
/// foreign proxy is there; otherwise not deployed.
pub fn state_of(
    manifest: Option<(String, String)>,
    entries: &Vec<ProxyFacts>,
    runtimes: &Vec<bool>,
) -> (r: DeployState)
    ensures
        r@ == spec_state(
            match manifest {
                Some((p, t)) => Some((p@, t@)),
                None => None,
            },
            entries@,
            runtimes@,
        ),
{
    match manifest {
        Some((p, t)) => DeployState::Deployed { proxy: p, deployed_at: t },
        None => {
            let mut ours = select_names(entries, true);
            let others = select_names(entries, false);
            if ours.len() > 0 {
                let ghost o = text::views(ours@);
                if runtimes.len() >= 2 {
                    if runtimes[0] {
                        ours.push(string_from(RUNTIME_NAMES[0]));
                    }
                    if runtimes[1] {
                        ours.push(string_from(RUNTIME_NAMES[1]));
                    }
                }
                assert(text::views(ours@) =~= o + runtime_present(runtimes@));
                DeployState::ManuallyInstalled { files: ours }
            } else if others.len() == 0 {
                DeployState::NotDeployed
            } else {
                DeployState::Occupied { files: others }
            }
        },
    }
}


// ------------------------------------------------------------ deployment

/// One file to deploy.
#[derive(Debug, Clone)]
pub struct DeployFile {
    /// Its name in the game directory.
    pub dest_name: String,
    /// Where the file to deploy is.
    pub src: String,
}

impl DeployFile {
    pub fn new(dest_name: &str, src: &str) -> (r: Self)
        ensures
            r.dest_name@ == dest_name@,
            r.src@ == src@,
    {
        DeployFile { dest_name: string_from(dest_name), src: string_from(src) }
    }
}

/// What is known about one file to deploy before anything is written.
#[derive(Debug, Clone)]
pub struct PayloadFacts {
    pub dest_name: String,
    pub src: String,
    /// The source is a file.
    pub src_present: bool,
    /// The content of the source, when it could be read.
    pub src_bytes: Option<Vec<u8>>,
    /// A file of that name is in the game directory.
    pub dst_present: bool,
    /// Who signed that file (meaningful when it is present).
    pub dst_identity: FileIdentity,
    /// It exists and another process holds it open.
    pub dst_locked: bool,
    /// Its content, when present and readable.
    pub dst_bytes: Option<Vec<u8>>,
}

/// An entry of the previous manifest of the directory, with what is on disk
/// for it now.
#[derive(Debug, Clone)]
pub struct PrevFacts {
    pub entry: BackupEntry,
    /// Its backup copy is a file.
    pub backup_present: bool,
    /// The current content of the file in the game directory, when it is a
    /// readable file.
    pub current: Option<Vec<u8>>,
}

/// Another of this project's proxies that the user agreed to remove.
#[derive(Debug, Clone)]
pub struct ExtraFacts {
    pub name: String,
    pub present: bool,
    pub bytes: Option<Vec<u8>>,
}

/// Everything a deployment decides on.
#[derive(Debug, Clone)]
pub struct DeployInput {
    pub target_is_dir: bool,
    pub target_dir: String,
    pub proxy: String,
    pub files: Vec<PayloadFacts>,
    /// The facts of every proxy entry of the directory, in [`PROXY_ENTRIES`] order.
    pub proxies: Vec<ProxyFacts>,
    /// The previous manifest's entries, when there is one.
    pub prev: Option<Vec<PrevFacts>>,
    pub extras: Vec<ExtraFacts>,
    pub now: String,
}

pub open spec fn bytes_of(o: Option<Vec<u8>>) -> Option<Seq<u8>> {
    match o {
        Some(v) => Some(v@),
        None => None,
    }
}

pub open spec fn is_dll(n: Seq<char>) -> bool {
    text::ends_with(text::ascii_lower(n), ".dll"@)
}

pub open spec fn payload_names(files: Seq<PayloadFacts>) -> Seq<Seq<char>> {
    files.map_values(|f: PayloadFacts| f.dest_name@)
}

/// 0: no conflict; 1: a foreign file holds a proxy entry (a DLL);
/// 2: a non-DLL file holds a proxy entry.
pub open spec fn conflict_of(f: PayloadFacts) -> int {
    if !f.dst_present {
        0
    } else if is_dll(f.dest_name@) {
        if f.dst_identity == FileIdentity::ThisProject {
            0
        } else if scan::proxy_priority().contains(f.dest_name@) {
            1
        } else {
            0
        }
    } else if scan::proxy_priority().contains(f.dest_name@) {
        2
    } else {
        0
    }
}

/// The first `k` in `from..n` where `p` holds, or `n`.
pub open spec fn first_from(from: int, n: int, p: spec_fn(int) -> bool) -> int
    decreases n - from,
{
    if from >= n {
        n
    } else if p(from) {
        from
    } else {
        first_from(from + 1, n, p)
    }
}

pub proof fn lemma_first_from(from: int, n: int, p: spec_fn(int) -> bool, i: int)
    requires
        from <= i <= n,
        forall|k: int| from <= k < i ==> !#[trigger] p(k),
        i < n ==> p(i),
    ensures
        first_from(from, n, p) == i,
    decreases n - from,
{
    if from < i {
        lemma_first_from(from + 1, n, p, i);
    }
}

/// Index of the last entry of `prev` recorded for `name`, or -1.
pub open spec fn last_prev(prev: Seq<PrevFacts>, name: Seq<char>) -> int
    decreases prev.len(),
{
    if prev.len() == 0 {
        -1
    } else if prev.last().entry.rel_path@ == name {
        prev.len() - 1
    } else {
        last_prev(prev.drop_last(), name)
    }
}

/// The backup recorded by an entry is still usable: its copy is there, or
/// there was nothing to back up.
pub open spec fn intact(p: PrevFacts) -> bool {
    match p.entry.backup_name {
        Some(_) => p.backup_present,
        None => !p.entry.existed_before,
    }
}

pub open spec fn prev_seq(inp: DeployInput) -> Seq<PrevFacts> {
    match inp.prev {
        Some(v) => v@,
        None => Seq::empty(),
    }
}

/// Index of the previous entry whose backup a new deployment of `name`
/// reuses, or -1: the last entry recorded for `name`, when it is intact.
pub open spec fn reuse_idx(inp: DeployInput, name: Seq<char>) -> int {
    let j = last_prev(prev_seq(inp), name);
    if j >= 0 && intact(prev_seq(inp)[j]) {
        j
    } else {
        -1
    }
}

/// `name` is recorded in the previous manifest.
pub open spec fn recorded(inp: DeployInput, name: Seq<char>) -> bool {
    last_prev(prev_seq(inp), name) >= 0
}

/// The file gets a new backup: no earlier backup is reused and the
/// directory has a file of that name.
pub open spec fn needs_backup(inp: DeployInput, f: PayloadFacts) -> bool {
    reuse_idx(inp, f.dest_name@) < 0 && f.dst_present
}

/// An extra proxy is removed (with a backup) when it is present, is not
/// being deployed, and is not already recorded.
pub open spec fn extra_selected(inp: DeployInput, e: ExtraFacts) -> bool {
    e.present && !payload_names(inp.files@).contains(e.name@) && !recorded(inp, e.name@)
}

/// Why a deployment is refused.
#[derive(Debug, Clone)]
pub enum DeployError {
    TargetMissing { dir: String },
    UnsupportedProxy { proxy: String },
    NoFiles,
    MissingSource { src: String },
    ForeignProxy { name: String, signer: FileIdentity },
    NotOurs { name: String },
    Locked { name: String },
    ReadSource { src: String },
    ReadBackup { name: String },
}

/// [`DeployError`] as plain values.
pub enum DeployErrorV {
    TargetMissing(Seq<char>),
    UnsupportedProxy(Seq<char>),
    NoFiles,
    MissingSource(Seq<char>),
    ForeignProxy(Seq<char>, FileIdentity),
    NotOurs(Seq<char>),
    Locked(Seq<char>),
    ReadSource(Seq<char>),
    ReadBackup(Seq<char>),
}

impl View for DeployError {
    type V = DeployErrorV;

    open spec fn view(&self) -> DeployErrorV {
        match *self {
            DeployError::TargetMissing { dir } => DeployErrorV::TargetMissing(dir@),
            DeployError::UnsupportedProxy { proxy } => DeployErrorV::UnsupportedProxy(proxy@),
            DeployError::NoFiles => DeployErrorV::NoFiles,
            DeployError::MissingSource { src } => DeployErrorV::MissingSource(src@),
            DeployError::ForeignProxy { name, signer } => DeployErrorV::ForeignProxy(
                name@,
                signer,
            ),
            DeployError::NotOurs { name } => DeployErrorV::NotOurs(name@),
            DeployError::Locked { name } => DeployErrorV::Locked(name@),
            DeployError::ReadSource { src } => DeployErrorV::ReadSource(src@),
            DeployError::ReadBackup { name } => DeployErrorV::ReadBackup(name@),
        }
    }
}

pub open spec fn deploy_error_text(e: DeployErrorV) -> Seq<char> {
    match e {
        DeployErrorV::TargetMissing(d) => "目标目录不存在: "@ + d,
        DeployErrorV::UnsupportedProxy(p) => "不支持的代理入口: "@ + p,
        DeployErrorV::NoFiles => "没有要部署的文件"@,
        DeployErrorV::MissingSource(s) => "缺少源文件: "@ + s,
        DeployErrorV::ForeignProxy(n, id) => n + " 已存在，签名者是「"@ + scan::identity_label(id)
            + "」，不是本项目的文件，拒绝覆盖。请换个代理入口，或先手动备份/移除它。"@,
        DeployErrorV::NotOurs(n) => n + " 已存在且不是本工具部署的，拒绝覆盖。"@,
        DeployErrorV::Locked(n) => n + " 正被占用，请先完全退出游戏。"@,
        DeployErrorV::ReadSource(s) => "读取 "@ + s,
        DeployErrorV::ReadBackup(n) => "备份 "@ + n,
    }
}

impl DeployError {
    /// The text a refused deployment is reported with.
    pub fn message(&self) -> (r: String)
        ensures
            r@ == deploy_error_text(self@),
    {
        proof {
            reveal_strlit("");
            assert(""@ =~= Seq::<char>::empty());
        }
        match self {
            DeployError::TargetMissing { dir } => text::cat3("目标目录不存在: ", dir.as_str(), ""),
            DeployError::UnsupportedProxy { proxy } => text::cat3(
                "不支持的代理入口: ",
                proxy.as_str(),
                "",
            ),
            DeployError::NoFiles => text::owned("没有要部署的文件"),
            DeployError::MissingSource { src } => text::cat3("缺少源文件: ", src.as_str(), ""),
            DeployError::ForeignProxy { name, signer } => {
                let head = text::cat3(name.as_str(), " 已存在，签名者是「", signer.label());
                text::cat3(
                    head.as_str(),
                    "」，不是本项目的文件，拒绝覆盖。请换个代理入口，或先手动备份/移除它。",
                    "",
                )
            },
            DeployError::NotOurs { name } => text::cat3(
                name.as_str(),
                " 已存在且不是本工具部署的，拒绝覆盖。",
                "",
            ),
            DeployError::Locked { name } => text::cat3(
                name.as_str(),
                " 正被占用，请先完全退出游戏。",
                "",
            ),
            DeployError::ReadSource { src } => text::cat3("读取 ", src.as_str(), ""),
            DeployError::ReadBackup { name } => text::cat3("备份 ", name.as_str(), ""),
        }
    }
}

pub open spec fn src_missing(fs: Seq<PayloadFacts>) -> spec_fn(int) -> bool {
    |k: int| !fs[k].src_present
}

pub open spec fn conflicting(fs: Seq<PayloadFacts>) -> spec_fn(int) -> bool {
    |k: int| conflict_of(fs[k]) != 0
}

pub open spec fn locked(fs: Seq<PayloadFacts>) -> spec_fn(int) -> bool {
    |k: int| fs[k].dst_locked
}

pub open spec fn src_unread(fs: Seq<PayloadFacts>) -> spec_fn(int) -> bool {
    |k: int| fs[k].src_bytes is None
}

pub open spec fn backup_unread(inp: DeployInput) -> spec_fn(int) -> bool {
    |k: int| needs_backup(inp, inp.files@[k]) && inp.files@[k].dst_bytes is None
}

pub open spec fn extra_unread(inp: DeployInput) -> spec_fn(int) -> bool {
    |k: int| extra_selected(inp, inp.extras@[k]) && inp.extras@[k].bytes is None
}

/// Why a deployment is refused, when it is: the first failing check, in the
/// order the checks run — the target is a directory; the proxy is a known
/// entry; there is something to deploy; every source exists; no foreign file
/// holds a proxy entry; nothing to replace is locked; every source reads;
/// every file to back up reads.
pub open spec fn spec_error(inp: DeployInput) -> Option<DeployErrorV> {
    let fs = inp.files@;
    let n = fs.len() as int;
    let i1 = first_from(0, n, src_missing(fs));
    let i2 = first_from(0, n, conflicting(fs));
    let i3 = first_from(0, n, locked(fs));
    let i4 = first_from(0, n, src_unread(fs));
    let i5 = first_from(0, n, backup_unread(inp));
    let es = inp.extras@;
    let i6 = first_from(0, es.len() as int, extra_unread(inp));
    if !inp.target_is_dir {
        Some(DeployErrorV::TargetMissing(inp.target_dir@))
    } else if !scan::proxy_all().contains(inp.proxy@) {
        Some(DeployErrorV::UnsupportedProxy(inp.proxy@))
    } else if n == 0 {
        Some(DeployErrorV::NoFiles)
    } else if i1 < n {
        Some(DeployErrorV::MissingSource(fs[i1].src@))
    } else if i2 < n {
        if conflict_of(fs[i2]) == 1 {
            Some(DeployErrorV::ForeignProxy(fs[i2].dest_name@, fs[i2].dst_identity))
        } else {
            Some(DeployErrorV::NotOurs(fs[i2].dest_name@))
        }
    } else if i3 < n {
        Some(DeployErrorV::Locked(fs[i3].dest_name@))
    } else if i4 < n {
        Some(DeployErrorV::ReadSource(fs[i4].src@))
    } else if i5 < n {
        Some(DeployErrorV::ReadBackup(fs[i5].dest_name@))
    } else if i6 < es.len() {
        Some(DeployErrorV::ReadBackup(es[i6].name@))
    } else {
        None
    }
}

/// A proxy entry (by the proxy list) is taken, in the directory, by a file
/// that is not this project's own signed DLL.
pub open spec fn entry_taken(f: PayloadFacts) -> bool {
    &&& f.dst_present
    &&& scan::proxy_priority().contains(f.dest_name@)
    &&& !(text::ends_with(text::ascii_lower(f.dest_name@), ".dll"@) && f.dst_identity
        == FileIdentity::ThisProject)
}

/// A deployment never overwrites a proxy entry that a file not signed by
/// this project holds — unsigned (another mod's proxy, say), signed by
/// someone else, or unreadable: once the target, the proxy and the sources
/// are in order, the first file to deploy whose entry is so taken stops the
/// deployment; a DLL is refused as a foreign proxy naming its signer, any
/// other file as not ours.
pub proof fn law_taken_entries_refused(inp: DeployInput, j: int)
    requires
        inp.target_is_dir,
        scan::proxy_all().contains(inp.proxy@),
        forall|i: int| 0 <= i < inp.files@.len() ==> (#[trigger] inp.files@[i]).src_present,
        0 <= j < inp.files@.len(),
        entry_taken(inp.files@[j]),
        forall|i: int| 0 <= i < j ==> !entry_taken(#[trigger] inp.files@[i]),
    ensures
        ({
            let f = inp.files@[j];
            &&& text::ends_with(text::ascii_lower(f.dest_name@), ".dll"@) ==> spec_error(inp)
                == Some(DeployErrorV::ForeignProxy(f.dest_name@, f.dst_identity))
            &&& !text::ends_with(text::ascii_lower(f.dest_name@), ".dll"@) ==> spec_error(inp)
                == Some(DeployErrorV::NotOurs(f.dest_name@))
        }),
{
    let fs = inp.files@;
    let n = fs.len() as int;
    assert forall|k: int| 0 <= k < n implies !#[trigger] src_missing(fs)(k) by {
        assert(fs[k].src_present);
    }
    lemma_first_from(0, n, src_missing(fs), n);
    assert forall|k: int| 0 <= k < j implies !#[trigger] conflicting(fs)(k) by {
        assert(!entry_taken(fs[k]));
    }
    lemma_first_from(0, n, conflicting(fs), j);
}

/// Only a taken entry makes a deployment refuse on grounds of ownership:
/// when no file to deploy would replace a proxy entry held by a file not
/// this project's, neither refusal comes.
pub proof fn law_untaken_entries_pass(inp: DeployInput)
    requires
        forall|i: int| 0 <= i < inp.files@.len() ==> !entry_taken(#[trigger] inp.files@[i]),
    ensures
        !(spec_error(inp) matches Some(DeployErrorV::ForeignProxy(_, _))),
        !(spec_error(inp) matches Some(DeployErrorV::NotOurs(_))),
{
    let fs = inp.files@;
    let n = fs.len() as int;
    assert forall|k: int| 0 <= k < n implies !#[trigger] conflicting(fs)(k) by {
        assert(!entry_taken(fs[k]));
    }
    lemma_first_from(0, n, conflicting(fs), n);
}

pub open spec fn bak_name(n: Seq<char>) -> Seq<char> {
    n + ".bak"@
}

pub open spec fn sha_of(b: Option<Seq<u8>>) -> Seq<char> {
    util::sha256_hex_of(b.unwrap())
}

/// The manifest entry of a deployed file: the reused backup's record when
/// one is reused, otherwise a record of what was there.
pub open spec fn payload_entry(inp: DeployInput, f: PayloadFacts) -> EntryV {
    let sha = sha_of(bytes_of(f.src_bytes));
    let j = reuse_idx(inp, f.dest_name@);
    if j >= 0 {
        let p = prev_seq(inp)[j].entry@;
        EntryV {
            rel_path: f.dest_name@,
            existed_before: p.existed_before,
            backup_name: p.backup_name,
            original_sha256: p.original_sha256,
            deployed_sha256: sha,
        }
    } else if f.dst_present {
        EntryV {
            rel_path: f.dest_name@,
            existed_before: true,
            backup_name: Some(bak_name(f.dest_name@)),
            original_sha256: Some(sha_of(bytes_of(f.dst_bytes))),
            deployed_sha256: sha,
        }
    } else {
        EntryV {
            rel_path: f.dest_name@,
            existed_before: false,
            backup_name: None,
            original_sha256: None,
            deployed_sha256: sha,
        }
    }
}

pub open spec fn extra_entry(e: ExtraFacts) -> EntryV {
    EntryV {
        rel_path: e.name@,
        existed_before: true,
        backup_name: Some(bak_name(e.name@)),
        original_sha256: Some(sha_of(bytes_of(e.bytes))),
        deployed_sha256: sha_of(bytes_of(e.bytes)),
    }
}

/// A previous entry is carried into the new manifest when it is not
/// deployed again and still holds an original's backup.
pub open spec fn carried(inp: DeployInput, p: PrevFacts) -> bool {
    !payload_names(inp.files@).contains(p.entry.rel_path@) && p.entry.existed_before
        && p.entry.backup_name is Some
}

pub open spec fn payload_entry_fn(inp: DeployInput) -> spec_fn(PayloadFacts) -> EntryV {
    |f: PayloadFacts| payload_entry(inp, f)
}

pub open spec fn extra_entry_fn(inp: DeployInput) -> spec_fn(ExtraFacts) -> Option<EntryV> {
    |e: ExtraFacts|
        if extra_selected(inp, e) {
            Some(extra_entry(e))
        } else {
            None
        }
}

pub open spec fn carried_fn(inp: DeployInput) -> spec_fn(PrevFacts) -> Option<EntryV> {
    |p: PrevFacts|
        if carried(inp, p) {
            Some(p.entry@)
        } else {
            None
        }
}

/// The entries of the new manifest: the deployed files, the removed extra
/// proxies, and the carried previous entries.
pub open spec fn spec_entries(inp: DeployInput) -> Seq<EntryV> {
    inp.files@.map_values(payload_entry_fn(inp)) + text::filter_map(
        inp.extras@,
        extra_entry_fn(inp),
    ) + text::filter_map(prev_seq(inp), carried_fn(inp))
}

/// A file copied into the backup directory.
#[derive(Debug)]
pub struct BackupWrite {
    pub backup_name: String,
    pub bytes: Vec<u8>,
}

pub open spec fn payload_backup_fn(inp: DeployInput) -> spec_fn(PayloadFacts) -> Option<
    (Seq<char>, Seq<u8>),
> {
    |f: PayloadFacts|
        if needs_backup(inp, f) {
            Some((bak_name(f.dest_name@), f.dst_bytes.unwrap()@))
        } else {
            None
        }
}

pub open spec fn extra_backup_fn(inp: DeployInput) -> spec_fn(ExtraFacts) -> Option<
    (Seq<char>, Seq<u8>),
> {
    |e: ExtraFacts|
        if extra_selected(inp, e) {
            Some((bak_name(e.name@), e.bytes.unwrap()@))
        } else {
            None
        }
}

/// The new backups: for each deployed file that needs one and for each
/// removed extra proxy, the current content under `<name>.bak`.
pub open spec fn spec_backups(inp: DeployInput) -> Seq<(Seq<char>, Seq<u8>)> {
    text::filter_map(inp.files@, payload_backup_fn(inp)) + text::filter_map(
        inp.extras@,
        extra_backup_fn(inp),
    )
}

/// What happens to a proxy entry recorded by the previous deployment that
/// this deployment does not write.
#[derive(Debug, Clone, Copy, PartialEq, Eq, Structural)]
pub enum OrphanAction {
    /// The slot was empty before: delete our file.
    Remove,
    /// An original was there: delete our file and keep the backup record.
    RemoveButKeepRecord,
    /// Leave it alone.
    Keep,
}

/// Only a proxy entry that is not deployed again, is still a file, and still
/// holds exactly what this tool wrote is removed; its backup record is kept
/// when an original was there before.
pub open spec fn spec_orphan(
    is_proxy: bool,
    in_payload: bool,
    present: bool,
    still_ours: bool,
    existed_before: bool,
) -> OrphanAction {
    if !is_proxy || in_payload || !present || !still_ours {
        OrphanAction::Keep
    } else if existed_before {
        OrphanAction::RemoveButKeepRecord
    } else {
        OrphanAction::Remove
    }
}

pub fn plan_orphan(
    is_proxy: bool,
    in_payload: bool,
    present: bool,
    still_ours: bool,
    existed_before: bool,
) -> (r: OrphanAction)
    ensures
        r == spec_orphan(is_proxy, in_payload, present, still_ours, existed_before),
{
    if !is_proxy || in_payload || !present || !still_ours {
        OrphanAction::Keep
    } else if existed_before {
        OrphanAction::RemoveButKeepRecord
    } else {
        OrphanAction::Remove
    }
}

/// The orphan decision for a previous entry.
pub open spec fn prev_orphan(inp: DeployInput, p: PrevFacts) -> OrphanAction {
    spec_orphan(
        scan::proxy_all().contains(p.entry.rel_path@),
        payload_names(inp.files@).contains(p.entry.rel_path@),
        p.current is Some,
        p.current is Some && util::sha256_hex_of(p.current.unwrap()@) == p.entry.deployed_sha256@,
        p.entry.existed_before,
    )
}

pub open spec fn orphan_fn(inp: DeployInput) -> spec_fn(PrevFacts) -> Option<Seq<char>> {
    |p: PrevFacts|
        if prev_orphan(inp, p) != OrphanAction::Keep {
            Some(p.entry.rel_path@)
        } else {
            None
        }
}

pub open spec fn extra_removal_fn(inp: DeployInput) -> spec_fn(ExtraFacts) -> Option<Seq<char>> {
    |e: ExtraFacts|
        if extra_selected(inp, e) {
            Some(e.name@)
        } else {
            None
        }
}

/// The files deleted after writing: orphaned proxies, then the removed extras.
pub open spec fn spec_removals(inp: DeployInput) -> Seq<Seq<char>> {
    text::filter_map(prev_seq(inp), orphan_fn(inp)) + text::filter_map(
        inp.extras@,
        extra_removal_fn(inp),
    )
}


// ------------------------------------------------------------ notes

pub open spec fn own_fn() -> spec_fn(PayloadFacts) -> Option<Seq<char>> {
    |f: PayloadFacts|
        if f.dst_present && is_dll(f.dest_name@) && f.dst_identity == FileIdentity::ThisProject {
            Some(f.dest_name@)
        } else {
            None
        }
}

pub open spec fn other_fn() -> spec_fn(PayloadFacts) -> Option<Seq<char>> {
    |f: PayloadFacts|
        if f.dst_present && is_dll(f.dest_name@) && f.dst_identity != FileIdentity::ThisProject
            && !scan::proxy_priority().contains(f.dest_name@) {
            Some(f.dest_name@ + "（"@ + scan::identity_label(f.dst_identity) + "）"@)
        } else {
            None
        }
}

pub open spec fn foreign_fn(proxy: Seq<char>) -> spec_fn(ProxyFacts) -> Option<Seq<char>> {
    |p: ProxyFacts|
        if p.name@ != proxy && p.present && !p.ours {
            Some(p.name@)
        } else {
            None
        }
}

/// The files of this project that the deployment overwrites.
pub open spec fn own_overwritten(inp: DeployInput) -> Seq<Seq<char>> {
    text::filter_map(inp.files@, own_fn())
}

/// The game's own DLLs that the deployment overwrites, with their signers.
pub open spec fn other_overwritten(inp: DeployInput) -> Seq<Seq<char>> {
    text::filter_map(inp.files@, other_fn())
}

/// Foreign proxies other than the one being deployed.
pub open spec fn foreign_in_dir(inp: DeployInput) -> Seq<Seq<char>> {
    text::filter_map(inp.proxies@, foreign_fn(inp.proxy@))
}

/// The remarks a deployment reports: which of this project's files it
/// overwrote, which of the game's own files it overwrote (backed up), and,
/// on a first deployment, foreign proxies left in the directory.
pub open spec fn spec_notes(inp: DeployInput) -> Seq<Seq<char>> {
    (if own_overwritten(inp).len() > 0 {
        seq!["已覆盖本项目的旧文件："@ + text::join(own_overwritten(inp), "、"@)]
    } else {
        Seq::empty()
    }) + (if other_overwritten(inp).len() > 0 {
        seq!["已覆盖游戏原有的同名文件（已备份）："@ + text::join(other_overwritten(inp), "、"@)]
    } else {
        Seq::empty()
    }) + (if inp.prev is None && foreign_in_dir(inp).len() > 0 {
        seq![
            "目录里还有 "@ + text::join(foreign_in_dir(inp), "、"@)
                + "，不是本项目文件，建议确认是否冲突"@,
        ]
    } else {
        Seq::empty()
    })
}

// ------------------------------------------------------------ plan

/// A deployed file: its name, content, and the content's SHA-256.
#[derive(Debug)]
pub struct FileWrite {
    pub name: String,
    pub bytes: Vec<u8>,
    pub sha256: String,
}

/// What a deployment does, in order: write `backups` under `files/`, write
/// `manifest`, write each of `writes` into the game directory (then check
/// each against its hash), and delete `removals`.
#[derive(Debug)]
pub struct DeployPlan {
    pub manifest: BackupManifest,
    pub backups: Vec<BackupWrite>,
    pub writes: Vec<FileWrite>,
    pub removals: Vec<String>,
    pub notes: Vec<String>,
}

pub open spec fn write_fn() -> spec_fn(PayloadFacts) -> (Seq<char>, Seq<u8>, Seq<char>) {
    |f: PayloadFacts| (f.dest_name@, f.src_bytes.unwrap()@, sha_of(bytes_of(f.src_bytes)))
}

/// Each file to deploy, with its content and the content's SHA-256.
pub open spec fn spec_writes(inp: DeployInput) -> Seq<(Seq<char>, Seq<u8>, Seq<char>)> {
    inp.files@.map_values(write_fn())
}

pub open spec fn backup_views(v: Seq<BackupWrite>) -> Seq<(Seq<char>, Seq<u8>)> {
    v.map_values(|b: BackupWrite| (b.backup_name@, b.bytes@))
}

pub open spec fn write_views(v: Seq<FileWrite>) -> Seq<(Seq<char>, Seq<u8>, Seq<char>)> {
    v.map_values(|w: FileWrite| (w.name@, w.bytes@, w.sha256@))
}

/// The plan is the one the input determines.
pub open spec fn plan_matches(inp: DeployInput, p: DeployPlan) -> bool {
    &&& entry_views(p.manifest.files@) == spec_entries(inp)
    &&& p.manifest.game_key@ == util::dir_key_of(inp.target_dir@)
    &&& p.manifest.game_dir@ == inp.target_dir@
    &&& p.manifest.deployed_at@ == inp.now@
    &&& p.manifest.proxy_name@ == inp.proxy@
    &&& backup_views(p.backups@) == spec_backups(inp)
    &&& write_views(p.writes@) == spec_writes(inp)
    &&& text::views(p.removals@) == spec_removals(inp)
    &&& text::views(p.notes@) == spec_notes(inp)
}

fn copy_bytes(v: &Vec<u8>) -> (r: Vec<u8>)
    ensures
        r@ == v@,
{
    let c = v.clone();
    assert(c@ =~= v@);
    c
}

fn same_name(a: &String, b: &[char]) -> (r: bool)
    ensures
        r == (a@ == b@),
{
    let av = text::chars_of(a.as_str());
    text::eq(&av, b)
}

fn is_dll_exec(name: &[char]) -> (r: bool)
    ensures
        r == is_dll(name@),
{
    let l = text::lower_vec(name);
    text::ends_with_str(&l, ".dll")
}

/// The last previous entry recorded for `name`.
fn last_prev_exec(prev: &Vec<PrevFacts>, name: &[char]) -> (r: Option<usize>)
    ensures
        match r {
            Some(j) => last_prev(prev@, name@) == j && j < prev@.len(),
            None => last_prev(prev@, name@) == -1,
        },
{
    let mut found: Option<usize> = None;
    let mut j: usize = 0;
    while j < prev.len()
        invariant
            j <= prev.len(),
            match found {
                Some(k) => last_prev(prev@.take(j as int), name@) == k && k < j,
                None => last_prev(prev@.take(j as int), name@) == -1,
            },
        decreases prev.len() - j,
    {
        proof {
            assert(prev@.take(j + 1).drop_last() =~= prev@.take(j as int));
        }
        if same_name(&prev[j].entry.rel_path, name) {
            found = Some(j);
        }
        j += 1;
    }
    assert(prev@.take(prev.len() as int) =~= prev@);
    found
}

fn reuse_exec(inp: &DeployInput, name: &[char]) -> (r: Option<usize>)
    ensures
        match r {
            Some(j) => reuse_idx(*inp, name@) == j && j < prev_seq(*inp).len(),
            None => reuse_idx(*inp, name@) == -1,
        },
{
    match &inp.prev {
        None => {
            assert(last_prev(Seq::<PrevFacts>::empty(), name@) == -1);
            None
        },
        Some(prev) => {
            match last_prev_exec(prev, name) {
                None => None,
                Some(j) => {
                    let p = &prev[j];
                    let ok = match &p.entry.backup_name {
                        Some(_) => p.backup_present,
                        None => !p.entry.existed_before,
                    };
                    if ok {
                        Some(j)
                    } else {
                        None
                    }
                },
            }
        },
    }
}

fn recorded_exec(inp: &DeployInput, name: &[char]) -> (r: bool)
    ensures
        r == recorded(*inp, name@),
{
    match &inp.prev {
        None => {
            assert(last_prev(Seq::<PrevFacts>::empty(), name@) == -1);
            false
        },
        Some(prev) => last_prev_exec(prev, name).is_some(),
    }
}

fn in_payload_exec(files: &Vec<PayloadFacts>, name: &[char]) -> (r: bool)
    ensures
        r == payload_names(files@).contains(name@),
{
    let mut i: usize = 0;
    while i < files.len()
        invariant
            i <= files.len(),
            forall|k: int| 0 <= k < i ==> files@[k].dest_name@ != name@,
        decreases files.len() - i,
    {
        if same_name(&files[i].dest_name, name) {
            assert(payload_names(files@)[i as int] == name@);
            return true;
        }
        i += 1;
    }
    assert forall|k: int| 0 <= k < payload_names(files@).len() implies payload_names(files@)[k]
        != name@ by {
        assert(payload_names(files@)[k] == files@[k].dest_name@);
    }
    false
}

fn needs_backup_exec(inp: &DeployInput, f: &PayloadFacts) -> (r: bool)
    ensures
        r == needs_backup(*inp, *f),
{
    let n = text::chars_of(f.dest_name.as_str());
    reuse_exec(inp, &n).is_none() && f.dst_present
}

fn extra_selected_exec(inp: &DeployInput, e: &ExtraFacts) -> (r: bool)
    ensures
        r == extra_selected(*inp, *e),
{
    let n = text::chars_of(e.name.as_str());
    e.present && !in_payload_exec(&inp.files, &n) && !recorded_exec(inp, &n)
}

fn conflict_exec(f: &PayloadFacts) -> (r: u8)
    ensures
        r as int == conflict_of(*f),
{
    if !f.dst_present {
        return 0;
    }
    let n = text::chars_of(f.dest_name.as_str());
    if is_dll_exec(&n) {
        if f.dst_identity == FileIdentity::ThisProject {
            0
        } else if scan::is_current_proxy(&n) {
            1
        } else {
            0
        }
    } else if scan::is_current_proxy(&n) {
        2
    } else {
        0
    }
}

fn bak_string(name: &String) -> (r: String)
    ensures
        r@ == bak_name(name@),
{
    let mut v = text::chars_of(name.as_str());
    text::extend_str(&mut v, ".bak");
    text::string_of(&v)
}

/// The check that refuses a deployment, if one does.
#[verifier::loop_isolation(false)]
fn check_deploy(inp: &DeployInput) -> (r: Option<DeployError>)
    ensures
        match r {
            Some(e) => spec_error(*inp) == Some(e@),
            None => spec_error(*inp) is None,
        },
{
    let ghost fs = inp.files@;
    let n = inp.files.len();
    if !inp.target_is_dir {
        return Some(DeployError::TargetMissing { dir: clone_string(&inp.target_dir) });
    }
    let pv = text::chars_of(inp.proxy.as_str());
    if !scan::in_proxy_all(&pv, 7) {
        assert(scan::proxy_all().take(7) =~= scan::proxy_all());
        return Some(DeployError::UnsupportedProxy { proxy: clone_string(&inp.proxy) });
    }
    assert(scan::proxy_all().take(7) =~= scan::proxy_all());
    if n == 0 {
        return Some(DeployError::NoFiles);
    }
    let mut i: usize = 0;
    while i < n
        invariant
            i <= n == inp.files@.len(),
            fs == inp.files@,
            forall|k: int| 0 <= k < i ==> fs[k].src_present,
        decreases n - i,
    {
        if !inp.files[i].src_present {
            proof {
                lemma_first_from(0, n as int, src_missing(fs), i as int);
            }
            return Some(DeployError::MissingSource { src: clone_string(&inp.files[i].src) });
        }
        i += 1;
    }
    proof {
        lemma_first_from(0, n as int, src_missing(fs), n as int);
    }
    let mut i: usize = 0;
    while i < n
        invariant
            i <= n == inp.files@.len(),
            fs == inp.files@,
            forall|k: int| 0 <= k < i ==> conflict_of(fs[k]) == 0,
        decreases n - i,
    {
        let c = conflict_exec(&inp.files[i]);
        if c != 0 {
            proof {
                lemma_first_from(0, n as int, conflicting(fs), i as int);
            }
            let f = &inp.files[i];
            if c == 1 {
                return Some(
                    DeployError::ForeignProxy {
                        name: clone_string(&f.dest_name),
                        signer: f.dst_identity,
                    },
                );
            } else {
                return Some(DeployError::NotOurs { name: clone_string(&f.dest_name) });
            }
        }
        i += 1;
    }
    proof {
        lemma_first_from(0, n as int, conflicting(fs), n as int);
    }
    let mut i: usize = 0;
    while i < n
        invariant
            i <= n == inp.files@.len(),
            fs == inp.files@,
            forall|k: int| 0 <= k < i ==> !fs[k].dst_locked,
        decreases n - i,
    {
        if inp.files[i].dst_locked {
            proof {
                lemma_first_from(0, n as int, locked(fs), i as int);
            }
            return Some(DeployError::Locked { name: clone_string(&inp.files[i].dest_name) });
        }
        i += 1;
    }
    proof {
        lemma_first_from(0, n as int, locked(fs), n as int);
    }
    let mut i: usize = 0;
    while i < n
        invariant
            i <= n == inp.files@.len(),
            fs == inp.files@,
            forall|k: int| 0 <= k < i ==> !(fs[k].src_bytes is None),
        decreases n - i,
    {
        if inp.files[i].src_bytes.is_none() {
            proof {
                lemma_first_from(0, n as int, src_unread(fs), i as int);
            }
            return Some(DeployError::ReadSource { src: clone_string(&inp.files[i].src) });
        }
        i += 1;
    }
    proof {
        lemma_first_from(0, n as int, src_unread(fs), n as int);
    }
    let mut i: usize = 0;
    while i < n
        invariant
            i <= n == inp.files@.len(),
            fs == inp.files@,
            forall|k: int| 0 <= k < i ==> !(needs_backup(*inp, fs[k]) && fs[k].dst_bytes is None),
        decreases n - i,
    {
        if needs_backup_exec(inp, &inp.files[i]) && inp.files[i].dst_bytes.is_none() {
            proof {
                lemma_first_from(
                    0,
                    n as int,
                    backup_unread(*inp),
                    i as int,
                );
            }
            return Some(DeployError::ReadBackup { name: clone_string(&inp.files[i].dest_name) });
        }
        i += 1;
    }
    proof {
        lemma_first_from(
            0,
            n as int,
            backup_unread(*inp),
            n as int,
        );
    }
    let ghost es = inp.extras@;
    let m = inp.extras.len();
    let mut i: usize = 0;
    while i < m
        invariant
            i <= m == inp.extras@.len(),
            es == inp.extras@,
            forall|k: int| 0 <= k < i ==> !(extra_selected(*inp, es[k]) && es[k].bytes is None),
        decreases m - i,
    {
        if extra_selected_exec(inp, &inp.extras[i]) && inp.extras[i].bytes.is_none() {
            proof {
                lemma_first_from(
                    0,
                    m as int,
                    extra_unread(*inp),
                    i as int,
                );
            }
            return Some(DeployError::ReadBackup { name: clone_string(&inp.extras[i].name) });
        }
        i += 1;
    }
    proof {
        lemma_first_from(
            0,
            m as int,
            extra_unread(*inp),
            m as int,
        );
    }
    None
}

/// The first index found is one where `p` holds, after none where it does.
pub proof fn lemma_first_from_found(from: int, n: int, p: spec_fn(int) -> bool)
    requires
        from <= n,
    ensures
        from <= first_from(from, n, p) <= n,
        forall|k: int| from <= k < first_from(from, n, p) ==> !#[trigger] p(k),
        first_from(from, n, p) < n ==> p(first_from(from, n, p)),
    decreases n - from,
{
    if from < n && !p(from) {
        lemma_first_from_found(from + 1, n, p);
    }
}

pub proof fn lemma_first_from_none(from: int, n: int, p: spec_fn(int) -> bool)
    requires
        first_from(from, n, p) >= n,
    ensures
        forall|k: int| from <= k < n ==> !#[trigger] p(k),
    decreases n - from,
{
    if from < n {
        lemma_first_from_none(from + 1, n, p);
    }
}

/// What an accepted input guarantees: every source was read, and every file
/// that needs a backup was read.
pub proof fn lemma_accepted(inp: DeployInput)
    requires
        spec_error(inp) is None,
    ensures
        inp.target_is_dir,
        inp.files@.len() > 0,
        forall|k: int| 0 <= k < inp.files@.len() ==> (#[trigger] inp.files@[k]).src_bytes is Some,
        forall|k: int|
            0 <= k < inp.files@.len() && needs_backup(inp, #[trigger] inp.files@[k])
                ==> inp.files@[k].dst_bytes is Some,
        forall|k: int|
            0 <= k < inp.extras@.len() && extra_selected(inp, #[trigger] inp.extras@[k])
                ==> inp.extras@[k].bytes is Some,
        forall|k: int| 0 <= k < inp.files@.len() ==> conflict_of(#[trigger] inp.files@[k]) == 0,
{
    let fs = inp.files@;
    let n = fs.len() as int;
    lemma_first_from_none(0, n, src_unread(fs));
    lemma_first_from_none(0, n, backup_unread(inp));
    lemma_first_from_none(0, inp.extras@.len() as int, extra_unread(inp));
    lemma_first_from_none(0, n, conflicting(fs));
    assert forall|k: int| 0 <= k < n implies (#[trigger] fs[k]).src_bytes is Some by {
        assert(!src_unread(fs)(k));
    }
    assert forall|k: int| 0 <= k < n && needs_backup(inp, #[trigger] fs[k]) implies fs[k].dst_bytes is Some by {
        assert(!backup_unread(inp)(k));
    }
    assert forall|k: int|
        0 <= k < inp.extras@.len() && extra_selected(inp, #[trigger] inp.extras@[k]) implies inp.extras@[k].bytes is Some by {
        assert(!extra_unread(inp)(k));
    }
    assert forall|k: int| 0 <= k < n implies conflict_of(#[trigger] fs[k]) == 0 by {
        assert(!conflicting(fs)(k));
    }
}

fn clone_opt(o: &Option<String>) -> (r: Option<String>)
    ensures
        opt_view(r) == opt_view(*o),
{
    match o {
        Some(s) => Some(clone_string(s)),
        None => None,
    }
}

fn clone_entry(e: &BackupEntry) -> (r: BackupEntry)
    ensures
        r@ == e@,
{
    BackupEntry {
        rel_path: clone_string(&e.rel_path),
        existed_before: e.existed_before,
        backup_name: clone_opt(&e.backup_name),
        original_sha256: clone_opt(&e.original_sha256),
        deployed_sha256: clone_string(&e.deployed_sha256),
    }
}

/// The manifest entry of one deployed file.
fn payload_entry_exec(inp: &DeployInput, f: &PayloadFacts, sha: &String) -> (r: BackupEntry)
    requires
        sha@ == sha_of(bytes_of(f.src_bytes)),
        needs_backup(*inp, *f) ==> f.dst_bytes is Some,
    ensures
        r@ == payload_entry(*inp, *f),
{
    let name = text::chars_of(f.dest_name.as_str());
    match reuse_exec(inp, &name) {
        Some(j) => {
            let prev = inp.prev.as_ref().unwrap();
            let p = &prev[j].entry;
            BackupEntry {
                rel_path: clone_string(&f.dest_name),
                existed_before: p.existed_before,
                backup_name: clone_opt(&p.backup_name),
                original_sha256: clone_opt(&p.original_sha256),
                deployed_sha256: clone_string(sha),
            }
        },
        None => {
            if f.dst_present {
                let orig = f.dst_bytes.as_ref().unwrap();
                BackupEntry {
                    rel_path: clone_string(&f.dest_name),
                    existed_before: true,
                    backup_name: Some(bak_string(&f.dest_name)),
                    original_sha256: Some(util::sha256_hex(orig.as_slice())),
                    deployed_sha256: clone_string(sha),
                }
            } else {
                BackupEntry {
                    rel_path: clone_string(&f.dest_name),
                    existed_before: false,
                    backup_name: None,
                    original_sha256: None,
                    deployed_sha256: clone_string(sha),
                }
            }
        },
    }
}

/// The entries, backups and writes of the files to deploy.
fn plan_payload(inp: &DeployInput) -> (r: (Vec<BackupEntry>, Vec<BackupWrite>, Vec<FileWrite>))
    requires
        spec_error(*inp) is None,
    ensures
        entry_views(r.0@) == inp.files@.map_values(payload_entry_fn(*inp)),
        backup_views(r.1@) == text::filter_map(inp.files@, payload_backup_fn(*inp)),
        write_views(r.2@) == spec_writes(*inp),
{
    proof {
        lemma_accepted(*inp);
    }
    let ghost fs = inp.files@;
    let mut entries: Vec<BackupEntry> = Vec::new();
    let mut backups: Vec<BackupWrite> = Vec::new();
    let mut writes: Vec<FileWrite> = Vec::new();
    let n = inp.files.len();
    let mut i: usize = 0;
    while i < n
        invariant
            i <= n == fs.len(),
            fs == inp.files@,
            forall|k: int| 0 <= k < fs.len() ==> (#[trigger] fs[k]).src_bytes is Some,
            forall|k: int|
                0 <= k < fs.len() && needs_backup(*inp, #[trigger] fs[k]) ==> fs[k].dst_bytes is Some,
            entry_views(entries@) == fs.take(i as int).map_values(payload_entry_fn(*inp)),
            backup_views(backups@) == text::filter_map(fs.take(i as int), payload_backup_fn(*inp)),
            write_views(writes@) == fs.take(i as int).map_values(write_fn()),
        decreases n - i,
    {
        let f = &inp.files[i];
        let bytes = f.src_bytes.as_ref().unwrap();
        let sha = util::sha256_hex(bytes.as_slice());
        let e = payload_entry_exec(inp, f, &sha);
        let ghost eb = entries@;
        let ghost bb = backups@;
        let ghost wb = writes@;
        entries.push(e);
        writes.push(FileWrite { name: clone_string(&f.dest_name), bytes: copy_bytes(bytes), sha256: sha });
        proof {
            text::lemma_filter_map_take(fs, payload_backup_fn(*inp), i as int);
            assert(fs.take(i + 1) =~= fs.take(i as int).push(fs[i as int]));
            assert(entry_views(entries@) =~= entry_views(eb).push(payload_entry(*inp, fs[i as int])));
            assert(write_views(writes@) =~= write_views(wb).push(write_fn()(fs[i as int])));
        }
        if needs_backup_exec(inp, f) {
            let orig = f.dst_bytes.as_ref().unwrap();
            backups.push(BackupWrite { backup_name: bak_string(&f.dest_name), bytes: copy_bytes(orig) });
            proof {
                assert(backup_views(backups@) =~= backup_views(bb).push(
                    (bak_name(fs[i as int].dest_name@), fs[i as int].dst_bytes.unwrap()@),
                ));
            }
        }
        i += 1;
    }
    proof {
        text::lemma_take_full(fs);
    }
    (entries, backups, writes)
}

fn extra_entry_exec(e: &ExtraFacts) -> (r: BackupEntry)
    requires
        e.bytes is Some,
    ensures
        r@ == extra_entry(*e),
{
    let b = e.bytes.as_ref().unwrap();
    let sha = util::sha256_hex(b.as_slice());
    BackupEntry {
        rel_path: clone_string(&e.name),
        existed_before: true,
        backup_name: Some(bak_string(&e.name)),
        original_sha256: Some(clone_string(&sha)),
        deployed_sha256: sha,
    }
}

/// The entries, backups and removals of the extra proxies to remove.
fn plan_extras(
    inp: &DeployInput,
    entries: &mut Vec<BackupEntry>,
    backups: &mut Vec<BackupWrite>,
) -> (r: Vec<String>)
    requires
        spec_error(*inp) is None,
    ensures
        entry_views(final(entries)@) == entry_views(old(entries)@) + text::filter_map(
            inp.extras@,
            extra_entry_fn(*inp),
        ),
        backup_views(final(backups)@) == backup_views(old(backups)@) + text::filter_map(
            inp.extras@,
            extra_backup_fn(*inp),
        ),
        text::views(r@) == text::filter_map(inp.extras@, extra_removal_fn(*inp)),
{
    proof {
        lemma_accepted(*inp);
    }
    let ghost es = inp.extras@;
    let ghost e0 = entry_views(entries@);
    let ghost b0 = backup_views(backups@);
    let mut removed: Vec<String> = Vec::new();
    let m = inp.extras.len();
    let mut i: usize = 0;
    while i < m
        invariant
            i <= m == es.len(),
            es == inp.extras@,
            forall|k: int|
                0 <= k < es.len() && extra_selected(*inp, #[trigger] es[k]) ==> es[k].bytes is Some,
            entry_views(entries@) == e0 + text::filter_map(es.take(i as int), extra_entry_fn(*inp)),
            backup_views(backups@) == b0 + text::filter_map(es.take(i as int), extra_backup_fn(*inp)),
            text::views(removed@) == text::filter_map(es.take(i as int), extra_removal_fn(*inp)),
        decreases m - i,
    {
        let e = &inp.extras[i];
        proof {
            text::lemma_filter_map_take(es, extra_entry_fn(*inp), i as int);
            text::lemma_filter_map_take(es, extra_backup_fn(*inp), i as int);
            text::lemma_filter_map_take(es, extra_removal_fn(*inp), i as int);
        }
        if extra_selected_exec(inp, e) {
            let ghost eb = entries@;
            let ghost bb = backups@;
            let ghost rb = removed@;
            entries.push(extra_entry_exec(e));
            backups.push(
                BackupWrite {
                    backup_name: bak_string(&e.name),
                    bytes: copy_bytes(e.bytes.as_ref().unwrap()),
                },
            );
            removed.push(clone_string(&e.name));
            proof {
                assert(entry_views(entries@) =~= entry_views(eb).push(extra_entry(es[i as int])));
                assert(backup_views(backups@) =~= backup_views(bb).push(
                    (bak_name(es[i as int].name@), es[i as int].bytes.unwrap()@),
                ));
                assert(text::views(removed@) =~= text::views(rb).push(es[i as int].name@));
            }
        }
        i += 1;
    }
    proof {
        text::lemma_take_full(es);
    }
    removed
}

fn same_string(a: &String, b: &String) -> (r: bool)
    ensures
        r == (a@ == b@),
{
    let bv = text::chars_of(b.as_str());
    same_name(a, &bv)
}

/// The orphan decision for one previous entry.
fn prev_orphan_exec(inp: &DeployInput, p: &PrevFacts) -> (r: OrphanAction)
    ensures
        r == prev_orphan(*inp, *p),
{
    let name = text::chars_of(p.entry.rel_path.as_str());
    let is_proxy = scan::is_known_proxy(p.entry.rel_path.as_str());
    let in_payload = in_payload_exec(&inp.files, &name);
    let still_ours = match &p.current {
        Some(c) => {
            let h = util::sha256_hex(c.as_slice());
            same_string(&h, &p.entry.deployed_sha256)
        },
        None => false,
    };
    plan_orphan(is_proxy, in_payload, p.current.is_some(), still_ours, p.entry.existed_before)
}

/// The carried entries and the orphans to remove, from the previous manifest.
fn plan_prev(inp: &DeployInput, entries: &mut Vec<BackupEntry>) -> (r: Vec<String>)
    ensures
        entry_views(final(entries)@) == entry_views(old(entries)@) + text::filter_map(
            prev_seq(*inp),
            carried_fn(*inp),
        ),
        text::views(r@) == text::filter_map(prev_seq(*inp), orphan_fn(*inp)),
{
    let ghost e0 = entry_views(entries@);
    let mut removed: Vec<String> = Vec::new();
    match &inp.prev {
        None => {
            proof {
                assert(text::filter_map(prev_seq(*inp), carried_fn(*inp)) =~= Seq::<EntryV>::empty());
                assert(text::filter_map(prev_seq(*inp), orphan_fn(*inp)) =~= Seq::<Seq<char>>::empty());
                assert(entry_views(entries@) =~= e0 + Seq::<EntryV>::empty());
            }
        },
        Some(prev) => {
            let ghost ps = prev@;
            let m = prev.len();
            let mut i: usize = 0;
            while i < m
                invariant
                    i <= m == ps.len(),
                    ps == prev@,
                    ps == prev_seq(*inp),
                    entry_views(entries@) == e0 + text::filter_map(ps.take(i as int), carried_fn(*inp)),
                    text::views(removed@) == text::filter_map(ps.take(i as int), orphan_fn(*inp)),
                decreases m - i,
            {
                let p = &prev[i];
                proof {
                    text::lemma_filter_map_take(ps, carried_fn(*inp), i as int);
                    text::lemma_filter_map_take(ps, orphan_fn(*inp), i as int);
                }
                let name = text::chars_of(p.entry.rel_path.as_str());
                let is_carried = !in_payload_exec(&inp.files, &name) && p.entry.existed_before
                    && p.entry.backup_name.is_some();
                if is_carried {
                    let ghost eb = entries@;
                    entries.push(clone_entry(&p.entry));
                    proof {
                        assert(entry_views(entries@) =~= entry_views(eb).push(ps[i as int].entry@));
                    }
                }
                let act = prev_orphan_exec(inp, p);
                if act != OrphanAction::Keep {
                    let ghost rb = removed@;
                    removed.push(clone_string(&p.entry.rel_path));
                    proof {
                        assert(text::views(removed@) =~= text::views(rb).push(ps[i as int].entry.rel_path@));
                    }
                }
                i += 1;
            }
            proof {
                text::lemma_take_full(ps);
            }
        },
    }
    removed
}

fn own_list(files: &Vec<PayloadFacts>) -> (r: Vec<String>)
    ensures
        text::views(r@) == text::filter_map(files@, own_fn()),
{
    let mut out: Vec<String> = Vec::new();
    let mut i: usize = 0;
    while i < files.len()
        invariant
            i <= files.len(),
            text::views(out@) == text::filter_map(files@.take(i as int), own_fn()),
        decreases files.len() - i,
    {
        let f = &files[i];
        proof {
            text::lemma_filter_map_take(files@, own_fn(), i as int);
        }
        let name = text::chars_of(f.dest_name.as_str());
        if f.dst_present && is_dll_exec(&name) && f.dst_identity == FileIdentity::ThisProject {
            let ghost before = out@;
            out.push(clone_string(&f.dest_name));
            proof {
                assert(text::views(out@) =~= text::views(before).push(f.dest_name@));
            }
        }
        i += 1;
    }
    proof {
        text::lemma_take_full(files@);
    }
    out
}

fn other_list(files: &Vec<PayloadFacts>) -> (r: Vec<String>)
    ensures
        text::views(r@) == text::filter_map(files@, other_fn()),
{
    let mut out: Vec<String> = Vec::new();
    let mut i: usize = 0;
    while i < files.len()
        invariant
            i <= files.len(),
            text::views(out@) == text::filter_map(files@.take(i as int), other_fn()),
        decreases files.len() - i,
    {
        let f = &files[i];
        proof {
            text::lemma_filter_map_take(files@, other_fn(), i as int);
        }
        let name = text::chars_of(f.dest_name.as_str());
        if f.dst_present && is_dll_exec(&name) && f.dst_identity != FileIdentity::ThisProject
            && !scan::is_current_proxy(&name) {
            let mut v = name;
            text::extend_str(&mut v, "（");
            text::extend_str(&mut v, f.dst_identity.label());
            text::extend_str(&mut v, "）");
            let ghost before = out@;
            out.push(text::string_of(&v));
            proof {
                assert(text::views(out@) =~= text::views(before).push(
                    f.dest_name@ + "（"@ + scan::identity_label(f.dst_identity) + "）"@,
                ));
            }
        }
        i += 1;
    }
    proof {
        text::lemma_take_full(files@);
    }
    out
}

fn foreign_list(proxies: &Vec<ProxyFacts>, proxy: &String) -> (r: Vec<String>)
    ensures
        text::views(r@) == text::filter_map(proxies@, foreign_fn(proxy@)),
{
    let mut out: Vec<String> = Vec::new();
    let mut i: usize = 0;
    while i < proxies.len()
        invariant
            i <= proxies.len(),
            text::views(out@) == text::filter_map(proxies@.take(i as int), foreign_fn(proxy@)),
        decreases proxies.len() - i,
    {
        let p = &proxies[i];
        proof {
            text::lemma_filter_map_take(proxies@, foreign_fn(proxy@), i as int);
        }
        if !same_string(&p.name, proxy) && p.present && !p.ours {
            let ghost before = out@;
            out.push(clone_string(&p.name));
            proof {
                assert(text::views(out@) =~= text::views(before).push(p.name@));
            }
        }
        i += 1;
    }
    proof {
        text::lemma_take_full(proxies@);
    }
    out
}

fn note_of(prefix: &str, names: &Vec<String>, suffix: &str) -> (r: String)
    ensures
        r@ == prefix@ + text::join(text::views(names@), "、"@) + suffix@,
{
    let mut v = text::chars_of(prefix);
    let j = text::join_strings(names, "、");
    text::extend(&mut v, &j);
    text::extend_str(&mut v, suffix);
    text::string_of(&v)
}

/// The remarks of a deployment.
fn plan_notes(inp: &DeployInput) -> (r: Vec<String>)
    ensures
        text::views(r@) == spec_notes(*inp),
{
    let own = own_list(&inp.files);
    let other = other_list(&inp.files);
    let foreign = foreign_list(&inp.proxies, &inp.proxy);
    let mut notes: Vec<String> = Vec::new();
    if own.len() > 0 {
        notes.push(note_of("已覆盖本项目的旧文件：", &own, ""));
    }
    let ghost n1 = text::views(notes@);
    if other.len() > 0 {
        notes.push(note_of("已覆盖游戏原有的同名文件（已备份）：", &other, ""));
    }
    let ghost n2 = text::views(notes@);
    if inp.prev.is_none() && foreign.len() > 0 {
        notes.push(note_of("目录里还有 ", &foreign, "，不是本项目文件，建议确认是否冲突"));
    }
    proof {
        let a = if own_overwritten(*inp).len() > 0 {
            seq!["已覆盖本项目的旧文件："@ + text::join(own_overwritten(*inp), "、"@)]
        } else {
            Seq::empty()
        };
        let b = if other_overwritten(*inp).len() > 0 {
            seq!["已覆盖游戏原有的同名文件（已备份）："@ + text::join(other_overwritten(*inp), "、"@)]
        } else {
            Seq::empty()
        };
        assert(""@ =~= Seq::<char>::empty()) by {
            reveal_strlit("");
        }
        assert(n1 =~= a);
        assert(n2 =~= a + b);
        assert(text::views(notes@) =~= spec_notes(*inp));
    }
    notes
}


/// Plans a deployment from what is known about the directory: refused with
/// the first failing check, or the backups, manifest, writes, removals and
/// remarks the input determines.
pub fn deploy(inp: &DeployInput) -> (r: Result<DeployPlan, DeployError>)
    ensures
        match r {
            Ok(p) => spec_error(*inp) is None && plan_matches(*inp, p),
            Err(e) => spec_error(*inp) == Some(e@),
        },
{
    match check_deploy(inp) {
        Some(e) => {
            return Err(e);
        },
        None => {},
    }
    let (mut entries, mut backups, writes) = plan_payload(inp);
    let extra_removed = plan_extras(inp, &mut entries, &mut backups);
    let mut removals = plan_prev(inp, &mut entries);
    append_strings_ref(&mut removals, &extra_removed);
    let notes = plan_notes(inp);
    let manifest = BackupManifest {
        game_key: util::dir_key(inp.target_dir.as_str()),
        game_dir: clone_string(&inp.target_dir),
        deployed_at: clone_string(&inp.now),
        proxy_name: clone_string(&inp.proxy),
        files: entries,
    };
    Ok(DeployPlan { manifest, backups, writes, removals, notes })
}

// ------------------------------------------------------------ report

pub open spec fn write_names(v: Seq<FileWrite>) -> Seq<Seq<char>> {
    v.map_values(|w: FileWrite| w.name@)
}

/// The remark on proxies removed after a deployment, when there are any.
pub open spec fn removal_note(removed: Seq<Seq<char>>) -> Seq<Seq<char>> {
    if removed.len() > 0 {
        seq![
            "已移除上次部署、这次不用的代理入口："@ + text::join(removed, "、"@)
                + "（避免同时存在两个代理）"@,
        ]
    } else {
        Seq::empty()
    }
}

/// The report of a deployment: how many files went where, their names, then
/// the remarks, each after " | ".
pub open spec fn spec_message(
    dir: Seq<char>,
    names: Seq<Seq<char>>,
    notes: Seq<Seq<char>>,
) -> Seq<char> {
    let head = "已部署 "@ + text::decimal(names.len()) + " 个文件 -> "@ + dir + "："@ + text::join(
        names,
        "、"@,
    );
    if notes.len() > 0 {
        head + " | "@ + text::join(notes, " | "@)
    } else {
        head
    }
}

/// The report of a carried-out plan, given the proxies whose removal
/// succeeded.
pub fn deploy_message(plan: &DeployPlan, removed: &Vec<String>) -> (r: String)
    ensures
        r@ == spec_message(
            plan.manifest.game_dir@,
            write_names(plan.writes@),
            text::views(plan.notes@) + removal_note(text::views(removed@)),
        ),
{
    let mut names: Vec<String> = Vec::new();
    let mut i: usize = 0;
    while i < plan.writes.len()
        invariant
            i <= plan.writes.len(),
            text::views(names@) == write_names(plan.writes@).take(i as int),
        decreases plan.writes.len() - i,
    {
        let ghost before = text::views(names@);
        names.push(clone_string(&plan.writes[i].name));
        proof {
            assert(text::views(names@) =~= before.push(plan.writes@[i as int].name@));
            assert(write_names(plan.writes@).take(i + 1) =~= write_names(plan.writes@).take(
                i as int,
            ).push(plan.writes@[i as int].name@));
        }
        i += 1;
    }
    proof {
        assert(write_names(plan.writes@).take(plan.writes.len() as int) =~= write_names(
            plan.writes@,
        ));
    }
    let mut notes: Vec<String> = Vec::new();
    append_strings_ref(&mut notes, &plan.notes);
    if removed.len() > 0 {
        notes.push(note_of("已移除上次部署、这次不用的代理入口：", removed, "（避免同时存在两个代理）"));
    }
    proof {
        assert(text::views(notes@) =~= text::views(plan.notes@) + removal_note(
            text::views(removed@),
        ));
    }
    let mut out = text::chars_of("已部署 ");
    let count = text::decimal_vec(names.len() as u64);
    text::extend(&mut out, &count);
    text::extend_str(&mut out, " 个文件 -> ");
    text::extend_str(&mut out, plan.manifest.game_dir.as_str());
    text::extend_str(&mut out, "：");
    let j = text::join_strings(&names, "、");
    text::extend(&mut out, &j);
    if notes.len() > 0 {
        text::extend_str(&mut out, " | ");
        let jn = text::join_strings(&notes, " | ");
        text::extend(&mut out, &jn);
    }
    text::string_of(&out)
}

fn append_strings_ref(a: &mut Vec<String>, b: &Vec<String>)
    ensures
        text::views(final(a)@) == text::views(old(a)@) + text::views(b@),
{
    let ghost a0 = text::views(a@);
    let mut i: usize = 0;
    while i < b.len()
        invariant
            i <= b.len(),
            text::views(a@) == a0 + text::views(b@).take(i as int),
        decreases b.len() - i,
    {
        let ghost before = text::views(a@);
        a.push(clone_string(&b[i]));
        proof {
            assert(text::views(a@) =~= before.push(b@[i as int]@));
            assert(text::views(b@).take(i + 1) =~= text::views(b@).take(i as int).push(b@[i as int]@));
        }
        i += 1;
    }
    proof {
        assert(text::views(b@).take(b.len() as int) =~= text::views(b@));
    }
}

// ------------------------------------------------------------ other proxies of ours

pub open spec fn extra_own_fn(proxy: Seq<char>, recorded: Seq<Seq<char>>) -> spec_fn(
    ProxyFacts,
) -> Option<Seq<char>> {
    |p: ProxyFacts|
        if p.present && p.ours && p.name@ != proxy && !recorded.contains(p.name@) {
            Some(p.name@)
        } else {
            None
        }
}

/// This project's proxies in the directory other than `proxy` that no
/// manifest records: a user installed them by hand, and deploying `proxy`
/// beside them would leave two proxies in place, so the user is asked first.
pub fn find_extra_own_proxies(proxies: &Vec<ProxyFacts>, proxy: &str, recorded: &Vec<String>) -> (r:
    Vec<String>)
    ensures
        text::views(r@) == text::filter_map(proxies@, extra_own_fn(proxy@, text::views(recorded@))),
{
    let pv = string_from(proxy);
    let ghost rec = text::views(recorded@);
    let mut out: Vec<String> = Vec::new();
    let mut i: usize = 0;
    while i < proxies.len()
        invariant
            i <= proxies.len(),
            pv@ == proxy@,
            rec == text::views(recorded@),
            text::views(out@) == text::filter_map(
                proxies@.take(i as int),
                extra_own_fn(proxy@, rec),
            ),
        decreases proxies.len() - i,
    {
        let p = &proxies[i];
        proof {
            text::lemma_filter_map_take(proxies@, extra_own_fn(proxy@, rec), i as int);
        }
        let name = text::chars_of(p.name.as_str());
        if p.present && p.ours && !same_string(&p.name, &pv) && !in_strings(recorded, &name) {
            let ghost before = out@;
            out.push(clone_string(&p.name));
            proof {
                assert(text::views(out@) =~= text::views(before).push(p.name@));
            }
        }
        i += 1;
    }
    proof {
        text::lemma_take_full(proxies@);
    }
    out
}

fn in_strings(v: &Vec<String>, name: &[char]) -> (r: bool)
    ensures
        r == text::views(v@).contains(name@),
{
    let mut i: usize = 0;
    while i < v.len()
        invariant
            i <= v.len(),
            forall|k: int| 0 <= k < i ==> v@[k]@ != name@,
        decreases v.len() - i,
    {
        if same_name(&v[i], name) {
            assert(text::views(v@)[i as int] == name@);
            return true;
        }
        i += 1;
    }
    assert forall|k: int| 0 <= k < text::views(v@).len() implies text::views(v@)[k] != name@ by {
        assert(text::views(v@)[k] == v@[k]@);
    }
    false
}

// ------------------------------------------------------------ restore

/// One entry of the manifest being restored, with what is on disk for it.
#[derive(Debug, Clone)]
pub struct RestoreFacts {
    pub entry: BackupEntry,
    /// The deployed file is a file now.
    pub present: bool,
    /// The content of its backup copy, when it has one and it reads.
    pub backup: Option<Vec<u8>>,
}

/// [`RestoreFacts`] as plain values.
pub struct RestoreFactV {
    pub entry: EntryV,
    pub present: bool,
    pub backup: Option<Seq<u8>>,
}

impl View for RestoreFacts {
    type V = RestoreFactV;

    open spec fn view(&self) -> RestoreFactV {
        RestoreFactV { entry: self.entry@, present: self.present, backup: bytes_of(self.backup) }
    }
}

pub open spec fn fact_views(v: Seq<RestoreFacts>) -> Seq<RestoreFactV> {
    v.map_values(|f: RestoreFacts| f@)
}

/// Why a restore stops.
#[derive(Debug, Clone)]
pub enum RestoreError {
    /// No manifest records a deployment into the directory.
    NoRecord { dir: String },
    /// A backup copy could not be read.
    ReadBackup { name: String },
    /// A backup copy no longer has the hash recorded for it.
    Corrupt { name: String },
}

/// [`RestoreError`] as plain values.
pub enum RestoreErrorV {
    NoRecord(Seq<char>),
    ReadBackup(Seq<char>),
    Corrupt(Seq<char>),
}

impl View for RestoreError {
    type V = RestoreErrorV;

    open spec fn view(&self) -> RestoreErrorV {
        match *self {
            RestoreError::NoRecord { dir } => RestoreErrorV::NoRecord(dir@),
            RestoreError::ReadBackup { name } => RestoreErrorV::ReadBackup(name@),
            RestoreError::Corrupt { name } => RestoreErrorV::Corrupt(name@),
        }
    }
}

pub open spec fn restore_error_text(e: RestoreErrorV) -> Seq<char> {
    match e {
        RestoreErrorV::NoRecord(d) => "没有找到本工具对该目录的部署记录（"@ + d + "）"@,
        RestoreErrorV::ReadBackup(n) => "读取备份 "@ + n,
        RestoreErrorV::Corrupt(n) => "备份 "@ + n + " 自身已损坏，中止还原"@,
    }
}

impl RestoreError {
    /// The text a failed restore is reported with.
    pub fn message(&self) -> (r: String)
        ensures
            r@ == restore_error_text(self@),
    {
        proof {
            reveal_strlit("");
            assert(""@ =~= Seq::<char>::empty());
        }
        match self {
            RestoreError::NoRecord { dir } => text::cat3(
                "没有找到本工具对该目录的部署记录（",
                dir.as_str(),
                "）",
            ),
            RestoreError::ReadBackup { name } => text::cat3("读取备份 ", name.as_str(), ""),
            RestoreError::Corrupt { name } => text::cat3("备份 ", name.as_str(), " 自身已损坏，中止还原"),
        }
    }
}

/// An entry whose original is put back: there was a file before, and it
/// was backed up.
pub open spec fn restorable(e: EntryV) -> bool {
    e.existed_before && e.backup_name is Some
}

/// The backup an entry needs is missing, or does not have its recorded hash.
pub open spec fn backup_bad(f: RestoreFactV) -> bool {
    restorable(f.entry) && (f.backup is None || (f.entry.original_sha256 is Some
        && util::sha256_hex_of(f.backup.unwrap()) != f.entry.original_sha256.unwrap()))
}

pub open spec fn bad_fn(fs: Seq<RestoreFactV>) -> spec_fn(int) -> bool {
    |k: int| backup_bad(fs[k])
}

/// Index of the first entry whose backup is bad, or the number of entries.
pub open spec fn restore_stop(fs: Seq<RestoreFactV>) -> int {
    first_from(0, fs.len() as int, bad_fn(fs))
}

pub open spec fn present_fn() -> spec_fn(RestoreFactV) -> Option<Seq<char>> {
    |f: RestoreFactV|
        if f.present {
            Some(f.entry.rel_path)
        } else {
            None
        }
}

pub open spec fn restore_fn() -> spec_fn(RestoreFactV) -> Option<(Seq<char>, Seq<u8>)> {
    |f: RestoreFactV|
        if restorable(f.entry) {
            Some((f.entry.rel_path, f.backup.unwrap()))
        } else {
            None
        }
}

/// The deployed files a restore removes: every recorded file that is there.
pub open spec fn restore_removals(fs: Seq<RestoreFactV>) -> Seq<Seq<char>> {
    text::filter_map(fs, present_fn())
}

/// The originals a restore puts back, in order, up to the first bad backup.
pub open spec fn restore_writes(fs: Seq<RestoreFactV>) -> Seq<(Seq<char>, Seq<u8>)> {
    text::filter_map(fs.take(restore_stop(fs)), restore_fn())
}

/// Why the restore stops, if it does: the first bad backup.
pub open spec fn restore_error(fs: Seq<RestoreFactV>) -> Option<RestoreErrorV> {
    let k = restore_stop(fs);
    if k < fs.len() {
        if fs[k].backup is None {
            Some(RestoreErrorV::ReadBackup(fs[k].entry.backup_name.unwrap()))
        } else {
            Some(RestoreErrorV::Corrupt(fs[k].entry.backup_name.unwrap()))
        }
    } else {
        None
    }
}

/// A file a restore writes back.
#[derive(Debug)]
pub struct RestoreWrite {
    pub name: String,
    pub bytes: Vec<u8>,
}

pub open spec fn restore_write_views(v: Seq<RestoreWrite>) -> Seq<(Seq<char>, Seq<u8>)> {
    v.map_values(|w: RestoreWrite| (w.name@, w.bytes@))
}

/// What a restore does, in order: delete `removals`, write back `writes`,
/// then stop with `error` if there is one (the backup directory is kept),
/// or else delete the backup directory.
#[derive(Debug)]
pub struct RestorePlan {
    pub removals: Vec<String>,
    pub writes: Vec<RestoreWrite>,
    pub error: Option<RestoreError>,
}

pub open spec fn opt_error_view(e: Option<RestoreError>) -> Option<RestoreErrorV> {
    match e {
        Some(x) => Some(x@),
        None => None,
    }
}

fn backup_bad_exec(f: &RestoreFacts) -> (r: bool)
    ensures
        r == backup_bad(f@),
{
    if !(f.entry.existed_before && f.entry.backup_name.is_some()) {
        return false;
    }
    match &f.backup {
        None => true,
        Some(b) => match &f.entry.original_sha256 {
            None => false,
            Some(orig) => {
                let h = util::sha256_hex(b.as_slice());
                !same_string(&h, orig)
            },
        },
    }
}

/// Plans the restore of a manifest's entries.
pub fn restore_with(facts: &Vec<RestoreFacts>) -> (r: RestorePlan)
    ensures
        text::views(r.removals@) == restore_removals(fact_views(facts@)),
        restore_write_views(r.writes@) == restore_writes(fact_views(facts@)),
        opt_error_view(r.error) == restore_error(fact_views(facts@)),
{
    let ghost fs = fact_views(facts@);
    let n = facts.len();
    let mut removals: Vec<String> = Vec::new();
    let mut i: usize = 0;
    while i < n
        invariant
            i <= n == facts@.len() == fs.len(),
            fs == fact_views(facts@),
            text::views(removals@) == text::filter_map(fs.take(i as int), present_fn()),
        decreases n - i,
    {
        proof {
            text::lemma_filter_map_take(fs, present_fn(), i as int);
        }
        if facts[i].present {
            let ghost before = text::views(removals@);
            removals.push(clone_string(&facts[i].entry.rel_path));
            proof {
                assert(text::views(removals@) =~= before.push(fs[i as int].entry.rel_path));
            }
        }
        i += 1;
    }
    proof {
        text::lemma_take_full(fs);
    }
    let mut writes: Vec<RestoreWrite> = Vec::new();
    let mut i: usize = 0;
    while i < n
        invariant
            i <= n == facts@.len() == fs.len(),
            fs == fact_views(facts@),
            forall|k: int| 0 <= k < i ==> !#[trigger] backup_bad(fs[k]),
            restore_write_views(writes@) == text::filter_map(fs.take(i as int), restore_fn()),
            text::views(removals@) == restore_removals(fs),
        decreases n - i,
    {
        let f = &facts[i];
        if backup_bad_exec(f) {
            proof {
                lemma_first_from(0, n as int, bad_fn(fs), i as int);
            }
            let name = clone_string(f.entry.backup_name.as_ref().unwrap());
            let err = if f.backup.is_none() {
                RestoreError::ReadBackup { name }
            } else {
                RestoreError::Corrupt { name }
            };
            return RestorePlan { removals, writes, error: Some(err) };
        }
        proof {
            text::lemma_filter_map_take(fs, restore_fn(), i as int);
        }
        if f.entry.existed_before && f.entry.backup_name.is_some() {
            let ghost before = restore_write_views(writes@);
            writes.push(
                RestoreWrite {
                    name: clone_string(&f.entry.rel_path),
                    bytes: copy_bytes(f.backup.as_ref().unwrap()),
                },
            );
            proof {
                assert(restore_write_views(writes@) =~= before.push(
                    (fs[i as int].entry.rel_path, fs[i as int].backup.unwrap()),
                ));
            }
        }
        i += 1;
    }
    proof {
        lemma_first_from(0, n as int, bad_fn(fs), n as int);
        text::lemma_take_full(fs);
    }
    RestorePlan { removals, writes, error: None }
}

/// Restores the deployment recorded for `target_dir`: `manifest` holds the
/// facts of its recorded entries, or is `None` where no manifest records a
/// deployment there.
pub fn restore(target_dir: &str, manifest: Option<&Vec<RestoreFacts>>) -> (r: Result<
    RestorePlan,
    RestoreError,
>)
    ensures
        manifest is None <==> r is Err,
        r matches Err(e) ==> e@ == RestoreErrorV::NoRecord(target_dir@),
        manifest matches Some(f) ==> (r matches Ok(p) && text::views(p.removals@)
            == restore_removals(fact_views(f@)) && restore_write_views(p.writes@)
            == restore_writes(fact_views(f@)) && opt_error_view(p.error) == restore_error(
            fact_views(f@),
        )),
{
    match manifest {
        None => Err(RestoreError::NoRecord { dir: text::owned(target_dir) }),
        Some(f) => Ok(restore_with(f)),
    }
}

pub open spec fn restore_message_of(entries: nat, restored: nat) -> Seq<char> {
    "已还原：移除 "@ + text::decimal(entries) + " 个部署文件，恢复 "@ + text::decimal(restored)
        + " 个原始文件"@
}

/// The report of a completed restore: how many recorded files were removed
/// and how many originals were put back.
pub fn restore_message(entries: usize, restored: usize) -> (r: String)
    ensures
        r@ == restore_message_of(entries as nat, restored as nat),
{
    let mut out = text::chars_of("已还原：移除 ");
    let a = text::decimal_vec(entries as u64);
    text::extend(&mut out, &a);
    text::extend_str(&mut out, " 个部署文件，恢复 ");
    let b = text::decimal_vec(restored as u64);
    text::extend(&mut out, &b);
    text::extend_str(&mut out, " 个原始文件");
    text::string_of(&out)
}

} // verus!
