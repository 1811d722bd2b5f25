use framegen_manager::paths::{components_vec, file_name_vec, name_back_vec};
use framegen_manager::pe::{
    cert_contains, identify, identify_dll, pe_certificate_blob, pe_imports, rd_u16, rd_u32,
};
use framegen_manager::anticheat::AcTier;
use framegen_manager::scan::{
    add_library, advise_proxy, epic_item, exe_candidate, is_current_proxy, library_candidates,
    norm_key, normalize_win_path, pick_render_exe, push_wegame, sort_games, steam_app, tokenize,
    vdf_pairs, wegame_is_non_game_key, wegame_pick, wegame_value_is_name_like, EpicItem, ExeCand,
    CachedRow, ExistingEntry, FileIdentity, GameEntry, Launcher, LibraryCache, ModuleImports, SteamApp, Tok,
    WegameValue,
};

fn s(v: &[char]) -> String {
    v.iter().collect()
}

// ------------------------------------------------------------ paths

#[test]
fn path_components_skip_drive_empty_and_dot() {
    let c: Vec<String> = components_vec("C:\\Games\\.\\X//bin\\").iter().map(|v| s(v)).collect();
    assert_eq!(c, vec!["Games", "X", "bin"]);
    assert!(components_vec("").is_empty());
    assert!(components_vec("C:\\").is_empty());
}

#[test]
fn path_file_names() {
    assert_eq!(file_name_vec("D:\\A\\B\\game.exe").map(|v| s(&v)).as_deref(), Some("game.exe"));
    assert_eq!(file_name_vec("D:\\A\\B\\").map(|v| s(&v)).as_deref(), Some("B"));
    assert_eq!(file_name_vec("D:\\A\\..").map(|v| s(&v)), None);
    assert_eq!(file_name_vec("C:\\").map(|v| s(&v)), None);
    assert_eq!(name_back_vec("D:\\P\\Binaries\\Win64\\P.exe", 1).map(|v| s(&v)).as_deref(), Some("Win64"));
    assert_eq!(name_back_vec("D:\\P\\Binaries\\Win64\\P.exe", 3).map(|v| s(&v)).as_deref(), Some("P"));
    assert_eq!(name_back_vec("D:\\P.exe", 1).map(|v| s(&v)), None);
}

// ------------------------------------------------------------ VDF and Steam

#[test]
fn vdf_tokens_and_pairs() {
    let text = "\"libraryfolders\"\n{\n\t\"0\"\n\t{\n\t\t\"path\"\t\t\"C:\\\\Program Files (x86)\\\\Steam\"\n\t}\n}";
    let toks = tokenize(text);
    assert_eq!(toks.len(), 8);
    assert!(matches!(&toks[0], Tok::Str(x) if x == "libraryfolders"));
    assert!(matches!(toks[1], Tok::Open));
    assert!(matches!(toks[7], Tok::Close));
    let pairs = vdf_pairs(text);
    assert_eq!(
        pairs,
        vec![("path".to_string(), "C:\\Program Files (x86)\\Steam".to_string())]
    );
}

#[test]
fn library_candidates_of_both_formats() {
    let new_format = "\"libraryfolders\" { \"0\" { \"path\" \"D:/SteamLibrary\" \"label\" \"\" } \"1\" { \"PATH\" \"E:\\\\Games\" } }";
    assert_eq!(library_candidates(new_format), vec!["D:\\SteamLibrary", "E:\\Games"]);
    let old_format = "\"LibraryFolders\" { \"TimeNextStatsReport\" \"123\" \"1\" \"F:\\\\Steam\" }";
    assert_eq!(library_candidates(old_format), vec!["F:\\Steam"]);
}

#[test]
fn add_library_skips_the_same_directory() {
    let mut libs = vec!["C:\\Steam".to_string()];
    add_library(&mut libs, "c:/steam");
    assert_eq!(libs, vec!["C:\\Steam"]);
    add_library(&mut libs, "D:\\SteamLibrary");
    assert_eq!(libs, vec!["C:\\Steam", "D:\\SteamLibrary"]);
    assert_eq!(norm_key("C:/Steam/Apps"), "c:\\steam\\apps");
    assert_eq!(normalize_win_path("C:/Steam/Apps"), "C:\\Steam\\Apps");
}

#[test]
fn steam_app_manifests() {
    let game = "\"AppState\" { \"appid\" \"1091500\" \"name\" \"Cyberpunk 2077\" \"installdir\" \"Cyberpunk 2077\" }";
    match steam_app(game) {
        SteamApp::Game { app_id, name, installdir } => {
            assert_eq!(app_id, "1091500");
            assert_eq!(name, "Cyberpunk 2077");
            assert_eq!(installdir, "Cyberpunk 2077");
        }
        other => panic!("unexpected {other:?}"),
    }
    let runtime = "\"AppState\" { \"appid\" \"228980\" \"name\" \"Steamworks Common Redistributables\" \"installdir\" \"Steamworks Shared\" }";
    assert!(matches!(steam_app(runtime), SteamApp::Runtime { .. }));
    let no_dir = "\"AppState\" { \"appid\" \"1\" \"name\" \"X\" }";
    assert!(matches!(steam_app(no_dir), SteamApp::Incomplete));
}

// ------------------------------------------------------------ Epic and WeGame

#[test]
fn epic_items() {
    assert!(matches!(
        epic_item(Some(false), Some("UE".into()), Some("C:\\UE".into()), None),
        EpicItem::NotApp
    ));
    assert!(matches!(epic_item(Some(true), None, Some("C:\\G".into()), None), EpicItem::MissingField));
    match epic_item(None, Some("Alan Wake 2".into()), Some("D:\\Epic\\AW2".into()), Some("Dill".into())) {
        EpicItem::App { app_id, name, location } => {
            assert_eq!(app_id, "Dill");
            assert_eq!(name, "Alan Wake 2");
            assert_eq!(location, "D:\\Epic\\AW2");
        }
        other => panic!("unexpected {other:?}"),
    }
}

#[test]
fn wegame_values_and_keys() {
    assert!(wegame_value_is_name_like("DisplayName"));
    assert!(!wegame_value_is_name_like("GameNameX"));
    assert!(wegame_is_non_game_key("qqnt"));
    assert!(!wegame_is_non_game_key("QQ飞车"));

    let values = vec![
        WegameValue { name: "Name".into(), data: "  ".into(), existing_dir: None },
        WegameValue { name: "Foo".into(), data: "x".into(), existing_dir: Some("D:\\Weak".into()) },
        WegameValue { name: "GameName".into(), data: " 无畏契约 ".into(), existing_dir: None },
        WegameValue { name: "InstallPath".into(), data: "p".into(), existing_dir: Some("D:\\Game".into()) },
        WegameValue { name: "Title".into(), data: "second".into(), existing_dir: None },
    ];
    let (dir, display) = wegame_pick(&values);
    assert_eq!(dir.as_deref(), Some("D:\\Game"));
    assert_eq!(display.as_deref(), Some("无畏契约"));

    let weak_only = vec![WegameValue { name: "Foo".into(), data: "x".into(), existing_dir: Some("D:\\Weak".into()) }];
    assert_eq!(wegame_pick(&weak_only).0.as_deref(), Some("D:\\Weak"));
}

#[test]
fn push_wegame_keeps_one_entry_per_directory() {
    let mut out: Vec<GameEntry> = Vec::new();
    push_wegame(&mut out, "A".into(), "D:\\A".into());
    push_wegame(&mut out, "A again".into(), "D:\\A".into());
    push_wegame(&mut out, "B".into(), "D:\\B".into());
    assert_eq!(out.len(), 2);
    assert_eq!(out[0].name, "A");
    assert_eq!(out[1].source, Launcher::WeGame);
    assert_eq!(out[1].app_id, "");
}

// ------------------------------------------------------------ render EXE

#[test]
fn exe_scores() {
    let shipping = exe_candidate(
        "D:\\Games\\Foo\\Foo\\Binaries\\Win64\\Foo-Win64-Shipping.exe",
        "D:\\Games\\Foo",
        50 * 1024 * 1024,
    )
    .unwrap();
    assert_eq!(shipping.score, 50 + 10 + 15);

    let named = exe_candidate(
        "D:\\Games\\HogwartsLegacy\\Phoenix\\Binaries\\Win64\\HogwartsLegacy.exe",
        "D:\\Games\\HogwartsLegacy",
        80 * 1024 * 1024,
    )
    .unwrap();
    assert_eq!(named.score, 10 + 20 + 15);

    let project = exe_candidate("D:\\G\\X\\Proj\\Binaries\\Win64\\Proj.exe", "D:\\G\\X", 3 * 1024 * 1024).unwrap();
    assert_eq!(project.score, 10 + 30 + 3);

    let plain = exe_candidate("D:\\G\\X\\tool.exe", "D:\\G\\X", 100).unwrap();
    assert_eq!(plain.score, 0);

    assert!(exe_candidate("D:\\G\\X\\unins000.exe", "D:\\G\\X", 1).is_none());
    assert!(exe_candidate("D:\\G\\X\\UnityCrashHandler64.exe", "D:\\G\\X", 1).is_none());
    assert!(exe_candidate("D:\\G\\X\\readme.txt", "D:\\G\\X", 1).is_none());
}

#[test]
fn render_exe_pick() {
    let c = |p: &str, score: i32, size: u64| ExeCand { path: p.to_string(), score, size };
    let v = vec![c("a", 20, 5), c("b", 45, 1), c("c", 45, 9), c("d", 45, 9)];
    assert_eq!(pick_render_exe(&v), Some(2));
    let none_positive = vec![c("a", 0, 100), c("b", 0, 5)];
    assert_eq!(pick_render_exe(&none_positive), None);
    assert_eq!(pick_render_exe(&Vec::new()), None);
}

#[test]
fn games_sort_by_lowercase_name_stably() {
    let g = |name: &str, id: &str| GameEntry {
        source: Launcher::Steam,
        app_id: id.to_string(),
        name: name.to_string(),
        install_dir: String::new(),
    };
    let sorted = sort_games(vec![g("beta", "1"), g("Alpha", "2"), g("alpha", "3"), g("Gamma", "4")]);
    let ids: Vec<&str> = sorted.iter().map(|e| e.app_id.as_str()).collect();
    assert_eq!(ids, vec!["2", "3", "1", "4"]);
}

// ------------------------------------------------------------ proxy advice

fn ex(name: &str, identity: FileIdentity) -> ExistingEntry {
    ExistingEntry { name: name.to_string(), bytes: 10, identity }
}

fn module(who: &str, imports: &[&str]) -> ModuleImports {
    ModuleImports { who: who.to_string(), imports: imports.iter().map(|s| s.to_string()).collect() }
}

#[test]
fn advice_reuses_an_own_proxy() {
    let existing = vec![ex("version.dll", FileIdentity::Nvidia), ex("dxgi.dll", FileIdentity::ThisProject)];
    let a = advise_proxy(&existing, &vec![module("game.exe", &["version.dll"])]);
    assert_eq!(a.recommended, "dxgi.dll");
    assert_eq!(a.reason, "目录里已经有本项目的 dxgi.dll，直接复用它，避免同时存在两个代理");
    assert_eq!(a.own_existing.len(), 1);
    assert_eq!(a.occupied.len(), 1);
    assert!(!a.undetermined);
    assert_eq!(a.scanned, 0);
}

#[test]
fn advice_takes_the_first_free_imported_entry() {
    let existing = vec![ex("version.dll", FileIdentity::OtherSigned)];
    let mods = vec![
        module("game.exe", &["kernel32.dll", "version.dll", "winmm.dll"]),
        module("b.dll", &["winmm.dll"]),
        module("a.dll", &["winmm.dll", "winmm.dll"]),
    ];
    let a = advise_proxy(&existing, &mods);
    assert_eq!(a.recommended, "winmm.dll");
    assert_eq!(a.reason, "a.dll、b.dll、game.exe 会加载它");
    assert!(!a.undetermined);
    assert_eq!(a.scanned, 3);
    assert!(is_current_proxy(&"winmm.dll".chars().collect::<Vec<_>>()));
}

#[test]
fn advice_falls_back_when_nothing_imports_a_free_entry() {
    let a = advise_proxy(&vec![ex("version.dll", FileIdentity::Unsigned)], &vec![module("x.exe", &["user32.dll"])]);
    assert_eq!(a.recommended, "winmm.dll");
    assert!(a.undetermined);
    assert_eq!(a.reason, "这个目录里几乎没有可执行文件，可能不是渲染 EXE 所在目录");

    let mods = vec![module("x.exe", &[]), module("y.dll", &[])];
    let a = advise_proxy(&Vec::new(), &mods);
    assert_eq!(a.recommended, "version.dll");
    assert_eq!(a.reason, "扫了 2 个模块，没有发现哪个候选入口被导入");

    let all_taken: Vec<ExistingEntry> = ["version.dll", "winmm.dll", "dbghelp.dll", "dinput8.dll", "dxgi.dll", "d3d12.dll"]
        .iter()
        .map(|n| ex(n, FileIdentity::OtherSigned))
        .collect();
    let a = advise_proxy(&all_taken, &Vec::new());
    assert_eq!(a.recommended, "version.dll");
    assert!(a.undetermined);
    assert_eq!(a.occupied.len(), 6);
}

// ------------------------------------------------------------ PE files

fn put16(d: &mut [u8], o: usize, v: u16) {
    d[o..o + 2].copy_from_slice(&v.to_le_bytes());
}

fn put32(d: &mut [u8], o: usize, v: u32) {
    d[o..o + 4].copy_from_slice(&v.to_le_bytes());
}

fn put_str(d: &mut [u8], o: usize, t: &str) {
    d[o..o + t.len()].copy_from_slice(t.as_bytes());
    d[o + t.len()] = 0;
}

/// A PE32+ image with one section (RVA 0x1000 at file offset 0x200), an
/// import table, a delay-load table and, when `cert` is given, a
/// certificate table at file offset 0x400.
fn sample_pe(cert: Option<&[u8]>) -> Vec<u8> {
    let mut d = vec![0u8; 0x400];
    d[0] = b'M';
    d[1] = b'Z';
    let e = 0x80usize;
    put32(&mut d, 0x3C, e as u32);
    d[e..e + 4].copy_from_slice(b"PE\0\0");
    put16(&mut d, e + 6, 1);
    put16(&mut d, e + 20, 0xF0);
    let h = e + 24;
    put16(&mut d, h, 0x20B);
    let dd = h + 112;
    put32(&mut d, dd + 8, 0x1000); // import table
    put32(&mut d, dd + 13 * 8, 0x1080); // delay-load table
    let sec = h + 0xF0;
    put32(&mut d, sec + 8, 0x200);
    put32(&mut d, sec + 12, 0x1000);
    put32(&mut d, sec + 16, 0x200);
    put32(&mut d, sec + 20, 0x200);
    // import descriptors at 0x200: USER32, KERNEL32, then a zero entry
    put32(&mut d, 0x200 + 12, 0x1110);
    put32(&mut d, 0x200 + 20 + 12, 0x1100);
    // delay descriptors at 0x280: attributes 1; VERSION, KERNEL32 again
    put32(&mut d, 0x280, 1);
    put32(&mut d, 0x280 + 4, 0x1120);
    put32(&mut d, 0x280 + 32, 1);
    put32(&mut d, 0x280 + 32 + 4, 0x1100);
    put_str(&mut d, 0x300, "KERNEL32.dll");
    put_str(&mut d, 0x310, "USER32.dll");
    put_str(&mut d, 0x320, "VERSION.dll");
    if let Some(c) = cert {
        put32(&mut d, dd + 32, 0x400);
        put32(&mut d, dd + 36, c.len() as u32);
        d.extend_from_slice(c);
    }
    d
}

fn utf16(t: &str) -> Vec<u8> {
    t.encode_utf16().flat_map(|u| u.to_le_bytes()).collect()
}

#[test]
fn little_endian_reads() {
    let d = [0x34u8, 0x12, 0x78, 0x56];
    assert_eq!(rd_u16(&d, 0), 0x1234);
    assert_eq!(rd_u32(&d, 0), 0x56781234);
}

#[test]
fn pe_imports_are_lowercase_sorted_and_unique() {
    let d = sample_pe(None);
    assert_eq!(pe_imports(&d), vec!["kernel32.dll", "user32.dll", "version.dll"]);
    assert!(pe_imports(b"not a pe file").is_empty());
    let mut broken = d.clone();
    broken[0] = b'X';
    assert!(pe_imports(&broken).is_empty());
}

#[test]
fn certificate_blob_and_identity() {
    let mut cert = b"0\x82...".to_vec();
    cert.extend(utf16("DLSSG for SM86"));
    let d = sample_pe(Some(&cert));
    assert_eq!(pe_certificate_blob(&d), cert);
    assert_eq!(identify_dll(&d), FileIdentity::ThisProject);

    let unsigned = sample_pe(None);
    assert!(pe_certificate_blob(&unsigned).is_empty());
    assert_eq!(identify_dll(&unsigned), FileIdentity::Unknown);
    let mut bigger = unsigned.clone();
    bigger.extend(vec![0u8; 16]);
    assert_eq!(identify_dll(&bigger), FileIdentity::Unsigned);
}

#[test]
fn identity_by_signer() {
    assert!(cert_contains(b"xxNVIDIA Corporationyy", "NVIDIA Corporation"));
    assert!(cert_contains(&utf16("CN=DLSSG Native Project"), "DLSSG Native Project"));
    assert!(!cert_contains(b"abc", ""));
    assert_eq!(identify(b"..DLSSG Native Project..", Some(5000)), FileIdentity::ThisProject);
    assert_eq!(identify(b"..NVIDIA Corporation..", Some(5000)), FileIdentity::Nvidia);
    assert_eq!(identify(b"..Someone Else..", Some(5000)), FileIdentity::OtherSigned);
    assert_eq!(identify(b"", Some(5000)), FileIdentity::Unsigned);
    assert_eq!(identify(b"", Some(1024)), FileIdentity::Unknown);
    assert_eq!(identify(b"", None), FileIdentity::Unknown);
    assert_eq!(FileIdentity::ThisProject.label(), "本项目文件（作者自签证书）");
    assert!(FileIdentity::ThisProject.is_ours());
    assert!(!FileIdentity::Nvidia.is_ours());
}

// ------------------------------------------------------------ library cache

fn row(name: &str, dir: &str, source: Launcher) -> CachedRow {
    CachedRow {
        entry: GameEntry { source, app_id: String::new(), name: name.to_string(), install_dir: dir.to_string() },
        render_exe: None,
        ac: AcTier::NotDetected,
    }
}

#[test]
fn rescanning_keeps_saved_entries() {
    let cache = LibraryCache {
        scanned_at: "old".to_string(),
        scanned: vec![row("A", "D:\\A", Launcher::Steam)],
        manual: vec![row("M", "E:\\M", Launcher::Manual)],
    };
    let next = cache.with_scan(vec![row("B", "D:\\B", Launcher::Epic)], "new".to_string());
    assert_eq!(next.scanned_at, "new");
    assert_eq!(next.scanned.len(), 1);
    assert_eq!(next.scanned[0].entry.name, "B");
    assert_eq!(next.manual.len(), 1);
    assert_eq!(next.manual[0].entry.name, "M");
}

#[test]
fn loading_drops_uninstalled_scans_but_keeps_saved_ones() {
    let cache = LibraryCache {
        scanned_at: String::new(),
        scanned: vec![row("A", "D:\\A", Launcher::Steam), row("B", "D:\\B", Launcher::Steam), row("C", "D:\\C", Launcher::Epic)],
        manual: vec![row("M", "E:\\M", Launcher::Manual)],
    };
    let (rows, dropped) = cache.rows_on_load(&vec![true, false, true]);
    let names: Vec<&str> = rows.iter().map(|r| r.entry.name.as_str()).collect();
    assert_eq!(names, vec!["A", "C", "M"]);
    assert_eq!(dropped, 1);
}

#[test]
fn saving_and_removing_entries() {
    let mut cache = LibraryCache {
        scanned_at: "t".to_string(),
        scanned: vec![row("A", "D:\\A", Launcher::Steam)],
        manual: Vec::new(),
    };
    // Already listed: installed there, or deployed there.
    assert!(!cache.add_manual(row("A", "D:\\A", Launcher::Manual), &vec!["D:\\A\\bin".to_string()]));
    assert!(!cache.add_manual(row("A", "D:\\A\\bin", Launcher::Manual), &vec!["D:\\A\\bin".to_string()]));
    assert!(cache.manual.is_empty());
    assert!(cache.add_manual(row("X", "F:\\X", Launcher::Manual), &vec!["D:\\A\\bin".to_string()]));
    assert!(cache.add_manual(row("Y", "F:\\Y", Launcher::Manual), &vec!["D:\\A\\bin".to_string(), "F:\\X".to_string()]));
    assert_eq!(cache.manual.len(), 2);
    cache.remove_manual("F:\\X");
    assert_eq!(cache.manual.len(), 1);
    assert_eq!(cache.manual[0].entry.name, "Y");
    assert_eq!(cache.scanned.len(), 1);
    assert_eq!(cache.scanned_at, "t");
}
