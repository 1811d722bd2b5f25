use framegen_manager::gpu::smi_value;
use framegen_manager::importer::{
    basename_lower, build_label, choose_winners, finish_staged, judge, kind_of, Evidence, Kind, Staged,
};
use framegen_manager::log::{clock, is_legacy_log, rotate_plan, section, CUR_NAME, PREV_NAME};
use framegen_manager::scan::{epic_manifest_dir, library_path, scan_all, GameEntry, Launcher};
use framegen_manager::util::{
    civil_from_days, config_path, default_asset_dir, dir_key, default_backups_dir, format_utc, git_blob_sha1,
    migrate_backups, now_utc, sha256_hex, to_hex, AppConfig,
};
use framegen_manager::verify::{
    sig_state_of, signer_kind, verify_file, SigState, SignerKind, VerifyReport, AUTHOR_CERT_PROXY,
    NVIDIA_CERT,
};

#[test]
fn hashes_of_known_inputs() {
    assert_eq!(sha256_hex(b""), "e3b0c44298fc1c149afbf4c8996fb92427ae41e4649b934ca495991b7852b855");
    assert_eq!(sha256_hex(b"abc"), "ba7816bf8f01cfea414140de5dae2223b00361a396177a9cb410ff61f20015ad");
    assert_eq!(git_blob_sha1(b""), "e69de29bb2d1d6434b8b29ae775ad8c2e48c5391");
    assert_eq!(git_blob_sha1(b"hello\n"), "ce013625030ba8dba906f756967f9e9ca394464a");
    assert_eq!(to_hex(&[0x00, 0xab, 0x10]), "00ab10");
}

#[test]
fn civil_dates() {
    assert_eq!(civil_from_days(0), (1970, 1, 1));
    assert_eq!(civil_from_days(19723), (2024, 1, 1));
    assert_eq!(civil_from_days(19782), (2024, 2, 29));
    assert_eq!(civil_from_days(-1), (1969, 12, 31));
    assert_eq!(civil_from_days(-719468), (0, 3, 1));
    assert_eq!(civil_from_days(11016), (2000, 2, 29));
}

#[test]
fn utc_stamps() {
    assert_eq!(format_utc(0), "1970-01-01 00:00:00 UTC");
    assert_eq!(format_utc(1704067200 + 3661), "2024-01-01 01:01:01 UTC");
    assert_eq!(format_utc(951782400 + 86399), "2000-02-29 23:59:59 UTC");
    let now = now_utc();
    assert_eq!(now.len(), 23);
    assert!(now.ends_with(" UTC"));
    assert!(now.as_str() >= "2024-01-01");
}

#[test]
fn portable_directories() {
    assert_eq!(default_backups_dir(Some("C:\\App"), true, Some("D:\\Data")), "C:\\App\\backups");
    assert_eq!(default_backups_dir(Some("C:\\App"), false, Some("D:\\Data")), "D:\\Data\\backups");
    assert_eq!(default_backups_dir(None, true, None), "backups");
    assert_eq!(default_asset_dir(Some("C:\\App\\"), true, None), "C:\\App\\assets");
    assert_eq!(config_path(None, false, Some("D:\\Data")), "D:\\Data\\framegen-manager.json");
    assert_eq!(library_path("C:\\App\\framegen-manager.json"), "C:\\App\\game_library.json");
    assert_eq!(library_path("framegen-manager.json"), "game_library.json");
    assert_eq!(epic_manifest_dir(), "C:\\ProgramData\\Epic\\EpicGamesLauncher\\Data\\Manifests");
    let c = AppConfig::default();
    assert!(c.asset_dir.is_none() && !c.allow_backup_source && c.backup_prefix.is_empty() && !c.legacy_3101);
}

#[test]
fn backup_migration() {
    assert_eq!(
        migrate_backups("C:\\App\\backups", "D:\\Data\\backups", true, true, 3).as_deref(),
        Some("已把旧位置的 3 项备份搬到程序目录的 backups\\")
    );
    assert_eq!(migrate_backups("C:\\b", "C:\\b", true, true, 3), None);
    assert_eq!(migrate_backups("C:\\a", "C:\\b", false, true, 3), None);
    assert_eq!(migrate_backups("C:\\a", "C:\\b", true, false, 3), None);
    assert_eq!(migrate_backups("C:\\a", "C:\\b", true, true, 0), None);
}

#[test]
fn log_rotation_keeps_the_newest_old_log() {
    assert_eq!(CUR_NAME, "framegen.log");
    assert_eq!(PREV_NAME, "framegen.prev.log");
    assert!(is_legacy_log("framegen-20260101010101UTC.log"));
    assert!(!is_legacy_log("framegen.log"));
    assert!(!is_legacy_log("framegen.prev.log"));
    let legacy = vec![
        "framegen-20260202020202UTC.log".to_owned(),
        "framegen-20260101010101UTC.log".to_owned(),
    ];
    let (keep, del) = rotate_plan(&legacy, false);
    assert_eq!(keep, Some(0));
    assert_eq!(del, vec!["framegen-20260101010101UTC.log".to_owned()]);
    let (keep, del) = rotate_plan(&legacy, true);
    assert_eq!(keep, None);
    assert_eq!(del, legacy);
    let three = vec![
        "framegen-20260101010101UTC.log".to_owned(),
        "framegen-20260303030303UTC.log".to_owned(),
        "framegen-20260202020202UTC.log".to_owned(),
    ];
    let (keep, del) = rotate_plan(&three, false);
    assert_eq!(keep, Some(1));
    assert_eq!(del, vec![three[0].clone(), three[2].clone()]);
    assert_eq!(rotate_plan(&vec![], false), (None, vec![]));
}

#[test]
fn log_lines() {
    assert_eq!(clock("2026-01-01 12:34:56 UTC"), "12:34:56");
    assert_eq!(clock("nospace"), "");
    assert_eq!(framegen_manager::log::line("12:00:00", "hi"), "[12:00:00] hi");
    assert_eq!(section("部署"), vec!["".to_owned(), "========== 部署 ==========".to_owned()]);
}

#[test]
fn signature_statuses() {
    assert_eq!(sig_state_of(0), SigState::Trusted);
    assert_eq!(sig_state_of(0x800B0109), SigState::UntrustedRoot);
    assert_eq!(sig_state_of(0x800B0100), SigState::NoSignature);
    assert_eq!(sig_state_of(0x800B0003), SigState::NoSignature);
    assert_eq!(sig_state_of(0x800B0002), SigState::NoSignature);
    assert_eq!(sig_state_of(0x80096010), SigState::BadDigest);
    assert_eq!(sig_state_of(1), SigState::Other);
    assert!(SigState::UntrustedRoot.content_ok());
    assert!(!SigState::BadDigest.content_ok());
}

#[test]
fn signer_kinds() {
    assert_eq!(signer_kind("", ""), SignerKind::Other);
    assert_eq!(signer_kind("NVIDIA Corporation", ""), SignerKind::Nvidia);
    assert_eq!(signer_kind("x", &AUTHOR_CERT_PROXY.to_lowercase()), SignerKind::Author);
    assert_eq!(signer_kind("x", "A994735E6A7E9AA31FA926B3023B7C487DAB4850"), SignerKind::Author);
    assert_eq!(signer_kind("x", NVIDIA_CERT), SignerKind::Nvidia);
    assert_eq!(signer_kind("Some nvidia unit", "00"), SignerKind::Nvidia);
    assert_eq!(signer_kind("x", "00"), SignerKind::Other);
}

fn report(sig: SigState, subject: &str, thumb: &str, kind: SignerKind) -> VerifyReport {
    VerifyReport { sig, subject: subject.to_owned(), thumbprint: thumb.to_owned(), kind, note: None }
}

#[test]
fn reports() {
    let r = report(SigState::UntrustedRoot, "DLSSG for SM86", AUTHOR_CERT_PROXY, SignerKind::Author);
    assert!(r.content_trusted());
    assert_eq!(
        r.summary(),
        "签名有效（自签证书，Windows 不信任这张证书本身）；签名者：DLSSG for SM86（本项目作者），证书指纹 85BA66762F851E49148D706915D09026281418E6"
    );
    let e = report(SigState::NoSignature, "", "", SignerKind::Other);
    assert!(!e.content_trusted());
    assert_eq!(e.summary(), "没有签名；签名者：未知（不认识）");
    assert!(report(SigState::Trusted, "", "", SignerKind::Nvidia).content_trusted());
    assert!(!report(SigState::UntrustedRoot, "", "", SignerKind::Nvidia).content_trusted());
    assert!(!report(SigState::BadDigest, "", "", SignerKind::Author).content_trusted());
    assert!(!report(SigState::Trusted, "", "", SignerKind::Other).content_trusted());
}

#[test]
fn file_checks() {
    let n = verify_file(SigState::NoSignature, Some(Ok(("a".to_owned(), "b".to_owned()))));
    assert!(n.subject.is_empty() && n.thumbprint.is_empty() && n.note.is_none());
    assert_eq!(n.kind, SignerKind::Other);
    let f = verify_file(SigState::Trusted, Some(Err("读不出签名者信息".to_owned())));
    assert_eq!(f.note.as_deref(), Some("读不出签名者信息"));
    let ok = verify_file(
        SigState::Trusted,
        Some(Ok(("NVIDIA Corporation".to_owned(), NVIDIA_CERT.to_owned()))),
    );
    assert_eq!(ok.kind, SignerKind::Nvidia);
    assert!(ok.content_trusted());
}

#[test]
fn recognised_names() {
    assert_eq!(basename_lower("Archive\\0.2.4/ VERSION.DLL "), "version.dll");
    assert_eq!(kind_of("version.dll"), Some(Kind::Proxy));
    assert_eq!(kind_of("winhttp.dll"), Some(Kind::Proxy));
    assert_eq!(kind_of("dlssg_sm86.ini"), Some(Kind::Ini));
    assert_eq!(kind_of("nvngx_dlss.dll"), Some(Kind::Runtime));
    assert_eq!(kind_of("readme.md"), None);
    assert_eq!(Kind::Runtime.label(), "DLSS 运行库");
    assert_eq!(build_label("archive/0.1.0/x"), "归档的老包");
    assert_eq!(build_label("310.1\\x"), "上游的 310.1 老版本目录");
    assert_eq!(build_label("x"), "当前最新版");
}

#[test]
fn judgements() {
    assert_eq!(
        judge(&Evidence::Ini(Ok(())), 581),
        (true, "配置文件 581 字节，结构检查通过（没有签名，只能检查结构）".to_owned())
    );
    assert_eq!(
        judge(&Evidence::Ini(Err("空文件".to_owned())), 0),
        (false, "配置文件看起来不对：空文件".to_owned())
    );
    let r = report(SigState::Trusted, "NVIDIA Corporation", "", SignerKind::Nvidia);
    assert_eq!(
        judge(&Evidence::Signed(r), 10),
        (true, "签名有效（受信任的证书链）；签名者：NVIDIA Corporation（NVIDIA）（10 字节）".to_owned())
    );
}

fn staged(kind: Kind, name: &str, tmp: &str) -> Staged {
    Staged {
        kind,
        name: name.to_owned(),
        tmp: tmp.to_owned(),
        from: "pack.zip".to_owned(),
        bytes: 1,
        sha256: String::new(),
        note: "ok".to_owned(),
        trusted: true,
    }
}

#[test]
fn one_winner_per_name_from_the_preferred_build() {
    let cands = vec![
        (0u8, "version.dll".to_owned(), staged(Kind::Proxy, "version.dll", "A")),
        (1u8, "310.1/version.dll".to_owned(), staged(Kind::Proxy, "version.dll", "B")),
        (2u8, "archive/version.dll".to_owned(), staged(Kind::Proxy, "version.dll", "C")),
        (1u8, "310.1/dlssg_sm86.ini".to_owned(), staged(Kind::Ini, "dlssg_sm86.ini", "D")),
        (0u8, "dlssg_sm86.ini".to_owned(), staged(Kind::Ini, "dlssg_sm86.ini", "E")),
    ];
    let (w, dropped) = choose_winners(cands);
    assert_eq!(w.len(), 2);
    assert_eq!((w[0].0, w[0].2.tmp.as_str()), (0, "A"));
    assert_eq!((w[1].0, w[1].2.tmp.as_str()), (0, "E"));
    assert_eq!(dropped, vec!["B".to_owned(), "C".to_owned(), "D".to_owned()]);
}

#[test]
fn other_builds_ask_and_spare_entries_are_noted() {
    let winners = vec![
        (1u8, "310.1/version.dll".to_owned(), staged(Kind::Proxy, "version.dll", "A")),
        (2u8, "archive/x/winhttp.dll".to_owned(), staged(Kind::Proxy, "winhttp.dll", "B")),
        (0u8, "dlssg_sm86.ini".to_owned(), staged(Kind::Ini, "dlssg_sm86.ini", "C")),
    ];
    let (out, notes) = finish_staged(&winners);
    assert!(!out[0].trusted);
    assert_eq!(
        out[0].note,
        "ok。注意：这个文件来自上游的 310.1 老版本目录，而不是最新版 —— 继续导入会用它覆盖资产里的同名文件"
    );
    assert!(out[1].trusted);
    assert_eq!(out[1].note, "ok");
    assert!(out[2].trusted);
    assert_eq!(
        notes,
        vec!["winhttp.dll：上游当前版本不使用这个入口（只有老版包里才有），仍然放进资产目录备用".to_owned()]
    );
}

fn game(source: Launcher, name: &str) -> GameEntry {
    GameEntry { source, app_id: String::new(), name: name.to_owned(), install_dir: format!("D:\\{name}") }
}

#[test]
fn all_games_sorted_by_lower_name() {
    let all = scan_all(
        vec![game(Launcher::Steam, "beta"), game(Launcher::Steam, "Alpha")],
        vec![game(Launcher::Epic, "alpha")],
        vec![game(Launcher::WeGame, "Gamma")],
    );
    let names: Vec<&str> = all.iter().map(|g| g.name.as_str()).collect();
    assert_eq!(names, vec!["Alpha", "alpha", "beta", "Gamma"]);
    assert_eq!(all[1].source, Launcher::Epic);
}

#[test]
fn nvidia_smi_output() {
    assert_eq!(smi_value("\n  \n NVIDIA GeForce RTX 3070 \nx").as_deref(), Some("NVIDIA GeForce RTX 3070"));
    assert_eq!(smi_value(""), None);
    assert_eq!(smi_value("560.94\r\n").as_deref(), Some("560.94"));
}

#[test]
fn every_day_number_is_a_real_date() {
    let mut z: i64 = -1_000_000;
    let mut prev: Option<(i64, u32, u32)> = None;
    while z <= 1_000_000 {
        let (y, m, d) = civil_from_days(z);
        assert!((1..=12).contains(&m), "{z}");
        assert!((1..=31).contains(&d), "{z}");
        if let Some(p) = prev {
            assert!((y, m, d) > p, "{z}");
        }
        prev = Some((y, m, d));
        z += 1;
    }
}

#[test]
fn each_next_day_number_is_the_next_gregorian_date() {
    fn leap(y: i64) -> bool {
        y % 4 == 0 && (y % 100 != 0 || y % 400 == 0)
    }
    fn next(c: (i64, u32, u32)) -> (i64, u32, u32) {
        let len = match c.1 {
            2 => if leap(c.0) { 29 } else { 28 },
            4 | 6 | 9 | 11 => 30,
            _ => 31,
        };
        if c.2 < len {
            (c.0, c.1, c.2 + 1)
        } else if c.1 < 12 {
            (c.0, c.1 + 1, 1)
        } else {
            (c.0 + 1, 1, 1)
        }
    }
    assert_eq!(civil_from_days(-25509), (1900, 2, 28));
    assert_eq!(civil_from_days(-25508), (1900, 3, 1));
    assert_eq!(civil_from_days(11017), (2000, 3, 1));
    let mut z: i64 = -300_000;
    while z < 300_000 {
        assert_eq!(civil_from_days(z + 1), next(civil_from_days(z)), "{z}");
        z += 1;
    }
}

#[test]
fn directory_keys_ignore_case_and_separators() {
    assert_eq!(dir_key("D:/Games/X/"), dir_key("d:\\games\\x"));
    assert_eq!(dir_key("D:/Games/X/").len(), 16);
    assert_ne!(dir_key("D:/Games/X"), dir_key("D:/Games/Y"));
}

#[test]
fn the_first_of_equally_ranked_candidates_wins() {
    let cands = vec![
        (1u8, "310.1/version.dll".to_owned(), staged(Kind::Proxy, "version.dll", "A")),
        (1u8, "310.2/version.dll".to_owned(), staged(Kind::Proxy, "version.dll", "B")),
        (2u8, "archive/version.dll".to_owned(), staged(Kind::Proxy, "version.dll", "C")),
    ];
    let (w, dropped) = choose_winners(cands);
    assert_eq!(w.len(), 1);
    assert_eq!(w[0].2.tmp, "A");
    assert_eq!(dropped, vec!["B".to_owned(), "C".to_owned()]);
}
