use framegen_manager::scan::GpuRoute;
use framegen_manager::update::{
    asset_state, check_download, content_length_of, dlss_runtime_plan, etag_of, extract_version,
    friendly_error, ini_get, ini_set, listing_status, local_is_current, local_name, mirrors,
    official_url, parse_cargo_version, parse_version, pick_release_zip, pick_zip_asset,
    prepare_deploy_ini, probe_failed, rank_mirrors, record_speed, release_url, remote_from_head,
    runtime_deploy_plan, runtime_kept_note, source_candidates, sources_failed, speed_of,
    speed_test_targets, upstream_version, zip_extract_dll, AssetFacts, AssetInfo, AssetState,
    LocalFile, NetError, RemoteFile, SourceSpeeds, UpdateState, ZipError, RATE_LIMIT_MSG,
};

fn local(etag: &str, bytes: u64, imported: bool) -> LocalFile {
    LocalFile {
        blob_sha: String::new(),
        etag: etag.to_owned(),
        sha256: String::new(),
        bytes,
        downloaded_at: "2026-01-01 00:00:00 UTC".to_owned(),
        imported,
    }
}

fn remote(etag: &str) -> RemoteFile {
    RemoteFile { name: "version.dll".to_owned(), size: 10, etag: etag.to_owned(), etag_trusted: true }
}

#[test]
fn versions_parse() {
    assert_eq!(parse_version("0.2.0"), Some((0, 2, 0)));
    assert_eq!(parse_version(" v1.2.3 "), Some((1, 2, 3)));
    assert_eq!(parse_version("vv2"), Some((2, 0, 0)));
    assert_eq!(parse_version("1.2"), Some((1, 2, 0)));
    assert_eq!(parse_version("1.2.3.4"), Some((1, 2, 3)));
    assert_eq!(parse_version("1."), None);
    assert_eq!(parse_version(""), None);
    assert_eq!(parse_version("+4.+5"), Some((4, 5, 0)));
    assert_eq!(parse_version("18446744073709551616"), None);
}

#[test]
fn cargo_version_is_the_plain_key() {
    let text = "[package]\nname = \"x\"\nversion = \"0.4.0\"\n[dependencies]\neframe = { version = \"1\" }\n";
    assert_eq!(parse_cargo_version(text).as_deref(), Some("0.4.0"));
    assert_eq!(parse_cargo_version("[dependencies]\neframe = { version = \"1\" }\n"), None);
    assert_eq!(parse_cargo_version("version = \"\"\nversion = \"2\"\n").as_deref(), Some("2"));
}

#[test]
fn urls_and_names() {
    assert_eq!(
        official_url("alternatives/winmm.dll"),
        "https://raw.githubusercontent.com/sdli1995/dlssg_for_sm86/main/alternatives/winmm.dll"
    );
    assert_eq!(
        release_url("dlssg-310.9.1", "nvngx_dlssg_310.9.1.zip"),
        "https://github.com/RankFTW/rhi-repo/releases/download/dlssg-310.9.1/nvngx_dlssg_310.9.1.zip"
    );
    assert_eq!(local_name("310.1/alternatives/dxgi.dll"), "dxgi.dll");
    assert_eq!(local_name("version.dll"), "version.dll");
}

#[test]
fn records_read_back_what_was_recorded() {
    let mut st = UpdateState { version: None, files: Vec::new() };
    st.insert("version.dll".to_owned(), local("AB", 10, false));
    st.insert("dlssg_sm86.ini".to_owned(), local("CD", 5, false));
    st.insert("version.dll".to_owned(), local("EF", 11, false));
    assert_eq!(st.files.len(), 2);
    assert_eq!(st.get("version.dll").unwrap().etag, "EF");
    assert_eq!(st.get("dlssg_sm86.ini").unwrap().etag, "CD");
    assert!(st.get("winmm.dll").is_none());
}

#[test]
fn needs_update_by_fingerprint() {
    let mut st = UpdateState { version: None, files: Vec::new() };
    assert!(st.needs_update("version.dll", &remote("ab")));
    st.insert("version.dll".to_owned(), local("AB", 10, false));
    assert!(!st.needs_update("version.dll", &remote("ab")));
    assert!(st.needs_update("version.dll", &remote("cd")));
    st.insert("version.dll".to_owned(), local("", 10, false));
    assert!(st.needs_update("version.dll", &remote("")));
    st.insert("version.dll".to_owned(), local("", 10, true));
    assert!(!st.needs_update("version.dll", &remote("cd")));
}

#[test]
fn current_needs_record_fingerprint_and_file() {
    let mut st = UpdateState { version: None, files: Vec::new() };
    st.insert("dlssg_sm86.ini".to_owned(), local("ab", 581, false));
    assert!(local_is_current(&st, "dlssg_sm86.ini", Some(581), &remote("AB")));
    assert!(!local_is_current(&st, "dlssg_sm86.ini", None, &remote("AB")));
    assert!(!local_is_current(&st, "dlssg_sm86.ini", Some(580), &remote("AB")));
    assert!(!local_is_current(&st, "dlssg_sm86.ini", Some(581), &remote("cd")));
    assert!(!local_is_current(&st, "version.dll", Some(581), &remote("AB")));
    st.insert("version.dll".to_owned(), local("", 7, true));
    assert!(local_is_current(&st, "version.dll", Some(7), &remote("zz")));
}

fn facts(size: Option<u64>, rec: Option<LocalFile>, trusted: bool, etag: Option<&str>) -> AssetFacts {
    AssetFacts {
        runtime: false,
        runtime_nvidia: false,
        size_on_disk: size,
        record: rec,
        remote_etag_trusted: trusted,
        remote_etag: etag.map(|s| s.to_owned()),
    }
}

#[test]
fn asset_states_go_by_disk_first() {
    let mut rt = facts(None, None, false, None);
    rt.runtime = true;
    assert_eq!(asset_state(&rt), AssetState::Missing);
    rt.runtime_nvidia = true;
    assert_eq!(asset_state(&rt), AssetState::Ready);
    assert_eq!(asset_state(&facts(None, Some(local("ab", 3, false)), true, Some("ab"))), AssetState::Missing);
    assert_eq!(asset_state(&facts(Some(3), None, true, Some("ab"))), AssetState::Outdated);
    assert_eq!(asset_state(&facts(Some(4), Some(local("ab", 3, false)), true, Some("ab"))), AssetState::Outdated);
    assert_eq!(asset_state(&facts(Some(4), Some(local("ab", 0, false)), true, Some("AB"))), AssetState::Ready);
    assert_eq!(asset_state(&facts(Some(3), Some(local("ab", 3, false)), false, Some("cd"))), AssetState::Ready);
    assert_eq!(asset_state(&facts(Some(3), Some(local("ab", 3, false)), true, Some("cd"))), AssetState::Outdated);
    assert_eq!(asset_state(&facts(Some(3), Some(local("", 3, false)), true, Some(""))), AssetState::Outdated);
    assert_eq!(asset_state(&facts(Some(3), Some(local("ab", 3, false)), true, None)), AssetState::Ready);
    assert_eq!(AssetState::Outdated.label(), "有更新");
}

#[test]
fn fingerprint_shape() {
    let h = "A".repeat(64);
    assert_eq!(etag_of(&format!(" \"{h}\" ")), Some("a".repeat(64)));
    assert_eq!(etag_of("W/\"abc\""), None);
    assert_eq!(etag_of(&"g".repeat(64)), None);
    assert_eq!(etag_of(&"0".repeat(63)), None);
}

#[test]
fn friendly_errors() {
    assert_eq!(friendly_error(&NetError::Timeout), "连接超时，网络太慢或连接被拦截");
    assert_eq!(friendly_error(&NetError::Connect), "连不上下载服务器（网络被墙、DNS 或代理问题）");
    assert_eq!(friendly_error(&NetError::Status(404)), "服务器返回错误状态 404");
    assert_eq!(friendly_error(&NetError::Decode), "响应内容无法解码");
    assert_eq!(
        friendly_error(&NetError::Request),
        "请求发送失败，通常是网络被拦截或 DNS 解析不了。可以改用备用源重试。"
    );
    assert_eq!(friendly_error(&NetError::Other("x".to_owned())), "网络请求失败（可以改用备用源重试）：x");
}

#[test]
fn download_checks() {
    assert!(check_download("v.dll", Some("AB"), Some("ab"), 10, 10).is_ok());
    assert!(check_download("v.dll", None, Some("ab"), 0, 3).is_ok());
    assert_eq!(
        check_download("v.dll", Some("ab"), Some("cd"), 10, 10).unwrap_err(),
        "完整性校验失败：v.dll 的内容指纹和仓库对不上，已丢弃（镜像可能返回了错误内容）"
    );
    assert_eq!(
        check_download("v.dll", None, None, 10, 4).unwrap_err(),
        "下载不完整：v.dll 期望 10 字节，实际只收到 4 字节，已丢弃"
    );
}

fn speeds() -> SourceSpeeds {
    let mut s = SourceSpeeds { entries: Vec::new() };
    record_speed(&mut s, "https://ghfast.top/", 5000, 1000);
    record_speed(&mut s, "https://ghproxy.net/", 20, 1000);
    s
}

#[test]
fn measured_rates_expire() {
    let mut s = speeds();
    assert_eq!(speed_of(&s, "https://ghfast.top/", 1000), Some(5000));
    assert_eq!(speed_of(&s, "https://ghfast.top/", 1000 + 21600), Some(5000));
    assert_eq!(speed_of(&s, "https://ghfast.top/", 1000 + 21601), None);
    assert_eq!(speed_of(&s, "https://gh-proxy.com/", 1000), None);
    record_speed(&mut s, "https://ghfast.top/", 7, 2000);
    assert_eq!(speed_of(&s, "https://ghfast.top/", 2000), Some(7));
    assert_eq!(s.entries.len(), 2);
}

#[test]
fn mirror_order() {
    let s = speeds();
    assert_eq!(
        mirrors("", &s, 1000),
        vec!["https://ghfast.top/", "https://gh-proxy.com/", "https://ghproxy.net/"]
    );
    assert_eq!(
        mirrors(" https://ghproxy.net/ ", &s, 1000),
        vec!["https://ghproxy.net/", "https://ghfast.top/", "https://gh-proxy.com/"]
    );
    let ms = vec!["https://a/".to_owned(), "https://ghfast.top/".to_owned()];
    assert_eq!(rank_mirrors(&ms, &s, 1000), vec!["https://ghfast.top/", "https://a/"]);
}

#[test]
fn candidate_order_depends_on_use() {
    let ms = vec!["https://m/".to_owned()];
    let d = source_candidates("https://o/x", &ms, true);
    assert_eq!(d.len(), 2);
    assert_eq!((d[0].url.as_str(), d[0].prefix.as_str(), d[0].label), ("https://m/https://o/x", "https://m/", "备用源"));
    assert_eq!((d[1].url.as_str(), d[1].prefix.as_str(), d[1].label), ("https://o/x", "", "官方源"));
    let p = source_candidates("https://o/x", &ms, false);
    assert_eq!(p[0].label, "官方源");
    assert_eq!(p[1].url, "https://m/https://o/x");
    assert_eq!(sources_failed(&vec!["官方源：a".to_owned(), "备用源：b".to_owned()]), "官方源：a；备用源：b");
}

#[test]
fn release_listing() {
    assert_eq!(listing_status(200), None);
    assert_eq!(listing_status(403).as_deref(), Some(RATE_LIMIT_MSG));
    assert_eq!(listing_status(429).as_deref(), Some(RATE_LIMIT_MSG));
    assert_eq!(listing_status(500).as_deref(), Some("查询 Releases 返回 HTTP 500"));
    let asset = |n: Option<&str>, u: Option<&str>, s: Option<u64>| AssetInfo {
        name: n.map(|x| x.to_owned()),
        url: u.map(|x| x.to_owned()),
        size: s,
    };
    let a = vec![asset(Some("notes.txt"), Some("u0"), Some(1)), asset(Some("X.ZIP"), Some("u1"), None)];
    let got = pick_zip_asset(&a, "t").unwrap();
    assert_eq!((got.tag.as_str(), got.asset_name.as_str(), got.url.as_str(), got.size), ("t", "X.ZIP", "u1", 0));
    assert!(pick_zip_asset(&vec![asset(Some("a.zip"), None, Some(3)), asset(Some("b.zip"), Some("u"), None)], "t").is_none());
    let rels = vec![
        ("dlss-1".to_owned(), a.clone()),
        ("dlssg-2".to_owned(), vec![asset(Some("x.txt"), Some("u"), None)]),
        ("dlssg-1".to_owned(), vec![asset(Some("g.zip"), Some("ug"), Some(9))]),
    ];
    let r = pick_release_zip(&rels, "dlssg-").unwrap();
    assert_eq!((r.tag.as_str(), r.url.as_str(), r.size), ("dlssg-1", "ug", 9));
    assert!(pick_release_zip(&rels, "nope").is_none());
}

#[test]
fn speed_targets_in_order() {
    let t = speed_test_targets();
    assert_eq!(t.len(), 5);
    assert_eq!(t[0].label, "官方源（raw）");
    assert_eq!(t[0].url, "https://raw.githubusercontent.com/sdli1995/dlssg_for_sm86/main/version.dll");
    assert_eq!(t[1].label, "gh-proxy.com");
    assert_eq!(t[1].url, "https://gh-proxy.com/https://raw.githubusercontent.com/sdli1995/dlssg_for_sm86/main/version.dll");
    assert_eq!(t[4].label, "官方源（Release 直链）");
    assert!(t[4].prefix.is_empty());
}

#[test]
fn runtime_plans() {
    let p = dlss_runtime_plan(&vec![false, true], &vec![100, 0]);
    assert_eq!(p.len(), 1);
    assert_eq!(p[0].dll_name, "nvngx_dlssg.dll");
    assert_eq!(p[0].size, 100);
    assert_eq!(p[0].url, "https://github.com/RankFTW/rhi-repo/releases/download/dlssg-310.9.1/nvngx_dlssg_310.9.1.zip");
    assert!(dlss_runtime_plan(&vec![true, true], &vec![0, 0]).is_empty());
    assert_eq!(runtime_deploy_plan(&vec![false, false]), (vec![], vec!["nvngx_dlssg.dll", "nvngx_dlss.dll"]));
    assert_eq!(runtime_deploy_plan(&vec![true, false]), (vec!["nvngx_dlssg.dll"], vec!["nvngx_dlss.dll"]));
    assert_eq!(runtime_deploy_plan(&vec![true, true]), (vec!["nvngx_dlssg.dll", "nvngx_dlss.dll"], vec![]));
    assert_eq!(runtime_kept_note("nvngx_dlss.dll"), "游戏目录已有 nvngx_dlss.dll，用游戏自带的那份（不覆盖）");
}

#[test]
fn ini_keys_read_and_written() {
    let t = "; c\r\n[Compatibility]\n# Router=X\n Router = SM86\nRouter=Z";
    assert_eq!(ini_get(t, "Router").as_deref(), Some("Z"));
    let t2 = "; c\n[Compatibility]\n# Router=X\n Router= SM86 \nRouter=Z";
    assert_eq!(ini_get(t2, "Router").as_deref(), Some("SM86"));
    assert_eq!(ini_set(t2, "Router", "SM75").as_deref(), Some("; c\n[Compatibility]\n# Router=X\nRouter=SM75\nRouter=SM75"));
    assert_eq!(ini_set("a=1\n", "Router", "SM75"), None);
    let set = ini_set("Router=SM86\n", "Router", "SM75").unwrap();
    assert_eq!(set, "Router=SM75\n");
    assert_eq!(ini_get(&set, "Router").as_deref(), Some("SM75"));
}

#[test]
fn ini_value_reads_back_after_set() {
    let t = "; c\r\n[Compatibility]\r\n# Router=X\r\n  Router = SM86\r\nOther=1\r\n\r\nRouter=Z";
    let set = ini_set(t, "Router", "  SM75 \t").unwrap();
    assert_eq!(set, "; c\r\n[Compatibility]\r\n# Router=X\r\n  Router = SM86\r\nOther=1\r\n\r\nRouter=  SM75 \t");
    assert_eq!(ini_get(&set, "Router").as_deref(), Some("SM75"));
    assert_eq!(ini_get(&set, "Other").as_deref(), Some("1"));
    let crlf = ini_set("Router=SM86\r\nX=1", "Router", "SM75").unwrap();
    assert_eq!(crlf, "Router=SM75\nX=1");
    assert_eq!(ini_get(&crlf, "Router").as_deref(), Some("SM75"));
    let empty_value = ini_set("Router=SM86\n", "Router", "").unwrap();
    assert_eq!(ini_get(&empty_value, "Router").as_deref(), Some(""));
}

#[test]
fn deploy_ini_plan() {
    assert_eq!(
        prepare_deploy_ini(None, GpuRoute::Sm75, None, "x.ini").unwrap_err(),
        "还没有下载 dlssg_sm86.ini, 请先点「下载 / 更新资产」"
    );
    let (plan, text) = prepare_deploy_ini(Some("Router=SM86\n"), GpuRoute::Sm86, None, "d.ini").unwrap();
    assert_eq!(plan.path, "d.ini");
    assert!(plan.changes.is_empty());
    assert_eq!(text, "Router=SM86\n");
    let (plan, text) = prepare_deploy_ini(Some("Router=SM75\n"), GpuRoute::Sm75, None, "d.ini").unwrap();
    assert!(plan.changes.is_empty());
    assert_eq!(text, "Router=SM75\n");
    let (plan, _) = prepare_deploy_ini(Some("Router=\n"), GpuRoute::Sm75, None, "d.ini").unwrap();
    assert_eq!(
        plan.changes,
        vec!["Router：上游默认 未读到 → 改为 SM75。原因：本机显卡是 RTX 20 / GTX 16 系，属于 Turing / SM75 架构，走 SM86 路由不会生效。".to_string()]
    );
}

#[test]
fn versions_shown_for_upstream() {
    assert_eq!(upstream_version(Some("# DLSSG Native 0.2.4"), Some("; Native 0.1.0")).as_deref(), Some("0.2.4"));
    assert_eq!(upstream_version(None, Some("; Native 0.1.0. Restart")).as_deref(), Some("0.1.0"));
    assert_eq!(upstream_version(Some("nothing"), None), None);
    assert_eq!(extract_version("Native 1.2.. x").as_deref(), Some("1.2"));
}

#[test]
fn probes() {
    assert_eq!(content_length_of(Some("581")), 581);
    assert_eq!(content_length_of(Some("x")), 0);
    assert_eq!(content_length_of(None), 0);
    let e = "b".repeat(64);
    let f = remote_from_head("dlssg_sm86.ini", 200, Some("581"), Some(&e), true).unwrap();
    assert_eq!((f.name.as_str(), f.size, f.etag.as_str(), f.etag_trusted), ("dlssg_sm86.ini", 581, e.as_str(), true));
    assert_eq!(remote_from_head("x", 404, None, Some(&e), true).unwrap_err(), "返回 HTTP 404");
    assert_eq!(remote_from_head("x", 200, None, Some("bad"), false).unwrap_err(), "没返回可用的 ETag");
    assert_eq!(probe_failed("x", "e"), "拿不到 x 的内容指纹（e）");
}

fn zip_with(name: &str, method: u16, data: &[u8], raw_len: u32) -> Vec<u8> {
    let mut z = Vec::new();
    let local_off = z.len() as u32;
    z.extend_from_slice(b"PK\x03\x04");
    z.extend_from_slice(&[0u8; 22]);
    z.extend_from_slice(&(name.len() as u16).to_le_bytes());
    z.extend_from_slice(&0u16.to_le_bytes());
    z.extend_from_slice(name.as_bytes());
    z.extend_from_slice(data);
    let cd = z.len() as u32;
    z.extend_from_slice(b"PK\x01\x02");
    z.extend_from_slice(&[0u8; 6]);
    z.extend_from_slice(&method.to_le_bytes());
    z.extend_from_slice(&[0u8; 8]);
    z.extend_from_slice(&(data.len() as u32).to_le_bytes());
    z.extend_from_slice(&raw_len.to_le_bytes());
    z.extend_from_slice(&(name.len() as u16).to_le_bytes());
    z.extend_from_slice(&[0u8; 12]);
    z.extend_from_slice(&local_off.to_le_bytes());
    z.extend_from_slice(name.as_bytes());
    let cd_len = z.len() as u32 - cd;
    z.extend_from_slice(b"PK\x05\x06");
    z.extend_from_slice(&[0u8; 6]);
    z.extend_from_slice(&1u16.to_le_bytes());
    z.extend_from_slice(&cd_len.to_le_bytes());
    z.extend_from_slice(&cd.to_le_bytes());
    z.extend_from_slice(&0u16.to_le_bytes());
    z
}

#[test]
fn zip_stored_entry() {
    let z = zip_with("dir/NVNGX_DLSS.DLL", 0, b"hello", 5);
    let (name, out) = zip_extract_dll(&z).unwrap();
    assert_eq!(name, "dir/NVNGX_DLSS.DLL");
    assert_eq!(out, b"hello");
}

#[test]
fn zip_deflated_entry() {
    let mut e = flate2::write::DeflateEncoder::new(Vec::new(), flate2::Compression::default());
    std::io::Write::write_all(&mut e, b"payload payload payload").unwrap();
    let comp = e.finish().unwrap();
    assert_ne!(comp, b"payload payload payload");
    let z = zip_with("a.dll", 8, &comp, 23);
    let (name, out) = zip_extract_dll(&z).unwrap();
    assert_eq!(name, "a.dll");
    assert_eq!(out, b"payload payload payload");
}

#[test]
fn zip_errors() {
    assert_eq!(zip_extract_dll(&[0u8; 10]).unwrap_err(), ZipError::TooSmall);
    assert_eq!(zip_extract_dll(&[0u8; 40]).unwrap_err(), ZipError::NoEnd);
    assert_eq!(zip_extract_dll(&zip_with("a.txt", 0, b"x", 1)).unwrap_err(), ZipError::NoDll);
    assert_eq!(zip_extract_dll(&zip_with("a.dll", 9, b"x", 1)).unwrap_err(), ZipError::Method(9));
    assert_eq!(zip_extract_dll(&zip_with("a.dll", 0, b"", 0)).unwrap_err(), ZipError::Empty);
    assert_eq!(zip_extract_dll(&zip_with("a.dll", 8, &[0xff, 0xff, 0xff], 1)).unwrap_err(), ZipError::Inflate);
    let mut z = zip_with("a.dll", 0, b"x", 1);
    let n = z.len();
    z[n - 6..n - 2].copy_from_slice(&(n as u32).to_le_bytes());
    assert_eq!(zip_extract_dll(&z).unwrap_err(), ZipError::DirOutOfRange);
    let mut z = zip_with("a.dll", 0, b"x", 1);
    z[0] = b'Q';
    assert_eq!(zip_extract_dll(&z).unwrap_err(), ZipError::LocalHeader);
    let mut z = zip_with("a.dll", 0, b"x", 1);
    let cd = 30 + 5 + 1;
    z[cd + 20..cd + 24].copy_from_slice(&1000u32.to_le_bytes());
    assert_eq!(zip_extract_dll(&z).unwrap_err(), ZipError::DataOutOfRange);
    assert_eq!(ZipError::Method(9).message(), "不支持的 zip 压缩方式 9");
    assert_eq!(ZipError::NoDll.message(), "zip 里没有 .dll 文件");
}

#[test]
fn source_attempts_stop_at_the_first_success_and_join_failures() {
    let mut errs: Vec<String> = Vec::new();
    assert!(matches!(framegen_manager::update::before_attempt(0, false), framegen_manager::update::SourceNext::TryNext(0)));
    assert!(matches!(
        framegen_manager::update::after_attempt(0, 3, false, false, "备用源", "timeout", &mut errs),
        framegen_manager::update::SourceNext::TryNext(1)
    ));
    assert!(matches!(
        framegen_manager::update::after_attempt(1, 3, true, false, "备用源", "", &mut errs),
        framegen_manager::update::SourceNext::Stop
    ));
    assert_eq!(errs, vec!["备用源：timeout".to_owned()]);
    match framegen_manager::update::after_attempt(2, 3, false, false, "官方源", "HTTP 404", &mut errs) {
        framegen_manager::update::SourceNext::GiveUp(m) => assert_eq!(m, "备用源：timeout；官方源：HTTP 404"),
        _ => panic!("expected to give up"),
    }
}

#[test]
fn a_cancelled_run_stops_with_the_cancellation_message() {
    let mut errs: Vec<String> = Vec::new();
    match framegen_manager::update::before_attempt(1, true) {
        framegen_manager::update::SourceNext::GiveUp(m) => assert_eq!(m, "已取消下载"),
        _ => panic!("expected to stop"),
    }
    match framegen_manager::update::after_attempt(0, 3, false, true, "备用源", "timeout", &mut errs) {
        framegen_manager::update::SourceNext::GiveUp(m) => assert_eq!(m, "已取消下载"),
        _ => panic!("expected to stop"),
    }
    assert!(errs.is_empty());
    assert!(matches!(
        framegen_manager::update::after_attempt(0, 3, true, true, "备用源", "", &mut errs),
        framegen_manager::update::SourceNext::Stop
    ));
}

#[test]
fn only_nvidia_signed_runtimes_are_kept() {
    assert_eq!(framegen_manager::update::runtime_verdict("DLSS", "nvngx_dlss.dll", framegen_manager::scan::FileIdentity::Nvidia), Ok(()));
    assert_eq!(
        framegen_manager::update::runtime_verdict("DLSS", "nvngx_dlss.dll", framegen_manager::scan::FileIdentity::Unsigned),
        Err("DLSS 解出来的 nvngx_dlss.dll 不是 NVIDIA 官方签名（判定为 无签名），已丢弃".to_owned())
    );
}
