use framegen_manager::deploy::{plan_orphan, DeployState, OrphanAction};
use framegen_manager::gpu::GpuAdapter;
use framegen_manager::importer::{build_rank, ini_sanity};
use framegen_manager::scan::{
    classify_gpu, is_known_proxy, is_steam_junk, manual_entry, pick_gpu_name, uninstall_is_steam,
    wegame_name_from_key, wegame_value_is_path_like, GpuRoute, PROXY_PRIORITY,
};
use framegen_manager::update::{
    deploy_ini_text, extract_version, ini_repo_path, is_newer, pick_latest, proxy_repo_path,
    rank_by_scores, source_label, split_custom_sources,
};
use framegen_manager::verify::{AUTHOR_CERT_NATIVE, AUTHOR_CERT_PROXY};

#[test]
fn is_newer_compares_three_numbers() {
    let cases: [(&str, &str, bool); 6] = [
        ("0.3.0", "0.2.0", true),
        ("v0.3.0", "0.2.0", true),
        ("0.2.0", "0.2.0", false),
        ("0.1.9", "0.2.0", false),
        ("0.2.10", "0.2.9", true),
        ("abc", "0.2.0", false),
    ];
    for (remote, local, want) in cases {
        assert_eq!(is_newer(remote, local), want, "is_newer({remote}, {local})");
    }
}

#[test]
fn pick_latest_takes_the_greatest() {
    let v = |xs: &[&str]| xs.iter().map(|s| s.to_string()).collect::<Vec<String>>();
    assert_eq!(pick_latest(v(&["0.3.0", "0.4.0", "0.2.0"])).as_deref(), Some("0.4.0"));
    assert_eq!(pick_latest(v(&["0.4.0", "0.3.0"])).as_deref(), Some("0.4.0"));
    assert_eq!(pick_latest(v(&["abc", "0.3.0"])).as_deref(), Some("0.3.0"));
    assert_eq!(pick_latest(v(&[])), None);
}

#[test]
fn extract_version_reads_both_heading_styles() {
    let cases: [(&str, Option<&str>); 4] = [
        ("# DLSSG Native 0.2.4\n", Some("0.2.4")),
        ("# DLSSG for SM86（Proxy）- 0.3.0 版本\n", Some("0.3.0")),
        ("# DLSSG for SM86 (proxy) - 0.3.0 Version\n", Some("0.3.0")),
        ("这一行没有任何版本号\n", None),
    ];
    for (text, want) in cases {
        assert_eq!(extract_version(text).as_deref(), want, "{text:?}");
    }
}

#[test]
fn repository_paths_of_both_builds() {
    assert_eq!(proxy_repo_path("version.dll", false), "version.dll");
    assert_eq!(proxy_repo_path("winmm.dll", false), "alternatives/winmm.dll");
    assert_eq!(proxy_repo_path("dbghelp.dll", false), "alternatives/dbghelp.dll");
    assert_eq!(proxy_repo_path("version.dll", true), "310.1/version.dll");
    assert_eq!(proxy_repo_path("dbghelp.dll", true), "310.1/alternatives/dbghelp.dll");
    assert_eq!(ini_repo_path(true), "dlssg_sm86.ini");
    assert_eq!(PROXY_PRIORITY.len(), 6);
    assert!(is_known_proxy("winhttp.dll") && is_known_proxy("d3d12.dll"));
    assert!(!is_known_proxy("nvngx_dlssg.dll"));
}

#[test]
fn sm75_rewrite_of_an_ini_with_router() {
    let old = "; Native 0.2.4\n[Compatibility]\nRouter=SM86\nKernelImage=PTX\n";
    let (text, changes) = deploy_ini_text(old, GpuRoute::Sm75, Some("NVIDIA GeForce RTX 2080"));
    assert!(text.contains("Router=SM75"));
    assert_eq!(text, "; Native 0.2.4\n[Compatibility]\nRouter=SM75\nKernelImage=PTX\n");
    assert_eq!(
        changes,
        vec!["Router：上游默认 SM86 → 改为 SM75。原因：本机显卡是 NVIDIA GeForce RTX 2080，属于 Turing / SM75 架构，走 SM86 路由不会生效。".to_string()]
    );
}

#[test]
fn sm75_deploy_of_an_ini_without_router_keeps_it() {
    let new = "; slim 0.3.0\n[Compatibility]\nPreset=Auto\n";
    let (text, changes) = deploy_ini_text(new, GpuRoute::Sm75, Some("NVIDIA GeForce RTX 2080"));
    assert!(text.contains("Preset=Auto"));
    assert_eq!(text, new);
    assert!(changes.is_empty());
}

#[test]
fn ini_structure_check() {
    assert!(ini_sanity("; c\n[General]\nEnabled=1\n[FrameGeneration]\nOptimized=1\n").is_ok());
    assert!(ini_sanity("garbage\nno equals sign\n").is_err());
    assert!(ini_sanity("").is_err());
    assert!(ini_sanity("[Unknown]\nKey=1\n").is_err());
}

#[test]
fn custom_sources_one_per_line() {
    let multi = split_custom_sources("https://a.example\nhttps://b.example/\n\nhttps://a.example/");
    assert_eq!(multi, vec!["https://a.example/".to_string(), "https://b.example/".to_string()]);
    assert!(split_custom_sources("随便写点什么").is_empty());
}

#[test]
fn build_rank_prefers_the_build_in_use() {
    assert_eq!(build_rank("dlssg_sm86.ini", false), 0);
    assert_eq!(build_rank("310.1/version.dll", false), 1);
    assert_eq!(build_rank("archive/0.2.4/version.dll", false), 2);
    assert_eq!(build_rank("310.1/version.dll", true), 0);
    assert_eq!(build_rank("version.dll", true), 1);
}

#[test]
fn both_author_thumbprints_are_listed() {
    assert_eq!(AUTHOR_CERT_NATIVE.len(), 40);
    assert_eq!(AUTHOR_CERT_PROXY.len(), 40);
}

#[test]
fn steam_runtime_filter() {
    let cases: [(&str, bool); 7] = [
        ("Proton Bus Simulator", false),
        ("Proton 9.0", true),
        ("Proton Experimental", true),
        ("Steam Linux Runtime 3.0 (sniper)", true),
        ("SteamVR", true),
        ("Steamworks Common Redistributables", true),
        ("Counter-Strike 2", false),
    ];
    for (name, want) in cases {
        assert_eq!(is_steam_junk(name), want, "{name}");
    }
    assert!(uninstall_is_steam("Steam"));
    assert!(!uninstall_is_steam("SteamVR"));
    assert!(!uninstall_is_steam("Steamworks"));
}

#[test]
fn wegame_names_and_values() {
    assert!(wegame_value_is_path_like("InstallPath"));
    assert!(!wegame_value_is_path_like("Name"));
    assert_eq!(wegame_name_from_key("铁甲雄兵(2000806)"), "铁甲雄兵");
    assert_eq!(wegame_name_from_key("DNF"), "DNF");
}

fn adapter(sub: &str, name: &str, ver: &str) -> GpuAdapter {
    GpuAdapter {
        class_sub: sub.to_owned(),
        driver_name: name.to_owned(),
        driver_version: ver.to_owned(),
        enum_key: format!("ENUM/{sub}"),
        hardware_id: "PCI-VEN-10DE".to_owned(),
        device_desc: None,
    }
}

#[test]
fn gpu_name_recognised_before_unrecognised() {
    let a = vec![
        adapter("0000", "NVIDIA GeForce GT 1030", "1"),
        adapter("0001", "NVIDIA GeForce RTX 3050", "2"),
    ];
    assert_eq!(pick_gpu_name(&a, None).as_deref(), Some("NVIDIA GeForce RTX 3050"));
}

#[test]
fn gpu_name_nvidia_smi_first() {
    let a = vec![adapter("0000", "NVIDIA GeForce GT 1030", "1")];
    assert_eq!(
        pick_gpu_name(&a, Some("NVIDIA GeForce RTX 3050".to_owned())).as_deref(),
        Some("NVIDIA GeForce RTX 3050")
    );
}

#[test]
fn gpu_name_newer_driver_first() {
    let a = vec![
        adapter("0000", "NVIDIA GeForce RTX 3070", "32.0.16.1692"),
        adapter("0001", "NVIDIA GeForce RTX 3080", "31.0.15.0000"),
    ];
    assert_eq!(pick_gpu_name(&a, None).as_deref(), Some("NVIDIA GeForce RTX 3070"));
}

#[test]
fn gpu_name_none_without_adapters() {
    assert_eq!(pick_gpu_name(&vec![], None), None);
    assert_eq!(pick_gpu_name(&vec![], Some("   ".to_owned())), None);
}

#[test]
fn gpu_routes() {
    assert_eq!(classify_gpu("NVIDIA GeForce RTX 3080"), GpuRoute::Sm86);
    assert_eq!(classify_gpu("NVIDIA GeForce RTX 2080"), GpuRoute::Sm75);
    assert_eq!(classify_gpu("NVIDIA GeForce GTX 1660 SUPER"), GpuRoute::Gtx16);
    assert_eq!(classify_gpu("NVIDIA GeForce RTX 4090"), GpuRoute::NotNeeded);
    assert_eq!(classify_gpu("AMD Radeon RX 7900"), GpuRoute::Unsupported);
    assert_eq!(classify_gpu("NVIDIA GeForce GT 1030"), GpuRoute::Unknown);
}

#[test]
fn manual_entry_named_after_directory() {
    assert_eq!(manual_entry("D:\\Games\\My Game").name, "My Game");
}

#[test]
fn state_labels() {
    let manual = DeployState::ManuallyInstalled { files: vec!["version.dll".to_owned()] };
    assert!(manual.label().contains("本工具无记录"));
    assert!(DeployState::NotDeployed.label().contains("未部署"));
}

#[test]
fn source_names() {
    assert_eq!(source_label(""), "官方源");
    assert_eq!(source_label("https://gh-proxy.com/"), "gh-proxy.com");
}

#[test]
fn rank_fast_unknown_slow() {
    let fast = "https://fast.example/".to_owned();
    let mid = "https://mid.example/".to_owned();
    let dead = "https://dead.example/".to_owned();
    let items = vec![(dead.clone(), Some(50u64)), (mid.clone(), None), (fast.clone(), Some(5000))];
    let ranked = rank_by_scores(&items);
    assert_eq!(ranked, vec![fast, mid, dead]);
}

#[test]
fn orphan_decisions() {
    assert_eq!(plan_orphan(true, false, true, true, false), OrphanAction::Remove);
    assert_eq!(plan_orphan(true, false, true, true, true), OrphanAction::RemoveButKeepRecord);
    assert_eq!(plan_orphan(true, true, true, true, true), OrphanAction::Keep);
    assert_eq!(plan_orphan(true, false, true, false, false), OrphanAction::Keep);
    assert_eq!(plan_orphan(false, false, true, true, false), OrphanAction::Keep);
    assert_eq!(plan_orphan(true, false, false, false, true), OrphanAction::Keep);
}
