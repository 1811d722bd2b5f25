use std::collections::BTreeMap;

use framegen_manager::deploy::{
    deploy, deploy_message, find_extra_own_proxies, restore, restore_message, restore_with, state_of,
    BackupEntry, BackupManifest, DeployError, DeployFile, DeployInput, DeployState, ExtraFacts,
    PayloadFacts, PrevFacts, ProxyFacts, RestoreError, RestoreFacts, PROXY_ENTRIES,
};
use framegen_manager::scan::FileIdentity;
use framegen_manager::util::sha256_hex;

#[derive(Clone, Debug)]
struct Disk {
    dir: BTreeMap<String, Vec<u8>>,
    store: BTreeMap<String, Vec<u8>>,
    manifest: Option<BackupManifest>,
}

fn ours(bytes: &[u8]) -> bool {
    bytes.starts_with(b"OURS")
}

fn identity(bytes: &[u8]) -> FileIdentity {
    if ours(bytes) {
        FileIdentity::ThisProject
    } else {
        FileIdentity::OtherSigned
    }
}

fn disk(files: &[(&str, &[u8])]) -> Disk {
    Disk {
        dir: files.iter().map(|(n, b)| (n.to_string(), b.to_vec())).collect(),
        store: BTreeMap::new(),
        manifest: None,
    }
}

fn input(d: &Disk, proxy: &str, payload: &[(&str, &[u8])]) -> DeployInput {
    DeployInput {
        target_is_dir: true,
        target_dir: "D:\\Game".to_owned(),
        proxy: proxy.to_owned(),
        files: payload
            .iter()
            .map(|(n, b)| PayloadFacts {
                dest_name: n.to_string(),
                src: format!("C:\\assets\\{n}"),
                src_present: true,
                src_bytes: Some(b.to_vec()),
                dst_present: d.dir.contains_key(*n),
                dst_identity: d.dir.get(*n).map(|b| identity(b)).unwrap_or(FileIdentity::Unknown),
                dst_locked: false,
                dst_bytes: d.dir.get(*n).cloned(),
            })
            .collect(),
        proxies: PROXY_ENTRIES
            .iter()
            .map(|n| ProxyFacts {
                name: n.to_string(),
                present: d.dir.contains_key(*n),
                ours: d.dir.get(*n).map(|b| ours(b)).unwrap_or(false),
            })
            .collect(),
        prev: d.manifest.as_ref().map(|m| {
            m.files
                .iter()
                .map(|e| PrevFacts {
                    entry: e.clone(),
                    backup_present: e.backup_name.as_ref().map(|b| d.store.contains_key(b)).unwrap_or(false),
                    current: d.dir.get(&e.rel_path).cloned(),
                })
                .collect()
        }),
        extras: Vec::new(),
        now: "2026-01-01 00:00:00 UTC".to_owned(),
    }
}

fn apply_deploy(d: &mut Disk, inp: &DeployInput) -> String {
    let plan = deploy(inp).expect("deploy refused");
    for b in &plan.backups {
        d.store.insert(b.backup_name.clone(), b.bytes.clone());
    }
    for w in &plan.writes {
        assert_eq!(w.sha256, sha256_hex(&w.bytes));
        d.dir.insert(w.name.clone(), w.bytes.clone());
    }
    for r in &plan.removals {
        d.dir.remove(r);
    }
    let msg = deploy_message(&plan, &plan.removals);
    d.manifest = Some(plan.manifest);
    msg
}

fn facts(d: &Disk) -> Vec<RestoreFacts> {
    d.manifest
        .as_ref()
        .unwrap()
        .files
        .iter()
        .map(|e| RestoreFacts {
            entry: e.clone(),
            present: d.dir.contains_key(&e.rel_path),
            backup: e.backup_name.as_ref().and_then(|b| d.store.get(b).cloned()),
        })
        .collect()
}

fn apply_restore(d: &mut Disk) {
    let f = facts(d);
    let plan = restore("D:\\Game", Some(&f)).expect("no record");
    assert!(plan.error.is_none());
    for r in &plan.removals {
        d.dir.remove(r);
    }
    for w in &plan.writes {
        d.dir.insert(w.name.clone(), w.bytes.clone());
    }
    d.manifest = None;
}

#[test]
fn deploy_then_restore_gives_the_directory_back() {
    let mut d = disk(&[("dlssg_sm86.ini", b"ORIGINAL_INI_FROM_USER"), ("game.exe", b"EXE")]);
    let before = d.dir.clone();
    let inp = input(&d, "version.dll", &[("version.dll", b"OURS_DLL_V1"), ("dlssg_sm86.ini", b"FAKE_INI_V1")]);
    let msg = apply_deploy(&mut d, &inp);
    assert_eq!(msg, "已部署 2 个文件 -> D:\\Game：version.dll、dlssg_sm86.ini");
    assert_eq!(d.dir["version.dll"], b"OURS_DLL_V1");
    assert_eq!(d.dir["dlssg_sm86.ini"], b"FAKE_INI_V1");
    assert_eq!(d.store["dlssg_sm86.ini.bak"], b"ORIGINAL_INI_FROM_USER");
    let m = d.manifest.clone().unwrap();
    assert_eq!(m.proxy_name, "version.dll");
    assert_eq!(m.files.len(), 2);
    assert!(!m.files[0].existed_before && m.files[0].backup_name.is_none());
    assert!(m.files[1].existed_before);
    assert_eq!(m.files[1].backup_name.as_deref(), Some("dlssg_sm86.ini.bak"));
    assert_eq!(m.files[1].original_sha256.as_deref(), Some(sha256_hex(b"ORIGINAL_INI_FROM_USER").as_str()));
    apply_restore(&mut d);
    assert_eq!(d.dir, before);
}

#[test]
fn a_name_listed_twice_still_restores() {
    let mut d = disk(&[("dlssg_sm86.ini", b"ORIGINAL_INI_FROM_USER"), ("game.exe", b"EXE")]);
    let before = d.dir.clone();
    let inp = input(
        &d,
        "version.dll",
        &[("version.dll", b"OURS_DLL_V1"), ("dlssg_sm86.ini", b"FAKE_INI_V1"), ("dlssg_sm86.ini", b"FAKE_INI_V1")],
    );
    apply_deploy(&mut d, &inp);
    let m = d.manifest.clone().unwrap();
    assert_eq!(m.files.len(), 3);
    assert_eq!(m.files[1].backup_name, m.files[2].backup_name);
    assert_eq!(d.store["dlssg_sm86.ini.bak"], b"ORIGINAL_INI_FROM_USER");
    apply_restore(&mut d);
    assert_eq!(d.dir, before);
}

#[test]
fn redeploy_keeps_the_first_backup() {
    let mut d = disk(&[("dlssg_sm86.ini", b"ORIGINAL_INI_FROM_USER")]);
    let before = d.dir.clone();
    let i1 = input(&d, "version.dll", &[("version.dll", b"OURS_V1"), ("dlssg_sm86.ini", b"INI_V1")]);
    apply_deploy(&mut d, &i1);
    let i2 = input(&d, "version.dll", &[("version.dll", b"OURS_V2"), ("dlssg_sm86.ini", b"INI_V2")]);
    let msg = apply_deploy(&mut d, &i2);
    assert_eq!(msg, "已部署 2 个文件 -> D:\\Game：version.dll、dlssg_sm86.ini | 已覆盖本项目的旧文件：version.dll");
    assert_eq!(d.store["dlssg_sm86.ini.bak"], b"ORIGINAL_INI_FROM_USER");
    assert_eq!(d.dir["dlssg_sm86.ini"], b"INI_V2");
    apply_restore(&mut d);
    assert_eq!(d.dir, before);
}

#[test]
fn switching_entry_removes_the_old_proxy() {
    let mut d = disk(&[("game.exe", b"EXE")]);
    let before = d.dir.clone();
    let i1 = input(&d, "version.dll", &[("version.dll", b"OURS_V1")]);
    apply_deploy(&mut d, &i1);
    let i2 = input(&d, "winmm.dll", &[("winmm.dll", b"OURS_W1")]);
    let plan = deploy(&i2).unwrap();
    assert_eq!(plan.removals, vec!["version.dll".to_owned()]);
    apply_deploy(&mut d, &i2);
    assert!(!d.dir.contains_key("version.dll"));
    assert_eq!(d.dir["winmm.dll"], b"OURS_W1");
    apply_restore(&mut d);
    assert_eq!(d.dir, before);
}

#[test]
fn a_replaced_original_proxy_keeps_its_record() {
    let mut d = disk(&[("version.dll", b"OURS_HAND_INSTALLED")]);
    let before = d.dir.clone();
    let i1 = input(&d, "version.dll", &[("version.dll", b"OURS_V1")]);
    apply_deploy(&mut d, &i1);
    assert_eq!(d.store["version.dll.bak"], b"OURS_HAND_INSTALLED");
    let i2 = input(&d, "winmm.dll", &[("winmm.dll", b"OURS_W1")]);
    apply_deploy(&mut d, &i2);
    assert!(!d.dir.contains_key("version.dll"));
    let m = d.manifest.clone().unwrap();
    assert!(m.files.iter().any(|e| e.rel_path == "version.dll" && e.existed_before));
    apply_restore(&mut d);
    assert_eq!(d.dir, before);
}

#[test]
fn foreign_files_are_noted() {
    let d = disk(&[("dxgi.dll", b"RESHADE"), ("nvngx_dlss.dll", b"GAME_RUNTIME")]);
    let inp = input(&d, "version.dll", &[("version.dll", b"OURS_V1"), ("nvngx_dlss.dll", b"NV")]);
    let plan = deploy(&inp).unwrap();
    assert_eq!(
        plan.notes,
        vec![
            "已覆盖游戏原有的同名文件（已备份）：nvngx_dlss.dll（其他签名者）".to_owned(),
            "目录里还有 dxgi.dll，不是本项目文件，建议确认是否冲突".to_owned(),
        ]
    );
}

fn refused(inp: &DeployInput) -> DeployError {
    match deploy(inp) {
        Ok(_) => panic!("deployment was not refused"),
        Err(e) => e,
    }
}

#[test]
fn deploy_refusals() {
    let d = disk(&[]);
    let mut inp = input(&d, "version.dll", &[("version.dll", b"OURS")]);
    inp.target_is_dir = false;
    assert_eq!(refused(&inp).message(), "目标目录不存在: D:\\Game");

    let inp = input(&d, "abc.dll", &[("version.dll", b"OURS")]);
    assert_eq!(refused(&inp).message(), "不支持的代理入口: abc.dll");

    let inp = input(&d, "version.dll", &[]);
    assert_eq!(refused(&inp).message(), "没有要部署的文件");

    let mut inp = input(&d, "version.dll", &[("version.dll", b"OURS")]);
    inp.files[0].src_present = false;
    assert_eq!(refused(&inp).message(), "缺少源文件: C:\\assets\\version.dll");

    let f = disk(&[("version.dll", b"SOMEONE_ELSE")]);
    let inp = input(&f, "version.dll", &[("version.dll", b"OURS")]);
    assert_eq!(
        refused(&inp).message(),
        "version.dll 已存在，签名者是「其他签名者」，不是本项目的文件，拒绝覆盖。请换个代理入口，或先手动备份/移除它。"
    );

    let o = disk(&[("version.dll", b"OURS_OLD")]);
    let mut inp = input(&o, "version.dll", &[("version.dll", b"OURS")]);
    inp.files[0].dst_locked = true;
    assert_eq!(refused(&inp).message(), "version.dll 正被占用，请先完全退出游戏。");

    let mut inp = input(&d, "version.dll", &[("version.dll", b"OURS")]);
    inp.files[0].src_bytes = None;
    assert_eq!(refused(&inp).message(), "读取 C:\\assets\\version.dll");

    let mut inp = input(&o, "version.dll", &[("version.dll", b"OURS")]);
    inp.files[0].dst_bytes = None;
    assert_eq!(refused(&inp).message(), "备份 version.dll");

    assert_eq!(
        DeployError::NotOurs { name: "version.dll".to_owned() }.message(),
        "version.dll 已存在且不是本工具部署的，拒绝覆盖。"
    );
}

#[test]
fn restore_refusals() {
    assert_eq!(
        restore("D:\\Game", None).unwrap_err().message(),
        "没有找到本工具对该目录的部署记录（D:\\Game）"
    );
    let mut d = disk(&[("dlssg_sm86.ini", b"ORIGINAL")]);
    let inp = input(&d, "version.dll", &[("dlssg_sm86.ini", b"NEW")]);
    apply_deploy(&mut d, &inp);
    let mut f = facts(&d);
    f[0].backup = None;
    let plan = restore_with(&f);
    assert_eq!(plan.removals, vec!["dlssg_sm86.ini".to_owned()]);
    assert!(plan.writes.is_empty());
    assert_eq!(plan.error.unwrap().message(), "读取备份 dlssg_sm86.ini.bak");
    let mut f = facts(&d);
    f[0].backup = Some(b"TAMPERED".to_vec());
    match restore_with(&f).error {
        Some(RestoreError::Corrupt { name }) => assert_eq!(name, "dlssg_sm86.ini.bak"),
        other => panic!("unexpected {other:?}"),
    }
    assert_eq!(
        RestoreError::Corrupt { name: "a.bak".to_owned() }.message(),
        "备份 a.bak 自身已损坏，中止还原"
    );
    assert_eq!(restore_message(2, 1), "已还原：移除 2 个部署文件，恢复 1 个原始文件");
}

#[test]
fn extra_own_proxies_and_states() {
    let d = disk(&[("winmm.dll", b"OURS_HAND"), ("dxgi.dll", b"RESHADE")]);
    let inp = input(&d, "version.dll", &[("version.dll", b"OURS")]);
    assert_eq!(find_extra_own_proxies(&inp.proxies, "version.dll", &vec![]), vec!["winmm.dll".to_owned()]);
    assert!(find_extra_own_proxies(&inp.proxies, "version.dll", &vec!["winmm.dll".to_owned()]).is_empty());
    assert_eq!(
        state_of(None, &inp.proxies, &vec![true, false]),
        DeployState::ManuallyInstalled { files: vec!["winmm.dll".to_owned(), "nvngx_dlssg.dll".to_owned()] }
    );
    let e = disk(&[("dxgi.dll", b"RESHADE")]);
    let inp = input(&e, "version.dll", &[]);
    assert_eq!(state_of(None, &inp.proxies, &vec![false, false]), DeployState::Occupied { files: vec!["dxgi.dll".to_owned()] });
    assert_eq!(
        state_of(Some(("version.dll".to_owned(), "t".to_owned())), &inp.proxies, &vec![]).label(),
        "已部署 (version.dll)"
    );
    assert_eq!(DeployState::Occupied { files: vec!["a".to_owned(), "b".to_owned()] }.label(), "入口被占用: a, b");
    let f = DeployFile::new("version.dll", "C:\\x");
    assert_eq!((f.dest_name.as_str(), f.src.as_str()), ("version.dll", "C:\\x"));
}

#[test]
fn removing_a_hand_installed_proxy_backs_it_up() {
    let mut d = disk(&[("winmm.dll", b"OURS_HAND")]);
    let before = d.dir.clone();
    let mut inp = input(&d, "version.dll", &[("version.dll", b"OURS_V1")]);
    inp.extras = vec![ExtraFacts { name: "winmm.dll".to_owned(), present: true, bytes: Some(b"OURS_HAND".to_vec()) }];
    let msg = apply_deploy(&mut d, &inp);
    assert!(msg.ends_with("已移除上次部署、这次不用的代理入口：winmm.dll（避免同时存在两个代理）"));
    assert!(!d.dir.contains_key("winmm.dll"));
    assert_eq!(d.store["winmm.dll.bak"], b"OURS_HAND");
    apply_restore(&mut d);
    assert_eq!(d.dir, before);
    let _ = BackupEntry {
        rel_path: String::new(),
        existed_before: false,
        backup_name: None,
        original_sha256: None,
        deployed_sha256: String::new(),
    };
}
