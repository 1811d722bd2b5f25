use framegen_manager::flow::{
    ask_first, deploy_stop, hags_prompt_after_deploy, kernel_ac_note, DeployAsk, DeployStop,
};
use framegen_manager::gpu::HagsState;
use framegen_manager::scan::GpuRoute;
use framegen_manager::update::{zip_entry_data, zip_list, ZipError};

#[test]
fn questions_before_a_deployment() {
    assert!(matches!(ask_first(true, vec!["dinput8.dll".to_string()]), Some(DeployAsk::OldDriver)));
    match ask_first(false, vec!["dinput8.dll".to_string()]) {
        Some(DeployAsk::ExtraProxies(v)) => assert_eq!(v, vec!["dinput8.dll"]),
        other => panic!("unexpected {other:?}"),
    }
    assert!(ask_first(false, Vec::new()).is_none());
}

fn refusal(r: Option<DeployStop>) -> String {
    match r {
        Some(DeployStop::Refused(m)) => m,
        other => panic!("expected a refusal, got {other:?}"),
    }
}

#[test]
fn deployment_stops() {
    let all = vec![true, true];
    assert_eq!(
        refusal(deploy_stop(GpuRoute::Unsupported, false, false, "version.dll", true, &all)),
        "已阻止部署：检测到非 NVIDIA 显卡，本 Mod 完全不适用（需要 NVIDIA 驱动接口）"
    );
    assert_eq!(
        refusal(deploy_stop(GpuRoute::NotNeeded, false, false, "version.dll", true, &all)),
        "已阻止部署：RTX 40/50 系原生支持 DLSS 帧生成，不需要装本 Mod"
    );
    assert!(refusal(deploy_stop(GpuRoute::Gtx16, false, false, "version.dll", true, &all)).contains("GTX 16"));
    assert!(matches!(
        deploy_stop(GpuRoute::Sm86, true, false, "version.dll", true, &all),
        Some(DeployStop::AskKernelAntiCheat)
    ));
    assert!(deploy_stop(GpuRoute::Sm86, true, true, "version.dll", true, &all).is_none());
    assert_eq!(
        refusal(deploy_stop(GpuRoute::Sm75, false, false, "winmm.dll", false, &all)),
        "缺少 winmm.dll，请先在上方「上游资产」点「下载 / 更新资产」"
    );
    assert_eq!(
        refusal(deploy_stop(GpuRoute::Unknown, false, false, "winmm.dll", true, &vec![false, false])),
        "缺少 DLSS 帧生成运行库（nvngx_dlssg.dll），请先点「下载 / 更新资产」"
    );
    assert_eq!(
        refusal(deploy_stop(GpuRoute::Sm86, false, false, "winmm.dll", true, &vec![true, false])),
        "缺少 DLSS 超分运行库（nvngx_dlss.dll），请先点「下载 / 更新资产」"
    );
    assert!(deploy_stop(GpuRoute::Sm86, false, false, "version.dll", true, &all).is_none());
}

#[test]
fn notes_after_a_deployment() {
    assert_eq!(
        kernel_ac_note(&vec!["BattlEye".to_string(), "Easy Anti-Cheat".to_string()]),
        "⚠ 用户确认在内核级反作弊（BattlEye、Easy Anti-Cheat）的情况下继续部署，风险自负"
    );
    assert!(hags_prompt_after_deploy(HagsState::Disabled));
    assert!(!hags_prompt_after_deploy(HagsState::Unknown));
    assert!(!hags_prompt_after_deploy(HagsState::Enabled));
}

/// An archive of the given entries: (name, method, stored bytes).
fn zip_of(entries: &[(&str, u16, &[u8])]) -> Vec<u8> {
    let mut z = Vec::new();
    let mut offs = Vec::new();
    for (name, _method, data) in entries {
        offs.push(z.len() as u32);
        z.extend_from_slice(b"PK\x03\x04");
        z.extend_from_slice(&[0u8; 22]);
        z.extend_from_slice(&(name.len() as u16).to_le_bytes());
        z.extend_from_slice(&0u16.to_le_bytes());
        z.extend_from_slice(name.as_bytes());
        z.extend_from_slice(data);
    }
    let cd = z.len() as u32;
    for (i, (name, method, data)) in entries.iter().enumerate() {
        z.extend_from_slice(b"PK\x01\x02");
        z.extend_from_slice(&[0u8; 6]);
        z.extend_from_slice(&method.to_le_bytes());
        z.extend_from_slice(&[0u8; 8]);
        z.extend_from_slice(&(data.len() as u32).to_le_bytes());
        z.extend_from_slice(&(data.len() as u32).to_le_bytes());
        z.extend_from_slice(&(name.len() as u16).to_le_bytes());
        z.extend_from_slice(&[0u8; 12]);
        z.extend_from_slice(&offs[i].to_le_bytes());
        z.extend_from_slice(name.as_bytes());
    }
    let cd_len = z.len() as u32 - cd;
    z.extend_from_slice(b"PK\x05\x06");
    z.extend_from_slice(&[0u8; 6]);
    z.extend_from_slice(&(entries.len() as u16).to_le_bytes());
    z.extend_from_slice(&cd_len.to_le_bytes());
    z.extend_from_slice(&cd.to_le_bytes());
    z.extend_from_slice(&0u16.to_le_bytes());
    z
}

#[test]
fn zip_lists_every_entry_and_reads_each() {
    let mut e = flate2::write::DeflateEncoder::new(Vec::new(), flate2::Compression::default());
    std::io::Write::write_all(&mut e, b"[Compatibility]\nRouter=SM86\n").unwrap();
    let comp = e.finish().unwrap();
    let z = zip_of(&[
        ("repo/README.md", 0, &b"# readme"[..]),
        ("repo/dlssg_sm86.ini", 8, &comp[..]),
        ("repo/alternatives/winmm.dll", 0, &b"MZdll"[..]),
        ("repo/empty/", 0, &b""[..]),
    ]);
    let items = zip_list(&z).unwrap();
    let names: Vec<&str> = items.iter().map(|i| i.name.as_str()).collect();
    assert_eq!(names, vec!["repo/README.md", "repo/dlssg_sm86.ini", "repo/alternatives/winmm.dll", "repo/empty/"]);
    assert_eq!(zip_entry_data(&z, &items[0]).unwrap(), b"# readme");
    assert_eq!(zip_entry_data(&z, &items[1]).unwrap(), b"[Compatibility]\nRouter=SM86\n");
    assert_eq!(zip_entry_data(&z, &items[2]).unwrap(), b"MZdll");
    assert!(zip_entry_data(&z, &items[3]).unwrap().is_empty());
}

#[test]
fn zip_list_errors() {
    assert_eq!(zip_list(&[0u8; 10]).unwrap_err(), ZipError::TooSmall);
    assert_eq!(zip_list(&[0u8; 40]).unwrap_err(), ZipError::NoEnd);
    let z = zip_of(&[("a.bin", 9, &b"x"[..])]);
    let items = zip_list(&z).unwrap();
    assert_eq!(zip_entry_data(&z, &items[0]).unwrap_err(), ZipError::Method(9));
    let mut broken = z.clone();
    broken[0] = b'Q';
    assert_eq!(zip_entry_data(&broken, &items[0]).unwrap_err(), ZipError::LocalHeader);
    // A directory that ends early lists what it holds up to there.
    let two = zip_of(&[("a", 0, &b"1"[..]), ("b", 0, &b"2"[..])]);
    let cd = u32::from_le_bytes(two[two.len() - 6..two.len() - 2].try_into().unwrap()) as usize;
    let mut cut = two.clone();
    let second = cd + 46 + 1;
    cut[second] = b'X';
    let items = zip_list(&cut).unwrap();
    assert_eq!(items.len(), 1);
    assert_eq!(items[0].name, "a");
}

#[test]
fn helper_fields_decide_the_outcome() {
    assert_eq!(framegen_manager::gpu::helper_outcome_of(Some((Some(true), Some("done".to_owned())))), Ok("done".to_owned()));
    assert_eq!(framegen_manager::gpu::helper_outcome_of(Some((None, None))), Err("(无消息)".to_owned()));
    assert_eq!(framegen_manager::gpu::helper_outcome_of(None), Err("子进程返回的内容无法解析".to_owned()));
    assert!(framegen_manager::gpu::preset_ok(framegen_manager::gpu::PRESETS[0]));
    assert!(!framegen_manager::gpu::preset_ok("Not A GPU"));
}
