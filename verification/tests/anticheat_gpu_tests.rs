use framegen_manager::anticheat::{check_flat, scan_services, service_hit, AcReport, AcTier};
use framegen_manager::gpu::{
    apply, apply_message, class_instance_ok, detect_driver, display_name, elevated_args,
    enum_key_of, fmt_version, has_backup_for, hags_from_value, hags_settings_uri, instance_ok,
    is_windows_11, parse_marketing_version, parse_windows_version, pci_device_ok, primary,
    restore, restore_mode, Backup, BackupEntry, GpuAdapter, GpuError, HagsState, Op, RestoreTo,
};

fn adapter(driver_name: &str, version: &str, key: &str, desc: Option<&str>) -> GpuAdapter {
    GpuAdapter {
        class_sub: "0000".to_string(),
        driver_name: driver_name.to_string(),
        driver_version: version.to_string(),
        enum_key: key.to_string(),
        hardware_id: "PCI\\VEN_10DE&DEV_2484".to_string(),
        device_desc: desc.map(|d| d.to_string()),
    }
}

#[test]
fn tier_labels() {
    assert_eq!(AcTier::NotDetected.label(), "未检出");
    assert_eq!(AcTier::UserMode.label(), "用户态反作弊");
    assert_eq!(AcTier::Kernel.label(), "内核级反作弊");
}

#[test]
fn verdict_takes_the_highest_tier() {
    let mut r = AcReport::new();
    assert_eq!(r.verdict(), AcTier::NotDetected);
    assert!(!r.is_blocked());
    r.push("PunkBuster A", AcTier::UserMode, "x".to_string());
    assert_eq!(r.verdict(), AcTier::UserMode);
    assert!(!r.is_blocked());
    r.push("BattlEye", AcTier::Kernel, "y".to_string());
    assert_eq!(r.verdict(), AcTier::Kernel);
    assert!(r.is_blocked());
}

#[test]
fn push_keeps_one_finding_per_name() {
    let mut r = AcReport::new();
    r.push("BattlEye", AcTier::UserMode, "first".to_string());
    r.push("BattlEye", AcTier::Kernel, "second".to_string());
    assert_eq!(r.hits.len(), 1);
    assert_eq!(r.hits[0].evidence, "first");
    assert_eq!(r.hits[0].tier, AcTier::UserMode);
}

#[test]
fn merge_adds_only_new_names_in_order() {
    let mut a = AcReport::new();
    a.push("A", AcTier::UserMode, "a".to_string());
    let mut b = AcReport::new();
    b.push("B", AcTier::Kernel, "b".to_string());
    b.push("A", AcTier::Kernel, "a2".to_string());
    b.push("C", AcTier::UserMode, "c".to_string());
    a.merge(b);
    let names: Vec<&str> = a.hits.iter().map(|h| h.name.as_str()).collect();
    assert_eq!(names, vec!["A", "B", "C"]);
    assert_eq!(a.hits[0].evidence, "a");
    assert_eq!(a.verdict(), AcTier::Kernel);
}

#[test]
fn service_hit_names_and_tiers() {
    let h = service_hit("BEDaisy", 1, 3).unwrap();
    assert_eq!(h.name, "BattlEye 内核驱动 (BEDaisy)");
    assert_eq!(h.tier, AcTier::Kernel);
    assert_eq!(h.evidence, "注册表服务 BEDaisy [内核驱动] Type=0x1 Start=3");

    let h = service_hit("BEService", 16, 3).unwrap();
    assert_eq!(h.name, "BattlEye 服务 (BEService)");
    assert_eq!(h.tier, AcTier::UserMode);
    assert_eq!(h.evidence, "注册表服务 BEService [服务] Type=0x10 Start=3");

    // A user-mode pattern becomes kernel-level when the service is a driver.
    let h = service_hit("vgc", 1, 0).unwrap();
    assert_eq!(h.tier, AcTier::Kernel);

    // The first matching pattern decides: EOS before plain EAC.
    let h = service_hit("EasyAntiCheat_EOS", 16, 2).unwrap();
    assert_eq!(h.name, "Easy Anti-Cheat (EOS)");

    assert!(service_hit("Spooler", 16, 2).is_none());
}

#[test]
fn scan_services_records_each_anticheat_once() {
    let services = vec![
        ("Spooler".to_string(), 16, 2),
        ("BEService".to_string(), 16, 3),
        ("BEService_x64".to_string(), 16, 3),
        ("vgk".to_string(), 1, 0),
    ];
    let r = scan_services(&services);
    assert_eq!(r.hits.len(), 2);
    assert_eq!(r.hits[0].name, "BattlEye 服务 (BEService)");
    assert_eq!(r.hits[1].name, "Riot Vanguard 内核驱动 (vgk)");
    assert!(r.is_blocked());
}

#[test]
fn check_flat_reports_marker_dirs_and_files() {
    let mut r = AcReport::new();
    let dirs = vec![true, false, false, false, false];
    let files = vec![false, false, true, false, false, false, false];
    check_flat("D:\\Games\\X", &dirs, &files, &mut r);
    assert_eq!(r.hits.len(), 2);
    assert_eq!(r.hits[0].name, "Easy Anti-Cheat (EAC)");
    assert_eq!(r.hits[0].evidence, "目录存在: D:\\Games\\X\\EasyAntiCheat");
    assert_eq!(r.hits[1].name, "BattlEye 内核驱动");
    assert_eq!(r.hits[1].evidence, "文件存在: D:\\Games\\X\\BEDaisy.sys");
    assert!(r.hits.iter().all(|h| h.tier == AcTier::Kernel));

    let mut empty = AcReport::new();
    check_flat("D:\\Games\\Y\\", &vec![false; 5], &vec![false; 7], &mut empty);
    assert!(empty.hits.is_empty());
}

#[test]
fn windows_driver_versions() {
    assert_eq!(parse_windows_version("32.0.16.1692"), Some((616, 92)));
    assert_eq!(parse_windows_version("31.0.15.5555"), Some((555, 55)));
    assert_eq!(parse_windows_version("1.2"), None);
}

#[test]
fn marketing_versions() {
    assert_eq!(parse_marketing_version(" 616.92 \n"), Some((616, 92)));
    assert_eq!(parse_marketing_version("555.0"), Some((555, 0)));
    assert_eq!(parse_marketing_version("616"), None);
    assert_eq!(parse_marketing_version("a.1"), None);
}

#[test]
fn version_formatting() {
    assert_eq!(fmt_version((616, 92)), "616.92");
    assert_eq!(fmt_version((555, 0)), "555.00");
    assert_eq!(fmt_version((560, 5)), "560.05");
    for v in [(616u32, 92u32), (555, 0), (560, 5), (0, 0), (u32::MAX, u32::MAX), (7, 100)] {
        assert_eq!(framegen_manager::gpu::parse_marketing_version(&fmt_version(v)), Some(v));
    }
}

#[test]
fn display_names_drop_the_indirect_part() {
    assert_eq!(
        display_name("@oem19.inf,%nvidia_dev.2484%;NVIDIA GeForce RTX 3070"),
        "NVIDIA GeForce RTX 3070"
    );
    assert_eq!(display_name("  NVIDIA GeForce RTX 4090 "), "NVIDIA GeForce RTX 4090");
    assert_eq!(display_name("a;b;"), "");
}

#[test]
fn current_name_and_spoofed() {
    let a = adapter(
        "NVIDIA GeForce RTX 3070",
        "32.0.16.1692",
        "K",
        Some("@oem.inf,%x%;NVIDIA GeForce RTX 5090"),
    );
    assert_eq!(a.current_name().as_deref(), Some("NVIDIA GeForce RTX 5090"));
    assert!(a.spoofed());
    let b = adapter("NVIDIA GeForce RTX 3070", "", "K", Some("nvidia geforce rtx 3070"));
    assert!(!b.spoofed());
    let c = adapter("NVIDIA GeForce RTX 3070", "", "K", None);
    assert_eq!(c.current_name(), None);
    assert!(!c.spoofed());
}

#[test]
fn primary_prefers_the_first_nvidia_adapter() {
    let v = vec![
        adapter("Intel(R) UHD Graphics", "", "A", None),
        adapter("NVIDIA GeForce RTX 3060", "", "B", None),
        adapter("NVIDIA GeForce RTX 3070", "", "C", None),
    ];
    assert_eq!(primary(&v), Some(1));
    let w = vec![adapter("AMD Radeon", "", "A", None)];
    assert_eq!(primary(&w), Some(0));
    assert_eq!(primary(&Vec::new()), None);
}

#[test]
fn detect_driver_prefers_smi_then_registry() {
    let v = vec![adapter("NVIDIA GeForce RTX 3070", "32.0.16.1692", "K", None)];
    let d = detect_driver(&v, Some("610.10\n".to_string())).unwrap();
    assert_eq!(d.version, (610, 10));
    assert_eq!(d.marketing, "610.10");
    assert_eq!(d.source, "nvidia-smi");
    assert_eq!(d.windows.as_deref(), Some("32.0.16.1692"));

    let d = detect_driver(&v, None).unwrap();
    assert_eq!(d.version, (616, 92));
    assert_eq!(d.source, "注册表");
    assert!(!d.too_old());

    let old = vec![adapter("NVIDIA GeForce RTX 3070", "31.0.15.3713", "K", None)];
    let d = detect_driver(&old, Some("garbage".to_string())).unwrap();
    assert_eq!(d.version, (537, 13));
    assert!(d.too_old());

    assert!(detect_driver(&Vec::new(), None).is_none());
}

#[test]
fn gpu_scheduling_states() {
    assert_eq!(hags_from_value(Some(2)), HagsState::Enabled);
    assert_eq!(hags_from_value(Some(1)), HagsState::Disabled);
    assert_eq!(hags_from_value(Some(0)), HagsState::Unknown);
    assert_eq!(hags_from_value(None), HagsState::Unknown);
    assert_eq!(HagsState::Enabled.label(), "已开启");
    assert!(is_windows_11(Some(22631)));
    assert!(!is_windows_11(Some(19045)));
    assert!(!is_windows_11(None));
    assert_eq!(hags_settings_uri(Some(22000)), "ms-settings:display-advancedgraphics-default");
    assert_eq!(hags_settings_uri(None), "ms-settings:display-advancedgraphics");
}

#[test]
fn apply_refuses_names_outside_the_presets() {
    let a = adapter("NVIDIA GeForce RTX 3070", "", "K", None);
    match apply(&a, "NVIDIA GeForce RTX 9999", None, None, "t") {
        Err(e) => {
            assert!(matches!(e, GpuError::NotPreset { .. }));
            assert_eq!(
                e.message(),
                "型号「NVIDIA GeForce RTX 9999」不在允许的名单里，已拒绝写入（防止填错型号）"
            );
        }
        Ok(_) => panic!("a name outside the presets was accepted"),
    }
}

#[test]
fn apply_backs_up_the_first_original_only() {
    let a = adapter("NVIDIA GeForce RTX 3070", "", "KEY", Some("orig"));
    let b1 = apply(&a, "NVIDIA GeForce RTX 5090", Some("orig".to_string()), None, "t1").unwrap();
    assert_eq!(b1.saved_at, "t1");
    assert_eq!(b1.entries.len(), 1);
    assert_eq!(b1.entries[0].original.as_deref(), Some("orig"));
    assert!(b1.entries[0].existed_before);
    assert_eq!(b1.entries[0].applied, "NVIDIA GeForce RTX 5090");
    assert!(has_backup_for(&Some(b1.clone()), &a));

    let b2 = apply(
        &a,
        "NVIDIA GeForce RTX 5080",
        Some("NVIDIA GeForce RTX 5090".to_string()),
        Some(b1),
        "t2",
    )
    .unwrap();
    assert_eq!(b2.entries.len(), 1);
    assert_eq!(b2.entries[0].original.as_deref(), Some("orig"));
    assert_eq!(b2.entries[0].applied, "NVIDIA GeForce RTX 5080");
    assert_eq!(b2.entries[0].saved_at, "t1");
    assert_eq!(b2.saved_at, "t2");

    let other = adapter("NVIDIA GeForce RTX 3060", "", "OTHER", None);
    assert!(!has_backup_for(&Some(b2), &other));
    assert!(!has_backup_for(&None, &a));
}

#[test]
fn restore_targets() {
    let a = adapter("NVIDIA GeForce RTX 3070", "", "KEY", None);
    let (t, msg) = restore(&a, RestoreTo::DriverName, &None).unwrap();
    assert_eq!(t, "NVIDIA GeForce RTX 3070");
    assert_eq!(msg, "已把显卡名还原为「NVIDIA GeForce RTX 3070」。重启后生效。");

    assert!(matches!(
        restore(&a, RestoreTo::BackupOriginal, &None),
        Err(GpuError::NoBackupOriginal)
    ));

    let b = Backup {
        saved_at: "t".to_string(),
        entries: vec![BackupEntry {
            key: "KEY".to_string(),
            existed_before: true,
            original: Some("@oem.inf,%a%;NVIDIA GeForce RTX 3070 Laptop".to_string()),
            applied: "NVIDIA GeForce RTX 5090".to_string(),
            driver_name: "NVIDIA GeForce RTX 3070".to_string(),
            saved_at: "t".to_string(),
        }],
    };
    let (t, msg) = restore(&a, RestoreTo::BackupOriginal, &Some(b)).unwrap();
    assert_eq!(t, "@oem.inf,%a%;NVIDIA GeForce RTX 3070 Laptop");
    assert_eq!(msg, "已把显卡名还原为「NVIDIA GeForce RTX 3070 Laptop」。重启后生效。");

    let blank = adapter("   ", "", "KEY", None);
    let e = restore(&blank, RestoreTo::DriverName, &None).unwrap_err();
    assert!(matches!(e, GpuError::EmptyTarget));
    assert_eq!(e.message(), "目标值是空的，已中止");
    assert_eq!(GpuError::NoAdapter.message(), "没有找到可操作的 NVIDIA 显卡注册表实例");
}

#[test]
fn apply_message_names_both_sides() {
    let a = adapter("NVIDIA GeForce RTX 3070", "", "K", None);
    assert_eq!(
        apply_message(&a, "NVIDIA GeForce RTX 5090"),
        "已把显卡名从「NVIDIA GeForce RTX 3070」改为「NVIDIA GeForce RTX 5090」。重启后生效。"
    );
}

#[test]
fn helper_command_lines() {
    assert_eq!(
        elevated_args(&Op::Apply("NVIDIA GeForce RTX 5090".to_string()), "C:\\t\\out.txt"),
        "--gpuspoof-apply \"NVIDIA GeForce RTX 5090\" \"C:\\t\\out.txt\""
    );
    assert_eq!(
        elevated_args(&Op::Restore(RestoreTo::BackupOriginal), "o"),
        "--gpuspoof-restore backup \"o\""
    );
    assert_eq!(
        elevated_args(&Op::Restore(RestoreTo::DriverName), "o"),
        "--gpuspoof-restore driver \"o\""
    );
    assert!(matches!(restore_mode("backup"), RestoreTo::BackupOriginal));
    assert!(matches!(restore_mode("driver"), RestoreTo::DriverName));
    assert!(matches!(restore_mode("Backup"), RestoreTo::DriverName));
}

#[test]
fn registry_filters() {
    assert!(class_instance_ok("0000", "NVIDIA GeForce RTX 3070", "PCI\\VEN_10DE&DEV_2484"));
    assert!(!class_instance_ok("Properties", "NVIDIA GeForce RTX 3070", "pci\\ven_10de"));
    assert!(!class_instance_ok("0001", "Intel(R) UHD Graphics", "pci\\ven_8086"));
    assert!(!class_instance_ok("0002", "NVIDIA Virtual Display", "root\\nvvad"));
    assert!(pci_device_ok("ven_10de&dev_2484&subsys_1"));
    assert!(!pci_device_ok("VEN_8086&DEV_9BC4"));
    assert!(instance_ok("{4D36E968-E325-11CE-BFC1-08002BE10318}", "NVLDDMKM"));
    assert!(!instance_ok("{4d36e96c-e325-11ce-bfc1-08002be10318}", "nvlddmkm"));
    assert_eq!(
        enum_key_of("VEN_10DE&DEV_2484", "4&1"),
        "SYSTEM\\CurrentControlSet\\Enum\\PCI\\VEN_10DE&DEV_2484\\4&1"
    );
}
