use framegen_manager::gpu::helper_outcome;
use framegen_manager::scan::{epic_item_of_text, EpicItem};
use framegen_manager::update::{listed_release_zip, tagged_release_zip};

#[test]
fn epic_manifest_text_is_read() {
    let t = r#"{"DisplayName":"Alan Wake 2","InstallLocation":"D:\\Epic\\AW2","AppName":"Daisy","bIsApplication":true}"#;
    match epic_item_of_text(t) {
        Some(EpicItem::App { app_id, name, location }) => {
            assert_eq!(app_id, "Daisy");
            assert_eq!(name, "Alan Wake 2");
            assert_eq!(location, "D:\\Epic\\AW2");
        }
        other => panic!("unexpected {:?}", other),
    }
    assert!(matches!(epic_item_of_text(r#"{"bIsApplication":false,"DisplayName":"x","InstallLocation":"y"}"#), Some(EpicItem::NotApp)));
    assert!(matches!(epic_item_of_text(r#"{"DisplayName":"x"}"#), Some(EpicItem::MissingField)));
    match epic_item_of_text(r#"{"DisplayName":"x","InstallLocation":"y"}"#) {
        Some(EpicItem::App { app_id, .. }) => assert_eq!(app_id, ""),
        other => panic!("unexpected {:?}", other),
    }
    assert!(epic_item_of_text("not json").is_none());
}

#[test]
fn release_texts_are_read() {
    let one = r#"{"tag_name":"v1","assets":[{"name":"notes.txt","browser_download_url":"u0","size":1},{"name":"Pack.ZIP","browser_download_url":"u1","size":42}]}"#;
    let a = tagged_release_zip(one, "v1").unwrap();
    assert_eq!((a.tag.as_str(), a.asset_name.as_str(), a.url.as_str(), a.size), ("v1", "Pack.ZIP", "u1", 42));
    assert!(tagged_release_zip(r#"{"assets":[]}"#, "v1").is_none());
    assert!(tagged_release_zip("<html>", "v1").is_none());

    let list = r#"[{"tag_name":"other-1","assets":[{"name":"a.zip","browser_download_url":"x"}]},
                   {"tag_name":"dlss-2","assets":[{"name":"b.txt","browser_download_url":"y"}]},
                   {"tag_name":"dlss-1","assets":[{"name":"c.zip","browser_download_url":"z"}]}]"#;
    let a = listed_release_zip(list, "dlss-").unwrap().unwrap();
    assert_eq!((a.tag.as_str(), a.asset_name.as_str(), a.url.as_str(), a.size), ("dlss-1", "c.zip", "z", 0));
    assert!(listed_release_zip(list, "none-").unwrap().is_none());
    assert!(listed_release_zip(r#"{"message":"Not Found"}"#, "dlss-").is_none());
}

#[test]
fn helper_results_are_read() {
    assert_eq!(helper_outcome(r#"{"ok":true,"msg":"done"}"#), Ok("done".to_owned()));
    assert_eq!(helper_outcome(r#"{"ok":false,"msg":"denied"}"#), Err("denied".to_owned()));
    assert_eq!(helper_outcome(r#"{"ok":true}"#), Ok("(无消息)".to_owned()));
    assert_eq!(helper_outcome(r#"{"msg":"m"}"#), Err("m".to_owned()));
    assert_eq!(helper_outcome("garbage"), Err("子进程返回的内容无法解析".to_owned()));
}
