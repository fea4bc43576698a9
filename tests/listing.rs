use anime_manager::entry::{EpisodesValue, ManifestRaw};
use anime_manager::listing::{is_manifest_name, order_listing, overlay_manifest, FileEntry};

fn item(name: &str, is_dir: bool) -> FileEntry {
    FileEntry {
        name: name.to_string(),
        path: format!("/x/{}", name),
        is_dir,
        size: 0,
        modified_at: 0,
        extension: String::new(),
        has_manifest: false,
        manifest_title: String::new(),
        manifest_fansub: String::new(),
        manifest_subtitle_type: String::new(),
        manifest_episodes: 0,
        manifest_quality: String::new(),
        manifest_note: String::new(),
    }
}

#[test]
fn manifest_files_are_recognised() {
    assert!(is_manifest_name("manifest.yml"));
    assert!(is_manifest_name("Manifest.YML"));
    assert!(!is_manifest_name("manifest.yaml"));
    assert!(!is_manifest_name("manifest.ymlx"));
    assert!(!is_manifest_name(""));
}

#[test]
fn directories_come_first_then_names() {
    let items = vec![item("b.mkv", false), item("Zed", true), item("a.mkv", false), item("Alpha", true)];
    let names: Vec<String> = order_listing(items).into_iter().map(|f| f.name).collect();
    assert_eq!(names, vec!["Alpha", "Zed", "a.mkv", "b.mkv"]);
}

#[test]
fn manifest_fields_are_overlaid() {
    let mut f = item("Show", true);
    let raw = ManifestRaw {
        title: Some(" Show ".to_string()),
        is_parent: false,
        fansub: None,
        subtitle_type: Some("ass".to_string()),
        episodes: Some(EpisodesValue::Str("x".to_string())),
        quality: None,
        note: None,
    };
    overlay_manifest(&mut f, &raw);
    assert!(f.has_manifest);
    assert_eq!(f.manifest_title, "Show");
    assert_eq!(f.manifest_subtitle_type, "ass");
    assert_eq!(f.manifest_episodes, 0);
    assert_eq!(f.name, "Show");
}
