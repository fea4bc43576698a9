use anime_manager::entry::{build_entry, normalize_episodes, EpisodesValue, LibraryEntry, ManifestRaw};
use anime_manager::group::{resolve_group_title, ParentTitleIndex};
use anime_manager::library::{build_library_entries, build_parent_index, ScannedManifest};
use anime_manager::paths::{db_path, DirPath};

fn path(text: &str) -> DirPath {
    let (root, rest) = if let Some(stripped) = text.strip_prefix('/') {
        ("/".to_string(), stripped)
    } else {
        (String::new(), text)
    };
    DirPath {
        root,
        parts: rest.split('/').filter(|p| !p.is_empty()).map(|p| p.to_string()).collect(),
        sep: '/',
    }
}

fn raw(title: Option<&str>, is_parent: bool) -> ManifestRaw {
    ManifestRaw {
        title: title.map(|t| t.to_string()),
        is_parent,
        fansub: None,
        subtitle_type: None,
        episodes: None,
        quality: None,
        note: None,
    }
}

fn scanned(p: &str, r: ManifestRaw) -> ScannedManifest {
    ScannedManifest { path: path(p), raw: r }
}

fn summary(entries: &[LibraryEntry]) -> Vec<(String, String, String)> {
    entries.iter().map(|e| (e.id.clone(), e.title.clone(), e.group.clone())).collect()
}

#[test]
fn top_level_folders_are_their_own_groups() {
    let base = path("/lib");
    let parsed = vec![
        scanned("/lib/B/manifest.yml", raw(Some("Beta"), false)),
        scanned("/lib/A/manifest.yml", raw(Some("Alpha"), false)),
    ];
    let entries = build_library_entries(&base, &parsed);
    assert_eq!(
        summary(&entries),
        vec![
            ("/lib::A".to_string(), "Alpha".to_string(), "Alpha".to_string()),
            ("/lib::B".to_string(), "Beta".to_string(), "Beta".to_string()),
        ]
    );
}

#[test]
fn nested_folders_take_the_parent_title() {
    let base = path("/lib");
    let parsed = vec![
        scanned("/lib/Show/manifest.yml", raw(Some("Show"), true)),
        scanned("/lib/Show/S2/manifest.yml", raw(None, false)),
        scanned("/lib/Show/S1/manifest.yml", raw(None, false)),
    ];
    let entries = build_library_entries(&base, &parsed);
    assert_eq!(entries.len(), 2);
    assert_eq!(entries[0].title, "S1");
    assert_eq!(entries[1].title, "S2");
    assert_eq!(entries[0].group, "Show");
    assert_eq!(entries[1].group, "Show");
    assert_eq!(entries[0].id, "/lib::Show/S1");
    assert_eq!(entries[0].relative_dir, "Show/S1");
    assert_eq!(entries[0].folder_name, "S1");
    assert_eq!(entries[0].path, "/lib/Show/S1");
}

#[test]
fn nested_without_parent_uses_first_segment() {
    let base = path("/lib");
    let parsed = vec![scanned("/lib/Show/S1/manifest.yml", raw(Some("Season"), false))];
    let entries = build_library_entries(&base, &parsed);
    assert_eq!(entries[0].group, "Show");
    assert_eq!(entries[0].title, "Season");
}

#[test]
fn parent_with_blank_title_uses_folder_name() {
    let base = path("/lib");
    let parsed = vec![
        scanned("/lib/Show/manifest.yml", raw(Some("   "), true)),
        scanned("/lib/Show/Deep/S1/manifest.yml", raw(None, false)),
    ];
    let index = build_parent_index(&parsed);
    assert_eq!(index.items, vec![("/lib/Show".to_string(), "Show".to_string())]);
    let entries = build_library_entries(&base, &parsed);
    assert_eq!(entries[0].group, "Show");
}

#[test]
fn nearest_parent_wins() {
    let base = path("/lib");
    let parsed = vec![
        scanned("/lib/Show/manifest.yml", raw(Some("Outer"), true)),
        scanned("/lib/Show/Arc/manifest.yml", raw(Some("Inner"), true)),
        scanned("/lib/Show/Arc/S1/manifest.yml", raw(None, false)),
    ];
    let entries = build_library_entries(&base, &parsed);
    assert_eq!(entries.len(), 1);
    assert_eq!(entries[0].group, "Inner");
}

#[test]
fn parent_at_root_is_not_used() {
    let base = path("/lib");
    let parsed = vec![
        scanned("/lib/manifest.yml", raw(Some("Root"), true)),
        scanned("/lib/Show/S1/manifest.yml", raw(None, false)),
    ];
    let entries = build_library_entries(&base, &parsed);
    assert_eq!(entries[0].group, "Show");
}

#[test]
fn refresh_twice_gives_identical_lists() {
    let base = path("/lib");
    let parsed = vec![
        scanned("/lib/Show/manifest.yml", raw(Some("Show"), true)),
        scanned("/lib/Show/S2/manifest.yml", raw(None, false)),
        scanned("/lib/Zeta/manifest.yml", raw(Some("Zeta"), false)),
        scanned("/lib/Show/S1/manifest.yml", raw(None, false)),
        scanned("/lib/Alpha/manifest.yml", raw(None, false)),
    ];
    let first = build_library_entries(&base, &parsed);
    let second = build_library_entries(&base, &parsed);
    assert_eq!(first, second);
    let titles: Vec<String> = first.iter().map(|e| e.title.clone()).collect();
    assert_eq!(titles, vec!["Alpha", "S1", "S2", "Zeta"]);
}

#[test]
fn renaming_title_keeps_id() {
    let base = path("/lib");
    let before = build_library_entries(&base, &vec![scanned("/lib/A/manifest.yml", raw(Some("Old"), false))]);
    let after = build_library_entries(&base, &vec![scanned("/lib/A/manifest.yml", raw(Some("New"), false))]);
    assert_eq!(before[0].id, after[0].id);
    assert_ne!(before[0].title, after[0].title);
}

#[test]
fn entry_fields_are_trimmed() {
    let base = path("/lib");
    let r = ManifestRaw {
        title: Some("  Title ".to_string()),
        is_parent: false,
        fansub: Some(" Group ".to_string()),
        subtitle_type: None,
        episodes: Some(EpisodesValue::Str(" 24 ".to_string())),
        quality: Some("1080p".to_string()),
        note: Some("\tnote\n".to_string()),
    };
    let e = build_entry(&base, &path("/lib/X/manifest.yml"), &r);
    assert_eq!(e.title, "Title");
    assert_eq!(e.fansub, "Group");
    assert_eq!(e.subtitle_type, "");
    assert_eq!(e.episodes, 24);
    assert_eq!(e.quality, "1080p");
    assert_eq!(e.note, "note");
    assert_eq!(e.group, "X");
    assert_eq!(e.last_played_at, 0);
}

#[test]
fn manifest_outside_root_keeps_full_path() {
    let base = path("/lib");
    let e = build_entry(&base, &path("/other/X/manifest.yml"), &raw(None, false));
    assert_eq!(e.relative_dir, "/other/X");
    assert_eq!(e.id, "/lib::/other/X");
}

#[test]
fn manifest_at_root_uses_root_name() {
    let base = path("/lib");
    let e = build_entry(&base, &path("/lib/manifest.yml"), &raw(None, false));
    assert_eq!(e.relative_dir, "");
    assert_eq!(e.folder_name, "lib");
    assert_eq!(e.title, "lib");
    assert_eq!(e.id, "/lib::");
}

#[test]
fn episode_coercion() {
    assert_eq!(normalize_episodes(&Some(EpisodesValue::Str("12".to_string()))), 12);
    assert_eq!(normalize_episodes(&Some(EpisodesValue::Str("abc".to_string()))), 0);
    assert_eq!(normalize_episodes(&None), 0);
    assert_eq!(normalize_episodes(&Some(EpisodesValue::Int(-1))), -1);
    assert_eq!(normalize_episodes(&Some(EpisodesValue::Str("-3".to_string()))), -3);
}

#[test]
fn resolve_group_for_top_level() {
    let base = path("/lib");
    let e = build_entry(&base, &path("/lib/A/manifest.yml"), &raw(Some("Alpha"), false));
    let mut index = ParentTitleIndex::new();
    index.insert("/lib".to_string(), "Root".to_string());
    assert_eq!(resolve_group_title(&base, &path("/lib/A"), &e, &index), "Alpha");
}

#[test]
fn store_file_lies_in_root() {
    let p = db_path(&path("/lib"));
    assert_eq!(p.root, "/");
    assert_eq!(p.parts, vec!["lib".to_string(), "anime-manager.sqlite".to_string()]);
}

#[test]
fn walk_never_looks_above_root() {
    let base = path("/lib");
    let e = build_entry(&base, &path("/lib/manifest.yml"), &raw(None, false));
    let mut index = ParentTitleIndex::new();
    index.insert("/".to_string(), "X".to_string());
    index.insert("/lib".to_string(), "Root".to_string());
    assert_eq!(resolve_group_title(&base, &path("/lib"), &e, &index), "lib");
}

#[test]
fn windows_paths_keep_their_separator() {
    let base = DirPath { root: "C:\\".to_string(), parts: vec!["Users".to_string(), "lib".to_string()], sep: '\\' };
    let manifest = DirPath {
        root: "C:\\".to_string(),
        parts: vec!["Users".to_string(), "lib".to_string(), "Show".to_string(), "S1".to_string(), "manifest.yml".to_string()],
        sep: '\\',
    };
    let e = build_entry(&base, &manifest, &raw(None, false));
    assert_eq!(e.id, "C:\\Users\\lib::Show/S1");
    assert_eq!(e.path, "C:\\Users\\lib\\Show\\S1");
    assert_eq!(e.relative_dir, "Show/S1");
}
