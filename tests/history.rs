use anime_manager::entry::{LibraryEntry, ManifestRaw};
use anime_manager::history::{attach_history, load_joined, PlayRecord};
use anime_manager::library::{build_library_entries, ScannedManifest};
use anime_manager::paths::DirPath;

fn lib_path(parts: &[&str]) -> DirPath {
    DirPath { root: "/".to_string(), parts: parts.iter().map(|p| p.to_string()).collect(), sep: '/' }
}

fn titled(title: &str) -> ManifestRaw {
    ManifestRaw {
        title: Some(title.to_string()),
        is_parent: false,
        fansub: None,
        subtitle_type: None,
        episodes: None,
        quality: None,
        note: None,
    }
}

fn record(id: &str, name: &str, at: i64) -> PlayRecord {
    PlayRecord {
        entry_id: id.to_string(),
        last_played_path: format!("/lib/A/{}", name),
        last_played_name: name.to_string(),
        updated_at: at,
    }
}

fn refresh(title: &str) -> Vec<LibraryEntry> {
    let parsed = vec![ScannedManifest { path: lib_path(&["lib", "A", "manifest.yml"]), raw: titled(title) }];
    build_library_entries(&lib_path(&["lib"]), &parsed)
}

#[test]
fn history_survives_title_rename() {
    let history = vec![record("/lib::A", "ep01.mkv", 1700000000)];
    let before = load_joined(refresh("Old"), &history);
    let after = load_joined(refresh("New"), &history);
    assert_eq!(after[0].title, "New");
    assert_eq!(after[0].last_played_name, "ep01.mkv");
    assert_eq!(after[0].last_played_at, 1700000000);
    assert_eq!(before[0].last_played_path, after[0].last_played_path);
}

#[test]
fn missing_history_reads_as_empty() {
    let history = vec![record("/lib::B", "x.mkv", 5)];
    let mut e = refresh("Only").remove(0);
    e.last_played_at = 9;
    attach_history(&mut e, &history);
    assert_eq!(e.last_played_path, "");
    assert_eq!(e.last_played_name, "");
    assert_eq!(e.last_played_at, 0);
}

#[test]
fn loaded_entries_are_ordered() {
    let mut stored = refresh("Zulu");
    let mut other = refresh("Alpha");
    other[0].id = "/lib::B".to_string();
    other[0].group = "Alpha".to_string();
    stored.append(&mut other);
    let loaded = load_joined(stored, &vec![record("/lib::B", "b.mkv", 3)]);
    assert_eq!(loaded[0].title, "Alpha");
    assert_eq!(loaded[0].last_played_at, 3);
    assert_eq!(loaded[1].title, "Zulu");
    assert_eq!(loaded[1].last_played_at, 0);
}
