use anime_manager::entry::LibraryEntry;
use anime_manager::markdown::{anchor_from_lowercase, build_video_index_markdown, format_episodes, markdown_anchor};

fn entry(title: &str, group: &str, folder: &str, episodes: i64, note: &str) -> LibraryEntry {
    LibraryEntry {
        id: format!("/lib::{}", folder),
        title: title.to_string(),
        fansub: String::new(),
        subtitle_type: "简体".to_string(),
        episodes,
        quality: String::new(),
        note: note.to_string(),
        path: format!("/lib/{}", folder),
        folder_name: folder.to_string(),
        group: group.to_string(),
        relative_dir: folder.to_string(),
        last_played_path: String::new(),
        last_played_name: String::new(),
        last_played_at: 0,
    }
}

#[test]
fn episodes_read_as_text() {
    assert_eq!(format_episodes(12), "12");
    assert_eq!(format_episodes(1), "1");
    assert_eq!(format_episodes(9223372036854775807), "9223372036854775807");
    assert_eq!(format_episodes(0), "未知");
    assert_eq!(format_episodes(-1), "未完结");
}

#[test]
fn anchors_drop_punctuation() {
    assert_eq!(markdown_anchor("Hello World!"), "hello-world");
    assert_eq!(markdown_anchor("【Show】 S1（TV）"), "show-s1tv");
    assert_eq!(anchor_from_lowercase("ABC d"), "ABC-d");
}

#[test]
fn index_document() {
    let entries = vec![
        entry("S2", "Show", "S2", -1, ""),
        entry("Movie", "Movie", "Movie", 0, "note here"),
        entry("S1", "Show", "S1", 12, ""),
    ];
    let doc = build_video_index_markdown(&entries);
    let expected = [
        "# 视频信息",
        "",
        "## 目录",
        "",
        "- [视频信息](#视频信息)",
        "  - [目录](#目录)",
        "    - [Movie](#movie)",
        "    - [Show](#show)",
        "      - [S1](#s1)",
        "      - [S2](#s2)",
        "",
        "### Movie",
        "",
        "```",
        "文件夹名:Movie",
        "",
        "字幕组:未知",
        "",
        "字幕形式:简体",
        "",
        "集数:未知",
        "",
        "画质:未知",
        "",
        "备注:note here",
        "```",
        "",
        "### Show",
        "",
        "#### S1",
        "```",
        "文件夹名:S1",
        "",
        "字幕组:未知",
        "",
        "字幕形式:简体",
        "",
        "集数:12",
        "",
        "画质:未知",
        "```",
        "",
        "#### S2",
        "```",
        "文件夹名:S2",
        "",
        "字幕组:未知",
        "",
        "字幕形式:简体",
        "",
        "集数:未完结",
        "",
        "画质:未知",
        "```",
        "",
    ]
    .join("\n");
    assert_eq!(doc, expected);
}

#[test]
fn empty_index_document() {
    let doc = build_video_index_markdown(&[]);
    assert_eq!(doc, "# 视频信息\n\n## 目录\n\n- [视频信息](#视频信息)\n  - [目录](#目录)\n");
}
