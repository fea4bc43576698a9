//! Library entries: what a manifest holds, and how an entry is built from it.

use vstd::prelude::*;
use crate::paths::{
    DirPath, PathView, containing_dir, join_parts, join_with, lemma_join_forward, lemma_join_injective,
    normalize_path, path_text, path_wf, same_place, strip_base,
};
use crate::text::{
    forward_slashes, normalize, normalize_spec, parse_i64, parse_i64_spec, to_forward_slashes,
    trim_seq, trim_text,
};

verus! {

/// An episode count as a manifest writes it: a number, or a text.
#[derive(Clone, Debug, PartialEq, Eq)]
pub enum EpisodesValue {
    Int(i64),
    Str(String),
}

/// The fields of a parsed manifest.
#[derive(Clone, Debug, PartialEq, Eq)]
pub struct ManifestRaw {
    pub title: Option<String>,
    pub is_parent: bool,
    pub fansub: Option<String>,
    pub subtitle_type: Option<String>,
    pub episodes: Option<EpisodesValue>,
    pub quality: Option<String>,
    pub note: Option<String>,
}

/// One entry of the library index.
#[derive(Clone, Debug, PartialEq, Eq)]
pub struct LibraryEntry {
    pub id: String,
    pub title: String,
    pub fansub: String,
    pub subtitle_type: String,
    pub episodes: i64,
    pub quality: String,
    pub note: String,
    pub path: String,
    pub folder_name: String,
    pub group: String,
    pub relative_dir: String,
    pub last_played_path: String,
    pub last_played_name: String,
    pub last_played_at: i64,
}

/// The mathematical value of a [`LibraryEntry`].
pub struct EntryView {
    pub id: Seq<char>,
    pub title: Seq<char>,
    pub fansub: Seq<char>,
    pub subtitle_type: Seq<char>,
    pub episodes: i64,
    pub quality: Seq<char>,
    pub note: Seq<char>,
    pub path: Seq<char>,
    pub folder_name: Seq<char>,
    pub group: Seq<char>,
    pub relative_dir: Seq<char>,
    pub last_played_path: Seq<char>,
    pub last_played_name: Seq<char>,
    pub last_played_at: i64,
}

impl View for LibraryEntry {
    type V = EntryView;

    open spec fn view(&self) -> EntryView {
        EntryView {
            id: self.id@,
            title: self.title@,
            fansub: self.fansub@,
            subtitle_type: self.subtitle_type@,
            episodes: self.episodes,
            quality: self.quality@,
            note: self.note@,
            path: self.path@,
            folder_name: self.folder_name@,
            group: self.group@,
            relative_dir: self.relative_dir@,
            last_played_path: self.last_played_path@,
            last_played_name: self.last_played_name@,
            last_played_at: self.last_played_at,
        }
    }
}

/// The episode count of a manifest: a number as written, a text parsed as an
/// integer once trimmed (0 when it is none), and 0 when absent.
pub open spec fn episodes_spec(value: Option<EpisodesValue>) -> i64 {
    match value {
        Some(EpisodesValue::Int(v)) => v,
        Some(EpisodesValue::Str(s)) => match parse_i64_spec(trim_seq(s@)) {
            Some(v) => v,
            None => 0,
        },
        None => 0,
    }
}

/// Reads the episode count of a manifest.
pub fn normalize_episodes(value: &Option<EpisodesValue>) -> (r: i64)
    ensures
        r == episodes_spec(*value),
{
    match value {
        Some(EpisodesValue::Int(v)) => *v,
        Some(EpisodesValue::Str(s)) => {
            let t = trim_text(s.as_str());
            match parse_i64(t.as_str()) {
                Some(v) => v,
                None => 0,
            }
        },
        None => 0,
    }
}

/// The directory of `dir` relative to `base`, with forward slashes; the
/// whole text of `dir` when it does not lie under `base`.
pub open spec fn relative_dir_spec(base: PathView, dir: PathView) -> Seq<char> {
    forward_slashes(
        match strip_base(dir, base) {
            Some(rest) => join_with(rest, dir.sep),
            None => path_text(dir),
        },
    )
}

/// The last component of `dir`, or `fallback` when it has none.
pub open spec fn folder_name_spec(dir: PathView, fallback: Seq<char>) -> Seq<char> {
    if dir.parts.len() > 0 {
        dir.parts.last()
    } else {
        fallback
    }
}

/// The trimmed title when it is not empty, else `fallback`.
pub open spec fn title_or(title: Option<String>, fallback: Seq<char>) -> Seq<char> {
    if normalize_spec(title).len() > 0 {
        normalize_spec(title)
    } else {
        fallback
    }
}

/// The identity of the entry in directory `dir` of the library at `base`.
pub open spec fn entry_id_spec(base: PathView, dir: PathView) -> Seq<char> {
    path_text(base) + seq![':', ':'] + relative_dir_spec(base, dir)
}

/// The entry that the manifest at `manifest` describes, in the library at
/// `base`, before its group is resolved: the group is the folder name.
pub open spec fn entry_spec(base: PathView, manifest: PathView, raw: ManifestRaw) -> EntryView {
    let dir = containing_dir(manifest);
    let rel = relative_dir_spec(base, dir);
    let folder = folder_name_spec(dir, rel);
    EntryView {
        id: entry_id_spec(base, dir),
        title: title_or(raw.title, folder),
        fansub: normalize_spec(raw.fansub),
        subtitle_type: normalize_spec(raw.subtitle_type),
        episodes: episodes_spec(raw.episodes),
        quality: normalize_spec(raw.quality),
        note: normalize_spec(raw.note),
        path: path_text(dir),
        folder_name: folder,
        group: folder,
        relative_dir: rel,
        last_played_path: Seq::empty(),
        last_played_name: Seq::empty(),
        last_played_at: 0,
    }
}

/// The directory that holds the file at `manifest`.
pub fn containing_directory(manifest: &DirPath) -> (r: DirPath)
    ensures
        r@ == containing_dir(manifest@),
{
    if manifest.parts.len() > 0 {
        manifest.prefix(manifest.parts.len() - 1)
    } else {
        let r = DirPath { root: String::new(), parts: Vec::new(), sep: manifest.sep };
        assert(r@.parts =~= Seq::<Seq<char>>::empty());
        r
    }
}

/// The directory `dir` relative to `base`, with forward slashes.
pub fn relative_dir_text(base: &DirPath, dir: &DirPath) -> (r: String)
    ensures
        r@ == relative_dir_spec(base@, dir@),
{
    let raw = if dir.starts_with(base) {
        let t = crate::paths::join_range(&dir.parts, base.parts.len(), dir.parts.len(), dir.sep);
        assert(dir@.parts.subrange(base@.parts.len() as int, dir@.parts.len() as int)
            =~= dir.parts@.map_values(|p: String| p@).subrange(
            base.parts@.len() as int,
            dir.parts@.len() as int,
        ));
        t
    } else {
        normalize_path(dir)
    };
    to_forward_slashes(raw.as_str())
}

/// The trimmed title when it is not empty, else a copy of `fallback`.
pub(crate) fn title_or_fallback(title: &Option<String>, fallback: &String) -> (r: String)
    ensures
        r@ == title_or(*title, fallback@),
{
    let candidate = normalize(title);
    if candidate.unicode_len() == 0 {
        fallback.clone()
    } else {
        candidate
    }
}

/// Builds the entry that the manifest at `manifest_path` describes, in the
/// library at `base_dir`. Its group is left as its folder name.
pub fn build_entry(base_dir: &DirPath, manifest_path: &DirPath, raw: &ManifestRaw) -> (r: LibraryEntry)
    ensures
        r@ == entry_spec(base_dir@, manifest_path@, *raw),
{
    let parent = containing_directory(manifest_path);
    let relative_dir = relative_dir_text(base_dir, &parent);
    let folder_name = if parent.parts.len() > 0 {
        parent.parts[parent.parts.len() - 1].clone()
    } else {
        relative_dir.clone()
    };
    let group = folder_name.clone();
    let title = title_or_fallback(&raw.title, &folder_name);
    let mut id = normalize_path(base_dir);
    proof {
        reveal_strlit("::");
    }
    id.append("::");
    id.append(relative_dir.as_str());
    let r = LibraryEntry {
        id,
        title,
        fansub: normalize(&raw.fansub),
        subtitle_type: normalize(&raw.subtitle_type),
        episodes: normalize_episodes(&raw.episodes),
        quality: normalize(&raw.quality),
        note: normalize(&raw.note),
        path: normalize_path(&parent),
        folder_name,
        group,
        relative_dir,
        last_played_path: String::new(),
        last_played_name: String::new(),
        last_played_at: 0,
    };
    assert(r@.id =~= entry_spec(base_dir@, manifest_path@, *raw).id);
    r
}

/// An entry's identity depends on its directory alone: two manifests in the
/// same directory, whatever their titles or other fields, give entries with
/// the same `id` (and the same path and relative directory), so play history
/// recorded under that `id` still joins after a refresh.
pub proof fn lemma_id_ignores_manifest_fields(
    base: PathView,
    manifest: PathView,
    raw1: ManifestRaw,
    raw2: ManifestRaw,
)
    ensures
        entry_spec(base, manifest, raw1).id == entry_spec(base, manifest, raw2).id,
        entry_spec(base, manifest, raw1).relative_dir == entry_spec(base, manifest, raw2).relative_dir,
        entry_spec(base, manifest, raw1).path == entry_spec(base, manifest, raw2).path,
{
}

/// Two well-formed directories under the library root have the same `id`
/// only when they are the same directory (the same root and components):
/// an `id` names one directory.
pub proof fn lemma_id_unique_per_directory(base: PathView, d1: PathView, d2: PathView)
    requires
        path_wf(d1),
        path_wf(d2),
        strip_base(d1, base) is Some,
        strip_base(d2, base) is Some,
        entry_id_spec(base, d1) == entry_id_spec(base, d2),
    ensures
        same_place(d1, d2),
{
    let b = base.parts.len() as int;
    let r1 = d1.parts.subrange(b, d1.parts.len() as int);
    let r2 = d2.parts.subrange(b, d2.parts.len() as int);
    assert forall|i: int| 0 <= i < r1.len() implies (#[trigger] r1[i]).len() > 0 && !r1[i].contains('/')
        && !r1[i].contains('\\') by {
        assert(r1[i] == d1.parts[i + b]);
    }
    assert forall|i: int| 0 <= i < r2.len() implies (#[trigger] r2[i]).len() > 0 && !r2[i].contains('/')
        && !r2[i].contains('\\') by {
        assert(r2[i] == d2.parts[i + b]);
    }
    lemma_join_forward(r1, d1.sep);
    lemma_join_forward(r2, d2.sep);
    let j1 = join_parts(r1);
    let j2 = join_parts(r2);
    let pre = path_text(base) + seq![':', ':'];
    let id1 = entry_id_spec(base, d1);
    assert(id1 == pre + j1);
    assert(entry_id_spec(base, d2) == pre + j2);
    assert(j1 =~= id1.subrange(pre.len() as int, id1.len() as int));
    assert(j2 =~= id1.subrange(pre.len() as int, id1.len() as int));
    lemma_join_injective(r1, r2);
    assert(d1.parts =~= base.parts + r1);
    assert(d2.parts =~= base.parts + r2);
}

} // verus!
