//! Directory listings for browsing: which files are shown, what a
//! directory's manifest adds, and in which order items come.

use vstd::prelude::*;
use crate::entry::{ManifestRaw, episodes_spec, normalize_episodes};
use crate::text::{normalize, normalize_spec, text_less, text_lt};

verus! {

/// One item of a directory listing.
#[derive(Clone, Debug, PartialEq, Eq)]
pub struct FileEntry {
    pub name: String,
    pub path: String,
    pub is_dir: bool,
    pub size: u64,
    pub modified_at: i64,
    pub extension: String,
    pub has_manifest: bool,
    pub manifest_title: String,
    pub manifest_fansub: String,
    pub manifest_subtitle_type: String,
    pub manifest_episodes: i64,
    pub manifest_quality: String,
    pub manifest_note: String,
}

/// The ASCII lowercase form of a character.
pub open spec fn ascii_lower(c: char) -> char {
    if 'A' <= c && c <= 'Z' {
        ((c as u32) + 32) as char
    } else {
        c
    }
}

/// The name of a manifest file.
pub const MANIFEST_FILE_NAME: &'static str = "manifest.yml";

/// Whether `name` is the manifest file name, ignoring ASCII case.
pub open spec fn is_manifest_name_spec(name: Seq<char>) -> bool {
    name.len() == MANIFEST_FILE_NAME@.len() && forall|i: int|
        0 <= i < name.len() ==> ascii_lower(#[trigger] name[i]) == MANIFEST_FILE_NAME@[i]
}

/// Whether a listing leaves out the file `name`: manifest files are not shown.
pub fn is_manifest_name(name: &str) -> (r: bool)
    ensures
        r == is_manifest_name_spec(name@),
{
    proof {
        reveal_strlit("manifest.yml");
    }
    let expected = MANIFEST_FILE_NAME;
    let n = name.unicode_len();
    if n != expected.unicode_len() {
        return false;
    }
    let mut i: usize = 0;
    while i < n
        invariant
            n == name@.len(),
            n == expected@.len(),
            expected@ == MANIFEST_FILE_NAME@,
            i <= n,
            forall|j: int| 0 <= j < i ==> ascii_lower(#[trigger] name@[j]) == expected@[j],
        decreases n - i,
    {
        let c = name.get_char(i);
        let lower = if 'A' <= c && c <= 'Z' { ((c as u32) + 32) as u8 as char } else { c };
        assert(lower == ascii_lower(c));
        if lower != expected.get_char(i) {
            return false;
        }
        i = i + 1;
    }
    true
}

/// Fills the manifest fields of a directory's item from its manifest.
pub fn overlay_manifest(entry: &mut FileEntry, raw: &ManifestRaw)
    ensures
        final(entry).has_manifest,
        final(entry).manifest_title@ == normalize_spec(raw.title),
        final(entry).manifest_fansub@ == normalize_spec(raw.fansub),
        final(entry).manifest_subtitle_type@ == normalize_spec(raw.subtitle_type),
        final(entry).manifest_episodes == episodes_spec(raw.episodes),
        final(entry).manifest_quality@ == normalize_spec(raw.quality),
        final(entry).manifest_note@ == normalize_spec(raw.note),
        final(entry).name == old(entry).name,
        final(entry).path == old(entry).path,
        final(entry).is_dir == old(entry).is_dir,
        final(entry).size == old(entry).size,
        final(entry).modified_at == old(entry).modified_at,
        final(entry).extension == old(entry).extension,
{
    entry.has_manifest = true;
    entry.manifest_title = normalize(&raw.title);
    entry.manifest_fansub = normalize(&raw.fansub);
    entry.manifest_subtitle_type = normalize(&raw.subtitle_type);
    entry.manifest_episodes = normalize_episodes(&raw.episodes);
    entry.manifest_quality = normalize(&raw.quality);
    entry.manifest_note = normalize(&raw.note);
}

/// Whether item `a` is listed strictly before item `b`: directories first,
/// then by name.
pub open spec fn listed_before(a: FileEntry, b: FileEntry) -> bool {
    (a.is_dir && !b.is_dir) || (a.is_dir == b.is_dir && text_lt(a.name@, b.name@))
}

/// `s` with `x` inserted after every item that is not listed after it.
pub open spec fn insert_listed(s: Seq<FileEntry>, x: FileEntry) -> Seq<FileEntry>
    decreases s.len(),
{
    if s.len() > 0 && listed_before(x, s.last()) {
        insert_listed(s.drop_last(), x).push(s.last())
    } else {
        s.push(x)
    }
}

/// `s` in listing order; items that tie keep their order.
pub open spec fn listing_order(s: Seq<FileEntry>) -> Seq<FileEntry>
    decreases s.len(),
{
    if s.len() == 0 {
        s
    } else {
        insert_listed(listing_order(s.drop_last()), s.last())
    }
}

proof fn lemma_insert_listed_at(s: Seq<FileEntry>, x: FileEntry, j: int)
    requires
        0 <= j <= s.len(),
        forall|k: int| j <= k < s.len() ==> listed_before(x, #[trigger] s[k]),
        j == 0 || !listed_before(x, s[j - 1]),
    ensures
        insert_listed(s, x) == s.insert(j, x),
    decreases s.len(),
{
    if j < s.len() {
        assert(listed_before(x, s.last()));
        lemma_insert_listed_at(s.drop_last(), x, j);
        assert(s.drop_last().insert(j, x).push(s.last()) =~= s.insert(j, x));
    } else {
        assert(s.push(x) =~= s.insert(j, x));
    }
}

/// Whether item `a` is listed strictly before item `b`.
fn listed_less(a: &FileEntry, b: &FileEntry) -> (r: bool)
    ensures
        r == listed_before(*a, *b),
{
    if a.is_dir != b.is_dir {
        a.is_dir
    } else {
        text_less(a.name.as_str(), b.name.as_str())
    }
}

/// Puts a listing in order: directories first, then by name.
pub fn order_listing(items: Vec<FileEntry>) -> (r: Vec<FileEntry>)
    ensures
        r@ == listing_order(items@),
{
    let mut out: Vec<FileEntry> = Vec::new();
    let mut rest = items;
    let ghost all = rest@;
    assert(out@ =~= listing_order(all.subrange(0, 0)));
    let mut i: usize = 0;
    assert(all.subrange(0, all.len() as int) =~= all);
    while rest.len() > 0
        invariant
            i + rest@.len() == all.len(),
            i == out@.len(),
            rest@ == all.subrange(i as int, all.len() as int),
            out@ == listing_order(all.subrange(0, i as int)),
        decreases rest@.len(),
    {
        let x = rest.remove(0);
        assert(x == all[i as int]);
        assert(all.subrange(0, i + 1).drop_last() =~= all.subrange(0, i as int));
        let ghost s = out@;
        let mut j: usize = out.len();
        while j > 0 && listed_less(&x, &out[j - 1])
            invariant
                j <= out@.len(),
                s == out@,
                forall|k: int| j <= k < s.len() ==> listed_before(x, #[trigger] s[k]),
            decreases j,
        {
            j = j - 1;
        }
        proof {
            lemma_insert_listed_at(s, x, j as int);
        }
        out.insert(j, x);
        i = out.len();
    }
    assert(all.subrange(0, all.len() as int) =~= all);
    out
}

proof fn lemma_insert_listed_multiset(s: Seq<FileEntry>, x: FileEntry)
    ensures
        insert_listed(s, x).to_multiset() =~= s.to_multiset().insert(x),
    decreases s.len(),
{
    broadcast use vstd::seq_lib::group_to_multiset_ensures;

    if s.len() > 0 && listed_before(x, s.last()) {
        lemma_insert_listed_multiset(s.drop_last(), x);
        assert(s.drop_last().push(s.last()) =~= s);
    }
}

/// Putting a listing in order only rearranges it: the ordered listing holds
/// the same items, each as many times.
pub proof fn lemma_listing_order_permutes(s: Seq<FileEntry>)
    ensures
        listing_order(s).to_multiset() =~= s.to_multiset(),
    decreases s.len(),
{
    broadcast use vstd::seq_lib::group_to_multiset_ensures;

    if s.len() > 0 {
        lemma_listing_order_permutes(s.drop_last());
        lemma_insert_listed_multiset(listing_order(s.drop_last()), s.last());
        assert(s.drop_last().push(s.last()) =~= s);
    }
}

} // verus!
