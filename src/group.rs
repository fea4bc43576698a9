//! Display groups: titles named by parent manifests, and the walk from an
//! entry's directory up towards the library root.

use vstd::prelude::*;
use crate::entry::{EntryView, LibraryEntry};
use crate::paths::{DirPath, PathView, path_text, prefix_path, same_place};
use crate::text::{default_group_from_relative, default_group_spec};

verus! {

/// Titles named by parent manifests, keyed by the text of the directory that
/// holds each. A later item for the same key overrides an earlier one.
#[derive(Clone, Debug, PartialEq, Eq)]
pub struct ParentTitleIndex {
    pub items: Vec<(String, String)>,
}

impl View for ParentTitleIndex {
    type V = Seq<(Seq<char>, Seq<char>)>;

    open spec fn view(&self) -> Seq<(Seq<char>, Seq<char>)> {
        self.items@.map_values(|it: (String, String)| (it.0@, it.1@))
    }
}

/// The title recorded last under `key`, if any.
pub open spec fn lookup_spec(items: Seq<(Seq<char>, Seq<char>)>, key: Seq<char>) -> Option<Seq<char>>
    decreases items.len(),
{
    if items.len() == 0 {
        None
    } else if items.last().0 == key {
        Some(items.last().1)
    } else {
        lookup_spec(items.drop_last(), key)
    }
}

/// The view of an optional text.
pub open spec fn opt_text(o: Option<String>) -> Option<Seq<char>> {
    match o {
        Some(s) => Some(s@),
        None => None,
    }
}

impl ParentTitleIndex {
    /// An index with no title.
    pub fn new() -> (r: ParentTitleIndex)
        ensures
            r@ == Seq::<(Seq<char>, Seq<char>)>::empty(),
    {
        let r = ParentTitleIndex { items: Vec::new() };
        assert(r@ =~= Seq::<(Seq<char>, Seq<char>)>::empty());
        r
    }

    /// Records `title` under `key`, overriding what was recorded there.
    pub fn insert(&mut self, key: String, title: String)
        ensures
            final(self)@ == old(self)@.push((key@, title@)),
    {
        self.items.push((key, title));
        assert(final(self)@ =~= old(self)@.push((key@, title@)));
    }

    /// The title recorded last under `key`, if any.
    pub fn get(&self, key: &String) -> (r: Option<String>)
        ensures
            opt_text(r) == lookup_spec(self@, key@),
    {
        let mut i: usize = self.items.len();
        assert(self@.subrange(0, i as int) =~= self@);
        while i > 0
            invariant
                i <= self.items@.len(),
                lookup_spec(self@, key@) == lookup_spec(self@.subrange(0, i as int), key@),
            decreases i,
        {
            let ghost s = self@.subrange(0, i as int);
            if self.items[i - 1].0 == *key {
                return Some(self.items[i - 1].1.clone());
            }
            assert(s.drop_last() =~= self@.subrange(0, i - 1));
            i = i - 1;
        }
        None
    }
}

/// The title of the nearest parent manifest recorded for a prefix of `dir`,
/// trying the prefix of `k` components first, then shorter ones, and
/// stopping before `base`: no prefix that is not longer than `base` is
/// consulted, so nothing at or above the library root. Empty titles are
/// passed over.
pub open spec fn ancestor_title(
    base: PathView,
    dir: PathView,
    k: int,
    index: Seq<(Seq<char>, Seq<char>)>,
) -> Option<Seq<char>>
    decreases k,
{
    if k < 0 || k <= base.parts.len() {
        None
    } else if same_place(prefix_path(dir, k), base) {
        None
    } else {
        let found = lookup_spec(index, path_text(prefix_path(dir, k)));
        if found is Some && found->0.len() > 0 {
            found
        } else if k == 0 {
            None
        } else {
            ancestor_title(base, dir, k - 1, index)
        }
    }
}

/// Whether `dir` lies directly in `base`.
pub open spec fn is_top_level(base: PathView, dir: PathView) -> bool {
    dir.parts.len() > 0 && same_place(prefix_path(dir, dir.parts.len() - 1), base)
}

/// The display group of `entry`, whose manifest lies in `dir`, in the
/// library at `base`: its own title when `dir` lies directly in `base`;
/// else the title of the nearest ancestor parent manifest below `base`;
/// else the first segment of its relative directory, or its folder name.
pub open spec fn group_spec(
    base: PathView,
    dir: PathView,
    entry: EntryView,
    index: Seq<(Seq<char>, Seq<char>)>,
) -> Seq<char> {
    if is_top_level(base, dir) {
        entry.title
    } else {
        match ancestor_title(base, dir, dir.parts.len() - 1, index) {
            Some(t) => t,
            None => default_group_spec(entry.relative_dir, entry.folder_name),
        }
    }
}

/// Walks the ancestors of `dir` from its first `k` components upwards.
fn ancestor_group(base: &DirPath, dir: &DirPath, k: usize, index: &ParentTitleIndex) -> (r: Option<
    String,
>)
    requires
        k <= dir.parts@.len(),
    ensures
        opt_text(r) == ancestor_title(base@, dir@, k as int, index@),
    decreases k,
{
    if k <= base.parts.len() || dir.prefix_equals(k, base) {
        return None;
    }
    let key = dir.prefix_text(k);
    let found = index.get(&key);
    match found {
        Some(t) => {
            if t.unicode_len() > 0 {
                return Some(t);
            }
        },
        None => {},
    }
    if k == 0 {
        None
    } else {
        ancestor_group(base, dir, k - 1, index)
    }
}

/// Resolves the display group of `entry`, whose manifest lies in `dir`.
pub fn resolve_group_title(
    base: &DirPath,
    dir: &DirPath,
    entry: &LibraryEntry,
    parent_manifest_titles: &ParentTitleIndex,
) -> (r: String)
    ensures
        r@ == group_spec(base@, dir@, entry@, parent_manifest_titles@),
{
    let n = dir.parts.len();
    if n > 0 && dir.prefix_equals(n - 1, base) {
        return entry.title.clone();
    }
    let found = if n > 0 {
        ancestor_group(base, dir, n - 1, parent_manifest_titles)
    } else {
        None
    };
    match found {
        Some(t) => t,
        None => default_group_from_relative(entry.relative_dir.as_str(), entry.folder_name.as_str()),
    }
}

/// An entry whose directory lies directly in the library root is a group of
/// its own, named by its title, whatever parent manifests exist.
pub proof fn lemma_top_level_is_own_group(
    base: PathView,
    dir: PathView,
    entry: EntryView,
    index: Seq<(Seq<char>, Seq<char>)>,
)
    requires
        is_top_level(base, dir),
    ensures
        group_spec(base, dir, entry, index) == entry.title,
{
}

} // verus!
