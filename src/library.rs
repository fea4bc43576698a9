//! From the manifests found under a library root to the ordered list of its
//! entries.

use vstd::prelude::*;
use crate::entry::{
    EntryView, LibraryEntry, ManifestRaw, build_entry, containing_directory, entry_spec, title_or,
    title_or_fallback,
};
use crate::group::{ParentTitleIndex, group_spec, resolve_group_title};
use crate::paths::{DirPath, normalize_path, PathView, containing_dir, path_text};
use crate::text::{
    lemma_text_lt_asymmetric, lemma_text_lt_irreflexive, lemma_text_lt_total, lemma_text_lt_transitive,
    text_less, text_lt,
};

verus! {

/// A manifest file found under the library root, with what it holds.
#[derive(Clone, Debug, PartialEq, Eq)]
pub struct ScannedManifest {
    pub path: DirPath,
    pub raw: ManifestRaw,
}

/// The title that a parent manifest in `dir` gives its group: its trimmed
/// title, or else the name of `dir` (empty when `dir` has no component).
pub open spec fn parent_title_spec(dir: PathView, raw: ManifestRaw) -> Seq<char> {
    title_or(raw.title, if dir.parts.len() > 0 { dir.parts.last() } else { Seq::empty() })
}

/// The index of the titles of the parent manifests among `ms`, in order.
pub open spec fn index_spec(ms: Seq<ScannedManifest>) -> Seq<(Seq<char>, Seq<char>)>
    decreases ms.len(),
{
    if ms.len() == 0 {
        Seq::empty()
    } else {
        let rest = index_spec(ms.drop_last());
        let m = ms.last();
        if m.raw.is_parent {
            let dir = containing_dir(m.path@);
            rest.push((path_text(dir), parent_title_spec(dir, m.raw)))
        } else {
            rest
        }
    }
}

/// Builds the index of the titles that the parent manifests among `parsed`
/// give their groups.
pub fn build_parent_index(parsed: &Vec<ScannedManifest>) -> (r: ParentTitleIndex)
    ensures
        r@ == index_spec(parsed@),
{
    let mut index = ParentTitleIndex::new();
    let mut i: usize = 0;
    assert(parsed@.subrange(0, 0) =~= Seq::<ScannedManifest>::empty());
    while i < parsed.len()
        invariant
            i <= parsed@.len(),
            index@ == index_spec(parsed@.subrange(0, i as int)),
        decreases parsed@.len() - i,
    {
        let m = &parsed[i];
        assert(parsed@.subrange(0, i + 1).drop_last() =~= parsed@.subrange(0, i as int));
        if m.raw.is_parent {
            let dir = containing_directory(&m.path);
            let fallback = if dir.parts.len() > 0 {
                dir.parts[dir.parts.len() - 1].clone()
            } else {
                String::new()
            };
            let title = title_or_fallback(&m.raw.title, &fallback);
            index.insert(normalize_path(&dir), title);
        }
        i = i + 1;
    }
    assert(parsed@.subrange(0, parsed@.len() as int) =~= parsed@);
    index
}

/// Whether entry `a` goes strictly before entry `b`: by group, then by title.
pub open spec fn entry_lt(a: EntryView, b: EntryView) -> bool {
    text_lt(a.group, b.group) || (a.group == b.group && text_lt(a.title, b.title))
}

/// `s` with `x` inserted after every item that does not go after it.
pub open spec fn insert_sorted(s: Seq<EntryView>, x: EntryView) -> Seq<EntryView>
    decreases s.len(),
{
    if s.len() > 0 && entry_lt(x, s.last()) {
        insert_sorted(s.drop_last(), x).push(s.last())
    } else {
        s.push(x)
    }
}

/// `s` ordered by group, then title; items with equal keys keep their order.
pub open spec fn sort_spec(s: Seq<EntryView>) -> Seq<EntryView>
    decreases s.len(),
{
    if s.len() == 0 {
        s
    } else {
        insert_sorted(sort_spec(s.drop_last()), s.last())
    }
}

/// Whether no item of `s` goes strictly before the one in front of it.
pub open spec fn is_ordered(s: Seq<EntryView>) -> bool {
    forall|i: int| 0 < i < s.len() ==> !entry_lt(#[trigger] s[i], s[i - 1])
}

/// The entries of the non-parent manifests of `ms`, in order, each with its
/// group resolved against `index`.
pub open spec fn leaf_entries_spec(
    base: PathView,
    ms: Seq<ScannedManifest>,
    index: Seq<(Seq<char>, Seq<char>)>,
) -> Seq<EntryView>
    decreases ms.len(),
{
    if ms.len() == 0 {
        Seq::empty()
    } else {
        let rest = leaf_entries_spec(base, ms.drop_last(), index);
        let m = ms.last();
        if m.raw.is_parent {
            rest
        } else {
            let e = entry_spec(base, m.path@, m.raw);
            rest.push(EntryView { group: group_spec(base, containing_dir(m.path@), e, index), ..e })
        }
    }
}

/// The entries of the library at `base` whose manifests are `ms`: one for
/// each non-parent manifest, grouped, ordered by group and then title.
pub open spec fn library_entries_spec(base: PathView, ms: Seq<ScannedManifest>) -> Seq<EntryView> {
    sort_spec(leaf_entries_spec(base, ms, index_spec(ms)))
}

/// The views of a list of entries.
pub open spec fn entry_views(s: Seq<LibraryEntry>) -> Seq<EntryView> {
    s.map_values(|e: LibraryEntry| e@)
}

/// Whether entry `a` goes strictly before entry `b`.
pub fn entry_less(a: &LibraryEntry, b: &LibraryEntry) -> (r: bool)
    ensures
        r == entry_lt(a@, b@),
{
    if text_less(a.group.as_str(), b.group.as_str()) {
        true
    } else if a.group == b.group {
        text_less(a.title.as_str(), b.title.as_str())
    } else {
        false
    }
}

proof fn lemma_insert_at(s: Seq<EntryView>, x: EntryView, j: int)
    requires
        0 <= j <= s.len(),
        forall|k: int| j <= k < s.len() ==> entry_lt(x, #[trigger] s[k]),
        j == 0 || !entry_lt(x, s[j - 1]),
    ensures
        insert_sorted(s, x) == s.insert(j, x),
    decreases s.len(),
{
    if j < s.len() {
        assert(entry_lt(x, s.last()));
        lemma_insert_at(s.drop_last(), x, j);
        assert(s.drop_last().insert(j, x).push(s.last()) =~= s.insert(j, x));
    } else {
        assert(s.push(x) =~= s.insert(j, x));
    }
}

/// Inserts `x` into the ordered list `v` after every item that does not go
/// after it.
pub(crate) fn insert_entry(v: &mut Vec<LibraryEntry>, x: LibraryEntry)
    ensures
        entry_views(final(v)@) == insert_sorted(entry_views(old(v)@), x@),
        final(v)@.len() == old(v)@.len() + 1,
{
    let ghost s = entry_views(v@);
    let mut j: usize = v.len();
    while j > 0 && entry_less(&x, &v[j - 1])
        invariant
            j <= v@.len(),
            s == entry_views(v@),
            forall|k: int| j <= k < s.len() ==> entry_lt(x@, #[trigger] s[k]),
        decreases j,
    {
        j = j - 1;
    }
    proof {
        lemma_insert_at(s, x@, j as int);
    }
    v.insert(j, x);
    assert(entry_views(v@) =~= s.insert(j as int, x@));
}

/// Builds the entries of the library at `base` from the manifests found
/// under it: parent manifests name groups and give no entry; every other
/// manifest gives one entry, with its group resolved; the list is ordered by
/// group, then title, equal keys keeping the order of `parsed`.
pub fn build_library_entries(base: &DirPath, parsed: &Vec<ScannedManifest>) -> (r: Vec<
    LibraryEntry,
>)
    ensures
        entry_views(r@) == library_entries_spec(base@, parsed@),
{
    let index = build_parent_index(parsed);
    let ghost idx = index@;
    let mut entries: Vec<LibraryEntry> = Vec::new();
    let mut i: usize = 0;
    assert(parsed@.subrange(0, 0) =~= Seq::<ScannedManifest>::empty());
    assert(entry_views(entries@) =~= Seq::<EntryView>::empty());
    while i < parsed.len()
        invariant
            i <= parsed@.len(),
            index@ == idx,
            entry_views(entries@) == sort_spec(
                leaf_entries_spec(base@, parsed@.subrange(0, i as int), idx),
            ),
        decreases parsed@.len() - i,
    {
        let m = &parsed[i];
        assert(parsed@.subrange(0, i + 1).drop_last() =~= parsed@.subrange(0, i as int));
        if !m.raw.is_parent {
            let dir = containing_directory(&m.path);
            let mut entry = build_entry(base, &m.path, &m.raw);
            let group = resolve_group_title(base, &dir, &entry, &index);
            entry.group = group;
            proof {
                let u = leaf_entries_spec(base@, parsed@.subrange(0, i as int), idx);
                let e = entry_spec(base@, m.path@, m.raw);
                let sub = parsed@.subrange(0, i + 1);
                assert(sub.last() == *m);
                assert(entry@ == EntryView {
                    group: group_spec(base@, containing_dir(m.path@), e, idx),
                    ..e
                });
                assert(leaf_entries_spec(base@, sub, idx) == u.push(entry@));
                assert(u.push(entry@).drop_last() =~= u);
            }
            insert_entry(&mut entries, entry);
        }
        i = i + 1;
    }
    assert(parsed@.subrange(0, parsed@.len() as int) =~= parsed@);
    entries
}

/// No entry goes strictly before itself, nor both before and after another.
pub proof fn lemma_entry_lt_asymmetric(a: EntryView, b: EntryView)
    ensures
        !(entry_lt(a, b) && entry_lt(b, a)),
{
    lemma_text_lt_asymmetric(a.group, b.group);
    lemma_text_lt_asymmetric(a.title, b.title);
    lemma_text_lt_irreflexive(a.group);
}

proof fn lemma_insert_sorted_last(s: Seq<EntryView>, x: EntryView)
    ensures
        insert_sorted(s, x).len() == s.len() + 1,
        insert_sorted(s, x).last() == if s.len() > 0 && entry_lt(x, s.last()) {
            s.last()
        } else {
            x
        },
    decreases s.len(),
{
    if s.len() > 0 && entry_lt(x, s.last()) {
        lemma_insert_sorted_last(s.drop_last(), x);
    }
}

proof fn lemma_insert_sorted_ordered(s: Seq<EntryView>, x: EntryView)
    requires
        is_ordered(s),
    ensures
        is_ordered(insert_sorted(s, x)),
    decreases s.len(),
{
    if s.len() > 0 && entry_lt(x, s.last()) {
        let t = s.drop_last();
        assert(is_ordered(t)) by {
            assert forall|i: int| 0 < i < t.len() implies !entry_lt(#[trigger] t[i], t[i - 1]) by {
                assert(t[i] == s[i] && t[i - 1] == s[i - 1]);
            }
        }
        lemma_insert_sorted_ordered(t, x);
        lemma_insert_sorted_last(t, x);
        lemma_entry_lt_asymmetric(x, s.last());
        let r = insert_sorted(s, x);
        let r0 = insert_sorted(t, x);
        assert(r == r0.push(s.last()));
        assert forall|i: int| 0 < i < r.len() implies !entry_lt(#[trigger] r[i], r[i - 1]) by {
            if i < r.len() - 1 {
                assert(r[i] == r0[i] && r[i - 1] == r0[i - 1]);
            } else {
                assert(r[i - 1] == r0.last());
                if t.len() > 0 && entry_lt(x, t.last()) {
                    assert(s[s.len() - 1] == s.last());
                    assert(!entry_lt(s[s.len() - 1], s[s.len() - 2]));
                }
            }
        }
    } else {
        let r = s.push(x);
        assert forall|i: int| 0 < i < r.len() implies !entry_lt(#[trigger] r[i], r[i - 1]) by {
            if i < r.len() - 1 {
                assert(r[i] == s[i] && r[i - 1] == s[i - 1]);
            }
        }
    }
}

/// The ordering yields an ordered list.
pub proof fn lemma_sort_ordered(s: Seq<EntryView>)
    ensures
        is_ordered(sort_spec(s)),
        sort_spec(s).len() == s.len(),
    decreases s.len(),
{
    if s.len() > 0 {
        lemma_sort_ordered(s.drop_last());
        lemma_insert_sorted_ordered(sort_spec(s.drop_last()), s.last());
        lemma_insert_sorted_last(sort_spec(s.drop_last()), s.last());
    }
}

/// Ordering a list that is already ordered leaves it as it is.
pub proof fn lemma_sort_of_ordered(s: Seq<EntryView>)
    requires
        is_ordered(s),
    ensures
        sort_spec(s) == s,
    decreases s.len(),
{
    if s.len() > 0 {
        let t = s.drop_last();
        assert(is_ordered(t)) by {
            assert forall|i: int| 0 < i < t.len() implies !entry_lt(#[trigger] t[i], t[i - 1]) by {
                assert(t[i] == s[i] && t[i - 1] == s[i - 1]);
            }
        }
        lemma_sort_of_ordered(t);
        if t.len() > 0 {
            assert(!entry_lt(s[s.len() - 1], s[s.len() - 2]));
        }
        assert(t.push(s.last()) =~= s);
    }
}

/// A refresh of an unchanged tree gives the same list again: the entries
/// depend on the root and the manifests alone, and the list is already in
/// the order in which the store reads entries back, so ordering it again
/// changes nothing.
pub proof fn lemma_refresh_idempotent(base: PathView, ms: Seq<ScannedManifest>)
    ensures
        is_ordered(library_entries_spec(base, ms)),
        sort_spec(library_entries_spec(base, ms)) == library_entries_spec(base, ms),
{
    lemma_sort_ordered(leaf_entries_spec(base, ms, index_spec(ms)));
    lemma_sort_of_ordered(library_entries_spec(base, ms));
}

proof fn lemma_insert_sorted_multiset<A>(s: Seq<EntryView>, x: EntryView, f: spec_fn(EntryView) -> A)
    ensures
        insert_sorted(s, x).map_values(f).to_multiset() =~= s.map_values(f).to_multiset().insert(f(x)),
    decreases s.len(),
{
    broadcast use vstd::seq_lib::group_to_multiset_ensures;

    if s.len() > 0 && entry_lt(x, s.last()) {
        let t = s.drop_last();
        lemma_insert_sorted_multiset(t, x, f);
        assert(insert_sorted(s, x).map_values(f) =~= insert_sorted(t, x).map_values(f).push(f(s.last())));
        assert(s.map_values(f) =~= t.map_values(f).push(f(s.last())));
    } else {
        assert(s.push(x).map_values(f) =~= s.map_values(f).push(f(x)));
    }
}

/// Ordering only rearranges: whatever is taken of each entry (its `id`, or
/// the entry itself), the ordered list holds the same values as many times.
pub proof fn lemma_sort_permutes<A>(s: Seq<EntryView>, f: spec_fn(EntryView) -> A)
    ensures
        sort_spec(s).map_values(f).to_multiset() =~= s.map_values(f).to_multiset(),
    decreases s.len(),
{
    broadcast use vstd::seq_lib::group_to_multiset_ensures;

    if s.len() > 0 {
        let t = s.drop_last();
        lemma_sort_permutes(t, f);
        lemma_insert_sorted_multiset(sort_spec(t), s.last(), f);
        assert(s.map_values(f) =~= t.map_values(f).push(f(s.last())));
    }
}

/// The `id` of an entry.
pub open spec fn entry_id(e: EntryView) -> Seq<char> {
    e.id
}

proof fn lemma_leaf_ids_from_paths(
    base: PathView,
    ms1: Seq<ScannedManifest>,
    ms2: Seq<ScannedManifest>,
    i1: Seq<(Seq<char>, Seq<char>)>,
    i2: Seq<(Seq<char>, Seq<char>)>,
)
    requires
        ms1.len() == ms2.len(),
        forall|k: int|
            0 <= k < ms1.len() ==> #[trigger] ms1[k].path@ == ms2[k].path@ && ms1[k].raw.is_parent
                == ms2[k].raw.is_parent,
    ensures
        leaf_entries_spec(base, ms1, i1).map_values(|e: EntryView| entry_id(e)) == leaf_entries_spec(
            base,
            ms2,
            i2,
        ).map_values(|e: EntryView| entry_id(e)),
    decreases ms1.len(),
{
    if ms1.len() > 0 {
        let n = ms1.len() - 1;
        assert(ms1.last() == ms1[n] && ms2.last() == ms2[n]);
        assert forall|k: int| 0 <= k < ms1.drop_last().len() implies #[trigger] ms1.drop_last()[k].path@
            == ms2.drop_last()[k].path@ && ms1.drop_last()[k].raw.is_parent
            == ms2.drop_last()[k].raw.is_parent by {
            assert(ms1.drop_last()[k] == ms1[k] && ms2.drop_last()[k] == ms2[k]);
        }
        lemma_leaf_ids_from_paths(base, ms1.drop_last(), ms2.drop_last(), i1, i2);
        let r1 = leaf_entries_spec(base, ms1.drop_last(), i1);
        let r2 = leaf_entries_spec(base, ms2.drop_last(), i2);
        if !ms1.last().raw.is_parent {
            let e1 = entry_spec(base, ms1.last().path@, ms1.last().raw);
            let e2 = entry_spec(base, ms2.last().path@, ms2.last().raw);
            let g1 = EntryView { group: group_spec(base, containing_dir(ms1.last().path@), e1, i1), ..e1 };
            let g2 = EntryView { group: group_spec(base, containing_dir(ms2.last().path@), e2, i2), ..e2 };
            assert(r1.push(g1).map_values(|e: EntryView| entry_id(e)) =~= r1.map_values(
                |e: EntryView| entry_id(e),
            ).push(g1.id));
            assert(r2.push(g2).map_values(|e: EntryView| entry_id(e)) =~= r2.map_values(
                |e: EntryView| entry_id(e),
            ).push(g2.id));
        }
    }
}

/// A refresh after manifests changed in their fields (a title renamed, say)
/// but not in where they lie nor in which are parents gives entries with the
/// same `id`s as before, each as many times: play history recorded under
/// those `id`s still joins.
pub proof fn lemma_refresh_keeps_ids(base: PathView, ms1: Seq<ScannedManifest>, ms2: Seq<ScannedManifest>)
    requires
        ms1.len() == ms2.len(),
        forall|k: int|
            0 <= k < ms1.len() ==> #[trigger] ms1[k].path@ == ms2[k].path@ && ms1[k].raw.is_parent
                == ms2[k].raw.is_parent,
    ensures
        library_entries_spec(base, ms1).map_values(|e: EntryView| entry_id(e)).to_multiset()
            == library_entries_spec(base, ms2).map_values(|e: EntryView| entry_id(e)).to_multiset(),
{
    let l1 = leaf_entries_spec(base, ms1, index_spec(ms1));
    let l2 = leaf_entries_spec(base, ms2, index_spec(ms2));
    lemma_leaf_ids_from_paths(base, ms1, ms2, index_spec(ms1), index_spec(ms2));
    lemma_sort_permutes(l1, |e: EntryView| entry_id(e));
    lemma_sort_permutes(l2, |e: EntryView| entry_id(e));
}

proof fn lemma_sort_keeps_all(s: Seq<EntryView>, p: spec_fn(EntryView) -> bool)
    requires
        forall|i: int| 0 <= i < s.len() ==> p(#[trigger] s[i]),
    ensures
        forall|i: int| 0 <= i < sort_spec(s).len() ==> p(#[trigger] sort_spec(s)[i]),
        sort_spec(s).len() == s.len(),
{
    broadcast use vstd::seq_lib::group_to_multiset_ensures;

    lemma_sort_permutes(s, |e: EntryView| e);
    lemma_sort_ordered(s);
    let t = sort_spec(s);
    assert(s.map_values(|e: EntryView| e) =~= s);
    assert(t.map_values(|e: EntryView| e) =~= t);
    assert forall|i: int| 0 <= i < t.len() implies p(#[trigger] t[i]) by {
        assert(t.contains(t[i]));
        assert(t.to_multiset().count(t[i]) > 0);
        assert(s.contains(t[i]));
    }
}

proof fn lemma_top_level_leaves(base: PathView, ms: Seq<ScannedManifest>, idx: Seq<(Seq<char>, Seq<char>)>)
    requires
        forall|k: int|
            0 <= k < ms.len() ==> !(#[trigger] ms[k]).raw.is_parent && crate::group::is_top_level(
                base,
                containing_dir(ms[k].path@),
            ),
    ensures
        leaf_entries_spec(base, ms, idx).len() == ms.len(),
        forall|i: int|
            0 <= i < ms.len() ==> (#[trigger] leaf_entries_spec(base, ms, idx)[i]).group
                == leaf_entries_spec(base, ms, idx)[i].title,
    decreases ms.len(),
{
    if ms.len() > 0 {
        let t = ms.drop_last();
        assert forall|k: int| 0 <= k < t.len() implies !(#[trigger] t[k]).raw.is_parent
            && crate::group::is_top_level(base, containing_dir(t[k].path@)) by {
            assert(t[k] == ms[k]);
        }
        lemma_top_level_leaves(base, t, idx);
        assert(ms.last() == ms[ms.len() - 1]);
    }
}

/// A library whose manifests all lie in folders directly under the root,
/// none of them a parent, gives one entry per manifest, each in a group of
/// its own named by its title.
pub proof fn lemma_top_level_library(base: PathView, ms: Seq<ScannedManifest>)
    requires
        forall|k: int|
            0 <= k < ms.len() ==> !(#[trigger] ms[k]).raw.is_parent && crate::group::is_top_level(
                base,
                containing_dir(ms[k].path@),
            ),
    ensures
        library_entries_spec(base, ms).len() == ms.len(),
        forall|i: int|
            0 <= i < ms.len() ==> (#[trigger] library_entries_spec(base, ms)[i]).group
                == library_entries_spec(base, ms)[i].title,
{
    let l = leaf_entries_spec(base, ms, index_spec(ms));
    lemma_top_level_leaves(base, ms, index_spec(ms));
    let p = |e: EntryView| e.group == e.title;
    assert forall|i: int| 0 <= i < l.len() implies p(#[trigger] l[i]) by {}
    lemma_sort_keeps_all(l, p);
}

proof fn lemma_entry_lt_transitive(a: EntryView, b: EntryView, c: EntryView)
    requires
        entry_lt(a, b),
        entry_lt(b, c),
    ensures
        entry_lt(a, c),
{
    if text_lt(a.group, b.group) && text_lt(b.group, c.group) {
        lemma_text_lt_transitive(a.group, b.group, c.group);
    } else if a.group == b.group && b.group == c.group {
        lemma_text_lt_transitive(a.title, b.title, c.title);
    }
}

/// "Not after" is transitive: if `b` does not go before `a`, nor `c` before
/// `b`, then `c` does not go before `a`.
proof fn lemma_not_before_transitive(a: EntryView, b: EntryView, c: EntryView)
    requires
        !entry_lt(b, a),
        !entry_lt(c, b),
    ensures
        !entry_lt(c, a),
{
    if entry_lt(c, a) {
        if entry_lt(b, c) {
            lemma_entry_lt_transitive(b, c, a);
        } else if b.group == c.group && b.title == c.title {
        } else {
            if b.group != c.group {
                lemma_text_lt_total(b.group, c.group);
            } else {
                lemma_text_lt_total(b.title, c.title);
            }
        }
    }
}

/// In an ordered list no later entry goes before an earlier one, however
/// far apart they stand.
pub proof fn lemma_ordered_all_pairs(s: Seq<EntryView>, i: int, j: int)
    requires
        is_ordered(s),
        0 <= i < j < s.len(),
    ensures
        !entry_lt(s[j], s[i]),
    decreases j - i,
{
    if j > i + 1 {
        lemma_ordered_all_pairs(s, i, j - 1);
        assert(!entry_lt(s[j], s[j - 1]));
        lemma_not_before_transitive(s[i], s[j - 1], s[j]);
    }
}

} // verus!
