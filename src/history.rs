//! Play history, kept apart from entries and joined to them by entry `id`
//! when entries are read back.

use vstd::prelude::*;
use crate::entry::{EntryView, LibraryEntry, ManifestRaw, entry_spec};
use crate::library::{
    ScannedManifest, entry_lt, entry_views, insert_entry, is_ordered, lemma_refresh_idempotent,
    lemma_sort_of_ordered, library_entries_spec, sort_spec,
};
use crate::paths::PathView;

verus! {

/// What was played last in an entry.
#[derive(Clone, Debug, PartialEq, Eq)]
pub struct PlayRecord {
    pub entry_id: String,
    pub last_played_path: String,
    pub last_played_name: String,
    pub updated_at: i64,
}

/// The record for `id` among `history`, the last one when several match.
pub open spec fn record_for(history: Seq<PlayRecord>, id: Seq<char>) -> Option<PlayRecord>
    decreases history.len(),
{
    if history.len() == 0 {
        None
    } else if history.last().entry_id@ == id {
        Some(history.last())
    } else {
        record_for(history.drop_last(), id)
    }
}

/// `e` with the play history recorded under its `id`, or with empty history
/// fields when there is none.
pub open spec fn with_history(e: EntryView, history: Seq<PlayRecord>) -> EntryView {
    match record_for(history, e.id) {
        Some(r) => EntryView {
            last_played_path: r.last_played_path@,
            last_played_name: r.last_played_name@,
            last_played_at: r.updated_at,
            ..e
        },
        None => EntryView {
            last_played_path: Seq::empty(),
            last_played_name: Seq::empty(),
            last_played_at: 0,
            ..e
        },
    }
}

/// Each of `s` with its play history.
pub open spec fn joined(s: Seq<EntryView>, history: Seq<PlayRecord>) -> Seq<EntryView> {
    s.map_values(|e: EntryView| with_history(e, history))
}

/// The record for `id` among `history`, if any.
fn find_record(history: &Vec<PlayRecord>, id: &String) -> (r: Option<usize>)
    ensures
        match r {
            Some(k) => k < history@.len() && record_for(history@, id@) == Some(history@[k as int]),
            None => record_for(history@, id@) is None,
        },
{
    let mut i: usize = history.len();
    assert(history@.subrange(0, i as int) =~= history@);
    while i > 0
        invariant
            i <= history@.len(),
            record_for(history@, id@) == record_for(history@.subrange(0, i as int), id@),
        decreases i,
    {
        if history[i - 1].entry_id == *id {
            return Some(i - 1);
        }
        assert(history@.subrange(0, i as int).drop_last() =~= history@.subrange(0, i - 1));
        i = i - 1;
    }
    None
}

/// Fills the history fields of `entry` from `history`.
pub fn attach_history(entry: &mut LibraryEntry, history: &Vec<PlayRecord>)
    ensures
        final(entry)@ == with_history(old(entry)@, history@),
{
    match find_record(history, &entry.id) {
        Some(k) => {
            let r = &history[k];
            entry.last_played_path = r.last_played_path.clone();
            entry.last_played_name = r.last_played_name.clone();
            entry.last_played_at = r.updated_at;
        },
        None => {
            entry.last_played_path = String::new();
            entry.last_played_name = String::new();
            entry.last_played_at = 0;
        },
    }
}

/// The stored entries of a library root as they are read back: each joined
/// with its play history, ordered by group, then title.
pub fn load_joined(stored: Vec<LibraryEntry>, history: &Vec<PlayRecord>) -> (r: Vec<LibraryEntry>)
    ensures
        entry_views(r@) == sort_spec(joined(entry_views(stored@), history@)),
{
    let ghost all = joined(entry_views(stored@), history@);
    let mut out: Vec<LibraryEntry> = Vec::new();
    let mut rest = stored;
    let ghost src = rest@;
    let mut i: usize = 0;
    assert(entry_views(out@) =~= sort_spec(all.subrange(0, 0)));
    assert(src.subrange(0, src.len() as int) =~= src);
    while rest.len() > 0
        invariant
            i == out@.len(),
            i + rest@.len() == src.len(),
            rest@ == src.subrange(i as int, src.len() as int),
            all == joined(entry_views(src), history@),
            entry_views(out@) == sort_spec(all.subrange(0, i as int)),
        decreases rest@.len(),
    {
        let mut e = rest.remove(0);
        assert(e == src[i as int]);
        attach_history(&mut e, history);
        assert(all.subrange(0, i + 1).drop_last() =~= all.subrange(0, i as int));
        assert(all[i as int] == e@);
        insert_entry(&mut out, e);
        i = out.len();
    }
    assert(all.subrange(0, all.len() as int) =~= all);
    out
}

/// Renaming the title (or changing any other field) of a manifest without
/// moving its directory keeps the entry's play history: after a refresh the
/// entry joins the same record as before.
pub proof fn lemma_history_follows_entry(
    base: PathView,
    manifest: PathView,
    raw1: ManifestRaw,
    raw2: ManifestRaw,
    history: Seq<PlayRecord>,
)
    ensures
        with_history(entry_spec(base, manifest, raw1), history).last_played_path == with_history(
            entry_spec(base, manifest, raw2),
            history,
        ).last_played_path,
        with_history(entry_spec(base, manifest, raw1), history).last_played_name == with_history(
            entry_spec(base, manifest, raw2),
            history,
        ).last_played_name,
        with_history(entry_spec(base, manifest, raw1), history).last_played_at == with_history(
            entry_spec(base, manifest, raw2),
            history,
        ).last_played_at,
{
}

/// Reading back what a refresh stored gives the refreshed list, in the same
/// order, each entry with its play history: so two refreshes of an unchanged
/// tree read back identical lists.
pub proof fn lemma_reload_after_refresh(base: PathView, ms: Seq<ScannedManifest>, history: Seq<PlayRecord>)
    ensures
        sort_spec(joined(library_entries_spec(base, ms), history)) == joined(
            library_entries_spec(base, ms),
            history,
        ),
{
    let r = library_entries_spec(base, ms);
    lemma_refresh_idempotent(base, ms);
    let j = joined(r, history);
    assert(is_ordered(j)) by {
        assert forall|i: int| 0 < i < j.len() implies !entry_lt(#[trigger] j[i], j[i - 1]) by {
            assert(!entry_lt(r[i], r[i - 1]));
            assert(j[i].group == r[i].group && j[i].title == r[i].title);
            assert(j[i - 1].group == r[i - 1].group && j[i - 1].title == r[i - 1].title);
        }
    }
    lemma_sort_of_ordered(j);
}

} // verus!
