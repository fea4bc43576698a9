//! The decisions of a reconciliation: replacing every stored entry of a
//! library root with a new list, inside one transaction of the store.
//!
//! The caller starts in [`SyncPhase::Idle`], calls [`sync_step`] with the
//! outcome of the action it performed last (any value the first time),
//! performs the action it is given, and stops on `Finish` or `Abort`.

use vstd::prelude::*;

verus! {

/// How far a reconciliation has come.
#[derive(PartialEq, Eq, Structural, Clone, Copy, Debug)]
pub enum SyncPhase {
    Idle,
    Beginning,
    Clearing,
    Inserting(usize),
    Committing,
    Done,
    Aborted,
}

/// What the caller does next.
#[derive(PartialEq, Eq, Structural, Clone, Copy, Debug)]
pub enum SyncAction {
    /// Open a transaction.
    Begin,
    /// Delete every stored entry of the library root.
    ClearRoot,
    /// Insert the entry at this position of the new list.
    Insert(usize),
    /// Commit the transaction.
    Commit,
    /// Stop: the new list is stored.
    Finish,
    /// Stop and drop the transaction: nothing it did is kept.
    Abort,
}

/// The next phase and action, given the phase, the length of the new list
/// and whether the last action succeeded.
pub open spec fn step_spec(phase: SyncPhase, total: usize, ok: bool) -> (SyncPhase, SyncAction) {
    match phase {
        SyncPhase::Idle => (SyncPhase::Beginning, SyncAction::Begin),
        SyncPhase::Done => (SyncPhase::Done, SyncAction::Finish),
        SyncPhase::Aborted => (SyncPhase::Aborted, SyncAction::Abort),
        _ => if !ok {
            (SyncPhase::Aborted, SyncAction::Abort)
        } else {
            match phase {
                SyncPhase::Beginning => (SyncPhase::Clearing, SyncAction::ClearRoot),
                SyncPhase::Clearing => if total == 0 {
                    (SyncPhase::Committing, SyncAction::Commit)
                } else {
                    (SyncPhase::Inserting(0), SyncAction::Insert(0))
                },
                SyncPhase::Inserting(i) => if i + 1 < total {
                    (SyncPhase::Inserting((i + 1) as usize), SyncAction::Insert((i + 1) as usize))
                } else {
                    (SyncPhase::Committing, SyncAction::Commit)
                },
                _ => (SyncPhase::Done, SyncAction::Finish),
            }
        },
    }
}

/// Decides the next step of a reconciliation of `total` entries.
pub fn sync_step(phase: SyncPhase, total: usize, last_ok: bool) -> (r: (SyncPhase, SyncAction))
    ensures
        r == step_spec(phase, total, last_ok),
{
    match phase {
        SyncPhase::Idle => (SyncPhase::Beginning, SyncAction::Begin),
        SyncPhase::Done => (SyncPhase::Done, SyncAction::Finish),
        SyncPhase::Aborted => (SyncPhase::Aborted, SyncAction::Abort),
        _ => {
            if !last_ok {
                return (SyncPhase::Aborted, SyncAction::Abort);
            }
            match phase {
                SyncPhase::Beginning => (SyncPhase::Clearing, SyncAction::ClearRoot),
                SyncPhase::Clearing => if total == 0 {
                    (SyncPhase::Committing, SyncAction::Commit)
                } else {
                    (SyncPhase::Inserting(0), SyncAction::Insert(0))
                },
                SyncPhase::Inserting(i) => if i < total && i + 1 < total {
                    (SyncPhase::Inserting(i + 1), SyncAction::Insert(i + 1))
                } else {
                    (SyncPhase::Committing, SyncAction::Commit)
                },
                _ => (SyncPhase::Done, SyncAction::Finish),
            }
        },
    }
}

/// The phase reached after the outcomes `events` were handed in, one per
/// call, starting from `Idle`.
pub open spec fn phase_after(total: usize, events: Seq<bool>) -> SyncPhase
    decreases events.len(),
{
    if events.len() == 0 {
        SyncPhase::Idle
    } else {
        step_spec(phase_after(total, events.drop_last()), total, events.last()).0
    }
}

/// The phase after `k` calls when every action succeeded.
pub open spec fn expected_phase(total: usize, k: int) -> SyncPhase {
    if k <= 0 {
        SyncPhase::Idle
    } else if k == 1 {
        SyncPhase::Beginning
    } else if k == 2 {
        SyncPhase::Clearing
    } else if k < total + 3 {
        SyncPhase::Inserting((k - 3) as usize)
    } else if k == total + 3 {
        SyncPhase::Committing
    } else {
        SyncPhase::Done
    }
}

/// What the store holds for the library root after a reconciliation that
/// received `events`: the new list once the commit has succeeded, and
/// otherwise what it held before, since the transaction was not committed.
pub open spec fn stored_after<T>(before: Seq<T>, new: Seq<T>, events: Seq<bool>) -> Seq<T> {
    if phase_after(new.len() as usize, events) == SyncPhase::Done {
        new
    } else {
        before
    }
}

proof fn lemma_phase_progress(total: usize, events: Seq<bool>, k: int)
    requires
        0 <= k <= events.len(),
        total < usize::MAX,
    ensures
        phase_after(total, events.subrange(0, k)) == expected_phase(total, k)
            || phase_after(total, events.subrange(0, k)) == SyncPhase::Aborted,
    decreases k,
{
    if k > 0 {
        lemma_phase_progress(total, events, k - 1);
        assert(events.subrange(0, k).drop_last() =~= events.subrange(0, k - 1));
    }
}

proof fn lemma_aborted_stays(total: usize, events: Seq<bool>, k: int, m: int)
    requires
        0 <= k <= m <= events.len(),
        phase_after(total, events.subrange(0, k)) == SyncPhase::Aborted,
    ensures
        phase_after(total, events.subrange(0, m)) == SyncPhase::Aborted,
    decreases m - k,
{
    if m > k {
        lemma_aborted_stays(total, events, k, m - 1);
        assert(events.subrange(0, m).drop_last() =~= events.subrange(0, m - 1));
    }
}

/// A reconciliation in which the insertion of the entry at position `n`
/// fails never commits: the store keeps, for the library root, what it held
/// before, whatever outcomes follow.
pub proof fn lemma_failed_insert_keeps_store<T>(before: Seq<T>, new: Seq<T>, events: Seq<bool>, n: int)
    requires
        0 <= n < new.len() < usize::MAX,
        n + 3 < events.len(),
        !events[n + 3],
    ensures
        phase_after(new.len() as usize, events) == SyncPhase::Aborted,
        stored_after(before, new, events) == before,
{
    let total = new.len() as usize;
    lemma_phase_progress(total, events, n + 3);
    let e = events.subrange(0, n + 4);
    assert(e.drop_last() =~= events.subrange(0, n + 3));
    assert(phase_after(total, e) == SyncPhase::Aborted);
    lemma_aborted_stays(total, events, n + 4, events.len() as int);
    assert(events.subrange(0, events.len() as int) =~= events);
}

/// When every action succeeds, the run opens a transaction, clears the
/// root, inserts each entry in order, commits, and stores the new list.
pub proof fn lemma_successful_run<T>(before: Seq<T>, new: Seq<T>, events: Seq<bool>)
    requires
        new.len() < usize::MAX,
        events.len() == new.len() + 4,
        forall|i: int| 0 <= i < events.len() ==> events[i],
    ensures
        forall|k: int|
            0 <= k <= events.len() ==> phase_after(new.len() as usize, #[trigger] events.subrange(0, k))
                == expected_phase(new.len() as usize, k),
        stored_after(before, new, events) == new,
{
    let total = new.len() as usize;
    assert forall|k: int| 0 <= k <= events.len() implies phase_after(
        total,
        #[trigger] events.subrange(0, k),
    ) == expected_phase(total, k) by {
        lemma_all_ok_progress(total, events, k);
    }
    assert(events.subrange(0, events.len() as int) =~= events);
}

proof fn lemma_all_ok_progress(total: usize, events: Seq<bool>, k: int)
    requires
        0 <= k <= events.len(),
        total < usize::MAX,
        forall|i: int| 0 <= i < events.len() ==> events[i],
    ensures
        phase_after(total, events.subrange(0, k)) == expected_phase(total, k),
    decreases k,
{
    if k > 0 {
        lemma_all_ok_progress(total, events, k - 1);
        assert(events.subrange(0, k).drop_last() =~= events.subrange(0, k - 1));
    }
}

} // verus!
