use anime_manager::error::LibraryError;
use anime_manager::manifest::{new_manifest_model, prepare_manifest, NewAnimePayload};
use anime_manager::sync::{sync_step, SyncAction, SyncPhase};

fn payload(title: &str, episodes: i64, is_finished: bool) -> NewAnimePayload {
    NewAnimePayload {
        title: title.to_string(),
        fansub: Some(" Sub ".to_string()),
        subtitle_type: None,
        episodes,
        quality: None,
        note: Some("n".to_string()),
        is_finished,
    }
}

#[test]
fn blank_title_is_refused() {
    assert!(matches!(new_manifest_model(&payload("  ", 3, true)), Err(LibraryError::Validation(_))));
}

#[test]
fn finished_with_negative_episodes_is_refused() {
    assert!(matches!(new_manifest_model(&payload("T", -1, true)), Err(LibraryError::Validation(_))));
}

#[test]
fn unfinished_forces_sentinel() {
    let m = new_manifest_model(&payload(" T ", 12, false)).unwrap();
    assert_eq!(m.episodes, -1);
    assert_eq!(m.title, "T");
    assert_eq!(m.fansub, "Sub");
    assert_eq!(m.subtitle_type, "");
    assert_eq!(m.is_parent, None);
}

#[test]
fn finished_keeps_episodes_and_parent_flag() {
    let m = prepare_manifest(&payload("T", 0, true), true).unwrap();
    assert_eq!(m.episodes, 0);
    assert_eq!(m.is_parent, Some(true));
    let m = prepare_manifest(&payload("T", 7, true), false).unwrap();
    assert_eq!(m.episodes, 7);
    assert_eq!(m.is_parent, None);
}

fn run(total: usize, fail_at: Option<usize>) -> Vec<SyncAction> {
    let mut phase = SyncPhase::Idle;
    let mut ok = true;
    let mut actions = Vec::new();
    loop {
        let (next, action) = sync_step(phase, total, ok);
        phase = next;
        actions.push(action);
        match action {
            SyncAction::Finish | SyncAction::Abort => break,
            SyncAction::Insert(i) => ok = Some(i) != fail_at,
            _ => ok = true,
        }
    }
    actions
}

#[test]
fn reconcile_runs_every_step() {
    assert_eq!(
        run(2, None),
        vec![
            SyncAction::Begin,
            SyncAction::ClearRoot,
            SyncAction::Insert(0),
            SyncAction::Insert(1),
            SyncAction::Commit,
            SyncAction::Finish,
        ]
    );
    assert_eq!(run(0, None), vec![SyncAction::Begin, SyncAction::ClearRoot, SyncAction::Commit, SyncAction::Finish]);
}

#[test]
fn failed_insert_never_commits() {
    let actions = run(3, Some(1));
    assert_eq!(
        actions,
        vec![SyncAction::Begin, SyncAction::ClearRoot, SyncAction::Insert(0), SyncAction::Insert(1), SyncAction::Abort]
    );
    assert!(!actions.contains(&SyncAction::Commit));
}

#[test]
fn failed_begin_aborts() {
    assert_eq!(sync_step(SyncPhase::Beginning, 4, false), (SyncPhase::Aborted, SyncAction::Abort));
    assert_eq!(sync_step(SyncPhase::Committing, 4, false), (SyncPhase::Aborted, SyncAction::Abort));
    assert_eq!(sync_step(SyncPhase::Committing, 4, true), (SyncPhase::Done, SyncAction::Finish));
}

#[test]
fn unicode_blank_title_is_refused() {
    assert!(matches!(
        prepare_manifest(&payload("\u{3000}\u{a0}\t", 1, false), false),
        Err(LibraryError::Validation(_))
    ));
}
