use anime_manager::sync::{sync_step, SyncAction, SyncPhase};
use rusqlite::Connection;

fn store() -> Connection {
    let conn = Connection::open_in_memory().unwrap();
    conn.execute_batch(
        "CREATE TABLE manifest_entries (id TEXT PRIMARY KEY, library_root TEXT NOT NULL, title TEXT);",
    )
    .unwrap();
    conn.execute("INSERT INTO manifest_entries VALUES ('/lib::Old', '/lib', 'Old')", []).unwrap();
    conn
}

fn rows(conn: &Connection) -> Vec<(String, String)> {
    let mut stmt = conn.prepare("SELECT id, title FROM manifest_entries ORDER BY id").unwrap();
    let mapped = stmt.query_map([], |r| Ok((r.get(0)?, r.get(1)?))).unwrap();
    mapped.map(|r| r.unwrap()).collect()
}

fn replace(conn: &Connection, entries: &[(&str, &str)]) -> SyncAction {
    let mut phase = SyncPhase::Idle;
    let mut ok = true;
    let mut tx = None;
    loop {
        let (next, action) = sync_step(phase, entries.len(), ok);
        phase = next;
        ok = match action {
            SyncAction::Begin => match conn.unchecked_transaction() {
                Ok(t) => {
                    tx = Some(t);
                    true
                }
                Err(_) => false,
            },
            SyncAction::ClearRoot => tx
                .as_ref()
                .unwrap()
                .execute("DELETE FROM manifest_entries WHERE library_root = '/lib'", [])
                .is_ok(),
            SyncAction::Insert(i) => tx
                .as_ref()
                .unwrap()
                .execute(
                    "INSERT INTO manifest_entries VALUES (?1, '/lib', ?2)",
                    [entries[i].0, entries[i].1],
                )
                .is_ok(),
            SyncAction::Commit => tx.take().unwrap().commit().is_ok(),
            SyncAction::Finish | SyncAction::Abort => return action,
        };
    }
}

#[test]
fn failed_insert_keeps_previous_rows() {
    let conn = store();
    let outcome = replace(&conn, &[("/lib::A", "A"), ("/lib::A", "duplicate"), ("/lib::C", "C")]);
    assert_eq!(outcome, SyncAction::Abort);
    assert_eq!(rows(&conn), vec![("/lib::Old".to_string(), "Old".to_string())]);
}

#[test]
fn successful_run_replaces_rows() {
    let conn = store();
    let outcome = replace(&conn, &[("/lib::A", "A"), ("/lib::B", "B")]);
    assert_eq!(outcome, SyncAction::Finish);
    assert_eq!(
        rows(&conn),
        vec![("/lib::A".to_string(), "A".to_string()), ("/lib::B".to_string(), "B".to_string())]
    );
}
