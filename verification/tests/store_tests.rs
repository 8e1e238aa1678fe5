use stash::commands::{
    ClipboardDb, DecodeCommand, DeleteCommand, ImportCommand, ListCommand, QueryCommand,
    StoreCommand, WipeCommand,
};
use stash::errors::StashError;
use stash::store::{SqliteClipboardDb, StorePolicy};

fn open_store() -> SqliteClipboardDb {
    let conn = rusqlite::Connection::open_in_memory().unwrap();
    SqliteClipboardDb::new(conn).unwrap()
}

fn plain_policy(window: u64, cap: u64) -> StorePolicy {
    StorePolicy {
        max_dedupe_search: window,
        max_items: cap,
        min_size: 0,
        max_size: 5_000_000,
        sensitive_patterns: Vec::new(),
        excluded_apps: Vec::new(),
    }
}

#[test]
fn store_assigns_increasing_ids() {
    let mut s = open_store();
    let p = plain_policy(100, 1000);
    assert_eq!(s.store(b"one", &p, None, 10).unwrap(), 1);
    assert_eq!(s.store(b"two", &p, None, 11).unwrap(), 2);
    assert_eq!(s.store(b"three", &p, None, 12).unwrap(), 3);
    assert_eq!(s.len(), 3);
}

#[test]
fn dedup_keeps_one_row_with_newer_id() {
    // Storing identical bytes twice within the dedupe window leaves
    // exactly one row for that content; its id is the newer one.
    let mut s = open_store();
    let p = plain_policy(100, 1000);
    assert_eq!(s.store(b"hello", &p, None, 10).unwrap(), 1);
    assert_eq!(s.store(b"hello", &p, None, 11).unwrap(), 2);
    assert_eq!(s.len(), 1);
    let rows = s.list(true, 0);
    assert_eq!(rows.len(), 1);
    assert_eq!(rows[0].id, 2);
    assert_eq!(rows[0].contents, b"hello".to_vec());
}

#[test]
fn dedup_outside_window_keeps_both() {
    let mut s = open_store();
    let p = plain_policy(1, 1000);
    s.store(b"hello", &p, None, 10).unwrap();
    s.store(b"other", &p, None, 11).unwrap();
    // "hello" is now outside the one-row lookback window.
    s.store(b"hello", &p, None, 12).unwrap();
    assert_eq!(s.len(), 3);
}

#[test]
fn capacity_evicts_smallest_ids() {
    let mut s = open_store();
    let p = plain_policy(100, 2);
    s.store(b"a", &p, None, 1).unwrap();
    s.store(b"b", &p, None, 2).unwrap();
    s.store(b"c", &p, None, 3).unwrap();
    assert_eq!(s.len(), 2);
    let mut ids: Vec<u64> = s.list(true, 0).iter().map(|r| r.id).collect();
    ids.sort();
    assert_eq!(ids, vec![2, 3]);
}

#[test]
fn scenario_dedup_then_capacity() {
    // Store "hello" -> id 1.  Store "hello" again inside the dedupe
    // window -> id 1 is removed, id 2 inserted, count stays 1.  With
    // capacity 1, store "world" -> id 2 evicted, id 3 remains, count 1.
    let mut s = open_store();
    let p = plain_policy(100, 1000);
    assert_eq!(s.store(b"hello", &p, None, 10).unwrap(), 1);
    assert_eq!(s.store(b"hello", &p, None, 11).unwrap(), 2);
    assert_eq!(s.len(), 1);
    let tight = plain_policy(100, 1);
    assert_eq!(s.store(b"world", &tight, None, 12).unwrap(), 3);
    assert_eq!(s.len(), 1);
    let rows = s.list(true, 0);
    assert_eq!(rows[0].id, 3);
    assert_eq!(rows[0].contents, b"world".to_vec());
}

#[test]
fn rejects_empty_and_oversize_and_whitespace() {
    let mut s = open_store();
    let mut p = plain_policy(100, 1000);
    assert!(matches!(s.store(b"", &p, None, 1), Err(StashError::EmptyOrTooLarge)));
    p.max_size = 3;
    assert!(matches!(s.store(b"abcd", &p, None, 1), Err(StashError::EmptyOrTooLarge)));
    p.min_size = 2;
    assert!(matches!(s.store(b"a", &p, None, 1), Err(StashError::EmptyOrTooLarge)));
    p.min_size = 0;
    p.max_size = 5_000_000;
    assert!(matches!(s.store(b" \t\n ", &p, None, 1), Err(StashError::AllWhitespace)));
    assert_eq!(s.len(), 0);
}

#[test]
fn rejects_sensitive_textual_content() {
    let mut s = open_store();
    let mut p = plain_policy(100, 1000);
    p.sensitive_patterns = vec![b"secret".to_vec()];
    assert!(matches!(s.store(b"my secret token", &p, None, 1), Err(StashError::Sensitive)));
    // Binary data is never matched against sensitive patterns.
    let mut binary = b"secret".to_vec();
    binary.push(0x80);
    binary.push(0x81);
    assert!(s.store(&binary, &p, None, 2).is_ok());
}

#[test]
fn rejects_excluded_application() {
    let mut s = open_store();
    let mut p = plain_policy(100, 1000);
    p.excluded_apps = vec!["^keepassxc$".to_string(), "fire*".to_string()];
    let app = "keepassxc".to_string();
    assert!(matches!(
        s.store(b"password", &p, Some(&app), 1),
        Err(StashError::ExcludedByApp(_))
    ));
    let fox = "firefox".to_string();
    assert!(matches!(s.store(b"page", &p, Some(&fox), 2), Err(StashError::ExcludedByApp(_))));
    let other = "alacritty".to_string();
    assert!(s.store(b"shell", &p, Some(&other), 3).is_ok());
}

#[test]
fn recency_listing_order_and_copy_promotion() {
    // Default listing is ordered by last_accessed desc, id desc; copying
    // a non-freshest duplicate-digest row re-stamps it to the maximum.
    let mut s = open_store();
    let p = plain_policy(100, 1000);
    s.store(b"a", &p, None, 10).unwrap(); // id 1
    s.store(b"b", &p, None, 20).unwrap(); // id 2
    s.store(b"c", &p, None, 30).unwrap(); // id 3
    let rows = s.list(false, 0);
    let ids: Vec<u64> = rows.iter().map(|r| r.id).collect();
    assert_eq!(ids, vec![3, 2, 1]);

    // Promote id 1: it is not the freshest among its digest group (it is
    // alone in it, hence freshest; nothing changes).
    s.copy_entry(1, 40).unwrap();
    let ids: Vec<u64> = s.list(false, 0).iter().map(|r| r.id).collect();
    assert_eq!(ids, vec![3, 2, 1]);

    // Give id 1 a duplicate-digest sibling that is fresher, then copy
    // the stale one: it must be re-stamped to the new maximum.
    let wide = plain_policy(0, 1000); // window 0: no dedup purge
    s.store(b"a", &wide, None, 50).unwrap(); // id 4, same digest as id 1
    s.copy_entry(1, 60).unwrap();
    let rows = s.list(false, 0);
    assert_eq!(rows[0].id, 1);
    assert_eq!(rows[0].last_accessed, 60);
}

#[test]
fn ttl_rows_leave_default_listing() {
    // A row with elapsed expires_at never appears in a default listing.
    let mut s = open_store();
    let p = plain_policy(100, 1000);
    let id = s.store(b"fleeting", &p, None, 10).unwrap();
    s.set_expiration(id, 100).unwrap();
    assert_eq!(s.list(false, 50).len(), 1);
    assert_eq!(s.list(false, 100).len(), 0); // elapsed at its own timestamp
    assert_eq!(s.list(true, 100).len(), 1); // still present when requested
    // The soft flag alone also hides a row: only the unflagged, unelapsed
    // row remains listed.
    let id2 = s.store(b"flagged", &p, None, 20).unwrap();
    s.mark_expired(id2).unwrap();
    let listed = s.list(false, 50);
    assert_eq!(listed.len(), 1);
    assert_eq!(listed[0].contents, b"fleeting".to_vec());
}

#[test]
fn cleanup_hard_deletes_elapsed_rows() {
    let mut s = open_store();
    let p = plain_policy(100, 1000);
    let a = s.store(b"a", &p, None, 10).unwrap();
    let b = s.store(b"b", &p, None, 10).unwrap();
    s.set_expiration(a, 100).unwrap();
    s.set_expiration(b, 200).unwrap();
    assert_eq!(s.cleanup_expired(150).unwrap(), 1);
    assert_eq!(s.len(), 1);
    // The sweep is idempotent.
    assert_eq!(s.cleanup_expired(150).unwrap(), 0);
}

#[test]
fn next_expiration_reports_earliest() {
    let mut s = open_store();
    let p = plain_policy(100, 1000);
    let a = s.store(b"a", &p, None, 10).unwrap();
    let b = s.store(b"b", &p, None, 10).unwrap();
    assert_eq!(s.next_expiration(), None);
    s.set_expiration(a, 500).unwrap();
    s.set_expiration(b, 300).unwrap();
    assert_eq!(s.next_expiration(), Some((300, b)));
}

#[test]
fn migration_is_idempotent() {
    // Re-running migration on an already-migrated database changes
    // neither schema version nor row count.
    let conn = rusqlite::Connection::open_in_memory().unwrap();
    let mut s = SqliteClipboardDb::new(conn).unwrap();
    let p = plain_policy(100, 1000);
    s.store(b"persisted", &p, None, 10).unwrap();
    let count_before = s.len();
    let conn = s.into_connection();
    let version: u64 = conn.query_row("PRAGMA user_version", [], |r| r.get(0)).unwrap();
    assert_eq!(version, 5);
    let s2 = SqliteClipboardDb::new(conn).unwrap();
    assert_eq!(s2.len(), count_before);
    let conn = s2.into_connection();
    let version: u64 = conn.query_row("PRAGMA user_version", [], |r| r.get(0)).unwrap();
    assert_eq!(version, 5);
}

#[test]
fn migration_brings_legacy_schema_forward() {
    // A database from before the versioned schema (plain id/contents/mime
    // table, version 0) is brought to the current version with its rows
    // intact.
    let conn = rusqlite::Connection::open_in_memory().unwrap();
    conn.execute_batch(
        "CREATE TABLE clipboard (
             id INTEGER PRIMARY KEY,
             contents BLOB NOT NULL,
             mime TEXT
         );
         INSERT INTO clipboard (id, contents, mime) VALUES (7, x'68690a', 'text/plain');",
    )
    .unwrap();
    let s = SqliteClipboardDb::new(conn).unwrap();
    assert_eq!(s.len(), 1);
    let e = s.get(7).unwrap();
    assert_eq!(e.contents, b"hi\n".to_vec());
    assert_eq!(s.next_sequence(), 8);
}

#[test]
fn identities_are_never_reused_across_reopen() {
    // Deleting the newest row must not free its identity: the persisted
    // high-water mark carries across a reopen.
    let conn = rusqlite::Connection::open_in_memory().unwrap();
    let mut s = SqliteClipboardDb::new(conn).unwrap();
    let p = plain_policy(100, 1000);
    assert_eq!(s.store(b"first", &p, None, 10).unwrap(), 1);
    assert_eq!(s.store(b"second", &p, None, 11).unwrap(), 2);
    s.delete_last().unwrap();
    let conn = s.into_connection();
    let mut s = SqliteClipboardDb::new(conn).unwrap();
    assert_eq!(s.next_sequence(), 3);
    assert_eq!(s.store(b"third", &p, None, 12).unwrap(), 3);
    // A wipe resets the identity sequence, and the reset persists too.
    WipeCommand::wipe(&mut s).unwrap();
    let conn = s.into_connection();
    let mut s = SqliteClipboardDb::new(conn).unwrap();
    assert_eq!(s.next_sequence(), 1);
    assert_eq!(s.store(b"fresh", &p, None, 13).unwrap(), 1);
}

#[test]
fn delete_last_retracts_most_recent() {
    let mut s = open_store();
    let p = plain_policy(100, 1000);
    s.store(b"keep", &p, None, 10).unwrap();
    s.store(b"retract", &p, None, 11).unwrap();
    s.delete_last().unwrap();
    assert_eq!(s.len(), 1);
    assert_eq!(s.list(true, 0)[0].contents, b"keep".to_vec());
    s.delete_last().unwrap();
    assert!(matches!(s.delete_last(), Err(StashError::NoEntriesToDelete)));
}

#[test]
fn wipe_resets_identity_sequence() {
    let mut s = open_store();
    let p = plain_policy(100, 1000);
    s.store(b"a", &p, None, 10).unwrap();
    s.store(b"b", &p, None, 11).unwrap();
    WipeCommand::wipe(&mut s).unwrap();
    assert_eq!(s.len(), 0);
    assert_eq!(s.store(b"fresh", &p, None, 12).unwrap(), 1);
}

#[test]
fn delete_by_query_matches_bytes() {
    let mut s = open_store();
    let p = plain_policy(100, 1000);
    s.store(b"alpha beta", &p, None, 10).unwrap();
    s.store(b"gamma", &p, None, 11).unwrap();
    s.store(b"beta gamma", &p, None, 12).unwrap();
    let n = QueryCommand::query_delete(&mut s, "beta").unwrap();
    assert_eq!(n, 2);
    assert_eq!(s.len(), 1);
    assert_eq!(s.list(true, 0)[0].contents, b"gamma".to_vec());
}

#[test]
fn delete_by_lines_parses_first_field() {
    let mut s = open_store();
    let p = plain_policy(100, 1000);
    s.store(b"a", &p, None, 10).unwrap(); // id 1
    s.store(b"b", &p, None, 11).unwrap(); // id 2
    s.store(b"c", &p, None, 12).unwrap(); // id 3
    let lines = vec!["1\tpreviewed text".to_string(), "nonsense".to_string(), "3".to_string()];
    let n = DeleteCommand::delete(&mut s, &lines).unwrap();
    assert_eq!(n, 2);
    assert_eq!(s.len(), 1);
    assert_eq!(s.list(true, 0)[0].id, 2);
}

#[test]
fn decode_returns_raw_contents() {
    let mut s = open_store();
    let p = plain_policy(100, 1000);
    let id = s.store(b"payload bytes", &p, None, 10).unwrap();
    let line = format!("{}\tsome preview", id);
    assert_eq!(DecodeCommand::decode(&s, &line).unwrap(), b"payload bytes".to_vec());
    assert!(matches!(
        DecodeCommand::decode(&s, "999\tgone"),
        Err(StashError::DecodeGet(_))
    ));
    assert!(matches!(
        DecodeCommand::decode(&s, "not-a-number"),
        Err(StashError::DecodeExtractId(_))
    ));
}

#[test]
fn store_command_retracts_on_sensitive_state() {
    let mut s = open_store();
    s.store(b"visible", &plain_policy(100, 1000), None, 10).unwrap();
    let state = "sensitive".to_string();
    StoreCommand::store(&mut s, b"ignored", 100, 1000, Some(&state), 11).unwrap();
    assert_eq!(s.len(), 0);
    StoreCommand::store(&mut s, b"stored", 100, 1000, None, 12).unwrap();
    assert_eq!(s.len(), 1);
}

#[test]
fn import_tsv_assigns_fresh_ids() {
    let mut s = open_store();
    let lines = vec![
        "42\thello from a backup".to_string(),
        "malformed line without tab".to_string(),
        "x\tbad id".to_string(),
        "7\tsecond record".to_string(),
    ];
    let n = ImportCommand::import_tsv(&mut s, &lines, 1000, 5).unwrap();
    assert_eq!(n, 2);
    assert_eq!(s.len(), 2);
    let mut ids: Vec<u64> = s.list(true, 0).iter().map(|r| r.id).collect();
    ids.sort();
    assert_eq!(ids, vec![1, 2]);
    assert_eq!(s.get(1).unwrap().contents, b"hello from a backup".to_vec());
}

#[test]
fn list_command_emits_id_and_preview() {
    let mut s = open_store();
    let p = plain_policy(100, 1000);
    s.store(b"short text", &p, None, 10).unwrap();
    let lines = ListCommand::list(&s, 100, 0);
    assert_eq!(lines, vec!["1\tshort text".to_string()]);
}

#[test]
fn list_json_inlines_text_and_encodes_binary() {
    let mut s = open_store();
    let p = plain_policy(100, 1000);
    s.store(b"plain", &p, None, 10).unwrap();
    let json = s.list_json();
    assert_eq!(json, "[{\"id\":1,\"contents\":\"plain\",\"mime\":\"text/plain\"}]");
    let mut binary = vec![0x80u8, 0x81, 0x82];
    binary.push(0x83);
    s.store(&binary, &p, None, 11).unwrap();
    let json = s.list_json();
    assert!(json.starts_with("[{\"id\":2,\"contents\":\"gIGCgw==\",\"mime\":null},"));
}

#[test]
fn list_json_escapes_text_content() {
    let mut s = open_store();
    let p = plain_policy(100, 1000);
    s.store(b"say \"hi\"\tthere\nnow \\ again", &p, None, 10).unwrap();
    let json = s.list_json();
    assert_eq!(
        json,
        "[{\"id\":1,\"contents\":\"say \\\"hi\\\"\\tthere\\nnow \\\\ again\",\"mime\":\"text/plain\"}]"
    );
}

#[test]
fn deduplicate_and_trim_in_isolation() {
    let mut s = open_store();
    let p = plain_policy(0, 1000); // no dedup at store time
    s.store(b"dup", &p, None, 10).unwrap();
    s.store(b"dup", &p, None, 11).unwrap();
    s.store(b"dup", &p, None, 12).unwrap();
    assert_eq!(ClipboardDb::deduplicate(&mut s, b"dup", 100).unwrap(), 3);
    assert_eq!(s.len(), 0);
    s.store(b"a", &p, None, 13).unwrap();
    s.store(b"b", &p, None, 14).unwrap();
    ClipboardDb::trim_db(&mut s, 1).unwrap();
    assert_eq!(s.len(), 1);
}
