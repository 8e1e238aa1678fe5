use stash::browser::BrowserState;
use stash::store::{SqliteClipboardDb, StorePolicy};

fn open_store_with(n: u64) -> SqliteClipboardDb {
    let conn = rusqlite::Connection::open_in_memory().unwrap();
    let mut s = SqliteClipboardDb::new(conn).unwrap();
    let p = StorePolicy {
        max_dedupe_search: 100,
        max_items: 10_000,
        min_size: 0,
        max_size: 5_000_000,
        sensitive_patterns: Vec::new(),
        excluded_apps: Vec::new(),
    };
    for i in 0..n {
        let body = format!("entry number {}", i);
        s.store(body.as_bytes(), &p, None, 10 + i).unwrap();
    }
    s
}

#[test]
fn cursor_wraps_after_full_circle() {
    // For N rows, moving the cursor down N times circularly returns to
    // the start.
    let n: usize = 7;
    let mut b = BrowserState::new(n, 5);
    for _ in 0..n {
        b.move_down();
    }
    assert_eq!(b.cursor, 0);
    b.move_up();
    assert_eq!(b.cursor, n - 1);
    b.move_down();
    assert_eq!(b.cursor, 0);
}

#[test]
fn empty_set_keeps_cursor_pinned() {
    let mut b = BrowserState::new(0, 5);
    b.move_down();
    assert_eq!(b.cursor, 0);
    b.move_up();
    assert_eq!(b.cursor, 0);
}

#[test]
fn delete_shrinks_total_and_clamps_cursor() {
    // Deleting the selected row reduces total by exactly one and the
    // cursor never exceeds the new bound.
    let mut b = BrowserState::new(3, 5);
    b.move_down();
    b.move_down();
    assert_eq!(b.cursor, 2);
    b.on_delete();
    assert_eq!(b.total, 2);
    assert!(b.cursor < b.total);
    b.on_delete();
    b.on_delete();
    assert_eq!(b.total, 0);
    assert_eq!(b.cursor, 0);
}

#[test]
fn resync_loads_window_and_anchors_viewport() {
    let store = open_store_with(20);
    let mut b = BrowserState::new(0, 6);
    b.resync(&store, 1000);
    assert_eq!(b.total, 20);
    assert!(!b.dirty);
    assert_eq!(b.viewport_offset, 0);
    assert_eq!(b.window.len(), 6);
    // Walk the cursor deep into the set: the window re-anchors around it.
    for _ in 0..12 {
        b.move_down();
    }
    assert!(b.needs_reload());
    b.resync(&store, 1000);
    assert_eq!(b.cursor, 12);
    assert_eq!(b.viewport_offset, 12 - 3);
    assert_eq!(b.window.len(), 6);
    // The loaded slice matches the recency-first listing.
    let all = store.list(false, 1000);
    for (k, row) in b.window.iter().enumerate() {
        assert_eq!(row.id, all[b.viewport_offset + k].id);
    }
}

#[test]
fn search_resets_cursor_and_recounts() {
    let store = open_store_with(12);
    let mut b = BrowserState::new(0, 5);
    b.resync(&store, 1000);
    for _ in 0..7 {
        b.move_down();
    }
    b.start_search();
    assert!(b.search_mode);
    assert!(b.dirty);
    // Query "entry number 1" matches entries 1, 10, 11.
    for &c in b"entry number 1" {
        let total = store.count_filtered(&{
            let mut q = b.search_query.clone();
            q.push(c);
            q
        }, 1000);
        b.push_query_byte(c, total);
    }
    assert_eq!(b.cursor, 0);
    assert_eq!(b.total, 3);
    b.resync(&store, 1000);
    assert_eq!(b.window.len(), 3);
}
