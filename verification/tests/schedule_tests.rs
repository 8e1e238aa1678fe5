use stash::errors::StashError;
use stash::schedule::{ExpirationQueue, PollOutcome, Scheduler};
use stash::store::{SqliteClipboardDb, StorePolicy};

fn open_store() -> SqliteClipboardDb {
    let conn = rusqlite::Connection::open_in_memory().unwrap();
    SqliteClipboardDb::new(conn).unwrap()
}

fn plain_policy() -> StorePolicy {
    StorePolicy {
        max_dedupe_search: 100,
        max_items: 10_000,
        min_size: 0,
        max_size: 5_000_000,
        sensitive_patterns: Vec::new(),
        excluded_apps: Vec::new(),
    }
}

#[test]
fn queue_orders_by_deadline_and_skips_duplicates() {
    let mut q = ExpirationQueue::new();
    q.push(300, 3);
    q.push(100, 1);
    q.push(200, 2);
    q.push(50, 1); // identity already queued: skipped
    assert_eq!(q.len(), 3);
    assert_eq!(q.next_deadline(), Some(100));
    let due = q.pop_due(250);
    assert_eq!(due, vec![(100, 1), (200, 2)]);
    assert_eq!(q.next_deadline(), Some(300));
}

#[test]
fn next_wake_is_at_or_before_next_expiration() {
    // The scheduler wakes at or before the next pending timestamp.
    let mut s = Scheduler::new(500, Some(1000));
    assert_eq!(s.next_wake(10_000), 10_500);
    s.queue.push(10_050, 1);
    assert_eq!(s.next_wake(10_000), 10_050);
    s.queue.push(10_020, 2);
    assert!(s.next_wake(10_000) <= 10_020);
}

#[test]
fn poll_stores_changes_once_and_skips_repeats() {
    let mut store = open_store();
    let mut sched = Scheduler::new(500, None);
    let p = plain_policy();
    match sched.on_poll(&mut store, b"fresh content", &p, None, 10) {
        PollOutcome::Stored(id) => assert_eq!(id, 1),
        other => panic!("expected a store, got {:?}", discriminant_name(&other)),
    }
    // The same content on the next tick is recognised as seen.
    assert!(matches!(
        sched.on_poll(&mut store, b"fresh content", &p, None, 11),
        PollOutcome::Unchanged
    ));
    assert_eq!(store.len(), 1);
    // An empty clipboard is expected and changes nothing.
    assert!(matches!(sched.on_poll(&mut store, b"", &p, None, 12), PollOutcome::Unchanged));
}

#[test]
fn poll_marks_rejected_content_as_seen() {
    // Policy rejections must still update change detection so the same
    // rejected content is not reprocessed every tick.
    let mut store = open_store();
    let mut sched = Scheduler::new(500, None);
    let mut p = plain_policy();
    p.sensitive_patterns = vec![b"hunter2".to_vec()];
    assert!(matches!(
        sched.on_poll(&mut store, b"password hunter2", &p, None, 10),
        PollOutcome::Rejected(StashError::Sensitive)
    ));
    assert!(matches!(
        sched.on_poll(&mut store, b"password hunter2", &p, None, 11),
        PollOutcome::Unchanged
    ));
    assert_eq!(store.len(), 0);
}

#[test]
fn ttl_expiry_within_one_tick() {
    // With a short TTL, the scheduler wakes at or before the deadline
    // and retires the row on that wake.
    let mut store = open_store();
    let mut sched = Scheduler::new(500, Some(50));
    let p = plain_policy();
    let id = match sched.on_poll(&mut store, b"volatile", &p, None, 1000) {
        PollOutcome::Stored(id) => id,
        _ => panic!("store failed"),
    };
    assert_eq!(sched.next_wake(1000), 1050);
    assert_eq!(store.list(false, 1049).len(), 1);
    // Wake at the deadline: the expiration branch soft-expires the row,
    // and reports that a clipboard still holding it must be cleared.
    let digest = store.digest_of(id);
    let (n, clear) = sched.expire_due(&mut store, 1050, digest).unwrap();
    assert_eq!(n, 1);
    assert!(clear);
    assert_eq!(store.list(false, 1049).len(), 0);
}

#[test]
fn expiry_clears_only_matching_clipboard() {
    let mut store = open_store();
    let mut sched = Scheduler::new(500, Some(50));
    let p = plain_policy();
    match sched.on_poll(&mut store, b"volatile", &p, None, 1000) {
        PollOutcome::Stored(_) => {}
        _ => panic!("store failed"),
    }
    // The clipboard has since been overwritten with unrelated content:
    // expiry must not clear it.
    let unrelated = stash::digest::content_digest(b"something else");
    let (n, clear) = sched.expire_due(&mut store, 1050, Some(unrelated)).unwrap();
    assert_eq!(n, 1);
    assert!(!clear);
}

#[test]
fn startup_rebuilds_queue_from_store() {
    let mut store = open_store();
    let p = plain_policy();
    let a = store.store(b"a", &p, None, 10).unwrap();
    let b = store.store(b"b", &p, None, 10).unwrap();
    store.set_expiration(a, 400).unwrap();
    store.set_expiration(b, 200).unwrap();
    let mut sched = Scheduler::new(500, Some(50));
    sched.init_from_store(&store);
    assert_eq!(sched.queue.len(), 2);
    assert_eq!(sched.queue.next_deadline(), Some(200));
}

fn discriminant_name(p: &PollOutcome) -> &'static str {
    match p {
        PollOutcome::Unchanged => "Unchanged",
        PollOutcome::Stored(_) => "Stored",
        PollOutcome::Rejected(_) => "Rejected",
        PollOutcome::Failed(_) => "Failed",
    }
}
