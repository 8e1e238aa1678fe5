//! The embedded database, reached only through narrow trusted wrappers.
//!
//! The store's single source of truth is the `clipboard` table of a
//! SQLite database.  Its contents are named by the uninterpreted function
//! [`db_rows`]: the table's rows in ascending identity order, with
//! columns a migration has not yet added reading as their defaults
//! (zero, NULL).  [`db_version`] names the schema version recorded in
//! the database header (`PRAGMA user_version`, zero on a fresh
//! database).  [`db_high`] names the identity high-water mark the
//! database persists through its AUTOINCREMENT sequence (zero when none
//! is recorded), so identities are never reused even across a reopen.
//! Every wrapper below performs one SQL statement (or one
//! single-transaction migration batch) and states over those names what
//! the statement does; single statements are atomic, so a failed one
//! leaves the table unchanged.

use vstd::prelude::*;

use crate::model::{
    ids_below, ids_increasing, last_id, with_expired, with_expires_at, with_last_accessed,
    without_id, Row, RowModel,
};

verus! {

#[verifier::external_type_specification]
#[verifier::external_body]
pub struct ExConnection(rusqlite::Connection);

/// The rows of the `clipboard` table in ascending identity order
/// (defaulted view; empty when the table does not exist yet).
pub uninterp spec fn db_rows(c: rusqlite::Connection) -> Seq<RowModel>;

/// The schema version recorded in the database header.
pub uninterp spec fn db_version(c: rusqlite::Connection) -> u64;

/// The identity high-water mark the database persists (the
/// AUTOINCREMENT sequence entry for the table; zero when none is
/// recorded).
pub uninterp spec fn db_high(c: rusqlite::Connection) -> u64;

/// Relies on rusqlite::Connection::execute_batch: the journal and
/// synchronisation pragmas trade durability for throughput and never
/// touch the rows or the schema version.  Failure to tune is harmless.
#[verifier::external_body]
pub(crate) fn sql_tune(conn: &mut rusqlite::Connection) -> (r: Result<(), String>)
    ensures
        db_rows(*final(conn)) == db_rows(*old(conn)),
        db_version(*final(conn)) == db_version(*old(conn)),
        db_high(*final(conn)) == db_high(*old(conn)),
{
    conn.execute_batch("PRAGMA synchronous = NORMAL;").map_err(|e| e.to_string())
}

/// Relies on rusqlite::Connection::query_row: `PRAGMA user_version`
/// reads the version recorded in the database header.
#[verifier::external_body]
pub(crate) fn sql_get_version(conn: &rusqlite::Connection) -> (r: Result<u64, String>)
    ensures
        r matches Ok(v) ==> v == db_version(*conn),
{
    conn.query_row("PRAGMA user_version", [], |row| row.get::<_, u64>(0)).map_err(|e| e.to_string())
}

/// Relies on rusqlite::Connection::execute_batch: creates the base table
/// if missing and records schema version 1, in one transaction; existing
/// rows are untouched, and creating an empty table records no sequence
/// entry.
#[verifier::external_body]
pub(crate) fn sql_migrate_v1(conn: &mut rusqlite::Connection) -> (r: Result<(), String>)
    ensures
        r matches Ok(_) ==> db_rows(*final(conn)) == db_rows(*old(conn)) && db_version(
            *final(conn),
        ) == 1 && db_high(*final(conn)) == db_high(*old(conn)),
{
    conn.execute_batch(
        "BEGIN;
         CREATE TABLE IF NOT EXISTS clipboard (
             id INTEGER PRIMARY KEY AUTOINCREMENT,
             contents BLOB NOT NULL,
             mime TEXT
         );
         PRAGMA user_version = 1;
         COMMIT;",
    ).map_err(|e| e.to_string())
}

/// Relies on rusqlite::Connection::execute_batch: rebuilds the table
/// with the digest column (default zero) and an AUTOINCREMENT identity,
/// copying every row, in one transaction; rows are untouched in the
/// defaulted view, and re-inserting them under their own identities
/// records the greatest one as the sequence entry (none when the table
/// is empty).
#[verifier::external_body]
pub(crate) fn sql_migrate_v2(conn: &mut rusqlite::Connection) -> (r: Result<(), String>)
    ensures
        r matches Ok(_) ==> db_rows(*final(conn)) == db_rows(*old(conn)) && db_version(
            *final(conn),
        ) == 2 && db_high(*final(conn)) as int == last_id(db_rows(*old(conn))),
{
    conn.execute_batch(
        "BEGIN;
         CREATE TABLE clipboard_next (
             id INTEGER PRIMARY KEY AUTOINCREMENT,
             contents BLOB NOT NULL,
             mime TEXT,
             content_hash INTEGER NOT NULL DEFAULT 0
         );
         INSERT INTO clipboard_next (id, contents, mime)
             SELECT id, contents, mime FROM clipboard;
         DROP TABLE clipboard;
         ALTER TABLE clipboard_next RENAME TO clipboard;
         PRAGMA user_version = 2;
         COMMIT;",
    ).map_err(|e| e.to_string())
}

/// Relies on rusqlite::Connection::execute_batch: adds the recency
/// column (default zero) and records schema version 3, in one
/// transaction; rows are untouched in the defaulted view.
#[verifier::external_body]
pub(crate) fn sql_migrate_v3(conn: &mut rusqlite::Connection) -> (r: Result<(), String>)
    ensures
        r matches Ok(_) ==> db_rows(*final(conn)) == db_rows(*old(conn)) && db_version(
            *final(conn),
        ) == 3 && db_high(*final(conn)) == db_high(*old(conn)),
{
    conn.execute_batch(
        "BEGIN;
         ALTER TABLE clipboard ADD COLUMN last_accessed INTEGER NOT NULL DEFAULT 0;
         PRAGMA user_version = 3;
         COMMIT;",
    ).map_err(|e| e.to_string())
}

/// Relies on rusqlite::Connection::execute_batch: adds the expiration
/// columns (NULL / false defaults) and records schema version 4, in one
/// transaction; rows are untouched in the defaulted view.
#[verifier::external_body]
pub(crate) fn sql_migrate_v4(conn: &mut rusqlite::Connection) -> (r: Result<(), String>)
    ensures
        r matches Ok(_) ==> db_rows(*final(conn)) == db_rows(*old(conn)) && db_version(
            *final(conn),
        ) == 4 && db_high(*final(conn)) == db_high(*old(conn)),
{
    conn.execute_batch(
        "BEGIN;
         ALTER TABLE clipboard ADD COLUMN expires_at INTEGER;
         ALTER TABLE clipboard ADD COLUMN is_expired INTEGER NOT NULL DEFAULT 0;
         PRAGMA user_version = 4;
         COMMIT;",
    ).map_err(|e| e.to_string())
}

/// Relies on rusqlite::Connection::execute_batch: adds the recency index
/// if missing and records schema version 5, in one transaction; an index
/// never changes the rows.
#[verifier::external_body]
pub(crate) fn sql_migrate_v5(conn: &mut rusqlite::Connection) -> (r: Result<(), String>)
    ensures
        r matches Ok(_) ==> db_rows(*final(conn)) == db_rows(*old(conn)) && db_version(
            *final(conn),
        ) == 5 && db_high(*final(conn)) == db_high(*old(conn)),
{
    conn.execute_batch(
        "BEGIN;
         CREATE INDEX IF NOT EXISTS clipboard_recency
             ON clipboard (last_accessed DESC, id DESC);
         PRAGMA user_version = 5;
         COMMIT;",
    ).map_err(|e| e.to_string())
}

/// Relies on rusqlite::Statement::query_map over `SELECT ... ORDER BY
/// id ASC`: yields every row of the table in ascending identity order.
/// The digest column round-trips through its two's-complement image.
#[verifier::external_body]
pub(crate) fn sql_load_rows(conn: &rusqlite::Connection) -> (r: Result<Vec<Row>, String>)
    requires
        db_version(*conn) == 5,
    ensures
        r matches Ok(v) ==> v.deep_view() == db_rows(*conn) && ids_increasing(db_rows(*conn)),
{
    let res: rusqlite::Result<Vec<Row>> = (|| {
        let mut stmt = conn.prepare(
            "SELECT id, contents, mime, content_hash, last_accessed, expires_at, is_expired
             FROM clipboard ORDER BY id ASC",
        )?;
        let rows = stmt.query_map([], |r| Ok(Row {
            id: r.get(0)?, contents: r.get(1)?, mime: r.get(2)?,
            digest: r.get::<_, i64>(3)? as u64, last_accessed: r.get(4)?,
            expires_at: r.get(5)?, is_expired: r.get(6)?,
        }))?.collect();
        rows
    })();
    res.map_err(|e| e.to_string())
}

/// Relies on rusqlite::Connection::query_row: the AUTOINCREMENT
/// sequence entry for the table is its persisted identity high-water
/// mark; the scalar subquery yields zero when no entry is recorded.
#[verifier::external_body]
pub(crate) fn sql_high_water(conn: &rusqlite::Connection) -> (r: Result<u64, String>)
    requires
        db_version(*conn) == 5,
    ensures
        r matches Ok(v) ==> v == db_high(*conn),
{
    conn.query_row(
        "SELECT COALESCE((SELECT seq FROM sqlite_sequence WHERE name = 'clipboard'), 0)",
        [],
        |row| row.get::<_, u64>(0),
    ).map_err(|e| e.to_string())
}

/// Relies on rusqlite::Connection::execute: INSERT of one row whose
/// identity exceeds every present one appends it to the identity-ordered
/// view and advances the sequence entry to that identity when it is the
/// larger; a failed single statement has no effect.
#[verifier::external_body]
pub(crate) fn sql_insert_row(conn: &mut rusqlite::Connection, row: &Row) -> (r: Result<
    (),
    String,
>)
    requires
        ids_below(db_rows(*old(conn)), row.id),
    ensures
        r matches Ok(_) ==> db_rows(*final(conn)) == db_rows(*old(conn)).push(row.deep_view()),
        r matches Ok(_) ==> db_high(*final(conn)) == if row.id > db_high(*old(conn)) {
            row.id
        } else {
            db_high(*old(conn))
        },
        r matches Err(_) ==> db_rows(*final(conn)) == db_rows(*old(conn)) && db_high(*final(conn))
            == db_high(*old(conn)),
        db_version(*final(conn)) == db_version(*old(conn)),
{
    conn.execute(
        "INSERT INTO clipboard (id, contents, mime, content_hash, last_accessed, expires_at, is_expired)
         VALUES (?1, ?2, ?3, ?4, ?5, ?6, ?7)",
        (row.id, &row.contents, &row.mime, row.digest as i64, row.last_accessed, row.expires_at,
        row.is_expired),
    ).map(|_| ()).map_err(|e| e.to_string())
}

/// Relies on rusqlite::Connection::execute: DELETE by identity removes
/// exactly the rows of that identity and never touches the sequence
/// entry; a failed single statement has no effect.
#[verifier::external_body]
pub(crate) fn sql_delete_row(conn: &mut rusqlite::Connection, id: u64) -> (r: Result<(), String>)
    ensures
        r matches Ok(_) ==> db_rows(*final(conn)) == without_id(db_rows(*old(conn)), id),
        r matches Err(_) ==> db_rows(*final(conn)) == db_rows(*old(conn)),
        db_version(*final(conn)) == db_version(*old(conn)),
        db_high(*final(conn)) == db_high(*old(conn)),
{
    conn.execute("DELETE FROM clipboard WHERE id = ?1", (id,)).map(|_| ()).map_err(
        |e| e.to_string(),
    )
}

/// Relies on rusqlite::Connection::execute_batch: one transaction that
/// empties the table and removes its sequence entry, resetting the
/// identity sequence; a failed transaction rolls back to no effect.
#[verifier::external_body]
pub(crate) fn sql_delete_all(conn: &mut rusqlite::Connection) -> (r: Result<(), String>)
    ensures
        r matches Ok(_) ==> db_rows(*final(conn)) == Seq::<RowModel>::empty() && db_high(
            *final(conn),
        ) == 0,
        r matches Err(_) ==> db_rows(*final(conn)) == db_rows(*old(conn)) && db_high(*final(conn))
            == db_high(*old(conn)),
        db_version(*final(conn)) == db_version(*old(conn)),
{
    conn.execute_batch(
        "BEGIN;
         DELETE FROM clipboard;
         DELETE FROM sqlite_sequence WHERE name = 'clipboard';
         COMMIT;",
    ).map_err(|e| e.to_string())
}

/// Relies on rusqlite::Connection::execute: UPDATE by identity
/// re-stamps `last_accessed` on exactly the rows of that identity; a
/// failed single statement has no effect.
#[verifier::external_body]
pub(crate) fn sql_set_last_accessed(conn: &mut rusqlite::Connection, id: u64, ts: u64) -> (r:
    Result<(), String>)
    ensures
        r matches Ok(_) ==> db_rows(*final(conn)) == with_last_accessed(
            db_rows(*old(conn)),
            id,
            ts,
        ),
        r matches Err(_) ==> db_rows(*final(conn)) == db_rows(*old(conn)),
        db_version(*final(conn)) == db_version(*old(conn)),
        db_high(*final(conn)) == db_high(*old(conn)),
{
    conn.execute("UPDATE clipboard SET last_accessed = ?2 WHERE id = ?1", (id, ts)).map(
        |_| (),
    ).map_err(|e| e.to_string())
}

/// Relies on rusqlite::Connection::execute: UPDATE by identity sets the
/// soft-expiry flag on exactly the rows of that identity; a failed
/// single statement has no effect.
#[verifier::external_body]
pub(crate) fn sql_set_expired(conn: &mut rusqlite::Connection, id: u64) -> (r: Result<(), String>)
    ensures
        r matches Ok(_) ==> db_rows(*final(conn)) == with_expired(db_rows(*old(conn)), id),
        r matches Err(_) ==> db_rows(*final(conn)) == db_rows(*old(conn)),
        db_version(*final(conn)) == db_version(*old(conn)),
        db_high(*final(conn)) == db_high(*old(conn)),
{
    conn.execute("UPDATE clipboard SET is_expired = 1 WHERE id = ?1", (id,)).map(|_| ()).map_err(
        |e| e.to_string(),
    )
}

/// Relies on rusqlite::Connection::execute: UPDATE by identity sets the
/// expiration timestamp on exactly the rows of that identity; a failed
/// single statement has no effect.
#[verifier::external_body]
pub(crate) fn sql_set_expires_at(conn: &mut rusqlite::Connection, id: u64, t: Option<u64>) -> (r:
    Result<(), String>)
    ensures
        r matches Ok(_) ==> db_rows(*final(conn)) == with_expires_at(db_rows(*old(conn)), id, t),
        r matches Err(_) ==> db_rows(*final(conn)) == db_rows(*old(conn)),
        db_version(*final(conn)) == db_version(*old(conn)),
        db_high(*final(conn)) == db_high(*old(conn)),
{
    conn.execute("UPDATE clipboard SET expires_at = ?2 WHERE id = ?1", (id, t)).map(
        |_| (),
    ).map_err(|e| e.to_string())
}

} // verus!
