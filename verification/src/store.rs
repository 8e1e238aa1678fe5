//! The persistent store: durable, consistent entry lifecycle management.
//!
//! A `SqliteClipboardDb` owns the database connection together with an in-memory
//! image of the table, kept equal to the named database contents
//! ([`crate::sql::db_rows`]) by performing every change first as one SQL
//! statement and then, only on its success, on the image.  All decision
//! logic — what to de-duplicate, what to evict, what a listing shows —
//! is computed and verified over the image.

use vstd::prelude::*;

use crate::digest::{content_digest, fnv1a_of};
use crate::errors::StashError;
use crate::mime::{detect_mime, detect_mime_spec, starts_with, string_starts_with};
use crate::model::{
    browse_filter, browse_pred, bytes_to_vec, dedup_spec, elapsed_at, evict_spec, has_substring,
    last_id,
    freshest_for_digest, has_id, ids_below, ids_increasing, keeps_digest, keeps_unelapsed,
    keeps_unmatched, lemma_filter_push, lemma_filter_singleton, lemma_increasing_unique,
    lemma_remove_keeps_order, lemma_without_id_absent,
    lemma_without_id_at, listed_spec, live_at, new_row_model, pending_expiry, recency_ge,
    recency_sorted, store_spec, window_start, with_expired, with_expires_at, with_last_accessed,
    without_id, Entry, Row, RowModel,
};
use crate::jsonout::{json_items_spec, json_list_spec, json_row};
use crate::policy::{any_sensitive, app_excluded, bytes_contain, is_app_excluded, sensitive_match};
use crate::text::{
    all_ascii_space, bytes_all_whitespace, extract_id, tab_field, u64_parse_ok, u64_parse_val,
};
use crate::sql::{
    db_high, db_rows, db_version, sql_delete_all, sql_delete_row, sql_get_version,
    sql_high_water, sql_insert_row, sql_load_rows, sql_migrate_v1, sql_migrate_v2, sql_migrate_v3,
    sql_migrate_v4, sql_migrate_v5, sql_set_expired, sql_set_expires_at, sql_set_last_accessed,
    sql_tune,
};

verus! {

broadcast use vstd::seq_lib::group_to_multiset_ensures;

/// The current schema version.
pub const SCHEMA_VERSION: u64 = 5;

/// Order a set of rows by recency: last accessed descending, identity
/// descending on ties.
fn sort_rows(v: Vec<Row>) -> (r: Vec<Row>)
    ensures
        recency_sorted(r.deep_view()),
        r.deep_view().to_multiset() == v.deep_view().to_multiset(),
{
    let mut out = v;
    let ghost m0 = out.deep_view().to_multiset();
    let ghost n0 = out.deep_view().len();
    if out.len() <= 1 {
        return out;
    }
    let mut i: usize = 1;
    while i < out.len()
        invariant
            1 <= i <= n0 == out.deep_view().len(),
            out.deep_view().to_multiset() == m0,
            forall|a: int, b: int|
                0 <= a < b < i ==> recency_ge(
                    #[trigger] out.deep_view()[a],
                    #[trigger] out.deep_view()[b],
                ),
        decreases n0 - i,
    {
        let mut j: usize = i;
        while j > 0 && !(out[j - 1].last_accessed > out[j].last_accessed || (out[j
            - 1].last_accessed == out[j].last_accessed && out[j - 1].id >= out[j].id))
            invariant
                0 <= j <= i < n0 == out.deep_view().len(),
                out.deep_view().to_multiset() == m0,
                forall|a: int, b: int|
                    0 <= a < b <= i && b != j ==> recency_ge(
                        #[trigger] out.deep_view()[a],
                        #[trigger] out.deep_view()[b],
                    ),
                forall|a: int|
                    j < a <= i ==> recency_ge(
                        out.deep_view()[j as int],
                        #[trigger] out.deep_view()[a],
                    ),
            decreases j,
        {
            let ghost d = out.deep_view();
            proof {
                assert(!recency_ge(d[j - 1], d[j as int]));
                assert(recency_ge(d[j as int], d[j - 1]));
            }
            let x = out.remove(j);
            proof {
                assert(out.deep_view() =~= d.remove(j as int));
            }
            out.insert(j - 1, x);
            proof {
                let d3 = out.deep_view();
                assert(d3 =~= d.remove(j as int).insert(j - 1, x.deep_view()));
                assert(d3.len() == d.len());
                assert(d3[j - 1] == d[j as int]);
                assert(d3[j as int] == d[j - 1]);
                assert(forall|k: int| 0 <= k < d.len() && k != j - 1 && k != j ==> d3[k] == d[k]);
                assert(d.remove(j as int).to_multiset() =~= d.to_multiset().remove(d[j as int]));
                assert(d3.to_multiset() =~= d.remove(j as int).to_multiset().insert(
                    x.deep_view(),
                ));
                assert(d.to_multiset().contains(d[j as int]));
                assert(d3.to_multiset() =~= m0);
            }
            j = j - 1;
        }
        proof {
            let d = out.deep_view();
            if j > 0 {
                assert(recency_ge(d[j - 1], d[j as int]));
            }
            assert forall|a: int, b: int| 0 <= a < b <= i implies recency_ge(
                #[trigger] d[a],
                #[trigger] d[b],
            ) by {
                if b == j {
                    if a == j - 1 {
                        assert(recency_ge(d[a], d[b]));
                    } else {
                        assert(recency_ge(d[a], d[j - 1]));
                        assert(recency_ge(d[j - 1], d[j as int]));
                    }
                }
            }
        }
        i = i + 1;
    }
    out
}

/// Everything the store pipeline is configured with.
pub struct StorePolicy {
    /// How many most-recent rows are checked for duplicates.
    pub max_dedupe_search: u64,
    /// Row-count ceiling; the surplus is evicted oldest-first.
    pub max_items: u64,
    /// Captures below this many bytes are rejected (zero: no minimum).
    pub min_size: u64,
    /// Captures above this many bytes are rejected.
    pub max_size: u64,
    /// Byte patterns whose presence in textual content rejects it.
    pub sensitive_patterns: Vec<Vec<u8>>,
    /// Application-name patterns whose captures are rejected.
    pub excluded_apps: Vec<String>,
}

/// What deleting by listed lines leaves: for each line whose first
/// tab-delimited field parses as an identity, the rows of that identity
/// are removed; other lines are skipped.
pub open spec fn delete_lines_spec(s: Seq<RowModel>, lines: Seq<Seq<char>>) -> Seq<RowModel>
    decreases lines.len(),
{
    if lines.len() == 0 {
        s
    } else if u64_parse_ok(tab_field(lines[0])) {
        delete_lines_spec(
            without_id(s, u64_parse_val(tab_field(lines[0])) as u64),
            lines.skip(1),
        )
    } else {
        delete_lines_spec(s, lines.skip(1))
    }
}

/// How many lines carry a parsable identity.
pub open spec fn parsed_count(lines: Seq<Seq<char>>) -> nat
    decreases lines.len(),
{
    if lines.len() == 0 {
        0
    } else {
        (if u64_parse_ok(tab_field(lines[0])) {
            1nat
        } else {
            0nat
        }) + parsed_count(lines.skip(1))
    }
}

/// An input size the configuration rejects.
pub open spec fn size_rejected(len: nat, min: u64, max: u64) -> bool {
    len == 0 || len < min || len > max
}

/// A classification under which content counts as textual (and is
/// matched against sensitive-content patterns; binary data never is).
pub open spec fn textual_mime(m: Option<Seq<char>>) -> bool {
    match m {
        Some(s) => starts_with(s, "text/"@),
        None => false,
    }
}

/// The capture is attributable to an excluded application.
pub open spec fn excluded_spec(a: Option<&String>, pats: Seq<Seq<char>>) -> bool {
    match a {
        Some(s) => app_excluded(s@, pats),
        None => false,
    }
}

/// A sensitive capture: textual content in which a configured pattern
/// occurs.
pub open spec fn sensitive_spec(data: Seq<u8>, pats: Seq<Seq<u8>>) -> bool {
    textual_mime(detect_mime_spec(data)) && sensitive_match(data, pats)
}

/// The persistent store.
pub struct SqliteClipboardDb {
    conn: rusqlite::Connection,
    rows: Vec<Row>,
    next_id: u64,
}

impl View for SqliteClipboardDb {
    type V = Seq<RowModel>;

    /// The store's rows, in insertion (= identity) order.
    closed spec fn view(&self) -> Seq<RowModel> {
        self.rows.deep_view()
    }
}

impl SqliteClipboardDb {
    /// The identity the next accepted entry will receive.
    pub closed spec fn next_identity(&self) -> u64 {
        self.next_id
    }

    /// Well-formedness: the in-memory image equals the database
    /// contents, the schema is current, identities strictly increase in
    /// insertion order and stay below the next identity.
    pub closed spec fn wf(&self) -> bool {
        &&& db_rows(self.conn) == self.rows.deep_view()
        &&& db_version(self.conn) == SCHEMA_VERSION
        &&& ids_increasing(self.rows.deep_view())
        &&& ids_below(self.rows.deep_view(), self.next_id)
        &&& db_high(self.conn) < self.next_id
    }

    /// What well-formedness gives every caller: identities strictly
    /// increase along the rows and lie below the next identity.
    pub proof fn lemma_wf_ids(&self)
        requires
            self.wf(),
        ensures
            ids_increasing(self@),
            ids_below(self@, self.next_identity()),
    {
    }

    /// Bring the schema to the current version, step by step against the
    /// stored version counter.  Rows are never dropped, and a database
    /// already at the current version is left untouched.
    fn migrate(c: &mut rusqlite::Connection) -> (r: Result<(), StashError>)
        ensures
            r matches Ok(_) ==> db_version(*final(c)) == SCHEMA_VERSION && db_rows(*final(c))
                == db_rows(*old(c)),
            r matches Ok(_) ==> db_high(*final(c)) as int == if db_version(*old(c)) >= 2 {
                db_high(*old(c)) as int
            } else {
                last_id(db_rows(*old(c)))
            },
            r matches Ok(_) && db_version(*old(c)) == SCHEMA_VERSION ==> *final(c) == *old(c),
            db_version(*old(c)) > SCHEMA_VERSION ==> r is Err,
    {
        let v0 = match sql_get_version(c) {
            Ok(v) => v,
            Err(e) => {
                return Err(StashError::Migration(e));
            },
        };
        if v0 > SCHEMA_VERSION {
            return Err(
                StashError::Migration("database schema is newer than this build".to_owned()),
            );
        }
        if v0 < 1 {
            if let Err(e) = sql_migrate_v1(c) {
                return Err(StashError::Migration(e));
            }
        }
        if v0 < 2 {
            if let Err(e) = sql_migrate_v2(c) {
                return Err(StashError::Migration(e));
            }
        }
        if v0 < 3 {
            if let Err(e) = sql_migrate_v3(c) {
                return Err(StashError::Migration(e));
            }
        }
        if v0 < 4 {
            if let Err(e) = sql_migrate_v4(c) {
                return Err(StashError::Migration(e));
            }
        }
        if v0 < 5 {
            if let Err(e) = sql_migrate_v5(c) {
                return Err(StashError::Migration(e));
            }
        }
        Ok(())
    }

    /// Open a store over a database connection: migrate the schema, then
    /// load the rows.  Whatever rows the database held are exactly the
    /// rows of the opened store, and the next identity continues past
    /// both the greatest stored identity and the persisted high-water
    /// mark, so an identity is never reused — even across a reopen after
    /// the newest rows were deleted.
    pub fn new(conn: rusqlite::Connection) -> (r: Result<SqliteClipboardDb, StashError>)
        ensures
            r matches Ok(s) ==> s.wf() && s@ == db_rows(conn),
            r matches Ok(s) ==> s.next_identity() as int == 1 + (
            if db_version(conn) >= 2 && db_high(conn) as int > last_id(db_rows(conn)) {
                db_high(conn) as int
            } else {
                last_id(db_rows(conn))
            }),
            db_version(conn) > SCHEMA_VERSION ==> r is Err,
    {
        let mut c = conn;
        // Throughput over durability: clipboard history is disposable.
        let _ = sql_tune(&mut c);
        match Self::migrate(&mut c) {
            Ok(()) => (),
            Err(e) => {
                return Err(e);
            },
        }
        let rows = match sql_load_rows(&c) {
            Ok(v) => v,
            Err(e) => {
                return Err(StashError::Migration(e));
            },
        };
        let high = match sql_high_water(&c) {
            Ok(v) => v,
            Err(e) => {
                return Err(StashError::Migration(e));
            },
        };
        let last: u64 = if rows.len() == 0 {
            0
        } else {
            rows[rows.len() - 1].id
        };
        let base = if high > last {
            high
        } else {
            last
        };
        if base == u64::MAX {
            return Err(StashError::Store("identity space exhausted".to_owned()));
        }
        let next_id: u64 = base + 1;
        proof {
            let m = rows.deep_view();
            assert(forall|i: int| 0 <= i < m.len() ==> m[i] == rows@[i].deep_view());
            if m.len() > 0 {
                assert(last as int == last_id(m));
                assert forall|i: int| 0 <= i < m.len() implies (#[trigger] m[i].id) < next_id by {
                    if i < m.len() - 1 {
                        assert(m[i].id < m[m.len() - 1].id);
                    }
                }
            }
        }
        Ok(SqliteClipboardDb { conn: c, rows, next_id })
    }

    /// Remove the row with identity `id`, if present.
    fn remove_id(&mut self, id: u64) -> (r: Result<(), String>)
        requires
            old(self).wf(),
        ensures
            final(self).wf(),
            final(self).next_identity() == old(self).next_identity(),
            r matches Ok(_) ==> final(self)@ == without_id(old(self)@, id),
            r matches Err(_) ==> final(self)@ == old(self)@,
    {
        let ghost s = self.rows.deep_view();
        match sql_delete_row(&mut self.conn, id) {
            Err(e) => Err(e),
            Ok(()) => {
                let mut i: usize = 0;
                let n = self.rows.len();
                while i < n
                    invariant
                        0 <= i <= n == self.rows@.len(),
                        forall|j: int|
                            0 <= j < i ==> (#[trigger] self.rows.deep_view()[j].id) != id,
                        db_rows(self.conn) == without_id(self.rows.deep_view(), id),
                        db_version(self.conn) == SCHEMA_VERSION,
                        ids_increasing(self.rows.deep_view()),
                        ids_below(self.rows.deep_view(), self.next_id),
                        db_high(self.conn) < self.next_id,
                        self.rows.deep_view() == s,
                        s == old(self)@,
                        self.next_id == old(self).next_id,
                    decreases n - i,
                {
                    if self.rows[i].id == id {
                        proof {
                            assert(s[i as int].id == id);
                            lemma_increasing_unique(s, i as int);
                            lemma_without_id_at(s, i as int);
                            lemma_remove_keeps_order(s, i as int);
                        }
                        self.rows.remove(i);
                        proof {
                            assert(old(self)@ == s);
                            assert(without_id(s, id) == s.remove(i as int));
                            assert(self.rows.deep_view() =~= s.remove(i as int));
                            assert(ids_below(self.rows.deep_view(), self.next_id)) by {
                                assert(forall|k: int|
                                    0 <= k < s.remove(i as int).len() ==> (#[trigger] s.remove(
                                        i as int,
                                    )[k].id) < self.next_id);
                            }
                        }
                        return Ok(());
                    }
                    i = i + 1;
                }
                proof {
                    lemma_without_id_absent(s, id);
                }
                Ok(())
            },
        }
    }

    /// Append a fresh row (the next identity) to the store.
    pub(crate) fn append_row(&mut self, row: Row) -> (r: Result<(), String>)
        requires
            old(self).wf(),
            row.id == old(self).next_identity(),
            old(self).next_identity() < u64::MAX,
        ensures
            final(self).wf(),
            r matches Ok(_) ==> final(self)@ == old(self)@.push(row@)
                && final(self).next_identity() == old(self).next_identity() + 1,
            r matches Err(_) ==> final(self)@ == old(self)@
                && final(self).next_identity() == old(self).next_identity(),
    {
        let ghost s = self.rows.deep_view();
        match sql_insert_row(&mut self.conn, &row) {
            Err(e) => Err(e),
            Ok(()) => {
                self.rows.push(row);
                self.next_id = self.next_id + 1;
                proof {
                    assert(self.rows.deep_view() =~= s.push(row.deep_view()));
                    let t = self.rows.deep_view();
                    assert(forall|i: int| 0 <= i < s.len() ==> t[i] == s[i]);
                    assert(ids_increasing(t));
                    assert(ids_below(t, self.next_id));
                }
                Ok(())
            },
        }
    }
    /// Purge rows sharing digest `d` from the dedupe window (the up to
    /// `w` most recently inserted rows).
    pub(crate) fn dedup(&mut self, d: u64, w: u64) -> (r: Result<usize, String>)
        requires
            old(self).wf(),
        ensures
            final(self).wf(),
            final(self).next_identity() == old(self).next_identity(),
            r matches Ok(n) ==> final(self)@ == dedup_spec(old(self)@, d, w) && n == old(
                self,
            )@.len() - final(self)@.len(),
            (forall|i: int|
                window_start(old(self)@.len() as int, w) <= i < old(self)@.len() ==> (
                #[trigger] old(self)@[i]).digest != d) ==> r is Ok,
    {
        let ghost s = self.rows.deep_view();
        let ghost pred = keeps_digest(d);
        let orig_len = self.rows.len();
        let start: usize = if orig_len as u64 <= w {
            0
        } else {
            orig_len - (w as usize)
        };
        proof {
            assert(start as int == window_start(s.len() as int, w));
            assert(s.skip(s.len() as int) =~= Seq::<RowModel>::empty());
            assert(Seq::<RowModel>::empty().filter(pred) =~= Seq::<RowModel>::empty()) by {
                reveal_with_fuel(Seq::filter, 1);
            }
            assert(s.take(s.len() as int) + s.skip(s.len() as int).filter(pred) =~= s);
        }
        let mut i: usize = orig_len;
        while i > start
            invariant
                0 <= start <= i <= s.len(),
                s == old(self)@,
                pred == keeps_digest(d),
                start as int == window_start(s.len() as int, w),
                self.rows.deep_view() == s.take(i as int) + s.skip(i as int).filter(pred),
                db_rows(self.conn) == self.rows.deep_view(),
                db_version(self.conn) == SCHEMA_VERSION,
                ids_increasing(self.rows.deep_view()),
                ids_below(self.rows.deep_view(), self.next_id),
                db_high(self.conn) < self.next_id,
                self.next_id == old(self).next_id,
            decreases i,
        {
            i = i - 1;
            let ghost cur = self.rows.deep_view();
            let ghost x = s[i as int];
            proof {
                assert(s.take(i + 1)[i as int] == x);
                assert(cur[i as int] == x);
                assert(s.skip(i as int) =~= seq![x] + s.skip(i + 1));
                Seq::filter_distributes_over_add(seq![x], s.skip(i + 1), pred);
                lemma_filter_singleton(x, pred);
            }
            if self.rows[i].digest == d {
                proof {
                    assert(s[i as int].digest == d);
                    lemma_increasing_unique(cur, i as int);
                    lemma_without_id_at(cur, i as int);
                    lemma_remove_keeps_order(cur, i as int);
                }
                match sql_delete_row(&mut self.conn, self.rows[i].id) {
                    Err(e) => {
                        return Err(e);
                    },
                    Ok(()) => (),
                }
                self.rows.remove(i);
                proof {
                    assert(self.rows.deep_view() =~= cur.remove(i as int));
                    assert(cur.remove(i as int) =~= s.take(i as int) + s.skip(i + 1).filter(
                        pred,
                    ));
                    assert(s.skip(i as int).filter(pred) =~= s.skip(i + 1).filter(pred));
                    assert(ids_below(self.rows.deep_view(), self.next_id)) by {
                        assert(forall|k: int|
                            0 <= k < cur.remove(i as int).len() ==> (#[trigger] cur.remove(
                                i as int,
                            )[k].id) < self.next_id);
                    }
                }
            } else {
                proof {
                    assert(s.skip(i as int).filter(pred) =~= seq![x] + s.skip(i + 1).filter(
                        pred,
                    ));
                    assert(s.take(i + 1) =~= s.take(i as int).push(x));
                    assert(s.take(i as int) + s.skip(i as int).filter(pred) =~= (s.take(i as int)
                        + seq![x]) + s.skip(i + 1).filter(pred));
                    assert(s.take(i as int) + seq![x] =~= s.take(i + 1));
                }
            }
        }
        proof {
            assert(s.take(start as int) + s.skip(start as int).filter(pred) == dedup_spec(
                s,
                d,
                w,
            ));
            Seq::lemma_filter_len(s.skip(start as int), pred);
        }
        Ok(orig_len - self.rows.len())
    }

    /// Capacity eviction: delete the surplus, oldest-inserted first,
    /// until at most `cap` rows remain.
    pub(crate) fn trim_rows(&mut self, cap: u64) -> (r: Result<(), String>)
        requires
            old(self).wf(),
        ensures
            final(self).wf(),
            final(self).next_identity() == old(self).next_identity(),
            r matches Ok(_) ==> final(self)@ == evict_spec(old(self)@, cap),
            old(self)@.len() <= cap ==> r is Ok,
    {
        let ghost s = self.rows.deep_view();
        while self.rows.len() as u64 > cap
            invariant
                s == old(self)@,
                self.rows.deep_view().len() <= s.len(),
                evict_spec(s, cap) == evict_spec(self.rows.deep_view(), cap),
                db_rows(self.conn) == self.rows.deep_view(),
                db_version(self.conn) == SCHEMA_VERSION,
                ids_increasing(self.rows.deep_view()),
                ids_below(self.rows.deep_view(), self.next_id),
                db_high(self.conn) < self.next_id,
                self.next_id == old(self).next_id,
            decreases self.rows@.len(),
        {
            let ghost cur = self.rows.deep_view();
            proof {
                lemma_increasing_unique(cur, 0);
                lemma_without_id_at(cur, 0);
                lemma_remove_keeps_order(cur, 0);
            }
            match sql_delete_row(&mut self.conn, self.rows[0].id) {
                Err(e) => {
                    return Err(e);
                },
                Ok(()) => (),
            }
            self.rows.remove(0);
            proof {
                assert(self.rows.deep_view() =~= cur.remove(0));
                assert(cur.remove(0) =~= cur.skip(1));
                assert(evict_spec(cur, cap) =~= evict_spec(cur.skip(1), cap));
                assert(ids_below(self.rows.deep_view(), self.next_id)) by {
                    assert(forall|k: int|
                        0 <= k < cur.remove(0).len() ==> (#[trigger] cur.remove(0)[k].id)
                            < self.next_id);
                }
            }
        }
        Ok(())
    }

    /// Store a capture: validate it, classify it, reject sensitive or
    /// excluded content, purge duplicates from the dedupe window, insert
    /// it under a fresh identity stamped `now`, and evict the surplus.
    pub fn store(
        &mut self,
        input: &[u8],
        policy: &StorePolicy,
        source_app: Option<&String>,
        now: u64,
    ) -> (r: Result<u64, StashError>)
        requires
            old(self).wf(),
        ensures
            final(self).wf(),
            r matches Ok(id) ==> ({
                &&& !size_rejected(input@.len(), policy.min_size, policy.max_size)
                &&& !all_ascii_space(input@)
                &&& !sensitive_spec(input@, policy.sensitive_patterns.deep_view())
                &&& !excluded_spec(source_app, policy.excluded_apps.deep_view())
                &&& id == old(self).next_identity()
                &&& final(self)@ == store_spec(
                    old(self)@,
                    new_row_model(id, input@, detect_mime_spec(input@), fnv1a_of(input@), now),
                    policy.max_dedupe_search,
                    policy.max_items,
                )
                &&& final(self).next_identity() == id + 1
            }),
            r matches Err(e) ==> match e {
                StashError::EmptyOrTooLarge => size_rejected(
                    input@.len(),
                    policy.min_size,
                    policy.max_size,
                ) && final(self)@ == old(self)@,
                StashError::AllWhitespace => !size_rejected(
                    input@.len(),
                    policy.min_size,
                    policy.max_size,
                ) && all_ascii_space(input@) && final(self)@ == old(self)@,
                StashError::Sensitive => sensitive_spec(
                    input@,
                    policy.sensitive_patterns.deep_view(),
                ) && final(self)@ == old(self)@,
                StashError::ExcludedByApp(_) => excluded_spec(
                    source_app,
                    policy.excluded_apps.deep_view(),
                ) && final(self)@ == old(self)@,
                StashError::Store(_) => true,
                StashError::DeduplicationRemove(_) => true,
                StashError::Trim(_) => true,
                _ => false,
            },
            size_rejected(input@.len(), policy.min_size, policy.max_size) ==> r matches Err(
                StashError::EmptyOrTooLarge,
            ),
            !size_rejected(input@.len(), policy.min_size, policy.max_size) && all_ascii_space(
                input@,
            ) ==> r matches Err(StashError::AllWhitespace),
            !size_rejected(input@.len(), policy.min_size, policy.max_size) && !all_ascii_space(
                input@,
            ) && sensitive_spec(input@, policy.sensitive_patterns.deep_view()) ==> r matches Err(
                StashError::Sensitive,
            ),
            !size_rejected(input@.len(), policy.min_size, policy.max_size) && !all_ascii_space(
                input@,
            ) && !sensitive_spec(input@, policy.sensitive_patterns.deep_view()) && excluded_spec(
                source_app,
                policy.excluded_apps.deep_view(),
            ) ==> r matches Err(StashError::ExcludedByApp(_)),
    {
        let len = input.len();
        if len == 0 || (len as u64) < policy.min_size || (len as u64) > policy.max_size {
            return Err(StashError::EmptyOrTooLarge);
        }
        if bytes_all_whitespace(input) {
            return Err(StashError::AllWhitespace);
        }
        let digest = content_digest(input);
        let mime = detect_mime(input);
        let is_textual = match &mime {
            Some(m) => string_starts_with(m.as_str(), "text/"),
            None => false,
        };
        if is_textual && any_sensitive(input, &policy.sensitive_patterns) {
            return Err(StashError::Sensitive);
        }
        match source_app {
            Some(app) => {
                if is_app_excluded(app.as_str(), &policy.excluded_apps) {
                    return Err(StashError::ExcludedByApp(app.clone()));
                }
            },
            None => (),
        }
        if self.next_id == u64::MAX {
            return Err(StashError::Store("identity space exhausted".to_owned()));
        }
        if let Err(e) = self.dedup(digest, policy.max_dedupe_search) {
            return Err(StashError::DeduplicationRemove(e));
        }
        let id = self.next_id;
        let row = Row {
            id,
            contents: bytes_to_vec(input),
            mime,
            digest,
            last_accessed: now,
            expires_at: None,
            is_expired: false,
        };
        proof {
            assert(row.deep_view() == new_row_model(
                id,
                input@,
                detect_mime_spec(input@),
                fnv1a_of(input@),
                now,
            ));
        }
        if let Err(e) = self.append_row(row) {
            return Err(StashError::Store(e));
        }
        if let Err(e) = self.trim_rows(policy.max_items) {
            return Err(StashError::Trim(e));
        }
        Ok(id)
    }

    /// Hard-delete every row whose expiration timestamp has elapsed,
    /// whether or not the scheduler has soft-expired it yet.  The sweep
    /// is idempotent.
    pub fn cleanup_expired(&mut self, now: u64) -> (r: Result<usize, StashError>)
        requires
            old(self).wf(),
        ensures
            final(self).wf(),
            final(self).next_identity() == old(self).next_identity(),
            r matches Ok(n) ==> final(self)@ == old(self)@.filter(keeps_unelapsed(now)) && n
                == old(self)@.len() - final(self)@.len(),
            (forall|i: int|
                0 <= i < old(self)@.len() ==> !elapsed_at(#[trigger] old(self)@[i], now)) ==> r
                is Ok,
    {
        let ghost s = self.rows.deep_view();
        let ghost pred = keeps_unelapsed(now);
        let orig_len = self.rows.len();
        proof {
            assert(s.skip(s.len() as int) =~= Seq::<RowModel>::empty());
            assert(Seq::<RowModel>::empty().filter(pred) =~= Seq::<RowModel>::empty()) by {
                reveal_with_fuel(Seq::filter, 1);
            }
            assert(s.take(s.len() as int) + s.skip(s.len() as int).filter(pred) =~= s);
        }
        let mut i: usize = orig_len;
        while i > 0
            invariant
                0 <= i <= s.len(),
                s == old(self)@,
                pred == keeps_unelapsed(now),
                self.rows.deep_view() == s.take(i as int) + s.skip(i as int).filter(pred),
                db_rows(self.conn) == self.rows.deep_view(),
                db_version(self.conn) == SCHEMA_VERSION,
                ids_increasing(self.rows.deep_view()),
                ids_below(self.rows.deep_view(), self.next_id),
                db_high(self.conn) < self.next_id,
                self.next_id == old(self).next_id,
            decreases i,
        {
            i = i - 1;
            let ghost cur = self.rows.deep_view();
            let ghost x = s[i as int];
            proof {
                assert(s.take(i + 1)[i as int] == x);
                assert(cur[i as int] == x);
                assert(s.skip(i as int) =~= seq![x] + s.skip(i + 1));
                Seq::filter_distributes_over_add(seq![x], s.skip(i + 1), pred);
                lemma_filter_singleton(x, pred);
            }
            let is_elapsed = match self.rows[i].expires_at {
                Some(t) => t <= now,
                None => false,
            };
            if is_elapsed {
                proof {
                    assert(elapsed_at(s[i as int], now));
                    lemma_increasing_unique(cur, i as int);
                    lemma_without_id_at(cur, i as int);
                    lemma_remove_keeps_order(cur, i as int);
                }
                match sql_delete_row(&mut self.conn, self.rows[i].id) {
                    Err(e) => {
                        return Err(StashError::QueryDelete(e));
                    },
                    Ok(()) => (),
                }
                self.rows.remove(i);
                proof {
                    assert(self.rows.deep_view() =~= cur.remove(i as int));
                    assert(cur.remove(i as int) =~= s.take(i as int) + s.skip(i + 1).filter(
                        pred,
                    ));
                    assert(s.skip(i as int).filter(pred) =~= s.skip(i + 1).filter(pred));
                    assert(ids_below(self.rows.deep_view(), self.next_id)) by {
                        assert(forall|k: int|
                            0 <= k < cur.remove(i as int).len() ==> (#[trigger] cur.remove(
                                i as int,
                            )[k].id) < self.next_id);
                    }
                }
            } else {
                proof {
                    assert(s.skip(i as int).filter(pred) =~= seq![x] + s.skip(i + 1).filter(
                        pred,
                    ));
                    assert(s.take(i + 1) =~= s.take(i as int).push(x));
                    assert(s.take(i as int) + s.skip(i as int).filter(pred) =~= (s.take(i as int)
                        + seq![x]) + s.skip(i + 1).filter(pred));
                    assert(s.take(i as int) + seq![x] =~= s.take(i + 1));
                }
            }
        }
        proof {
            assert(s.take(0) + s.skip(0).filter(pred) =~= s.filter(pred));
            Seq::lemma_filter_len(s, pred);
        }
        Ok(orig_len - self.rows.len())
    }

    /// Delete every row whose contents contain `query`, byte-level.
    pub fn delete_query_bytes(&mut self, query: &[u8]) -> (r: Result<usize, StashError>)
        requires
            old(self).wf(),
        ensures
            final(self).wf(),
            final(self).next_identity() == old(self).next_identity(),
            r matches Ok(n) ==> final(self)@ == old(self)@.filter(keeps_unmatched(query@)) && n
                == old(self)@.len() - final(self)@.len(),
            (forall|i: int|
                0 <= i < old(self)@.len() ==> !has_substring(
                    (#[trigger] old(self)@[i]).contents,
                    query@,
                )) ==> r is Ok,
    {
        let ghost s = self.rows.deep_view();
        let ghost pred = keeps_unmatched(query@);
        let orig_len = self.rows.len();
        proof {
            assert(s.skip(s.len() as int) =~= Seq::<RowModel>::empty());
            assert(Seq::<RowModel>::empty().filter(pred) =~= Seq::<RowModel>::empty()) by {
                reveal_with_fuel(Seq::filter, 1);
            }
            assert(s.take(s.len() as int) + s.skip(s.len() as int).filter(pred) =~= s);
        }
        let mut i: usize = orig_len;
        while i > 0
            invariant
                0 <= i <= s.len(),
                s == old(self)@,
                pred == keeps_unmatched(query@),
                self.rows.deep_view() == s.take(i as int) + s.skip(i as int).filter(pred),
                db_rows(self.conn) == self.rows.deep_view(),
                db_version(self.conn) == SCHEMA_VERSION,
                ids_increasing(self.rows.deep_view()),
                ids_below(self.rows.deep_view(), self.next_id),
                db_high(self.conn) < self.next_id,
                self.next_id == old(self).next_id,
            decreases i,
        {
            i = i - 1;
            let ghost cur = self.rows.deep_view();
            let ghost x = s[i as int];
            proof {
                assert(s.take(i + 1)[i as int] == x);
                assert(cur[i as int] == x);
                assert(s.skip(i as int) =~= seq![x] + s.skip(i + 1));
                Seq::filter_distributes_over_add(seq![x], s.skip(i + 1), pred);
                lemma_filter_singleton(x, pred);
            }
            if bytes_contain(self.rows[i].contents.as_slice(), query) {
                proof {
                    assert(has_substring(s[i as int].contents, query@));
                    lemma_increasing_unique(cur, i as int);
                    lemma_without_id_at(cur, i as int);
                    lemma_remove_keeps_order(cur, i as int);
                }
                match sql_delete_row(&mut self.conn, self.rows[i].id) {
                    Err(e) => {
                        return Err(StashError::QueryDelete(e));
                    },
                    Ok(()) => (),
                }
                self.rows.remove(i);
                proof {
                    assert(self.rows.deep_view() =~= cur.remove(i as int));
                    assert(cur.remove(i as int) =~= s.take(i as int) + s.skip(i + 1).filter(
                        pred,
                    ));
                    assert(s.skip(i as int).filter(pred) =~= s.skip(i + 1).filter(pred));
                    assert(ids_below(self.rows.deep_view(), self.next_id)) by {
                        assert(forall|k: int|
                            0 <= k < cur.remove(i as int).len() ==> (#[trigger] cur.remove(
                                i as int,
                            )[k].id) < self.next_id);
                    }
                }
            } else {
                proof {
                    assert(s.skip(i as int).filter(pred) =~= seq![x] + s.skip(i + 1).filter(
                        pred,
                    ));
                    assert(s.take(i + 1) =~= s.take(i as int).push(x));
                    assert(s.take(i as int) + s.skip(i as int).filter(pred) =~= (s.take(i as int)
                        + seq![x]) + s.skip(i + 1).filter(pred));
                    assert(s.take(i as int) + seq![x] =~= s.take(i + 1));
                }
            }
        }
        proof {
            assert(s.take(0) + s.skip(0).filter(pred) =~= s.filter(pred));
            Seq::lemma_filter_len(s, pred);
        }
        Ok(orig_len - self.rows.len())
    }

    /// Delete rows by listed lines: each line whose first tab-delimited
    /// field parses as an identity is deleted (present or not); other
    /// lines are skipped.  Returns how many identities were processed.
    pub fn delete_entries(&mut self, lines: &Vec<String>) -> (r: Result<usize, StashError>)
        requires
            old(self).wf(),
        ensures
            final(self).wf(),
            final(self).next_identity() == old(self).next_identity(),
            r matches Ok(n) ==> final(self)@ == delete_lines_spec(old(self)@, lines.deep_view())
                && n == parsed_count(lines.deep_view()),
            r matches Err(e) ==> e matches StashError::DeleteEntry(_, _),
            parsed_count(lines.deep_view()) == 0 ==> r is Ok,
    {
        let ghost ls = lines.deep_view();
        let ghost s0 = self@;
        proof {
            assert(ls.skip(0) =~= ls);
        }
        let mut deleted: usize = 0;
        let mut j: usize = 0;
        let n = lines.len();
        while j < n
            invariant
                0 <= j <= n == ls.len(),
                lines.deep_view() == ls,
                self.wf(),
                s0 == old(self)@,
                self.next_id == old(self).next_id,
                delete_lines_spec(s0, ls) == delete_lines_spec(self@, ls.skip(j as int)),
                deleted + parsed_count(ls.skip(j as int)) == parsed_count(ls),
                deleted <= j,
            decreases n - j,
        {
            let ghost suf = ls.skip(j as int);
            proof {
                assert(suf[0] == ls[j as int]);
                assert(suf.skip(1) =~= ls.skip(j + 1));
                assert(ls[j as int] == lines@[j as int]@);
            }
            match extract_id(lines[j].as_str()) {
                Ok(id) => {
                    proof {
                        assert(u64_parse_ok(tab_field(suf[0])));
                        assert(id as nat == u64_parse_val(tab_field(suf[0])));
                        assert(parsed_count(suf) >= 1);
                        assert(parsed_count(ls) >= 1);
                    }
                    match self.remove_id(id) {
                        Err(e) => {
                            return Err(StashError::DeleteEntry(id, e));
                        },
                        Ok(()) => (),
                    }
                    deleted = deleted + 1;
                },
                Err(_) => {
                    proof {
                        assert(!u64_parse_ok(tab_field(suf[0])));
                    }
                },
            }
            j = j + 1;
        }
        proof {
            assert(ls.skip(ls.len() as int) =~= Seq::<Seq<char>>::empty());
        }
        Ok(deleted)
    }

    /// The earliest pending expiration: its timestamp and the identity
    /// that carries it.
    pub fn next_expiration(&self) -> (r: Option<(u64, u64)>)
        ensures
            r is Some <==> exists|i: int|
                0 <= i < self@.len() && pending_expiry(#[trigger] self@[i]),
            r matches Some(p) ==> (exists|i: int|
                0 <= i < self@.len() && (#[trigger] self@[i].id) == p.1 && pending_expiry(
                    self@[i],
                ) && self@[i].expires_at == Some(p.0)) && (forall|j: int|
                0 <= j < self@.len() && pending_expiry(#[trigger] self@[j])
                    ==> p.0 <= self@[j].expires_at->0),
    {
        let ghost s = self@;
        let mut best: Option<(u64, u64)> = None;
        let mut i: usize = 0;
        let n = self.rows.len();
        while i < n
            invariant
                0 <= i <= n == s.len(),
                self@ == s,
                best is Some <==> exists|k: int| 0 <= k < i && pending_expiry(#[trigger] s[k]),
                best matches Some(p) ==> (exists|k: int|
                    0 <= k < i && (#[trigger] s[k].id) == p.1 && pending_expiry(s[k])
                        && s[k].expires_at == Some(p.0)) && (forall|j: int|
                    0 <= j < i && pending_expiry(#[trigger] s[j]) ==> p.0 <= s[j].expires_at->0),
            decreases n - i,
        {
            let row_t = match self.rows[i].expires_at {
                Some(t) => if self.rows[i].is_expired {
                    None
                } else {
                    Some(t)
                },
                None => None,
            };
            match row_t {
                Some(t) => {
                    proof {
                        assert(pending_expiry(s[i as int]));
                        assert(s[i as int].id == self.rows@[i as int]@.id);
                        assert(s[i as int].expires_at == Some(t));
                    }
                    match best {
                        None => {
                            best = Some((t, self.rows[i].id));
                        },
                        Some(p) => {
                            if t < p.0 {
                                best = Some((t, self.rows[i].id));
                            }
                        },
                    }
                },
                None => {
                    proof {
                        assert(!pending_expiry(s[i as int]));
                    }
                },
            }
            i = i + 1;
        }
        best
    }

    /// Give the database connection back, the in-memory image dropped.
    pub fn into_connection(self) -> (r: rusqlite::Connection)
        ensures
            self.wf() ==> db_rows(r) == self@ && db_version(r) == SCHEMA_VERSION,
    {
        self.conn
    }

    /// The identity the next accepted entry will receive.
    pub fn next_identity_value(&self) -> (r: u64)
        ensures
            r == self.next_identity(),
    {
        self.next_id
    }

    /// The number of rows.
    pub fn len(&self) -> (r: usize)
        ensures
            r == self@.len(),
    {
        self.rows.len()
    }

    /// The recency-first view of the store: rows ordered by last
    /// accessed descending, identity descending on ties.  Soft-expired
    /// rows and rows whose expiration has elapsed are excluded unless
    /// requested.
    pub fn list(&self, include_expired: bool, now: u64) -> (r: Vec<Row>)
        ensures
            recency_sorted(r.deep_view()),
            r.deep_view().to_multiset() == listed_spec(self@, include_expired, now).to_multiset(),
    {
        let ghost s = self@;
        let ghost pred = |row: RowModel| live_at(row, now);
        let mut kept: Vec<Row> = Vec::new();
        let n = self.rows.len();
        let mut i: usize = 0;
        while i < n
            invariant
                0 <= i <= n == s.len(),
                self@ == s,
                pred == (|row: RowModel| live_at(row, now)),
                kept.deep_view() == if include_expired {
                    s.take(i as int)
                } else {
                    s.take(i as int).filter(pred)
                },
            decreases n - i,
        {
            let ghost before = kept.deep_view();
            proof {
                assert(s.take(i + 1) =~= s.take(i as int).push(s[i as int]));
                lemma_filter_push(s.take(i as int), s[i as int], pred);
            }
            let live = !self.rows[i].is_expired && (match self.rows[i].expires_at {
                Some(t) => t > now,
                None => true,
            });
            if include_expired || live {
                kept.push(self.rows[i].duplicate());
                proof {
                    assert(kept.deep_view() =~= before.push(s[i as int]));
                }
            }
            i = i + 1;
        }
        proof {
            assert(s.take(s.len() as int) =~= s);
            if !include_expired {
                assert(kept.deep_view() == listed_spec(s, include_expired, now));
            }
        }
        sort_rows(kept)
    }

    /// The listing as one JSON document: an array of objects, identity
    /// descending, textual content inlined and other content
    /// base64-encoded.
    pub fn list_json(&self) -> (r: String)
        ensures
            r@ == json_list_spec(self@),
    {
        let ghost s = self@;
        let mut out: String = "[".to_owned();
        let n = self.rows.len();
        let mut i: usize = n;
        while i > 0
            invariant
                0 <= i <= n == s.len(),
                self@ == s,
                "["@ + json_items_spec(s, n as int) == out@ + json_items_spec(s, i as int),
            decreases i,
        {
            let ghost before = out@;
            let piece = json_row(&self.rows[i - 1]);
            out.append(piece.as_str());
            if i > 1 {
                out.append(",");
                proof {
                    assert(json_items_spec(s, i as int) == piece@ + (","@ + json_items_spec(
                        s,
                        i - 1,
                    )));
                    assert(before + (piece@ + (","@ + json_items_spec(s, i - 1))) =~= ((before
                        + piece@) + ","@) + json_items_spec(s, i - 1));
                    assert(out@ =~= (before + piece@) + ","@);
                }
            } else {
                proof {
                    assert(json_items_spec(s, 1) == piece@ + Seq::<char>::empty());
                    assert(piece@ + Seq::<char>::empty() =~= piece@);
                    assert(before + piece@ =~= out@);
                    assert(json_items_spec(s, 0) =~= Seq::<char>::empty());
                    assert(out@ + json_items_spec(s, 0) =~= out@);
                }
            }
            i = i - 1;
        }
        out.append("]");
        proof {
            assert(json_items_spec(s, 0) =~= Seq::<char>::empty());
            assert(("["@ + json_items_spec(s, n as int)) + "]"@ =~= json_list_spec(s));
        }
        out
    }

    /// How many rows a browse under the given search query presents.
    pub fn count_filtered(&self, query: &[u8], now: u64) -> (r: usize)
        ensures
            r == browse_filter(self@, query@, now).len(),
    {
        let ghost s = self@;
        let ghost pred = browse_pred(query@, now);
        let mut count: usize = 0;
        let n = self.rows.len();
        let mut i: usize = 0;
        while i < n
            invariant
                0 <= i <= n == s.len(),
                self@ == s,
                pred == browse_pred(query@, now),
                count == s.take(i as int).filter(pred).len(),
                count <= i,
            decreases n - i,
        {
            proof {
                assert(s.take(i + 1) =~= s.take(i as int).push(s[i as int]));
                lemma_filter_push(s.take(i as int), s[i as int], pred);
            }
            let live = !self.rows[i].is_expired && (match self.rows[i].expires_at {
                Some(t) => t > now,
                None => true,
            });
            if live && (query.len() == 0 || bytes_contain(self.rows[i].contents.as_slice(), query))
            {
                count = count + 1;
            }
            i = i + 1;
        }
        proof {
            assert(s.take(s.len() as int) =~= s);
        }
        count
    }

    /// The recency-ordered rows a browse under the given search query
    /// presents.
    pub fn list_filtered(&self, query: &[u8], now: u64) -> (r: Vec<Row>)
        ensures
            recency_sorted(r.deep_view()),
            r.deep_view().to_multiset() == browse_filter(self@, query@, now).to_multiset(),
    {
        let ghost s = self@;
        let ghost pred = browse_pred(query@, now);
        let mut kept: Vec<Row> = Vec::new();
        let n = self.rows.len();
        let mut i: usize = 0;
        while i < n
            invariant
                0 <= i <= n == s.len(),
                self@ == s,
                pred == browse_pred(query@, now),
                kept.deep_view() == s.take(i as int).filter(pred),
            decreases n - i,
        {
            let ghost before = kept.deep_view();
            proof {
                assert(s.take(i + 1) =~= s.take(i as int).push(s[i as int]));
                lemma_filter_push(s.take(i as int), s[i as int], pred);
            }
            let live = !self.rows[i].is_expired && (match self.rows[i].expires_at {
                Some(t) => t > now,
                None => true,
            });
            if live && (query.len() == 0 || bytes_contain(self.rows[i].contents.as_slice(), query))
            {
                kept.push(self.rows[i].duplicate());
                proof {
                    assert(kept.deep_view() =~= before.push(s[i as int]));
                }
            }
            i = i + 1;
        }
        proof {
            assert(s.take(s.len() as int) =~= s);
        }
        sort_rows(kept)
    }

    /// One contiguous window of the browse view: the rows at positions
    /// `[offset, offset + limit)` of the recency-ordered filtered rows
    /// (clamped to the result's length).
    pub fn fetch_window(&self, query: &[u8], now: u64, offset: usize, limit: usize) -> (r: Vec<
        Row,
    >)
        ensures
            exists|full: Seq<RowModel>|
                {
                    &&& recency_sorted(full)
                    &&& full.to_multiset() == browse_filter(self@, query@, now).to_multiset()
                    &&& r.deep_view() == full.subrange(
                        if offset as int <= full.len() {
                            offset as int
                        } else {
                            full.len() as int
                        },
                        if offset as int + limit as int <= full.len() {
                            offset as int + limit as int
                        } else {
                            full.len() as int
                        },
                    )
                },
    {
        let all = self.list_filtered(query, now);
        let ghost full = all.deep_view();
        let lo: usize = if offset <= all.len() {
            offset
        } else {
            all.len()
        };
        let hi: usize = if limit <= all.len() - lo {
            lo + limit
        } else {
            all.len()
        };
        let mut out: Vec<Row> = Vec::new();
        let mut i: usize = lo;
        while i < hi
            invariant
                lo <= i <= hi <= full.len(),
                all.deep_view() == full,
                lo as int == if offset as int <= full.len() {
                    offset as int
                } else {
                    full.len() as int
                },
                hi as int == if offset as int + limit as int <= full.len() {
                    offset as int + limit as int
                } else {
                    full.len() as int
                },
                out.deep_view() == full.subrange(lo as int, i as int),
            decreases hi - i,
        {
            let ghost before = out.deep_view();
            let dup = all[i].duplicate();
            proof {
                assert(dup.deep_view() == full[i as int]);
            }
            out.push(dup);
            proof {
                assert(out.deep_view() =~= before.push(full[i as int]));
                assert(before.push(full[i as int]) =~= full.subrange(lo as int, i + 1));
            }
            i = i + 1;
        }
        out
    }

    /// Find the position of the row with identity `id`.
    fn index_of(&self, id: u64) -> (r: Option<usize>)
        ensures
            r matches Some(i) ==> i < self@.len() && self@[i as int].id == id,
            r is None ==> !has_id(self@, id),
    {
        let mut i: usize = 0;
        let n = self.rows.len();
        while i < n
            invariant
                0 <= i <= n == self@.len(),
                forall|k: int| 0 <= k < i ==> (#[trigger] self@[k].id) != id,
            decreases n - i,
        {
            if self.rows[i].id == id {
                return Some(i);
            }
            i = i + 1;
        }
        None
    }

    /// Fetch the row with identity `id`: its raw contents and recorded
    /// classification.
    pub fn get(&self, id: u64) -> (r: Option<Entry>)
        ensures
            r is Some <==> has_id(self@, id),
            r matches Some(e) ==> exists|i: int|
                0 <= i < self@.len() && (#[trigger] self@[i].id) == id && e.contents@
                    == self@[i].contents && (match e.mime {
                    Some(m) => self@[i].mime == Some(m@),
                    None => self@[i].mime is None,
                }),
    {
        match self.index_of(id) {
            None => None,
            Some(i) => {
                let row = self.rows[i].duplicate();
                let e = Entry { contents: row.contents, mime: row.mime };
                proof {
                    assert(0 <= i < self@.len() && self@[i as int].id == id && e.contents@
                        == self@[i as int].contents && (match e.mime {
                        Some(m) => self@[i as int].mime == Some(m@),
                        None => self@[i as int].mime is None,
                    }));
                }
                Some(e)
            },
        }
    }

    /// The digest recorded for the row with identity `id`.
    pub fn digest_of(&self, id: u64) -> (r: Option<u64>)
        ensures
            r is Some <==> has_id(self@, id),
            r matches Some(d) ==> exists|i: int|
                0 <= i < self@.len() && (#[trigger] self@[i].id) == id && self@[i].digest == d,
    {
        match self.index_of(id) {
            None => None,
            Some(i) => {
                let d = self.rows[i].digest;
                proof {
                    assert(self@[i as int].id == id && self@[i as int].digest == d);
                }
                Some(d)
            },
        }
    }

    /// Remove the most recently inserted row; used to retract an
    /// accidental capture.
    pub fn delete_last(&mut self) -> (r: Result<(), StashError>)
        requires
            old(self).wf(),
        ensures
            final(self).wf(),
            final(self).next_identity() == old(self).next_identity(),
            r matches Ok(_) ==> old(self)@.len() > 0 && final(self)@ == old(self)@.drop_last(),
            r matches Err(StashError::NoEntriesToDelete) ==> old(self)@.len() == 0,
            old(self)@.len() == 0 ==> r matches Err(StashError::NoEntriesToDelete),
            r matches Err(e) ==> final(self)@ == old(self)@ && (e matches
                StashError::NoEntriesToDelete || e matches StashError::DeleteLast(_)),
    {
        let n = self.rows.len();
        if n == 0 {
            return Err(StashError::NoEntriesToDelete);
        }
        let ghost cur = self.rows.deep_view();
        let id = self.rows[n - 1].id;
        proof {
            lemma_increasing_unique(cur, n - 1);
            lemma_without_id_at(cur, n - 1);
            lemma_remove_keeps_order(cur, n - 1);
        }
        match sql_delete_row(&mut self.conn, id) {
            Err(e) => Err(StashError::DeleteLast(e)),
            Ok(()) => {
                self.rows.remove(n - 1);
                proof {
                    assert(self.rows.deep_view() =~= cur.remove(n - 1));
                    assert(cur.remove(n - 1) =~= cur.drop_last());
                    assert(ids_below(self.rows.deep_view(), self.next_id)) by {
                        assert(forall|k: int|
                            0 <= k < cur.remove(n - 1).len() ==> (#[trigger] cur.remove(
                                n - 1,
                            )[k].id) < self.next_id);
                    }
                }
                Ok(())
            },
        }
    }

    /// Delete every row and reset the identity sequence.
    pub fn wipe(&mut self) -> (r: Result<(), StashError>)
        requires
            old(self).wf(),
        ensures
            final(self).wf(),
            r matches Ok(_) ==> final(self)@ == Seq::<RowModel>::empty()
                && final(self).next_identity() == 1,
            r matches Err(StashError::Wipe(_)) ==> final(self)@ == old(self)@,
            r is Err ==> r matches Err(StashError::Wipe(_)),
    {
        match sql_delete_all(&mut self.conn) {
            Err(e) => Err(StashError::Wipe(e)),
            Ok(()) => {
                self.rows = Vec::new();
                self.next_id = 1;
                proof {
                    assert(self.rows.deep_view() =~= Seq::<RowModel>::empty());
                }
                Ok(())
            },
        }
    }

    /// Delete the row with identity `id` (a no-op when absent).
    pub fn delete_id(&mut self, id: u64) -> (r: Result<(), StashError>)
        requires
            old(self).wf(),
        ensures
            final(self).wf(),
            final(self).next_identity() == old(self).next_identity(),
            r matches Ok(_) ==> final(self)@ == without_id(old(self)@, id),
            r matches Err(e) ==> final(self)@ == old(self)@ && (e matches
                StashError::DeleteEntry(i, _) && i == id),
    {
        match self.remove_id(id) {
            Ok(()) => Ok(()),
            Err(e) => Err(StashError::DeleteEntry(id, e)),
        }
    }

    /// Fetch a row and promote its recency: `last_accessed` becomes
    /// `now` only if the row is not already the most recently accessed
    /// among the rows sharing its digest.
    pub fn copy_entry(&mut self, id: u64, now: u64) -> (r: Result<Entry, StashError>)
        requires
            old(self).wf(),
        ensures
            final(self).wf(),
            final(self).next_identity() == old(self).next_identity(),
            r is Ok || r matches Err(StashError::DecodeGet(_)) || r matches Err(
                StashError::Store(_),
            ),
            !has_id(old(self)@, id) ==> (r matches Err(StashError::DecodeGet(_)) && final(self)@
                == old(self)@),
            r matches Err(StashError::DecodeGet(_)) ==> !has_id(old(self)@, id),
            (exists|i: int|
                0 <= i < old(self)@.len() && (#[trigger] old(self)@[i].id) == id
                    && freshest_for_digest(old(self)@, i)) ==> r is Ok,
            r matches Err(_) ==> final(self)@ == old(self)@,
            r matches Ok(e) ==> exists|i: int|
                {
                    &&& 0 <= i < old(self)@.len()
                    &&& (#[trigger] old(self)@[i].id) == id
                    &&& e.contents@ == old(self)@[i].contents
                    &&& (match e.mime {
                        Some(m) => old(self)@[i].mime == Some(m@),
                        None => old(self)@[i].mime is None,
                    })
                    &&& (freshest_for_digest(old(self)@, i) ==> final(self)@ == old(self)@)
                    &&& (!freshest_for_digest(old(self)@, i) ==> final(self)@
                        == with_last_accessed(old(self)@, id, now))
                },
    {
        let ghost s = self.rows.deep_view();
        let i = match self.index_of(id) {
            Some(i) => i,
            None => {
                return Err(StashError::DecodeGet("no entry with the requested id".to_owned()));
            },
        };
        let row = self.rows[i].duplicate();
        let mut fresh = true;
        let mut j: usize = 0;
        let n = self.rows.len();
        while j < n
            invariant
                0 <= j <= n == s.len(),
                self.rows.deep_view() == s,
                i < s.len(),
                row@ == s[i as int],
                fresh ==> forall|k: int|
                    0 <= k < j && (#[trigger] s[k].digest) == s[i as int].digest ==> recency_ge(
                        s[i as int],
                        s[k],
                    ),
                !fresh ==> !freshest_for_digest(s, i as int),
            decreases n - j,
        {
            if self.rows[j].digest == row.digest {
                let a_la = row.last_accessed;
                let b_la = self.rows[j].last_accessed;
                if !(a_la > b_la || (a_la == b_la && row.id >= self.rows[j].id)) {
                    proof {
                        assert(!freshest_for_digest(s, i as int)) by {
                            assert(s[j as int].digest == s[i as int].digest && !recency_ge(
                                s[i as int],
                                s[j as int],
                            ));
                        }
                    }
                    fresh = false;
                }
            }
            j = j + 1;
        }
        if fresh {
            return Ok(Entry { contents: row.contents, mime: row.mime });
        }
        match sql_set_last_accessed(&mut self.conn, id, now) {
            Err(e) => Err(StashError::Store(e)),
            Ok(()) => {
                let mut updated = self.rows[i].duplicate();
                updated.last_accessed = now;
                self.rows[i] = updated;
                proof {
                    assert(self.rows.deep_view() =~= with_last_accessed(s, id, now)) by {
                        assert(forall|k: int|
                            0 <= k < s.len() && k != i ==> (#[trigger] s[k].id) != id) by {
                            lemma_increasing_unique(s, i as int);
                        }
                        assert(forall|k: int|
                            0 <= k < s.len() ==> #[trigger] with_last_accessed(s, id, now)[k]
                                == (if s[k].id == id {
                                RowModel { last_accessed: now, ..s[k] }
                            } else {
                                s[k]
                            }));
                    }
                    assert(ids_increasing(self.rows.deep_view())) by {
                        assert(forall|k: int|
                            0 <= k < s.len() ==> (#[trigger] self.rows.deep_view()[k].id)
                                == s[k].id);
                    }
                    assert(ids_below(self.rows.deep_view(), self.next_id)) by {
                        assert(forall|k: int|
                            0 <= k < s.len() ==> (#[trigger] self.rows.deep_view()[k].id)
                                == s[k].id);
                    }
                }
                Ok(Entry { contents: row.contents, mime: row.mime })
            },
        }
    }

    /// Give the row with identity `id` an expiration timestamp.
    pub fn set_expiration(&mut self, id: u64, expires_at: u64) -> (r: Result<(), StashError>)
        requires
            old(self).wf(),
        ensures
            final(self).wf(),
            final(self).next_identity() == old(self).next_identity(),
            r matches Ok(_) ==> final(self)@ == with_expires_at(old(self)@, id, Some(expires_at)),
            r matches Err(e) ==> final(self)@ == old(self)@ && e matches StashError::Store(_),
    {
        let ghost s = self.rows.deep_view();
        match sql_set_expires_at(&mut self.conn, id, Some(expires_at)) {
            Err(e) => Err(StashError::Store(e)),
            Ok(()) => {
                match self.index_of(id) {
                    Some(i) => {
                        let mut updated = self.rows[i].duplicate();
                        updated.expires_at = Some(expires_at);
                        self.rows[i] = updated;
                        proof {
                            let m = with_expires_at(s, id, Some(expires_at));
                            assert(self.rows.deep_view() =~= m) by {
                                assert(forall|k: int|
                                    0 <= k < s.len() && k != i ==> (#[trigger] s[k].id) != id) by {
                                    lemma_increasing_unique(s, i as int);
                                }
                                assert(forall|k: int|
                                    0 <= k < s.len() ==> #[trigger] m[k] == (if s[k].id == id {
                                        RowModel { expires_at: Some(expires_at), ..s[k] }
                                    } else {
                                        s[k]
                                    }));
                            }
                            assert(ids_increasing(self.rows.deep_view()) && ids_below(
                                self.rows.deep_view(),
                                self.next_id,
                            )) by {
                                assert(forall|k: int|
                                    0 <= k < s.len() ==> (#[trigger] self.rows.deep_view()[k].id)
                                        == s[k].id);
                            }
                        }
                    },
                    None => {
                        proof {
                            assert(self.rows.deep_view() =~= with_expires_at(s, id, Some(expires_at))) by {
                                assert(forall|k: int|
                                    0 <= k < s.len() ==> #[trigger] with_expires_at(s, id, Some(expires_at))[k] == s[k]);
                            }
                        }
                    },
                }
                Ok(())
            },
        }
    }

    /// Set the soft-expiry flag on the row with identity `id`.
    pub fn mark_expired(&mut self, id: u64) -> (r: Result<(), StashError>)
        requires
            old(self).wf(),
        ensures
            final(self).wf(),
            final(self).next_identity() == old(self).next_identity(),
            r matches Ok(_) ==> final(self)@ == with_expired(old(self)@, id),
            r matches Err(e) ==> final(self)@ == old(self)@ && e matches StashError::Store(_),
    {
        let ghost s = self.rows.deep_view();
        match sql_set_expired(&mut self.conn, id) {
            Err(e) => Err(StashError::Store(e)),
            Ok(()) => {
                match self.index_of(id) {
                    Some(i) => {
                        let mut updated = self.rows[i].duplicate();
                        updated.is_expired = true;
                        self.rows[i] = updated;
                        proof {
                            let m = with_expired(s, id);
                            assert(self.rows.deep_view() =~= m) by {
                                assert(forall|k: int|
                                    0 <= k < s.len() && k != i ==> (#[trigger] s[k].id) != id) by {
                                    lemma_increasing_unique(s, i as int);
                                }
                                assert(forall|k: int|
                                    0 <= k < s.len() ==> #[trigger] m[k] == (if s[k].id == id {
                                        RowModel { expired: true, ..s[k] }
                                    } else {
                                        s[k]
                                    }));
                            }
                            assert(ids_increasing(self.rows.deep_view()) && ids_below(
                                self.rows.deep_view(),
                                self.next_id,
                            )) by {
                                assert(forall|k: int|
                                    0 <= k < s.len() ==> (#[trigger] self.rows.deep_view()[k].id)
                                        == s[k].id);
                            }
                        }
                    },
                    None => {
                        proof {
                            assert(self.rows.deep_view() =~= with_expired(s, id)) by {
                                assert(forall|k: int|
                                    0 <= k < s.len() ==> #[trigger] with_expired(s, id)[k] == s[k]);
                            }
                        }
                    },
                }
                Ok(())
            },
        }
    }

}

} // verus!
