//! The command surface: one small trait per user-facing command, all
//! implemented by the store.  Input and output travel as plain values
//! (bytes, lines, strings); reading and writing them is the caller's
//! business.

use vstd::prelude::*;
use vstd::utf8::encode_utf8;

use crate::digest::fnv1a_of;
use crate::errors::StashError;
use crate::mime::{detect_mime, detect_mime_spec, str_eq};
use crate::model::{
    dedup_spec, evict_spec, has_id, keeps_unmatched, listed_spec, new_row_model, recency_sorted, window_start,
    store_spec, RowModel,
};
use crate::preview::{preview_entry, preview_spec};
use crate::store::{
    delete_lines_spec, parsed_count, size_rejected, SqliteClipboardDb, StorePolicy,
};
use crate::text::{
    all_ascii_space, dec_str, extract_id, lemma_tab_field, lemma_tab_pos, str_chars,
    string_from_chars, tab_field, tab_pos, u64_parse_ok, u64_parse_val, u64_to_string,
};

verus! {

/// The fixed entry-size ceiling of the plain store command.
pub const DEFAULT_MAX_SIZE: u64 = 5_000_000;

/// A line is importable: it has a tab, and its identity field parses
/// (the identity is validated, then discarded).
pub open spec fn import_ok(l: Seq<char>) -> bool {
    tab_pos(l) < l.len() && u64_parse_ok(tab_field(l))
}

/// The bytes an importable line contributes: everything after its first
/// tab, UTF-8 encoded.
pub open spec fn line_bytes(l: Seq<char>) -> Seq<u8> {
    encode_utf8(l.skip(tab_pos(l) as int + 1))
}

/// The row an importable line becomes under identity `id` at `now`.
pub open spec fn import_row(id: u64, l: Seq<char>, now: u64) -> RowModel {
    new_row_model(
        id,
        line_bytes(l),
        detect_mime_spec(line_bytes(l)),
        fnv1a_of(line_bytes(l)),
        now,
    )
}

/// What a bulk import appends: one fresh row per importable line, in
/// order; other lines are skipped.
pub open spec fn import_fold(s: Seq<RowModel>, lines: Seq<Seq<char>>, next: u64, now: u64) -> Seq<
    RowModel,
>
    decreases lines.len(),
{
    if lines.len() == 0 {
        s
    } else if import_ok(lines[0]) && next < u64::MAX {
        import_fold(s.push(import_row(next, lines[0], now)), lines.skip(1), (next + 1) as u64, now)
    } else {
        import_fold(s, lines.skip(1), next, now)
    }
}

/// How many lines are importable.
pub open spec fn import_count(lines: Seq<Seq<char>>) -> nat
    decreases lines.len(),
{
    if lines.len() == 0 {
        0
    } else {
        (if import_ok(lines[0]) {
            1nat
        } else {
            0nat
        }) + import_count(lines.skip(1))
    }
}

/// The entry lifecycle commands every store backend offers.
pub trait ClipboardDb: Sized {
    /// The rows, in insertion order.
    spec fn rows_model(&self) -> Seq<RowModel>;

    /// The backend's invariant.
    spec fn model_wf(&self) -> bool;

    /// The identity the next accepted entry receives.
    spec fn next_id_model(&self) -> u64;

    /// Store a capture under the default size policy.
    fn store_entry(&mut self, input: &[u8], max_dedupe_search: u64, max_items: u64, now: u64) -> (r:
        Result<u64, StashError>)
        requires
            old(self).model_wf(),
        ensures
            final(self).model_wf(),
            r matches Ok(id) ==> id == old(self).next_id_model() && final(self).rows_model()
                == store_spec(
                old(self).rows_model(),
                new_row_model(id, input@, detect_mime_spec(input@), fnv1a_of(input@), now),
                max_dedupe_search,
                max_items,
            ),
            size_rejected(input@.len(), 0, DEFAULT_MAX_SIZE) ==> r matches Err(
                StashError::EmptyOrTooLarge,
            ),
            !size_rejected(input@.len(), 0, DEFAULT_MAX_SIZE) && all_ascii_space(input@)
                ==> r matches Err(StashError::AllWhitespace),
            r matches Err(e) ==> match e {
                StashError::EmptyOrTooLarge => size_rejected(input@.len(), 0, DEFAULT_MAX_SIZE)
                    && final(self).rows_model() == old(self).rows_model(),
                StashError::AllWhitespace => !size_rejected(input@.len(), 0, DEFAULT_MAX_SIZE)
                    && all_ascii_space(input@) && final(self).rows_model() == old(
                    self,
                ).rows_model(),
                StashError::Store(_) => true,
                StashError::DeduplicationRemove(_) => true,
                StashError::Trim(_) => true,
                _ => false,
            },
    ;

    /// Purge rows sharing the capture's digest from the dedupe window.
    fn deduplicate(&mut self, buf: &[u8], max: u64) -> (r: Result<usize, StashError>)
        requires
            old(self).model_wf(),
        ensures
            final(self).model_wf(),
            r matches Ok(n) ==> final(self).rows_model() == dedup_spec(
                old(self).rows_model(),
                fnv1a_of(buf@),
                max,
            ) && n == old(self).rows_model().len() - final(self).rows_model().len(),
            (forall|i: int|
                window_start(old(self).rows_model().len() as int, max) <= i < old(
                    self,
                ).rows_model().len() ==> (#[trigger] old(self).rows_model()[i]).digest
                    != fnv1a_of(buf@)) ==> r is Ok,
    ;

    /// Capacity eviction in isolation, oldest-inserted first.
    fn trim_db(&mut self, max: u64) -> (r: Result<(), StashError>)
        requires
            old(self).model_wf(),
        ensures
            final(self).model_wf(),
            r matches Ok(_) ==> final(self).rows_model() == evict_spec(
                old(self).rows_model(),
                max,
            ),
            old(self).rows_model().len() <= max ==> r is Ok,
    ;

    /// Remove the most recently inserted row.
    fn delete_last(&mut self) -> (r: Result<(), StashError>)
        requires
            old(self).model_wf(),
        ensures
            final(self).model_wf(),
            r matches Ok(_) ==> old(self).rows_model().len() > 0 && final(self).rows_model()
                == old(self).rows_model().drop_last(),
            old(self).rows_model().len() == 0 ==> r matches Err(StashError::NoEntriesToDelete),
    ;

    /// Delete every row and reset the identity sequence.
    fn wipe_db(&mut self) -> (r: Result<(), StashError>)
        requires
            old(self).model_wf(),
        ensures
            final(self).model_wf(),
            r matches Ok(_) ==> final(self).rows_model() == Seq::<RowModel>::empty()
                && final(self).next_id_model() == 1,
    ;

    /// The listed lines, `<id>\t<preview>` each, recency first.
    fn list_entries(&self, preview_width: u32, now: u64) -> (r: Vec<String>)
        ensures
            exists|rows: Seq<RowModel>|
                {
                    &&& recency_sorted(rows)
                    &&& rows.to_multiset() == listed_spec(
                        self.rows_model(),
                        false,
                        now,
                    ).to_multiset()
                    &&& r.deep_view().len() == rows.len()
                    &&& forall|k: int|
                        0 <= k < rows.len() ==> #[trigger] r.deep_view()[k] == line_spec(
                            rows[k],
                            preview_width as nat,
                        )
                },
    ;

    /// Resolve an identity from a listed line and fetch its raw
    /// contents.
    fn decode_entry(&self, input: &str) -> (r: Result<Vec<u8>, StashError>)
        ensures
            !u64_parse_ok(tab_field(input@)) ==> r matches Err(StashError::DecodeExtractId(_)),
            r matches Ok(c) ==> exists|i: int|
                0 <= i < self.rows_model().len() && (#[trigger] self.rows_model()[i].id) as nat
                    == u64_parse_val(tab_field(input@)) && c@ == self.rows_model()[i].contents,
            u64_parse_ok(tab_field(input@)) && !has_id(
                self.rows_model(),
                (u64_parse_val(tab_field(input@)) as u64),
            ) ==> r matches Err(StashError::DecodeGet(_)),
            u64_parse_ok(tab_field(input@)) && has_id(
                self.rows_model(),
                (u64_parse_val(tab_field(input@)) as u64),
            ) ==> r is Ok,
            r matches Err(StashError::DecodeExtractId(_)) ==> !u64_parse_ok(tab_field(input@)),
            r matches Err(StashError::DecodeGet(_)) ==> u64_parse_ok(tab_field(input@)) && !has_id(
                self.rows_model(),
                (u64_parse_val(tab_field(input@)) as u64),
            ),
    ;

    /// Delete every row whose contents contain the query, byte-level.
    fn delete_query(&mut self, query: &str) -> (r: Result<usize, StashError>)
        requires
            old(self).model_wf(),
        ensures
            final(self).model_wf(),
            r matches Ok(n) ==> final(self).rows_model() == old(self).rows_model().filter(
                keeps_unmatched(encode_utf8(query@)),
            ) && n == old(self).rows_model().len() - final(self).rows_model().len(),
    ;

    /// Delete rows by listed lines (first tab-delimited field each).
    fn delete_entries(&mut self, lines: &Vec<String>) -> (r: Result<usize, StashError>)
        requires
            old(self).model_wf(),
        ensures
            final(self).model_wf(),
            r matches Ok(n) ==> final(self).rows_model() == delete_lines_spec(
                old(self).rows_model(),
                lines.deep_view(),
            ) && n == parsed_count(lines.deep_view()),
    ;

    /// The identity the next accepted entry receives.
    fn next_sequence(&self) -> (r: u64)
        ensures
            r == self.next_id_model(),
    ;
}

/// One listed line: the identity, a tab, and the preview.
pub open spec fn line_spec(row: RowModel, width: nat) -> Seq<char> {
    dec_str(row.id as nat) + "\t"@ + preview_spec(row.contents, row.mime, width)
}

impl ClipboardDb for SqliteClipboardDb {
    open spec fn rows_model(&self) -> Seq<RowModel> {
        self@
    }

    open spec fn model_wf(&self) -> bool {
        self.wf()
    }

    open spec fn next_id_model(&self) -> u64 {
        self.next_identity()
    }

    fn store_entry(&mut self, input: &[u8], max_dedupe_search: u64, max_items: u64, now: u64) -> (r:
        Result<u64, StashError>) {
        let policy = StorePolicy {
            max_dedupe_search,
            max_items,
            min_size: 0,
            max_size: DEFAULT_MAX_SIZE,
            sensitive_patterns: Vec::new(),
            excluded_apps: Vec::new(),
        };
        self.store(input, &policy, None, now)
    }

    fn deduplicate(&mut self, buf: &[u8], max: u64) -> (r: Result<usize, StashError>) {
        let d = crate::digest::content_digest(buf);
        match self.dedup(d, max) {
            Ok(n) => Ok(n),
            Err(e) => {
                proof {
                    assert(!(forall|i: int|
                        window_start(old(self)@.len() as int, max) <= i < old(self)@.len() ==> (
                        #[trigger] old(self)@[i]).digest != fnv1a_of(buf@)));
                    let w = choose|w: int|
                        window_start(old(self)@.len() as int, max) <= w < old(self)@.len() && (
                        #[trigger] old(self)@[w]).digest == fnv1a_of(buf@);
                    assert(old(self).rows_model()[w].digest == fnv1a_of(buf@));
                }
                Err(StashError::DeduplicationRemove(e))
            },
        }
    }

    fn trim_db(&mut self, max: u64) -> (r: Result<(), StashError>) {
        match self.trim_rows(max) {
            Ok(()) => Ok(()),
            Err(e) => Err(StashError::Trim(e)),
        }
    }

    fn delete_last(&mut self) -> (r: Result<(), StashError>) {
        SqliteClipboardDb::delete_last(self)
    }

    fn wipe_db(&mut self) -> (r: Result<(), StashError>) {
        SqliteClipboardDb::wipe(self)
    }

    fn list_entries(&self, preview_width: u32, now: u64) -> (r: Vec<String>) {
        let rows = self.list(false, now);
        let ghost sorted = rows.deep_view();
        let mut out: Vec<String> = Vec::new();
        let n = rows.len();
        let mut i: usize = 0;
        while i < n
            invariant
                0 <= i <= n == sorted.len(),
                rows.deep_view() == sorted,
                out.deep_view().len() == i,
                forall|k: int|
                    0 <= k < i ==> #[trigger] out.deep_view()[k] == line_spec(
                        sorted[k],
                        preview_width as nat,
                    ),
            decreases n - i,
        {
            let mut line = u64_to_string(rows[i].id);
            line.append("\t");
            let p = preview_entry(
                rows[i].contents.as_slice(),
                match &rows[i].mime {
                    Some(m) => Some(m.as_str()),
                    None => None,
                },
                preview_width,
            );
            line.append(p.as_str());
            let ghost prev = out.deep_view();
            let ghost lv = line@;
            proof {
                assert(lv == line_spec(sorted[i as int], preview_width as nat));
            }
            out.push(line);
            proof {
                assert(out.deep_view().len() == i + 1);
                assert(out.deep_view()[i as int] == lv);
                assert(forall|k: int| 0 <= k < i ==> out.deep_view()[k] == prev[k]);
                assert forall|k: int| 0 <= k < i + 1 implies #[trigger] out.deep_view()[k]
                    == line_spec(sorted[k], preview_width as nat) by {
                    if k < i {
                        assert(out.deep_view()[k] == prev[k]);
                        assert(prev[k] == line_spec(sorted[k], preview_width as nat));
                    } else {
                        assert(out.deep_view()[k] == lv);
                    }
                }
            }
            i = i + 1;
        }
        out
    }

    fn decode_entry(&self, input: &str) -> (r: Result<Vec<u8>, StashError>) {
        let id = match extract_id(input) {
            Ok(id) => id,
            Err(_) => {
                return Err(StashError::DecodeExtractId("invalid id".to_owned()));
            },
        };
        match self.get(id) {
            Some(e) => {
                proof {
                    let w = choose|i: int|
                        0 <= i < self@.len() && (#[trigger] self@[i].id) == id && e.contents@
                            == self@[i].contents;
                    assert(exists|i: int|
                        0 <= i < self.rows_model().len() && (#[trigger] self.rows_model()[i].id)
                            as nat == u64_parse_val(tab_field(input@)) && e.contents@
                            == self.rows_model()[i].contents) by {
                        assert(0 <= w < self@.len() && self@[w].id as nat == u64_parse_val(
                            tab_field(input@),
                        ) && e.contents@ == self@[w].contents);
                    }
                }
                Ok(e.contents)
            },
            None => Err(StashError::DecodeGet("no entry with the requested id".to_owned())),
        }
    }

    fn delete_query(&mut self, query: &str) -> (r: Result<usize, StashError>) {
        self.delete_query_bytes(query.as_bytes())
    }

    fn delete_entries(&mut self, lines: &Vec<String>) -> (r: Result<usize, StashError>) {
        SqliteClipboardDb::delete_entries(self, lines)
    }

    fn next_sequence(&self) -> (r: u64) {
        self.next_identity_value()
    }
}

/// A retraction request: the capture's source flagged it sensitive, or
/// asked for the clipboard to be cleared.
pub open spec fn retract_requested(state: Option<&String>) -> bool {
    match state {
        Some(s) => s@ == "sensitive"@ || s@ == "clear"@,
        None => false,
    }
}

/// The plain store command: store the capture, or retract the previous
/// one when the source flags it.
pub trait StoreCommand: ClipboardDb {
    /// SqliteClipboardDb `input`, unless `state` requests a retraction, in which
    /// case the most recent row is removed instead.
    fn store(
        &mut self,
        input: &[u8],
        max_dedupe_search: u64,
        max_items: u64,
        state: Option<&String>,
        now: u64,
    ) -> (r: Result<(), StashError>)
        requires
            old(self).model_wf(),
        ensures
            final(self).model_wf(),
            retract_requested(state) ==> (r matches Ok(_) ==> old(self).rows_model().len() > 0
                && final(self).rows_model() == old(self).rows_model().drop_last()),
            !retract_requested(state) ==> (r matches Ok(_) ==> final(self).rows_model()
                == store_spec(
                old(self).rows_model(),
                new_row_model(
                    old(self).next_id_model(),
                    input@,
                    detect_mime_spec(input@),
                    fnv1a_of(input@),
                    now,
                ),
                max_dedupe_search,
                max_items,
            )),
    ;
}

impl StoreCommand for SqliteClipboardDb {
    fn store(
        &mut self,
        input: &[u8],
        max_dedupe_search: u64,
        max_items: u64,
        state: Option<&String>,
        now: u64,
    ) -> (r: Result<(), StashError>) {
        let retract = match state {
            Some(s) => {
                let a = str_eq(s.as_str(), "sensitive");
                let b = str_eq(s.as_str(), "clear");
                a || b
            },
            None => false,
        };
        if retract {
            match SqliteClipboardDb::delete_last(self) {
                Ok(()) => Ok(()),
                Err(e) => Err(e),
            }
        } else {
            match ClipboardDb::store_entry(self, input, max_dedupe_search, max_items, now) {
                Ok(_) => Ok(()),
                Err(e) => Err(e),
            }
        }
    }
}

/// The listing command.
pub trait ListCommand: ClipboardDb {
    /// The listed lines, `<id>\t<preview>` each, recency first.
    fn list(&self, preview_width: u32, now: u64) -> (r: Vec<String>)
        ensures
            exists|rows: Seq<RowModel>|
                {
                    &&& recency_sorted(rows)
                    &&& rows.to_multiset() == listed_spec(
                        self.rows_model(),
                        false,
                        now,
                    ).to_multiset()
                    &&& r.deep_view().len() == rows.len()
                    &&& forall|k: int|
                        0 <= k < rows.len() ==> #[trigger] r.deep_view()[k] == line_spec(
                            rows[k],
                            preview_width as nat,
                        )
                },
    ;
}

impl ListCommand for SqliteClipboardDb {
    fn list(&self, preview_width: u32, now: u64) -> (r: Vec<String>) {
        ClipboardDb::list_entries(self, preview_width, now)
    }
}

/// The deletion-by-lines command.
pub trait DeleteCommand: ClipboardDb {
    /// Delete rows by listed lines (first tab-delimited field each).
    fn delete(&mut self, lines: &Vec<String>) -> (r: Result<usize, StashError>)
        requires
            old(self).model_wf(),
        ensures
            final(self).model_wf(),
            r matches Ok(n) ==> final(self).rows_model() == delete_lines_spec(
                old(self).rows_model(),
                lines.deep_view(),
            ) && n == parsed_count(lines.deep_view()),
    ;
}

impl DeleteCommand for SqliteClipboardDb {
    fn delete(&mut self, lines: &Vec<String>) -> (r: Result<usize, StashError>) {
        SqliteClipboardDb::delete_entries(self, lines)
    }
}

/// The deletion-by-query command.
pub trait QueryCommand: ClipboardDb {
    /// Delete every row whose contents contain the query, byte-level.
    fn query_delete(&mut self, query: &str) -> (r: Result<usize, StashError>)
        requires
            old(self).model_wf(),
        ensures
            final(self).model_wf(),
            r matches Ok(n) ==> final(self).rows_model() == old(self).rows_model().filter(
                keeps_unmatched(encode_utf8(query@)),
            ) && n == old(self).rows_model().len() - final(self).rows_model().len(),
    ;
}

impl QueryCommand for SqliteClipboardDb {
    fn query_delete(&mut self, query: &str) -> (r: Result<usize, StashError>) {
        self.delete_query_bytes(query.as_bytes())
    }
}

/// The wipe command.
pub trait WipeCommand: ClipboardDb {
    /// Delete every row and reset the identity sequence.
    fn wipe(&mut self) -> (r: Result<(), StashError>)
        requires
            old(self).model_wf(),
        ensures
            final(self).model_wf(),
            r matches Ok(_) ==> final(self).rows_model() == Seq::<RowModel>::empty()
                && final(self).next_id_model() == 1,
    ;
}

impl WipeCommand for SqliteClipboardDb {
    fn wipe(&mut self) -> (r: Result<(), StashError>) {
        SqliteClipboardDb::wipe(self)
    }
}

/// The decode command.
pub trait DecodeCommand: ClipboardDb {
    /// Resolve an identity from a listed line and fetch its raw
    /// contents.
    fn decode(&self, input: &str) -> (r: Result<Vec<u8>, StashError>)
        ensures
            !u64_parse_ok(tab_field(input@)) ==> r matches Err(StashError::DecodeExtractId(_)),
            r matches Ok(c) ==> exists|i: int|
                0 <= i < self.rows_model().len() && (#[trigger] self.rows_model()[i].id) as nat
                    == u64_parse_val(tab_field(input@)) && c@ == self.rows_model()[i].contents,
            u64_parse_ok(tab_field(input@)) && has_id(
                self.rows_model(),
                (u64_parse_val(tab_field(input@)) as u64),
            ) ==> r is Ok,
            r matches Err(StashError::DecodeExtractId(_)) ==> !u64_parse_ok(tab_field(input@)),
            r matches Err(StashError::DecodeGet(_)) ==> u64_parse_ok(tab_field(input@)) && !has_id(
                self.rows_model(),
                (u64_parse_val(tab_field(input@)) as u64),
            ),
    ;
}

impl DecodeCommand for SqliteClipboardDb {
    fn decode(&self, input: &str) -> (r: Result<Vec<u8>, StashError>) {
        ClipboardDb::decode_entry(self, input)
    }
}

/// The bulk import command.
pub trait ImportCommand: ClipboardDb {
    /// Import line-oriented `<ignored-id>\t<utf8-text>` records: the
    /// identity field is validated and discarded, a fresh identity is
    /// always assigned; the store is trimmed to `max_items` afterwards.
    fn import_tsv(&mut self, lines: &Vec<String>, max_items: u64, now: u64) -> (r: Result<
        usize,
        StashError,
    >)
        requires
            old(self).model_wf(),
        ensures
            final(self).model_wf(),
            r matches Ok(n) ==> final(self).rows_model() == evict_spec(
                import_fold(old(self).rows_model(), lines.deep_view(), old(self).next_id_model(), now),
                max_items,
            ) && n == import_count(lines.deep_view()),
            r matches Ok(_) ==> final(self).next_id_model() as int == old(self).next_id_model()
                + import_count(lines.deep_view()),
            import_count(lines.deep_view()) == 0 && old(self).rows_model().len() <= max_items
                ==> r is Ok,
    ;
}

impl ImportCommand for SqliteClipboardDb {
    fn import_tsv(&mut self, lines: &Vec<String>, max_items: u64, now: u64) -> (r: Result<
        usize,
        StashError,
    >) {
        let ghost ls = lines.deep_view();
        let ghost s0 = self@;
        let ghost n0 = self.next_identity();
        proof {
            assert(ls.skip(0) =~= ls);
        }
        let mut imported: usize = 0;
        let mut j: usize = 0;
        let n = lines.len();
        while j < n
            invariant
                0 <= j <= n == ls.len(),
                lines.deep_view() == ls,
                self.wf(),
                s0 == old(self)@,
                n0 == old(self).next_identity(),
                import_fold(s0, ls, n0, now) == import_fold(
                    self@,
                    ls.skip(j as int),
                    self.next_identity(),
                    now,
                ),
                imported + import_count(ls.skip(j as int)) == import_count(ls),
                self.next_identity() as int == n0 as int + imported,
                self@.len() == s0.len() + imported,
                imported <= j,
            decreases n - j,
        {
            let ghost suf = ls.skip(j as int);
            proof {
                assert(suf[0] == ls[j as int]);
                assert(suf.skip(1) =~= ls.skip(j + 1));
                assert(ls[j as int] == lines@[j as int]@);
            }
            let ghost l = ls[j as int];
            let chars = str_chars(lines[j].as_str());
            let mut k: usize = 0;
            while k < chars.len() && chars[k] != '\t'
                invariant
                    0 <= k <= chars@.len(),
                    chars@ == l,
                    forall|t: int| 0 <= t < k ==> l[t] != '\t',
                decreases chars@.len() - k,
            {
                k = k + 1;
            }
            proof {
                lemma_tab_pos(l, k as int);
                lemma_tab_field(l, k as int);
            }
            if k == chars.len() {
                proof {
                    assert(!import_ok(l));
                }
                j = j + 1;
                continue ;
            }
            let mut field: Vec<char> = Vec::new();
            let mut t: usize = 0;
            while t < k
                invariant
                    0 <= t <= k <= chars@.len(),
                    chars@ == l,
                    field@ == l.take(k as int).take(t as int),
                decreases k - t,
            {
                field.push(chars[t]);
                proof {
                    assert(field@ =~= l.take(k as int).take(t + 1));
                }
                t = t + 1;
            }
            proof {
                assert(l.take(k as int).take(k as int) =~= l.take(k as int));
            }
            match crate::text::parse_u64_chars(&field) {
                None => {
                    proof {
                        assert(!import_ok(l));
                    }
                    j = j + 1;
                    continue ;
                },
                Some(_) => (),
            }
            proof {
                assert(import_ok(l));
            }
            let mut rest: Vec<char> = Vec::new();
            let mut t2: usize = k + 1;
            while t2 < chars.len()
                invariant
                    k + 1 <= t2 <= chars@.len(),
                    chars@ == l,
                    rest@ == l.subrange(k + 1, t2 as int),
                decreases chars@.len() - t2,
            {
                rest.push(chars[t2]);
                proof {
                    assert(rest@ =~= l.subrange(k + 1, t2 + 1));
                }
                t2 = t2 + 1;
            }
            proof {
                assert(rest@ =~= l.skip(k + 1));
            }
            let rest_str = string_from_chars(&rest);
            let data = rest_str.as_str().as_bytes();
            proof {
                assert(data@ == line_bytes(l));
            }
            if self.next_identity_value() == u64::MAX {
                proof {
                    assert(import_count(suf) >= 1);
                    assert(import_count(ls) >= 1);
                }
                return Err(StashError::Store("identity space exhausted".to_owned()));
            }
            let id = self.next_identity_value();
            let mime = detect_mime(data);
            let d = crate::digest::content_digest(data);
            let row = crate::model::Row {
                id,
                contents: crate::model::bytes_to_vec(data),
                mime,
                digest: d,
                last_accessed: now,
                expires_at: None,
                is_expired: false,
            };
            proof {
                assert(row.deep_view() == import_row(id, l, now));
            }
            match self.append_row(row) {
                Ok(()) => (),
                Err(e) => {
                    proof {
                        assert(import_count(suf) >= 1);
                        assert(import_count(ls) >= 1);
                    }
                    return Err(StashError::Store(e));
                },
            }
            imported = imported + 1;
            j = j + 1;
        }
        proof {
            assert(ls.skip(ls.len() as int) =~= Seq::<Seq<char>>::empty());
        }
        match self.trim_rows(max_items) {
            Ok(()) => Ok(imported),
            Err(e) => Err(StashError::Trim(e)),
        }
    }
}

} // verus!
