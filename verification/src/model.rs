//! The mathematical model of the persistent store: one `RowModel` per
//! persisted row, and the specification pipeline (de-duplication window,
//! capacity eviction, liveness filtering, recency ordering) that the
//! store's executable operations are proved against.

use vstd::prelude::*;

verus! {

/// Mathematical model of one persisted row.
pub struct RowModel {
    pub id: u64,
    pub contents: Seq<u8>,
    pub mime: Option<Seq<char>>,
    pub digest: u64,
    pub last_accessed: u64,
    pub expires_at: Option<u64>,
    pub expired: bool,
}

/// One persisted clipboard row.
pub struct Row {
    /// Monotonically increasing identity, never reused.
    pub id: u64,
    /// The captured bytes, 1 byte up to the configured maximum.
    pub contents: Vec<u8>,
    /// Content classification inferred once at store time.
    pub mime: Option<String>,
    /// 64-bit digest of `contents`, for dedup grouping and recency ties.
    pub digest: u64,
    /// Set at insert, bumped on selective copy promotion.
    pub last_accessed: u64,
    /// When present and elapsed, the row is eligible for expiry.
    pub expires_at: Option<u64>,
    /// Set once by the scheduler when `expires_at` elapses.
    pub is_expired: bool,
}

impl View for Row {
    type V = RowModel;

    open spec fn view(&self) -> RowModel {
        RowModel {
            id: self.id,
            contents: self.contents@,
            mime: match self.mime {
                Some(m) => Some(m@),
                None => None,
            },
            digest: self.digest,
            last_accessed: self.last_accessed,
            expires_at: self.expires_at,
            expired: self.is_expired,
        }
    }
}

impl DeepView for Row {
    type V = RowModel;

    open spec fn deep_view(&self) -> RowModel {
        self.view()
    }
}

/// A listed entry: raw contents plus the classification recorded at store
/// time.
pub struct Entry {
    pub contents: Vec<u8>,
    pub mime: Option<String>,
}

/// Copy a byte slice into an owned vector.
pub fn bytes_to_vec(data: &[u8]) -> (r: Vec<u8>)
    ensures
        r@ == data@,
{
    let mut out: Vec<u8> = Vec::new();
    let mut i: usize = 0;
    while i < data.len()
        invariant
            0 <= i <= data@.len(),
            out@ == data@.take(i as int),
        decreases data@.len() - i,
    {
        out.push(data[i]);
        proof {
            assert(out@ =~= data@.take(i + 1));
        }
        i = i + 1;
    }
    proof {
        assert(data@.take(data@.len() as int) =~= data@);
    }
    out
}

impl Row {
    /// An exact copy of the row.
    pub fn duplicate(&self) -> (r: Row)
        ensures
            r@ == self@,
    {
        Row {
            id: self.id,
            contents: bytes_to_vec(self.contents.as_slice()),
            mime: match &self.mime {
                Some(m) => Some(m.clone()),
                None => None,
            },
            digest: self.digest,
            last_accessed: self.last_accessed,
            expires_at: self.expires_at,
            is_expired: self.is_expired,
        }
    }
}

/// Row identities are strictly increasing along the sequence (id order ==
/// insertion order).
pub open spec fn ids_increasing(s: Seq<RowModel>) -> bool {
    forall|i: int, j: int| 0 <= i < j < s.len() ==> s[i].id < s[j].id
}

/// Every row identity lies below `n`.
pub open spec fn ids_below(s: Seq<RowModel>, n: u64) -> bool {
    forall|i: int| 0 <= i < s.len() ==> (#[trigger] s[i].id) < n
}

/// Some row carries identity `id`.
pub open spec fn has_id(s: Seq<RowModel>, id: u64) -> bool {
    exists|i: int| 0 <= i < s.len() && (#[trigger] s[i].id) == id
}

/// The greatest identity in `s` (zero when empty; meaningful when
/// identities ascend along `s`).
pub open spec fn last_id(s: Seq<RowModel>) -> int {
    if s.len() == 0 {
        0
    } else {
        s.last().id as int
    }
}

/// Index of the dedupe window's first row: the window is the (up to) `w`
/// most recently inserted rows.
pub open spec fn window_start(len: int, w: u64) -> int {
    if len <= w { 0 } else { len - w }
}

/// The rows a de-duplication pass keeps: those of another digest.
pub open spec fn keeps_digest(d: u64) -> spec_fn(RowModel) -> bool {
    |r: RowModel| r.digest != d
}

/// De-duplication: within the dedupe window, rows sharing digest `d` are
/// removed; older rows are untouched.
pub open spec fn dedup_spec(s: Seq<RowModel>, d: u64, w: u64) -> Seq<RowModel> {
    let start = window_start(s.len() as int, w);
    s.take(start) + s.skip(start).filter(keeps_digest(d))
}

/// Capacity eviction: keep the `cap` most recently inserted rows,
/// dropping the surplus oldest-first (FIFO by identity, not LRU).
pub open spec fn evict_spec(s: Seq<RowModel>, cap: u64) -> Seq<RowModel> {
    if s.len() <= cap { s } else { s.skip(s.len() - cap) }
}

/// A row is live at `now` when it is not soft-expired and its
/// `expires_at`, if any, has not elapsed.
pub open spec fn live_at(r: RowModel, now: u64) -> bool {
    !r.expired && match r.expires_at {
        Some(t) => t > now,
        None => true,
    }
}

/// The row's expiration timestamp exists and has elapsed.
pub open spec fn elapsed_at(r: RowModel, now: u64) -> bool {
    match r.expires_at {
        Some(t) => t <= now,
        None => false,
    }
}

/// The rows a cleanup sweep keeps: those whose expiration has not
/// elapsed.
pub open spec fn keeps_unelapsed(now: u64) -> spec_fn(RowModel) -> bool {
    |r: RowModel| !elapsed_at(r, now)
}

/// The rows a query deletion keeps: those in whose contents `q` does
/// not occur.
pub open spec fn keeps_unmatched(q: Seq<u8>) -> spec_fn(RowModel) -> bool {
    |r: RowModel| !has_substring(r.contents, q)
}

/// The row has a pending expiration: a timestamp, and it has not been
/// soft-expired yet.
pub open spec fn pending_expiry(r: RowModel) -> bool {
    r.expires_at is Some && !r.expired
}

/// What a browse filter keeps: rows live at `now` whose contents match
/// the search query (an empty query matches everything).
pub open spec fn browse_pred(q: Seq<u8>, now: u64) -> spec_fn(RowModel) -> bool {
    |r: RowModel| live_at(r, now) && (q.len() == 0 || has_substring(r.contents, q))
}

/// The rows a browse of the store presents, before ordering.
pub open spec fn browse_filter(s: Seq<RowModel>, q: Seq<u8>, now: u64) -> Seq<RowModel> {
    s.filter(browse_pred(q, now))
}

/// The rows a listing presents: all of them when `include_expired`,
/// otherwise only rows live at `now`.
pub open spec fn listed_spec(s: Seq<RowModel>, include_expired: bool, now: u64) -> Seq<RowModel> {
    if include_expired { s } else { s.filter(|r: RowModel| live_at(r, now)) }
}

/// Listing order: `a` precedes (or equals) `b` when `a` is more recently
/// accessed, identity descending as tiebreak.
pub open spec fn recency_ge(a: RowModel, b: RowModel) -> bool {
    a.last_accessed > b.last_accessed || (a.last_accessed == b.last_accessed && a.id >= b.id)
}

/// The sequence is sorted by recency (last accessed descending, identity
/// descending on ties).
pub open spec fn recency_sorted(s: Seq<RowModel>) -> bool {
    forall|i: int, j: int| 0 <= i < j < s.len() ==> recency_ge(#[trigger] s[i], #[trigger] s[j])
}

/// `s` with every row of identity `id` removed.
pub open spec fn without_id(s: Seq<RowModel>, id: u64) -> Seq<RowModel> {
    s.filter(|r: RowModel| r.id != id)
}

/// `s` with the row of identity `id` (if any) re-stamped to
/// `last_accessed == ts`.
pub open spec fn with_last_accessed(s: Seq<RowModel>, id: u64, ts: u64) -> Seq<RowModel> {
    s.map_values(
        |r: RowModel|
            if r.id == id {
                RowModel { last_accessed: ts, ..r }
            } else {
                r
            },
    )
}

/// `s` with the row of identity `id` (if any) soft-expired.
pub open spec fn with_expired(s: Seq<RowModel>, id: u64) -> Seq<RowModel> {
    s.map_values(
        |r: RowModel|
            if r.id == id {
                RowModel { expired: true, ..r }
            } else {
                r
            },
    )
}

/// `s` with the row of identity `id` (if any) given expiration `t`.
pub open spec fn with_expires_at(s: Seq<RowModel>, id: u64, t: Option<u64>) -> Seq<RowModel> {
    s.map_values(
        |r: RowModel|
            if r.id == id {
                RowModel { expires_at: t, ..r }
            } else {
                r
            },
    )
}

/// `needle` occurs contiguously within `hay` (byte-level, not
/// charset-aware); an empty needle matches everything.
pub open spec fn has_substring(hay: Seq<u8>, needle: Seq<u8>) -> bool {
    exists|i: int|
        0 <= i && i + needle.len() <= hay.len() && #[trigger] hay.subrange(i, i + needle.len())
            == needle
}

/// The row at position `i` is the most recently accessed among all rows
/// sharing its digest.
pub open spec fn freshest_for_digest(s: Seq<RowModel>, i: int) -> bool {
    forall|j: int|
        0 <= j < s.len() && (#[trigger] s[j].digest) == s[i].digest ==> recency_ge(s[i], s[j])
}

/// The model of a freshly inserted row.
pub open spec fn new_row_model(
    id: u64,
    contents: Seq<u8>,
    mime: Option<Seq<char>>,
    digest: u64,
    now: u64,
) -> RowModel {
    RowModel { id, contents, mime, digest, last_accessed: now, expires_at: None, expired: false }
}

/// What one accepted store leaves behind: duplicates of the new row's
/// digest purged from the dedupe window, the new row appended, then the
/// surplus evicted oldest-first.
pub open spec fn store_spec(s: Seq<RowModel>, row: RowModel, w: u64, cap: u64) -> Seq<RowModel> {
    evict_spec(dedup_spec(s, row.digest, w).push(row), cap)
}

pub proof fn lemma_increasing_unique(s: Seq<RowModel>, i: int)
    requires
        ids_increasing(s),
        0 <= i < s.len(),
    ensures
        forall|j: int| 0 <= j < s.len() && j != i ==> (#[trigger] s[j].id) != s[i].id,
{
}

pub proof fn lemma_without_id_absent(s: Seq<RowModel>, id: u64)
    requires
        forall|i: int| 0 <= i < s.len() ==> (#[trigger] s[i].id) != id,
    ensures
        without_id(s, id) == s,
    decreases s.len(),
{
    reveal_with_fuel(Seq::filter, 2);
    if s.len() == 0 {
        assert(without_id(s, id) =~= s);
    } else {
        assert(forall|i: int|
            0 <= i < s.drop_last().len() ==> (#[trigger] s.drop_last()[i].id) != id);
        lemma_without_id_absent(s.drop_last(), id);
        assert(s.last().id != id);
        assert(without_id(s, id) =~= s.drop_last().push(s.last()));
        assert(s.drop_last().push(s.last()) =~= s);
    }
}

pub proof fn lemma_without_id_at(s: Seq<RowModel>, i: int)
    requires
        0 <= i < s.len(),
        forall|j: int| 0 <= j < s.len() && j != i ==> (#[trigger] s[j].id) != s[i].id,
    ensures
        without_id(s, s[i].id) == s.remove(i),
    decreases s.len(),
{
    reveal_with_fuel(Seq::filter, 2);
    if i == s.len() - 1 {
        assert(forall|j: int|
            0 <= j < s.drop_last().len() ==> (#[trigger] s.drop_last()[j].id) != s[i].id);
        lemma_without_id_absent(s.drop_last(), s[i].id);
        assert(without_id(s, s[i].id) =~= s.drop_last());
        assert(s.remove(i) =~= s.drop_last());
    } else {
        assert(s.drop_last()[i] == s[i]);
        assert(forall|j: int|
            0 <= j < s.drop_last().len() && j != i ==> (#[trigger] s.drop_last()[j].id)
                != s.drop_last()[i].id);
        lemma_without_id_at(s.drop_last(), i);
        assert(s.last().id != s[i].id);
        assert(without_id(s, s[i].id) =~= s.drop_last().remove(i).push(s.last()));
        assert(s.drop_last().remove(i).push(s.last()) =~= s.remove(i));
    }
}

pub proof fn lemma_filter_singleton(x: RowModel, pred: spec_fn(RowModel) -> bool)
    ensures
        seq![x].filter(pred) == if pred(x) {
            seq![x]
        } else {
            Seq::<RowModel>::empty()
        },
{
    reveal_with_fuel(Seq::filter, 2);
    assert(seq![x].drop_last() =~= Seq::<RowModel>::empty());
    assert(seq![x].last() == x);
    if pred(x) {
        assert(seq![x].filter(pred) =~= seq![x]);
    } else {
        assert(seq![x].filter(pred) =~= Seq::<RowModel>::empty());
    }
}

/// De-duplication leaves exactly one row for the stored content: after
/// duplicates of the new row's digest are purged from the dedupe window
/// and the new row is appended, the new row sits last (the newer
/// identity) and no other row within the window shares its digest.
pub proof fn lemma_dedup_single(s: Seq<RowModel>, row: RowModel, w: u64)
    ensures
        ({
            let t = dedup_spec(s, row.digest, w).push(row);
            &&& t.last() == row
            &&& forall|i: int|
                window_start(s.len() as int, w) <= i < t.len() - 1 ==> (#[trigger] t[i]).digest
                    != row.digest
        }),
{
    let start = window_start(s.len() as int, w);
    let kept = s.skip(start).filter(keeps_digest(row.digest));
    let t = dedup_spec(s, row.digest, w).push(row);
    assert forall|i: int| start <= i < t.len() - 1 implies (#[trigger] t[i]).digest
        != row.digest by {
        assert(t[i] == kept[i - start]);
        s.skip(start).lemma_filter_pred(keeps_digest(row.digest), i - start);
    }
}

/// Capacity eviction keeps the row count within the ceiling, and always
/// removes the numerically smallest surviving identities: every evicted
/// row's identity lies below every kept row's.
pub proof fn lemma_evict_oldest(s: Seq<RowModel>, cap: u64)
    requires
        ids_increasing(s),
    ensures
        evict_spec(s, cap).len() <= cap || s.len() <= cap,
        evict_spec(s, cap).len() == if s.len() <= cap {
            s.len()
        } else {
            cap as nat
        },
        forall|i: int, j: int|
            0 <= i < s.len() - evict_spec(s, cap).len() && 0 <= j < evict_spec(s, cap).len()
                ==> (#[trigger] s[i].id) < (#[trigger] evict_spec(s, cap)[j].id),
{
    let t = evict_spec(s, cap);
    if s.len() > cap {
        assert(forall|j: int| 0 <= j < t.len() ==> t[j] == s[j + (s.len() - cap)]);
    }
}

/// A row whose expiration has elapsed, or that has been soft-expired,
/// never appears in a default listing.
pub proof fn lemma_elapsed_excluded(s: Seq<RowModel>, now: u64, i: int)
    requires
        0 <= i < listed_spec(s, false, now).len(),
    ensures
        !elapsed_at(listed_spec(s, false, now)[i], now),
        !listed_spec(s, false, now)[i].expired,
{
    s.lemma_filter_pred(|r: RowModel| live_at(r, now), i);
}

/// No two rows share an identity.
pub open spec fn ids_distinct(s: Seq<RowModel>) -> bool {
    forall|i: int, j: int| 0 <= i < j < s.len() ==> (#[trigger] s[i]).id != (#[trigger] s[j]).id
}

/// The recency listing is categorical: any two recency-sorted
/// arrangements of the same distinct-identity rows are equal, so the
/// listing order (last accessed descending, identity descending) pins
/// the listing completely.
pub proof fn lemma_recency_sort_unique(a: Seq<RowModel>, b: Seq<RowModel>)
    requires
        recency_sorted(a),
        recency_sorted(b),
        ids_distinct(a),
        a.to_multiset() == b.to_multiset(),
    ensures
        a == b,
    decreases a.len(),
{
    broadcast use vstd::seq_lib::group_to_multiset_ensures;

    if a.len() == 0 {
        assert(a.len() == a.to_multiset().len());
        assert(b.len() == b.to_multiset().len());
        assert(b.len() == 0);
        assert(a =~= b);
    } else {
        assert(a.len() == a.to_multiset().len());
        assert(b.len() == b.to_multiset().len());
        assert(b.len() == a.len());
        assert(a.contains(a[0]));
        assert(b.to_multiset().count(a[0]) > 0);
        assert(b.contains(a[0]));
        let ka = choose|k: int| 0 <= k < b.len() && b[k] == a[0];
        assert(recency_ge(b[0], a[0]));
        assert(b.contains(b[0]));
        assert(a.to_multiset().count(b[0]) > 0);
        assert(a.contains(b[0]));
        let kb = choose|k: int| 0 <= k < a.len() && a[k] == b[0];
        assert(recency_ge(a[0], b[0]));
        assert(a[0].last_accessed == b[0].last_accessed && a[0].id == b[0].id);
        assert(a[kb].id == a[0].id);
        assert(kb == 0);
        assert(a[0] == b[0]);
        let at = a.remove(0);
        let bt = b.remove(0);
        assert(at.to_multiset() =~= a.to_multiset().remove(a[0]));
        assert(bt.to_multiset() =~= b.to_multiset().remove(b[0]));
        assert(recency_sorted(at)) by {
            assert(forall|i: int| 0 <= i < at.len() ==> at[i] == a[i + 1]);
        }
        assert(recency_sorted(bt)) by {
            assert(forall|i: int| 0 <= i < bt.len() ==> bt[i] == b[i + 1]);
        }
        assert(ids_distinct(at)) by {
            assert(forall|i: int| 0 <= i < at.len() ==> at[i] == a[i + 1]);
        }
        lemma_recency_sort_unique(at, bt);
        assert(a =~= b) by {
            assert(forall|i: int| 1 <= i < a.len() ==> a[i] == at[i - 1] && b[i] == bt[i - 1]);
        }
    }
}

pub proof fn lemma_filter_element_of(s: Seq<RowModel>, pred: spec_fn(RowModel) -> bool, x: RowModel)
    requires
        s.filter(pred).contains(x),
    ensures
        s.contains(x),
    decreases s.len(),
{
    reveal_with_fuel(Seq::filter, 2);
    if s.len() > 0 {
        let dl = s.drop_last();
        if pred(s.last()) && x == s.last() {
            assert(s[s.len() - 1] == x);
        } else {
            assert(dl.filter(pred).contains(x)) by {
                if pred(s.last()) {
                    let k = choose|k: int|
                        0 <= k < s.filter(pred).len() && s.filter(pred)[k] == x;
                    assert(s.filter(pred) == dl.filter(pred).push(s.last()));
                    assert(k < s.filter(pred).len() - 1);
                    assert(dl.filter(pred)[k] == x);
                }
            }
            lemma_filter_element_of(dl, pred, x);
            let k = choose|k: int| 0 <= k < dl.len() && dl[k] == x;
            assert(s[k] == x);
        }
    }
}

pub proof fn lemma_filter_keeps_distinct(s: Seq<RowModel>, pred: spec_fn(RowModel) -> bool)
    requires
        ids_distinct(s),
    ensures
        ids_distinct(s.filter(pred)),
    decreases s.len(),
{
    reveal_with_fuel(Seq::filter, 2);
    if s.len() > 0 {
        let dl = s.drop_last();
        assert(ids_distinct(dl)) by {
            assert(forall|i: int| 0 <= i < dl.len() ==> dl[i] == s[i]);
        }
        lemma_filter_keeps_distinct(dl, pred);
        if pred(s.last()) {
            let t = dl.filter(pred).push(s.last());
            assert(s.filter(pred) == t);
            assert(ids_distinct(t)) by {
                assert forall|i: int, j: int| 0 <= i < j < t.len() implies (#[trigger] t[i]).id
                    != (#[trigger] t[j]).id by {
                    if j == t.len() - 1 {
                        assert(t[i] == dl.filter(pred)[i]);
                        assert(dl.filter(pred).contains(t[i]));
                        lemma_filter_element_of(dl, pred, t[i]);
                        let k = choose|k: int| 0 <= k < dl.len() && dl[k] == t[i];
                        assert(s[k] == t[i]);
                        assert(s[k].id != s[s.len() - 1].id);
                    }
                }
            }
        }
    }
}

pub proof fn lemma_multiset_keeps_distinct_ids(a: Seq<RowModel>, b: Seq<RowModel>)
    requires
        ids_distinct(a),
        b.to_multiset() == a.to_multiset(),
    ensures
        ids_distinct(b),
{
    broadcast use vstd::seq_lib::group_to_multiset_ensures;

    assert forall|i: int, j: int| 0 <= i < j < b.len() implies (#[trigger] b[i]).id
        != (#[trigger] b[j]).id by {
        if b[i].id == b[j].id {
            if b[i] == b[j] {
                let v = b[i];
                assert(b.remove(i).to_multiset() =~= b.to_multiset().remove(v));
                assert(b.remove(i)[j - 1] == v);
                assert(b.remove(i).contains(v));
                assert(b.to_multiset().remove(v).count(v) > 0);
                assert(a.to_multiset().count(v) >= 2);
                assert(a.contains(v));
                let u = choose|u: int| 0 <= u < a.len() && a[u] == v;
                assert(a.remove(u).to_multiset() =~= a.to_multiset().remove(v));
                assert(a.remove(u).to_multiset().count(v) > 0);
                assert(a.remove(u).contains(v));
                let w0 = choose|w: int| 0 <= w < a.remove(u).len() && a.remove(u)[w] == v;
                let w = if w0 < u { w0 } else { w0 + 1 };
                assert(a[w] == v && w != u);
            } else {
                assert(b.contains(b[i]) && b.contains(b[j]));
                assert(a.to_multiset().count(b[i]) > 0 && a.to_multiset().count(b[j]) > 0);
                assert(a.contains(b[i]) && a.contains(b[j]));
                let u = choose|u: int| 0 <= u < a.len() && a[u] == b[i];
                let w = choose|w: int| 0 <= w < a.len() && a[w] == b[j];
                assert(u != w);
            }
        }
    }
}

/// The default listing is canonical: under distinct identities (every
/// well-formed store has them), any two recency-sorted sequences holding
/// exactly the rows the listing presents are one and the same.
pub proof fn lemma_listing_canonical(
    s: Seq<RowModel>,
    now: u64,
    r1: Seq<RowModel>,
    r2: Seq<RowModel>,
)
    requires
        ids_distinct(s),
        recency_sorted(r1),
        r1.to_multiset() == listed_spec(s, false, now).to_multiset(),
        recency_sorted(r2),
        r2.to_multiset() == listed_spec(s, false, now).to_multiset(),
    ensures
        r1 == r2,
{
    lemma_filter_keeps_distinct(s, |r: RowModel| live_at(r, now));
    lemma_multiset_keeps_distinct_ids(listed_spec(s, false, now), r1);
    lemma_recency_sort_unique(r1, r2);
}

/// Storing content a second time leaves exactly one row for it — at
/// content level, not just digest level.  The assumptions name the
/// inputs the claim needs: a positive capacity (else everything is
/// evicted), digests recorded truthfully (a row's digest is its
/// contents' digest, as every verified insert guarantees), no
/// identical-content row hiding beyond the dedupe window, and a fresh
/// identity above every present one.  The surviving row is the new one,
/// so the content's id is the newest.
pub proof fn lemma_store_dedups_content(s: Seq<RowModel>, row: RowModel, w: u64, cap: u64)
    requires
        cap >= 1,
        forall|i: int|
            0 <= i < s.len() ==> (#[trigger] s[i]).digest == crate::digest::fnv1a_of(
                s[i].contents,
            ),
        row.digest == crate::digest::fnv1a_of(row.contents),
        forall|i: int|
            0 <= i < window_start(s.len() as int, w) ==> (#[trigger] s[i]).contents
                != row.contents,
        ids_below(s, row.id),
    ensures
        ({
            let t = store_spec(s, row, w, cap);
            &&& t.len() >= 1
            &&& t.last() == row
            &&& forall|i: int|
                0 <= i < t.len() && (#[trigger] t[i]).contents == row.contents ==> t[i] == row
            &&& forall|i: int| 0 <= i < t.len() ==> (#[trigger] t[i]).id <= row.id
        }),
{
    let start = window_start(s.len() as int, w);
    let kept = s.skip(start).filter(keeps_digest(row.digest));
    let u = dedup_spec(s, row.digest, w).push(row);
    let t = store_spec(s, row, w, cap);
    assert forall|k: int| 0 <= k < u.len() - 1 implies (#[trigger] u[k]).contents != row.contents
        && u[k].id < row.id by {
        if k < start {
            assert(u[k] == s[k]);
        } else {
            assert(u[k] == kept[k - start]);
            assert(kept.contains(kept[k - start]));
            lemma_filter_element_of(s.skip(start), keeps_digest(row.digest), kept[k - start]);
            let m = choose|m: int|
                0 <= m < s.skip(start).len() && s.skip(start)[m] == kept[k - start];
            assert(s.skip(start)[m] == s[start + m]);
            assert(u[k].digest != row.digest);
            if u[k].contents == row.contents {
                assert(u[k].digest == crate::digest::fnv1a_of(row.contents));
            }
        }
    }
    assert(u.last() == row);
    if u.len() <= cap {
        assert(t == u);
    } else {
        assert(t == u.skip(u.len() - cap));
        assert(t.len() == cap as int);
        assert(forall|i: int| 0 <= i < t.len() ==> #[trigger] t[i] == u[i + (u.len() - cap)]);
        assert(t.last() == u.last());
    }
}

/// After a de-duplication pass for some content's digest, no row within
/// the lookback window holds that content any more — at content level,
/// provided every row's recorded digest is truthful (as every verified
/// insert guarantees).  Rows ahead of the window are untouched.
pub proof fn lemma_dedup_no_content_left(s: Seq<RowModel>, b: Seq<u8>, w: u64)
    requires
        forall|i: int|
            0 <= i < s.len() ==> (#[trigger] s[i]).digest == crate::digest::fnv1a_of(
                s[i].contents,
            ),
    ensures
        ({
            let t = dedup_spec(s, crate::digest::fnv1a_of(b), w);
            let start = window_start(s.len() as int, w);
            &&& forall|i: int|
                start <= i < t.len() ==> (#[trigger] t[i]).contents != b
            &&& forall|i: int| 0 <= i < start ==> #[trigger] t[i] == s[i]
        }),
{
    let d = crate::digest::fnv1a_of(b);
    let start = window_start(s.len() as int, w);
    let kept = s.skip(start).filter(keeps_digest(d));
    let t = dedup_spec(s, d, w);
    assert forall|i: int| start <= i < t.len() implies (#[trigger] t[i]).contents != b by {
        assert(t[i] == kept[i - start]);
        assert(kept.contains(kept[i - start]));
        lemma_filter_element_of(s.skip(start), keeps_digest(d), kept[i - start]);
        let m = choose|m: int| 0 <= m < s.skip(start).len() && s.skip(start)[m] == kept[i - start];
        assert(s.skip(start)[m] == s[start + m]);
        assert(t[i].digest != d);
        if t[i].contents == b {
            assert(t[i].digest == crate::digest::fnv1a_of(b));
        }
    }
}

/// After any accepted store, the row count never exceeds the configured
/// capacity.
pub proof fn lemma_store_within_capacity(s: Seq<RowModel>, row: RowModel, w: u64, cap: u64)
    ensures
        store_spec(s, row, w, cap).len() <= cap,
{
}

/// Promoting a fallen-behind row re-stamps it to the new maximum: when
/// `now` is no older than every recorded access, the promoted row is at
/// least as recent as every row in the result.
pub proof fn lemma_promote_recency(s: Seq<RowModel>, id: u64, now: u64, i: int)
    requires
        0 <= i < s.len(),
        s[i].id == id,
        forall|j: int| 0 <= j < s.len() ==> (#[trigger] s[j].last_accessed) <= now,
    ensures
        with_last_accessed(s, id, now)[i].last_accessed == now,
        forall|j: int|
            0 <= j < s.len() ==> (#[trigger] with_last_accessed(s, id, now)[j].last_accessed)
                <= now,
{
    let t = with_last_accessed(s, id, now);
    assert(forall|j: int|
        0 <= j < s.len() ==> #[trigger] t[j] == (if s[j].id == id {
            RowModel { last_accessed: now, ..s[j] }
        } else {
            s[j]
        }));
}

pub proof fn lemma_filter_push(s: Seq<RowModel>, x: RowModel, pred: spec_fn(RowModel) -> bool)
    ensures
        (s.push(x)).filter(pred) == if pred(x) {
            s.filter(pred).push(x)
        } else {
            s.filter(pred)
        },
{
    reveal_with_fuel(Seq::filter, 1);
    assert(s.push(x).drop_last() =~= s);
    assert(s.push(x).last() == x);
}

pub proof fn lemma_remove_keeps_order(s: Seq<RowModel>, i: int)
    requires
        0 <= i < s.len(),
        ids_increasing(s),
    ensures
        ids_increasing(s.remove(i)),
{
    let t = s.remove(i);
    assert forall|a: int, b: int| 0 <= a < b < t.len() implies t[a].id < t[b].id by {
        let a0 = if a < i { a } else { a + 1 };
        let b0 = if b < i { b } else { b + 1 };
        assert(t[a] == s[a0] && t[b] == s[b0]);
    }
}

} // verus!
