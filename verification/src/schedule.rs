//! The watch scheduler's decision logic: change detection by content
//! digest, the in-memory expiration queue (a cache of the store's
//! `expires_at` column, rebuilt at startup), and the two wake branches.
//! The loop that sleeps and talks to the desktop clipboard lives
//! outside; it hands bytes in and carries actions out.

use vstd::prelude::*;

use crate::digest::{content_digest, fnv1a_of};
use crate::errors::StashError;
use crate::mime::detect_mime_spec;
use crate::model::{
    has_id, ids_distinct, lemma_multiset_keeps_distinct_ids, new_row_model, pending_expiry,
    store_spec, with_expired, with_expires_at, RowModel,
};
use crate::store::{SqliteClipboardDb, StorePolicy};

verus! {

/// Queue order: expiration timestamp ascending, identity as tiebreak.
pub open spec fn queue_le(a: (u64, u64), b: (u64, u64)) -> bool {
    a.0 < b.0 || (a.0 == b.0 && a.1 <= b.1)
}

/// The queue is sorted by deadline.
pub open spec fn queue_sorted(s: Seq<(u64, u64)>) -> bool {
    forall|i: int, j: int| 0 <= i < j < s.len() ==> queue_le(#[trigger] s[i], #[trigger] s[j])
}

/// Some queued entry carries identity `id`.
pub open spec fn queue_has_id(s: Seq<(u64, u64)>, id: u64) -> bool {
    exists|i: int| 0 <= i < s.len() && (#[trigger] s[i]).1 == id
}

/// The pair names a pending row of the given listing: its identity, its
/// own expiration deadline.
pub open spec fn queue_sourced(listed: Seq<RowModel>, deadline: u64, id: u64) -> bool {
    exists|m: int|
        0 <= m < listed.len() && (#[trigger] listed[m]).id == id && listed[m].expires_at == Some(
            deadline,
        ) && !listed[m].expired
}

/// The queue holds exactly this deadline for this identity.
pub open spec fn queue_has_pair(s: Seq<(u64, u64)>, deadline: u64, id: u64) -> bool {
    exists|i: int| 0 <= i < s.len() && (#[trigger] s[i]) == (deadline, id)
}

/// The in-memory expiration queue: `(expires_at, id)` pairs, a cache of
/// the store's persisted column, never the source of truth.
pub struct ExpirationQueue {
    items: Vec<(u64, u64)>,
}

impl View for ExpirationQueue {
    type V = Seq<(u64, u64)>;

    closed spec fn view(&self) -> Seq<(u64, u64)> {
        self.items@
    }
}

impl ExpirationQueue {
    /// Deadline order and one entry per identity.
    pub closed spec fn wf(&self) -> bool {
        &&& queue_sorted(self.items@)
        &&& forall|i: int, j: int|
            0 <= i < j < self.items@.len() ==> (#[trigger] self.items@[i]).1 != (
            #[trigger] self.items@[j]).1
    }

    /// An empty queue.
    pub fn new() -> (r: ExpirationQueue)
        ensures
            r.wf(),
            r@.len() == 0,
    {
        ExpirationQueue { items: Vec::new() }
    }

    /// How many expirations are pending.
    pub fn len(&self) -> (r: usize)
        ensures
            r == self@.len(),
    {
        self.items.len()
    }

    /// Enqueue a deadline, skipping identities already present (the
    /// reconciliation rule that prevents double insertion).
    pub fn push(&mut self, expires_at: u64, id: u64)
        requires
            old(self).wf(),
        ensures
            final(self).wf(),
            queue_has_id(old(self)@, id) ==> final(self)@ == old(self)@,
            !queue_has_id(old(self)@, id) ==> final(self)@.to_multiset() == old(
                self,
            )@.to_multiset().insert((expires_at, id)),
            queue_has_id(final(self)@, id),
            !queue_has_id(old(self)@, id) ==> queue_has_pair(final(self)@, expires_at, id),
            forall|x: u64| queue_has_id(old(self)@, x) ==> queue_has_id(final(self)@, x),
            forall|t: u64, x: u64|
                queue_has_pair(old(self)@, t, x) ==> queue_has_pair(final(self)@, t, x),
    {
        broadcast use vstd::seq_lib::group_to_multiset_ensures;

        let ghost s = self.items@;
        let n = self.items.len();
        let mut i: usize = 0;
        while i < n
            invariant
                0 <= i <= n == s.len(),
                self.items@ == s,
                self.wf(),
                forall|k: int| 0 <= k < i ==> (#[trigger] s[k]).1 != id,
            decreases n - i,
        {
            if self.items[i].1 == id {
                proof {
                    assert(queue_has_id(s, id));
                }
                return ;
            }
            i = i + 1;
        }
        let mut pos: usize = 0;
        while pos < n && (self.items[pos].0 < expires_at || (self.items[pos].0 == expires_at
            && self.items[pos].1 <= id))
            invariant
                0 <= pos <= n == s.len(),
                self.items@ == s,
                forall|k: int| 0 <= k < pos ==> queue_le(#[trigger] s[k], (expires_at, id)),
            decreases n - pos,
        {
            pos = pos + 1;
        }
        proof {
            if pos < s.len() {
                assert(queue_le((expires_at, id), s[pos as int]));
            }
        }
        self.items.insert(pos, (expires_at, id));
        proof {
            let t = self.items@;
            assert(t == s.insert(pos as int, (expires_at, id)));
            assert(forall|k: int| 0 <= k < pos ==> t[k] == s[k]);
            assert(t[pos as int] == (expires_at, id));
            assert(forall|k: int| pos < k < t.len() ==> t[k] == s[k - 1]);
            assert(queue_sorted(t)) by {
                assert(forall|a: int, b: int|
                    0 <= a < b < t.len() && b < pos ==> queue_le(#[trigger] t[a], #[trigger] t[b]));
                assert(forall|a: int, b: int|
                    pos < a < b < t.len() ==> queue_le(#[trigger] t[a], #[trigger] t[b]));
                assert(forall|a: int, b: int|
                    0 <= a < b < t.len() && a < pos && b > pos ==> queue_le(
                        #[trigger] t[a],
                        #[trigger] t[b],
                    ));
            }
            assert(queue_has_id(t, id)) by {
                assert(t[pos as int].1 == id);
            }
            assert(queue_has_pair(t, expires_at, id)) by {
                assert(t[pos as int] == (expires_at, id));
            }
            assert forall|x: u64| queue_has_id(s, x) implies queue_has_id(t, x) by {
                let w = choose|w: int| 0 <= w < s.len() && (#[trigger] s[w]).1 == x;
                if w < pos {
                    assert(t[w].1 == x);
                } else {
                    assert(t[w + 1].1 == x);
                }
            }
            assert forall|dl: u64, x: u64| queue_has_pair(s, dl, x) implies queue_has_pair(
                t,
                dl,
                x,
            ) by {
                let w = choose|w: int| 0 <= w < s.len() && (#[trigger] s[w]) == (dl, x);
                if w < pos {
                    assert(t[w] == (dl, x));
                } else {
                    assert(t[w + 1] == (dl, x));
                }
            }
        }
    }

    /// The earliest queued deadline.
    pub fn next_deadline(&self) -> (r: Option<u64>)
        ensures
            r is Some <==> self@.len() > 0,
            r matches Some(t) ==> t == self@[0].0,
            self.wf() ==> match r {
                Some(t) => forall|i: int| 0 <= i < self@.len() ==> t <= (#[trigger] self@[i]).0,
                None => true,
            },
    {
        if self.items.len() == 0 {
            None
        } else {
            let t = self.items[0].0;
            proof {
                if self.wf() {
                    assert(forall|i: int|
                        0 < i < self@.len() ==> queue_le(self@[0], #[trigger] self@[i]));
                }
            }
            Some(t)
        }
    }

    /// Dequeue every deadline that has elapsed; they form a prefix of
    /// the deadline-ordered queue.
    pub fn pop_due(&mut self, now: u64) -> (r: Vec<(u64, u64)>)
        requires
            old(self).wf(),
        ensures
            final(self).wf(),
            r@ + final(self)@ == old(self)@,
            forall|i: int| 0 <= i < r@.len() ==> (#[trigger] r@[i]).0 <= now,
            forall|i: int| 0 <= i < final(self)@.len() ==> (#[trigger] final(self)@[i]).0 > now,
    {
        let ghost s = self.items@;
        let mut due: Vec<(u64, u64)> = Vec::new();
        let mut k: usize = 0;
        let n = self.items.len();
        while k < n && self.items[k].0 <= now
            invariant
                0 <= k <= n == s.len(),
                self.items@ == s,
                due@ == s.take(k as int),
                forall|i: int| 0 <= i < k ==> (#[trigger] s[i]).0 <= now,
            decreases n - k,
        {
            due.push(self.items[k]);
            proof {
                assert(due@ =~= s.take(k + 1));
            }
            k = k + 1;
        }
        let ghost cut = k as int;
        let mut rest: Vec<(u64, u64)> = Vec::new();
        let mut j: usize = k;
        while j < n
            invariant
                0 <= cut <= j <= n == s.len(),
                self.items@ == s,
                rest@ == s.subrange(cut, j as int),
            decreases n - j,
        {
            rest.push(self.items[j]);
            proof {
                assert(rest@ =~= s.subrange(cut, j + 1));
            }
            j = j + 1;
        }
        self.items = rest;
        proof {
            assert(due@ + self.items@ =~= s);
            assert(forall|i: int|
                0 <= i < self.items@.len() ==> (#[trigger] self.items@[i]) == s[cut + i]);
            if cut < s.len() {
                assert(s[cut].0 > now);
                assert(forall|i: int| cut <= i < s.len() ==> queue_le(s[cut], #[trigger] s[i]));
            }
        }
        due
    }
}

/// The live clipboard (by its digest) still holds the content of the
/// row with identity `id`.
pub open spec fn digest_matches(s: Seq<RowModel>, id: u64, live: Option<u64>) -> bool {
    match live {
        Some(d) => exists|i: int|
            0 <= i < s.len() && (#[trigger] s[i].id) == id && s[i].digest == d,
        None => false,
    }
}

/// What one expiration fold leaves of the store: the given identities
/// soft-expired in order.
pub open spec fn expire_ids(s: Seq<RowModel>, ids: Seq<u64>) -> Seq<RowModel>
    decreases ids.len(),
{
    if ids.len() == 0 {
        s
    } else {
        expire_ids(with_expired(s, ids[0]), ids.skip(1))
    }
}

/// What polling decided.
pub enum PollOutcome {
    /// The clipboard was empty or unchanged since the last poll.
    Unchanged,
    /// A new capture was stored under the given identity.
    Stored(u64),
    /// The capture was rejected by validation or policy; it still counts
    /// as seen.
    Rejected(StashError),
    /// Storage failed; the capture still counts as seen.
    Failed(StashError),
}

/// The watch scheduler's state between wakes.
pub struct Scheduler {
    /// Pending expirations, a cache of the store's column.
    pub queue: ExpirationQueue,
    /// Digest of the last clipboard content seen (stored or rejected).
    pub last_seen: Option<u64>,
    /// The fixed polling interval, in milliseconds.
    pub poll_interval: u64,
    /// The configured time-to-live, if any, in milliseconds.
    pub ttl: Option<u64>,
}

impl Scheduler {
    /// The scheduler's queue invariant.
    pub open spec fn wf(&self) -> bool {
        self.queue.wf()
    }

    /// A fresh scheduler.
    pub fn new(poll_interval: u64, ttl: Option<u64>) -> (r: Scheduler)
        ensures
            r.wf(),
            r.queue@.len() == 0,
            r.last_seen is None,
            r.poll_interval == poll_interval,
            r.ttl == ttl,
    {
        Scheduler { queue: ExpirationQueue::new(), last_seen: None, poll_interval, ttl }
    }

    /// Rebuild the queue from the store at startup: seed it with the
    /// earliest pending expiration, then walk the remaining rows; the
    /// queue's own reconciliation rule skips the already-seeded row.
    /// At startup the queue is empty, so afterwards every pending row's
    /// own `(expires_at, id)` pair is queued — which is what lets the
    /// next wake land at or before the earliest `expires_at`.
    pub fn init_from_store(&mut self, store: &SqliteClipboardDb)
        requires
            old(self).wf(),
            old(self).queue@.len() == 0,
            store.wf(),
        ensures
            final(self).wf(),
            forall|i: int|
                0 <= i < store@.len() && pending_expiry(#[trigger] store@[i]) ==> queue_has_pair(
                    final(self).queue@,
                    store@[i].expires_at->0,
                    store@[i].id,
                ),
    {
        broadcast use vstd::seq_lib::group_to_multiset_ensures;

        let ghost s = store@;
        proof {
            store.lemma_wf_ids();
            assert(ids_distinct(s));
        }
        let rows = store.list(true, 0);
        let ghost listed = rows.deep_view();
        proof {
            assert(listed.to_multiset() == s.to_multiset());
            lemma_multiset_keeps_distinct_ids(s, listed);
        }
        match store.next_expiration() {
            Some(p) => {
                self.queue.push(p.0, p.1);
                proof {
                    let w = choose|w: int|
                        0 <= w < s.len() && (#[trigger] s[w].id) == p.1 && pending_expiry(s[w])
                            && s[w].expires_at == Some(p.0);
                    assert(s.contains(s[w]));
                    assert(s.to_multiset().count(s[w]) > 0);
                    assert(listed.to_multiset().count(s[w]) > 0);
                    assert(listed.contains(s[w]));
                    let m = choose|m: int| 0 <= m < listed.len() && listed[m] == s[w];
                    assert forall|t: u64, x: u64| #[trigger] queue_has_pair(self.queue@, t, x)
                        implies queue_sourced(listed, t, x) by {
                        assert(self.queue@.to_multiset() == old(
                            self,
                        ).queue@.to_multiset().insert((p.0, p.1)));
                        let q = choose|q: int|
                            0 <= q < self.queue@.len() && (#[trigger] self.queue@[q]) == (t, x);
                        assert(self.queue@.contains((t, x)));
                        assert(self.queue@.to_multiset().count((t, x)) > 0);
                        assert((t, x) == (p.0, p.1)) by {
                            assert(old(self).queue@.to_multiset().count((t, x)) == 0) by {
                                if old(self).queue@.to_multiset().count((t, x)) > 0 {
                                    assert(old(self).queue@.contains((t, x)));
                                }
                            }
                        }
                        assert(0 <= m < listed.len() && listed[m].id == x && listed[m].expires_at
                            == Some(t) && !listed[m].expired);
                    }
                }
            },
            None => {
                proof {
                    assert forall|t: u64, x: u64| #[trigger] queue_has_pair(self.queue@, t, x)
                        implies queue_sourced(listed, t, x) by {
                    }
                }
            },
        }
        let n = rows.len();
        let mut i: usize = 0;
        while i < n
            invariant
                0 <= i <= n == listed.len(),
                rows.deep_view() == listed,
                self.queue.wf(),
                ids_distinct(listed),
                forall|t: u64, x: u64|
                    #[trigger] queue_has_pair(self.queue@, t, x) ==> queue_sourced(listed, t, x),
                forall|k: int|
                    0 <= k < i && pending_expiry(#[trigger] listed[k]) ==> queue_has_pair(
                        self.queue@,
                        listed[k].expires_at->0,
                        listed[k].id,
                    ),
            decreases n - i,
        {
            let t = match rows[i].expires_at {
                Some(t) => if rows[i].is_expired {
                    None
                } else {
                    Some(t)
                },
                None => None,
            };
            match t {
                Some(t) => {
                    let ghost q0 = self.queue@;
                    self.queue.push(t, rows[i].id);
                    proof {
                        broadcast use vstd::seq_lib::group_to_multiset_ensures;

                        assert(pending_expiry(listed[i as int]));
                        assert(listed[i as int].expires_at == Some(t));
                        if queue_has_id(q0, listed[i as int].id) {
                            let q = choose|q: int|
                                0 <= q < q0.len() && (#[trigger] q0[q]).1 == listed[i as int].id;
                            assert(queue_has_pair(q0, q0[q].0, q0[q].1));
                            assert(queue_sourced(listed, q0[q].0, q0[q].1));
                            let m = choose|m: int|
                                0 <= m < listed.len() && (#[trigger] listed[m]).id == q0[q].1
                                    && listed[m].expires_at == Some(q0[q].0)
                                    && !listed[m].expired;
                            assert(m == i) by {
                                if m != i {
                                    assert(listed[m].id != listed[i as int].id);
                                }
                            }
                            assert(q0[q].0 == t);
                            assert(queue_has_pair(self.queue@, t, listed[i as int].id));
                        }
                        assert(queue_has_pair(self.queue@, t, listed[i as int].id));
                        assert forall|dl: u64, x: u64|
                            #[trigger] queue_has_pair(self.queue@, dl, x) implies queue_sourced(
                            listed,
                            dl,
                            x,
                        ) by {
                            if queue_has_id(q0, listed[i as int].id) {
                                assert(queue_has_pair(q0, dl, x));
                            } else {
                                assert(self.queue@.to_multiset() == q0.to_multiset().insert(
                                    (t, listed[i as int].id),
                                ));
                                let q = choose|q: int|
                                    0 <= q < self.queue@.len() && (#[trigger] self.queue@[q]) == (
                                    dl,
                                    x,
                                );
                                assert(self.queue@.contains((dl, x)));
                                assert(self.queue@.to_multiset().count((dl, x)) > 0);
                                if (dl, x) != (t, listed[i as int].id) {
                                    assert(q0.to_multiset().count((dl, x)) > 0);
                                    assert(q0.contains((dl, x)));
                                    assert(queue_has_pair(q0, dl, x));
                                } else {
                                    assert(queue_sourced(listed, dl, x)) by {
                                        assert(0 <= i < listed.len() && listed[i as int].id == x
                                            && listed[i as int].expires_at == Some(dl)
                                            && !listed[i as int].expired);
                                    }
                                }
                            }
                        }
                    }
                },
                None => {
                    proof {
                        assert(!pending_expiry(listed[i as int]));
                    }
                },
            }
            i = i + 1;
        }
        proof {
            assert forall|i: int| 0 <= i < s.len() && pending_expiry(#[trigger] s[i])
                implies queue_has_pair(self.queue@, s[i].expires_at->0, s[i].id) by {
                assert(s.contains(s[i]));
                assert(s.to_multiset().count(s[i]) > 0);
                assert(listed.to_multiset().count(s[i]) > 0);
                assert(listed.contains(s[i]));
                let k = choose|k: int| 0 <= k < listed.len() && listed[k] == s[i];
                assert(pending_expiry(listed[k]));
            }
        }
    }

    /// When the next wake is due: one polling interval from now, or the
    /// next pending expiration, whichever is sooner.
    pub fn next_wake(&self, now: u64) -> (r: u64)
        ensures
            r <= sat_add(now, self.poll_interval),
            self.queue@.len() == 0 ==> r == sat_add(now, self.poll_interval),
            self.queue@.len() > 0 ==> r == if self.queue@[0].0 < sat_add(now, self.poll_interval) {
                self.queue@[0].0
            } else {
                sat_add(now, self.poll_interval)
            },
            self.wf() ==> forall|i: int|
                0 <= i < self.queue@.len() ==> r <= (#[trigger] self.queue@[i]).0,
    {
        let base = match now.checked_add(self.poll_interval) {
            Some(b) => b,
            None => u64::MAX,
        };
        match self.queue.next_deadline() {
            Some(t) => {
                proof {
                    if self.wf() && self.queue@.len() > 0 {
                        assert(forall|i: int|
                            0 < i < self.queue@.len() ==> queue_le(
                                self.queue@[0],
                                #[trigger] self.queue@[i],
                            ));
                    }
                }
                if t < base {
                    t
                } else {
                    base
                }
            },
            None => base,
        }
    }

    /// The expiration branch of one wake: dequeue every elapsed
    /// deadline, soft-expire the corresponding rows, and report whether
    /// the live clipboard (by its content digest) still holds expired
    /// content and must be actively cleared.
    pub fn expire_due(&mut self, store: &mut SqliteClipboardDb, now: u64, live_digest: Option<u64>) -> (r:
        Result<(usize, bool), StashError>)
        requires
            old(self).wf(),
            old(store).wf(),
        ensures
            final(self).wf(),
            final(store).wf(),
            final(self).last_seen == old(self).last_seen,
            final(self).poll_interval == old(self).poll_interval,
            final(self).ttl == old(self).ttl,
            r matches Ok(p) ==> ({
                &&& final(store)@ == expire_ids(
                    old(store)@,
                    old(self).queue@.take(p.0 as int).map_values(|q: (u64, u64)| q.1),
                )
                &&& p.0 <= old(self).queue@.len()
                &&& final(self).queue@ == old(self).queue@.skip(p.0 as int)
                &&& (forall|i: int|
                    0 <= i < p.0 ==> (#[trigger] old(self).queue@[i]).0 <= now)
                &&& (forall|i: int|
                    0 <= i < final(self).queue@.len() ==> (#[trigger] final(self).queue@[i]).0
                        > now)
                &&& (p.1 <==> exists|k: int|
                    0 <= k < p.0 && digest_matches(
                        old(store)@,
                        (#[trigger] old(self).queue@[k]).1,
                        live_digest,
                    ))
            }),
            (forall|i: int|
                0 <= i < old(self).queue@.len() ==> (#[trigger] old(self).queue@[i]).0 > now)
                ==> (r matches Ok(p) && (p.0 == 0 && !p.1)),
    {
        let ghost q0 = self.queue@;
        let due = self.queue.pop_due(now);
        let ghost dueseq = due@;
        proof {
            assert(dueseq =~= q0.take(dueseq.len() as int));
            assert(self.queue@ =~= q0.skip(dueseq.len() as int));
        }
        proof {
            assert(dueseq.len() <= q0.len()) by {
                assert(dueseq.len() + self.queue@.len() == q0.len());
            }
        }
        let ghost s0 = store@;
        let mut cleared = false;
        let mut j: usize = 0;
        let n = due.len();
        while j < n
            invariant
                0 <= j <= n == dueseq.len(),
                due@ == dueseq,
                store.wf(),
                self.wf(),
                self.queue@ == q0.skip(dueseq.len() as int),
                self.last_seen == old(self).last_seen,
                self.poll_interval == old(self).poll_interval,
                self.ttl == old(self).ttl,
                store@ == expire_ids(s0, dueseq.take(j as int).map_values(|q: (u64, u64)| q.1)),
                dueseq == q0.take(dueseq.len() as int),
                dueseq.len() <= q0.len(),
                q0 == old(self).queue@,
                forall|k: int| 0 <= k < dueseq.len() ==> (#[trigger] dueseq[k]).0 <= now,
                s0 == old(store)@,
                store@.len() == s0.len(),
                forall|k: int|
                    0 <= k < s0.len() ==> (#[trigger] store@[k].id) == s0[k].id && store@[k].digest
                        == s0[k].digest,
                cleared <==> exists|k: int|
                    0 <= k < j && digest_matches(s0, (#[trigger] dueseq[k]).1, live_digest),
            decreases n - j,
        {
            let ghost ids_done = dueseq.take(j as int).map_values(|q: (u64, u64)| q.1);
            let ghost ids_next = dueseq.take(j + 1).map_values(|q: (u64, u64)| q.1);
            let id = due[j].1;
            let d_opt = store.digest_of(id);
            let ghost before = store@;
            proof {
                store.lemma_wf_ids();
            }
            match store.mark_expired(id) {
                Err(e) => {
                    proof {
                        assert(q0[j as int] == dueseq[j as int]);
                        assert(q0[j as int].0 <= now);
                    }
                    return Err(e);
                },
                Ok(()) => (),
            }
            proof {
                assert(store@ == with_expired(before, id));
                lemma_expire_ids_snoc(s0, dueseq.take(j + 1).map_values(|q: (u64, u64)| q.1));
                assert(ids_next.drop_last() =~= ids_done) by {
                    assert(dueseq.take(j + 1).drop_last() =~= dueseq.take(j as int));
                }
                assert(ids_next.last() == id);
                assert(ids_next.len() > 0);
            }
            proof {
                assert(forall|k: int|
                    0 <= k < s0.len() ==> (#[trigger] store@[k].id) == before[k].id
                        && store@[k].digest == before[k].digest);
                match (live_digest, d_opt) {
                    (Some(ld), Some(d)) => {
                        let w = choose|i: int|
                            0 <= i < before.len() && (#[trigger] before[i].id) == id
                                && before[i].digest == d;
                        assert(s0[w].id == id && s0[w].digest == d);
                        if ld == d {
                            assert(digest_matches(s0, id, live_digest));
                        } else {
                            assert(!digest_matches(s0, id, live_digest)) by {
                                if digest_matches(s0, id, live_digest) {
                                    let v = choose|i: int|
                                        0 <= i < s0.len() && (#[trigger] s0[i].id) == id
                                            && s0[i].digest == ld;
                                    assert(before[v].id == id && before[v].digest == ld);
                                    assert(v != w ==> before[v].id != before[w].id) by {
                                        crate::model::lemma_increasing_unique(before, w);
                                    }
                                }
                            }
                        }
                    },
                    (_, None) => {
                        assert(!digest_matches(s0, id, live_digest)) by {
                            if digest_matches(s0, id, live_digest) {
                                let v = choose|i: int|
                                    0 <= i < s0.len() && (#[trigger] s0[i].id) == id
                                        && s0[i].digest == live_digest->0;
                                assert(before[v].id == id);
                                assert(crate::model::has_id(before, id));
                            }
                        }
                    },
                    (None, _) => {
                        assert(!digest_matches(s0, id, live_digest));
                    },
                }
                assert(dueseq[j as int].1 == id);
            }
            match (live_digest, d_opt) {
                (Some(ld), Some(d)) => {
                    if ld == d {
                        cleared = true;
                    }
                },
                _ => (),
            }
            j = j + 1;
        }
        proof {
            assert(dueseq.take(n as int) =~= dueseq);
        }
        Ok((n, cleared))
    }

    /// The polling branch of one wake: digest the clipboard bytes; when
    /// they are non-empty and differ from the last content seen, store
    /// them, stamp and enqueue an expiration when a time-to-live is
    /// configured, and — whatever the store decided — remember the
    /// digest so rejected content is not reprocessed every tick.
    pub fn on_poll(
        &mut self,
        store: &mut SqliteClipboardDb,
        content: &[u8],
        policy: &StorePolicy,
        source_app: Option<&String>,
        now: u64,
    ) -> (r: PollOutcome)
        requires
            old(self).wf(),
            old(store).wf(),
        ensures
            final(self).wf(),
            final(store).wf(),
            final(self).poll_interval == old(self).poll_interval,
            final(self).ttl == old(self).ttl,
            content@.len() == 0 || old(self).last_seen == Some(fnv1a_of(content@)) ==> ({
                &&& r is Unchanged
                &&& final(store)@ == old(store)@
                &&& final(self).queue@ == old(self).queue@
                &&& final(self).last_seen == old(self).last_seen
            }),
            content@.len() > 0 && old(self).last_seen != Some(fnv1a_of(content@))
                ==> final(self).last_seen == Some(fnv1a_of(content@)),
            r matches PollOutcome::Stored(id) ==> ({
                &&& id == old(store).next_identity()
                &&& (old(self).ttl is None ==> final(store)@ == store_spec(
                    old(store)@,
                    new_row_model(
                        id,
                        content@,
                        detect_mime_spec(content@),
                        fnv1a_of(content@),
                        now,
                    ),
                    policy.max_dedupe_search,
                    policy.max_items,
                ) && final(self).queue@ == old(self).queue@)
                &&& (old(self).ttl matches Some(d) ==> final(store)@ == with_expires_at(
                    store_spec(
                        old(store)@,
                        new_row_model(
                            id,
                            content@,
                            detect_mime_spec(content@),
                            fnv1a_of(content@),
                            now,
                        ),
                        policy.max_dedupe_search,
                        policy.max_items,
                    ),
                    id,
                    Some(sat_add(now, d)),
                ) && queue_has_id(final(self).queue@, id) && (!queue_has_id(
                    old(self).queue@,
                    id,
                ) ==> queue_has_pair(final(self).queue@, sat_add(now, d), id)))
            }),
            r matches PollOutcome::Rejected(e) ==> ({
                &&& final(store)@ == old(store)@
                &&& (e matches StashError::EmptyOrTooLarge || e matches StashError::AllWhitespace
                    || e matches StashError::Sensitive || e matches StashError::ExcludedByApp(_))
            }),
    {
        if content.len() == 0 {
            return PollOutcome::Unchanged;
        }
        let h = content_digest(content);
        match self.last_seen {
            Some(prev) => {
                if prev == h {
                    return PollOutcome::Unchanged;
                }
            },
            None => (),
        }
        self.last_seen = Some(h);
        match store.store(content, policy, source_app, now) {
            Ok(id) => {
                match self.ttl {
                    Some(d) => {
                        let expires = match now.checked_add(d) {
                            Some(t) => t,
                            None => u64::MAX,
                        };
                        match store.set_expiration(id, expires) {
                            Ok(()) => {
                                self.queue.push(expires, id);
                                PollOutcome::Stored(id)
                            },
                            Err(e) => PollOutcome::Failed(e),
                        }
                    },
                    None => PollOutcome::Stored(id),
                }
            },
            Err(e) => {
                match &e {
                    StashError::EmptyOrTooLarge => PollOutcome::Rejected(e),
                    StashError::AllWhitespace => PollOutcome::Rejected(e),
                    StashError::Sensitive => PollOutcome::Rejected(e),
                    StashError::ExcludedByApp(_) => PollOutcome::Rejected(e),
                    _ => PollOutcome::Failed(e),
                }
            },
        }
    }
}

/// Addition saturating at the numeric ceiling.
pub open spec fn sat_add(a: u64, b: u64) -> u64 {
    if a + b > u64::MAX {
        u64::MAX
    } else {
        (a + b) as u64
    }
}

proof fn lemma_expire_ids_snoc(s: Seq<RowModel>, ids: Seq<u64>)
    requires
        ids.len() > 0,
    ensures
        expire_ids(s, ids) == with_expired(expire_ids(s, ids.drop_last()), ids.last()),
    decreases ids.len(),
{
    if ids.len() == 1 {
        assert(ids.drop_last() =~= Seq::<u64>::empty());
        assert(expire_ids(s, ids.drop_last()) == s);
        assert(ids.skip(1) =~= Seq::<u64>::empty());
        assert(expire_ids(s, ids) == expire_ids(with_expired(s, ids[0]), ids.skip(1)));
    } else {
        lemma_expire_ids_snoc(with_expired(s, ids[0]), ids.skip(1));
        assert(ids.skip(1).drop_last() =~= ids.drop_last().skip(1));
        assert(ids.skip(1).last() == ids.last());
        assert(ids.drop_last()[0] == ids[0]);
        assert(ids.drop_last().len() > 0);
    }
}

} // verus!
