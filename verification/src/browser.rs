//! The interactive browser's viewport state: a cursor over a live,
//! filterable result set, a loaded contiguous window of it, and the
//! rules that keep the two consistent without loading the result set
//! wholesale.

use vstd::prelude::*;

use crate::model::{browse_filter, recency_sorted, Row, RowModel};
use crate::store::SqliteClipboardDb;

verus! {

/// Where the cursor moves on one step down (circular).
pub open spec fn down_spec(c: nat, total: nat) -> nat {
    if total == 0 {
        0
    } else if c + 1 >= total {
        0
    } else {
        c + 1
    }
}

/// Where the cursor moves on one step up (circular).
pub open spec fn up_spec(c: nat, total: nat) -> nat {
    if total == 0 {
        0
    } else if c == 0 {
        (total - 1) as nat
    } else {
        (c - 1) as nat
    }
}

/// The cursor after `k` steps down.
pub open spec fn down_k(c: nat, k: nat, total: nat) -> nat
    decreases k,
{
    if k == 0 {
        c
    } else {
        down_spec(down_k(c, (k - 1) as nat, total), total)
    }
}

/// Stepping down `k` times (at most one full circle) lands `k` past the
/// start, wrapped once at the row count.
pub proof fn lemma_down_k_window(c: nat, k: nat, total: nat)
    requires
        total > 0,
        c < total,
        k <= total,
    ensures
        down_k(c, k, total) == if c + k < total {
            c + k
        } else {
            (c + k - total) as nat
        },
    decreases k,
{
    if k > 0 {
        lemma_down_k_window(c, (k - 1) as nat, total);
    }
}

/// Moving the cursor down once per row walks the whole circle: after as
/// many steps as there are rows, it is back where it started.
pub proof fn lemma_down_full_circle(c: nat, total: nat)
    requires
        total > 0,
        c < total,
    ensures
        down_k(c, total, total) == c,
{
    lemma_down_k_window(c, total, total);
}

/// The re-anchored viewport offset: the cursor lands at the window's
/// vertical midpoint, clamped to `[0, total - window_size]`, and pinned
/// to zero while the cursor sits in the first half of a window.
pub open spec fn anchor_spec(cursor: nat, total: nat, window_size: nat) -> nat {
    let half = window_size / 2;
    if cursor < half {
        0
    } else if total <= window_size {
        0
    } else if cursor - half > total - window_size {
        (total - window_size) as nat
    } else {
        (cursor - half) as nat
    }
}

/// The browser's viewport state.
pub struct BrowserState {
    /// Row count under the current filter.
    pub total: usize,
    /// Global logical index of the selection.
    pub cursor: usize,
    /// First global index of the loaded window.
    pub viewport_offset: usize,
    /// The loaded contiguous slice of the result set.
    pub window: Vec<Row>,
    /// How many rows one screen holds.
    pub window_size: usize,
    /// The window no longer reflects the store and must be reloaded.
    pub dirty: bool,
    /// The active search query, byte-level.
    pub search_query: Vec<u8>,
    /// Whether keystrokes currently edit the search query.
    pub search_mode: bool,
}

impl BrowserState {
    /// The cursor stays inside the filtered result set.
    pub open spec fn wf(&self) -> bool {
        if self.total == 0 {
            self.cursor == 0
        } else {
            self.cursor < self.total
        }
    }

    /// A fresh browser over `total` rows, its window not yet loaded.
    pub fn new(total: usize, window_size: usize) -> (r: BrowserState)
        ensures
            r.wf(),
            r.total == total,
            r.cursor == 0,
            r.viewport_offset == 0,
            r.window@.len() == 0,
            r.window_size == window_size,
            r.dirty,
            r.search_query@.len() == 0,
            !r.search_mode,
    {
        BrowserState {
            total,
            cursor: 0,
            viewport_offset: 0,
            window: Vec::new(),
            window_size,
            dirty: true,
            search_query: Vec::new(),
            search_mode: false,
        }
    }

    /// Move the selection one row down, wrapping past the last row.
    pub fn move_down(&mut self)
        requires
            old(self).wf(),
        ensures
            final(self).wf(),
            final(self).cursor == down_spec(old(self).cursor as nat, old(self).total as nat),
            final(self).total == old(self).total && final(self).window == old(self).window
                && final(self).dirty == old(self).dirty && final(self).viewport_offset == old(
                self,
            ).viewport_offset && final(self).search_query == old(self).search_query,
    {
        if self.total == 0 {
            self.cursor = 0;
        } else if self.cursor + 1 >= self.total {
            self.cursor = 0;
        } else {
            self.cursor = self.cursor + 1;
        }
    }

    /// Move the selection one row up, wrapping past the first row.
    pub fn move_up(&mut self)
        requires
            old(self).wf(),
        ensures
            final(self).wf(),
            final(self).cursor == up_spec(old(self).cursor as nat, old(self).total as nat),
            final(self).total == old(self).total && final(self).window == old(self).window
                && final(self).dirty == old(self).dirty && final(self).viewport_offset == old(
                self,
            ).viewport_offset && final(self).search_query == old(self).search_query,
    {
        if self.total == 0 {
            self.cursor = 0;
        } else if self.cursor == 0 {
            self.cursor = self.total - 1;
        } else {
            self.cursor = self.cursor - 1;
        }
    }

    /// The window must be reloaded: it is stale, or the cursor left it.
    pub fn needs_reload(&self) -> (r: bool)
        ensures
            r == (self.dirty || self.cursor < self.viewport_offset || self.cursor
                >= self.viewport_offset + self.window@.len()),
    {
        self.dirty || self.cursor < self.viewport_offset || (self.cursor - self.viewport_offset)
            >= self.window.len()
    }

    /// Reload the window from the store: re-anchor the viewport around
    /// the cursor, re-count the filtered rows, and fetch the slice.
    pub fn resync(&mut self, store: &SqliteClipboardDb, now: u64)
        requires
            old(self).wf(),
        ensures
            final(self).wf(),
            !final(self).dirty,
            final(self).search_query == old(self).search_query,
            final(self).window_size == old(self).window_size,
            final(self).window@.len() <= final(self).window_size,
            final(self).viewport_offset == anchor_spec(
                final(self).cursor as nat,
                final(self).total as nat,
                final(self).window_size as nat,
            ),
            final(self).total == browse_filter(store@, old(self).search_query@, now).len(),
            final(self).cursor as int == (if final(self).total == 0 {
                0int
            } else if old(self).cursor >= final(self).total {
                final(self).total - 1
            } else {
                old(self).cursor as int
            }),
            exists|full: Seq<RowModel>|
                {
                    &&& recency_sorted(full)
                    &&& full.to_multiset() == browse_filter(
                        store@,
                        old(self).search_query@,
                        now,
                    ).to_multiset()
                    &&& final(self).window.deep_view() == full.subrange(
                        if final(self).viewport_offset as int <= full.len() {
                            final(self).viewport_offset as int
                        } else {
                            full.len() as int
                        },
                        if final(self).viewport_offset as int + final(self).window_size as int
                            <= full.len() {
                            final(self).viewport_offset as int + final(self).window_size as int
                        } else {
                            full.len() as int
                        },
                    )
                },
    {
        let total = store.count_filtered(self.search_query.as_slice(), now);
        self.total = total;
        if total == 0 {
            self.cursor = 0;
        } else if self.cursor >= total {
            self.cursor = total - 1;
        }
        let half = self.window_size / 2;
        let offset: usize = if self.cursor < half {
            0
        } else if total <= self.window_size {
            0
        } else if self.cursor - half > total - self.window_size {
            total - self.window_size
        } else {
            self.cursor - half
        };
        self.viewport_offset = offset;
        let window = store.fetch_window(
            self.search_query.as_slice(),
            now,
            offset,
            self.window_size,
        );
        proof {
            let full = choose|full: Seq<RowModel>|
                {
                    &&& recency_sorted(full)
                    &&& full.to_multiset() == browse_filter(
                        store@,
                        self.search_query@,
                        now,
                    ).to_multiset()
                    &&& window.deep_view() == full.subrange(
                        if offset as int <= full.len() {
                            offset as int
                        } else {
                            full.len() as int
                        },
                        if offset as int + self.window_size as int <= full.len() {
                            offset as int + self.window_size as int
                        } else {
                            full.len() as int
                        },
                    )
                };
            assert(window.deep_view().len() <= self.window_size);
            assert(window@.len() == window.deep_view().len());
        }
        self.window = window;
        self.dirty = false;
    }

    /// Enter search mode: clear any prior query and mark the window
    /// stale.
    pub fn start_search(&mut self)
        requires
            old(self).wf(),
        ensures
            final(self).wf(),
            final(self).search_mode,
            final(self).search_query@.len() == 0,
            final(self).dirty,
            final(self).cursor == old(self).cursor && final(self).total == old(self).total,
    {
        self.search_mode = true;
        self.search_query = Vec::new();
        self.dirty = true;
    }

    /// Leave search mode; the query keeps filtering the listing until a
    /// new search clears it.
    pub fn end_search(&mut self)
        requires
            old(self).wf(),
        ensures
            final(self).wf(),
            !final(self).search_mode,
            *final(self) == (BrowserState { search_mode: false, ..*old(self) }),
    {
        self.search_mode = false;
    }

    /// One keystroke of the query: extend it, reset the cursor, adopt
    /// the re-counted total, and mark the window stale.
    pub fn push_query_byte(&mut self, b: u8, new_total: usize)
        requires
            old(self).wf(),
        ensures
            final(self).wf(),
            final(self).search_query@ == old(self).search_query@.push(b),
            final(self).cursor == 0,
            final(self).total == new_total,
            final(self).dirty,
    {
        self.search_query.push(b);
        self.cursor = 0;
        self.total = new_total;
        self.dirty = true;
    }

    /// One backspace of the query: shorten it, reset the cursor, adopt
    /// the re-counted total, and mark the window stale.
    pub fn pop_query_byte(&mut self, new_total: usize)
        requires
            old(self).wf(),
        ensures
            final(self).wf(),
            final(self).search_query@ == if old(self).search_query@.len() > 0 {
                old(self).search_query@.drop_last()
            } else {
                old(self).search_query@
            },
            final(self).cursor == 0,
            final(self).total == new_total,
            final(self).dirty,
    {
        if self.search_query.len() > 0 {
            self.search_query.pop();
        }
        self.cursor = 0;
        self.total = new_total;
        self.dirty = true;
    }

    /// The selected row was deleted: the total shrinks by exactly one,
    /// the cursor is clamped to the new bound, and the window is marked
    /// stale; no full requery is forced.
    pub fn on_delete(&mut self)
        requires
            old(self).wf(),
            old(self).total > 0,
        ensures
            final(self).wf(),
            final(self).total == old(self).total - 1,
            final(self).cursor <= old(self).cursor,
            final(self).dirty,
    {
        self.total = self.total - 1;
        if self.total == 0 {
            self.cursor = 0;
        } else if self.cursor >= self.total {
            self.cursor = self.total - 1;
        }
        self.dirty = true;
    }

    /// A copy promoted an entry under a fresh identity: the listing
    /// order may have changed, so the window is stale.
    pub fn on_copy(&mut self, identity_changed: bool)
        requires
            old(self).wf(),
        ensures
            final(self).wf(),
            final(self).dirty == (old(self).dirty || identity_changed),
            final(self).cursor == old(self).cursor && final(self).total == old(self).total,
    {
        if identity_changed {
            self.dirty = true;
        }
    }
}

} // verus!
