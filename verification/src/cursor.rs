//! The shared slot cursor: the single source of truth for "what slot should
//! be processed next".
//!
//! The cursor owns a pending list of buffered, not-yet-dispatched slots and a
//! backward-moving window boundary. Slots are handed out in descending order
//! within a window; when the pending list runs dry the cursor asks its caller
//! to fetch the next window (the remote call happens outside the library) and
//! to hand the answer back through [`Cursor::refill`]. A time-based early
//! termination ([`Cursor::truncate_below`]) discards buffered work below a
//! given slot and stops all further window requests.
//!
//! Callers serialize access to one cursor (the surrounding program keeps it
//! behind an exclusive lock); the contracts here describe each operation as
//! one atomic step, and the lemmas at the bottom relate whole sequences of
//! such steps.

use vstd::prelude::*;

verus! {

/// Number of slots spanned by one backward-moving window request.
pub const WINDOW_SIZE: u64 = 1000;

/// What one call of [`Cursor::take_next`] asks of its caller.
#[derive(Debug, Clone, Copy, PartialEq, Eq, Structural)]
pub enum TakeStep {
    /// A slot to process. The cursor never hands it out again.
    Got(u64),
    /// The pending list is empty but more windows remain: fetch the ascending
    /// slot list of the range `[start, end]` from the remote service and hand
    /// it to [`Cursor::refill`], then call [`Cursor::take_next`] again.
    NeedWindow { start: u64, end: u64 },
    /// The pending list is empty and no further windows remain.
    Done,
}

/// The elements of `s` grow strictly from left to right.
pub open spec fn strictly_ascending(s: Seq<u64>) -> bool {
    forall|i: int, j: int| 0 <= i < j < s.len() ==> s[i] < s[j]
}

/// The subsequence of `s` whose elements are at least `slot`, in order.
pub open spec fn retain_from(s: Seq<u64>, slot: u64) -> Seq<u64>
    decreases s.len(),
{
    if s.len() == 0 {
        Seq::empty()
    } else {
        let rest = retain_from(s.drop_last(), slot);
        if s.last() >= slot {
            rest.push(s.last())
        } else {
            rest
        }
    }
}

/// Order on window boundaries: `None` (exhausted) is the bottom. Every
/// boundary may step down to it; nothing ever steps up from it.
pub open spec fn boundary_le(after: Option<u64>, before: Option<u64>) -> bool {
    match (after, before) {
        (Option::None, _) => true,
        (Option::Some(_), Option::None) => false,
        (Option::Some(x), Option::Some(y)) => x <= y,
    }
}

/// Shared cursor state: the pending work list, the upper bound of the next
/// window to request (`None` once exhausted), and the fixed timestamp below
/// which retrieval halts.
pub struct Cursor {
    /// Buffered, not-yet-dispatched slots, strictly ascending; dispatched
    /// from the back, so the numerically highest goes first.
    pub pending: Vec<u64>,
    /// Upper bound of the next window to request, `None` once exhausted.
    pub boundary: Option<u64>,
    /// Timestamp below which retrieval halts; fixed for the whole run.
    pub stop_time: i64,
}

impl Cursor {
    /// Well-formedness: the pending list is strictly ascending, and while a
    /// boundary is set every buffered slot lies strictly above it (so the
    /// next window can never overlap the buffered one).
    pub open spec fn wf(self) -> bool {
        &&& strictly_ascending(self.pending@)
        &&& match self.boundary {
            Option::Some(b) => forall|i: int|
                0 <= i < self.pending@.len() ==> self.pending@[i] > b,
            Option::None => true,
        }
    }

    /// No buffered work and no further windows: every subsequent request for
    /// work yields [`TakeStep::Done`].
    pub open spec fn exhausted(self) -> bool {
        self.pending@.len() == 0 && self.boundary is None
    }

    /// Slot `s` could still come out of this cursor: it is buffered, or it
    /// lies in a window that may yet be requested.
    pub open spec fn can_yield(self, s: u64) -> bool {
        self.pending@.contains(s) || match self.boundary {
            Option::Some(b) => s <= b,
            Option::None => false,
        }
    }

    /// A fresh cursor: nothing buffered, the first window will end at
    /// `end_slot`, and retrieval halts below `stop_time`.
    pub fn new(end_slot: u64, stop_time: i64) -> (c: Cursor)
        ensures
            c.wf(),
            c.pending@ == Seq::<u64>::empty(),
            c.boundary == Option::Some(end_slot),
            c.stop_time == stop_time,
    {
        Cursor { pending: Vec::new(), boundary: Option::Some(end_slot), stop_time }
    }

    /// Hand out the next slot: pop the back of the pending list. If the list
    /// is empty but a boundary is set, ask the caller to fetch the window
    /// `[boundary - WINDOW_SIZE, boundary]` (clamped to zero near the start
    /// of the ledger) and to come back through [`Cursor::refill`]. If the
    /// cursor is exhausted, report `Done`.
    ///
    /// A dispatched slot is gone for good: it is strictly greater than
    /// everything the cursor can still yield.
    pub fn take_next(&mut self) -> (r: TakeStep)
        requires
            old(self).wf(),
        ensures
            final(self).wf(),
            final(self).stop_time == old(self).stop_time,
            old(self).pending@.len() > 0 ==> {
                &&& r == TakeStep::Got(old(self).pending@.last())
                &&& final(self).pending@ == old(self).pending@.drop_last()
                &&& final(self).boundary == old(self).boundary
            },
            old(self).pending@.len() == 0 && old(self).boundary is Some ==> {
                &&& final(self).pending@ == old(self).pending@
                &&& final(self).boundary == old(self).boundary
                &&& r == (TakeStep::NeedWindow {
                    start: if old(self).boundary->Some_0 >= WINDOW_SIZE {
                        (old(self).boundary->Some_0 - WINDOW_SIZE) as u64
                    } else {
                        0
                    },
                    end: old(self).boundary->Some_0,
                })
            },
            old(self).exhausted() ==> r == TakeStep::Done && final(self).exhausted(),
            r == TakeStep::Done <==> old(self).exhausted(),
            boundary_le(final(self).boundary, old(self).boundary),
            forall|t: u64| final(self).can_yield(t) ==> old(self).can_yield(t),
            r matches TakeStep::Got(s) ==> old(self).can_yield(s) && !final(self).can_yield(s)
                && forall|t: u64| final(self).can_yield(t) ==> t < s,
    {
        match self.pending.pop() {
            Option::Some(slot) => {
                proof {
                    assert forall|t: u64| self.can_yield(t) implies t < slot by {
                        if self.pending@.contains(t) {
                            let i = choose|i: int|
                                0 <= i < self.pending@.len() && self.pending@[i] == t;
                            assert(old(self).pending@[i] == t);
                        } else {
                            assert(old(self).pending@[0] > self.boundary->Some_0);
                        }
                    }
                    assert forall|t: u64| self.can_yield(t) implies old(self).can_yield(t) by {
                        if self.pending@.contains(t) {
                            let i = choose|i: int|
                                0 <= i < self.pending@.len() && self.pending@[i] == t;
                            assert(old(self).pending@[i] == t);
                            assert(old(self).pending@.contains(t));
                        }
                    }
                }
                TakeStep::Got(slot)
            },
            Option::None => match self.boundary {
                Option::Some(end) => TakeStep::NeedWindow {
                    start: if end >= WINDOW_SIZE {
                        end - WINDOW_SIZE
                    } else {
                        0
                    },
                    end,
                },
                Option::None => TakeStep::Done,
            },
        }
    }

    /// Install the window the caller fetched for the request that
    /// [`Cursor::take_next`] issued: the ascending slot list of a range whose
    /// upper end was the current boundary. The new boundary becomes one less
    /// than the smallest slot returned, so the next window can never overlap
    /// this one; an empty answer exhausts the cursor.
    ///
    /// The caller checks the service's answer before handing it in: the list
    /// must be strictly ascending, bounded by the requested window's end, and
    /// must not reach below slot one.
    pub fn refill(&mut self, window: Vec<u64>)
        requires
            old(self).wf(),
            old(self).pending@.len() == 0,
            old(self).boundary is Some,
            strictly_ascending(window@),
            forall|i: int| 0 <= i < window@.len() ==> window@[i] <= old(self).boundary->Some_0,
            window@.len() > 0 ==> window@[0] >= 1,
        ensures
            final(self).wf(),
            final(self).stop_time == old(self).stop_time,
            final(self).pending@ == window@,
            window@.len() == 0 ==> final(self).boundary is None,
            window@.len() > 0 ==> final(self).boundary == Option::Some(
                (window@[0] - 1) as u64,
            ),
            boundary_le(final(self).boundary, old(self).boundary),
            forall|t: u64| final(self).can_yield(t) ==> old(self).can_yield(t),
    {
        if window.len() == 0 {
            self.boundary = Option::None;
        } else {
            let first: u64 = window[0];
            self.boundary = Option::Some(first - 1);
        }
        self.pending = window;
        proof {
            assert forall|t: u64| self.can_yield(t) implies old(self).can_yield(t) by {
                if self.pending@.contains(t) {
                    let i = choose|i: int|
                        0 <= i < self.pending@.len() && self.pending@[i] == t;
                }
            }
        }
    }

    /// Early termination: when `block_time` is earlier than the stop
    /// timestamp, keep only the buffered slots at or above `slot` and stop
    /// all further window requests. Otherwise the cursor is left untouched.
    /// Repeated calls can only shrink the pending list, never grow it.
    ///
    /// Truncation is best effort. Concurrent workers observe timestamps only
    /// roughly in step with decreasing slot numbers, so a worker holding an
    /// old block from one window may truncate after a sibling has advanced
    /// the cursor into a lower window, discarding buffered slots that never
    /// fell below the stop timestamp. What is guaranteed is exactly the
    /// contract below: slots at or above `slot` are kept, nothing is ever
    /// added, and the run winds down without duplicating work.
    pub fn truncate_below(&mut self, slot: u64, block_time: i64)
        requires
            old(self).wf(),
        ensures
            final(self).wf(),
            final(self).stop_time == old(self).stop_time,
            block_time < old(self).stop_time ==> {
                &&& final(self).pending@ == retain_from(old(self).pending@, slot)
                &&& final(self).boundary is None
            },
            block_time >= old(self).stop_time ==> *final(self) == *old(self),
            boundary_le(final(self).boundary, old(self).boundary),
            forall|t: u64| final(self).can_yield(t) ==> old(self).can_yield(t),
    {
        if block_time < self.stop_time {
            let ghost orig = self.pending@;
            let mut kept: Vec<u64> = Vec::new();
            let mut i: usize = 0;
            while i < self.pending.len()
                invariant
                    i <= self.pending@.len(),
                    self.pending@ == orig,
                    kept@ == retain_from(orig.take(i as int), slot),
                decreases self.pending@.len() - i,
            {
                proof {
                    assert(orig.take(i as int + 1).drop_last() =~= orig.take(i as int));
                    assert(orig.take(i as int + 1).last() == orig[i as int]);
                }
                if self.pending[i] >= slot {
                    kept.push(self.pending[i]);
                }
                i += 1;
            }
            proof {
                assert(orig.take(orig.len() as int) =~= orig);
            }
            self.pending = kept;
            self.boundary = Option::None;
            proof {
                lemma_retain_from_props(orig, slot);
            }
        }
    }
}

/// Everything `retain_from` keeps comes from the input sequence, stays in
/// order, and is at least `slot`; everything at least `slot` is kept.
pub proof fn lemma_retain_from_props(s: Seq<u64>, slot: u64)
    ensures
        retain_from(s, slot).len() <= s.len(),
        forall|t: u64| #[trigger] retain_from(s, slot).contains(t) <==> s.contains(t) && t >= slot,
        strictly_ascending(s) ==> strictly_ascending(retain_from(s, slot)),
    decreases s.len(),
{
    if s.len() == 0 {
        assert forall|t: u64| #[trigger] retain_from(s, slot).contains(t) <==> s.contains(
            t,
        ) && t >= slot by {
            if s.contains(t) {
                let i = choose|i: int| 0 <= i < s.len() && s[i] == t;
            }
        }
    } else {
        let rest = s.drop_last();
        lemma_retain_from_props(rest, slot);
        let r = retain_from(s, slot);
        let rr = retain_from(rest, slot);
        assert forall|t: u64| #[trigger] r.contains(t) implies s.contains(t) && t >= slot by {
            let i = choose|i: int| 0 <= i < r.len() && r[i] == t;
            if s.last() >= slot && i == r.len() - 1 {
                assert(s[s.len() - 1] == t);
            } else {
                assert(rr.contains(t));
                let j = choose|j: int| 0 <= j < rest.len() && rest[j] == t;
                assert(s[j] == t);
            }
        }
        assert forall|t: u64| s.contains(t) && t >= slot implies #[trigger] r.contains(t) by {
            let i = choose|i: int| 0 <= i < s.len() && s[i] == t;
            if i == s.len() - 1 {
                assert(r[r.len() - 1] == t);
            } else {
                assert(rest[i] == t);
                assert(rest.contains(t));
                assert(rr.contains(t));
                let j = choose|j: int| 0 <= j < rr.len() && rr[j] == t;
                if s.last() >= slot {
                    assert(r[j] == t);
                } else {
                    assert(r[j] == t);
                }
            }
        }
        if strictly_ascending(s) {
            assert(strictly_ascending(rest));
            if s.last() >= slot {
                assert forall|i: int, j: int| 0 <= i < j < r.len() implies r[i] < r[j] by {
                    if j < r.len() - 1 {
                        assert(rr[i] < rr[j]);
                    } else {
                        assert(r[i] == rr[i]);
                        assert(rr.contains(rr[i]));
                        assert(s.contains(r[i]));
                        let k = choose|k: int| 0 <= k < s.len() && s[k] == r[i];
                        if k == s.len() - 1 {
                            assert(rest.contains(r[i]));
                            let m = choose|m: int| 0 <= m < rest.len() && rest[m] == r[i];
                            assert(s[m] == s[s.len() - 1]);
                            assert(false);
                        }
                        assert(s[k] < s.last());
                    }
                }
            }
        }
    }
}

/// `retain_from` is idempotent: a second pass with the same slot keeps
/// exactly what the first kept.
pub proof fn lemma_retain_from_idempotent(s: Seq<u64>, slot: u64)
    ensures
        retain_from(retain_from(s, slot), slot) == retain_from(s, slot),
    decreases s.len(),
{
    if s.len() == 0 {
    } else {
        lemma_retain_from_idempotent(s.drop_last(), slot);
        let rest = retain_from(s.drop_last(), slot);
        if s.last() >= slot {
            assert(retain_from(s, slot) == rest.push(s.last()));
            assert(rest.push(s.last()).drop_last() =~= rest);
            assert(retain_from(rest.push(s.last()), slot) == retain_from(rest, slot).push(
                s.last(),
            ));
        }
    }
}

// ---------------------------------------------------------------------------
// The cursor as a transition system. Each relation mirrors the contract of
// one operation above; the lemmas state what holds along any sequence of
// operations, however many workers interleave them.
// ---------------------------------------------------------------------------
/// One successful dispatch: `take_next` popped `s` off the pending list.
pub open spec fn pop_step(pre: Cursor, post: Cursor, s: u64) -> bool {
    &&& pre.pending@.len() > 0
    &&& s == pre.pending@.last()
    &&& post.pending@ == pre.pending@.drop_last()
    &&& post.boundary == pre.boundary
    &&& post.stop_time == pre.stop_time
}

/// One refill: `take_next` found the pending list empty, the caller fetched
/// the window `w` and handed it back.
pub open spec fn refill_step(pre: Cursor, post: Cursor, w: Seq<u64>) -> bool {
    &&& pre.pending@.len() == 0
    &&& pre.boundary is Some
    &&& strictly_ascending(w)
    &&& forall|i: int| 0 <= i < w.len() ==> w[i] <= pre.boundary->Some_0
    &&& w.len() > 0 ==> w[0] >= 1
    &&& post.pending@ == w
    &&& post.boundary == if w.len() == 0 {
        Option::<u64>::None
    } else {
        Option::Some((w[0] - 1) as u64)
    }
    &&& post.stop_time == pre.stop_time
}

/// One effective truncation: a worker saw `block_time` below the stop
/// timestamp on `slot` and called `truncate_below`.
pub open spec fn truncate_step(pre: Cursor, post: Cursor, slot: u64, block_time: i64) -> bool {
    &&& block_time < pre.stop_time
    &&& post.pending@ == retain_from(pre.pending@, slot)
    &&& post.boundary is None
    &&& post.stop_time == pre.stop_time
}

/// Any single cursor operation, including the ones that leave the state
/// unchanged (`take_next` answering `NeedWindow` or `Done`, `truncate_below`
/// with a timestamp at or above the stop).
pub open spec fn cursor_step(pre: Cursor, post: Cursor) -> bool {
    ||| (post.pending@ == pre.pending@ && post.boundary == pre.boundary && post.stop_time
        == pre.stop_time)
    ||| (exists|s: u64| pop_step(pre, post, s))
    ||| (exists|w: Seq<u64>| refill_step(pre, post, w))
    ||| (exists|slot: u64, t: i64| truncate_step(pre, post, slot, t))
}

/// A sequence of cursor states in which each one follows from the previous
/// by one operation.
pub open spec fn cursor_chain(tr: Seq<Cursor>) -> bool {
    forall|i: int| 0 <= i < tr.len() - 1 ==> cursor_step(#[trigger] tr[i], tr[i + 1])
}

/// Every operation preserves well-formedness.
pub proof fn lemma_step_preserves_wf(pre: Cursor, post: Cursor)
    requires
        pre.wf(),
        cursor_step(pre, post),
    ensures
        post.wf(),
{
    if exists|s: u64| pop_step(pre, post, s) {
        let s = choose|s: u64| pop_step(pre, post, s);
        assert forall|i: int, j: int|
            0 <= i < j < post.pending@.len() implies post.pending@[i] < post.pending@[j] by {
            assert(pre.pending@[i] < pre.pending@[j]);
        }
    } else if exists|w: Seq<u64>| refill_step(pre, post, w) {
        let w = choose|w: Seq<u64>| refill_step(pre, post, w);
        if w.len() > 0 {
            assert forall|i: int|
                0 <= i < post.pending@.len() implies post.pending@[i]
                > post.boundary->Some_0 by {
                if i > 0 {
                    assert(w[0] < w[i]);
                }
            }
        }
    } else if exists|slot: u64, t: i64| truncate_step(pre, post, slot, t) {
        let (slot, t) = choose|slot: u64, t: i64| truncate_step(pre, post, slot, t);
        lemma_retain_from_props(pre.pending@, slot);
    }
}

/// The set of slots a cursor can still yield only shrinks: no operation ever
/// puts a slot back in play.
pub proof fn lemma_step_shrinks_yieldable(pre: Cursor, post: Cursor, t: u64)
    requires
        cursor_step(pre, post),
        post.can_yield(t),
    ensures
        pre.can_yield(t),
{
    if exists|s: u64| pop_step(pre, post, s) {
        let s = choose|s: u64| pop_step(pre, post, s);
        if post.pending@.contains(t) {
            let i = choose|i: int| 0 <= i < post.pending@.len() && post.pending@[i] == t;
            assert(pre.pending@[i] == t);
        }
    } else if exists|w: Seq<u64>| refill_step(pre, post, w) {
        let w = choose|w: Seq<u64>| refill_step(pre, post, w);
        if post.pending@.contains(t) {
            let i = choose|i: int| 0 <= i < w.len() && w[i] == t;
        }
    } else if exists|slot: u64, tm: i64| truncate_step(pre, post, slot, tm) {
        let (slot, tm) = choose|slot: u64, tm: i64| truncate_step(pre, post, slot, tm);
        lemma_retain_from_props(pre.pending@, slot);
    }
}

/// A dispatch removes exactly the dispatched slot from play: afterwards the
/// cursor can yield precisely what it could yield before, minus that slot.
/// Together with the shrinking lemma this makes the dispatched slots of any
/// run distinct, and none of them is lost to another worker.
pub proof fn lemma_pop_dispatches_exactly_one(pre: Cursor, post: Cursor, s: u64)
    requires
        pre.wf(),
        pop_step(pre, post, s),
    ensures
        forall|t: u64| #[trigger] post.can_yield(t) <==> pre.can_yield(t) && t != s,
{
    assert forall|t: u64| #[trigger] post.can_yield(t) implies pre.can_yield(t) && t != s by {
        if post.pending@.contains(t) {
            let i = choose|i: int| 0 <= i < post.pending@.len() && post.pending@[i] == t;
            assert(pre.pending@[i] == t);
            assert(pre.pending@[i] < pre.pending@.last());
        } else {
            assert(pre.pending@[0] > pre.boundary->Some_0);
            assert(pre.pending@[0] <= pre.pending@.last());
        }
    }
    assert forall|t: u64| pre.can_yield(t) && t != s implies #[trigger] post.can_yield(t) by {
        if pre.pending@.contains(t) {
            let i = choose|i: int| 0 <= i < pre.pending@.len() && pre.pending@[i] == t;
            assert(i < pre.pending@.len() - 1);
            assert(post.pending@[i] == t);
            assert(post.pending@.contains(t));
        }
    }
}

/// The window boundary is monotone along any chain of operations: it only
/// moves downward, and once exhausted it never becomes a boundary again.
pub proof fn lemma_monotone_boundary(tr: Seq<Cursor>, i: int, j: int)
    requires
        cursor_chain(tr),
        0 <= i <= j < tr.len(),
    ensures
        boundary_le(tr[j].boundary, tr[i].boundary),
    decreases j - i,
{
    if i < j {
        lemma_monotone_boundary(tr, i, j - 1);
        let pre = tr[j - 1];
        let post = tr[j];
        assert(cursor_step(pre, post));
        if exists|w: Seq<u64>| refill_step(pre, post, w) {
            let w = choose|w: Seq<u64>| refill_step(pre, post, w);
        }
    }
}

/// Exhaustion is terminal: once the cursor is exhausted, it stays exhausted
/// along any chain of operations, so `take_next` answers `Done` forever.
pub proof fn lemma_exhaustion_terminal(tr: Seq<Cursor>, i: int, j: int)
    requires
        cursor_chain(tr),
        0 <= i <= j < tr.len(),
        tr[i].exhausted(),
    ensures
        tr[j].exhausted(),
    decreases j - i,
{
    if i < j {
        lemma_exhaustion_terminal(tr, i, j - 1);
        assert(cursor_step(tr[j - 1], tr[j]));
        let pre = tr[j - 1];
        let post = tr[j];
        if exists|s: u64| pop_step(pre, post, s) {
            assert(false);
        } else if exists|w: Seq<u64>| refill_step(pre, post, w) {
            assert(false);
        } else if exists|slot: u64, t: i64| truncate_step(pre, post, slot, t) {
            let (slot, t) = choose|slot: u64, t: i64| truncate_step(pre, post, slot, t);
        }
    }
}

/// No duplicate dispatch: a slot handed out by `take_next` is outside the
/// yieldable set of every later state, so no worker can ever receive it a
/// second time.
pub proof fn lemma_no_duplicate_dispatch(tr: Seq<Cursor>, s: u64, j: int)
    requires
        cursor_chain(tr),
        tr.len() >= 2,
        tr[0].wf(),
        pop_step(tr[0], tr[1], s),
        1 <= j < tr.len(),
    ensures
        !tr[j].can_yield(s),
    decreases j,
{
    if j == 1 {
        let pre = tr[0];
        let post = tr[1];
        if post.pending@.contains(s) {
            let i = choose|i: int| 0 <= i < post.pending@.len() && post.pending@[i] == s;
            assert(pre.pending@[i] == s);
            assert(pre.pending@[i] < pre.pending@.last());
        }
        if post.boundary is Some {
            assert(pre.pending@[0] > pre.boundary->Some_0);
            assert(pre.pending@[0] <= pre.pending@.last());
        }
    } else {
        lemma_no_duplicate_dispatch(tr, s, j - 1);
        assert(cursor_step(tr[j - 1], tr[j]));
        if tr[j].can_yield(s) {
            lemma_step_shrinks_yieldable(tr[j - 1], tr[j], s);
        }
    }
}

/// A truncation is idempotent at the cursor level: with timestamps below the
/// stop, a second `truncate_below` with the same slot leaves the pending
/// list exactly as the first left it.
pub proof fn lemma_truncate_idempotent(
    c1: Cursor,
    c2: Cursor,
    c3: Cursor,
    slot: u64,
    t1: i64,
    t2: i64,
)
    requires
        truncate_step(c1, c2, slot, t1),
        truncate_step(c2, c3, slot, t2),
    ensures
        c3.pending@ == c2.pending@,
        c3.pending@.len() <= c2.pending@.len(),
{
    lemma_retain_from_idempotent(c1.pending@, slot);
}

} // verus!
