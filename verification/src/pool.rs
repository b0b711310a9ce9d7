//! Recyclable byte buffers under a soft memory budget.
//!
//! The pool is an arena of fixed-capacity slots addressed by handle. A
//! session-wide counter tracks the bytes committed to live slots, each
//! counted at full capacity. Acquisition prefers a recycled slot and only
//! allocates when none is idle; the budget is a soft pressure target, never
//! a hard bound, so allocation is still possible above it. A slot's memory
//! is given back exactly once: when its last holder releases it and the
//! recycling queue cannot keep it.
//!
//! The pool is an explicit context object handed to every stage that
//! allocates or frees, so independent scans never interfere. A concurrent
//! driver serializes access to it; the bounded-deadline wait for a
//! recyclable buffer is that driver's timing concern.

use vstd::prelude::*;

use crate::tunables::BUFFER_CAP;
use crate::tunables::CHANNEL_CAP;

verus! {

/// Number of set entries in a slot-liveness sequence.
pub closed spec fn count_live(s: Seq<bool>) -> int
    decreases s.len(),
{
    if s.len() == 0 {
        0
    } else {
        count_live(s.drop_last()) + if s.last() {
            1int
        } else {
            0int
        }
    }
}

proof fn lemma_count_live_push(s: Seq<bool>, b: bool)
    ensures
        count_live(s.push(b)) == count_live(s) + if b {
            1int
        } else {
            0int
        },
{
    assert(s.push(b).drop_last() =~= s);
    assert(s.push(b).last() == b);
}

proof fn lemma_count_live_update(s: Seq<bool>, i: int, b: bool)
    requires
        0 <= i < s.len(),
    ensures
        count_live(s.update(i, b)) == count_live(s) + (if b {
            1int
        } else {
            0int
        }) - (if s[i] {
            1int
        } else {
            0int
        }),
    decreases s.len(),
{
    let t = s.update(i, b);
    if i == s.len() - 1 {
        assert(t.drop_last() =~= s.drop_last());
        assert(t.last() == b);
    } else {
        assert(t.drop_last() =~= s.drop_last().update(i, b));
        assert(t.last() == s.last());
        lemma_count_live_update(s.drop_last(), i, b);
    }
}

proof fn lemma_count_live_nonneg(s: Seq<bool>)
    ensures
        count_live(s) >= 0,
    decreases s.len(),
{
    if s.len() > 0 {
        lemma_count_live_nonneg(s.drop_last());
    }
}

proof fn lemma_count_live_all_clear(s: Seq<bool>)
    requires
        forall|i: int| 0 <= i < s.len() ==> !s[i],
    ensures
        count_live(s) == 0,
    decreases s.len(),
{
    if s.len() > 0 {
        lemma_count_live_all_clear(s.drop_last());
    }
}

/// Arena of recyclable fixed-capacity byte buffers with a shared byte
/// counter and a soft budget.
pub struct BufferPool {
    refs: Vec<usize>,
    live: Vec<bool>,
    data: Vec<Vec<u8>>,
    recycle: Vec<usize>,
    mem_used: usize,
    target: usize,
}

impl BufferPool {
    /// Internal consistency: the counter equals the committed capacity of
    /// the live slots, the recycling queue holds exactly the live slots
    /// nobody references, and dead slots are referenced by nobody.
    pub closed spec fn wf(self) -> bool {
        &&& self.refs@.len() == self.live@.len()
        &&& self.data@.len() == self.live@.len()
        &&& self.mem_used == count_live(self.live@) * BUFFER_CAP
        &&& self.recycle@.no_duplicates()
        &&& self.recycle@.len() <= CHANNEL_CAP
        &&& forall|k: int|
            0 <= k < self.recycle@.len() ==> 0 <= #[trigger] self.recycle@[k]
                < self.live@.len() && self.live@[self.recycle@[k] as int] && self.refs@[self.recycle@[k] as int]
                == 0
        &&& forall|h: int|
            0 <= h < self.live@.len() && self.live@[h] && self.refs@[h] == 0
                ==> self.recycle@.contains(h as usize)
        &&& forall|h: int| 0 <= h < self.live@.len() && !self.live@[h] ==> self.refs@[h] == 0
        &&& forall|h: int| 0 <= h < self.live@.len() && !self.live@[h] ==> self.data@[h].len() == 0
    }

    /// Bytes currently committed across all live buffers.
    pub closed spec fn spec_mem_used(self) -> usize {
        self.mem_used
    }

    /// The soft budget this pool was configured with.
    pub closed spec fn spec_target(self) -> usize {
        self.target
    }

    /// Number of slots ever created, live or dead.
    pub closed spec fn n_slots(self) -> nat {
        self.live@.len()
    }

    /// Number of live buffers, held or idle.
    pub closed spec fn live_buffers(self) -> int {
        count_live(self.live@)
    }

    /// Number of idle buffers waiting in the recycling queue.
    pub closed spec fn n_recyclable(self) -> nat {
        self.recycle@.len()
    }

    pub open spec fn valid_handle(self, h: usize) -> bool {
        h < self.n_slots()
    }

    /// How many holders the buffer behind `h` has.
    pub closed spec fn ref_count(self, h: usize) -> nat {
        self.refs@[h as int] as nat
    }

    /// Contents of the buffer behind `h`.
    pub closed spec fn buffer_at(self, h: usize) -> Seq<u8> {
        self.data@[h as int]@
    }

    /// The counter always equals the live-buffer count at full capacity.
    pub proof fn lemma_accounting(self)
        requires
            self.wf(),
        ensures
            self.spec_mem_used() == self.live_buffers() * BUFFER_CAP,
            self.live_buffers() >= 0,
    {
        lemma_count_live_nonneg(self.live@);
    }

    /// Once every buffer is released and the recycling queue is drained, the
    /// counter is back to zero: no release is lost and none counted twice.
    pub proof fn lemma_mem_zero_when_all_released(self)
        requires
            self.wf(),
            self.n_recyclable() == 0,
            forall|h: usize| self.valid_handle(h) ==> self.ref_count(h) == 0,
        ensures
            self.spec_mem_used() == 0,
    {
        vstd::std_specs::vec::axiom_spec_len(&self.live);
        assert forall|i: int| 0 <= i < self.live@.len() implies !self.live@[i] by {
            if self.live@[i] {
                assert(self.valid_handle(i as usize));
                assert(self.ref_count(i as usize) == 0);
                assert(self.refs@[i] == 0);
                assert(self.recycle@.contains(i as usize));
            }
        }
        lemma_count_live_all_clear(self.live@);
    }

    /// An empty pool with the given soft memory target.
    pub fn new(target: usize) -> (r: BufferPool)
        ensures
            r.wf(),
            r.spec_mem_used() == 0,
            r.spec_target() == target,
            r.n_slots() == 0,
            r.n_recyclable() == 0,
    {
        BufferPool {
            refs: Vec::new(),
            live: Vec::new(),
            data: Vec::new(),
            recycle: Vec::new(),
            mem_used: 0,
            target,
        }
    }

    /// Bytes currently committed across all live buffers.
    pub fn mem_used(&self) -> (r: usize)
        ensures
            r == self.spec_mem_used(),
    {
        self.mem_used
    }

    /// The soft budget this pool was configured with.
    pub fn target(&self) -> (r: usize)
        ensures
            r == self.spec_target(),
    {
        self.target
    }

    /// Whether an acquisition right now would reuse an idle buffer rather
    /// than allocate.
    pub fn has_recyclable(&self) -> (r: bool)
        ensures
            r == (self.n_recyclable() > 0),
    {
        self.recycle.len() > 0
    }

    /// Whether the committed bytes have reached the soft target; a driver
    /// above it should wait briefly for a recyclable buffer before
    /// acquiring anyway.
    pub fn over_target(&self) -> (r: bool)
        ensures
            r == (self.spec_mem_used() >= self.spec_target()),
    {
        self.mem_used >= self.target
    }

    /// Acquires a buffer with the caller as sole holder: a recycled idle
    /// buffer when one exists (the counter does not move), else a fresh
    /// allocation (the counter grows by one capacity). `None` only when the
    /// counter cannot grow without overflowing.
    pub fn acquire(&mut self) -> (r: Option<usize>)
        requires
            old(self).wf(),
        ensures
            final(self).wf(),
            final(self).spec_target() == old(self).spec_target(),
            old(self).n_recyclable() > 0 ==> r is Some && final(self).spec_mem_used() == old(
                self,
            ).spec_mem_used() && final(self).n_recyclable() == old(self).n_recyclable() - 1,
            old(self).n_recyclable() == 0 && r is Some ==> final(self).spec_mem_used() == old(
                self,
            ).spec_mem_used() + BUFFER_CAP,
            old(self).n_recyclable() == 0 && old(self).spec_mem_used() <= usize::MAX - BUFFER_CAP
                ==> r is Some,
            old(self).n_recyclable() == 0 ==> final(self).n_recyclable() == 0,
            r matches Some(h) ==> final(self).valid_handle(h) && final(self).ref_count(h) == 1
                && final(self).buffer_at(h) == Seq::<u8>::empty(),
            r is None ==> *final(self) == *old(self),
            forall|g: usize|
                old(self).valid_handle(g) && old(self).ref_count(g) > 0
                    ==> final(self).valid_handle(g) && final(self).ref_count(g) == old(self).ref_count(g)
                    && final(self).buffer_at(g) == old(self).buffer_at(g),
    {
        if self.recycle.len() > 0 {
            let ghost old_recycle = self.recycle@;
            let h = self.recycle.pop().unwrap();
            self.refs[h] = 1;
            self.data[h] = Vec::new();
            proof {
                vstd::std_specs::vec::axiom_spec_len(&self.live);
                assert(old_recycle.drop_last() =~= self.recycle@);
                assert forall|k: int| 0 <= k < self.recycle@.len() implies 0
                    <= #[trigger] self.recycle@[k] < self.live@.len()
                    && self.live@[self.recycle@[k] as int] && self.refs@[self.recycle@[k] as int]
                    == 0 by {
                    assert(old_recycle[k] == self.recycle@[k]);
                    assert(old_recycle[old_recycle.len() - 1] == h);
                    assert(self.recycle@[k] != h);
                }
                assert forall|g: int|
                    0 <= g < self.live@.len() && self.live@[g] && self.refs@[g] == 0 implies
                    self.recycle@.contains(g as usize) by {
                    assert(g != h as int);
                    assert(old_recycle.contains(g as usize));
                    let k = choose|k: int|
                        0 <= k < old_recycle.len() && old_recycle[k] == g as usize;
                    assert(k < old_recycle.len() - 1);
                    assert(self.recycle@[k] == g as usize);
                }
            }
            Some(h)
        } else if self.mem_used <= usize::MAX - BUFFER_CAP {
            let h = self.live.len();
            self.refs.push(1);
            self.live.push(true);
            self.data.push(Vec::new());
            self.mem_used = self.mem_used + BUFFER_CAP;
            proof {
                lemma_count_live_push(old(self).live@, true);
                lemma_count_live_nonneg(old(self).live@);
                assert forall|k: int| 0 <= k < self.recycle@.len() implies 0
                    <= #[trigger] self.recycle@[k] < self.live@.len()
                    && self.live@[self.recycle@[k] as int] && self.refs@[self.recycle@[k] as int]
                    == 0 by {}
            }
            Some(h)
        } else {
            None
        }
    }

    /// Records one more holder of the buffer behind `h`, as when a stage
    /// forwards it to another while keeping its own reference.
    pub fn retain(&mut self, h: usize)
        requires
            old(self).wf(),
            old(self).valid_handle(h),
            old(self).ref_count(h) >= 1,
            old(self).ref_count(h) < usize::MAX,
        ensures
            final(self).wf(),
            final(self).spec_mem_used() == old(self).spec_mem_used(),
            final(self).spec_target() == old(self).spec_target(),
            final(self).n_slots() == old(self).n_slots(),
            final(self).n_recyclable() == old(self).n_recyclable(),
            final(self).ref_count(h) == old(self).ref_count(h) + 1,
            forall|g: usize|
                old(self).valid_handle(g) && g != h ==> final(self).ref_count(g) == old(self).ref_count(g),
            forall|g: usize| old(self).valid_handle(g) ==> final(self).buffer_at(g) == old(
                self,
            ).buffer_at(g),
    {
        let n = self.refs[h];
        self.refs[h] = n + 1;
        proof {
            assert forall|k: int| 0 <= k < self.recycle@.len() implies 0
                <= #[trigger] self.recycle@[k] < self.live@.len()
                && self.live@[self.recycle@[k] as int] && self.refs@[self.recycle@[k] as int]
                == 0 by {
                assert(old(self).refs@[self.recycle@[k] as int] == 0);
            }
        }
    }

    /// Drops one holder of the buffer behind `h`. When the last holder
    /// releases, the buffer is parked for recycling if the queue has room;
    /// otherwise its memory is given back, decrementing the counter exactly
    /// once for this buffer's whole lifetime.
    pub fn release(&mut self, h: usize)
        requires
            old(self).wf(),
            old(self).valid_handle(h),
            old(self).ref_count(h) >= 1,
        ensures
            final(self).wf(),
            final(self).spec_target() == old(self).spec_target(),
            final(self).n_slots() == old(self).n_slots(),
            final(self).ref_count(h) == old(self).ref_count(h) - 1,
            old(self).ref_count(h) > 1 ==> final(self).spec_mem_used() == old(self).spec_mem_used()
                && final(self).n_recyclable() == old(self).n_recyclable(),
            old(self).ref_count(h) == 1 && old(self).n_recyclable() < CHANNEL_CAP
                ==> final(self).spec_mem_used() == old(self).spec_mem_used() && final(self).n_recyclable() == old(
                self,
            ).n_recyclable() + 1,
            old(self).ref_count(h) == 1 && old(self).n_recyclable() == CHANNEL_CAP
                ==> final(self).spec_mem_used() == old(self).spec_mem_used() - BUFFER_CAP
                && final(self).n_recyclable() == old(self).n_recyclable(),
            forall|g: usize|
                old(self).valid_handle(g) && g != h ==> final(self).ref_count(g) == old(self).ref_count(g),
    {
        let n = self.refs[h];
        self.refs[h] = n - 1;
        if n == 1 {
            proof {
                assert(!old(self).recycle@.contains(h)) by {
                    if old(self).recycle@.contains(h) {
                        let k = choose|k: int|
                            0 <= k < old(self).recycle@.len() && old(self).recycle@[k] == h;
                    }
                }
            }
            if self.recycle.len() < CHANNEL_CAP {
                self.recycle.push(h);
                proof {
                    let q = self.recycle@;
                    assert(q.drop_last() =~= old(self).recycle@);
                    assert forall|g: int|
                        0 <= g < self.live@.len() && self.live@[g] && self.refs@[g]
                            == 0 implies self.recycle@.contains(g as usize) by {
                        if g == h as int {
                            assert(q[q.len() - 1] == h);
                        } else {
                            assert(old(self).recycle@.contains(g as usize));
                            let k = choose|k: int|
                                0 <= k < old(self).recycle@.len() && old(self).recycle@[k]
                                    == g as usize;
                            assert(q[k] == g as usize);
                        }
                    }
                }
            } else {
                proof {
                    // the slot was referenced, hence live
                    assert(old(self).refs@[h as int] >= 1);
                    assert(old(self).live@[h as int]);
                }
                self.live[h] = false;
                self.data[h] = Vec::new();
                proof {
                    lemma_count_live_update(old(self).live@, h as int, false);
                    lemma_count_live_nonneg(self.live@);
                    assert(count_live(old(self).live@) >= 1);
                }
                self.mem_used = self.mem_used - BUFFER_CAP;
            }
        } else {
            proof {
                assert forall|k: int| 0 <= k < self.recycle@.len() implies 0
                    <= #[trigger] self.recycle@[k] < self.live@.len()
                    && self.live@[self.recycle@[k] as int] && self.refs@[self.recycle@[k] as int]
                    == 0 by {
                    assert(old(self).refs@[self.recycle@[k] as int] == 0);
                }
            }
        }
    }

    /// Throws away every idle buffer in the recycling queue, giving their
    /// memory back. Held buffers are untouched.
    pub fn drain(&mut self)
        requires
            old(self).wf(),
        ensures
            final(self).wf(),
            final(self).spec_target() == old(self).spec_target(),
            final(self).n_slots() == old(self).n_slots(),
            final(self).n_recyclable() == 0,
            final(self).spec_mem_used() == old(self).spec_mem_used() - old(self).n_recyclable()
                * BUFFER_CAP,
            forall|g: usize| old(self).valid_handle(g) ==> final(self).ref_count(g) == old(
                self,
            ).ref_count(g),
    {
        while self.recycle.len() > 0
            invariant
                self.wf(),
                self.spec_target() == old(self).spec_target(),
                self.n_slots() == old(self).n_slots(),
                self.spec_mem_used() == old(self).spec_mem_used() - (old(self).n_recyclable()
                    - self.n_recyclable()) * BUFFER_CAP,
                self.n_recyclable() <= old(self).n_recyclable(),
                forall|g: usize| old(self).valid_handle(g) ==> self.ref_count(g) == old(
                    self,
                ).ref_count(g),
            decreases self.recycle@.len(),
        {
            let ghost pre = *self;
            let ghost old_recycle = self.recycle@;
            let h = self.recycle.pop().unwrap();
            proof {
                assert(old_recycle[old_recycle.len() - 1] == h);
                assert(pre.live@[h as int] && pre.refs@[h as int] == 0);
            }
            self.live[h] = false;
            self.data[h] = Vec::new();
            proof {
                lemma_count_live_update(pre.live@, h as int, false);
                lemma_count_live_nonneg(self.live@);
                assert(count_live(pre.live@) >= 1);
                assert(pre.mem_used >= BUFFER_CAP);
            }
            self.mem_used = self.mem_used - BUFFER_CAP;
            proof {
                vstd::std_specs::vec::axiom_spec_len(&self.live);
                let oldn = old(self).n_recyclable() as int;
                let nprev = old_recycle.len() as int;
                let nnew = self.recycle@.len() as int;
                assert((oldn - nnew) * (BUFFER_CAP as int) == (oldn - nprev) * (
                BUFFER_CAP as int) + (BUFFER_CAP as int)) by (nonlinear_arith)
                    requires
                        nnew == nprev - 1,
                ;
                assert(old_recycle.drop_last() =~= self.recycle@);
                assert forall|k: int| 0 <= k < self.recycle@.len() implies 0
                    <= #[trigger] self.recycle@[k] < self.live@.len()
                    && self.live@[self.recycle@[k] as int] && self.refs@[self.recycle@[k] as int]
                    == 0 by {
                    assert(old_recycle[k] == self.recycle@[k]);
                    assert(old_recycle[old_recycle.len() - 1] == h);
                    assert(self.recycle@[k] != h);
                }
                assert forall|g: int|
                    0 <= g < self.live@.len() && self.live@[g] && self.refs@[g] == 0 implies
                    self.recycle@.contains(g as usize) by {
                    assert(g != h as int);
                    assert(old_recycle.contains(g as usize));
                    let k = choose|k: int|
                        0 <= k < old_recycle.len() && old_recycle[k] == g as usize;
                    assert(k < old_recycle.len() - 1);
                    assert(self.recycle@[k] == g as usize);
                }
            }
        }
    }

    /// Fills the buffer behind `h` with `bytes`; the holder's working data.
    pub fn store(&mut self, h: usize, bytes: Vec<u8>)
        requires
            old(self).wf(),
            old(self).valid_handle(h),
            old(self).ref_count(h) >= 1,
            bytes@.len() <= BUFFER_CAP,
        ensures
            final(self).wf(),
            final(self).spec_mem_used() == old(self).spec_mem_used(),
            final(self).spec_target() == old(self).spec_target(),
            final(self).n_slots() == old(self).n_slots(),
            final(self).n_recyclable() == old(self).n_recyclable(),
            final(self).buffer_at(h) == bytes@,
            forall|g: usize| old(self).valid_handle(g) ==> final(self).ref_count(g) == old(
                self,
            ).ref_count(g),
            forall|g: usize|
                old(self).valid_handle(g) && g != h ==> final(self).buffer_at(g) == old(self).buffer_at(
                    g,
                ),
    {
        self.data[h] = bytes;
        proof {
            assert forall|k: int| 0 <= k < self.recycle@.len() implies 0
                <= #[trigger] self.recycle@[k] < self.live@.len()
                && self.live@[self.recycle@[k] as int] && self.refs@[self.recycle@[k] as int]
                == 0 by {
                assert(old(self).refs@[self.recycle@[k] as int] == 0);
            }
        }
    }

    /// Read access to the buffer behind `h`.
    pub fn buffer(&self, h: usize) -> (r: &Vec<u8>)
        requires
            self.wf(),
            self.valid_handle(h),
        ensures
            r@ == self.buffer_at(h),
    {
        &self.data[h]
    }
}

} // verus!
