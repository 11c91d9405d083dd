//! Epoch protection.
//!
//! Structural changes that would invalidate memory another thread may still be
//! looking at (evicting a page, reusing a record slot) are **deferred** until
//! every thread that could have observed the old state has moved on:
//!
//! * A global `current_epoch` counter `E`.
//! * Every thread that touches the store first *protects* itself by publishing
//!   `E` into its own slot of the epoch table, and *unprotects* (publishes 0)
//!   when its operation finishes.
//! * `safe epoch` = (minimum over all protected threads' published epochs) - 1.
//!   Anything retired in epoch `e <= safe` cannot be referenced by any
//!   in-flight operation.
//! * Bumping the epoch with an action increments `E` and enqueues the action
//!   tagged with the *previous* `E`. Actions are handed out once
//!   `E_prev <= safe`.
//!
//! Actions are plain values of a type the owner picks; whoever refreshes or
//! bumps receives the ones that have become safe and performs them.
use vstd::prelude::*;

verus! {

/// Maximum number of concurrently protected threads.
pub const MAX_THREADS: usize = 128;

const UNPROTECTED: u64 = 0;

/// One row of the epoch table.
#[derive(Clone, Copy)]
pub struct Slot {
    /// 0 = unprotected; otherwise the epoch this thread is operating in.
    pub epoch: u64,
    /// Thread ownership marker (0 = free).
    pub owner: u64,
}

/// An action waiting for its epoch to become safe.
pub struct DrainAction<A> {
    pub epoch: u64,
    pub action: A,
}

pub struct LightEpoch<A> {
    current: u64,
    table: Vec<Slot>,
    drain: Vec<DrainAction<A>>,
}

/// The waiting actions that are safe at `safe`, oldest first.
pub open spec fn ready_at<A>(p: Seq<DrainAction<A>>, safe: int) -> Seq<A>
    decreases p.len(),
{
    if p.len() == 0 {
        Seq::empty()
    } else if p.last().epoch <= safe {
        ready_at(p.drop_last(), safe).push(p.last().action)
    } else {
        ready_at(p.drop_last(), safe)
    }
}

/// The waiting actions that are not safe yet at `safe`, oldest first.
pub open spec fn waiting_at<A>(p: Seq<DrainAction<A>>, safe: int) -> Seq<DrainAction<A>>
    decreases p.len(),
{
    if p.len() == 0 {
        Seq::empty()
    } else if p.last().epoch <= safe {
        waiting_at(p.drop_last(), safe)
    } else {
        waiting_at(p.drop_last(), safe).push(p.last())
    }
}

/// Whether `safe` is the largest epoch that no row of the table still holds
/// back.
pub open spec fn is_safe_epoch(slots: Seq<Slot>, current: u64, safe: int) -> bool {
    &&& 0 <= safe < current
    &&& forall|i: int| 0 <= i < slots.len() && slots[i].epoch != 0 ==> safe < #[trigger] slots[i].epoch
    &&& safe + 1 == current || exists|i: int|
        0 <= i < slots.len() && #[trigger] slots[i].epoch == safe + 1
}

/// Whether row `k` is the one thread `tid` uses: its own, or a free one if it
/// owns none.
pub open spec fn is_row_for(slots: Seq<Slot>, tid: u64, k: int) -> bool {
    &&& 0 <= k < slots.len()
    &&& slots[k].owner == tid || (slots[k].owner == 0 && !owns(slots, tid))
}

pub open spec fn owns(slots: Seq<Slot>, tid: u64) -> bool {
    exists|i: int| 0 <= i < slots.len() && #[trigger] slots[i].owner == tid
}

pub open spec fn protects(slots: Seq<Slot>, tid: u64) -> bool {
    exists|i: int|
        0 <= i < slots.len() && (#[trigger] slots[i]).owner == tid && slots[i].epoch != 0
}

/// Nobody is ahead of the current epoch, free rows are unprotected and no
/// thread owns two rows.
pub open spec fn table_ok(slots: Seq<Slot>, current: u64) -> bool {
    &&& slots.len() == MAX_THREADS
    &&& forall|i: int| 0 <= i < slots.len() ==> (#[trigger] slots[i]).epoch <= current
    &&& forall|i: int|
        0 <= i < slots.len() && (#[trigger] slots[i]).owner == 0 ==> slots[i].epoch == 0
    &&& forall|i: int, j: int|
        0 <= i < slots.len() && 0 <= j < slots.len() && i != j && (#[trigger] slots[i]).owner != 0
            ==> slots[i].owner != (#[trigger] slots[j]).owner
}

/// No action was registered after the current epoch.
pub open spec fn pending_ok<A>(p: Seq<DrainAction<A>>, current: u64) -> bool {
    forall|i: int| 0 <= i < p.len() ==> (#[trigger] p[i]).epoch <= current
}

/// No thread but `tid` is protected.
pub open spec fn alone(slots: Seq<Slot>, tid: u64) -> bool {
    forall|i: int| 0 <= i < slots.len() && slots[i].epoch != 0 ==> #[trigger] slots[i].owner == tid
}

/// No thread is protected.
pub open spec fn idle(slots: Seq<Slot>) -> bool {
    forall|i: int| 0 <= i < slots.len() ==> #[trigger] slots[i].epoch == 0
}

impl<A> Default for LightEpoch<A> {
    fn default() -> (r: Self)
        ensures
            r.inv(),
            r.epoch() == 1,
            idle(r.slots()),
            r.pending() == Seq::<DrainAction<A>>::empty(),
            forall|tid: u64| tid != 0 ==> #[trigger] r.has_row(tid),
    {
        Self::new()
    }
}

impl<A> LightEpoch<A> {
    pub closed spec fn epoch(&self) -> u64 {
        self.current
    }

    pub closed spec fn slots(&self) -> Seq<Slot> {
        self.table@
    }

    pub closed spec fn pending(&self) -> Seq<DrainAction<A>> {
        self.drain@
    }

    pub open spec fn inv(&self) -> bool {
        &&& self.epoch() >= 1
        &&& table_ok(self.slots(), self.epoch())
        &&& pending_ok(self.pending(), self.epoch())
    }

    /// What waits once an action is given, if one is.
    pub open spec fn offered(&self, given: Option<A>) -> Seq<DrainAction<A>> {
        match given {
            Some(action) => self.pending().push(DrainAction { epoch: self.epoch(), action }),
            None => self.pending(),
        }
    }

    /// A call that hands out what has become safe, and nothing else.
    pub open spec fn drained(&self, o: &Self, given: Option<A>, out: Seq<A>) -> bool {
        exists|safe: int| #[trigger]
            is_safe_epoch(self.slots(), self.epoch(), safe) && out == ready_at(o.offered(given), safe)
                && self.pending() == waiting_at(o.offered(given), safe)
    }

    /// A call of the epoch: it hands out what has become safe, or leaves the waiting
    /// actions alone.
    pub open spec fn called(&self, o: &Self, given: Option<A>, out: Seq<A>) -> bool {
        ||| given is None && out.len() == 0 && self.pending() == o.pending()
        ||| self.drained(o, given, out)
    }

    /// Whether thread `tid` owns a row or can be given one.
    pub open spec fn has_row(&self, tid: u64) -> bool {
        tid != 0 && exists|k: int| #[trigger] is_row_for(self.slots(), tid, k)
    }

    pub fn new() -> (r: Self)
        ensures
            r.inv(),
            r.epoch() == 1,
            idle(r.slots()),
            r.pending() == Seq::<DrainAction<A>>::empty(),
            forall|tid: u64| tid != 0 ==> #[trigger] r.has_row(tid),
    {
        let mut table: Vec<Slot> = Vec::new();
        let mut i: usize = 0;
        while i < MAX_THREADS
            invariant
                i <= MAX_THREADS,
                table@.len() == i,
                forall|j: int|
                    0 <= j < i ==> (#[trigger] table@[j]).epoch == 0 && table@[j].owner == 0,
            decreases MAX_THREADS - i,
        {
            table.push(Slot { epoch: UNPROTECTED, owner: 0 });
            i += 1;
        }
        let r = LightEpoch { current: 1, table, drain: Vec::new() };
        assert forall|tid: u64| tid != 0 implies #[trigger] r.has_row(tid) by {
            assert(is_row_for(r.slots(), tid, 0));
        }
        r
    }

    pub fn current_epoch(&self) -> (r: u64)
        ensures
            r == self.epoch(),
    {
        self.current
    }

    /// The row of the table that `tid` owns.
    fn find_row(&self, tid: u64) -> (r: Option<usize>)
        requires
            self.inv(),
        ensures
            r is Some <==> owns(self.slots(), tid),
            r matches Some(k) ==> k < self.slots().len() && self.slots()[k as int].owner == tid,
    {
        let mut i: usize = 0;
        while i < MAX_THREADS
            invariant
                self.inv(),
                i <= MAX_THREADS,
                forall|j: int| 0 <= j < i ==> (#[trigger] self.slots()[j]).owner != tid,
            decreases MAX_THREADS - i,
        {
            if self.table[i].owner == tid {
                return Some(i);
            }
            i += 1;
        }
        None
    }

    /// Find this thread's row in the table, or pick a free one for it,
    /// starting at a hash of the thread id to spread load.
    fn my_slot(&self, tid: u64) -> (k: usize)
        requires
            self.inv(),
            self.has_row(tid),
        ensures
            is_row_for(self.slots(), tid, k as int),
    {
        if let Some(k) = self.find_row(tid) {
            return k;
        }
        let start: usize = (tid % 128) as usize;
        let mut i: usize = 0;
        while i < MAX_THREADS
            invariant
                self.inv(),
                i <= MAX_THREADS,
                start < MAX_THREADS,
                !owns(self.slots(), tid),
                self.has_row(tid),
                forall|j: int|
                    0 <= j < i ==> self.slots()[#[trigger] ((start + j) % (MAX_THREADS as int))].owner
                        != 0,
            decreases MAX_THREADS - i,
        {
            let idx: usize = (start + i) % MAX_THREADS;
            if self.table[idx].owner == 0 {
                return idx;
            }
            i += 1;
        }
        proof {
            let k = choose|k: int| #[trigger] is_row_for(self.slots(), tid, k);
            assert(self.slots()[k].owner == 0);
            let j = if k >= start {
                k - start
            } else {
                k - start + MAX_THREADS
            };
            assert((start + j) % (MAX_THREADS as int) == k);
            assert(false);
        }
        0
    }

    /// Whether a thread owns a row or can be given one.
    pub fn can_protect(&self, tid: u64) -> (r: bool)
        requires
            self.inv(),
        ensures
            r == self.has_row(tid),
    {
        if tid == 0 {
            return false;
        }
        if let Some(k) = self.find_row(tid) {
            assert(is_row_for(self.slots(), tid, k as int));
            return true;
        }
        match self.find_row(0) {
            Some(k) => {
                assert(is_row_for(self.slots(), tid, k as int));
                true
            },
            None => false,
        }
    }

    pub fn is_protected(&self, tid: u64) -> (r: bool)
        requires
            self.inv(),
            tid != 0,
        ensures
            r == protects(self.slots(), tid),
    {
        match self.find_row(tid) {
            Some(k) => {
                assert(forall|i: int|
                    0 <= i < self.slots().len() && (#[trigger] self.slots()[i]).owner == tid ==> i
                        == k);
                self.table[k].epoch != UNPROTECTED
            },
            None => false,
        }
    }

    /// Publish `e` in the row of `tid`.
    fn publish(&mut self, tid: u64, e: u64)
        requires
            old(self).inv(),
            old(self).has_row(tid),
            e <= old(self).epoch(),
        ensures
            final(self).inv(),
            final(self).epoch() == old(self).epoch(),
            final(self).pending() == old(self).pending(),
            exists|k: int| #[trigger]
                is_row_for(old(self).slots(), tid, k) && final(self).slots() == old(self).slots().update(k, (Slot { epoch: e, owner: tid })),
    {
        let idx: usize = self.my_slot(tid);
        self.table.set(idx, Slot { epoch: e, owner: tid });
        proof {
            let before = old(self).slots();
            let after = self.slots();
            assert(is_row_for(before, tid, idx as int));
            assert forall|i: int, j: int|
                0 <= i < after.len() && 0 <= j < after.len() && i != j && (
                #[trigger] after[i]).owner != 0 implies after[i].owner != (
            #[trigger] after[j]).owner by {
                assert(before[i].owner == 0 || before[i].owner != before[j].owner);
            }
        }
    }

    /// Enter the current epoch. Returns the epoch entered.
    pub fn protect(&mut self, tid: u64) -> (r: u64)
        requires
            old(self).inv(),
            old(self).has_row(tid),
        ensures
            final(self).inv(),
            r == old(self).epoch(),
            final(self).epoch() == old(self).epoch(),
            final(self).pending() == old(self).pending(),
            exists|k: int| #[trigger]
                is_row_for(old(self).slots(), tid, k) && final(self).slots() == old(self).slots().update(k, (Slot { epoch: r, owner: tid })),
            protects(final(self).slots(), tid),
    {
        let e: u64 = self.current;
        self.publish(tid, e);
        proof {
            let k = choose|k: int| #[trigger]
                is_row_for(old(self).slots(), tid, k) && self.slots() == old(self).slots().update(
                    k,
                    Slot { epoch: e, owner: tid },
                );
            assert(self.slots()[k].owner == tid && self.slots()[k].epoch != 0);
        }
        e
    }

    /// Re-enter the current epoch, so that the thread does not hold back
    /// reclamation, and hand out the actions that have become safe.
    pub fn refresh(&mut self, tid: u64) -> (r: (u64, Vec<A>))
        requires
            old(self).inv(),
            old(self).has_row(tid),
        ensures
            final(self).inv(),
            r.0 == old(self).epoch(),
            final(self).epoch() == old(self).epoch(),
            exists|k: int| #[trigger]
                is_row_for(old(self).slots(), tid, k) && final(self).slots() == old(self).slots().update(k, (Slot { epoch: r.0, owner: tid })),
            final(self).drained(old(self), None, r.1@),
    {
        let e: u64 = self.current;
        self.publish(tid, e);
        (e, self.drain())
    }

    /// Leave the epoch.
    pub fn unprotect(&mut self, tid: u64)
        requires
            old(self).inv(),
            old(self).has_row(tid),
        ensures
            final(self).inv(),
            final(self).epoch() == old(self).epoch(),
            final(self).pending() == old(self).pending(),
            exists|k: int| #[trigger]
                is_row_for(old(self).slots(), tid, k) && final(self).slots() == old(self).slots().update(k, (Slot { epoch: 0, owner: tid })),
            !protects(final(self).slots(), tid),
    {
        self.publish(tid, UNPROTECTED);
    }

    /// Release this thread's row entirely (when a session ends).
    pub fn release_thread(&mut self, tid: u64)
        requires
            old(self).inv(),
            tid != 0,
        ensures
            final(self).inv(),
            final(self).epoch() == old(self).epoch(),
            final(self).pending() == old(self).pending(),
            final(self).slots() == old(self).slots().map_values(
                |s: Slot|
                    if s.owner == tid {
                        Slot { epoch: 0, owner: 0 }
                    } else {
                        s
                    },
            ),
            !owns(final(self).slots(), tid),
    {
        let ghost freed = self.slots().map_values(
            |s: Slot|
                if s.owner == tid {
                    Slot { epoch: 0, owner: 0 }
                } else {
                    s
                },
        );
        let ghost before = self.slots();
        match self.find_row(tid) {
            Some(k) => {
                self.table.set(k, Slot { epoch: UNPROTECTED, owner: 0 });
                assert forall|i: int, j: int|
                    0 <= i < before.len() && 0 <= j < before.len() && i != j && (
                    #[trigger] self.slots()[i]).owner != 0 implies self.slots()[i].owner != (
                #[trigger] self.slots()[j]).owner by {
                    assert(before[i].owner == 0 || before[i].owner != before[j].owner);
                }
                assert forall|i: int| 0 <= i < before.len() && i != k implies before[i].owner
                    != tid by {
                    assert(before[k as int].owner != before[i].owner);
                }
            },
            None => {},
        }
        assert(self.slots() =~= freed);
    }

    /// (minimum protected epoch) - 1, or current - 1 if no thread is protected.
    pub fn compute_safe_epoch(&self) -> (r: u64)
        requires
            self.inv(),
        ensures
            is_safe_epoch(self.slots(), self.epoch(), r as int),
    {
        let mut min: u64 = self.current;
        let mut i: usize = 0;
        while i < MAX_THREADS
            invariant
                self.inv(),
                i <= MAX_THREADS,
                1 <= min <= self.epoch(),
                forall|j: int|
                    0 <= j < i && self.slots()[j].epoch != 0 ==> min <= #[trigger] self.slots()[j].epoch,
                min == self.epoch() || exists|j: int|
                    0 <= j < i && #[trigger] self.slots()[j].epoch == min,
            decreases MAX_THREADS - i,
        {
            let e: u64 = self.table[i].epoch;
            if e != UNPROTECTED && e < min {
                min = e;
                assert(self.slots()[i as int].epoch == min);
            }
            i += 1;
        }
        min - 1
    }

    /// Count the epoch up; it stays put once the counter is exhausted.
    fn advance(&mut self)
        requires
            old(self).inv(),
        ensures
            final(self).inv(),
            final(self).epoch() == old(self).epoch() + 1 || (old(self).epoch() == u64::MAX && final(self).epoch() == u64::MAX),
            final(self).slots() == old(self).slots(),
            final(self).pending() == old(self).pending(),
    {
        if self.current < u64::MAX {
            self.current = self.current + 1;
        }
    }

    /// Increment the global epoch. Returns the new epoch and the actions that
    /// have become safe.
    pub fn bump_current_epoch(&mut self) -> (r: (u64, Vec<A>))
        requires
            old(self).inv(),
        ensures
            final(self).inv(),
            r.0 == final(self).epoch(),
            final(self).epoch() == old(self).epoch() + 1 || (old(self).epoch() == u64::MAX && final(self).epoch() == u64::MAX),
            final(self).slots() == old(self).slots(),
            final(self).drained(old(self), None, r.1@),
    {
        self.advance();
        let ready: Vec<A> = self.drain();
        (self.current, ready)
    }

    /// Increment the global epoch and register `action` to be handed out once
    /// every thread has left the *previous* epoch.
    pub fn bump_with_action(&mut self, action: A) -> (r: (u64, Vec<A>))
        requires
            old(self).inv(),
        ensures
            final(self).inv(),
            r.0 == final(self).epoch(),
            final(self).epoch() == old(self).epoch() + 1 || (old(self).epoch() == u64::MAX && final(self).epoch() == u64::MAX),
            final(self).slots() == old(self).slots(),
            final(self).drained(old(self), Some(action), r.1@),
    {
        let prior: u64 = self.current;
        self.drain.push(DrainAction { epoch: prior, action });
        self.advance();
        let ready: Vec<A> = self.drain();
        (self.current, ready)
    }

    /// Take out all waiting actions whose epoch is safe.
    fn drain(&mut self) -> (r: Vec<A>)
        requires
            old(self).inv(),
        ensures
            final(self).inv(),
            final(self).epoch() == old(self).epoch(),
            final(self).slots() == old(self).slots(),
            exists|safe: int| #[trigger]
                is_safe_epoch(final(self).slots(), final(self).epoch(), safe) && r@ == ready_at(
                    old(self).pending(),
                    safe,
                ) && final(self).pending() == waiting_at(old(self).pending(), safe),
    {
        let safe: u64 = self.compute_safe_epoch();
        let ghost all = self.pending();
        let mut ready: Vec<A> = Vec::new();
        let mut rest: Vec<DrainAction<A>> = Vec::new();
        let mut todo: Vec<DrainAction<A>> = Vec::new();
        std::mem::swap(&mut self.drain, &mut todo);
        // The list is consumed from the back, so both parts come out reversed.
        let ghost n = all.len();
        proof {
            assert(todo@.subrange(0, n as int) =~= todo@);
        }
        let mut ready_rev: Vec<A> = Vec::new();
        let mut rest_rev: Vec<DrainAction<A>> = Vec::new();
        while todo.len() > 0
            invariant
                self.table@ == old(self).table@,
                self.current == old(self).current,
                self.drain@ == Seq::<DrainAction<A>>::empty(),
                todo@.len() <= all.len(),
                todo@ == all.subrange(0, todo@.len() as int),
                ready_at(all, safe as int) == ready_at(todo@, safe as int) + ready_rev@.reverse(),
                waiting_at(all, safe as int) == waiting_at(todo@, safe as int) + rest_rev@.reverse(),
            decreases todo@.len(),
        {
            let ghost cur = todo@;
            let a = todo.pop().unwrap();
            assert(cur.drop_last() =~= todo@);
            if a.epoch <= safe {
                let ghost rv = ready_rev@;
                ready_rev.push(a.action);
                assert(ready_at(todo@, safe as int).push(a.action) + rv.reverse() =~= ready_at(
                    todo@,
                    safe as int,
                ) + ready_rev@.reverse());
            } else {
                let ghost rv = rest_rev@;
                rest_rev.push(a);
                assert(waiting_at(todo@, safe as int).push(a) + rv.reverse() =~= waiting_at(
                    todo@,
                    safe as int,
                ) + rest_rev@.reverse());
            }
        }
        while ready_rev.len() > 0
            invariant
                self.table@ == old(self).table@,
                self.current == old(self).current,
                self.drain@ == Seq::<DrainAction<A>>::empty(),
                ready_at(all, safe as int) == ready@ + ready_rev@.reverse(),
                waiting_at(all, safe as int) == rest_rev@.reverse(),
            decreases ready_rev@.len(),
        {
            let ghost rv = ready_rev@;
            let ghost before = ready@;
            let a = ready_rev.pop().unwrap();
            ready.push(a);
            assert(before + rv.reverse() =~= ready@ + ready_rev@.reverse());
        }
        while rest_rev.len() > 0
            invariant
                self.table@ == old(self).table@,
                self.current == old(self).current,
                self.drain@ == Seq::<DrainAction<A>>::empty(),
                ready_at(all, safe as int) == ready@,
                waiting_at(all, safe as int) == rest@ + rest_rev@.reverse(),
            decreases rest_rev@.len(),
        {
            let ghost rv = rest_rev@;
            let ghost before = rest@;
            let a = rest_rev.pop().unwrap();
            rest.push(a);
            assert(before + rv.reverse() =~= rest@ + rest_rev@.reverse());
        }
        self.drain = rest;
        proof {
            lemma_parts(all, safe as int);
            assert(self.pending() =~= waiting_at(all, safe as int));
        }
        ready
    }

    /// Bump until every action registered so far has been handed out. No
    /// thread may be protected, or it would hold back its own reclamation.
    pub fn drain_all_blocking(&mut self) -> (r: Vec<A>)
        requires
            old(self).inv(),
            idle(old(self).slots()),
            old(self).epoch() < u64::MAX,
        ensures
            final(self).inv(),
            final(self).slots() == old(self).slots(),
            final(self).epoch() == old(self).epoch() + (if old(self).pending().len() > 0 {
                1int
            } else {
                0
            }),
            final(self).pending() == Seq::<DrainAction<A>>::empty(),
            r@ == Seq::new(old(self).pending().len(), |i: int| old(self).pending()[i].action),
            final(self).called(old(self), None, r@),
    {
        if self.drain.len() == 0 {
            let r: Vec<A> = Vec::new();
            assert(self.pending() =~= Seq::<DrainAction<A>>::empty());
            assert(r@ =~= Seq::new(
                old(self).pending().len(),
                |i: int| old(self).pending()[i].action,
            ));
            return r;
        }
        let (e, ready) = self.bump_current_epoch();
        proof {
            let safe = choose|safe: int| #[trigger]
                is_safe_epoch(self.slots(), self.epoch(), safe) && ready@ == ready_at(
                    old(self).pending(),
                    safe,
                ) && self.pending() == waiting_at(old(self).pending(), safe);
            assert(safe == e - 1);
            lemma_idle_drains(old(self).pending(), safe);
        }
        ready
    }
}

proof fn lemma_parts<A>(p: Seq<DrainAction<A>>, safe: int)
    ensures
        forall|i: int|
            0 <= i < waiting_at(p, safe).len() ==> p.contains(#[trigger] waiting_at(p, safe)[i])
                && waiting_at(p, safe)[i].epoch > safe,
    decreases p.len(),
{
    if p.len() > 0 {
        lemma_parts(p.drop_last(), safe);
        let w = waiting_at(p.drop_last(), safe);
        assert forall|i: int| 0 <= i < waiting_at(p, safe).len() implies p.contains(
            #[trigger] waiting_at(p, safe)[i],
        ) && waiting_at(p, safe)[i].epoch > safe by {
            if i < w.len() {
                assert(waiting_at(p, safe)[i] == w[i]);
                let j = choose|j: int| 0 <= j < p.drop_last().len() && p.drop_last()[j] == w[i];
                assert(p[j] == w[i]);
            } else {
                assert(p[p.len() - 1] == p.last());
            }
        }
    }
}

/// Once every waiting epoch is safe, everything is handed out, in order.
pub proof fn lemma_idle_drains<A>(p: Seq<DrainAction<A>>, safe: int)
    requires
        forall|i: int| 0 <= i < p.len() ==> (#[trigger] p[i]).epoch <= safe,
    ensures
        ready_at(p, safe) == Seq::new(p.len(), |i: int| p[i].action),
        waiting_at(p, safe) == Seq::<DrainAction<A>>::empty(),
    decreases p.len(),
{
    if p.len() > 0 {
        let q = p.drop_last();
        assert forall|i: int| 0 <= i < q.len() implies (#[trigger] q[i]).epoch <= safe by {
            assert(q[i] == p[i]);
        }
        lemma_idle_drains(q, safe);
        assert(p.last() == p[p.len() - 1]);
        assert(ready_at(p, safe) =~= Seq::new(p.len(), |i: int| p[i].action));
    } else {
        assert(ready_at(p, safe) =~= Seq::new(p.len(), |i: int| p[i].action));
    }
}

/// An action is handed out only once no thread is protected in the epoch it
/// was registered in or an earlier one.
pub proof fn handed_out_only_when_unobserved<A>(
    slots: Seq<Slot>,
    current: u64,
    safe: int,
    p: Seq<DrainAction<A>>,
    i: int,
)
    requires
        is_safe_epoch(slots, current, safe),
        0 <= i < p.len(),
        exists|k: int|
            0 <= k < slots.len() && (#[trigger] slots[k]).epoch != 0 && slots[k].epoch <= p[i].epoch,
    ensures
        waiting_at(p, safe).contains(p[i]),
    decreases p.len(),
{
    let k = choose|k: int|
        0 <= k < slots.len() && (#[trigger] slots[k]).epoch != 0 && slots[k].epoch <= p[i].epoch;
    assert(p[i].epoch > safe);
    if i == p.len() - 1 {
        let w = waiting_at(p, safe);
        assert(w[w.len() - 1] == p[i]);
    } else {
        let q = p.drop_last();
        assert(q[i] == p[i]);
        handed_out_only_when_unobserved(slots, current, safe, q, i);
        let w = waiting_at(q, safe);
        let j = choose|j: int| 0 <= j < w.len() && w[j] == q[i];
        assert(waiting_at(p, safe)[j] == p[i]);
    }
}

/// Among the waiting actions, how many are `a`.
pub open spec fn waits<A>(p: Seq<DrainAction<A>>, a: A) -> nat
    decreases p.len(),
{
    if p.len() == 0 {
        0
    } else {
        waits(p.drop_last(), a) + (if p.last().action == a {
            1nat
        } else {
            0
        })
    }
}

/// Among the actions, how many are `a`.
pub open spec fn times<A>(s: Seq<A>, a: A) -> nat
    decreases s.len(),
{
    if s.len() == 0 {
        0
    } else {
        times(s.drop_last(), a) + (if s.last() == a {
            1nat
        } else {
            0
        })
    }
}

/// How often `a` was handed out in the first `n` calls.
pub open spec fn handed_out<A>(outs: Seq<Seq<A>>, n: int, a: A) -> nat
    decreases n,
{
    if n <= 0 {
        0
    } else {
        handed_out(outs, n - 1, a) + times(outs[n - 1], a)
    }
}

/// How often `a` was given in the first `n` calls.
pub open spec fn given_in<A>(given: Seq<Option<A>>, n: int, a: A) -> nat
    decreases n,
{
    if n <= 0 {
        0
    } else {
        given_in(given, n - 1, a) + (if given[n - 1] == Some(a) {
            1nat
        } else {
            0
        })
    }
}

proof fn lemma_split_counts<A>(p: Seq<DrainAction<A>>, safe: int, a: A)
    ensures
        times(ready_at(p, safe), a) + waits(waiting_at(p, safe), a) == waits(p, a),
    decreases p.len(),
{
    if p.len() > 0 {
        let q = p.drop_last();
        lemma_split_counts(q, safe, a);
        if p.last().epoch <= safe {
            assert(ready_at(p, safe).drop_last() =~= ready_at(q, safe));
        } else {
            assert(waiting_at(p, safe).drop_last() =~= waiting_at(q, safe));
        }
    }
}

/// Over any number of calls, every action that was given is handed out once or
/// still waits: none is lost, and none is handed out twice.
pub proof fn every_action_is_handed_out_once<A>(
    es: Seq<LightEpoch<A>>,
    given: Seq<Option<A>>,
    outs: Seq<Seq<A>>,
    n: int,
    a: A,
)
    requires
        0 <= n < es.len(),
        given.len() == es.len() - 1,
        outs.len() == es.len() - 1,
        forall|i: int| 0 <= i < outs.len() ==> es[i + 1].called(&es[i], given[i], #[trigger] outs[i]),
    ensures
        handed_out(outs, n, a) + waits(es[n].pending(), a) == waits(es[0].pending(), a) + given_in(
            given,
            n,
            a,
        ),
    decreases n,
{
    if n > 0 {
        every_action_is_handed_out_once(es, given, outs, n - 1, a);
        let o = es[n - 1];
        let m = es[n - 1 + 1];
        assert(m.called(&o, given[n - 1], outs[n - 1]));
        let all = o.offered(given[n - 1]);
        if given[n - 1] is Some {
            assert(all.drop_last() =~= o.pending());
        }
        if m.drained(&o, given[n - 1], outs[n - 1]) {
            let safe = choose|safe: int| #[trigger]
                is_safe_epoch(m.slots(), m.epoch(), safe) && outs[n - 1] == ready_at(all, safe)
                    && m.pending() == waiting_at(all, safe);
            lemma_split_counts(all, safe, a);
        }
    }
}

/// An action waits as long as a thread stays in the epoch it was given in, or in an
/// earlier one, however often the epoch is bumped meanwhile.
pub proof fn an_action_waits_for_its_readers<A>(
    es: Seq<LightEpoch<A>>,
    given: Seq<Option<A>>,
    outs: Seq<Seq<A>>,
    d: DrainAction<A>,
    k: int,
    n: int,
)
    requires
        0 <= n < es.len(),
        given.len() == es.len() - 1,
        outs.len() == es.len() - 1,
        forall|i: int| 0 <= i < outs.len() ==> es[i + 1].called(&es[i], given[i], #[trigger] outs[i]),
        es[0].pending().contains(d),
        forall|i: int| 0 <= i < es.len() ==> holds_back((#[trigger] es[i]).slots(), k, d.epoch),
    ensures
        es[n].pending().contains(d),
    decreases n,
{
    if n > 0 {
        an_action_waits_for_its_readers(es, given, outs, d, k, n - 1);
        let o = es[n - 1];
        let m = es[n - 1 + 1];
        assert(m.called(&o, given[n - 1], outs[n - 1]));
        assert(holds_back(m.slots(), k, d.epoch));
        if m.drained(&o, given[n - 1], outs[n - 1]) {
            let all = o.offered(given[n - 1]);
            let safe = choose|safe: int| #[trigger]
                is_safe_epoch(m.slots(), m.epoch(), safe) && outs[n - 1] == ready_at(all, safe)
                    && m.pending() == waiting_at(all, safe);
            let i = choose|i: int| 0 <= i < o.pending().len() && o.pending()[i] == d;
            assert(all[i] == d);
            assert(m.slots()[k].epoch != 0);
            handed_out_only_when_unobserved(m.slots(), m.epoch(), safe, all, i);
        }
    }
}

/// Row `k` is protected in epoch `e` or an earlier one.
pub open spec fn holds_back(slots: Seq<Slot>, k: int, e: u64) -> bool {
    0 <= k < slots.len() && slots[k].epoch != 0 && slots[k].epoch <= e
}

/// The first call that drains once no thread is in that epoch or an earlier one any
/// more hands the action out.
pub proof fn an_unobserved_action_is_handed_out<A>(
    o: LightEpoch<A>,
    n: LightEpoch<A>,
    given: Option<A>,
    out: Seq<A>,
    d: DrainAction<A>,
)
    requires
        n.drained(&o, given, out),
        o.offered(given).contains(d),
        d.epoch < n.epoch(),
        forall|k: int| !#[trigger] holds_back(n.slots(), k, d.epoch),
    ensures
        out.contains(d.action),
        forall|i: int| 0 <= i < n.pending().len() ==> (#[trigger] n.pending()[i]).epoch > d.epoch,
{
    let all = o.offered(given);
    let safe = choose|safe: int| #[trigger]
        is_safe_epoch(n.slots(), n.epoch(), safe) && out == ready_at(all, safe) && n.pending()
            == waiting_at(all, safe);
    if safe < d.epoch {
        let i = choose|i: int| 0 <= i < n.slots().len() && #[trigger] n.slots()[i].epoch == safe + 1;
        assert(holds_back(n.slots(), i, d.epoch));
    }
    let j = choose|j: int| 0 <= j < all.len() && all[j] == d;
    lemma_split(all, safe, j);
}

proof fn lemma_split<A>(p: Seq<DrainAction<A>>, safe: int, j: int)
    requires
        0 <= j < p.len(),
        p[j].epoch <= safe,
    ensures
        ready_at(p, safe).contains(p[j].action),
        forall|i: int|
            0 <= i < waiting_at(p, safe).len() ==> (#[trigger] waiting_at(p, safe)[i]).epoch > safe,
    decreases p.len(),
{
    let q = p.drop_last();
    let r = ready_at(p, safe);
    lemma_waiting_later(p, safe);
    if j == p.len() - 1 {
        assert(r[r.len() - 1] == p[j].action);
    } else {
        assert(q[j] == p[j]);
        lemma_split(q, safe, j);
        let x = choose|x: int| 0 <= x < ready_at(q, safe).len() && ready_at(q, safe)[x] == q[j].action;
        assert(r[x] == p[j].action);
    }
}

proof fn lemma_waiting_later<A>(p: Seq<DrainAction<A>>, safe: int)
    ensures
        forall|i: int|
            0 <= i < waiting_at(p, safe).len() ==> (#[trigger] waiting_at(p, safe)[i]).epoch > safe,
    decreases p.len(),
{
    if p.len() > 0 {
        let q = p.drop_last();
        lemma_waiting_later(q, safe);
        assert forall|i: int| 0 <= i < waiting_at(p, safe).len() implies (#[trigger] waiting_at(
            p,
            safe,
        )[i]).epoch > safe by {
            if i < waiting_at(q, safe).len() {
                assert(waiting_at(p, safe)[i] == waiting_at(q, safe)[i]);
            }
        }
    }
}

/// An action that is given is handed out by that very call if no thread is
/// protected, and else waits.
pub proof fn an_action_is_handed_out_at_once_or_waits<A>(
    o: LightEpoch<A>,
    n: LightEpoch<A>,
    action: A,
    out: Seq<A>,
)
    requires
        o.inv(),
        n.drained(&o, Some(action), out),
        n.slots() == o.slots(),
        n.epoch() == o.epoch() + 1,
    ensures
        idle(o.slots()) ==> out.contains(action) && n.pending().len() == 0,
        !idle(o.slots()) ==> n.pending().contains(DrainAction { epoch: o.epoch(), action }),
{
    let d = DrainAction { epoch: o.epoch(), action };
    let all = o.offered(Some(action));
    assert(all[all.len() - 1] == d);
    if idle(o.slots()) {
        assert forall|k: int| !#[trigger] holds_back(n.slots(), k, d.epoch) by {
            if 0 <= k < n.slots().len() {
                assert(o.slots()[k].epoch == 0);
            }
        }
        an_unobserved_action_is_handed_out(o, n, Some(action), out, d);
        let safe = choose|safe: int| #[trigger]
            is_safe_epoch(n.slots(), n.epoch(), safe) && out == ready_at(all, safe) && n.pending()
                == waiting_at(all, safe);
        lemma_waiting_in(all, safe);
        if n.pending().len() > 0 {
            let w = n.pending()[0];
            assert(w.epoch > d.epoch);
            let i = choose|i: int| 0 <= i < all.len() && all[i] == w;
            assert(i == all.len() - 1 || o.pending()[i] == w);
        }
    } else {
        let k = choose|k: int| 0 <= k < o.slots().len() && #[trigger] o.slots()[k].epoch != 0;
        let safe = choose|safe: int| #[trigger]
            is_safe_epoch(n.slots(), n.epoch(), safe) && out == ready_at(all, safe) && n.pending()
                == waiting_at(all, safe);
        assert(n.slots()[k].epoch != 0 && n.slots()[k].epoch <= d.epoch);
        handed_out_only_when_unobserved(n.slots(), n.epoch(), safe, all, all.len() - 1);
    }
}

proof fn lemma_waiting_in<A>(p: Seq<DrainAction<A>>, safe: int)
    ensures
        forall|i: int|
            0 <= i < waiting_at(p, safe).len() ==> p.contains(#[trigger] waiting_at(p, safe)[i]),
    decreases p.len(),
{
    if p.len() > 0 {
        let q = p.drop_last();
        lemma_waiting_in(q, safe);
        assert forall|i: int| 0 <= i < waiting_at(p, safe).len() implies p.contains(
            #[trigger] waiting_at(p, safe)[i],
        ) by {
            let w = waiting_at(p, safe)[i];
            if i < waiting_at(q, safe).len() {
                assert(waiting_at(q, safe)[i] == w);
                let j = choose|j: int| 0 <= j < q.len() && q[j] == w;
                assert(p[j] == w);
            } else {
                assert(p[p.len() - 1] == w);
            }
        }
    }
}

/// When the only protected thread leaves, nobody is protected.
pub proof fn lemma_alone_leaves(slots: Seq<Slot>, current: u64, tid: u64, k: int)
    requires
        table_ok(slots, current),
        alone(slots, tid),
        is_row_for(slots, tid, k),
    ensures
        idle(slots.update(k, Slot { epoch: 0, owner: tid })),
{
    let after = slots.update(k, Slot { epoch: 0, owner: tid });
    assert forall|i: int| 0 <= i < after.len() implies #[trigger] after[i].epoch == 0 by {
        if i != k && slots[i].epoch != 0 {
            assert(slots[i].owner == tid);
            assert(owns(slots, tid));
            assert(slots[k].owner == tid);
            assert(tid != 0);
        }
    }
}

/// Entering as the only thread.
pub proof fn lemma_alone_enters(slots: Seq<Slot>, current: u64, tid: u64, k: int, e: u64)
    requires
        table_ok(slots, current),
        alone(slots, tid),
        is_row_for(slots, tid, k),
        tid != 0,
    ensures
        alone(slots.update(k, Slot { epoch: e, owner: tid }), tid),
        is_row_for(slots.update(k, Slot { epoch: e, owner: tid }), tid, k),
        owns(slots.update(k, Slot { epoch: e, owner: tid }), tid),
{
    let after = slots.update(k, Slot { epoch: e, owner: tid });
    assert(after[k].owner == tid);
}

/// Scoped protection: protect on construction, unprotect on release.
pub struct EpochGuard {
    tid: u64,
}

impl EpochGuard {
    pub closed spec fn thread(&self) -> u64 {
        self.tid
    }

    pub fn new<A>(epoch: &mut LightEpoch<A>, tid: u64) -> (r: Self)
        requires
            old(epoch).inv(),
            old(epoch).has_row(tid),
        ensures
            final(epoch).inv(),
            r.thread() == tid,
            protects(final(epoch).slots(), tid),
            exists|k: int| #[trigger]
                is_row_for(old(epoch).slots(), tid, k) && final(epoch).slots() == old(
                    epoch).slots().update(k, (Slot { epoch: old(epoch).epoch(), owner: tid })),
            final(epoch).epoch() == old(epoch).epoch(),
            final(epoch).pending() == old(epoch).pending(),
    {
        let _e: u64 = epoch.protect(tid);
        EpochGuard { tid }
    }

    pub fn refresh<A>(&self, epoch: &mut LightEpoch<A>) -> (r: Vec<A>)
        requires
            old(epoch).inv(),
            old(epoch).has_row(self.thread()),
        ensures
            final(epoch).inv(),
            final(epoch).epoch() == old(epoch).epoch(),
            exists|k: int| #[trigger]
                is_row_for(old(epoch).slots(), self.thread(), k) && final(epoch).slots() == old(
                    epoch,
                ).slots().update(k, (Slot { epoch: old(epoch).epoch(), owner: self.thread() })),
            exists|safe: int| #[trigger]
                is_safe_epoch(final(epoch).slots(), final(epoch).epoch(), safe) && r@ == ready_at(
                    old(epoch).pending(),
                    safe,
                ) && final(epoch).pending() == waiting_at(old(epoch).pending(), safe),
    {
        let (_e, ready) = epoch.refresh(self.tid);
        ready
    }

    /// End the protection.
    pub fn release<A>(self, epoch: &mut LightEpoch<A>)
        requires
            old(epoch).inv(),
            old(epoch).has_row(self.thread()),
        ensures
            final(epoch).inv(),
            final(epoch).epoch() == old(epoch).epoch(),
            final(epoch).pending() == old(epoch).pending(),
            exists|k: int| #[trigger]
                is_row_for(old(epoch).slots(), self.thread(), k) && final(epoch).slots() == old(
                    epoch,
                ).slots().update(k, (Slot { epoch: 0, owner: self.thread() })),
            !protects(final(epoch).slots(), self.thread()),
    {
        epoch.unprotect(self.tid);
    }
}

} // verus!
