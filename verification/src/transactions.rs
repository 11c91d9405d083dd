//! Transactions: two-phase locking on bucket latches.
//!
//! A transaction takes the latches of all its buckets in ascending order (the
//! deadlock-freedom rule) before its first operation and gives them back after
//! the last one; in between the session skips ephemeral latching.
use crate::callbacks::SessionFunctions;
use crate::device::Device;
use crate::epoch;
use crate::hash;
use crate::hash::hash64;
use crate::index::{HashIndex, LatchView};
use crate::log::LogView;
use crate::store::{LockType, Session, Store};
use vstd::prelude::*;

verus! {

/// The latches a list of keys asks for, by bucket: exclusive wins.
pub open spec fn wanted_locks(index: HashIndex, keys: Seq<(Seq<u8>, LockType)>) -> Map<int, LockType>
    decreases keys.len(),
{
    if keys.len() == 0 {
        Map::empty()
    } else {
        let m = wanted_locks(index, keys.drop_last());
        let b = index.bucket_of(hash::key_hash(keys.last().0));
        m.insert(
            b,
            if keys.last().1 is Exclusive || (m.dom().contains(b) && m[b] is Exclusive) {
                LockType::Exclusive
            } else {
                LockType::Shared
            },
        )
    }
}

/// Only buckets of the index are asked for.
pub proof fn lemma_wanted_range(index: HashIndex, keys: Seq<(Seq<u8>, LockType)>)
    requires
        index.inv(),
    ensures
        forall|b: int| #[trigger]
            wanted_locks(index, keys).dom().contains(b) ==> 0 <= b < index.bucket_count(),
    decreases keys.len(),
{
    index.lemma_buckets();
    if keys.len() > 0 {
        lemma_wanted_range(index, keys.drop_last());
        let m = wanted_locks(index, keys.drop_last());
        let h = hash::key_hash(keys.last().0);
        assert forall|b: int| #[trigger] wanted_locks(index, keys).dom().contains(b) implies 0 <= b
            < index.bucket_count() by {
            if b == index.bucket_of(h) {
                assert(0 <= index.bucket_of(h) < index.bucket_count());
            } else {
                assert(m.dom().contains(b));
            }
        }
    }
}

/// Keys as specifications see them.
pub open spec fn key_list(keys: Seq<(&[u8], LockType)>) -> Seq<(Seq<u8>, LockType)> {
    keys.map_values(|k: (&[u8], LockType)| (k.0@, k.1))
}

/// Buckets in strictly ascending order.
pub open spec fn ascending(locks: Seq<(usize, LockType)>) -> bool {
    forall|i: int, j: int| 0 <= i < j < locks.len() ==> (#[trigger] locks[i]).0 < (#[trigger] locks[j]).0
}

/// The list holds exactly the wanted latches, in ascending order.
pub open spec fn lists_locks(locks: Seq<(usize, LockType)>, m: Map<int, LockType>) -> bool {
    &&& ascending(locks)
    &&& forall|i: int|
        0 <= i < locks.len() ==> m.dom().contains((#[trigger] locks[i]).0 as int) && m[locks[i].0 as int]
            == locks[i].1
    &&& forall|b: int| #[trigger] m.dom().contains(b) ==> has_bucket(locks, b)
}

pub open spec fn has_bucket(locks: Seq<(usize, LockType)>, b: int) -> bool {
    exists|i: int| 0 <= i < locks.len() && (#[trigger] locks[i]).0 == b
}

/// A latch once it is taken.
pub open spec fn taken(l: LatchView, t: LockType) -> LatchView {
    match t {
        LockType::Exclusive => LatchView { shared: 0, exclusive: true },
        LockType::Shared => LatchView { shared: (l.shared + 1) as u64, exclusive: false },
    }
}

/// A latch once it is given back; one that is no longer held stays as it is.
pub open spec fn given_back(l: LatchView, t: LockType) -> LatchView {
    match t {
        LockType::Exclusive => LatchView { shared: l.shared, exclusive: false },
        LockType::Shared => if l.shared > 0 {
            LatchView { shared: (l.shared - 1) as u64, exclusive: l.exclusive }
        } else {
            l
        },
    }
}

pub open spec fn can_take(l: LatchView, t: LockType) -> bool {
    match t {
        LockType::Exclusive => !l.exclusive && l.shared == 0,
        LockType::Shared => !l.exclusive && l.shared < 0x7fff,
    }
}

/// `n` is `o` with the first `upto` latches of the list taken.
spec fn taken_upto(o: &HashIndex, n: &HashIndex, locks: Seq<(usize, LockType)>, upto: int) -> bool {
    &&& forall|i: int|
        0 <= i < upto ==> n.latch((#[trigger] locks[i]).0 as int) == taken(
            o.latch(locks[i].0 as int),
            locks[i].1,
        ) && can_take(o.latch(locks[i].0 as int), locks[i].1)
    &&& forall|b: int|
        0 <= b < o.bucket_count() && !has_bucket(locks.subrange(0, upto), b) ==> #[trigger] n.latch(b)
            == o.latch(b)
}

/// The buckets of the keys, in ascending order, each once.
fn lock_list<D: Device>(store: &Store<D>, keys: &[(&[u8], LockType)]) -> (r: Vec<(usize, LockType)>)
    requires
        store.inv(),
    ensures
        lists_locks(r@, wanted_locks(store.index, key_list(keys@))),
        forall|i: int| 0 <= i < r@.len() ==> (#[trigger] r@[i]).0 < store.index.bucket_count(),
{
    let mut wanted: Vec<(usize, LockType)> = Vec::new();
    let mut n: usize = 0;
    let ghost all = key_list(keys@);
    assert(all.subrange(0, 0) =~= Seq::empty());
    while n < keys.len()
        invariant
            n <= keys@.len(),
            store.inv(),
            all == key_list(keys@),
            lists_locks(wanted@, wanted_locks(store.index, all.subrange(0, n as int))),
            forall|i: int|
                0 <= i < wanted@.len() ==> (#[trigger] wanted@[i]).0 < store.index.bucket_count(),
        decreases keys@.len() - n,
    {
        let ty: LockType = keys[n].1;
        let bucket: usize = store.index.bucket_index(hash64(keys[n].0));
        let ghost m = wanted_locks(store.index, all.subrange(0, n as int));
        let ghost w0 = wanted@;
        proof {
            assert(all.subrange(0, n + 1).drop_last() =~= all.subrange(0, n as int));
            assert(all[n as int] == (keys@[n as int].0@, keys@[n as int].1));
        }
        // Where the bucket stands or belongs.
        let mut at: usize = 0;
        while at < wanted.len() && wanted[at].0 < bucket
            invariant
                at <= wanted@.len(),
                wanted@ == w0,
                forall|i: int| 0 <= i < at ==> (#[trigger] w0[i]).0 < bucket,
            decreases wanted@.len() - at,
        {
            at += 1;
        }
        if at < wanted.len() && wanted[at].0 == bucket {
            let merged: LockType = match (ty, wanted[at].1) {
                (LockType::Shared, LockType::Shared) => LockType::Shared,
                _ => LockType::Exclusive,
            };
            wanted.set(at, (bucket, merged));
        } else {
            proof {
                if m.dom().contains(bucket as int) {
                    assert(has_bucket(w0, bucket as int));
                    let i = choose|i: int| 0 <= i < w0.len() && (#[trigger] w0[i]).0 == bucket;
                    assert(i >= at);
                    if i > at {
                        assert(w0[at as int].0 < w0[i].0);
                    }
                }
            }
            wanted.insert(at, (bucket, ty));
        }
        proof {
            let m2 = wanted_locks(store.index, all.subrange(0, n + 1));
            assert forall|b: int| #[trigger] m2.dom().contains(b) implies has_bucket(wanted@, b) by {
                if b == bucket {
                    assert(wanted@[at as int].0 == b);
                } else {
                    assert(m.dom().contains(b));
                    let i = choose|i: int| 0 <= i < w0.len() && (#[trigger] w0[i]).0 == b;
                    if wanted@.len() == w0.len() {
                        assert(wanted@[i].0 == b);
                    } else if i < at {
                        assert(wanted@[i].0 == b);
                    } else {
                        assert(wanted@[i + 1].0 == b);
                    }
                }
            }
            assert forall|i: int| 0 <= i < wanted@.len() implies m2.dom().contains(
                (#[trigger] wanted@[i]).0 as int,
            ) && m2[wanted@[i].0 as int] == wanted@[i].1 by {
                if wanted@.len() == w0.len() {
                    assert(m.dom().contains(w0[i].0 as int));
                    if i < at {
                        assert(w0[i].0 < w0[at as int].0);
                    } else if i > at {
                        assert(w0[at as int].0 < w0[i].0);
                    }
                } else if i < at {
                    assert(m.dom().contains(w0[i].0 as int));
                } else if i > at {
                    assert(m.dom().contains(w0[i - 1].0 as int));
                    if i - 1 > at {
                        assert(w0[at as int].0 < w0[i - 1].0);
                    }
                }
            }
            assert forall|i: int, j: int| 0 <= i < j < wanted@.len() implies (#[trigger] wanted@[i]).0 < (
            #[trigger] wanted@[j]).0 by {
                if wanted@.len() == w0.len() {
                    assert(w0[i].0 < w0[j].0);
                } else if j < at {
                    assert(w0[i].0 < w0[j].0);
                } else if i > at {
                    assert(w0[i - 1].0 < w0[j - 1].0);
                } else if i == at {
                    if j - 1 > at {
                        assert(w0[at as int].0 < w0[j - 1].0);
                    }
                } else if j > at {
                    assert(w0[i].0 < w0[j - 1].0);
                }
            }
        }
        n += 1;
    }
    assert(all.subrange(0, n as int) =~= all);
    wanted
}

impl<F: SessionFunctions> Session<F> {
    /// The latches a session remembers are in order and within the index.
    pub open spec fn locks_ok(&self, index: &HashIndex) -> bool {
        &&& ascending(self.txn_locks@)
        &&& forall|i: int|
            0 <= i < self.txn_locks@.len() ==> (#[trigger] self.txn_locks@[i]).0 < index.bucket_count()
    }

    /// Acquire bucket latches for all keys **in sorted bucket order**, then
    /// enter transaction mode so that subsequent operations skip ephemeral
    /// latching. If one of them is taken, nothing is acquired and the answer is
    /// false: try again once its holder is done.
    pub fn txn_lock<D: Device>(&mut self, store: &mut Store<D>, keys: &[(&[u8], LockType)]) -> (r: bool)
        requires
            old(store).inv(),
            !old(self).txn_mode,
        ensures
            final(store).inv(),
            *final(store) == (Store { index: final(store).index, ..*old(store) }),
            final(store).index.same_shape(&old(store).index),
            final(store).index.same_entries(&old(store).index),
            final(store).index.same_room(&old(store).index),
            final(store).newest_same(old(store)),
            old(store).whole() ==> final(store).whole(),
            *final(self) == (Session {
                txn_mode: r,
                txn_locks: final(self).txn_locks,
                ..*old(self)
            }),
            ({
                let m = wanted_locks(old(store).index, key_list(keys@));
                &&& r <==> forall|b: int| #[trigger]
                    m.dom().contains(b) ==> can_take(old(store).index.latch(b), m[b])
                &&& r ==> lists_locks(final(self).txn_locks@, m) && final(self).locks_ok(
                    &final(store).index,
                )
                &&& r ==> forall|b: int| #[trigger]
                    m.dom().contains(b) ==> final(store).index.latch(b) == taken(
                        old(store).index.latch(b),
                        m[b],
                    )
                &&& r ==> forall|b: int|
                    0 <= b < old(store).index.bucket_count() && !m.dom().contains(b)
                        ==> #[trigger] final(store).index.latch(b) == old(store).index.latch(b)
                &&& !r ==> final(store).index.same_latches(&old(store).index)
                &&& !r ==> final(self).txn_locks@ == old(self).txn_locks@
            }),
    {
        let ghost o = *store;
        let wanted: Vec<(usize, LockType)> = lock_list(store, keys);
        let ghost m = wanted_locks(o.index, key_list(keys@));
        let mut n: usize = 0;
        proof {
            store.lemma_same_entries(&o);
            assert(wanted@.subrange(0, 0) =~= Seq::empty());
        }
        while n < wanted.len()
            invariant
                n <= wanted@.len(),
                o.inv(),
                store.inv(),
                o == *old(store),
                *store == (Store { index: store.index, ..o }),
                store.index.same_shape(&o.index),
                store.index.same_entries(&o.index),
                store.index.same_room(&o.index),
                store.newest_same(&o),
                o.whole() ==> store.whole(),
                *self == *old(self),
                !self.txn_mode,
                ascending(wanted@),
                forall|i: int| 0 <= i < wanted@.len() ==> (#[trigger] wanted@[i]).0 < o.index.bucket_count(),
                taken_upto(&o.index, &store.index, wanted@, n as int),
                lists_locks(wanted@, m),
                m == wanted_locks(o.index, key_list(keys@)),
            decreases wanted@.len() - n,
        {
            let (bucket, ty) = wanted[n];
            let ghost i0 = store.index;
            proof {
                assert(!has_bucket(wanted@.subrange(0, n as int), bucket as int)) by {
                    if has_bucket(wanted@.subrange(0, n as int), bucket as int) {
                        let i = choose|i: int|
                            0 <= i < n && (#[trigger] wanted@.subrange(0, n as int)[i]).0 == bucket;
                        assert(wanted@[i].0 < wanted@[n as int].0);
                    }
                }
            }
            let ok: bool = match ty {
                LockType::Exclusive => store.index.try_lock_exclusive(bucket),
                LockType::Shared => store.index.try_lock_shared(bucket),
            };
            if !ok {
                assert(m.dom().contains(wanted@[n as int].0 as int));
                proof {
                    store.lemma_same_entries(&o);
                    assert(taken_upto(&o.index, &store.index, wanted@, n as int)) by {
                        assert forall|i: int| 0 <= i < n implies store.index.latch(
                            (#[trigger] wanted@[i]).0 as int,
                        ) == taken(o.index.latch(wanted@[i].0 as int), wanted@[i].1) by {
                            assert(wanted@[i].0 < wanted@[n as int].0);
                        }
                    }
                }
                give_back(store, &wanted, n, Ghost(o.index));
                return false;
            }
            proof {
                assert(taken_upto(&o.index, &store.index, wanted@, n + 1)) by {
                    assert forall|i: int| 0 <= i < n + 1 implies store.index.latch(
                        (#[trigger] wanted@[i]).0 as int,
                    ) == taken(o.index.latch(wanted@[i].0 as int), wanted@[i].1) && can_take(
                        o.index.latch(wanted@[i].0 as int),
                        wanted@[i].1,
                    ) by {
                        if i < n {
                            assert(wanted@[i].0 < wanted@[n as int].0);
                        }
                    }
                    assert forall|b: int|
                        0 <= b < o.index.bucket_count() && !has_bucket(wanted@.subrange(0, n + 1), b) implies
                        #[trigger] store.index.latch(b) == o.index.latch(b) by {
                        assert(wanted@.subrange(0, n + 1)[n as int].0 == bucket);
                        assert(b != bucket);
                        if has_bucket(wanted@.subrange(0, n as int), b) {
                            let i = choose|i: int|
                                0 <= i < n && (#[trigger] wanted@.subrange(0, n as int)[i]).0 == b;
                            assert(wanted@.subrange(0, n + 1)[i].0 == b);
                        }
                        assert(i0.latch(b) == o.index.latch(b));
                    }
                }
                store.lemma_same_entries(&o);
            }
            n += 1;
        }
        proof {
            assert(wanted@.subrange(0, n as int) =~= wanted@);
            assert forall|b: int| #[trigger] m.dom().contains(b) implies can_take(o.index.latch(b), m[b])
                && store.index.latch(b) == taken(o.index.latch(b), m[b]) by {
                assert(has_bucket(wanted@, b));
                let i = choose|i: int| 0 <= i < wanted@.len() && (#[trigger] wanted@[i]).0 == b;
                assert(m[wanted@[i].0 as int] == wanted@[i].1);
            }
            assert forall|b: int|
                0 <= b < o.index.bucket_count() && !m.dom().contains(b) implies #[trigger] store.index.latch(
                b,
            ) == o.index.latch(b) by {
                if has_bucket(wanted@, b) {
                    let i = choose|i: int| 0 <= i < wanted@.len() && (#[trigger] wanted@[i]).0 == b;
                    assert(m.dom().contains(wanted@[i].0 as int));
                }
            }
        }
        self.txn_locks = wanted;
        self.txn_mode = true;
        true
    }

    /// Give all latches back and leave transaction mode. A latch that is no
    /// longer held (the index was cleared meanwhile) is passed over.
    pub fn txn_unlock<D: Device>(&mut self, store: &mut Store<D>)
        requires
            old(store).inv(),
            old(self).locks_ok(&old(store).index),
        ensures
            final(store).inv(),
            *final(store) == (Store { index: final(store).index, ..*old(store) }),
            final(store).index.same_shape(&old(store).index),
            final(store).index.same_entries(&old(store).index),
            final(store).index.same_room(&old(store).index),
            final(store).newest_same(old(store)),
            old(store).whole() ==> final(store).whole(),
            !final(self).txn_mode,
            final(self).txn_locks@.len() == 0,
            *final(self) == (Session {
                txn_mode: false,
                txn_locks: final(self).txn_locks,
                ..*old(self)
            }),
            forall|i: int|
                0 <= i < old(self).txn_locks@.len() ==> final(store).index.latch(
                    (#[trigger] old(self).txn_locks@[i]).0 as int,
                ) == given_back(
                    old(store).index.latch(old(self).txn_locks@[i].0 as int),
                    old(self).txn_locks@[i].1,
                ),
            forall|b: int|
                0 <= b < old(store).index.bucket_count() && !has_bucket(old(self).txn_locks@, b)
                    ==> #[trigger] final(store).index.latch(b) == old(store).index.latch(b),
    {
        let ghost o = *store;
        let ghost locks = self.txn_locks@;
        let mut n: usize = 0;
        proof {
            store.lemma_same_entries(&o);
        }
        while n < self.txn_locks.len()
            invariant
                n <= self.txn_locks@.len(),
                locks == self.txn_locks@,
                *self == *old(self),
                o == *old(store),
                o.inv(),
                store.inv(),
                *store == (Store { index: store.index, ..o }),
                store.index.same_shape(&o.index),
                store.index.same_entries(&o.index),
                store.index.same_room(&o.index),
                store.newest_same(&o),
                o.whole() ==> store.whole(),
                self.locks_ok(&o.index),
                forall|i: int|
                    0 <= i < n ==> store.index.latch((#[trigger] locks[i]).0 as int) == given_back(
                        o.index.latch(locks[i].0 as int),
                        locks[i].1,
                    ),
                forall|i: int|
                    n <= i < locks.len() ==> store.index.latch((#[trigger] locks[i]).0 as int)
                        == o.index.latch(locks[i].0 as int),
                forall|b: int|
                    0 <= b < o.index.bucket_count() && !has_bucket(locks, b) ==> #[trigger] store.index.latch(
                        b,
                    ) == o.index.latch(b),
            decreases locks.len() - n,
        {
            let (bucket, ty) = self.txn_locks[n];
            assert(locks[n as int].0 == bucket);
            match ty {
                LockType::Exclusive => {
                    if store.index.is_locked_exclusive(bucket) {
                        store.index.unlock_exclusive(bucket);
                    }
                },
                LockType::Shared => {
                    if store.index.is_locked_shared(bucket) {
                        store.index.unlock_shared(bucket);
                    }
                },
            }
            proof {
                store.lemma_same_entries(&o);
                assert forall|i: int| 0 <= i < n + 1 implies store.index.latch((#[trigger] locks[i]).0 as int)
                    == given_back(o.index.latch(locks[i].0 as int), locks[i].1) by {
                    if i < n {
                        assert(locks[i].0 < locks[n as int].0);
                    }
                }
                assert forall|i: int| n + 1 <= i < locks.len() implies store.index.latch(
                    (#[trigger] locks[i]).0 as int,
                ) == o.index.latch(locks[i].0 as int) by {
                    assert(locks[n as int].0 < locks[i].0);
                }
                assert forall|b: int|
                    0 <= b < o.index.bucket_count() && !has_bucket(locks, b) implies #[trigger] store.index.latch(
                    b,
                ) == o.index.latch(b) by {
                    assert(b != bucket);
                }
            }
            n += 1;
        }
        self.txn_locks = Vec::new();
        self.txn_mode = false;
    }

    /// End the session: give back what it holds and its row in the epoch
    /// table. The table has a fixed number of rows; a leaked one is a row no
    /// future thread can claim.
    pub fn close<D: Device>(&mut self, store: &mut Store<D>)
        requires
            old(store).inv(),
            old(self).thread != 0,
            old(self).locks_ok(&old(store).index),
        ensures
            final(store).inv(),
            final(store).same_settings(old(store)),
            final(store).next_thread == old(store).next_thread,
            *final(store) == (Store { index: final(store).index, log: final(store).log, ..*old(store) }),
            final(store).index.same_shape(&old(store).index),
            final(store).index.same_entries(&old(store).index),
            final(store).index.same_room(&old(store).index),
            final(store).newest_same(old(store)),
            old(store).whole() ==> final(store).whole(),
            final(store).log@.slots == old(store).log@.slots.map_values(
                |s: epoch::Slot|
                    if s.owner == old(self).thread {
                        epoch::Slot { epoch: 0, owner: 0 }
                    } else {
                        s
                    },
            ),
            !epoch::owns(final(store).log@.slots, old(self).thread),
            epoch::idle(old(store).log@.slots) ==> epoch::idle(final(store).log@.slots),
            final(store).log@ == (LogView {
                slots: final(store).log@.slots,
                ..old(store).log@
            }),
            !final(self).txn_mode,
            old(self).txn_mode ==> forall|i: int|
                0 <= i < old(self).txn_locks@.len() ==> final(store).index.latch(
                    (#[trigger] old(self).txn_locks@[i]).0 as int,
                ) == given_back(
                    old(store).index.latch(old(self).txn_locks@[i].0 as int),
                    old(self).txn_locks@[i].1,
                ),
            forall|b: int|
                0 <= b < old(store).index.bucket_count() && !has_bucket(old(self).txn_locks@, b)
                    ==> #[trigger] final(store).index.latch(b) == old(store).index.latch(b),
            !old(self).txn_mode ==> final(store).index == old(store).index,
    {
        if self.txn_mode {
            self.txn_unlock(store);
        }
        let ghost s = *store;
        store.log.release_thread(self.thread);
        proof {
            store.lemma_slots_only(&s);
            store.lemma_quiet(&s);
        }
    }
}

/// Undo the first `n` acquisitions.
fn give_back<D: Device>(
    store: &mut Store<D>,
    wanted: &Vec<(usize, LockType)>,
    n: usize,
    Ghost(i0): Ghost<HashIndex>,
)
    requires
        old(store).inv(),
        n <= wanted@.len(),
        ascending(wanted@),
        old(store).index.same_shape(&i0),
        forall|i: int| 0 <= i < wanted@.len() ==> (#[trigger] wanted@[i]).0 < i0.bucket_count(),
        taken_upto(&i0, &old(store).index, wanted@, n as int),
    ensures
        final(store).inv(),
        *final(store) == (Store { index: final(store).index, ..*old(store) }),
        final(store).index.same_shape(&old(store).index),
        final(store).index.same_entries(&old(store).index),
        final(store).index.same_room(&old(store).index),
        final(store).newest_same(old(store)),
        old(store).whole() ==> final(store).whole(),
        final(store).index.same_latches(&i0),
{
    let ghost o = *store;
    let mut left: usize = n;
    proof {
        store.lemma_same_entries(&o);
    }
    while left > 0
        invariant
            left <= n <= wanted@.len(),
            o == *old(store),
            o.inv(),
            store.inv(),
            *store == (Store { index: store.index, ..o }),
            o.index.same_shape(&i0),
            store.index.same_shape(&o.index),
            store.index.same_entries(&o.index),
            store.index.same_room(&o.index),
            store.newest_same(&o),
            o.whole() ==> store.whole(),
            ascending(wanted@),
            forall|i: int| 0 <= i < wanted@.len() ==> (#[trigger] wanted@[i]).0 < i0.bucket_count(),
            taken_upto(&i0, &store.index, wanted@, left as int),
        decreases left,
    {
        left -= 1;
        let (bucket, ty) = wanted[left];
        let ghost before = store.index;
        assert(wanted@[left as int].0 == bucket);
        match ty {
            LockType::Exclusive => {
                store.index.unlock_exclusive(bucket);
            },
            LockType::Shared => {
                store.index.unlock_shared(bucket);
            },
        }
        proof {
            store.lemma_same_entries(&o);
            assert forall|i: int| 0 <= i < left implies store.index.latch((#[trigger] wanted@[i]).0 as int)
                == taken(i0.latch(wanted@[i].0 as int), wanted@[i].1) by {
                assert(wanted@[i].0 < wanted@[left as int].0);
            }
            assert forall|b: int|
                0 <= b < i0.bucket_count() && !has_bucket(wanted@.subrange(0, left as int), b) implies
                #[trigger] store.index.latch(b) == i0.latch(b) by {
                if b != bucket {
                    if has_bucket(wanted@.subrange(0, left + 1), b) {
                        let i = choose|i: int|
                            0 <= i < left + 1 && (#[trigger] wanted@.subrange(0, left + 1)[i]).0 == b;
                        assert(wanted@.subrange(0, left as int)[i].0 == b);
                    }
                    assert(before.latch(b) == i0.latch(b));
                }
            }
        }
    }
    assert forall|b: int| 0 <= b < store.index.bucket_count() implies #[trigger] store.index.latch(b)
        == i0.latch(b) by {
        assert(!has_bucket(wanted@.subrange(0, 0), b));
    }
}

/// What a transaction took, it gives back: after unlocking, the latches stand
/// as they did before locking.
pub proof fn unlock_undoes_lock(l: LatchView, t: LockType)
    requires
        can_take(l, t),
    ensures
        given_back(taken(l, t), t) == l,
{
}

/// The latches that a list of keys asks for are those of their buckets and no
/// others, and a bucket is asked for exclusively exactly if one of its keys is.
pub proof fn every_key_gets_its_latch(index: HashIndex, keys: Seq<(Seq<u8>, LockType)>)
    ensures
        ({
            let m = wanted_locks(index, keys);
            &&& forall|i: int|
                0 <= i < keys.len() ==> m.dom().contains(
                    index.bucket_of(hash::key_hash((#[trigger] keys[i]).0)),
                )
            &&& forall|i: int|
                0 <= i < keys.len() && (#[trigger] keys[i]).1 is Exclusive ==> m[index.bucket_of(
                    hash::key_hash(keys[i].0),
                )] is Exclusive
            &&& forall|b: int| #[trigger]
                m.dom().contains(b) ==> exists|i: int|
                    0 <= i < keys.len() && index.bucket_of(hash::key_hash((#[trigger] keys[i]).0)) == b
                        && keys[i].1 == m[b]
        }),
    decreases keys.len(),
{
    if keys.len() > 0 {
        let less = keys.drop_last();
        every_key_gets_its_latch(index, less);
        let m0 = wanted_locks(index, less);
        let m = wanted_locks(index, keys);
        let n = keys.len() - 1;
        let last = index.bucket_of(hash::key_hash(keys[n].0));
        assert forall|i: int| 0 <= i < keys.len() implies {
            let b = index.bucket_of(hash::key_hash((#[trigger] keys[i]).0));
            m.dom().contains(b) && (keys[i].1 is Exclusive ==> m[b] is Exclusive)
        } by {
            if i < n {
                assert(less[i] == keys[i]);
            }
        }
        assert forall|b: int| #[trigger] m.dom().contains(b) implies exists|i: int|
            0 <= i < keys.len() && index.bucket_of(hash::key_hash((#[trigger] keys[i]).0)) == b
                && keys[i].1 == m[b] by {
            if b == last && keys[n].1 == m[b] {
                assert(keys[n].1 == m[b]);
            } else {
                assert(m0.dom().contains(b));
                let i = choose|i: int|
                    0 <= i < less.len() && index.bucket_of(hash::key_hash((#[trigger] less[i]).0)) == b
                        && less[i].1 == m0[b];
                assert(keys[i] == less[i]);
            }
        }
    }
}

} // verus!
