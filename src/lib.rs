//! A weighted S3-FIFO cache: a small probationary FIFO queue, a main queue
//! with reinsertion, and a ghost queue of keys recently evicted from the small
//! one.
use vstd::prelude::*;

pub mod accounting;
pub mod fifo;
pub mod fifo_reinserion;
pub mod ghost_fifo;

use crate::accounting::{reported, compact};
use crate::fifo::{FIFO, FIFOError, Removed};
use crate::fifo_reinserion::{FIFOReinsertion, FIFOReinsertionError};
use crate::ghost_fifo::GhostFIFO;

verus! {

/// The part of a capacity that goes to the main and ghost queues, in percent.
pub const MAIN_PERCENT: usize = 90;

/// The part of a capacity that goes to the small queue, in percent.
pub const SMALL_PERCENT: usize = 10;

/// State of the main queue: order, entries, used weight.
pub type MainState<V> = (Seq<u64>, Map<u64, fifo_reinserion::Entry<V>>, int);

/// State of the ghost queue: order, entries, used weight.
pub type GhostState = (Seq<u64>, Map<u64, ghost_fifo::Entry>, int);

/// What becomes of the entries evicted from the small queue, oldest first:
/// one that was hit moves to the main queue, marked as hit if it was hit more
/// than once, and the keys that this evicts from the main queue are reported;
/// one that was never hit is recorded in the ghost queue and its key is
/// reported. Yields the main and ghost queues after it and the reported keys.
pub open spec fn cascade<V>(
    victims: Seq<Removed<V>>,
    main: MainState<V>,
    main_cap: int,
    recent: GhostState,
    ghost_cap: int,
) -> (MainState<V>, GhostState, Seq<u64>)
    decreases victims.len(),
{
    if victims.len() == 0 {
        (main, recent, Seq::empty())
    } else {
        let x = victims[0];
        if x.freq > 0 {
            if x.weight > main_cap {
                cascade(victims.skip(1), main, main_cap, recent, ghost_cap)
            } else {
                let p = fifo_reinserion::put_spec(
                    main.0,
                    main.1,
                    main.2,
                    main_cap,
                    x.key,
                    x.value,
                    x.weight as int,
                    x.freq - 1 > 0,
                );
                let r = cascade(victims.skip(1), (p.0, p.1, p.2), main_cap, recent, ghost_cap);
                (r.0, r.1, p.3 + r.2)
            }
        } else {
            let g = if x.weight > ghost_cap {
                recent
            } else {
                let p = ghost_fifo::put_spec(recent.0, recent.1, recent.2, ghost_cap, x.key, x.weight as int);
                (p.0, p.1, p.2)
            };
            let r = cascade(victims.skip(1), main, main_cap, g, ghost_cap);
            (r.0, r.1, seq![x.key] + r.2)
        }
    }
}

/// Removing a key from the cache twice is removing it once: each of the
/// three queues is left as the first removal left it.
pub proof fn lemma_remove_twice<V>(
    small: Map<u64, fifo::Entry<V>>,
    main: Map<u64, fifo_reinserion::Entry<V>>,
    recent: Map<u64, ghost_fifo::Entry>,
    k: u64,
)
    ensures
        fifo::tombstone(fifo::tombstone(small, k), k) == fifo::tombstone(small, k),
        fifo_reinserion::tombstone(fifo_reinserion::tombstone(main, k), k)
            == fifo_reinserion::tombstone(main, k),
        ghost_fifo::tombstone(ghost_fifo::tombstone(recent, k), k) == ghost_fifo::tombstone(recent, k),
{
    fifo::lemma_remove_twice(small, k);
    fifo_reinserion::lemma_remove_twice(main, k);
    ghost_fifo::lemma_remove_twice(recent, k);
}

#[derive(Debug)]
pub enum S3FIFOError {
    BeyondCapacity,
}

/// An S3-FIFO cache of values of type `V` under `u64` keys.
pub struct S3FIFO<V> {
    main: FIFOReinsertion<V>,
    small: FIFO<V>,
    recent: GhostFIFO,
}

impl<V> S3FIFO<V> {
    pub closed spec fn main_queue(&self) -> FIFOReinsertion<V> {
        self.main
    }

    pub closed spec fn small_queue(&self) -> FIFO<V> {
        self.small
    }

    pub closed spec fn ghost_queue(&self) -> GhostFIFO {
        self.recent
    }

    /// Each queue is well formed, the small queue is no larger than the main
    /// one, and a key that the ghost queue remembers is not in the small
    /// queue.
    pub open spec fn wf(&self) -> bool {
        &&& self.main_queue().wf()
        &&& self.small_queue().wf()
        &&& self.ghost_queue().wf()
        &&& self.small_queue().cap() <= self.main_queue().cap()
        &&& forall|k: u64|
            #[trigger] ghost_fifo::live(self.ghost_queue().entries(), k)
                ==> !self.small_queue().entries().contains_key(k)
    }

    /// What `get` finds for `k`: the small queue's value, else the main
    /// queue's.
    pub open spec fn lookup(&self, k: u64) -> Option<V> {
        match fifo::lookup(self.small_queue().entries(), k) {
            Some(v) => Some(v),
            None => fifo_reinserion::lookup(self.main_queue().entries(), k),
        }
    }

    /// A cache whose capacity is split between a main queue of `capacity *
    /// 90 / 100`, a small queue of `capacity * 10 / 100`, and a ghost queue as
    /// large as the main one, all empty.
    pub fn new(capacity: usize) -> (r: Self)
        ensures
            r.wf(),
            r.main_queue().cap() == capacity * MAIN_PERCENT / 100,
            r.small_queue().cap() == capacity * SMALL_PERCENT / 100,
            r.ghost_queue().cap() == capacity * MAIN_PERCENT / 100,
            r.main_queue().keys().len() == 0,
            r.small_queue().keys().len() == 0,
            r.ghost_queue().keys().len() == 0,
    {
        let main_capacity = share(capacity, MAIN_PERCENT);
        let small_capacity = share(capacity, SMALL_PERCENT);
        S3FIFO {
            main: FIFOReinsertion::new(main_capacity),
            small: FIFO::new(small_capacity),
            recent: GhostFIFO::new(main_capacity),
        }
    }

    /// Stores `value` under `key`. A key that the ghost queue remembers is
    /// forgotten there and goes straight to the main queue, whose evicted keys
    /// are returned. Any other key goes to the small queue; what that evicts
    /// cascades as `cascade` says, and the result is `None` when the small
    /// queue evicted nothing, else the reported keys (which may be none). A
    /// weight beyond the capacity of the queue the key goes to is refused
    /// with `BeyondCapacity` and changes nothing.
    pub fn put(&mut self, key: u64, value: V, weight: usize) -> (r: Result<Option<Vec<u64>>, S3FIFOError>)
        requires
            old(self).wf(),
        ensures
            final(self).wf(),
            final(self).main_queue().cap() == old(self).main_queue().cap(),
            final(self).small_queue().cap() == old(self).small_queue().cap(),
            final(self).ghost_queue().cap() == old(self).ghost_queue().cap(),
            r is Ok ==> final(self).lookup(key) == Some(value),
            forall|j: u64|
                j != key && fifo::lookup(old(self).small_queue().entries(), j) is None
                    && fifo_reinserion::lookup(old(self).main_queue().entries(), j) is None
                    ==> !(#[trigger] evicted_by(r).contains(j)),
            ({
                let main = old(self).main_queue();
                let small = old(self).small_queue();
                let recent = old(self).ghost_queue();
                if ghost_fifo::live(recent.entries(), key) {
                    &&& final(self).small_queue().state() == small.state()
                    &&& weight > main.cap() ==> {
                        &&& r is Err
                        &&& final(self).main_queue().state() == main.state()
                        &&& final(self).ghost_queue().state() == recent.state()
                    }
                    &&& weight <= main.cap() ==> match r {
                        Ok(o) => {
                            let p = fifo_reinserion::put_spec(
                                main.keys(),
                                main.entries(),
                                main.used(),
                                main.cap(),
                                key,
                                value,
                                weight as int,
                                false,
                            );
                            &&& final(self).main_queue().state() == (p.0, p.1, p.2)
                            &&& reported(o) == p.3
                            &&& compact(o)
                            &&& final(self).ghost_queue().keys() == recent.keys()
                            &&& final(self).ghost_queue().used() == recent.used()
                            &&& final(self).ghost_queue().entries() == ghost_fifo::tombstone(
                                recent.entries(),
                                key,
                            )
                        },
                        Err(_) => false,
                    }
                } else {
                    &&& weight > small.cap() ==> {
                        &&& r is Err
                        &&& final(self).small_queue().state() == small.state()
                        &&& final(self).main_queue().state() == main.state()
                        &&& final(self).ghost_queue().state() == recent.state()
                    }
                    &&& weight <= small.cap() ==> match r {
                        Ok(o) => {
                            let sp = fifo::put_spec(
                                small.keys(),
                                small.entries(),
                                small.used(),
                                small.cap(),
                                key,
                                value,
                                weight as int,
                            );
                            let c = cascade(sp.3, main.state(), main.cap(), recent.state(), recent.cap());
                            &&& final(self).small_queue().state() == (sp.0, sp.1, sp.2)
                            &&& final(self).main_queue().state() == c.0
                            &&& final(self).ghost_queue().state() == c.1
                            &&& (o is None <==> sp.3.len() == 0)
                            &&& reported(o) == c.2
                        },
                        Err(_) => false,
                    }
                }
            }),
    {
        let ghost small0 = self.small;
        let ghost main0 = self.main;
        if self.recent.get(key) {
            if weight > self.main.capacity() {
                return Err(S3FIFOError::BeyondCapacity);
            }
            self.recent.remove(key);
            proof {
                assert forall|k: u64| #[trigger] ghost_fifo::live(self.recent.entries(), k)
                    implies !self.small.entries().contains_key(k) by {
                    assert(ghost_fifo::live(old(self).recent.entries(), k));
                }
                if weight <= main0.cap() {
                    fifo_reinserion::lemma_put_reports_live(
                        main0.keys(),
                        main0.entries(),
                        main0.used(),
                        main0.cap(),
                        key,
                        value,
                        weight,
                        false,
                    );
                    fifo_reinserion::lemma_put_then_get(
                        main0.keys(),
                        main0.entries(),
                        main0.used(),
                        main0.cap(),
                        key,
                        value,
                        weight,
                        false,
                    );
                }
            }
            match self.main.put(key, value, weight) {
                Err(FIFOReinsertionError::BeyondCapacity) => Err(S3FIFOError::BeyondCapacity),
                Ok(removed) => Ok(removed),
            }
        } else {
            proof {
                if weight <= small0.cap() {
                    fifo::lemma_put_keys(
                        small0.keys(),
                        small0.entries(),
                        small0.used(),
                        small0.cap(),
                        key,
                        value,
                        weight,
                    );
                    fifo::lemma_put_then_get(
                        small0.keys(),
                        small0.entries(),
                        small0.used(),
                        small0.cap(),
                        key,
                        value,
                        weight as int,
                    );
                }
            }
            match self.small.put(key, value, weight) {
                Err(FIFOError::BeyondCapacity) => Err(S3FIFOError::BeyondCapacity),
                Ok(removed) => {
                    proof {
                        assert forall|k: u64| #[trigger] ghost_fifo::live(self.recent.entries(), k)
                            implies !self.small.entries().contains_key(k) by {
                            assert(!old(self).small.entries().contains_key(k));
                        }
                    }
                    match removed {
                        Some(removed) => {
                            proof {
                                let sp = fifo::put_spec(
                                    small0.keys(),
                                    small0.entries(),
                                    small0.used(),
                                    small0.cap(),
                                    key,
                                    value,
                                    weight as int,
                                );
                                assert(removed@ == sp.3);
                                assert forall|j: u64|
                                    j != key && fifo::lookup(small0.entries(), j) is None
                                        && fifo_reinserion::lookup(main0.entries(), j) is None implies
                                    #[trigger] unseen(main0.entries(), removed@, j) by {
                                    assert forall|i: int| 0 <= i < removed@.len() implies (#[trigger] removed@[i]).key != j by {
                                        assert(fifo::lookup(small0.entries(), sp.3[i].key) is Some);
                                    }
                                }
                            }
                            Ok(Some(self.settle(removed)))
                        },
                        None => Ok(None),
                    }
                },
            }
        }
    }

    /// Moves the entries evicted from the small queue on, as `cascade` says,
    /// and returns the keys that leave the cache.
    fn settle(&mut self, removed: Vec<Removed<V>>) -> (r: Vec<u64>)
        requires
            old(self).wf(),
            forall|i: int|
                0 <= i < removed@.len() ==> !old(self).small_queue().entries().contains_key(
                    #[trigger] removed@[i].key,
                ),
        ensures
            final(self).wf(),
            final(self).main_queue().cap() == old(self).main_queue().cap(),
            final(self).ghost_queue().cap() == old(self).ghost_queue().cap(),
            final(self).small_queue() == old(self).small_queue(),
            forall|j: u64|
                unseen(old(self).main_queue().entries(), removed@, j) ==> !(#[trigger] r@.contains(j)),
            ({
                let c = cascade(
                    removed@,
                    old(self).main_queue().state(),
                    old(self).main_queue().cap(),
                    old(self).ghost_queue().state(),
                    old(self).ghost_queue().cap(),
                );
                &&& final(self).main_queue().state() == c.0
                &&& final(self).ghost_queue().state() == c.1
                &&& r@ == c.2
            }),
    {
        let mut removed = removed;
        let mut removed_keys: Vec<u64> = Vec::new();
        let ghost mc = self.main.cap();
        let ghost gc = self.recent.cap();
        let ghost small = self.small;
        let ghost goal = cascade(removed@, self.main.state(), mc, self.recent.state(), gc);
        let ghost all = removed@;
        let ghost main0 = self.main.entries();
        while removed.len() > 0
            invariant
                self.wf(),
                removed@.len() <= all.len(),
                forall|i: int|
                    0 <= i < removed@.len() ==> #[trigger] removed@[i] == all[all.len() - removed@.len() + i],
                forall|j: u64|
                    #[trigger] unseen(main0, all, j) ==> (fifo_reinserion::lookup(self.main.entries(), j) is None)
                        && !removed_keys@.contains(j),
                self.main.cap() == mc,
                self.recent.cap() == gc,
                self.small == small,
                forall|i: int|
                    0 <= i < removed@.len() ==> !small.entries().contains_key(
                        #[trigger] removed@[i].key,
                    ),
                ({
                    let c = cascade(removed@, self.main.state(), mc, self.recent.state(), gc);
                    &&& c.0 == goal.0
                    &&& c.1 == goal.1
                    &&& removed_keys@ + c.2 == goal.2
                }),
            decreases removed.len(),
        {
            let ghost rest = removed@;
            let item = removed.remove(0);
            proof {
                assert(removed@ =~= rest.skip(1));
                assert forall|i: int| 0 <= i < removed@.len() implies #[trigger] removed@[i]
                    == all[all.len() - removed@.len() + i] by {
                    assert(removed@[i] == rest[i + 1]);
                }
                assert(rest[0] == all[all.len() - rest.len()]);
                assert forall|i: int| 0 <= i < removed@.len() implies !small.entries().contains_key(
                    #[trigger] removed@[i].key,
                ) by {
                    assert(removed@[i] == rest[i + 1]);
                }
                assert(rest[0] == item);
            }
            let ghost before = removed_keys@;
            let ghost main_before = self.main;
            if item.freq > 0 {
                let put = self.main.put_with_freq(item.key, item.value, item.weight, item.freq - 1);
                let ghost got = reported_ok(put);
                match put {
                    Ok(Some(mut from_main)) => {
                        removed_keys.append(&mut from_main);
                    },
                    _ => {},
                }
                proof {
                    assert(removed_keys@ == before + got);
                    let tail = cascade(removed@, self.main.state(), mc, self.recent.state(), gc).2;
                    if item.weight <= mc {
                        fifo_reinserion::lemma_put_reports_live(
                            main_before.keys(),
                            main_before.entries(),
                            main_before.used(),
                            mc,
                            item.key,
                            item.value,
                            item.weight,
                            item.freq - 1 > 0,
                        );
                    }
                    assert forall|j: u64| #[trigger] unseen(main0, all, j) implies (fifo_reinserion::lookup(
                        self.main.entries(),
                        j,
                    ) is None) && !removed_keys@.contains(j) by {
                        assert(item.key != j);
                        assert(!before.contains(j));
                        assert(fifo_reinserion::lookup(main_before.entries(), j) is None);
                        if item.weight > mc {
                            assert(self.main.entries() == main_before.entries());
                        }
                        assert(fifo_reinserion::lookup(self.main.entries(), j) is None);
                        if got.contains(j) {
                            let t = choose|t: int| 0 <= t < got.len() && got[t] == j;
                            assert(fifo_reinserion::lookup(main_before.entries(), got[t]) is Some);
                        }
                        if removed_keys@.contains(j) {
                            let t = choose|t: int| 0 <= t < removed_keys@.len() && removed_keys@[t] == j;
                            if t < before.len() {
                                assert(before[t] == j);
                            } else {
                                assert(got[t - before.len()] == j);
                            }
                        }
                    }
                    if item.weight <= mc {
                        let p = fifo_reinserion::put_spec(
                            main_before.keys(),
                            main_before.entries(),
                            main_before.used(),
                            mc,
                            item.key,
                            item.value,
                            item.weight as int,
                            item.freq - 1 > 0,
                        );
                        assert(removed_keys@ + tail =~= before + (p.3 + tail));
                    } else {
                        assert(removed_keys@ =~= before);
                    }
                }
            } else {
                let ghost recent0 = self.recent;
                proof {
                    if item.weight <= recent0.cap() {
                        ghost_fifo::lemma_put_live(
                            recent0.keys(),
                            recent0.entries(),
                            recent0.used(),
                            recent0.cap(),
                            item.key,
                            item.weight,
                        );
                    }
                }
                let _ = self.recent.put(item.key, item.weight);
                proof {
                    assert forall|k: u64| #[trigger] ghost_fifo::live(self.recent.entries(), k)
                        implies !self.small.entries().contains_key(k) by {
                        if k != item.key {
                            assert(ghost_fifo::live(recent0.entries(), k));
                        }
                    }
                }
                removed_keys.push(item.key);
                proof {
                    assert forall|j: u64| #[trigger] unseen(main0, all, j) implies (fifo_reinserion::lookup(
                        self.main.entries(),
                        j,
                    ) is None) && !removed_keys@.contains(j) by {
                        assert(item.key != j);
                        assert(!before.contains(j));
                        assert(self.main == main_before);
                        if removed_keys@.contains(j) {
                            let t = choose|t: int| 0 <= t < removed_keys@.len() && removed_keys@[t] == j;
                            if t < before.len() {
                                assert(before[t] == j);
                            }
                        }
                    }
                    let tail = cascade(removed@, self.main.state(), mc, self.recent.state(), gc).2;
                    assert(removed_keys@ + tail =~= before + (seq![item.key] + tail));
                }
            }
        }
        proof {
            assert(removed_keys@ =~= goal.2);
            assert forall|j: u64| unseen(main0, all, j) implies !(#[trigger] removed_keys@.contains(j)) by {
                assert(unseen(main0, all, j));
            }
        }
        removed_keys
    }

    /// The value of `key` from the small queue, else from the main queue; the
    /// queue that holds it counts the hit. The ghost queue is not consulted.
    pub fn get(&mut self, key: u64) -> (r: Option<&V>)
        requires
            old(self).wf(),
        ensures
            final(self).wf(),
            final(self).ghost_queue() == old(self).ghost_queue(),
            final(self).small_queue().cap() == old(self).small_queue().cap(),
            final(self).main_queue().cap() == old(self).main_queue().cap(),
            final(self).small_queue().keys() == old(self).small_queue().keys(),
            final(self).small_queue().used() == old(self).small_queue().used(),
            final(self).small_queue().entries() == fifo::touched(old(self).small_queue().entries(), key),
            match r {
                Some(v) => old(self).lookup(key) == Some(*v),
                None => old(self).lookup(key) is None,
            },
            ({
                let small = fifo::lookup(old(self).small_queue().entries(), key);
                let main = fifo_reinserion::lookup(old(self).main_queue().entries(), key);
                if small is Some {
                    &&& final(self).main_queue() == old(self).main_queue()
                    &&& r is Some && small == Some(*r.unwrap())
                } else {
                    &&& final(self).main_queue().keys() == old(self).main_queue().keys()
                    &&& final(self).main_queue().used() == old(self).main_queue().used()
                    &&& final(self).main_queue().entries() == fifo_reinserion::touched(old(self).main_queue().entries(), key)
                    &&& match r {
                        Some(v) => main == Some(*v),
                        None => main is None,
                    }
                }
            }),
    {
        match self.small.get(key) {
            Some(v) => Some(v),
            None => self.main.get(key),
        }
    }

    /// Tombstones `key` in all three queues; an absent key is no error.
    pub fn remove(&mut self, key: u64)
        requires
            old(self).wf(),
        ensures
            final(self).wf(),
            final(self).main_queue().cap() == old(self).main_queue().cap(),
            final(self).small_queue().cap() == old(self).small_queue().cap(),
            final(self).ghost_queue().cap() == old(self).ghost_queue().cap(),
            final(self).main_queue().keys() == old(self).main_queue().keys(),
            final(self).small_queue().keys() == old(self).small_queue().keys(),
            final(self).ghost_queue().keys() == old(self).ghost_queue().keys(),
            final(self).main_queue().used() == old(self).main_queue().used(),
            final(self).small_queue().used() == old(self).small_queue().used(),
            final(self).ghost_queue().used() == old(self).ghost_queue().used(),
            final(self).main_queue().entries() == fifo_reinserion::tombstone(old(self).main_queue().entries(), key),
            final(self).small_queue().entries() == fifo::tombstone(old(self).small_queue().entries(), key),
            final(self).ghost_queue().entries() == ghost_fifo::tombstone(old(self).ghost_queue().entries(), key),
            final(self).lookup(key) is None,
    {
        self.main.remove(key);
        self.small.remove(key);
        let ghost recent0 = self.recent;
        self.recent.remove(key);
        proof {
            assert forall|k: u64| #[trigger] ghost_fifo::live(self.recent.entries(), k)
                implies !self.small.entries().contains_key(k) by {
                assert(ghost_fifo::live(recent0.entries(), k));
            }
        }
    }
}

/// The keys a cache `put` reports; none when it was refused.
pub open spec fn evicted_by(r: Result<Option<Vec<u64>>, S3FIFOError>) -> Seq<u64> {
    match r {
        Ok(o) => reported(o),
        Err(_) => Seq::empty(),
    }
}

/// `j` is not live in the main entries `m`, and is the key of none of
/// `victims`.
spec fn unseen<V>(
    m: Map<u64, fifo_reinserion::Entry<V>>,
    victims: Seq<Removed<V>>,
    j: u64,
) -> bool {
    &&& fifo_reinserion::lookup(m, j) is None
    &&& forall|i: int| 0 <= i < victims.len() ==> (#[trigger] victims[i]).key != j
}

/// The keys reported by a put into the main queue; none when it failed.
spec fn reported_ok(r: Result<Option<Vec<u64>>, FIFOReinsertionError>) -> Seq<u64> {
    match r {
        Ok(o) => reported(o),
        Err(_) => Seq::empty(),
    }
}

/// `capacity * percent / 100`, computed without overflow.
fn share(capacity: usize, percent: usize) -> (r: usize)
    requires
        percent <= 100,
    ensures
        r == capacity * percent / 100,
{
    let q = capacity / 100;
    let rem = capacity % 100;
    proof {
        let c = capacity as int;
        let p = percent as int;
        vstd::arithmetic::div_mod::lemma_fundamental_div_mod(c, 100);
        vstd::arithmetic::div_mod::lemma_hoist_over_denominator(rem * p, q * p, 100);
        assert(c * p == rem * p + (q * p) * 100) by (nonlinear_arith)
            requires
                c == 100 * q + rem,
        ;
        assert(q * p <= c) by (nonlinear_arith)
            requires
                c == 100 * q + rem,
                0 <= p <= 100,
                0 <= q,
                0 <= rem,
        ;
        assert(rem * p <= rem * 100) by (nonlinear_arith)
            requires
                0 <= rem < 100,
                0 <= p <= 100,
        ;
        assert((rem * p) / 100 <= rem);
        assert(q * p + rem <= c) by (nonlinear_arith)
            requires
                c == 100 * q + rem,
                0 <= p <= 100,
                0 <= q,
                0 <= rem,
        ;
    }
    let low = rem * percent / 100;
    q * percent + low
}

} // verus!
