//! A weighted FIFO queue of keys alone, which remembers keys that were
//! evicted elsewhere.
use std::collections::HashMap;
use std::collections::VecDeque;
use vstd::prelude::*;
use crate::accounting::{
    Weighted,
    total,
    lemma_total_agree,
    lemma_total_other,
    lemma_total_push,
    lemma_total_update,
    lemma_skip_front,
    lemma_push_back,
    reported,
    compact,
};

verus! {

broadcast use vstd::std_specs::hash::group_hash_axioms;

/// What the queue keeps for a key.
pub struct Entry {
    pub weight: usize,
    /// Tombstone: the key was removed but still holds its place in the order.
    pub removed: bool,
}

impl Weighted for Entry {
    open spec fn weight_of(&self) -> nat {
        self.weight as nat
    }
}

#[derive(Debug)]
pub enum GhostFIFOError {
    BeyondCapacity,
}

/// A weighted FIFO queue of keys: keys leave in the order they came in once
/// the total weight would exceed the capacity.
pub struct GhostFIFO {
    hash: HashMap<u64, Entry>,
    vec_deque: VecDeque<u64>,
    used_capacity: usize,
    capacity: usize,
}

/// Whether `k` is present and not tombstoned.
pub open spec fn live(m: Map<u64, Entry>, k: u64) -> bool {
    m.contains_key(k) && !m[k].removed
}

/// The entries after `k` is tombstoned.
pub open spec fn tombstone(m: Map<u64, Entry>, k: u64) -> Map<u64, Entry> {
    if m.contains_key(k) {
        m.insert(
            k,
            Entry { weight: m[k].weight, removed: true },
        )
    } else {
        m
    }
}

/// Eviction from the front until `w` more fits: tombstoned keys are reaped
/// silently, the key `ignore` goes to the back, any other key is evicted and
/// reported. Yields the order, the entries and the used weight after it, and
/// the evicted entries, oldest first.
pub open spec fn free_spec(
    order: Seq<u64>,
    m: Map<u64, Entry>,
    used: int,
    cap: int,
    w: int,
    ignore: Option<u64>,
) -> (Seq<u64>, Map<u64, Entry>, int, Seq<u64>)
    decreases order.len(), (if order.len() > 0 && Some(order[0]) == ignore { 1int } else { 0int }),
{
    if used + w <= cap || order.len() == 0 {
        (order, m, used, Seq::empty())
    } else {
        let k = order[0];
        let e = m[k];
        if e.removed {
            free_spec(order.skip(1), m.remove(k), used - e.weight, cap, w, ignore)
        } else if Some(k) == ignore {
            if order.len() > 1 && order[1] != k {
                free_spec(order.skip(1).push(k), m, used, cap, w, ignore)
            } else {
                (order, m, used, Seq::empty())
            }
        } else {
            let r = free_spec(order.skip(1), m.remove(k), used - e.weight, cap, w, ignore);
            (
                r.0,
                r.1,
                r.2,
                seq![k] + r.3,
            )
        }
    }
}

/// Each key of the order has one entry and each entry one place in the
/// order, and `used` is the total weight of the entries.
pub open spec fn consistent(order: Seq<u64>, m: Map<u64, Entry>, used: int) -> bool {
    &&& order.no_duplicates()
    &&& forall|k: u64| m.contains_key(k) <==> order.contains(k)
    &&& used == total(order, m)
}

/// The queue's well-formedness over its order, entries, used weight and
/// capacity.
pub open spec fn well_formed(order: Seq<u64>, m: Map<u64, Entry>, used: int, cap: int) -> bool {
    &&& consistent(order, m, used)
    &&& used <= cap
    &&& forall|k: u64| m.contains_key(k) ==> m[k].weight <= cap
}

/// `x` was a live key of `m` and is absent from `after`.
pub open spec fn evicted_from(x: u64, m: Map<u64, Entry>, after: Map<u64, Entry>) -> bool {
    &&& m.contains_key(x)
    &&& !m[x].removed
    &&& !after.contains_key(x)
}

/// One step of eviction at the front keeps the order and the entries
/// consistent, whether the front key leaves or goes to the back.
pub proof fn lemma_step(order: Seq<u64>, m: Map<u64, Entry>, used: int)
    requires
        consistent(order, m, used),
        order.len() > 0,
    ensures
        ({
            let k = order[0];
            &&& m.contains_key(k)
            &&& consistent(order.skip(1), m.remove(k), used - m[k].weight)
            &&& consistent(order.skip(1).push(k), m, used)
        }),
{
    let k = order[0];
    lemma_skip_front(order);
    assert(order.contains(k));
    lemma_total_other(order.skip(1), m, k, m[k]);
    lemma_push_back(order.skip(1), k);
    lemma_total_push(order.skip(1), m, k);
    assert forall|x: u64| m.remove(k).contains_key(x) <==> order.skip(1).contains(x) by {
        assert(order.contains(x) <==> (x == k || order.skip(1).contains(x)));
    }
    assert forall|x: u64| m.contains_key(x) <==> order.skip(1).push(k).contains(x) by {
        assert(order.contains(x) <==> (x == k || order.skip(1).contains(x)));
    }
    assert(total(order, m) == m[k].weight_of() + total(order.skip(1), m));
    assert(total(order.skip(1), m.remove(k)) == total(order.skip(1), m));
    assert(consistent(order.skip(1), m.remove(k), used - m[k].weight));
    assert(consistent(order.skip(1).push(k), m, used));
}

proof fn lemma_removed_front(m: Map<u64, Entry>, k: u64, after: Map<u64, Entry>)
    requires
        forall|x: u64| #[trigger] after.contains_key(x) ==> m.remove(k).contains_key(x) && after[x] == m.remove(k)[x],
    ensures
        forall|x: u64| #[trigger] after.contains_key(x) ==> m.contains_key(x) && after[x] == m[x],
        !after.contains_key(k),
        forall|x: u64| x != k && #[trigger] m.contains_key(x) ==> m.remove(k).contains_key(x),
{
    assert forall|x: u64| #[trigger] after.contains_key(x) implies m.contains_key(x) && after[x] == m[x] by {
        assert(m.remove(k).contains_key(x));
    }
}

/// Eviction leaves every kept entry as it was and keeps a live `ignore`
/// key; each evicted entry was live, is reported as stored, and is gone.
pub proof fn lemma_free_keeps(
    order: Seq<u64>,
    m: Map<u64, Entry>,
    used: int,
    cap: int,
    w: int,
    ignore: Option<u64>,
)
    requires
        consistent(order, m, used),
    ensures
        ({
            let r = free_spec(order, m, used, cap, w, ignore);
            &&& forall|k: u64| #[trigger] r.1.contains_key(k) ==> m.contains_key(k) && r.1[k] == m[k]
            &&& forall|k: u64|
                ignore == Some(k) && #[trigger] m.contains_key(k) && !m[k].removed ==> r.1.contains_key(k)
            &&& forall|i: int| 0 <= i < r.3.len() ==> evicted_from(#[trigger] r.3[i], m, r.1)
        }),
    decreases order.len(), (if order.len() > 0 && Some(order[0]) == ignore { 1int } else { 0int }),
{
    if used + w <= cap || order.len() == 0 {
    } else {
        let k = order[0];
        let e = m[k];
        lemma_step(order, m, used);
        if e.removed {
            lemma_free_keeps(order.skip(1), m.remove(k), used - e.weight, cap, w, ignore);
            let r = free_spec(order.skip(1), m.remove(k), used - e.weight, cap, w, ignore);
            lemma_removed_front(m, k, r.1);
            assert forall|i: int| 0 <= i < r.3.len() implies evicted_from(#[trigger] r.3[i], m, r.1) by {
                assert(evicted_from(r.3[i], m.remove(k), r.1));
                assert(m.remove(k).contains_key(r.3[i]));
            }
        } else if Some(k) == ignore {
            if order.len() > 1 && order[1] != k {
                lemma_free_keeps(order.skip(1).push(k), m, used, cap, w, ignore);
            }
        } else {
            lemma_free_keeps(order.skip(1), m.remove(k), used - e.weight, cap, w, ignore);
            let r = free_spec(order.skip(1), m.remove(k), used - e.weight, cap, w, ignore);
            let x0 = k;
            let all = seq![x0] + r.3;
            lemma_removed_front(m, k, r.1);
            assert forall|i: int| 0 <= i < all.len() implies evicted_from(#[trigger] all[i], m, r.1) by {
                if i > 0 {
                    assert(all[i] == r.3[i - 1]);
                    let y = r.3[i - 1];
                    assert(m.remove(k).contains_key(y));
                    assert(!m.remove(k)[y].removed);
                    assert(y != k);
                    assert(m.remove(k)[y] == m[y]);
                    assert(!r.1.contains_key(y));
                    assert(evicted_from(y, m.remove(k), r.1));
                } else {
                    assert(all[0] == x0);
                    assert(!m.remove(k).contains_key(k));
                    assert(!r.1.contains_key(k));
                }
            }
        }
    }
}

/// The state after `put(k, w)` with `w` within the capacity: the order, the
/// entries, the used weight, and the evicted keys. A present key (live or
/// tombstoned) is revived; if it grows, room is made with the key itself sent
/// to the back rather than evicted. A fresh key is appended once there is
/// room.
pub open spec fn put_spec(
    order: Seq<u64>,
    m: Map<u64, Entry>,
    used: int,
    cap: int,
    k: u64,
    w: int,
) -> (Seq<u64>, Map<u64, Entry>, int, Seq<u64>) {
    if m.contains_key(k) {
        let e = m[k];
        let revived = m.insert(k, Entry { weight: e.weight, removed: false });
        let grown = Entry { weight: w as usize, removed: false };
        if w > e.weight {
            let r = free_spec(order, revived, used, cap, w - e.weight, Some(k));
            (r.0, r.1.insert(k, grown), r.2 + (w - e.weight), r.3)
        } else {
            (order, m.insert(k, grown), used - (e.weight - w), Seq::empty())
        }
    } else {
        let r = free_spec(order, m, used, cap, w, None);
        (r.0.push(k), r.1.insert(k, Entry { weight: w as usize, removed: false }), r.2 + w, r.3)
    }
}

/// A put within the capacity leaves the key live.
pub proof fn lemma_put_then_get(
    order: Seq<u64>,
    m: Map<u64, Entry>,
    used: int,
    cap: int,
    k: u64,
    w: usize,
)
    requires
        well_formed(order, m, used, cap),
        w <= cap,
    ensures
        live(put_spec(order, m, used, cap, k, w as int).1, k),
{
}

/// After a key is removed, it is not live.
pub proof fn lemma_remove_then_get(m: Map<u64, Entry>, k: u64)
    ensures
        !live(tombstone(m, k), k),
{
}

/// Removing a key twice is removing it once.
pub proof fn lemma_remove_twice(m: Map<u64, Entry>, k: u64)
    ensures
        tombstone(tombstone(m, k), k) == tombstone(m, k),
{
    assert(tombstone(tombstone(m, k), k) =~= tombstone(m, k));
}

/// Putting the same key and weight twice in a row: the second put leaves the
/// used weight as the first left it, and evicts nothing.
pub proof fn lemma_put_twice(
    order: Seq<u64>,
    m: Map<u64, Entry>,
    used: int,
    cap: int,
    k: u64,
    w: usize,
)
    requires
        well_formed(order, m, used, cap),
        w <= cap,
    ensures
        ({
            let s1 = put_spec(order, m, used, cap, k, w as int);
            let s2 = put_spec(s1.0, s1.1, s1.2, cap, k, w as int);
            &&& s2.2 == s1.2
            &&& s2.3.len() == 0
        }),
{
}

/// Eviction never reports a tombstoned entry: every reported key was live.
pub proof fn lemma_victims_live(
    order: Seq<u64>,
    m: Map<u64, Entry>,
    used: int,
    cap: int,
    w: int,
    ignore: Option<u64>,
)
    requires
        consistent(order, m, used),
    ensures
        ({
            let victims = free_spec(order, m, used, cap, w, ignore).3;
            forall|i: int|
                0 <= i < victims.len() ==> m.contains_key(#[trigger] victims[i])
                    && !m[victims[i]].removed
        }),
{
    lemma_free_keeps(order, m, used, cap, w, ignore);
    let victims = free_spec(order, m, used, cap, w, ignore).3;
    assert forall|i: int| 0 <= i < victims.len() implies m.contains_key(#[trigger] victims[i])
        && !m[victims[i]].removed by {
        assert(evicted_from(victims[i], m, free_spec(order, m, used, cap, w, ignore).1));
    }
}

/// A put makes no key live but the one it puts.
pub proof fn lemma_put_live(
    order: Seq<u64>,
    m: Map<u64, Entry>,
    used: int,
    cap: int,
    k: u64,
    w: usize,
)
    requires
        well_formed(order, m, used, cap),
        w <= cap,
    ensures
        forall|x: u64|
            #[trigger] live(put_spec(order, m, used, cap, k, w as int).1, x) ==> live(m, x) || x == k,
{
    if m.contains_key(k) {
        let e = m[k];
        if w > e.weight {
            let revived = m.insert(k, Entry { weight: e.weight, removed: false });
            assert(consistent(order, revived, used)) by {
                assert(order.contains(k));
                lemma_total_agree(order, revived, m);
                assert forall|x: u64| revived.contains_key(x) <==> order.contains(x) by {}
            }
            lemma_free_keeps(order, revived, used, cap, w - e.weight, Some(k));
        }
    } else {
        lemma_free_keeps(order, m, used, cap, w as int, None);
    }
}

impl GhostFIFO {
    /// The keys in queue order, oldest first, tombstoned ones included.
    pub closed spec fn keys(&self) -> Seq<u64> {
        self.vec_deque@
    }

    /// The entry of each key in the queue.
    pub closed spec fn entries(&self) -> Map<u64, Entry> {
        self.hash@
    }

    /// The total weight of the entries, tombstoned ones included.
    pub closed spec fn used(&self) -> int {
        self.used_capacity as int
    }

    pub closed spec fn cap(&self) -> int {
        self.capacity as int
    }

    pub open spec fn wf(&self) -> bool {
        well_formed(self.keys(), self.entries(), self.used(), self.cap())
    }

    /// Order, entries and used weight together.
    pub open spec fn state(&self) -> (Seq<u64>, Map<u64, Entry>, int) {
        (self.keys(), self.entries(), self.used())
    }

    /// An empty queue of the given capacity.
    pub fn new(capacity: usize) -> (r: Self)
        ensures
            r.wf(),
            r.cap() == capacity,
            r.keys() == Seq::<u64>::empty(),
            r.entries() == Map::<u64, Entry>::empty(),
            r.used() == 0,
    {
        GhostFIFO { hash: HashMap::new(), vec_deque: VecDeque::new(), used_capacity: 0, capacity }
    }

    /// Whether `key` is present and not tombstoned; nothing changes.
    pub fn get(&mut self, key: u64) -> (r: bool)
        requires
            old(self).wf(),
        ensures
            *final(self) == *old(self),
            r == live(old(self).entries(), key),
    {
        match self.hash.get(&key) {
            Some(e) => !e.removed,
            None => false,
        }
    }

    /// Evicts from the front until `weight` more fits, as `free_spec` says:
    /// tombstoned keys are reaped silently, `ignore_key` goes to the back, and
    /// every other key leaves and is reported (`None` when none is).
    pub fn free(&mut self, weight: usize, ignore_key: Option<u64>) -> (r: Option<Vec<u64>>)
        requires
            old(self).wf(),
            match ignore_key {
                None => weight <= old(self).cap(),
                Some(k) => old(self).entries().contains_key(k) && !old(self).entries()[k].removed
                    && old(self).entries()[k].weight + weight <= old(self).cap(),
            },
        ensures
            final(self).wf(),
            final(self).cap() == old(self).cap(),
            final(self).used() + weight <= final(self).cap(),
            ({
                let s = free_spec(
                    old(self).keys(),
                    old(self).entries(),
                    old(self).used(),
                    old(self).cap(),
                    weight as int,
                    ignore_key,
                );
                &&& final(self).state() == (s.0, s.1, s.2)
                &&& reported(r) == s.3
                &&& compact(r)
            }),
    {
        let ghost goal = free_spec(
            self.keys(),
            self.entries(),
            self.used(),
            self.cap(),
            weight as int,
            ignore_key,
        );
        let ghost cap = self.cap();
        let mut removed_keys: Vec<u64> = Vec::new();
        while weight > self.capacity - self.used_capacity
            invariant
                self.wf(),
                self.cap() == cap,
                match ignore_key {
                    None => weight <= cap,
                    Some(k) => self.entries().contains_key(k) && !self.entries()[k].removed
                        && self.entries()[k].weight + weight <= cap,
                },
                ({
                    let s = free_spec(
                        self.keys(),
                        self.entries(),
                        self.used(),
                        cap,
                        weight as int,
                        ignore_key,
                    );
                    &&& (s.0, s.1, s.2) == (goal.0, goal.1, goal.2)
                    &&& removed_keys@ + s.3 == goal.3
                }),
            decreases
                self.keys().len(),
                (if self.keys().len() > 0 && Some(self.keys()[0]) == ignore_key {
                    1int
                } else {
                    0int
                }),
        {
            let ghost o = self.vec_deque@;
            let ghost m = self.hash@;
            let ghost u = self.used();
            proof {
                if o.len() == 0 {
                    assert(total(o, m) == 0);
                    match ignore_key {
                        Some(k) => {
                            assert(m.contains_key(k));
                            assert(o.contains(k));
                        },
                        None => {},
                    }
                }
                lemma_step(o, m, u);
            }
            let key = self.vec_deque.pop_front().unwrap();
            let (tombstoned, w) = match self.hash.get(&key) {
                Some(e) => (e.removed, e.weight),
                None => (false, 0),
            };
            let ignored = match ignore_key {
                Some(k) => k == key,
                None => false,
            };
            if tombstoned {
                self.hash.remove(&key);
                self.used_capacity = self.used_capacity - w;
            } else if ignored {
                proof {
                    if o.len() == 1 {
                        assert(total(o.skip(1), m) == 0);
                        assert(u == m[key].weight);
                    } else {
                        lemma_skip_front(o);
                        assert(o.skip(1)[0] == o[1]);
                        assert(o[1] != key);
                    }
                }
                self.vec_deque.push_back(key);
                proof {
                    assert(self.vec_deque@[0] == o[1]);
                }
            } else {
                self.hash.remove(&key);
                self.used_capacity = self.used_capacity - w;
                let ghost before = removed_keys@;
                removed_keys.push(key);
                proof {
                    let rest = free_spec(self.keys(), self.entries(), self.used(), cap, weight as int, ignore_key).3;
                    assert(before.push(key) + rest =~= before + (seq![key] + rest));
                }
            }
            proof {
                assert(self.vec_deque@ =~= if ignored && !tombstoned { o.skip(1).push(key) } else { o.skip(1) });
            }
        }
        proof {
            assert(goal.3 =~= removed_keys@);
        }
        if removed_keys.len() == 0 {
            None
        } else {
            Some(removed_keys)
        }
    }

    fn update(&mut self, key: u64, weight: usize) -> (r: Option<Vec<u64>>)
        requires
            old(self).wf(),
            old(self).entries().contains_key(key),
            weight <= old(self).cap(),
        ensures
            final(self).wf(),
            final(self).cap() == old(self).cap(),
            ({
                let s = put_spec(
                    old(self).keys(),
                    old(self).entries(),
                    old(self).used(),
                    old(self).cap(),
                    key,
                    weight as int,
                );
                &&& final(self).state() == (s.0, s.1, s.2)
                &&& reported(r) == s.3
                &&& compact(r)
            }),
    {
        let ghost m0 = self.hash@;
        let e = self.hash.remove(&key).unwrap();
        let old_weight = e.weight;
        self.hash.insert(key, Entry { weight: old_weight, removed: false });
        proof {
            assert(self.hash@ =~= m0.insert(key, Entry { weight: old_weight, removed: false }));
            lemma_total_agree(self.keys(), self.hash@, m0);
            assert(self.keys().contains(key));
        }
        if weight > old_weight {
            let needed_space = weight - old_weight;
            let ghost m1 = self.hash@;
            let removed_keys = self.free(needed_space, Some(key));
            proof {
                lemma_free_keeps(old(self).keys(), m1, old(self).used(), self.cap(), needed_space as int, Some(key));
            }
            let ghost m2 = self.hash@;
            let e = self.hash.remove(&key).unwrap();
            self.hash.insert(key, Entry { weight, removed: false });
            self.used_capacity = self.used_capacity + needed_space;
            proof {
                let grown = Entry { weight, removed: false };
                assert(self.hash@ =~= m2.insert(key, grown));
                assert(self.keys().contains(key));
                lemma_total_update(self.keys(), m2, key, grown);
            }
            removed_keys
        } else {
            let ghost m1 = self.hash@;
            let e = self.hash.remove(&key).unwrap();
            self.hash.insert(key, Entry { weight, removed: false });
            proof {
                let grown = Entry { weight, removed: false };
                assert(self.hash@ =~= m0.insert(key, grown));
                assert(self.hash@ =~= m1.insert(key, grown));
                lemma_total_update(self.keys(), m1, key, grown);
            }
            self.used_capacity = self.used_capacity - (old_weight - weight);
            None
        }
    }

    fn insert(&mut self, key: u64, weight: usize) -> (r: Option<Vec<u64>>)
        requires
            old(self).wf(),
            !old(self).entries().contains_key(key),
            weight <= old(self).cap(),
        ensures
            final(self).wf(),
            final(self).cap() == old(self).cap(),
            ({
                let s = put_spec(
                    old(self).keys(),
                    old(self).entries(),
                    old(self).used(),
                    old(self).cap(),
                    key,
                    weight as int,
                );
                &&& final(self).state() == (s.0, s.1, s.2)
                &&& reported(r) == s.3
                &&& compact(r)
            }),
    {
        proof {
            lemma_free_keeps(self.keys(), self.entries(), self.used(), self.cap(), weight as int, None);
        }
        let removed_keys = self.free(weight, None);
        let ghost o = self.vec_deque@;
        let ghost m = self.hash@;
        self.used_capacity = self.used_capacity + weight;
        self.hash.insert(key, Entry { weight, removed: false });
        self.vec_deque.push_back(key);
        proof {
            let e = Entry { weight, removed: false };
            assert(!o.contains(key));
            lemma_push_back(o, key);
            lemma_total_other(o, m, key, e);
            lemma_total_push(o, m.insert(key, e), key);
            assert forall|x: u64| self.hash@.contains_key(x) <==> self.vec_deque@.contains(x) by {
                assert(o.push(key).contains(x) <==> (x == key || o.contains(x)));
            }
        }
        removed_keys
    }

    /// Records `key` with the given weight, evicting from the front as
    /// needed; the result lists the evicted keys, oldest first.
    /// A weight beyond the capacity is refused and changes nothing.
    pub fn put(&mut self, key: u64, weight: usize) -> (r: Result<
        Option<Vec<u64>>,
        GhostFIFOError,
    >)
        requires
            old(self).wf(),
        ensures
            final(self).wf(),
            final(self).cap() == old(self).cap(),
            weight > old(self).cap() ==> r is Err && final(self).state() == old(self).state(),
            weight <= old(self).cap() ==> match r {
                Ok(victims) => {
                    let s = put_spec(
                        old(self).keys(),
                        old(self).entries(),
                        old(self).used(),
                        old(self).cap(),
                        key,
                        weight as int,
                    );
                    &&& final(self).state() == (s.0, s.1, s.2)
                    &&& reported(victims) == s.3
                    &&& compact(victims)
                },
                Err(_) => false,
            },
    {
        if weight > self.capacity {
            return Err(GhostFIFOError::BeyondCapacity);
        }
        if self.hash.contains_key(&key) {
            Ok(self.update(key, weight))
        } else {
            Ok(self.insert(key, weight))
        }
    }

    /// Tombstones `key` if it is present; its weight stays counted until
    /// eviction reaps it.
    pub fn remove(&mut self, key: u64)
        requires
            old(self).wf(),
        ensures
            final(self).wf(),
            final(self).cap() == old(self).cap(),
            final(self).keys() == old(self).keys(),
            final(self).used() == old(self).used(),
            final(self).entries() == tombstone(old(self).entries(), key),
    {
        if self.hash.contains_key(&key) {
            let ghost m = self.hash@;
            let e = self.hash.remove(&key).unwrap();
            self.hash.insert(
                key,
                Entry { weight: e.weight, removed: true },
            );
            proof {
                assert(self.hash@ =~= tombstone(m, key));
                lemma_total_agree(self.keys(), self.hash@, m);
            }
        }
    }
    /// The weight in use, tombstoned entries included.
    pub fn used_capacity(&self) -> (r: usize)
        ensures
            r == self.used(),
    {
        self.used_capacity
    }

    /// The capacity the queue was made with.
    pub fn capacity(&self) -> (r: usize)
        ensures
            r == self.cap(),
    {
        self.capacity
    }

    /// Number of keys in the queue's order, tombstoned ones included.
    pub fn len(&self) -> (r: usize)
        ensures
            r == self.keys().len(),
    {
        self.vec_deque.len()
    }

    /// Number of entries held, tombstoned ones included.
    pub fn entry_count(&self) -> (r: usize)
        ensures
            r == self.entries().len(),
    {
        self.hash.len()
    }
}

} // verus!
