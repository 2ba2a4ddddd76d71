//! A weighted FIFO queue that counts the hits on each entry and hands evicted
//! entries back whole.
use std::collections::HashMap;
use std::collections::VecDeque;
use vstd::prelude::*;
use crate::accounting::{
    Weighted,
    total,
    lemma_total_agree,
    lemma_total_other,
    lemma_total_push,
    lemma_total_update,
    lemma_skip_front,
    lemma_push_back,
    reported,
    compact,
};

verus! {

broadcast use vstd::std_specs::hash::group_hash_axioms;

/// What the queue keeps for a key.
pub struct Entry<V> {
    pub value: V,
    pub weight: usize,
    /// Number of hits, saturating at `usize::MAX`.
    pub freq: usize,
    /// Tombstone: the key was removed but still holds its place in the order.
    pub removed: bool,
}

impl<V> Weighted for Entry<V> {
    open spec fn weight_of(&self) -> nat {
        self.weight as nat
    }
}

#[derive(Debug)]
pub enum FIFOError {
    BeyondCapacity,
}

/// An entry evicted from the queue.
#[derive(Debug, PartialEq)]
pub struct Removed<V> {
    pub key: u64,
    pub value: V,
    pub weight: usize,
    pub freq: usize,
}

/// A weighted FIFO queue: keys leave in the order they came in once the
/// total weight would exceed the capacity.
pub struct FIFO<V> {
    hash: HashMap<u64, Entry<V>>,
    vec_deque: VecDeque<u64>,
    used_capacity: usize,
    capacity: usize,
}

/// The value stored for `k`, unless it is absent or tombstoned.
pub open spec fn lookup<V>(m: Map<u64, Entry<V>>, k: u64) -> Option<V> {
    if m.contains_key(k) && !m[k].removed {
        Some(m[k].value)
    } else {
        None
    }
}

/// The entries after a hit on `k`: a live entry counts one more hit.
pub open spec fn touched<V>(m: Map<u64, Entry<V>>, k: u64) -> Map<u64, Entry<V>> {
    if m.contains_key(k) && !m[k].removed {
        m.insert(
            k,
            Entry {
                value: m[k].value,
                weight: m[k].weight,
                freq: if m[k].freq < usize::MAX { (m[k].freq + 1) as usize } else { m[k].freq },
                removed: false,
            },
        )
    } else {
        m
    }
}

/// The entries after `k` is tombstoned.
pub open spec fn tombstone<V>(m: Map<u64, Entry<V>>, k: u64) -> Map<u64, Entry<V>> {
    if m.contains_key(k) {
        m.insert(
            k,
            Entry { value: m[k].value, weight: m[k].weight, freq: m[k].freq, removed: true },
        )
    } else {
        m
    }
}

/// Eviction from the front until `w` more fits: tombstoned keys are reaped
/// silently, the key `ignore` goes to the back, any other key is evicted and
/// reported. Yields the order, the entries and the used weight after it, and
/// the evicted entries, oldest first.
pub open spec fn free_spec<V>(
    order: Seq<u64>,
    m: Map<u64, Entry<V>>,
    used: int,
    cap: int,
    w: int,
    ignore: Option<u64>,
) -> (Seq<u64>, Map<u64, Entry<V>>, int, Seq<Removed<V>>)
    decreases order.len(), (if order.len() > 0 && Some(order[0]) == ignore { 1int } else { 0int }),
{
    if used + w <= cap || order.len() == 0 {
        (order, m, used, Seq::empty())
    } else {
        let k = order[0];
        let e = m[k];
        if e.removed {
            free_spec(order.skip(1), m.remove(k), used - e.weight, cap, w, ignore)
        } else if Some(k) == ignore {
            if order.len() > 1 && order[1] != k {
                free_spec(order.skip(1).push(k), m, used, cap, w, ignore)
            } else {
                (order, m, used, Seq::empty())
            }
        } else {
            let r = free_spec(order.skip(1), m.remove(k), used - e.weight, cap, w, ignore);
            (
                r.0,
                r.1,
                r.2,
                seq![Removed { key: k, value: e.value, weight: e.weight, freq: e.freq }] + r.3,
            )
        }
    }
}

/// Each key of the order has one entry and each entry one place in the
/// order, and `used` is the total weight of the entries.
pub open spec fn consistent<V>(order: Seq<u64>, m: Map<u64, Entry<V>>, used: int) -> bool {
    &&& order.no_duplicates()
    &&& forall|k: u64| m.contains_key(k) <==> order.contains(k)
    &&& used == total(order, m)
}

/// The queue's well-formedness over its order, entries, used weight and
/// capacity.
pub open spec fn well_formed<V>(order: Seq<u64>, m: Map<u64, Entry<V>>, used: int, cap: int) -> bool {
    &&& consistent(order, m, used)
    &&& used <= cap
    &&& forall|k: u64| m.contains_key(k) ==> m[k].weight <= cap
}

/// `x` was a live entry of `m`, is reported as stored there, and is absent
/// from `after`.
pub open spec fn evicted_from<V>(x: Removed<V>, m: Map<u64, Entry<V>>, after: Map<u64, Entry<V>>) -> bool {
    &&& m.contains_key(x.key)
    &&& !m[x.key].removed
    &&& !after.contains_key(x.key)
    &&& x.value == m[x.key].value
    &&& x.weight == m[x.key].weight
    &&& x.freq == m[x.key].freq
}

/// One step of eviction at the front keeps the order and the entries
/// consistent, whether the front key leaves or goes to the back.
pub proof fn lemma_step<V>(order: Seq<u64>, m: Map<u64, Entry<V>>, used: int)
    requires
        consistent(order, m, used),
        order.len() > 0,
    ensures
        ({
            let k = order[0];
            &&& m.contains_key(k)
            &&& consistent(order.skip(1), m.remove(k), used - m[k].weight)
            &&& consistent(order.skip(1).push(k), m, used)
        }),
{
    let k = order[0];
    lemma_skip_front(order);
    assert(order.contains(k));
    lemma_total_other(order.skip(1), m, k, m[k]);
    lemma_push_back(order.skip(1), k);
    lemma_total_push(order.skip(1), m, k);
    assert forall|x: u64| m.remove(k).contains_key(x) <==> order.skip(1).contains(x) by {
        assert(order.contains(x) <==> (x == k || order.skip(1).contains(x)));
    }
    assert forall|x: u64| m.contains_key(x) <==> order.skip(1).push(k).contains(x) by {
        assert(order.contains(x) <==> (x == k || order.skip(1).contains(x)));
    }
    assert(total(order, m) == m[k].weight_of() + total(order.skip(1), m));
    assert(total(order.skip(1), m.remove(k)) == total(order.skip(1), m));
    assert(consistent(order.skip(1), m.remove(k), used - m[k].weight));
    assert(consistent(order.skip(1).push(k), m, used));
}

proof fn lemma_removed_front<V>(m: Map<u64, Entry<V>>, k: u64, after: Map<u64, Entry<V>>)
    requires
        forall|x: u64| #[trigger] after.contains_key(x) ==> m.remove(k).contains_key(x) && after[x] == m.remove(k)[x],
    ensures
        forall|x: u64| #[trigger] after.contains_key(x) ==> m.contains_key(x) && after[x] == m[x],
        !after.contains_key(k),
        forall|x: u64| x != k && #[trigger] m.contains_key(x) ==> m.remove(k).contains_key(x),
{
    assert forall|x: u64| #[trigger] after.contains_key(x) implies m.contains_key(x) && after[x] == m[x] by {
        assert(m.remove(k).contains_key(x));
    }
}

/// Eviction leaves every kept entry as it was and keeps a live `ignore`
/// key; each evicted entry was live, is reported as stored, and is gone.
pub proof fn lemma_free_keeps<V>(
    order: Seq<u64>,
    m: Map<u64, Entry<V>>,
    used: int,
    cap: int,
    w: int,
    ignore: Option<u64>,
)
    requires
        consistent(order, m, used),
    ensures
        ({
            let r = free_spec(order, m, used, cap, w, ignore);
            &&& forall|k: u64| #[trigger] r.1.contains_key(k) ==> m.contains_key(k) && r.1[k] == m[k]
            &&& forall|k: u64|
                ignore == Some(k) && #[trigger] m.contains_key(k) && !m[k].removed ==> r.1.contains_key(k)
            &&& forall|i: int| 0 <= i < r.3.len() ==> evicted_from(#[trigger] r.3[i], m, r.1)
        }),
    decreases order.len(), (if order.len() > 0 && Some(order[0]) == ignore { 1int } else { 0int }),
{
    if used + w <= cap || order.len() == 0 {
    } else {
        let k = order[0];
        let e = m[k];
        lemma_step(order, m, used);
        if e.removed {
            lemma_free_keeps(order.skip(1), m.remove(k), used - e.weight, cap, w, ignore);
            let r = free_spec(order.skip(1), m.remove(k), used - e.weight, cap, w, ignore);
            lemma_removed_front(m, k, r.1);
            assert forall|i: int| 0 <= i < r.3.len() implies evicted_from(#[trigger] r.3[i], m, r.1) by {
                assert(evicted_from(r.3[i], m.remove(k), r.1));
                assert(m.remove(k).contains_key(r.3[i].key));
            }
        } else if Some(k) == ignore {
            if order.len() > 1 && order[1] != k {
                lemma_free_keeps(order.skip(1).push(k), m, used, cap, w, ignore);
            }
        } else {
            lemma_free_keeps(order.skip(1), m.remove(k), used - e.weight, cap, w, ignore);
            let r = free_spec(order.skip(1), m.remove(k), used - e.weight, cap, w, ignore);
            let x0 = Removed { key: k, value: e.value, weight: e.weight, freq: e.freq };
            let all = seq![x0] + r.3;
            lemma_removed_front(m, k, r.1);
            assert forall|i: int| 0 <= i < all.len() implies evicted_from(#[trigger] all[i], m, r.1) by {
                if i > 0 {
                    assert(all[i] == r.3[i - 1]);
                    let y = r.3[i - 1];
                    assert(m.remove(k).contains_key(y.key));
                    assert(!m.remove(k)[y.key].removed);
                    assert(y.key != k);
                    assert(m.remove(k)[y.key] == m[y.key]);
                    assert(!r.1.contains_key(y.key));
                    assert(evicted_from(y, m.remove(k), r.1));
                } else {
                    assert(all[0] == x0);
                    assert(!m.remove(k).contains_key(k));
                    assert(!r.1.contains_key(k));
                }
            }
        }
    }
}

/// The state after `put(k, v, w)` with `w` within the capacity: the order,
/// the entries, the used weight, and the evicted entries. A present key
/// (live or tombstoned) is revived with the new value and keeps its hits; if
/// it grows, room is made with the key itself sent to the back rather than
/// evicted. A fresh key is appended with no hits once there is room.
pub open spec fn put_spec<V>(
    order: Seq<u64>,
    m: Map<u64, Entry<V>>,
    used: int,
    cap: int,
    k: u64,
    v: V,
    w: int,
) -> (Seq<u64>, Map<u64, Entry<V>>, int, Seq<Removed<V>>) {
    if m.contains_key(k) {
        let e = m[k];
        let revived = m.insert(
            k,
            Entry { value: v, weight: e.weight, freq: e.freq, removed: false },
        );
        let grown = Entry { value: v, weight: w as usize, freq: e.freq, removed: false };
        if w > e.weight {
            let r = free_spec(order, revived, used, cap, w - e.weight, Some(k));
            (r.0, r.1.insert(k, grown), r.2 + (w - e.weight), r.3)
        } else {
            (order, m.insert(k, grown), used - (e.weight - w), Seq::empty())
        }
    } else {
        let r = free_spec(order, m, used, cap, w, None);
        (
            r.0.push(k),
            r.1.insert(k, Entry { value: v, weight: w as usize, freq: 0, removed: false }),
            r.2 + w,
            r.3,
        )
    }
}

/// A put within the capacity leaves the key live with the value just put.
pub proof fn lemma_put_then_get<V>(
    order: Seq<u64>,
    m: Map<u64, Entry<V>>,
    used: int,
    cap: int,
    k: u64,
    v: V,
    w: int,
)
    requires
        well_formed(order, m, used, cap),
        0 <= w <= cap,
    ensures
        lookup(put_spec(order, m, used, cap, k, v, w).1, k) == Some(v),
{
}

/// After a key is removed, a lookup of it finds nothing.
pub proof fn lemma_remove_then_get<V>(m: Map<u64, Entry<V>>, k: u64)
    ensures
        lookup(tombstone(m, k), k) is None,
{
}

/// Removing a key twice is removing it once.
pub proof fn lemma_remove_twice<V>(m: Map<u64, Entry<V>>, k: u64)
    ensures
        tombstone(tombstone(m, k), k) == tombstone(m, k),
{
    assert(tombstone(tombstone(m, k), k) =~= tombstone(m, k));
}

/// The hit count of a live key never goes down on a hit, and a hit on a key
/// leaves the counts of the others alone.
pub proof fn lemma_freq_monotone<V>(m: Map<u64, Entry<V>>, k: u64, x: u64)
    requires
        m.contains_key(x),
    ensures
        touched(m, k).contains_key(x),
        touched(m, k)[x].freq >= m[x].freq,
        x != k ==> touched(m, k)[x] == m[x],
{
}

/// Putting the same key, value and weight twice in a row: the second put
/// leaves the used weight as the first left it, and evicts nothing.
pub proof fn lemma_put_twice<V>(
    order: Seq<u64>,
    m: Map<u64, Entry<V>>,
    used: int,
    cap: int,
    k: u64,
    v: V,
    w: usize,
)
    requires
        well_formed(order, m, used, cap),
        w <= cap,
    ensures
        ({
            let s1 = put_spec(order, m, used, cap, k, v, w as int);
            let s2 = put_spec(s1.0, s1.1, s1.2, cap, k, v, w as int);
            &&& s2.2 == s1.2
            &&& s2.3.len() == 0
        }),
{
}

/// Eviction never reports a tombstoned entry: every reported entry was live.
pub proof fn lemma_victims_live<V>(
    order: Seq<u64>,
    m: Map<u64, Entry<V>>,
    used: int,
    cap: int,
    w: int,
    ignore: Option<u64>,
)
    requires
        consistent(order, m, used),
    ensures
        ({
            let victims = free_spec(order, m, used, cap, w, ignore).3;
            forall|i: int|
                0 <= i < victims.len() ==> m.contains_key(#[trigger] victims[i].key)
                    && !m[victims[i].key].removed
        }),
{
    lemma_free_keeps(order, m, used, cap, w, ignore);
}

/// A put adds no key but the one it puts; each entry it evicts was live, is
/// not the key it puts, and does not stay.
pub proof fn lemma_put_keys<V>(
    order: Seq<u64>,
    m: Map<u64, Entry<V>>,
    used: int,
    cap: int,
    k: u64,
    v: V,
    w: usize,
)
    requires
        well_formed(order, m, used, cap),
        w <= cap,
    ensures
        ({
            let s = put_spec(order, m, used, cap, k, v, w as int);
            &&& forall|x: u64| #[trigger] s.1.contains_key(x) ==> m.contains_key(x) || x == k
            &&& forall|i: int| 0 <= i < s.3.len() ==> !s.1.contains_key(#[trigger] s.3[i].key)
            &&& forall|i: int|
                0 <= i < s.3.len() ==> #[trigger] s.3[i].key != k && lookup(m, s.3[i].key) is Some
        }),
{
    let s = put_spec(order, m, used, cap, k, v, w as int);
    if m.contains_key(k) {
        let e = m[k];
        if w > e.weight {
            let revived = m.insert(k, Entry { value: v, weight: e.weight, freq: e.freq, removed: false });
            assert(consistent(order, revived, used)) by {
                assert(order.contains(k));
                lemma_total_agree(order, revived, m);
                assert forall|x: u64| revived.contains_key(x) <==> order.contains(x) by {}
            }
            lemma_free_keeps(order, revived, used, cap, w - e.weight, Some(k));
            let r = free_spec(order, revived, used, cap, w - e.weight, Some(k));
            assert(revived.contains_key(k) && !revived[k].removed);
            assert forall|i: int| 0 <= i < s.3.len() implies !s.1.contains_key(#[trigger] s.3[i].key) by {
                assert(evicted_from(r.3[i], revived, r.1));
                assert(r.1.contains_key(k));
            }
            assert forall|i: int| 0 <= i < s.3.len() implies #[trigger] s.3[i].key != k && lookup(m, s.3[i].key) is Some by {
                assert(evicted_from(r.3[i], revived, r.1));
                assert(r.1.contains_key(k));
            }
        }
    } else {
        lemma_free_keeps(order, m, used, cap, w as int, None);
        let r = free_spec(order, m, used, cap, w as int, None);
        assert forall|i: int| 0 <= i < s.3.len() implies !s.1.contains_key(#[trigger] s.3[i].key) by {
            assert(evicted_from(r.3[i], m, r.1));
        }
        assert forall|i: int| 0 <= i < s.3.len() implies #[trigger] s.3[i].key != k && lookup(m, s.3[i].key) is Some by {
            assert(evicted_from(r.3[i], m, r.1));
        }
    }
}

/// No entry of `victims` is under the key `j`.
pub open spec fn spares<V>(victims: Seq<Removed<V>>, j: u64) -> bool {
    forall|i: int| 0 <= i < victims.len() ==> (#[trigger] victims[i]).key != j
}

/// A live key that eviction does not report stays.
pub proof fn lemma_free_spares<V>(
    order: Seq<u64>,
    m: Map<u64, Entry<V>>,
    used: int,
    cap: int,
    w: int,
    ignore: Option<u64>,
    j: u64,
)
    requires
        consistent(order, m, used),
        m.contains_key(j),
        !m[j].removed,
        spares(free_spec(order, m, used, cap, w, ignore).3, j),
    ensures
        free_spec(order, m, used, cap, w, ignore).1.contains_key(j),
    decreases order.len(), (if order.len() > 0 && Some(order[0]) == ignore { 1int } else { 0int }),
{
    if used + w <= cap || order.len() == 0 {
    } else {
        let k = order[0];
        let e = m[k];
        lemma_step(order, m, used);
        if e.removed {
            lemma_free_spares(order.skip(1), m.remove(k), used - e.weight, cap, w, ignore, j);
        } else if Some(k) == ignore {
            if order.len() > 1 && order[1] != k {
                lemma_free_spares(order.skip(1).push(k), m, used, cap, w, ignore, j);
            }
        } else {
            let all = free_spec(order, m, used, cap, w, ignore).3;
            let r = free_spec(order.skip(1), m.remove(k), used - e.weight, cap, w, ignore);
            assert(all[0].key == k);
            assert forall|i: int| 0 <= i < r.3.len() implies (#[trigger] r.3[i]).key != j by {
                assert(all[i + 1] == r.3[i]);
            }
            assert(spares(r.3, j));
            lemma_free_spares(order.skip(1), m.remove(k), used - e.weight, cap, w, ignore, j);
        }
    }
}

/// A value stays through a call on another key that does not evict it: a
/// hit, a removal, or a put whose evicted entries leave it out.
pub proof fn lemma_value_stays<V>(
    order: Seq<u64>,
    m: Map<u64, Entry<V>>,
    used: int,
    cap: int,
    k: u64,
    v: V,
    w: usize,
    j: u64,
)
    requires
        well_formed(order, m, used, cap),
        w <= cap,
        j != k,
    ensures
        lookup(touched(m, k), j) == lookup(m, j),
        lookup(tombstone(m, k), j) == lookup(m, j),
        ({
            let s = put_spec(order, m, used, cap, k, v, w as int);
            spares(s.3, j) ==> lookup(s.1, j) == lookup(m, j)
        }),
{
    let s = put_spec(order, m, used, cap, k, v, w as int);
    if lookup(m, j) is Some && spares(s.3, j) {
        if m.contains_key(k) {
            let e = m[k];
            if w > e.weight {
                let revived = m.insert(k, Entry { value: v, weight: e.weight, freq: e.freq, removed: false });
                assert(consistent(order, revived, used)) by {
                    assert(order.contains(k));
                    lemma_total_agree(order, revived, m);
                    assert forall|x: u64| revived.contains_key(x) <==> order.contains(x) by {}
                }
                lemma_free_keeps(order, revived, used, cap, w - e.weight, Some(k));
                lemma_free_spares(order, revived, used, cap, w - e.weight, Some(k), j);
            }
        } else {
            lemma_free_keeps(order, m, used, cap, w as int, None);
            lemma_free_spares(order, m, used, cap, w as int, None, j);
        }
    }
    if lookup(m, j) is None {
        lemma_put_keys(order, m, used, cap, k, v, w);
        if m.contains_key(k) {
            let e = m[k];
            if w > e.weight {
                let revived = m.insert(k, Entry { value: v, weight: e.weight, freq: e.freq, removed: false });
                assert(consistent(order, revived, used)) by {
                    assert(order.contains(k));
                    lemma_total_agree(order, revived, m);
                    assert forall|x: u64| revived.contains_key(x) <==> order.contains(x) by {}
                }
                lemma_free_keeps(order, revived, used, cap, w - e.weight, Some(k));
            }
        } else {
            lemma_free_keeps(order, m, used, cap, w as int, None);
        }
    }
}

impl<V> FIFO<V> {
    /// The keys in queue order, oldest first, tombstoned ones included.
    pub closed spec fn keys(&self) -> Seq<u64> {
        self.vec_deque@
    }

    /// The entry of each key in the queue.
    pub closed spec fn entries(&self) -> Map<u64, Entry<V>> {
        self.hash@
    }

    /// The total weight of the entries, tombstoned ones included.
    pub closed spec fn used(&self) -> int {
        self.used_capacity as int
    }

    pub closed spec fn cap(&self) -> int {
        self.capacity as int
    }

    pub open spec fn wf(&self) -> bool {
        well_formed(self.keys(), self.entries(), self.used(), self.cap())
    }

    /// Order, entries and used weight together.
    pub open spec fn state(&self) -> (Seq<u64>, Map<u64, Entry<V>>, int) {
        (self.keys(), self.entries(), self.used())
    }

    /// An empty queue of the given capacity.
    pub fn new(capacity: usize) -> (r: Self)
        ensures
            r.wf(),
            r.cap() == capacity,
            r.keys() == Seq::<u64>::empty(),
            r.entries() == Map::<u64, Entry<V>>::empty(),
            r.used() == 0,
    {
        FIFO { hash: HashMap::new(), vec_deque: VecDeque::new(), used_capacity: 0, capacity }
    }

    /// The value of a live key, counting a hit on it; `None` for an absent or
    /// tombstoned key, which is left as it is.
    pub fn get(&mut self, key: u64) -> (r: Option<&V>)
        requires
            old(self).wf(),
        ensures
            final(self).wf(),
            final(self).cap() == old(self).cap(),
            final(self).keys() == old(self).keys(),
            final(self).used() == old(self).used(),
            final(self).entries() == touched(old(self).entries(), key),
            match r {
                Some(v) => lookup(old(self).entries(), key) == Some(*v),
                None => lookup(old(self).entries(), key) is None,
            },
    {
        let live = match self.hash.get(&key) {
            Some(e) => !e.removed,
            None => false,
        };
        if !live {
            return None;
        }
        let e = self.hash.remove(&key).unwrap();
        let freq = if e.freq < usize::MAX {
            e.freq + 1
        } else {
            e.freq
        };
        let ghost m = old(self).hash@;
        self.hash.insert(key, Entry { value: e.value, weight: e.weight, freq, removed: false });
        proof {
            assert(self.hash@ =~= touched(m, key));
            lemma_total_agree(self.keys(), self.hash@, m);
        }
        match self.hash.get(&key) {
            Some(e) => Some(&e.value),
            None => None,
        }
    }

    /// Evicts from the front until `weight` more fits, as `free_spec` says:
    /// tombstoned keys are reaped silently, `ignore_key` goes to the back, and
    /// every other key leaves and is reported (`None` when none is).
    pub fn free(&mut self, weight: usize, ignore_key: Option<u64>) -> (r: Option<Vec<Removed<V>>>)
        requires
            old(self).wf(),
            match ignore_key {
                None => weight <= old(self).cap(),
                Some(k) => old(self).entries().contains_key(k) && !old(self).entries()[k].removed
                    && old(self).entries()[k].weight + weight <= old(self).cap(),
            },
        ensures
            final(self).wf(),
            final(self).cap() == old(self).cap(),
            final(self).used() + weight <= final(self).cap(),
            ({
                let s = free_spec(
                    old(self).keys(),
                    old(self).entries(),
                    old(self).used(),
                    old(self).cap(),
                    weight as int,
                    ignore_key,
                );
                &&& final(self).state() == (s.0, s.1, s.2)
                &&& reported(r) == s.3
                &&& compact(r)
            }),
    {
        let ghost goal = free_spec(
            self.keys(),
            self.entries(),
            self.used(),
            self.cap(),
            weight as int,
            ignore_key,
        );
        let ghost cap = self.cap();
        let mut removed_keys: Vec<Removed<V>> = Vec::new();
        while weight > self.capacity - self.used_capacity
            invariant
                self.wf(),
                self.cap() == cap,
                match ignore_key {
                    None => weight <= cap,
                    Some(k) => self.entries().contains_key(k) && !self.entries()[k].removed
                        && self.entries()[k].weight + weight <= cap,
                },
                ({
                    let s = free_spec(
                        self.keys(),
                        self.entries(),
                        self.used(),
                        cap,
                        weight as int,
                        ignore_key,
                    );
                    &&& (s.0, s.1, s.2) == (goal.0, goal.1, goal.2)
                    &&& removed_keys@ + s.3 == goal.3
                }),
            decreases
                self.keys().len(),
                (if self.keys().len() > 0 && Some(self.keys()[0]) == ignore_key {
                    1int
                } else {
                    0int
                }),
        {
            let ghost o = self.vec_deque@;
            let ghost m = self.hash@;
            let ghost u = self.used();
            proof {
                if o.len() == 0 {
                    assert(total(o, m) == 0);
                    match ignore_key {
                        Some(k) => {
                            assert(m.contains_key(k));
                            assert(o.contains(k));
                        },
                        None => {},
                    }
                }
                lemma_step(o, m, u);
            }
            let key = self.vec_deque.pop_front().unwrap();
            let (tombstoned, w) = match self.hash.get(&key) {
                Some(e) => (e.removed, e.weight),
                None => (false, 0),
            };
            let ignored = match ignore_key {
                Some(k) => k == key,
                None => false,
            };
            if tombstoned {
                self.hash.remove(&key);
                self.used_capacity = self.used_capacity - w;
            } else if ignored {
                proof {
                    if o.len() == 1 {
                        assert(total(o.skip(1), m) == 0);
                        assert(u == m[key].weight);
                    } else {
                        lemma_skip_front(o);
                        assert(o.skip(1)[0] == o[1]);
                        assert(o[1] != key);
                    }
                }
                self.vec_deque.push_back(key);
                proof {
                    assert(self.vec_deque@[0] == o[1]);
                }
            } else {
                let e = self.hash.remove(&key).unwrap();
                self.used_capacity = self.used_capacity - e.weight;
                let ghost x = Removed { key, value: e.value, weight: e.weight, freq: e.freq };
                let ghost before = removed_keys@;
                removed_keys.push(Removed { key, value: e.value, weight: e.weight, freq: e.freq });
                proof {
                    let rest = free_spec(self.keys(), self.entries(), self.used(), cap, weight as int, ignore_key).3;
                    assert(before.push(x) + rest =~= before + (seq![x] + rest));
                }
            }
            proof {
                assert(self.vec_deque@ =~= if ignored && !tombstoned { o.skip(1).push(key) } else { o.skip(1) });
            }
        }
        proof {
            assert(goal.3 =~= removed_keys@);
        }
        if removed_keys.len() == 0 {
            None
        } else {
            Some(removed_keys)
        }
    }

    fn update(&mut self, key: u64, value: V, weight: usize) -> (r: Option<Vec<Removed<V>>>)
        requires
            old(self).wf(),
            old(self).entries().contains_key(key),
            weight <= old(self).cap(),
        ensures
            final(self).wf(),
            final(self).cap() == old(self).cap(),
            ({
                let s = put_spec(
                    old(self).keys(),
                    old(self).entries(),
                    old(self).used(),
                    old(self).cap(),
                    key,
                    value,
                    weight as int,
                );
                &&& final(self).state() == (s.0, s.1, s.2)
                &&& reported(r) == s.3
                &&& compact(r)
            }),
    {
        let ghost m0 = self.hash@;
        let e = self.hash.remove(&key).unwrap();
        let old_weight = e.weight;
        let freq = e.freq;
        self.hash.insert(key, Entry { value, weight: old_weight, freq, removed: false });
        proof {
            assert(self.hash@ =~= m0.insert(key, Entry { value, weight: old_weight, freq, removed: false }));
            lemma_total_agree(self.keys(), self.hash@, m0);
            assert(self.keys().contains(key));
        }
        if weight > old_weight {
            let needed_space = weight - old_weight;
            let ghost m1 = self.hash@;
            let removed_keys = self.free(needed_space, Some(key));
            proof {
                lemma_free_keeps(old(self).keys(), m1, old(self).used(), self.cap(), needed_space as int, Some(key));
            }
            let ghost m2 = self.hash@;
            let e = self.hash.remove(&key).unwrap();
            self.hash.insert(key, Entry { value: e.value, weight, freq: e.freq, removed: false });
            self.used_capacity = self.used_capacity + needed_space;
            proof {
                let grown = Entry { value, weight, freq, removed: false };
                assert(self.hash@ =~= m2.insert(key, grown));
                assert(self.keys().contains(key));
                lemma_total_update(self.keys(), m2, key, grown);
            }
            removed_keys
        } else {
            let ghost m1 = self.hash@;
            let e = self.hash.remove(&key).unwrap();
            self.hash.insert(key, Entry { value: e.value, weight, freq: e.freq, removed: false });
            proof {
                let grown = Entry { value, weight, freq, removed: false };
                assert(self.hash@ =~= m0.insert(key, grown));
                assert(self.hash@ =~= m1.insert(key, grown));
                lemma_total_update(self.keys(), m1, key, grown);
            }
            self.used_capacity = self.used_capacity - (old_weight - weight);
            None
        }
    }

    fn insert(&mut self, key: u64, value: V, weight: usize) -> (r: Option<Vec<Removed<V>>>)
        requires
            old(self).wf(),
            !old(self).entries().contains_key(key),
            weight <= old(self).cap(),
        ensures
            final(self).wf(),
            final(self).cap() == old(self).cap(),
            ({
                let s = put_spec(
                    old(self).keys(),
                    old(self).entries(),
                    old(self).used(),
                    old(self).cap(),
                    key,
                    value,
                    weight as int,
                );
                &&& final(self).state() == (s.0, s.1, s.2)
                &&& reported(r) == s.3
                &&& compact(r)
            }),
    {
        proof {
            lemma_free_keeps(self.keys(), self.entries(), self.used(), self.cap(), weight as int, None);
        }
        let removed_keys = self.free(weight, None);
        let ghost o = self.vec_deque@;
        let ghost m = self.hash@;
        self.used_capacity = self.used_capacity + weight;
        self.hash.insert(key, Entry { value, weight, freq: 0, removed: false });
        self.vec_deque.push_back(key);
        proof {
            let e = Entry { value, weight, freq: 0, removed: false };
            assert(!o.contains(key));
            lemma_push_back(o, key);
            lemma_total_other(o, m, key, e);
            lemma_total_push(o, m.insert(key, e), key);
            assert forall|x: u64| self.hash@.contains_key(x) <==> self.vec_deque@.contains(x) by {
                assert(o.push(key).contains(x) <==> (x == key || o.contains(x)));
            }
        }
        removed_keys
    }

    /// Stores `value` under `key` with the given weight, evicting from the
    /// front as needed; the result lists the evicted entries, oldest first.
    /// A weight beyond the capacity is refused and changes nothing.
    pub fn put(&mut self, key: u64, value: V, weight: usize) -> (r: Result<
        Option<Vec<Removed<V>>>,
        FIFOError,
    >)
        requires
            old(self).wf(),
        ensures
            final(self).wf(),
            final(self).cap() == old(self).cap(),
            weight > old(self).cap() ==> r is Err && final(self).state() == old(self).state(),
            weight <= old(self).cap() ==> match r {
                Ok(victims) => {
                    let s = put_spec(
                        old(self).keys(),
                        old(self).entries(),
                        old(self).used(),
                        old(self).cap(),
                        key,
                        value,
                        weight as int,
                    );
                    &&& final(self).state() == (s.0, s.1, s.2)
                    &&& reported(victims) == s.3
                    &&& compact(victims)
                },
                Err(_) => false,
            },
    {
        if weight > self.capacity {
            return Err(FIFOError::BeyondCapacity);
        }
        if self.hash.contains_key(&key) {
            Ok(self.update(key, value, weight))
        } else {
            Ok(self.insert(key, value, weight))
        }
    }

    /// Tombstones `key` if it is present; its weight stays counted until
    /// eviction reaps it.
    pub fn remove(&mut self, key: u64)
        requires
            old(self).wf(),
        ensures
            final(self).wf(),
            final(self).cap() == old(self).cap(),
            final(self).keys() == old(self).keys(),
            final(self).used() == old(self).used(),
            final(self).entries() == tombstone(old(self).entries(), key),
    {
        if self.hash.contains_key(&key) {
            let ghost m = self.hash@;
            let e = self.hash.remove(&key).unwrap();
            self.hash.insert(
                key,
                Entry { value: e.value, weight: e.weight, freq: e.freq, removed: true },
            );
            proof {
                assert(self.hash@ =~= tombstone(m, key));
                lemma_total_agree(self.keys(), self.hash@, m);
            }
        }
    }
    /// The weight in use, tombstoned entries included.
    pub fn used_capacity(&self) -> (r: usize)
        ensures
            r == self.used(),
    {
        self.used_capacity
    }

    /// The capacity the queue was made with.
    pub fn capacity(&self) -> (r: usize)
        ensures
            r == self.cap(),
    {
        self.capacity
    }

    /// Number of keys in the queue's order, tombstoned ones included.
    pub fn len(&self) -> (r: usize)
        ensures
            r == self.keys().len(),
    {
        self.vec_deque.len()
    }

    /// Number of entries held, tombstoned ones included.
    pub fn entry_count(&self) -> (r: usize)
        ensures
            r == self.entries().len(),
    {
        self.hash.len()
    }
}

} // verus!
