//! A weighted FIFO queue with a second chance: an entry that was hit since it
//! last reached the front goes to the back instead of being evicted.
use std::collections::HashMap;
use std::collections::VecDeque;
use vstd::prelude::*;
use crate::accounting::{
    Weighted,
    total,
    lemma_total_agree,
    lemma_total_other,
    lemma_total_push,
    lemma_total_update,
    lemma_skip_front,
    lemma_push_back,
    reported,
    compact,
};

verus! {

broadcast use vstd::std_specs::hash::group_hash_axioms;

/// What the queue keeps for a key.
pub struct Entry<V> {
    pub value: V,
    pub weight: usize,
    /// Whether the entry was hit since it last reached the front.
    pub hit: bool,
    /// Tombstone: the key was removed but still holds its place in the order.
    pub removed: bool,
}

impl<V> Weighted for Entry<V> {
    open spec fn weight_of(&self) -> nat {
        self.weight as nat
    }
}

#[derive(Debug)]
pub enum FIFOReinsertionError {
    BeyondCapacity,
}

/// A weighted FIFO queue with reinsertion: keys leave in the order they came
/// in once the total weight would exceed the capacity, unless they were hit.
pub struct FIFOReinsertion<V> {
    hash: HashMap<u64, Entry<V>>,
    vec_deque: VecDeque<u64>,
    used_capacity: usize,
    capacity: usize,
}

/// The value stored for `k`, unless it is absent or tombstoned.
pub open spec fn lookup<V>(m: Map<u64, Entry<V>>, k: u64) -> Option<V> {
    if m.contains_key(k) && !m[k].removed {
        Some(m[k].value)
    } else {
        None
    }
}

/// The entries after a hit on `k`: a live entry is marked as hit.
pub open spec fn touched<V>(m: Map<u64, Entry<V>>, k: u64) -> Map<u64, Entry<V>> {
    if m.contains_key(k) && !m[k].removed {
        m.insert(k, Entry { value: m[k].value, weight: m[k].weight, hit: true, removed: false })
    } else {
        m
    }
}

/// `e` with its hit mark cleared.
pub open spec fn cleared<V>(e: Entry<V>) -> Entry<V> {
    Entry { value: e.value, weight: e.weight, hit: false, removed: e.removed }
}

/// Number of keys of `s` whose entry in `m` is marked as hit.
pub open spec fn hits<V>(s: Seq<u64>, m: Map<u64, Entry<V>>) -> nat
    decreases s.len(),
{
    if s.len() == 0 {
        0
    } else {
        (if m[s[0]].hit { 1nat } else { 0nat }) + hits(s.skip(1), m)
    }
}

pub proof fn lemma_hits_push<V>(s: Seq<u64>, m: Map<u64, Entry<V>>, k: u64)
    ensures
        hits(s.push(k), m) == hits(s, m) + (if m[k].hit { 1nat } else { 0nat }),
    decreases s.len(),
{
    if s.len() == 0 {
        assert(s.push(k).skip(1) =~= Seq::<u64>::empty());
        assert(hits(s.push(k).skip(1), m) == 0);
        assert(s.push(k)[0] == k);
    } else {
        assert(s.push(k).skip(1) =~= s.skip(1).push(k));
        assert(s.push(k)[0] == s[0]);
        lemma_hits_push(s.skip(1), m, k);
    }
}

pub proof fn lemma_hits_clear<V>(s: Seq<u64>, m: Map<u64, Entry<V>>, k: u64)
    ensures
        hits(s, m.insert(k, cleared(m[k]))) <= hits(s, m),
    decreases s.len(),
{
    if s.len() > 0 {
        lemma_hits_clear(s.skip(1), m, k);
    }
}

/// The entries after `k` is tombstoned.
pub open spec fn tombstone<V>(m: Map<u64, Entry<V>>, k: u64) -> Map<u64, Entry<V>> {
    if m.contains_key(k) {
        m.insert(
            k,
            Entry { value: m[k].value, weight: m[k].weight, hit: m[k].hit, removed: true },
        )
    } else {
        m
    }
}

/// Eviction from the front until `w` more fits: tombstoned keys are reaped
/// silently, the key `ignore` goes to the back, a hit key loses its mark and
/// goes to the back, any other key is evicted and reported. Yields the order,
/// the entries and the used weight after it, and the evicted keys, oldest
/// first.
pub open spec fn free_spec<V>(
    order: Seq<u64>,
    m: Map<u64, Entry<V>>,
    used: int,
    cap: int,
    w: int,
    ignore: Option<u64>,
) -> (Seq<u64>, Map<u64, Entry<V>>, int, Seq<u64>)
    decreases
        order.len(),
        hits(order, m),
        (if order.len() > 0 && Some(order[0]) == ignore { 1int } else { 0int }),
{
    if used + w <= cap || order.len() == 0 {
        (order, m, used, Seq::empty())
    } else {
        let k = order[0];
        let e = m[k];
        if e.removed {
            free_spec(order.skip(1), m.remove(k), used - e.weight, cap, w, ignore)
        } else if Some(k) == ignore {
            if order.len() > 1 && order[1] != k {
                proof {
                    lemma_hits_push(order.skip(1), m, k);
                }
                free_spec(order.skip(1).push(k), m, used, cap, w, ignore)
            } else {
                (order, m, used, Seq::empty())
            }
        } else if e.hit {
            proof {
                lemma_hits_push(order.skip(1), m.insert(k, cleared(e)), k);
                lemma_hits_clear(order.skip(1), m, k);
            }
            free_spec(order.skip(1).push(k), m.insert(k, cleared(e)), used, cap, w, ignore)
        } else {
            let r = free_spec(order.skip(1), m.remove(k), used - e.weight, cap, w, ignore);
            (r.0, r.1, r.2, seq![k] + r.3)
        }
    }
}

/// Each key of the order has one entry and each entry one place in the
/// order, and `used` is the total weight of the entries.
pub open spec fn consistent<V>(order: Seq<u64>, m: Map<u64, Entry<V>>, used: int) -> bool {
    &&& order.no_duplicates()
    &&& forall|k: u64| m.contains_key(k) <==> order.contains(k)
    &&& used == total(order, m)
}

/// The queue's well-formedness over its order, entries, used weight and
/// capacity.
pub open spec fn well_formed<V>(order: Seq<u64>, m: Map<u64, Entry<V>>, used: int, cap: int) -> bool {
    &&& consistent(order, m, used)
    &&& used <= cap
    &&& forall|k: u64| m.contains_key(k) ==> m[k].weight <= cap
}

/// The entry `b` is `a`, but for its hit mark.
pub open spec fn same_but_hit<V>(a: Entry<V>, b: Entry<V>) -> bool {
    &&& a.value == b.value
    &&& a.weight == b.weight
    &&& a.removed == b.removed
}

/// One step of eviction at the front keeps the order and the entries
/// consistent, whether the front key leaves or goes to the back.
pub proof fn lemma_step<V>(order: Seq<u64>, m: Map<u64, Entry<V>>, used: int)
    requires
        consistent(order, m, used),
        order.len() > 0,
    ensures
        ({
            let k = order[0];
            &&& m.contains_key(k)
            &&& consistent(order.skip(1), m.remove(k), used - m[k].weight)
            &&& consistent(order.skip(1).push(k), m, used)
            &&& consistent(order.skip(1).push(k), m.insert(k, cleared(m[k])), used)
        }),
{
    let k = order[0];
    lemma_skip_front(order);
    assert(order.contains(k));
    lemma_total_other(order.skip(1), m, k, m[k]);
    lemma_push_back(order.skip(1), k);
    lemma_total_push(order.skip(1), m, k);
    assert forall|x: u64| m.remove(k).contains_key(x) <==> order.skip(1).contains(x) by {
        assert(order.contains(x) <==> (x == k || order.skip(1).contains(x)));
    }
    assert forall|x: u64| m.contains_key(x) <==> order.skip(1).push(k).contains(x) by {
        assert(order.contains(x) <==> (x == k || order.skip(1).contains(x)));
    }
    assert(total(order, m) == m[k].weight_of() + total(order.skip(1), m));
    assert(total(order.skip(1), m.remove(k)) == total(order.skip(1), m));
    let s = order.skip(1).push(k);
    let m2 = m.insert(k, cleared(m[k]));
    assert forall|i: int| 0 <= i < s.len() implies m2[s[i]].weight_of() == m[s[i]].weight_of() by {}
    lemma_total_agree(s, m2, m);
    assert forall|x: u64| m2.contains_key(x) <==> s.contains(x) by {
        assert(order.contains(x) <==> (x == k || order.skip(1).contains(x)));
    }
}

proof fn lemma_removed_front<V>(m: Map<u64, Entry<V>>, k: u64, after: Map<u64, Entry<V>>)
    requires
        forall|x: u64| #[trigger] after.contains_key(x) ==> m.remove(k).contains_key(x)
            && same_but_hit(m.remove(k)[x], after[x]),
    ensures
        forall|x: u64| #[trigger] after.contains_key(x) ==> m.contains_key(x) && same_but_hit(m[x], after[x]),
        !after.contains_key(k),
        forall|x: u64| x != k && #[trigger] m.contains_key(x) ==> m.remove(k).contains_key(x),
{
    assert forall|x: u64| #[trigger] after.contains_key(x) implies m.contains_key(x) && same_but_hit(m[x], after[x]) by {
        assert(m.remove(k).contains_key(x));
    }
}

/// Eviction keeps every entry it does not evict, but for hit marks, and keeps
/// a live `ignore` key; each evicted key was live and is gone.
pub proof fn lemma_free_keeps<V>(
    order: Seq<u64>,
    m: Map<u64, Entry<V>>,
    used: int,
    cap: int,
    w: int,
    ignore: Option<u64>,
)
    requires
        consistent(order, m, used),
    ensures
        ({
            let r = free_spec(order, m, used, cap, w, ignore);
            &&& forall|k: u64| #[trigger] r.1.contains_key(k) ==> m.contains_key(k) && same_but_hit(m[k], r.1[k])
            &&& forall|k: u64|
                ignore == Some(k) && #[trigger] m.contains_key(k) && !m[k].removed ==> r.1.contains_key(k)
            &&& forall|i: int| 0 <= i < r.3.len() ==> {
                &&& m.contains_key(#[trigger] r.3[i])
                &&& !m[r.3[i]].removed
                &&& !r.1.contains_key(r.3[i])
            }
        }),
    decreases
        order.len(),
        hits(order, m),
        (if order.len() > 0 && Some(order[0]) == ignore { 1int } else { 0int }),
{
    if used + w <= cap || order.len() == 0 {
    } else {
        let k = order[0];
        let e = m[k];
        lemma_step(order, m, used);
        if e.removed {
            lemma_free_keeps(order.skip(1), m.remove(k), used - e.weight, cap, w, ignore);
            let r = free_spec(order.skip(1), m.remove(k), used - e.weight, cap, w, ignore);
            lemma_removed_front(m, k, r.1);
            assert forall|i: int| 0 <= i < r.3.len() implies {
                &&& m.contains_key(#[trigger] r.3[i])
                &&& !m[r.3[i]].removed
                &&& !r.1.contains_key(r.3[i])
            } by {
                assert(m.remove(k).contains_key(r.3[i]));
            }
        } else if Some(k) == ignore {
            if order.len() > 1 && order[1] != k {
                lemma_hits_push(order.skip(1), m, k);
                lemma_free_keeps(order.skip(1).push(k), m, used, cap, w, ignore);
            }
        } else if e.hit {
            let m2 = m.insert(k, cleared(e));
            lemma_hits_push(order.skip(1), m2, k);
            lemma_hits_clear(order.skip(1), m, k);
            lemma_free_keeps(order.skip(1).push(k), m2, used, cap, w, ignore);
            let r = free_spec(order.skip(1).push(k), m2, used, cap, w, ignore);
            assert forall|x: u64| #[trigger] r.1.contains_key(x) implies m.contains_key(x) && same_but_hit(m[x], r.1[x]) by {
                assert(m2.contains_key(x));
            }
            assert forall|x: u64|
                ignore == Some(x) && #[trigger] m.contains_key(x) && !m[x].removed implies r.1.contains_key(x) by {
                assert(m2.contains_key(x));
            }
            assert forall|i: int| 0 <= i < r.3.len() implies {
                &&& m.contains_key(#[trigger] r.3[i])
                &&& !m[r.3[i]].removed
                &&& !r.1.contains_key(r.3[i])
            } by {
                assert(m2.contains_key(r.3[i]));
            }
        } else {
            lemma_free_keeps(order.skip(1), m.remove(k), used - e.weight, cap, w, ignore);
            let r = free_spec(order.skip(1), m.remove(k), used - e.weight, cap, w, ignore);
            let all = seq![k] + r.3;
            lemma_removed_front(m, k, r.1);
            assert forall|i: int| 0 <= i < all.len() implies {
                &&& m.contains_key(#[trigger] all[i])
                &&& !m[all[i]].removed
                &&& !r.1.contains_key(all[i])
            } by {
                if i > 0 {
                    assert(all[i] == r.3[i - 1]);
                    assert(m.remove(k).contains_key(r.3[i - 1]));
                } else {
                    assert(all[0] == k);
                }
            }
        }
    }
}

/// The state after `put(k, v, w)` with `w` within the capacity, where a
/// fresh key starts with the hit mark `h`: the order, the entries, the used
/// weight, and the evicted keys. A present key (live or tombstoned) is revived
/// with the new value and keeps its mark; if it grows, room is made with the
/// key itself sent to the back rather than evicted. A fresh key is appended
/// once there is room.
pub open spec fn put_spec<V>(
    order: Seq<u64>,
    m: Map<u64, Entry<V>>,
    used: int,
    cap: int,
    k: u64,
    v: V,
    w: int,
    h: bool,
) -> (Seq<u64>, Map<u64, Entry<V>>, int, Seq<u64>) {
    if m.contains_key(k) {
        let e = m[k];
        let revived = m.insert(k, Entry { value: v, weight: e.weight, hit: e.hit, removed: false });
        if w > e.weight {
            let r = free_spec(order, revived, used, cap, w - e.weight, Some(k));
            let kept = r.1[k];
            (
                r.0,
                r.1.insert(k, Entry { value: kept.value, weight: w as usize, hit: kept.hit, removed: false }),
                r.2 + (w - e.weight),
                r.3,
            )
        } else {
            (
                order,
                m.insert(k, Entry { value: v, weight: w as usize, hit: e.hit, removed: false }),
                used - (e.weight - w),
                Seq::empty(),
            )
        }
    } else {
        let r = free_spec(order, m, used, cap, w, None);
        (
            r.0.push(k),
            r.1.insert(k, Entry { value: v, weight: w as usize, hit: h, removed: false }),
            r.2 + w,
            r.3,
        )
    }
}

/// A put within the capacity leaves the key live with the value just put.
pub proof fn lemma_put_then_get<V>(
    order: Seq<u64>,
    m: Map<u64, Entry<V>>,
    used: int,
    cap: int,
    k: u64,
    v: V,
    w: usize,
    h: bool,
)
    requires
        well_formed(order, m, used, cap),
        w <= cap,
    ensures
        lookup(put_spec(order, m, used, cap, k, v, w as int, h).1, k) == Some(v),
{
    if m.contains_key(k) && w > m[k].weight {
        let e = m[k];
        let revived = m.insert(k, Entry { value: v, weight: e.weight, hit: e.hit, removed: false });
        assert(consistent(order, revived, used)) by {
            assert(order.contains(k));
            lemma_total_agree(order, revived, m);
            assert forall|x: u64| revived.contains_key(x) <==> order.contains(x) by {}
        }
        lemma_free_keeps(order, revived, used, cap, w - e.weight, Some(k));
        assert(revived.contains_key(k));
    }
}

/// After a key is removed, a lookup of it finds nothing.
pub proof fn lemma_remove_then_get<V>(m: Map<u64, Entry<V>>, k: u64)
    ensures
        lookup(tombstone(m, k), k) is None,
{
}

/// Removing a key twice is removing it once.
pub proof fn lemma_remove_twice<V>(m: Map<u64, Entry<V>>, k: u64)
    ensures
        tombstone(tombstone(m, k), k) == tombstone(m, k),
{
    assert(tombstone(tombstone(m, k), k) =~= tombstone(m, k));
}

/// Putting the same key, value and weight twice in a row: the second put
/// leaves the used weight as the first left it, and evicts nothing.
pub proof fn lemma_put_twice<V>(
    order: Seq<u64>,
    m: Map<u64, Entry<V>>,
    used: int,
    cap: int,
    k: u64,
    v: V,
    w: usize,
    h: bool,
)
    requires
        well_formed(order, m, used, cap),
        w <= cap,
    ensures
        ({
            let s1 = put_spec(order, m, used, cap, k, v, w as int, h);
            let s2 = put_spec(s1.0, s1.1, s1.2, cap, k, v, w as int, h);
            &&& s2.2 == s1.2
            &&& s2.3.len() == 0
        }),
{
}

/// Eviction never reports a tombstoned entry: every reported key was live.
pub proof fn lemma_victims_live<V>(
    order: Seq<u64>,
    m: Map<u64, Entry<V>>,
    used: int,
    cap: int,
    w: int,
    ignore: Option<u64>,
)
    requires
        consistent(order, m, used),
    ensures
        ({
            let victims = free_spec(order, m, used, cap, w, ignore).3;
            forall|i: int|
                0 <= i < victims.len() ==> m.contains_key(#[trigger] victims[i])
                    && !m[victims[i]].removed
        }),
{
    lemma_free_keeps(order, m, used, cap, w, ignore);
}

/// A put reports only keys that were live before it, never the key it puts,
/// and makes no other key live.
pub proof fn lemma_put_reports_live<V>(
    order: Seq<u64>,
    m: Map<u64, Entry<V>>,
    used: int,
    cap: int,
    k: u64,
    v: V,
    w: usize,
    h: bool,
)
    requires
        well_formed(order, m, used, cap),
        w <= cap,
    ensures
        ({
            let p = put_spec(order, m, used, cap, k, v, w as int, h);
            &&& forall|i: int|
                0 <= i < p.3.len() ==> #[trigger] p.3[i] != k && lookup(m, p.3[i]) is Some
            &&& forall|j: u64| j != k && lookup(m, j) is None ==> #[trigger] lookup(p.1, j) is None
        }),
{
    let p = put_spec(order, m, used, cap, k, v, w as int, h);
    if m.contains_key(k) {
        let e = m[k];
        if w > e.weight {
            let revived = m.insert(k, Entry { value: v, weight: e.weight, hit: e.hit, removed: false });
            assert(consistent(order, revived, used)) by {
                assert(order.contains(k));
                lemma_total_agree(order, revived, m);
                assert forall|x: u64| revived.contains_key(x) <==> order.contains(x) by {}
            }
            lemma_free_keeps(order, revived, used, cap, w - e.weight, Some(k));
            let r = free_spec(order, revived, used, cap, w - e.weight, Some(k));
            assert(revived.contains_key(k) && !revived[k].removed);
            assert forall|i: int| 0 <= i < p.3.len() implies #[trigger] p.3[i] != k && lookup(m, p.3[i]) is Some by {
                assert(revived.contains_key(r.3[i]));
            }
            assert forall|j: u64| j != k && lookup(m, j) is None implies #[trigger] lookup(p.1, j) is None by {
                if r.1.contains_key(j) {
                    assert(revived.contains_key(j));
                }
            }
        }
    } else {
        lemma_free_keeps(order, m, used, cap, w as int, None);
        let r = free_spec(order, m, used, cap, w as int, None);
        assert forall|i: int| 0 <= i < p.3.len() implies #[trigger] p.3[i] != k && lookup(m, p.3[i]) is Some by {
            assert(m.contains_key(r.3[i]));
        }
        assert forall|j: u64| j != k && lookup(m, j) is None implies #[trigger] lookup(p.1, j) is None by {
            if r.1.contains_key(j) {
                assert(m.contains_key(j));
            }
        }
    }
}

/// A live key that eviction does not report stays.
pub proof fn lemma_free_spares<V>(
    order: Seq<u64>,
    m: Map<u64, Entry<V>>,
    used: int,
    cap: int,
    w: int,
    ignore: Option<u64>,
    j: u64,
)
    requires
        consistent(order, m, used),
        m.contains_key(j),
        !m[j].removed,
        !free_spec(order, m, used, cap, w, ignore).3.contains(j),
    ensures
        free_spec(order, m, used, cap, w, ignore).1.contains_key(j),
    decreases
        order.len(),
        hits(order, m),
        (if order.len() > 0 && Some(order[0]) == ignore { 1int } else { 0int }),
{
    if used + w <= cap || order.len() == 0 {
    } else {
        let k = order[0];
        let e = m[k];
        lemma_step(order, m, used);
        if e.removed {
            lemma_free_spares(order.skip(1), m.remove(k), used - e.weight, cap, w, ignore, j);
        } else if Some(k) == ignore {
            if order.len() > 1 && order[1] != k {
                lemma_hits_push(order.skip(1), m, k);
                lemma_free_spares(order.skip(1).push(k), m, used, cap, w, ignore, j);
            }
        } else if e.hit {
            let m2 = m.insert(k, cleared(e));
            lemma_hits_push(order.skip(1), m2, k);
            lemma_hits_clear(order.skip(1), m, k);
            lemma_free_spares(order.skip(1).push(k), m2, used, cap, w, ignore, j);
        } else {
            let all = free_spec(order, m, used, cap, w, ignore).3;
            let r = free_spec(order.skip(1), m.remove(k), used - e.weight, cap, w, ignore);
            assert(all[0] == k);
            assert(!r.3.contains(j)) by {
                if r.3.contains(j) {
                    let t = choose|t: int| 0 <= t < r.3.len() && r.3[t] == j;
                    assert(all[t + 1] == j);
                }
            }
            lemma_free_spares(order.skip(1), m.remove(k), used - e.weight, cap, w, ignore, j);
        }
    }
}

/// A value stays through a call on another key that does not evict it: a
/// hit, a removal, or a put whose evicted keys leave it out.
pub proof fn lemma_value_stays<V>(
    order: Seq<u64>,
    m: Map<u64, Entry<V>>,
    used: int,
    cap: int,
    k: u64,
    v: V,
    w: usize,
    h: bool,
    j: u64,
)
    requires
        well_formed(order, m, used, cap),
        w <= cap,
        j != k,
    ensures
        lookup(touched(m, k), j) == lookup(m, j),
        lookup(tombstone(m, k), j) == lookup(m, j),
        ({
            let s = put_spec(order, m, used, cap, k, v, w as int, h);
            !s.3.contains(j) ==> lookup(s.1, j) == lookup(m, j)
        }),
{
    let s = put_spec(order, m, used, cap, k, v, w as int, h);
    lemma_put_reports_live(order, m, used, cap, k, v, w, h);
    if lookup(m, j) is Some && !s.3.contains(j) {
        if m.contains_key(k) {
            let e = m[k];
            if w > e.weight {
                let revived = m.insert(k, Entry { value: v, weight: e.weight, hit: e.hit, removed: false });
                assert(consistent(order, revived, used)) by {
                    assert(order.contains(k));
                    lemma_total_agree(order, revived, m);
                    assert forall|x: u64| revived.contains_key(x) <==> order.contains(x) by {}
                }
                lemma_free_keeps(order, revived, used, cap, w - e.weight, Some(k));
                lemma_free_spares(order, revived, used, cap, w - e.weight, Some(k), j);
            }
        } else {
            lemma_free_keeps(order, m, used, cap, w as int, None);
            lemma_free_spares(order, m, used, cap, w as int, None, j);
        }
    }
}

impl<V> FIFOReinsertion<V> {
    /// The keys in queue order, oldest first, tombstoned ones included.
    pub closed spec fn keys(&self) -> Seq<u64> {
        self.vec_deque@
    }

    /// The entry of each key in the queue.
    pub closed spec fn entries(&self) -> Map<u64, Entry<V>> {
        self.hash@
    }

    /// The total weight of the entries, tombstoned ones included.
    pub closed spec fn used(&self) -> int {
        self.used_capacity as int
    }

    pub closed spec fn cap(&self) -> int {
        self.capacity as int
    }

    pub open spec fn wf(&self) -> bool {
        well_formed(self.keys(), self.entries(), self.used(), self.cap())
    }

    /// Order, entries and used weight together.
    pub open spec fn state(&self) -> (Seq<u64>, Map<u64, Entry<V>>, int) {
        (self.keys(), self.entries(), self.used())
    }

    /// An empty queue of the given capacity.
    pub fn new(capacity: usize) -> (r: Self)
        ensures
            r.wf(),
            r.cap() == capacity,
            r.keys() == Seq::<u64>::empty(),
            r.entries() == Map::<u64, Entry<V>>::empty(),
            r.used() == 0,
    {
        FIFOReinsertion { hash: HashMap::new(), vec_deque: VecDeque::new(), used_capacity: 0, capacity }
    }

    /// The value of a live key, which is marked as hit; `None` for an absent
    /// or tombstoned key, which is left as it is.
    pub fn get(&mut self, key: u64) -> (r: Option<&V>)
        requires
            old(self).wf(),
        ensures
            final(self).wf(),
            final(self).cap() == old(self).cap(),
            final(self).keys() == old(self).keys(),
            final(self).used() == old(self).used(),
            final(self).entries() == touched(old(self).entries(), key),
            match r {
                Some(v) => lookup(old(self).entries(), key) == Some(*v),
                None => lookup(old(self).entries(), key) is None,
            },
    {
        let live = match self.hash.get(&key) {
            Some(e) => !e.removed,
            None => false,
        };
        if !live {
            return None;
        }
        let e = self.hash.remove(&key).unwrap();
        let ghost m = old(self).hash@;
        self.hash.insert(key, Entry { value: e.value, weight: e.weight, hit: true, removed: false });
        proof {
            assert(self.hash@ =~= touched(m, key));
            lemma_total_agree(self.keys(), self.hash@, m);
        }
        match self.hash.get(&key) {
            Some(e) => Some(&e.value),
            None => None,
        }
    }

    /// Evicts from the front until `weight` more fits, as `free_spec` says:
    /// tombstoned keys are reaped silently, `ignore_key` goes to the back, a
    /// hit key loses its mark and goes to the back, and every other key leaves
    /// and is reported (`None` when none is).
    pub fn free(&mut self, weight: usize, ignore_key: Option<u64>) -> (r: Option<Vec<u64>>)
        requires
            old(self).wf(),
            match ignore_key {
                None => weight <= old(self).cap(),
                Some(k) => old(self).entries().contains_key(k) && !old(self).entries()[k].removed
                    && old(self).entries()[k].weight + weight <= old(self).cap(),
            },
        ensures
            final(self).wf(),
            final(self).cap() == old(self).cap(),
            final(self).used() + weight <= final(self).cap(),
            ({
                let s = free_spec(
                    old(self).keys(),
                    old(self).entries(),
                    old(self).used(),
                    old(self).cap(),
                    weight as int,
                    ignore_key,
                );
                &&& final(self).state() == (s.0, s.1, s.2)
                &&& reported(r) == s.3
                &&& compact(r)
            }),
    {
        let ghost goal = free_spec(
            self.keys(),
            self.entries(),
            self.used(),
            self.cap(),
            weight as int,
            ignore_key,
        );
        let ghost cap = self.cap();
        let mut removed_keys: Vec<u64> = Vec::new();
        while weight > self.capacity - self.used_capacity
            invariant
                self.wf(),
                self.cap() == cap,
                match ignore_key {
                    None => weight <= cap,
                    Some(k) => self.entries().contains_key(k) && !self.entries()[k].removed
                        && self.entries()[k].weight + weight <= cap,
                },
                ({
                    let s = free_spec(
                        self.keys(),
                        self.entries(),
                        self.used(),
                        cap,
                        weight as int,
                        ignore_key,
                    );
                    &&& (s.0, s.1, s.2) == (goal.0, goal.1, goal.2)
                    &&& removed_keys@ + s.3 == goal.3
                }),
            decreases
                self.keys().len(),
                hits(self.keys(), self.entries()),
                (if self.keys().len() > 0 && Some(self.keys()[0]) == ignore_key {
                    1int
                } else {
                    0int
                }),
        {
            let ghost o = self.vec_deque@;
            let ghost m = self.hash@;
            let ghost u = self.used();
            proof {
                if o.len() == 0 {
                    assert(total(o, m) == 0);
                    match ignore_key {
                        Some(k) => {
                            assert(m.contains_key(k));
                            assert(o.contains(k));
                        },
                        None => {},
                    }
                }
                lemma_step(o, m, u);
            }
            let key = self.vec_deque.pop_front().unwrap();
            let (tombstoned, w, was_hit) = match self.hash.get(&key) {
                Some(e) => (e.removed, e.weight, e.hit),
                None => (false, 0, false),
            };
            let ignored = match ignore_key {
                Some(k) => k == key,
                None => false,
            };
            if tombstoned {
                self.hash.remove(&key);
                self.used_capacity = self.used_capacity - w;
                proof {
                    assert(self.vec_deque@ =~= o.skip(1));
                }
            } else if ignored {
                proof {
                    if o.len() == 1 {
                        assert(total(o.skip(1), m) == 0);
                        assert(u == m[key].weight);
                    } else {
                        lemma_skip_front(o);
                        assert(o.skip(1)[0] == o[1]);
                        assert(o[1] != key);
                    }
                    lemma_hits_push(o.skip(1), m, key);
                }
                self.vec_deque.push_back(key);
                proof {
                    assert(self.vec_deque@ =~= o.skip(1).push(key));
                    assert(self.vec_deque@[0] == o[1]);
                }
            } else if was_hit {
                let e = self.hash.remove(&key).unwrap();
                self.hash.insert(key, Entry { value: e.value, weight: e.weight, hit: false, removed: e.removed });
                self.vec_deque.push_back(key);
                proof {
                    assert(self.hash@ =~= m.insert(key, cleared(m[key])));
                    assert(self.vec_deque@ =~= o.skip(1).push(key));
                    lemma_hits_push(o.skip(1), self.hash@, key);
                    lemma_hits_clear(o.skip(1), m, key);
                }
            } else {
                self.hash.remove(&key);
                self.used_capacity = self.used_capacity - w;
                let ghost before = removed_keys@;
                removed_keys.push(key);
                proof {
                    assert(self.vec_deque@ =~= o.skip(1));
                    let rest = free_spec(self.keys(), self.entries(), self.used(), cap, weight as int, ignore_key).3;
                    assert(before.push(key) + rest =~= before + (seq![key] + rest));
                }
            }
        }
        proof {
            assert(goal.3 =~= removed_keys@);
        }
        if removed_keys.len() == 0 {
            None
        } else {
            Some(removed_keys)
        }
    }

    fn update(&mut self, key: u64, value: V, weight: usize) -> (r: Option<Vec<u64>>)
        requires
            old(self).wf(),
            old(self).entries().contains_key(key),
            weight <= old(self).cap(),
        ensures
            final(self).wf(),
            final(self).cap() == old(self).cap(),
            // the mark of a fresh key plays no part for a present one
            forall|h: bool| {
                let s = #[trigger] put_spec(
                    old(self).keys(),
                    old(self).entries(),
                    old(self).used(),
                    old(self).cap(),
                    key,
                    value,
                    weight as int,
                    h,
                );
                &&& final(self).state() == (s.0, s.1, s.2)
                &&& reported(r) == s.3
            },
            compact(r),
    {
        let ghost m0 = self.hash@;
        let e = self.hash.remove(&key).unwrap();
        let old_weight = e.weight;
        let hit = e.hit;
        self.hash.insert(key, Entry { value, weight: old_weight, hit, removed: false });
        proof {
            assert(self.hash@ =~= m0.insert(key, Entry { value, weight: old_weight, hit, removed: false }));
            lemma_total_agree(self.keys(), self.hash@, m0);
            assert(self.keys().contains(key));
        }
        if weight > old_weight {
            let needed_space = weight - old_weight;
            let ghost m1 = self.hash@;
            let removed_keys = self.free(needed_space, Some(key));
            proof {
                lemma_free_keeps(old(self).keys(), m1, old(self).used(), self.cap(), needed_space as int, Some(key));
            }
            let ghost m2 = self.hash@;
            let e = self.hash.remove(&key).unwrap();
            let ghost grown = Entry { value: e.value, weight, hit: e.hit, removed: false };
            self.hash.insert(key, Entry { value: e.value, weight, hit: e.hit, removed: false });
            self.used_capacity = self.used_capacity + needed_space;
            proof {
                assert(self.hash@ =~= m2.insert(key, grown));
                assert(self.keys().contains(key));
                lemma_total_update(self.keys(), m2, key, grown);
            }
            removed_keys
        } else {
            let ghost m1 = self.hash@;
            let e = self.hash.remove(&key).unwrap();
            self.hash.insert(key, Entry { value: e.value, weight, hit: e.hit, removed: false });
            proof {
                let grown = Entry { value, weight, hit, removed: false };
                assert(self.hash@ =~= m0.insert(key, grown));
                assert(self.hash@ =~= m1.insert(key, grown));
                lemma_total_update(self.keys(), m1, key, grown);
            }
            self.used_capacity = self.used_capacity - (old_weight - weight);
            None
        }
    }

    fn insert(&mut self, key: u64, value: V, weight: usize, hit: bool) -> (r: Option<Vec<u64>>)
        requires
            old(self).wf(),
            !old(self).entries().contains_key(key),
            weight <= old(self).cap(),
        ensures
            final(self).wf(),
            final(self).cap() == old(self).cap(),
            ({
                let s = put_spec(
                    old(self).keys(),
                    old(self).entries(),
                    old(self).used(),
                    old(self).cap(),
                    key,
                    value,
                    weight as int,
                    hit,
                );
                &&& final(self).state() == (s.0, s.1, s.2)
                &&& reported(r) == s.3
                &&& compact(r)
            }),
    {
        proof {
            lemma_free_keeps(self.keys(), self.entries(), self.used(), self.cap(), weight as int, None);
        }
        let removed_keys = self.free(weight, None);
        let ghost o = self.vec_deque@;
        let ghost m = self.hash@;
        self.used_capacity = self.used_capacity + weight;
        self.hash.insert(key, Entry { value, weight, hit, removed: false });
        self.vec_deque.push_back(key);
        proof {
            let e = Entry { value, weight, hit, removed: false };
            assert(!o.contains(key));
            lemma_push_back(o, key);
            lemma_total_other(o, m, key, e);
            lemma_total_push(o, m.insert(key, e), key);
            assert forall|x: u64| self.hash@.contains_key(x) <==> self.vec_deque@.contains(x) by {
                assert(o.push(key).contains(x) <==> (x == key || o.contains(x)));
            }
        }
        removed_keys
    }

    /// Stores `value` under `key` with the given weight, evicting from the
    /// front as needed; the result lists the evicted keys, oldest first. A
    /// fresh key starts unmarked. A weight beyond the capacity is refused and
    /// changes nothing.
    pub fn put(&mut self, key: u64, value: V, weight: usize) -> (r: Result<
        Option<Vec<u64>>,
        FIFOReinsertionError,
    >)
        requires
            old(self).wf(),
        ensures
            final(self).wf(),
            final(self).cap() == old(self).cap(),
            weight > old(self).cap() ==> r is Err && final(self).state() == old(self).state(),
            weight <= old(self).cap() ==> match r {
                Ok(victims) => {
                    let s = put_spec(
                        old(self).keys(),
                        old(self).entries(),
                        old(self).used(),
                        old(self).cap(),
                        key,
                        value,
                        weight as int,
                        false,
                    );
                    &&& final(self).state() == (s.0, s.1, s.2)
                    &&& reported(victims) == s.3
                    &&& compact(victims)
                },
                Err(_) => false,
            },
    {
        self.put_with_freq(key, value, weight, 0)
    }

    /// As `put`, but a fresh key starts marked as hit when `freq` is above
    /// zero: the hits it earned elsewhere give it a second chance here.
    pub fn put_with_freq(&mut self, key: u64, value: V, weight: usize, freq: usize) -> (r: Result<
        Option<Vec<u64>>,
        FIFOReinsertionError,
    >)
        requires
            old(self).wf(),
        ensures
            final(self).wf(),
            final(self).cap() == old(self).cap(),
            weight > old(self).cap() ==> r is Err && final(self).state() == old(self).state(),
            weight <= old(self).cap() ==> match r {
                Ok(victims) => {
                    let s = put_spec(
                        old(self).keys(),
                        old(self).entries(),
                        old(self).used(),
                        old(self).cap(),
                        key,
                        value,
                        weight as int,
                        freq > 0,
                    );
                    &&& final(self).state() == (s.0, s.1, s.2)
                    &&& reported(victims) == s.3
                    &&& compact(victims)
                },
                Err(_) => false,
            },
    {
        if weight > self.capacity {
            return Err(FIFOReinsertionError::BeyondCapacity);
        }
        if self.hash.contains_key(&key) {
            Ok(self.update(key, value, weight))
        } else {
            Ok(self.insert(key, value, weight, freq > 0))
        }
    }

    /// Tombstones `key` if it is present; its weight stays counted until
    /// eviction reaps it.
    pub fn remove(&mut self, key: u64)
        requires
            old(self).wf(),
        ensures
            final(self).wf(),
            final(self).cap() == old(self).cap(),
            final(self).keys() == old(self).keys(),
            final(self).used() == old(self).used(),
            final(self).entries() == tombstone(old(self).entries(), key),
    {
        if self.hash.contains_key(&key) {
            let ghost m = self.hash@;
            let e = self.hash.remove(&key).unwrap();
            self.hash.insert(
                key,
                Entry { value: e.value, weight: e.weight, hit: e.hit, removed: true },
            );
            proof {
                assert(self.hash@ =~= tombstone(m, key));
                lemma_total_agree(self.keys(), self.hash@, m);
            }
        }
    }
    /// The weight in use, tombstoned entries included.
    pub fn used_capacity(&self) -> (r: usize)
        ensures
            r == self.used(),
    {
        self.used_capacity
    }

    /// The capacity the queue was made with.
    pub fn capacity(&self) -> (r: usize)
        ensures
            r == self.cap(),
    {
        self.capacity
    }

    /// Number of keys in the queue's order, tombstoned ones included.
    pub fn len(&self) -> (r: usize)
        ensures
            r == self.keys().len(),
    {
        self.vec_deque.len()
    }

    /// Number of entries held, tombstoned ones included.
    pub fn entry_count(&self) -> (r: usize)
        ensures
            r == self.entries().len(),
    {
        self.hash.len()
    }
}

} // verus!
