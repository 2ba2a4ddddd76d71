//! Weight accounting shared by the queues: the total weight of the keys held
//! in a queue's order, under the map of its entries.
use vstd::prelude::*;

verus! {

/// An entry that occupies part of a queue's capacity.
pub trait Weighted {
    spec fn weight_of(&self) -> nat;
}

/// Sum of the weights of the keys in `s`, each looked up in `m`.
pub open spec fn total<E: Weighted>(s: Seq<u64>, m: Map<u64, E>) -> nat
    decreases s.len(),
{
    if s.len() == 0 {
        0
    } else {
        m[s[0]].weight_of() + total(s.skip(1), m)
    }
}

/// The total only depends on the weights of the keys that occur in `s`.
pub proof fn lemma_total_agree<E: Weighted>(s: Seq<u64>, m1: Map<u64, E>, m2: Map<u64, E>)
    requires
        forall|i: int| 0 <= i < s.len() ==> m1[s[i]].weight_of() == m2[s[i]].weight_of(),
    ensures
        total(s, m1) == total(s, m2),
    decreases s.len(),
{
    if s.len() > 0 {
        assert forall|i: int| 0 <= i < s.skip(1).len() implies m1[s.skip(1)[i]].weight_of()
            == m2[s.skip(1)[i]].weight_of() by {
            assert(s.skip(1)[i] == s[i + 1]);
        }
        lemma_total_agree(s.skip(1), m1, m2);
    }
}

/// Appending a key adds its weight.
pub proof fn lemma_total_push<E: Weighted>(s: Seq<u64>, m: Map<u64, E>, k: u64)
    ensures
        total(s.push(k), m) == total(s, m) + m[k].weight_of(),
    decreases s.len(),
{
    if s.len() == 0 {
        assert(s.push(k).skip(1) =~= Seq::<u64>::empty());
        assert(total(s.push(k).skip(1), m) == 0);
        assert(s.push(k)[0] == k);
    } else {
        assert(s.push(k).skip(1) =~= s.skip(1).push(k));
        assert(s.push(k)[0] == s[0]);
        lemma_total_push(s.skip(1), m, k);
    }
}

/// Changing the entry of a key that is absent from `s` leaves the total as it is.
pub proof fn lemma_total_other<E: Weighted>(s: Seq<u64>, m: Map<u64, E>, k: u64, e: E)
    requires
        !s.contains(k),
    ensures
        total(s, m.insert(k, e)) == total(s, m),
        total(s, m.remove(k)) == total(s, m),
{
    assert forall|i: int| 0 <= i < s.len() implies m.insert(k, e)[s[i]].weight_of()
        == m[s[i]].weight_of() by {
        assert(s[i] != k);
    }
    lemma_total_agree(s, m.insert(k, e), m);
    assert forall|i: int| 0 <= i < s.len() implies m.remove(k)[s[i]].weight_of()
        == m[s[i]].weight_of() by {
        assert(s[i] != k);
    }
    lemma_total_agree(s, m.remove(k), m);
}

/// Changing the entry of a key that occurs once in `s` changes the total by
/// the difference of the two weights.
pub proof fn lemma_total_update<E: Weighted>(s: Seq<u64>, m: Map<u64, E>, k: u64, e: E)
    requires
        s.no_duplicates(),
        s.contains(k),
    ensures
        total(s, m.insert(k, e)) + m[k].weight_of() == total(s, m) + e.weight_of(),
    decreases s.len(),
{
    if s[0] == k {
        assert(!s.skip(1).contains(k)) by {
            if s.skip(1).contains(k) {
                let j = choose|j: int| 0 <= j < s.skip(1).len() && s.skip(1)[j] == k;
                assert(s[j + 1] == k);
            }
        }
        lemma_total_other(s.skip(1), m, k, e);
    } else {
        let j = choose|j: int| 0 <= j < s.len() && s[j] == k;
        assert(s.skip(1)[j - 1] == k);
        assert(s.skip(1).no_duplicates()) by {
            assert forall|a: int, b: int|
                0 <= a < s.skip(1).len() && 0 <= b < s.skip(1).len() && a != b implies
                s.skip(1)[a] != s.skip(1)[b] by {
                assert(s.skip(1)[a] == s[a + 1] && s.skip(1)[b] == s[b + 1]);
            }
        }
        lemma_total_update(s.skip(1), m, k, e);
    }
}

/// The keys reported by an eviction: none when nothing was evicted.
pub open spec fn reported<T>(r: Option<Vec<T>>) -> Seq<T> {
    match r {
        Some(v) => v@,
        None => Seq::empty(),
    }
}

/// An eviction report is `None` exactly when it would be empty.
pub open spec fn compact<T>(r: Option<Vec<T>>) -> bool {
    match r {
        Some(v) => v@.len() > 0,
        None => true,
    }
}

/// Facts on dropping the front of a sequence without duplicates.
pub proof fn lemma_skip_front(s: Seq<u64>)
    requires
        s.no_duplicates(),
        s.len() > 0,
    ensures
        !s.skip(1).contains(s[0]),
        s.skip(1).no_duplicates(),
        forall|k: u64| s.contains(k) <==> (k == s[0] || s.skip(1).contains(k)),
{
    assert forall|k: u64| s.contains(k) <==> (k == s[0] || s.skip(1).contains(k)) by {
        if s.contains(k) && k != s[0] {
            let j = choose|j: int| 0 <= j < s.len() && s[j] == k;
            assert(s.skip(1)[j - 1] == k);
        }
        if s.skip(1).contains(k) {
            let j = choose|j: int| 0 <= j < s.skip(1).len() && s.skip(1)[j] == k;
            assert(s[j + 1] == k);
        }
    }
    if s.skip(1).contains(s[0]) {
        let j = choose|j: int| 0 <= j < s.skip(1).len() && s.skip(1)[j] == s[0];
        assert(s[j + 1] == s[0]);
    }
    assert forall|a: int, b: int|
        0 <= a < s.skip(1).len() && 0 <= b < s.skip(1).len() && a != b implies s.skip(1)[a]
        != s.skip(1)[b] by {
        assert(s.skip(1)[a] == s[a + 1] && s.skip(1)[b] == s[b + 1]);
    }
}

/// Facts on appending a fresh key to a sequence without duplicates.
pub proof fn lemma_push_back(s: Seq<u64>, k: u64)
    requires
        s.no_duplicates(),
        !s.contains(k),
    ensures
        s.push(k).no_duplicates(),
        forall|x: u64| s.push(k).contains(x) <==> (x == k || s.contains(x)),
{
    assert forall|x: u64| s.push(k).contains(x) <==> (x == k || s.contains(x)) by {
        if s.push(k).contains(x) && x != k {
            let j = choose|j: int| 0 <= j < s.push(k).len() && s.push(k)[j] == x;
            assert(s[j] == x);
        }
        if s.contains(x) {
            let j = choose|j: int| 0 <= j < s.len() && s[j] == x;
            assert(s.push(k)[j] == x);
        }
        if x == k {
            assert(s.push(k)[s.len() as int] == k);
        }
    }
    assert forall|a: int, b: int|
        0 <= a < s.push(k).len() && 0 <= b < s.push(k).len() && a != b implies s.push(k)[a]
        != s.push(k)[b] by {
        if a < s.len() && b < s.len() {
        } else if a < s.len() {
            assert(s.contains(s[a]));
        } else if b < s.len() {
            assert(s.contains(s[b]));
        }
    }
}

} // verus!
