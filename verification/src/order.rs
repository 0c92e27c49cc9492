//! Sorting values and listing their distinct values in ascending order.

use vstd::prelude::*;

verus! {

/// `s` is in non-decreasing order.
pub open spec fn is_sorted(s: Seq<u64>) -> bool {
    forall|i: int, j: int| 0 <= i <= j < s.len() ==> s[i] <= s[j]
}

/// `s` is in strictly increasing order.
pub open spec fn is_strictly_increasing(s: Seq<u64>) -> bool {
    forall|i: int, j: int| 0 <= i < j < s.len() ==> s[i] < s[j]
}

/// The distinct values of `s` in ascending order.
pub open spec fn sorted_distinct(s: Seq<u64>) -> Seq<u64> {
    choose|u: Seq<u64>| is_strictly_increasing(u) && u.to_set() == s.to_set()
}

/// A finite non-empty set of values has a greatest element.
pub proof fn lemma_set_has_max(s: Set<u64>) -> (m: u64)
    requires
        s.finite(),
        s.len() > 0,
    ensures
        s.contains(m),
        forall|x: u64| s.contains(x) ==> x <= m,
    decreases s.len(),
{
    let a = s.choose();
    let rest = s.remove(a);
    if rest.len() == 0 {
        assert forall|x: u64| s.contains(x) implies x <= a by {
            if x != a {
                assert(rest.contains(x));
            }
        }
        a
    } else {
        let m = lemma_set_has_max(rest);
        if a > m {
            a
        } else {
            m
        }
    }
}

/// Every finite set of values is listed by some strictly increasing
/// sequence: `sorted_distinct` is well defined.
pub proof fn lemma_sorted_distinct_exists(s: Seq<u64>)
    ensures
        is_strictly_increasing(sorted_distinct(s)),
        sorted_distinct(s).to_set() == s.to_set(),
{
    broadcast use vstd::seq_lib::seq_to_set_is_finite;
    let u = lemma_set_listed(s.to_set());
    assert(is_strictly_increasing(u) && u.to_set() == s.to_set());
}

proof fn lemma_set_listed(set: Set<u64>) -> (u: Seq<u64>)
    requires
        set.finite(),
    ensures
        is_strictly_increasing(u),
        u.to_set() == set,
    decreases set.len(),
{
    if set.len() == 0 {
        assert(Seq::<u64>::empty().to_set() =~= set);
        Seq::empty()
    } else {
        let m = lemma_set_has_max(set);
        let rest = set.remove(m);
        let u0 = lemma_set_listed(rest);
        let u = u0.push(m);
        assert forall|i: int, j: int| 0 <= i < j < u.len() implies u[i] < u[j] by {
            if j == u.len() - 1 {
                assert(u0.to_set().contains(u0[i]));
                assert(rest.contains(u[i]));
            }
        }
        assert forall|x: u64| u.to_set().contains(x) <==> set.contains(x) by {
            if u.contains(x) {
                let k = choose|k: int| 0 <= k < u.len() && u[k] == x;
                if k < u0.len() {
                    assert(u0.to_set().contains(x));
                }
            }
            if set.contains(x) && x != m {
                assert(rest.contains(x));
                let k = choose|k: int| 0 <= k < u0.len() && u0[k] == x;
                assert(u[k] == x);
            }
            if x == m {
                assert(u[u.len() - 1] == m);
            }
        }
        assert(u.to_set() =~= set);
        u
    }
}

/// Two strictly increasing sequences with the same values are equal.
pub proof fn lemma_strictly_increasing_unique(a: Seq<u64>, b: Seq<u64>)
    requires
        is_strictly_increasing(a),
        is_strictly_increasing(b),
        a.to_set() == b.to_set(),
    ensures
        a == b,
    decreases a.len(),
{
    if a.len() == 0 {
        if b.len() > 0 {
            assert(b.to_set().contains(b[0]));
        }
        assert(a =~= b);
    } else {
        assert(a.to_set().contains(a[0]));
        assert(b.to_set().contains(a[0]));
        let j = choose|j: int| 0 <= j < b.len() && b[j] == a[0];
        assert(a.to_set().contains(b[0]));
        let i = choose|i: int| 0 <= i < a.len() && a[i] == b[0];
        assert(a[0] <= a[i]);
        assert(b[0] <= b[j]);
        assert(a[0] == b[0]);
        let a1 = a.drop_first();
        let b1 = b.drop_first();
        assert forall|x: u64| a1.to_set().contains(x) <==> b1.to_set().contains(x) by {
            if a1.to_set().contains(x) {
                let k = choose|k: int| 0 <= k < a1.len() && a1[k] == x;
                assert(a[k + 1] == x);
                assert(b.to_set().contains(x));
                let m = choose|m: int| 0 <= m < b.len() && b[m] == x;
                if m == 0 {
                    assert(a[0] < a[k + 1]);
                }
                assert(b1[m - 1] == x);
            }
            if b1.to_set().contains(x) {
                let k = choose|k: int| 0 <= k < b1.len() && b1[k] == x;
                assert(b[k + 1] == x);
                assert(a.to_set().contains(x));
                let m = choose|m: int| 0 <= m < a.len() && a[m] == x;
                if m == 0 {
                    assert(b[0] < b[k + 1]);
                }
                assert(a1[m - 1] == x);
            }
        }
        assert(a1.to_set() =~= b1.to_set());
        lemma_strictly_increasing_unique(a1, b1);
        assert forall|k: int| 0 <= k < a.len() implies a[k] == b[k] by {
            if k > 0 {
                assert(a[k] == a1[k - 1] && b[k] == b1[k - 1]);
            }
        }
        assert(a =~= b);
    }
}

/// The values of `values` in non-decreasing order (an insertion sort).
pub fn sort_values(values: &[u64]) -> (r: Vec<u64>)
    ensures
        is_sorted(r@),
        r@.to_multiset() == values@.to_multiset(),
{
    broadcast use vstd::seq_lib::group_to_multiset_ensures;
    broadcast use vstd::seq_lib::to_multiset_insert;

    let mut sorted: Vec<u64> = Vec::with_capacity(values.len());
    let mut i: usize = 0;
    while i < values.len()
        invariant
            i <= values@.len(),
            is_sorted(sorted@),
            sorted@.to_multiset() == values@.take(i as int).to_multiset(),
        decreases values@.len() - i,
    {
        let x = values[i];
        let mut p: usize = 0;
        while p < sorted.len() && sorted[p] <= x
            invariant
                p <= sorted@.len(),
                forall|q: int| 0 <= q < p ==> sorted@[q] <= x,
            decreases sorted@.len() - p,
        {
            p = p + 1;
        }
        let ghost before = sorted@;
        sorted.insert(p, x);
        proof {
            before.insert_ensures(p as int, x);
            assert forall|a: int, b: int| 0 <= a <= b < sorted@.len() implies sorted@[a] <= sorted@[b] by {
                if a < p && b < p {
                    assert(sorted@[a] == before[a] && sorted@[b] == before[b]);
                } else if a < p && b == p {
                } else if a < p {
                    assert(sorted@[b] == before[b - 1]);
                    assert(before[a] <= before[b - 1]);
                } else if a == p && b > p {
                    assert(sorted@[b] == before[b - 1]);
                    assert(before[p as int] <= before[b - 1]);
                } else if a > p {
                    assert(sorted@[a] == before[a - 1] && sorted@[b] == before[b - 1]);
                }
            }
            vstd::seq_lib::to_multiset_insert(before, p as int, x);
            assert(sorted@.to_multiset() == before.to_multiset().insert(x));
            assert(values@.take(i as int + 1) =~= values@.take(i as int).push(x));
            values@.take(i as int).to_multiset_ensures();
            assert(values@.take(i as int + 1).to_multiset() == values@.take(i as int).to_multiset().insert(x));
        }
        i = i + 1;
    }
    assert(values@.take(i as int) =~= values@);
    sorted
}

/// The distinct values of `values` in ascending order: sorts, then keeps
/// the first of each run of equal values.
pub fn sorted_distinct_values(values: &[u64]) -> (r: Vec<u64>)
    ensures
        r@ == sorted_distinct(values@),
        is_strictly_increasing(r@),
        r@.to_set() == values@.to_set(),
{
    broadcast use vstd::seq_lib::group_to_multiset_ensures;

    let sorted = sort_values(values);
    let mut unique: Vec<u64> = Vec::new();
    let mut i: usize = 0;
    while i < sorted.len()
        invariant
            i <= sorted@.len(),
            is_sorted(sorted@),
            is_strictly_increasing(unique@),
            unique@.to_set() == sorted@.take(i as int).to_set(),
            i > 0 ==> unique@.len() > 0 && unique@.last() == sorted@[i - 1],
            i == 0 ==> unique@.len() == 0,
        decreases sorted@.len() - i,
    {
        let x = sorted[i];
        let ghost before = unique@;
        if unique.len() == 0 || unique[unique.len() - 1] != x {
            unique.push(x);
            proof {
                assert forall|a: int, b: int| 0 <= a < b < unique@.len() implies unique@[a] < unique@[b] by {
                    if b == unique@.len() - 1 && a < b {
                        assert(before[a] <= before.last());
                        assert(before.last() == sorted@[i - 1]);
                        assert(sorted@[i - 1] <= sorted@[i as int]);
                    }
                }
            }
        }
        proof {
            let t0 = sorted@.take(i as int);
            let t1 = sorted@.take(i as int + 1);
            assert(t1 =~= t0.push(x));
            assert forall|v: u64| unique@.to_set().contains(v) <==> t1.to_set().contains(v) by {
                if unique@.contains(v) {
                    let k = choose|k: int| 0 <= k < unique@.len() && unique@[k] == v;
                    if k < before.len() {
                        assert(before.to_set().contains(v));
                        assert(t0.contains(v));
                        let m = choose|m: int| 0 <= m < t0.len() && t0[m] == v;
                        assert(t1[m] == v);
                    } else {
                        assert(t1[i as int] == v);
                    }
                }
                if t1.contains(v) {
                    let m = choose|m: int| 0 <= m < t1.len() && t1[m] == v;
                    if m < i {
                        assert(t0[m] == v);
                        assert(before.to_set().contains(v));
                        let k = choose|k: int| 0 <= k < before.len() && before[k] == v;
                        assert(unique@[k] == v);
                    } else {
                        assert(unique@[unique@.len() - 1] == v);
                    }
                }
            }
            assert(unique@.to_set() =~= t1.to_set());
        }
        i = i + 1;
    }
    proof {
        assert(sorted@.take(i as int) =~= sorted@);
        assert forall|v: u64| sorted@.to_set().contains(v) <==> values@.to_set().contains(v) by {
            assert(sorted@.contains(v) <==> sorted@.to_multiset().count(v) > 0);
            assert(values@.contains(v) <==> values@.to_multiset().count(v) > 0);
        }
        assert(sorted@.to_set() =~= values@.to_set());
        let chosen = sorted_distinct(values@);
        assert(is_strictly_increasing(chosen) && chosen.to_set() == values@.to_set());
        lemma_strictly_increasing_unique(unique@, chosen);
    }
    unique
}

} // verus!
