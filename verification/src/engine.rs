//! The plaintext reference ranking, the seeded masks and permutations of the
//! offline phase, and the protocol engine.

use crate::backend::{local_modulus, LocalMultiSheBackend, TwoPartyMultiSheEngine};
use crate::bignum::{floor_mod, BigNum};
use crate::crypto_utils::{
    bignum_values, build_root_polynomial, canonicalize_dataset, dataset_views, distinct_in_order, is_sample,
    lemma_distinct_in_order, root_polynomial, seeded_sample,
};
use crate::order::{is_sorted, lemma_set_has_max, sort_values};
use crate::types::{
    is_bijection, lemma_injective_in_range_is_onto, lemma_inverse_unique, BenchmarkConfig, BenchmarkReport, DatasetSummary,
    OfflineBootstrapOutput, PbeRequest, Permutation, PolynomialCoefficients, ServerStageState,
    SmdsParams, StageDurationSummary, UserDataset, UserEncryptedResponse, UserRecoveredResult,
    UserState,
};
use std::marker::PhantomData;
use std::time::{Duration, Instant};
use vstd::prelude::*;

verus! {

// ---------------------------------------------------------------------------
// Mixing, masks and permutations
// ---------------------------------------------------------------------------

/// The SplitMix64 finaliser.
pub open spec fn splitmix64_spec(x: u64) -> u64 {
    let x1 = x.wrapping_add(0x9E3779B97F4A7C15);
    let z1 = (x1 ^ (x1 >> 30u64)).wrapping_mul(0xBF58476D1CE4E5B9);
    let z2 = (z1 ^ (z1 >> 27u64)).wrapping_mul(0x94D049BB133111EB);
    z2 ^ (z2 >> 31u64)
}

fn splitmix64(x: u64) -> (r: u64)
    ensures
        r == splitmix64_spec(x),
{
    let x = x.wrapping_add(0x9E3779B97F4A7C15);
    let mut z = x;
    z = (z ^ (z >> 30u64)).wrapping_mul(0xBF58476D1CE4E5B9);
    z = (z ^ (z >> 27u64)).wrapping_mul(0x94D049BB133111EB);
    z ^ (z >> 31u64)
}

/// The sort key of index `idx` in the permutation derived from `seed` and
/// `salt`.
pub open spec fn perm_key(seed: u64, salt: u64, idx: usize) -> u64 {
    splitmix64_spec(seed ^ salt ^ (idx as u64).wrapping_mul(0xD6E8FEB86659FD93))
}

/// Index `i` comes before index `j`: by key, then by index.
pub open spec fn key_precedes(seed: u64, salt: u64, i: usize, j: usize) -> bool {
    ||| perm_key(seed, salt, i) < perm_key(seed, salt, j)
    ||| (perm_key(seed, salt, i) == perm_key(seed, salt, j) && i < j)
}

/// `s` is strictly increasing in the key order.
pub open spec fn sorted_by_key(s: Seq<usize>, seed: u64, salt: u64) -> bool {
    forall|a: int, b: int| 0 <= a < b < s.len() ==> key_precedes(seed, salt, s[a], s[b])
}

/// The indices `0..size` in the key order of `seed` and `salt` (a stable
/// sort of `0..size` by key).
pub open spec fn permutation_order(size: nat, seed: u64, salt: u64) -> Seq<usize> {
    choose|s: Seq<usize>| s.len() == size && is_bijection(s) && sorted_by_key(s, seed, salt)
}

/// Two key-sorted sequences with the same elements are equal.
pub proof fn lemma_sorted_by_key_unique(a: Seq<usize>, b: Seq<usize>, seed: u64, salt: u64)
    requires
        sorted_by_key(a, seed, salt),
        sorted_by_key(b, seed, salt),
        a.to_set() == b.to_set(),
    ensures
        a == b,
    decreases a.len(),
{
    if a.len() == 0 {
        if b.len() > 0 {
            assert(b.to_set().contains(b[0]));
        }
        assert(a =~= b);
    } else {
        assert(a.to_set().contains(a[0]));
        assert(b.to_set().contains(a[0]));
        let j = choose|j: int| 0 <= j < b.len() && b[j] == a[0];
        assert(a.to_set().contains(b[0]));
        let i = choose|i: int| 0 <= i < a.len() && a[i] == b[0];
        if a[0] != b[0] {
            assert(key_precedes(seed, salt, a[0], a[i]));
            assert(key_precedes(seed, salt, b[0], b[j]));
        }
        let a1 = a.drop_first();
        let b1 = b.drop_first();
        assert forall|x: usize| a1.to_set().contains(x) <==> b1.to_set().contains(x) by {
            if a1.to_set().contains(x) {
                let k = choose|k: int| 0 <= k < a1.len() && a1[k] == x;
                assert(a[k + 1] == x);
                assert(b.to_set().contains(x));
                let m = choose|m: int| 0 <= m < b.len() && b[m] == x;
                if m == 0 {
                    assert(key_precedes(seed, salt, a[0], a[k + 1]));
                }
                assert(b1[m - 1] == x);
            }
            if b1.to_set().contains(x) {
                let k = choose|k: int| 0 <= k < b1.len() && b1[k] == x;
                assert(b[k + 1] == x);
                assert(a.to_set().contains(x));
                let m = choose|m: int| 0 <= m < a.len() && a[m] == x;
                if m == 0 {
                    assert(key_precedes(seed, salt, b[0], b[k + 1]));
                }
                assert(a1[m - 1] == x);
            }
        }
        assert(a1.to_set() =~= b1.to_set());
        lemma_sorted_by_key_unique(a1, b1, seed, salt);
        assert forall|k: int| 0 <= k < a.len() implies a[k] == b[k] by {
            if k > 0 {
                assert(a[k] == a1[k - 1] && b[k] == b1[k - 1]);
            }
        }
        assert(a =~= b);
    }
}

/// The permutation of `0..size` that orders the indices by their keys
/// under `seed` and `salt`, ties by index.
fn derive_permutation(size: usize, seed: u64, salt: u64) -> (p: Permutation)
    ensures
        p.valid(),
        p.forward@.len() == size,
        sorted_by_key(p.forward@, seed, salt),
        p.forward@ == permutation_order(size as nat, seed, salt),
{
    let mut order: Vec<usize> = Vec::with_capacity(size);
    let mut keys: Vec<u64> = Vec::with_capacity(size);
    let mut i: usize = 0;
    while i < size
        invariant
            i <= size,
            order@.len() == i,
            keys@.len() == i,
            forall|q: int| 0 <= q < i ==> (#[trigger] keys@[q]) == perm_key(seed, salt, order@[q]),
            forall|q: int| 0 <= q < i ==> (#[trigger] order@[q]) < i,
            forall|v: usize| v < i ==> #[trigger] order@.contains(v),
            sorted_by_key(order@, seed, salt),
        decreases size - i,
    {
        let key = splitmix64(seed ^ salt ^ (i as u64).wrapping_mul(0xD6E8FEB86659FD93));
        let mut p: usize = 0;
        while p < order.len() && keys[p] <= key
            invariant
                p <= order@.len(),
                order@.len() == i,
                keys@.len() == i,
                key == perm_key(seed, salt, i),
                forall|q: int| 0 <= q < i ==> (#[trigger] keys@[q]) == perm_key(seed, salt, order@[q]),
                forall|q: int| 0 <= q < i ==> (#[trigger] order@[q]) < i,
                forall|q: int| 0 <= q < p ==> key_precedes(seed, salt, order@[q], i),
            decreases order@.len() - p,
        {
            p = p + 1;
        }
        let ghost before = order@;
        order.insert(p, i);
        keys.insert(p, key);
        proof {
            before.insert_ensures(p as int, i);
            assert forall|q: int| p <= q < before.len() implies key_precedes(seed, salt, i, before[q]) by {
                assert(perm_key(seed, salt, before[p as int]) > key);
                if q > p {
                    assert(key_precedes(seed, salt, before[p as int], before[q]));
                }
            }
            assert forall|a: int, b: int| 0 <= a < b < order@.len() implies key_precedes(
                seed,
                salt,
                order@[a],
                order@[b],
            ) by {
                if b < p {
                    assert(order@[a] == before[a] && order@[b] == before[b]);
                } else if b == p {
                    assert(order@[a] == before[a]);
                } else if a < p {
                    assert(order@[a] == before[a] && order@[b] == before[b - 1]);
                } else if a == p {
                    assert(order@[b] == before[b - 1]);
                } else {
                    assert(order@[a] == before[a - 1] && order@[b] == before[b - 1]);
                }
            }
            assert forall|v: usize| v < i + 1 implies #[trigger] order@.contains(v) by {
                if v == i {
                    assert(order@[p as int] == v);
                } else {
                    assert(before.contains(v));
                    let k = choose|k: int| 0 <= k < before.len() && before[k] == v;
                    if k < p {
                        assert(order@[k] == v);
                    } else {
                        assert(order@[k + 1] == v);
                    }
                }
            }
            assert forall|q: int| 0 <= q < i + 1 implies (#[trigger] keys@[q]) == perm_key(
                seed,
                salt,
                order@[q],
            ) by {
                if q > p {
                    assert(order@[q] == before[q - 1]);
                }
            }
        }
        i = i + 1;
    }
    proof {
        assert forall|a: int, b: int|
            0 <= a < order@.len() && 0 <= b < order@.len() && a != b implies order@[a] != order@[b] by {
            if a < b {
                assert(key_precedes(seed, salt, order@[a], order@[b]));
            } else {
                assert(key_precedes(seed, salt, order@[b], order@[a]));
            }
        }
        assert(is_bijection(order@));
        let chosen = permutation_order(size as nat, seed, salt);
        assert(order@.len() == size && is_bijection(order@) && sorted_by_key(order@, seed, salt));
        lemma_injective_in_range_is_onto(order@);
        lemma_injective_in_range_is_onto(chosen);
        assert(order@.to_set() =~= chosen.to_set()) by {
            assert forall|v: usize| order@.to_set().contains(v) <==> chosen.to_set().contains(v) by {
                if order@.contains(v) {
                    let k = choose|k: int| 0 <= k < order@.len() && order@[k] == v;
                    assert(v < size);
                }
                if chosen.contains(v) {
                    let k = choose|k: int| 0 <= k < chosen.len() && chosen[k] == v;
                    assert(v < size);
                }
            }
        }
        lemma_sorted_by_key_unique(order@, chosen, seed, salt);
    }
    match Permutation::new(order) {
        Ok(p) => p,
        Err(_) => Permutation::identity(size),
    }
}

/// The mask keystream of a user: the state starts at
/// `seed ^ ((user_id + 1) << 1)` and is advanced by SplitMix64 once per
/// value; `mask_state(seed, user_id, n)` is the state after `n` steps.
pub open spec fn mask_state(seed: u64, user_id: u64, n: nat) -> u64
    decreases n,
{
    if n == 0 {
        seed ^ (((user_id + 1) as u64) << 1u64)
    } else {
        splitmix64_spec(mask_state(seed, user_id, (n - 1) as nat) ^ ((n - 1) as u64))
    }
}

/// The mask of a user's values: each value XOR the keystream state after
/// its own step.
pub open spec fn mask_values(values: Seq<u64>, seed: u64, user_id: u64) -> Seq<u64> {
    Seq::new(values.len(), |i: int| values[i] ^ mask_state(seed, user_id, (i + 1) as nat))
}

/// The values masked by their mask.
pub open spec fn masked_values(values: Seq<u64>, seed: u64, user_id: u64) -> Seq<u64> {
    Seq::new(values.len(), |i: int| values[i] ^ mask_values(values, seed, user_id)[i])
}

fn derive_mask(values: &[u64], seed: u64, user_id: usize) -> (r: Vec<u64>)
    requires
        (user_id as u64) < u64::MAX,
    ensures
        r@ == mask_values(values@, seed, user_id as u64),
{
    let mut state: u64 = seed ^ (((user_id as u64) + 1) << 1u64);
    let mut r: Vec<u64> = Vec::with_capacity(values.len());
    let mut idx: usize = 0;
    while idx < values.len()
        invariant
            idx <= values@.len(),
            (user_id as u64) < u64::MAX,
            state == mask_state(seed, user_id as u64, idx as nat),
            r@ == mask_values(values@, seed, user_id as u64).take(idx as int),
        decreases values@.len() - idx,
    {
        state = splitmix64(state ^ (idx as u64));
        r.push(values[idx] ^ state);
        assert(r@ =~= mask_values(values@, seed, user_id as u64).take(idx as int + 1));
        idx = idx + 1;
    }
    assert(r@ =~= mask_values(values@, seed, user_id as u64));
    r
}

/// Unmasking recovers the values: a masked value XOR its mask is the value.
pub proof fn lemma_unmask_recovers_values(values: Seq<u64>, seed: u64, user_id: u64)
    ensures
        forall|i: int|
            0 <= i < values.len() ==> #[trigger] (masked_values(values, seed, user_id)[i] ^ mask_values(
                values,
                seed,
                user_id,
            )[i]) == values[i],
{
    assert forall|i: int| 0 <= i < values.len() implies #[trigger] (masked_values(values, seed, user_id)[i]
        ^ mask_values(values, seed, user_id)[i]) == values[i] by {
        let v = values[i];
        let m = mask_values(values, seed, user_id)[i];
        assert((v ^ m) ^ m == v) by (bit_vector);
    }
}

// ---------------------------------------------------------------------------
// The plaintext reference ranking
// ---------------------------------------------------------------------------

/// All values of all datasets, dataset after dataset.
pub open spec fn flatten(datasets: Seq<UserDataset>) -> Seq<u64>
    decreases datasets.len(),
{
    if datasets.len() == 0 {
        Seq::empty()
    } else {
        flatten(datasets.drop_last()) + datasets.last().values@
    }
}

/// Every value of every dataset is among the flattened values.
pub proof fn lemma_flatten_contains(datasets: Seq<UserDataset>, u: int, i: int)
    requires
        0 <= u < datasets.len(),
        0 <= i < datasets[u].values@.len(),
    ensures
        flatten(datasets).contains(datasets[u].values@[i]),
    decreases datasets.len(),
{
    let prefix = flatten(datasets.drop_last());
    let last = datasets.last().values@;
    if u == datasets.len() - 1 {
        assert(flatten(datasets)[prefix.len() + i] == last[i]);
    } else {
        lemma_flatten_contains(datasets.drop_last(), u, i);
        let k = choose|k: int| 0 <= k < prefix.len() && prefix[k] == datasets[u].values@[i];
        assert(flatten(datasets)[k] == prefix[k]);
    }
}

/// When no dataset is longer than `bound` and none holds 2^63, the
/// flattened values number at most `datasets.len() * bound` and none is
/// 2^63.
pub proof fn lemma_flatten_bounded(datasets: Seq<UserDataset>, bound: nat)
    requires
        forall|u: int| 0 <= u < datasets.len() ==> (#[trigger] datasets[u]).values@.len() <= bound,
        forall|u: int, i: int|
            0 <= u < datasets.len() && 0 <= i < datasets[u].values@.len() ==> #[trigger] datasets[u].values@[i]
                != 0x8000_0000_0000_0000u64,
    ensures
        flatten(datasets).len() <= datasets.len() * bound,
        roots_representable(flatten(datasets)),
    decreases datasets.len(),
{
    if datasets.len() > 0 {
        let init = datasets.drop_last();
        assert forall|u: int| 0 <= u < init.len() implies (#[trigger] init[u]).values@.len() <= bound by {
            assert(init[u] == datasets[u]);
        }
        assert forall|u: int, i: int| 0 <= u < init.len() && 0 <= i < init[u].values@.len() implies #[trigger] init[u].values@[i]
            != 0x8000_0000_0000_0000u64 by {
            assert(init[u] == datasets[u]);
        }
        lemma_flatten_bounded(init, bound);
        let last = datasets.last().values@;
        assert(datasets.last() == datasets[datasets.len() - 1]);
        assert(flatten(datasets).len() <= datasets.len() * bound) by (nonlinear_arith)
            requires
                flatten(datasets).len() == flatten(init).len() + last.len(),
                flatten(init).len() <= init.len() * bound,
                last.len() <= bound,
                init.len() + 1 == datasets.len(),
        ;
        assert forall|k: int| 0 <= k < flatten(datasets).len() implies (#[trigger] flatten(datasets)[k])
            != 0x8000_0000_0000_0000u64 by {
            if k < flatten(init).len() {
                assert(flatten(datasets)[k] == flatten(init)[k]);
            } else {
                assert(flatten(datasets)[k] == last[k - flatten(init).len()]);
                assert(datasets[datasets.len() - 1].values@[k - flatten(init).len()] != 0x8000_0000_0000_0000u64);
            }
        }
    }
}

fn flatten_datasets(datasets: &[UserDataset]) -> (r: Vec<u64>)
    ensures
        r@ == flatten(datasets@),
{
    let mut values: Vec<u64> = Vec::new();
    let mut u: usize = 0;
    while u < datasets.len()
        invariant
            u <= datasets@.len(),
            values@ == flatten(datasets@.take(u as int)),
        decreases datasets@.len() - u,
    {
        let dataset = &datasets[u];
        let mut i: usize = 0;
        let ghost start = values@;
        while i < dataset.values.len()
            invariant
                i <= dataset.values@.len(),
                values@ == start + dataset.values@.take(i as int),
            decreases dataset.values@.len() - i,
        {
            values.push(dataset.values[i]);
            assert(dataset.values@.take(i as int + 1) =~= dataset.values@.take(i as int).push(
                dataset.values@[i as int],
            ));
            assert(values@ =~= start + dataset.values@.take(i as int + 1));
            i = i + 1;
        }
        proof {
            assert(dataset.values@.take(i as int) =~= dataset.values@);
            assert(datasets@.take(u as int + 1).drop_last() =~= datasets@.take(u as int));
            assert(datasets@.take(u as int + 1).last() == datasets@[u as int]);
        }
        u = u + 1;
    }
    assert(datasets@.take(u as int) =~= datasets@);
    values
}

/// The dense rank of `v` among `all`: one more than the number of distinct
/// values of `all` below `v`.
pub open spec fn dense_rank(all: Seq<u64>, v: u64) -> nat {
    count_below(all.to_set(), v) + 1
}

/// The number of elements of `s` below `v`.
pub open spec fn count_below(s: Set<u64>, v: u64) -> nat {
    s.filter(|x: u64| x < v).len()
}

/// The reference ranks: each value of each dataset replaced by its dense
/// rank among the values of all datasets.
pub open spec fn rank_table(datasets: Seq<UserDataset>) -> Seq<Seq<u64>> {
    Seq::new(
        datasets.len(),
        |u: int|
            Seq::new(
                datasets[u].values@.len(),
                |i: int| dense_rank(flatten(datasets), datasets[u].values@[i]) as u64,
            ),
    )
}

/// The views of a table of rows.
pub open spec fn table_view(t: Seq<Vec<u64>>) -> Seq<Seq<u64>> {
    t.map_values(|row: Vec<u64>| row@)
}

/// Ranks respect the order of values: a smaller value has a smaller rank.
pub proof fn lemma_rank_monotone(all: Seq<u64>, a: u64, b: u64)
    requires
        all.contains(a),
        a < b,
    ensures
        dense_rank(all, a) < dense_rank(all, b),
{
    broadcast use vstd::seq_lib::seq_to_set_is_finite;
    let lo = all.to_set().filter(|x: u64| x < a);
    let hi = all.to_set().filter(|x: u64| x < b);
    assert(lo.insert(a).subset_of(hi));
    assert(!lo.contains(a));
    vstd::set_lib::lemma_len_subset(lo.insert(a), hi);
}

/// A value's rank is at least one and at most the number of distinct
/// values.
pub proof fn lemma_rank_bounds(all: Seq<u64>, v: u64)
    requires
        all.contains(v),
    ensures
        1 <= dense_rank(all, v) <= all.to_set().len(),
{
    broadcast use vstd::seq_lib::seq_to_set_is_finite;
    let below = all.to_set().filter(|x: u64| x < v);
    assert(below.insert(v).subset_of(all.to_set()));
    assert(!below.contains(v));
    vstd::set_lib::lemma_len_subset(below.insert(v), all.to_set());
}

proof fn lemma_set_ranks_dense(s: Set<u64>, k: nat)
    requires
        s.finite(),
        1 <= k <= s.len(),
    ensures
        exists|v: u64| s.contains(v) && #[trigger] count_below(s, v) + 1 == k,
    decreases s.len(),
{
    let m = lemma_set_has_max(s);
    let rest = s.remove(m);
    if k == s.len() {
        assert(s.filter(|x: u64| x < m) =~= rest);
        assert(s.contains(m) && count_below(s, m) + 1 == k);
    } else {
        lemma_set_ranks_dense(rest, k);
        let v = choose|v: u64| rest.contains(v) && #[trigger] count_below(rest, v) + 1 == k;
        assert(s.filter(|x: u64| x < v) =~= rest.filter(|x: u64| x < v));
        assert(s.contains(v) && count_below(s, v) + 1 == k);
    }
}

/// The ranks are dense: every rank from 1 to the number of distinct values
/// is the rank of some value.
pub proof fn lemma_ranks_dense(all: Seq<u64>, k: nat)
    requires
        1 <= k <= all.to_set().len(),
    ensures
        exists|i: int| 0 <= i < all.len() && #[trigger] dense_rank(all, all[i]) == k,
{
    broadcast use vstd::seq_lib::seq_to_set_is_finite;
    lemma_set_ranks_dense(all.to_set(), k);
    let v = choose|v: u64| all.to_set().contains(v) && #[trigger] count_below(all.to_set(), v) + 1 == k;
    let i = choose|i: int| 0 <= i < all.len() && all[i] == v;
    assert(dense_rank(all, all[i]) == k);
}

/// The dense rank of `v` among `all`, counting the distinct values of
/// `all` that are below `v`.
fn rank_of(distinct: &Vec<u64>, v: u64, Ghost(all): Ghost<Seq<u64>>) -> (rank: u64)
    requires
        distinct@ == distinct_in_order(all),
        all.contains(v),
    ensures
        rank == dense_rank(all, v),
{
    broadcast use vstd::seq_lib::seq_to_set_is_finite;
    proof {
        lemma_distinct_in_order(all);
    }
    let mut c: usize = 0;
    let mut j: usize = 0;
    assert(distinct@.take(0).to_set().filter(|x: u64| x < v) =~= Set::<u64>::empty());
    while j < distinct.len()
        invariant
            j <= distinct@.len(),
            distinct@.no_duplicates(),
            c <= j,
            c == distinct@.take(j as int).to_set().filter(|x: u64| x < v).len(),
        decreases distinct@.len() - j,
    {
        let ghost before = distinct@.take(j as int).to_set().filter(|x: u64| x < v);
        let x = distinct[j];
        proof {
            assert(distinct@.take(j as int + 1) =~= distinct@.take(j as int).push(x));
            distinct@.take(j as int).lemma_push_to_set_commute(x);
            assert(distinct@.take(j as int + 1).to_set() =~= distinct@.take(j as int).to_set().insert(x));
        }
        if x < v {
            proof {
                assert(distinct@.take(j as int + 1).to_set().filter(|y: u64| y < v) =~= before.insert(x));
                assert(!before.contains(x)) by {
                    if before.contains(x) {
                        let k = choose|k: int| 0 <= k < j && distinct@.take(j as int)[k] == x;
                        assert(distinct@[k] == distinct@[j as int]);
                    }
                }
            }
            c = c + 1;
        } else {
            assert(distinct@.take(j as int + 1).to_set().filter(|y: u64| y < v) =~= before);
        }
        j = j + 1;
    }
    proof {
        assert(distinct@.take(j as int) =~= distinct@);
        let below = all.to_set().filter(|x: u64| x < v);
        assert(distinct@.to_set().filter(|x: u64| x < v) =~= below);
        lemma_rank_bounds(all, v);
        assert(below.len() < all.to_set().len());
        assert(distinct@.to_set().len() == distinct@.len()) by {
            distinct@.unique_seq_to_set();
        }
    }
    (c + 1) as u64
}

/// Replaces each value of each dataset by its dense rank among the values of
/// all datasets: equal values get equal ranks, whichever dataset holds them.
pub fn plain_dedup_rank(datasets: &[UserDataset]) -> (r: Vec<Vec<u64>>)
    ensures
        table_view(r@) == rank_table(datasets@),
{
    let flattened = flatten_datasets(datasets);
    let distinct = canonicalize_dataset(&flattened).dedup_values;
    let mut table: Vec<Vec<u64>> = Vec::with_capacity(datasets.len());
    let mut u: usize = 0;
    while u < datasets.len()
        invariant
            u <= datasets@.len(),
            flattened@ == flatten(datasets@),
            distinct@ == distinct_in_order(flattened@),
            table@.len() == u,
            forall|q: int| 0 <= q < u ==> (#[trigger] table@[q])@ == rank_table(datasets@)[q],
        decreases datasets@.len() - u,
    {
        let values = &datasets[u].values;
        let mut row: Vec<u64> = Vec::with_capacity(values.len());
        let mut i: usize = 0;
        while i < values.len()
            invariant
                u < datasets@.len(),
                values@ == datasets@[u as int].values@,
                i <= values@.len(),
                flattened@ == flatten(datasets@),
                distinct@ == distinct_in_order(flattened@),
                row@ == rank_table(datasets@)[u as int].take(i as int),
            decreases values@.len() - i,
        {
            proof {
                lemma_flatten_contains(datasets@, u as int, i as int);
            }
            let rank = rank_of(&distinct, values[i], Ghost(flattened@));
            row.push(rank);
            assert(row@ =~= rank_table(datasets@)[u as int].take(i as int + 1));
            i = i + 1;
        }
        assert(row@ =~= rank_table(datasets@)[u as int]);
        table.push(row);
        u = u + 1;
    }
    assert(table_view(table@) =~= rank_table(datasets@));
    table
}

/// Shape and range of the datasets: the value count, the length of each
/// dataset, the number of distinct values, and the least and greatest value
/// (both 0 when there is none).
pub open spec fn summarizes(s: DatasetSummary, datasets: Seq<UserDataset>) -> bool {
    let all = flatten(datasets);
    &&& s.total_values == all.len()
    &&& s.per_user_lengths@ == datasets.map_values(|d: UserDataset| d.values@.len() as usize)
    &&& s.unique_values == all.to_set().len()
    &&& all.len() == 0 ==> s.min_value == 0 && s.max_value == 0
    &&& all.len() > 0 ==> {
        &&& all.contains(s.min_value)
        &&& all.contains(s.max_value)
        &&& forall|i: int| 0 <= i < all.len() ==> s.min_value <= #[trigger] all[i] <= s.max_value
    }
}

/// A value is among the flattened values exactly when some dataset holds
/// it.
pub proof fn lemma_flatten_members(datasets: Seq<UserDataset>, x: u64)
    ensures
        flatten(datasets).contains(x) <==> exists|u: int, i: int|
            0 <= u < datasets.len() && 0 <= i < datasets[u].values@.len() && #[trigger] datasets[u].values@[i]
                == x,
    decreases datasets.len(),
{
    if datasets.len() > 0 {
        let init = datasets.drop_last();
        let last = datasets.last().values@;
        lemma_flatten_members(init, x);
        let all = flatten(datasets);
        let prefix = flatten(init);
        if all.contains(x) {
            let k = choose|k: int| 0 <= k < all.len() && all[k] == x;
            if k < prefix.len() {
                assert(all[k] == prefix[k]);
                assert(prefix.contains(x));
                let (u, i) = choose|u: int, i: int|
                    0 <= u < init.len() && 0 <= i < init[u].values@.len() && #[trigger] init[u].values@[i] == x;
                assert(datasets[u] == init[u]);
                assert(datasets[u].values@[i] == x);
            } else {
                let i = k - prefix.len();
                assert(all[k] == last[i]);
                assert(datasets[datasets.len() - 1].values@[i] == x);
            }
        }
        if exists|u: int, i: int|
            0 <= u < datasets.len() && 0 <= i < datasets[u].values@.len() && #[trigger] datasets[u].values@[i] == x {
            let (u, i) = choose|u: int, i: int|
                0 <= u < datasets.len() && 0 <= i < datasets[u].values@.len() && #[trigger] datasets[u].values@[i]
                    == x;
            lemma_flatten_contains(datasets, u, i);
        }
    }
}

/// Reordering the datasets reorders their ranks: dataset `k` of the
/// reordered list, which is dataset `perm[k]` of the original list, keeps
/// the ranks it had there.
pub proof fn lemma_ranks_follow_reordering(d1: Seq<UserDataset>, d2: Seq<UserDataset>, perm: Seq<usize>)
    requires
        d1.len() <= usize::MAX,
        perm.len() == d1.len(),
        d2.len() == d1.len(),
        is_bijection(perm),
        forall|k: int| 0 <= k < d2.len() ==> (#[trigger] d2[k]).values@ == d1[perm[k] as int].values@,
    ensures
        forall|k: int| 0 <= k < d2.len() ==> #[trigger] rank_table(d2)[k] == rank_table(d1)[perm[k] as int],
{
    assert forall|i: int, j: int| 0 <= i < j < perm.len() implies perm[i] != perm[j] by {}
    lemma_injective_in_range_is_onto(perm);
    assert(flatten(d1).to_set() =~= flatten(d2).to_set()) by {
        assert forall|x: u64| flatten(d1).to_set().contains(x) <==> flatten(d2).to_set().contains(x) by {
            lemma_flatten_members(d1, x);
            lemma_flatten_members(d2, x);
            if flatten(d1).contains(x) {
                let (u, i) = choose|u: int, i: int|
                    0 <= u < d1.len() && 0 <= i < d1[u].values@.len() && #[trigger] d1[u].values@[i] == x;
                assert(perm.contains(u as usize));
                let k = choose|k: int| 0 <= k < perm.len() && perm[k] == u as usize;
                assert(perm[k] as int == u);
                assert(d2[k].values@ == d1[u].values@);
                assert(d2[k].values@[i] == x);
            }
            if flatten(d2).contains(x) {
                let (k, i) = choose|k: int, i: int|
                    0 <= k < d2.len() && 0 <= i < d2[k].values@.len() && #[trigger] d2[k].values@[i] == x;
                let u = perm[k] as int;
                assert(d1[u].values@[i] == x);
            }
        }
    }
    assert forall|k: int| 0 <= k < d2.len() implies #[trigger] rank_table(d2)[k] == rank_table(d1)[perm[k] as int] by {
        assert(rank_table(d2)[k] =~= rank_table(d1)[perm[k] as int]);
    }
}

/// Relabelling values by a strictly increasing map leaves the flattened
/// values relabelled the same way.
proof fn lemma_flatten_relabelled(d1: Seq<UserDataset>, d2: Seq<UserDataset>, f: spec_fn(u64) -> u64)
    requires
        d2.len() == d1.len(),
        forall|u: int| 0 <= u < d1.len() ==> (#[trigger] d2[u]).values@ == d1[u].values@.map_values(f),
    ensures
        flatten(d2) == flatten(d1).map_values(f),
    decreases d1.len(),
{
    if d1.len() > 0 {
        let i1 = d1.drop_last();
        let i2 = d2.drop_last();
        assert forall|u: int| 0 <= u < i1.len() implies (#[trigger] i2[u]).values@ == i1[u].values@.map_values(f) by {
            assert(i2[u] == d2[u] && i1[u] == d1[u]);
        }
        lemma_flatten_relabelled(i1, i2, f);
        assert(d2.last().values@ == d1.last().values@.map_values(f)) by {
            assert(d2.last() == d2[d2.len() - 1] && d1.last() == d1[d1.len() - 1]);
        }
        assert(flatten(d2) =~= flatten(d1).map_values(f));
    }
}

/// A strictly increasing map keeps the number of values below a value.
proof fn lemma_count_below_relabelled(s: Set<u64>, f: spec_fn(u64) -> u64, v: u64)
    requires
        s.finite(),
        forall|a: u64, b: u64| a < b ==> #[trigger] f(a) < #[trigger] f(b),
    ensures
        count_below(s.map(f), f(v)) == count_below(s, v),
{
    let lo = s.filter(|x: u64| x < v);
    let hi = s.map(f).filter(|y: u64| y < f(v));
    let img = lo.map(f);
    assert(hi =~= img) by {
        assert forall|y: u64| hi.contains(y) <==> img.contains(y) by {
            if hi.contains(y) {
                let x = choose|x: u64| s.contains(x) && y == f(x);
                if x >= v {
                    if x > v {
                        assert(f(v) < f(x));
                    }
                }
                assert(lo.contains(x));
            }
            if img.contains(y) {
                let x = choose|x: u64| lo.contains(x) && y == f(x);
                assert(f(x) < f(v));
                assert(s.map(f).contains(y));
            }
        }
    }
    assert(vstd::relations::injective_on(f, lo)) by {
        assert forall|x1: u64, x2: u64| lo.contains(x1) && lo.contains(x2) && #[trigger] f(x1) == #[trigger] f(x2) implies x1
            == x2 by {
            if x1 < x2 {
                assert(f(x1) < f(x2));
            } else if x2 < x1 {
                assert(f(x2) < f(x1));
            }
        }
    }
    vstd::set_lib::lemma_map_size(lo, lo.map(f), f);
}

/// Relabelling every value by a strictly increasing map leaves the ranks
/// unchanged: ranks depend on the order of the values only.
pub proof fn lemma_ranks_unchanged_by_relabelling(d1: Seq<UserDataset>, d2: Seq<UserDataset>, f: spec_fn(u64) -> u64)
    requires
        forall|a: u64, b: u64| a < b ==> #[trigger] f(a) < #[trigger] f(b),
        d2.len() == d1.len(),
        forall|u: int| 0 <= u < d1.len() ==> (#[trigger] d2[u]).values@ == d1[u].values@.map_values(f),
    ensures
        rank_table(d2) == rank_table(d1),
{
    broadcast use vstd::seq_lib::seq_to_set_is_finite;
    lemma_flatten_relabelled(d1, d2, f);
    let a1 = flatten(d1);
    let a2 = flatten(d2);
    assert(a2.to_set() =~= a1.to_set().map(f)) by {
        assert forall|y: u64| a2.to_set().contains(y) <==> a1.to_set().map(f).contains(y) by {
            if a2.contains(y) {
                let k = choose|k: int| 0 <= k < a2.len() && a2[k] == y;
                assert(a1.contains(a1[k]));
                assert(a1.to_set().contains(a1[k]) && y == f(a1[k]));
            }
            if a1.to_set().map(f).contains(y) {
                let x = choose|x: u64| a1.to_set().contains(x) && y == f(x);
                let k = choose|k: int| 0 <= k < a1.len() && a1[k] == x;
                assert(a2[k] == y);
            }
        }
    }
    assert forall|u: int| 0 <= u < d1.len() implies #[trigger] rank_table(d2)[u] == rank_table(d1)[u] by {
        assert forall|i: int| 0 <= i < d1[u].values@.len() implies rank_table(d2)[u][i] == rank_table(d1)[u][i] by {
            let v = d1[u].values@[i];
            assert(d2[u].values@[i] == f(v));
            lemma_count_below_relabelled(a1.to_set(), f, v);
        }
        assert(rank_table(d2)[u] =~= rank_table(d1)[u]);
    }
    assert(rank_table(d2) =~= rank_table(d1));
}

/// Flattening depends on the datasets' values only.
proof fn lemma_flatten_same_values(d1: Seq<UserDataset>, d2: Seq<UserDataset>)
    requires
        dataset_views(d1) == dataset_views(d2),
    ensures
        flatten(d1) == flatten(d2),
    decreases d1.len(),
{
    assert(d1.len() == dataset_views(d1).len() && d2.len() == dataset_views(d2).len());
    if d1.len() > 0 {
        assert(dataset_views(d1.drop_last()) =~= dataset_views(d2.drop_last())) by {
            assert forall|u: int| 0 <= u < d1.len() - 1 implies dataset_views(d1.drop_last())[u]
                == dataset_views(d2.drop_last())[u] by {
                assert(dataset_views(d1)[u] == dataset_views(d2)[u]);
            }
        }
        lemma_flatten_same_values(d1.drop_last(), d2.drop_last());
        assert(dataset_views(d1)[d1.len() - 1] == dataset_views(d2)[d2.len() - 1]);
    }
}

/// Two lists of datasets with the same values have the same flattened
/// values, the same reference ranks, and the same summaries and benchmark
/// reports: these depend on the values only.
pub proof fn lemma_same_values_same_report(
    r: BenchmarkReport,
    config: BenchmarkConfig,
    s: DatasetSummary,
    d1: Seq<UserDataset>,
    d2: Seq<UserDataset>,
)
    requires
        dataset_views(d1) == dataset_views(d2),
    ensures
        flatten(d1) == flatten(d2),
        rank_table(d1) == rank_table(d2),
        summarizes(s, d1) == summarizes(s, d2),
        report_matches(r, config, d1) == report_matches(r, config, d2),
{
    lemma_flatten_same_values(d1, d2);
    assert(d1.len() == dataset_views(d1).len() && d2.len() == dataset_views(d2).len());
    assert forall|u: int| 0 <= u < d1.len() implies #[trigger] d1[u].values@ == d2[u].values@ by {
        assert(dataset_views(d1)[u] == dataset_views(d2)[u]);
    }
    assert(rank_table(d1) =~= rank_table(d2)) by {
        assert forall|u: int| 0 <= u < d1.len() implies rank_table(d1)[u] == rank_table(d2)[u] by {
            assert(rank_table(d1)[u] =~= rank_table(d2)[u]);
        }
    }
    assert(d1.map_values(|d: UserDataset| d.values@.len() as usize) =~= d2.map_values(
        |d: UserDataset| d.values@.len() as usize,
    ));
    assert(summarizes(r.dataset_summary, d1) == summarizes(r.dataset_summary, d2));
}

/// Summarizes the datasets: value count, dataset lengths, distinct values,
/// least and greatest value.
pub fn summarize_datasets(datasets: &[UserDataset]) -> (s: DatasetSummary)
    ensures
        summarizes(s, datasets@),
{
    let flattened = flatten_datasets(datasets);
    let distinct = canonicalize_dataset(&flattened).dedup_values;
    let mut per_user_lengths: Vec<usize> = Vec::with_capacity(datasets.len());
    let mut u: usize = 0;
    while u < datasets.len()
        invariant
            u <= datasets@.len(),
            per_user_lengths@ == datasets@.take(u as int).map_values(
                |d: UserDataset| d.values@.len() as usize,
            ),
        decreases datasets@.len() - u,
    {
        per_user_lengths.push(datasets[u].values.len());
        assert(per_user_lengths@ =~= datasets@.take(u as int + 1).map_values(
            |d: UserDataset| d.values@.len() as usize,
        ));
        u = u + 1;
    }
    assert(datasets@.take(u as int) =~= datasets@);
    let mut min_value: u64 = 0;
    let mut max_value: u64 = 0;
    if flattened.len() > 0 {
        min_value = flattened[0];
        max_value = flattened[0];
        assert(flattened@.take(1)[0] == min_value);
        let mut i: usize = 1;
        while i < flattened.len()
            invariant
                1 <= i <= flattened@.len(),
                flattened@.take(i as int).contains(min_value),
                flattened@.take(i as int).contains(max_value),
                forall|k: int| 0 <= k < i ==> min_value <= #[trigger] flattened@[k] <= max_value,
            decreases flattened@.len() - i,
        {
            let x = flattened[i];
            let ghost t0 = flattened@.take(i as int);
            let ghost t1 = flattened@.take(i as int + 1);
            proof {
                assert(t1 =~= t0.push(x));
                let a = choose|a: int| 0 <= a < t0.len() && t0[a] == min_value;
                assert(t1[a] == min_value);
                let b = choose|b: int| 0 <= b < t0.len() && t0[b] == max_value;
                assert(t1[b] == max_value);
                assert(t1[i as int] == x);
            }
            if x < min_value {
                min_value = x;
            }
            if x > max_value {
                max_value = x;
            }
            i = i + 1;
        }
        proof {
            assert(flattened@.take(i as int) =~= flattened@);
        }
    }
    proof {
        lemma_distinct_in_order(flattened@);
        distinct@.unique_seq_to_set();
    }
    DatasetSummary {
        total_values: flattened.len(),
        per_user_lengths,
        unique_values: distinct.len(),
        min_value,
        max_value,
    }
}

// ---------------------------------------------------------------------------
// The protocol engine
// ---------------------------------------------------------------------------

/// No value is 2^63, whose negation as an `i64` overflows when the root
/// polynomial is built.
pub open spec fn roots_representable(values: Seq<u64>) -> bool {
    forall|i: int| 0 <= i < values.len() ==> (#[trigger] values[i]) != 0x8000_0000_0000_0000u64
}

/// What the offline phase holds for user `u` with dataset `d`.
pub open spec fn user_state_matches(st: UserState, d: UserDataset, u: int, seed: u64) -> bool {
    &&& st.user_id == u
    &&& st.sample_seed == seed ^ (u as u64)
    &&& st.original_values@ == d.values@
    &&& st.canonical_values@ == distinct_in_order(d.values@)
    &&& st.mask_r_prime@ == mask_values(d.values@, seed, u as u64)
    &&& st.pi1.valid()
    &&& st.pi1.forward@.len() == d.values@.len()
    &&& sorted_by_key(st.pi1.forward@, seed, 0xA1)
    &&& st.pi1.forward@ == permutation_order(d.values@.len(), seed, 0xA1)
    &&& st.pi2.valid()
    &&& st.pi2.forward@.len() == d.values@.len()
    &&& sorted_by_key(st.pi2.forward@, seed, 0xB2)
    &&& st.pi2.forward@ == permutation_order(d.values@.len(), seed, 0xB2)
}

/// What the offline phase outputs for `datasets` under `params` and `seed`.
pub open spec fn offline_matches(
    out: OfflineBootstrapOutput,
    params: SmdsParams,
    datasets: Seq<UserDataset>,
    seed: u64,
) -> bool {
    let all = flatten(datasets);
    &&& out.params == params
    &&& out.global_reference.original_values@ == all
    &&& out.global_reference.dedup_values@ == distinct_in_order(all)
    &&& out.global_reference.original_to_dedup_index@.len() == all.len()
    &&& forall|i: int|
        0 <= i < all.len() ==> {
            &&& (#[trigger] out.global_reference.original_to_dedup_index@[i])
                < out.global_reference.dedup_values@.len()
            &&& out.global_reference.dedup_values@[out.global_reference.original_to_dedup_index@[i] as int]
                == all[i]
        }
    &&& bignum_values(out.root_polynomial.coeffs@) == root_polynomial(distinct_in_order(all))
    &&& out.user_states@.len() == datasets.len()
    &&& forall|u: int|
        0 <= u < datasets.len() ==> user_state_matches(#[trigger] out.user_states@[u], datasets[u], u, seed)
}

/// The request of user `u` with dataset `d`.
pub open spec fn request_matches(req: PbeRequest, d: UserDataset, u: int, seed: u64) -> bool {
    &&& req.user_id == u
    &&& req.original_values@ == d.values@
    &&& req.masked_values@ == masked_values(d.values@, seed, u as u64)
    &&& req.pi1.valid()
    &&& req.pi1.forward@.len() == d.values@.len()
    &&& sorted_by_key(req.pi1.forward@, seed, 0xA1)
    &&& req.pi1.forward@ == permutation_order(d.values@.len(), seed, 0xA1)
    &&& req.pi2.valid()
    &&& req.pi2.forward@.len() == d.values@.len()
    &&& sorted_by_key(req.pi2.forward@, seed, 0xB2)
    &&& req.pi2.forward@ == permutation_order(d.values@.len(), seed, 0xB2)
}

/// The rank a user recovers from a ciphertext holding `v`: `v` when it is a
/// `u64`, else 0.
pub open spec fn recovered_rank(v: int) -> u64 {
    if 0 <= v < 0x1_0000_0000_0000_0000 {
        v as u64
    } else {
        0
    }
}

/// The recovered ranks of each user.
pub open spec fn recovered_table(rs: Seq<UserRecoveredResult>) -> Seq<Seq<u64>> {
    rs.map_values(|r: UserRecoveredResult| r.ranks_in_original_order@)
}

/// The protocol engine, parameterised by its homomorphic backend.
#[derive(Debug)]
pub struct SmdsEngine<B = LocalMultiSheBackend> {
    pub params: SmdsParams,
    pub backend: PhantomData<B>,
}

impl<B> Clone for SmdsEngine<B> {
    fn clone(&self) -> (e: Self)
        ensures
            e.params == self.params,
    {
        SmdsEngine { params: self.params, backend: PhantomData }
    }
}

impl<B> SmdsEngine<B> {
    /// An engine with the given parameters.
    pub fn new(params: SmdsParams) -> (e: Self)
        ensures
            e.params == params,
    {
        SmdsEngine { params, backend: PhantomData }
    }

    /// The offline phase: the deduplicated global reference, the root
    /// polynomial of the distinct values, and for each user the seeded
    /// mask and permutations.
    pub fn build_offline_bootstrap(&self, datasets: &[UserDataset], seed: u64) -> (out: OfflineBootstrapOutput)
        requires
            roots_representable(flatten(datasets@)),
            flatten(datasets@).len() + 2 <= usize::MAX,
        ensures
            offline_matches(out, self.params, datasets@, seed),
    {
        let flattened = flatten_datasets(datasets);
        let global_reference = canonicalize_dataset(&flattened);
        proof {
            lemma_distinct_in_order(flattened@);
            assert forall|i: int| 0 <= i < global_reference.dedup_values@.len() implies (#[trigger] global_reference.dedup_values@[i])
                != 0x8000_0000_0000_0000u64 by {
                assert(distinct_in_order(flattened@).contains(global_reference.dedup_values@[i]));
                let k = choose|k: int| 0 <= k < flattened@.len() && flattened@[k] == global_reference.dedup_values@[i];
            }
        }
        let root_polynomial = PolynomialCoefficients {
            coeffs: build_root_polynomial(&global_reference.dedup_values),
        };
        let mut user_states: Vec<UserState> = Vec::with_capacity(datasets.len());
        let mut u: usize = 0;
        while u < datasets.len()
            invariant
                u <= datasets@.len(),
                user_states@.len() == u,
                forall|q: int| 0 <= q < u ==> user_state_matches(#[trigger] user_states@[q], datasets@[q], q, seed),
            decreases datasets@.len() - u,
        {
            let values = &datasets[u].values;
            let state = UserState {
                user_id: u,
                sample_seed: seed ^ (u as u64),
                original_values: values.clone(),
                canonical_values: canonicalize_dataset(values).dedup_values,
                mask_r_prime: derive_mask(values, seed, u),
                pi1: derive_permutation(values.len(), seed, 0xA1),
                pi2: derive_permutation(values.len(), seed, 0xB2),
            };
            assert(state.original_values@ =~= values@);
            user_states.push(state);
            u = u + 1;
        }
        OfflineBootstrapOutput { params: self.params, global_reference, user_states, root_polynomial }
    }

    /// Each user's request: the values, the values masked by the user's
    /// mask, and the two permutations.
    pub fn build_pbe_requests(&self, datasets: &[UserDataset], seed: u64) -> (r: Vec<PbeRequest>)
        ensures
            r@.len() == datasets@.len(),
            forall|u: int| 0 <= u < datasets@.len() ==> request_matches(#[trigger] r@[u], datasets@[u], u, seed),
    {
        let mut requests: Vec<PbeRequest> = Vec::with_capacity(datasets.len());
        let mut u: usize = 0;
        while u < datasets.len()
            invariant
                u <= datasets@.len(),
                requests@.len() == u,
                forall|q: int| 0 <= q < u ==> request_matches(#[trigger] requests@[q], datasets@[q], q, seed),
            decreases datasets@.len() - u,
        {
            let values = &datasets[u].values;
            let mask_r_prime = derive_mask(values, seed, u);
            let pi1 = derive_permutation(values.len(), seed, 0xA1);
            let pi2 = derive_permutation(values.len(), seed, 0xB2);
            let mut masked: Vec<u64> = Vec::with_capacity(values.len());
            let mut i: usize = 0;
            while i < values.len()
                invariant
                    i <= values@.len(),
                    mask_r_prime@ == mask_values(values@, seed, u as u64),
                    masked@ == masked_values(values@, seed, u as u64).take(i as int),
                decreases values@.len() - i,
            {
                masked.push(values[i] ^ mask_r_prime[i]);
                assert(masked@ =~= masked_values(values@, seed, u as u64).take(i as int + 1));
                i = i + 1;
            }
            assert(masked@ =~= masked_values(values@, seed, u as u64));
            let original_values = values.clone();
            assert(original_values@ =~= values@);
            requests.push(PbeRequest { user_id: u, original_values, masked_values: masked, pi1, pi2 });
            u = u + 1;
        }
        requests
    }

    /// What the server computes in the clear: all values in ascending order
    /// and the reference ranks.
    pub fn server_stage(&self, datasets: &[UserDataset]) -> (st: ServerStageState)
        ensures
            is_sorted(st.sorted_values@),
            st.sorted_values@.to_multiset() == flatten(datasets@).to_multiset(),
            table_view(st.dedup_ranks@) == rank_table(datasets@),
    {
        let flattened = flatten_datasets(datasets);
        let sorted_values = sort_values(&flattened);
        let dedup_ranks = plain_dedup_rank(datasets);
        ServerStageState { sorted_values, dedup_ranks }
    }
}

/// The offline phase and the requests agree: each request carries the
/// user's values and the same two permutations (forward and inverse) as the
/// user's offline state, and each masked value is the value XOR the offline
/// mask.
pub proof fn lemma_requests_agree_with_offline(
    out: OfflineBootstrapOutput,
    requests: Seq<PbeRequest>,
    params: SmdsParams,
    datasets: Seq<UserDataset>,
    seed: u64,
)
    requires
        offline_matches(out, params, datasets, seed),
        requests.len() == datasets.len(),
        forall|u: int| 0 <= u < datasets.len() ==> request_matches(#[trigger] requests[u], datasets[u], u, seed),
    ensures
        forall|u: int|
            0 <= u < datasets.len() ==> {
                &&& (#[trigger] requests[u]).original_values@ == out.user_states@[u].original_values@
                &&& requests[u].pi1.forward@ == out.user_states@[u].pi1.forward@
                &&& requests[u].pi1.inverse@ == out.user_states@[u].pi1.inverse@
                &&& requests[u].pi2.forward@ == out.user_states@[u].pi2.forward@
                &&& requests[u].pi2.inverse@ == out.user_states@[u].pi2.inverse@
                &&& requests[u].masked_values@.len() == out.user_states@[u].mask_r_prime@.len()
                &&& forall|i: int|
                    0 <= i < requests[u].masked_values@.len() ==> requests[u].masked_values@[i]
                        == (requests[u].original_values@[i] ^ out.user_states@[u].mask_r_prime@[i])
                &&& forall|i: int|
                    0 <= i < requests[u].masked_values@.len() ==> (requests[u].masked_values@[i]
                        ^ out.user_states@[u].mask_r_prime@[i]) == datasets[u].values@[i]
            },
{
    assert forall|u: int| 0 <= u < datasets.len() implies {
        &&& (#[trigger] requests[u]).original_values@ == out.user_states@[u].original_values@
        &&& requests[u].pi1.forward@ == out.user_states@[u].pi1.forward@
        &&& requests[u].pi1.inverse@ == out.user_states@[u].pi1.inverse@
        &&& requests[u].pi2.forward@ == out.user_states@[u].pi2.forward@
        &&& requests[u].pi2.inverse@ == out.user_states@[u].pi2.inverse@
        &&& requests[u].masked_values@.len() == out.user_states@[u].mask_r_prime@.len()
        &&& forall|i: int|
            0 <= i < requests[u].masked_values@.len() ==> requests[u].masked_values@[i]
                == (requests[u].original_values@[i] ^ out.user_states@[u].mask_r_prime@[i])
        &&& forall|i: int|
            0 <= i < requests[u].masked_values@.len() ==> (requests[u].masked_values@[i]
                ^ out.user_states@[u].mask_r_prime@[i]) == datasets[u].values@[i]
    } by {
        let st = out.user_states@[u];
        let req = requests[u];
        assert(user_state_matches(st, datasets[u], u, seed));
        assert(request_matches(req, datasets[u], u, seed));
        lemma_inverse_unique(req.pi1.inverse@, st.pi1.inverse@, st.pi1.forward@);
        lemma_inverse_unique(req.pi2.inverse@, st.pi2.inverse@, st.pi2.forward@);
        lemma_unmask_recovers_values(datasets[u].values@, seed, u as u64);
        assert forall|i: int| 0 <= i < req.masked_values@.len() implies (req.masked_values@[i]
            ^ st.mask_r_prime@[i]) == datasets[u].values@[i] by {
            assert(masked_values(datasets[u].values@, seed, u as u64)[i] ^ mask_values(
                datasets[u].values@,
                seed,
                u as u64,
            )[i] == datasets[u].values@[i]);
        }
    }
}

/// SplitMix64 is the published generator: started at state 0 it outputs
/// 0xE220A8397B1DCDAF, 0x6E789E6AA1B965F4 and 0x06C45D188009454F (its state
/// advances by 0x9E3779B97F4A7C15 before each output is mixed).
pub proof fn lemma_splitmix64_reference_outputs()
    ensures
        splitmix64_spec(0) == 0xE220A8397B1DCDAFu64,
        splitmix64_spec(0x9E3779B97F4A7C15) == 0x6E789E6AA1B965F4u64,
        splitmix64_spec(0x3C6EF372FE94F82A) == 0x06C45D188009454Fu64,
{
    assert(splitmix64_spec(0) == 0xE220A8397B1DCDAFu64) by (bit_vector);
    assert(splitmix64_spec(0x9E3779B97F4A7C15) == 0x6E789E6AA1B965F4u64) by (bit_vector);
    assert(splitmix64_spec(0x3C6EF372FE94F82A) == 0x06C45D188009454Fu64) by (bit_vector);
}

/// `p` lists positions in increasing order of their mixed keys
/// `splitmix64(word ^ position * 0xD6E8FEB86659FD93)` (wrapping), ties by
/// position.
pub open spec fn ordered_by_mixed_keys(p: Seq<usize>, word: u64) -> bool {
    forall|a: int, b: int|
        0 <= a < b < p.len() ==> {
            ||| splitmix64_spec(word ^ (p[a] as u64).wrapping_mul(0xD6E8FEB86659FD93u64)) < splitmix64_spec(
                word ^ (p[b] as u64).wrapping_mul(0xD6E8FEB86659FD93u64),
            )
            ||| (splitmix64_spec(word ^ (p[a] as u64).wrapping_mul(0xD6E8FEB86659FD93u64)) == splitmix64_spec(
                word ^ (p[b] as u64).wrapping_mul(0xD6E8FEB86659FD93u64),
            ) && p[a] < p[b])
        }
}

proof fn lemma_sorted_is_ordered_by_mixed_keys(p: Seq<usize>, seed: u64, salt: u64)
    requires
        sorted_by_key(p, seed, salt),
    ensures
        ordered_by_mixed_keys(p, seed ^ salt),
{
    assert forall|a: int, b: int| 0 <= a < b < p.len() implies {
        ||| splitmix64_spec((seed ^ salt) ^ (p[a] as u64).wrapping_mul(0xD6E8FEB86659FD93u64)) < splitmix64_spec(
            (seed ^ salt) ^ (p[b] as u64).wrapping_mul(0xD6E8FEB86659FD93u64),
        )
        ||| (splitmix64_spec((seed ^ salt) ^ (p[a] as u64).wrapping_mul(0xD6E8FEB86659FD93u64))
            == splitmix64_spec((seed ^ salt) ^ (p[b] as u64).wrapping_mul(0xD6E8FEB86659FD93u64)) && p[a]
            < p[b])
    } by {
        assert(key_precedes(seed, salt, p[a], p[b]));
    }
}

/// Each user's offline permutations order the user's positions by mixed
/// keys of the seed: `pi1` with the word `seed ^ 0xA1`, `pi2` with the word
/// `seed ^ 0xB2`.
pub proof fn lemma_offline_permutations_follow_the_seed(
    out: OfflineBootstrapOutput,
    params: SmdsParams,
    datasets: Seq<UserDataset>,
    seed: u64,
)
    requires
        offline_matches(out, params, datasets, seed),
    ensures
        forall|u: int|
            0 <= u < datasets.len() ==> {
                &&& (#[trigger] out.user_states@[u]).pi1.forward@.len() == datasets[u].values@.len()
                &&& is_bijection(out.user_states@[u].pi1.forward@)
                &&& ordered_by_mixed_keys(out.user_states@[u].pi1.forward@, seed ^ 0xA1u64)
                &&& out.user_states@[u].pi2.forward@.len() == datasets[u].values@.len()
                &&& is_bijection(out.user_states@[u].pi2.forward@)
                &&& ordered_by_mixed_keys(out.user_states@[u].pi2.forward@, seed ^ 0xB2u64)
            },
{
    assert forall|u: int| 0 <= u < datasets.len() implies {
        &&& (#[trigger] out.user_states@[u]).pi1.forward@.len() == datasets[u].values@.len()
        &&& is_bijection(out.user_states@[u].pi1.forward@)
        &&& ordered_by_mixed_keys(out.user_states@[u].pi1.forward@, seed ^ 0xA1u64)
        &&& out.user_states@[u].pi2.forward@.len() == datasets[u].values@.len()
        &&& is_bijection(out.user_states@[u].pi2.forward@)
        &&& ordered_by_mixed_keys(out.user_states@[u].pi2.forward@, seed ^ 0xB2u64)
    } by {
        let st = out.user_states@[u];
        assert(user_state_matches(st, datasets[u], u, seed));
        lemma_sorted_is_ordered_by_mixed_keys(st.pi1.forward@, seed, 0xA1);
        lemma_sorted_is_ordered_by_mixed_keys(st.pi2.forward@, seed, 0xB2);
    }
}

/// Each user's request permutations order the user's positions by mixed
/// keys of the seed: `pi1` with the word `seed ^ 0xA1`, `pi2` with the word
/// `seed ^ 0xB2`.
pub proof fn lemma_request_permutations_follow_the_seed(
    requests: Seq<PbeRequest>,
    datasets: Seq<UserDataset>,
    seed: u64,
)
    requires
        requests.len() == datasets.len(),
        forall|u: int| 0 <= u < datasets.len() ==> request_matches(#[trigger] requests[u], datasets[u], u, seed),
    ensures
        forall|u: int|
            0 <= u < datasets.len() ==> {
                &&& (#[trigger] requests[u]).pi1.forward@.len() == datasets[u].values@.len()
                &&& is_bijection(requests[u].pi1.forward@)
                &&& ordered_by_mixed_keys(requests[u].pi1.forward@, seed ^ 0xA1u64)
                &&& requests[u].pi2.forward@.len() == datasets[u].values@.len()
                &&& is_bijection(requests[u].pi2.forward@)
                &&& ordered_by_mixed_keys(requests[u].pi2.forward@, seed ^ 0xB2u64)
            },
{
    assert forall|u: int| 0 <= u < datasets.len() implies {
        &&& (#[trigger] requests[u]).pi1.forward@.len() == datasets[u].values@.len()
        &&& is_bijection(requests[u].pi1.forward@)
        &&& ordered_by_mixed_keys(requests[u].pi1.forward@, seed ^ 0xA1u64)
        &&& requests[u].pi2.forward@.len() == datasets[u].values@.len()
        &&& is_bijection(requests[u].pi2.forward@)
        &&& ordered_by_mixed_keys(requests[u].pi2.forward@, seed ^ 0xB2u64)
    } by {
        assert(request_matches(requests[u], datasets[u], u, seed));
        lemma_sorted_is_ordered_by_mixed_keys(requests[u].pi1.forward@, seed, 0xA1);
        lemma_sorted_is_ordered_by_mixed_keys(requests[u].pi2.forward@, seed, 0xB2);
    }
}

/// A key-sorted bijection of `0..size` is the key order.
proof fn lemma_order_is(size: nat, seed: u64, salt: u64, s: Seq<usize>)
    requires
        s.len() == size,
        is_bijection(s),
        sorted_by_key(s, seed, salt),
    ensures
        permutation_order(size, seed, salt) == s,
{
    let c = permutation_order(size, seed, salt);
    assert(c.len() == size && is_bijection(c) && sorted_by_key(c, seed, salt));
    lemma_injective_in_range_is_onto(s);
    lemma_injective_in_range_is_onto(c);
    assert(s.to_set() =~= c.to_set()) by {
        assert forall|v: usize| s.to_set().contains(v) <==> c.to_set().contains(v) by {
            if s.contains(v) {
                let k = choose|k: int| 0 <= k < s.len() && s[k] == v;
                assert(v < size);
            }
            if c.contains(v) {
                let k = choose|k: int| 0 <= k < c.len() && c[k] == v;
                assert(v < size);
            }
        }
    }
    lemma_sorted_by_key_unique(s, c, seed, salt);
}

proof fn lemma_order_seed5_salt_a1()
    ensures
        permutation_order(4, 5, 0xA1) == seq![3usize, 2, 0, 1],
{
    assert(splitmix64_spec(5u64 ^ 0xA1u64 ^ (0u64).wrapping_mul(0xD6E8FEB86659FD93u64)) == 0xc09b8405b020a230u64) by (bit_vector);
    assert(splitmix64_spec(5u64 ^ 0xA1u64 ^ (1u64).wrapping_mul(0xD6E8FEB86659FD93u64)) == 0xd3d897066b7b94e8u64) by (bit_vector);
    assert(splitmix64_spec(5u64 ^ 0xA1u64 ^ (2u64).wrapping_mul(0xD6E8FEB86659FD93u64)) == 0x720526602ef5af4cu64) by (bit_vector);
    assert(splitmix64_spec(5u64 ^ 0xA1u64 ^ (3u64).wrapping_mul(0xD6E8FEB86659FD93u64)) == 0x5bada9f97cb57785u64) by (bit_vector);
    assert(perm_key(5, 0xA1, 0) == 0xc09b8405b020a230u64);
    assert(perm_key(5, 0xA1, 1) == 0xd3d897066b7b94e8u64);
    assert(perm_key(5, 0xA1, 2) == 0x720526602ef5af4cu64);
    assert(perm_key(5, 0xA1, 3) == 0x5bada9f97cb57785u64);
    let s = seq![3usize, 2, 0, 1];
    assert(s[0] == 3 && s[1] == 2 && s[2] == 0 && s[3] == 1);
    assert(is_bijection(s));
    assert(sorted_by_key(s, 5, 0xA1));
    lemma_order_is(4, 5, 0xA1, s);
}

proof fn lemma_order_seed7_salt_a1()
    ensures
        permutation_order(4, 7, 0xA1) == seq![1usize, 2, 3, 0],
{
    assert(splitmix64_spec(7u64 ^ 0xA1u64 ^ (0u64).wrapping_mul(0xD6E8FEB86659FD93u64)) == 0xc5c137f9c4107517u64) by (bit_vector);
    assert(splitmix64_spec(7u64 ^ 0xA1u64 ^ (1u64).wrapping_mul(0xD6E8FEB86659FD93u64)) == 0x038a998fb9200ca7u64) by (bit_vector);
    assert(splitmix64_spec(7u64 ^ 0xA1u64 ^ (2u64).wrapping_mul(0xD6E8FEB86659FD93u64)) == 0x46628dd65fbaab47u64) by (bit_vector);
    assert(splitmix64_spec(7u64 ^ 0xA1u64 ^ (3u64).wrapping_mul(0xD6E8FEB86659FD93u64)) == 0x6a0019307c1a09aau64) by (bit_vector);
    assert(perm_key(7, 0xA1, 0) == 0xc5c137f9c4107517u64);
    assert(perm_key(7, 0xA1, 1) == 0x038a998fb9200ca7u64);
    assert(perm_key(7, 0xA1, 2) == 0x46628dd65fbaab47u64);
    assert(perm_key(7, 0xA1, 3) == 0x6a0019307c1a09aau64);
    let s = seq![1usize, 2, 3, 0];
    assert(s[0] == 1 && s[1] == 2 && s[2] == 3 && s[3] == 0);
    assert(is_bijection(s));
    assert(sorted_by_key(s, 7, 0xA1));
    lemma_order_is(4, 7, 0xA1, s);
}

proof fn lemma_order_seed5_salt_b2()
    ensures
        permutation_order(4, 5, 0xB2) == seq![0usize, 3, 2, 1],
{
    assert(splitmix64_spec(5u64 ^ 0xB2u64 ^ (0u64).wrapping_mul(0xD6E8FEB86659FD93u64)) == 0x3b7a1aa8445aa94fu64) by (bit_vector);
    assert(splitmix64_spec(5u64 ^ 0xB2u64 ^ (1u64).wrapping_mul(0xD6E8FEB86659FD93u64)) == 0xb5258040e264fc5bu64) by (bit_vector);
    assert(splitmix64_spec(5u64 ^ 0xB2u64 ^ (2u64).wrapping_mul(0xD6E8FEB86659FD93u64)) == 0xa2ec81a82a6a3f4au64) by (bit_vector);
    assert(splitmix64_spec(5u64 ^ 0xB2u64 ^ (3u64).wrapping_mul(0xD6E8FEB86659FD93u64)) == 0x88eb92b7b3fce81au64) by (bit_vector);
    assert(perm_key(5, 0xB2, 0) == 0x3b7a1aa8445aa94fu64);
    assert(perm_key(5, 0xB2, 1) == 0xb5258040e264fc5bu64);
    assert(perm_key(5, 0xB2, 2) == 0xa2ec81a82a6a3f4au64);
    assert(perm_key(5, 0xB2, 3) == 0x88eb92b7b3fce81au64);
    let s = seq![0usize, 3, 2, 1];
    assert(s[0] == 0 && s[1] == 3 && s[2] == 2 && s[3] == 1);
    assert(is_bijection(s));
    assert(sorted_by_key(s, 5, 0xB2));
    lemma_order_is(4, 5, 0xB2, s);
}

/// The permutations of four positions: seed 5 gives [3, 2, 0, 1] with the
/// salt 0xA1 and [0, 3, 2, 1] with the salt 0xB2; seed 7 gives [1, 2, 3, 0]
/// with the salt 0xA1. Both the seed and the salt change the permutation.
pub proof fn lemma_permutation_examples()
    ensures
        permutation_order(4, 5, 0xA1) == seq![3usize, 2, 0, 1],
        permutation_order(4, 7, 0xA1) == seq![1usize, 2, 3, 0],
        permutation_order(4, 5, 0xB2) == seq![0usize, 3, 2, 1],
        permutation_order(4, 5, 0xA1) != permutation_order(4, 7, 0xA1),
        permutation_order(4, 5, 0xA1) != permutation_order(4, 5, 0xB2),
{
    lemma_order_seed5_salt_a1();
    lemma_order_seed7_salt_a1();
    lemma_order_seed5_salt_b2();
    assert(seq![3usize, 2, 0, 1][0] != seq![1usize, 2, 3, 0][0]);
    assert(seq![3usize, 2, 0, 1][0] != seq![0usize, 3, 2, 1][0]);
}

/// The keystream of user `u` starts from the seed: its first state is
/// `seed ^ ((u + 1) << 1)`, and the state after step `i` is the mix of the
/// previous state XOR `i`.
proof fn lemma_mask_state_steps(seed: u64, u: int, i: int)
    requires
        0 <= u < usize::MAX,
        0 <= i,
    ensures
        mask_state(seed, u as u64, 1) == splitmix64_spec(seed ^ (((u + 1) as u64) << 1u64)),
        mask_state(seed, u as u64, (i + 1) as nat) == splitmix64_spec(
            mask_state(seed, u as u64, i as nat) ^ (i as u64),
        ),
{
    assert(((u as u64) + 1) as u64 == (u + 1) as u64);
    let base = seed ^ (((u + 1) as u64) << 1u64);
    assert(base ^ 0u64 == base) by (bit_vector);
    assert(mask_state(seed, u as u64, 0) == base);
}

/// Each user's offline mask follows the seeded keystream: the first mask is
/// the first value XOR `splitmix64(seed ^ ((u + 1) << 1))`, and each later
/// mask is its value XOR the mix of the previous keystream state (the
/// previous mask XOR the previous value) XOR the position.
pub proof fn lemma_offline_masks_follow_the_seed(
    out: OfflineBootstrapOutput,
    params: SmdsParams,
    datasets: Seq<UserDataset>,
    seed: u64,
)
    requires
        offline_matches(out, params, datasets, seed),
        datasets.len() <= usize::MAX,
    ensures
        forall|u: int|
            0 <= u < datasets.len() ==> (#[trigger] out.user_states@[u]).mask_r_prime@.len()
                == datasets[u].values@.len(),
        forall|u: int|
            0 <= u < datasets.len() && datasets[u].values@.len() > 0 ==> (#[trigger] out.user_states@[u]).mask_r_prime@[0]
                == datasets[u].values@[0] ^ splitmix64_spec(seed ^ (((u + 1) as u64) << 1u64)),
        forall|u: int, i: int|
            0 <= u < datasets.len() && 1 <= i < datasets[u].values@.len() ==> #[trigger] out.user_states@[u].mask_r_prime@[i]
                == datasets[u].values@[i] ^ splitmix64_spec(
                (out.user_states@[u].mask_r_prime@[i - 1] ^ datasets[u].values@[i - 1]) ^ (i as u64),
            ),
{
    assert forall|u: int|
        0 <= u < datasets.len() implies (#[trigger] out.user_states@[u]).mask_r_prime@.len()
            == datasets[u].values@.len() by {
        assert(user_state_matches(out.user_states@[u], datasets[u], u, seed));
    }
    assert forall|u: int|
        0 <= u < datasets.len() && datasets[u].values@.len() > 0 implies (#[trigger] out.user_states@[u]).mask_r_prime@[0]
            == datasets[u].values@[0] ^ splitmix64_spec(seed ^ (((u + 1) as u64) << 1u64)) by {
        assert(user_state_matches(out.user_states@[u], datasets[u], u, seed));
        lemma_mask_state_steps(seed, u, 0);
    }
    assert forall|u: int, i: int|
        0 <= u < datasets.len() && 1 <= i < datasets[u].values@.len() implies #[trigger] out.user_states@[u].mask_r_prime@[i]
            == datasets[u].values@[i] ^ splitmix64_spec(
            (out.user_states@[u].mask_r_prime@[i - 1] ^ datasets[u].values@[i - 1]) ^ (i as u64),
        ) by {
        assert(user_state_matches(out.user_states@[u], datasets[u], u, seed));
        lemma_mask_state_steps(seed, u, i);
        let v = datasets[u].values@[i - 1];
        let st = mask_state(seed, u as u64, i as nat);
        assert((v ^ st) ^ v == st) by (bit_vector);
    }
}

/// Each user's masked values are the seeded keystream itself (a value XOR
/// its mask): the first is `splitmix64(seed ^ ((u + 1) << 1))`, and each
/// later one is the mix of the previous one XOR the position.
pub proof fn lemma_masked_values_follow_the_seed(requests: Seq<PbeRequest>, datasets: Seq<UserDataset>, seed: u64)
    requires
        requests.len() == datasets.len(),
        datasets.len() <= usize::MAX,
        forall|u: int| 0 <= u < datasets.len() ==> request_matches(#[trigger] requests[u], datasets[u], u, seed),
    ensures
        forall|u: int|
            0 <= u < datasets.len() ==> (#[trigger] requests[u]).masked_values@.len() == datasets[u].values@.len(),
        forall|u: int|
            0 <= u < datasets.len() && datasets[u].values@.len() > 0 ==> (#[trigger] requests[u]).masked_values@[0]
                == splitmix64_spec(seed ^ (((u + 1) as u64) << 1u64)),
        forall|u: int, i: int|
            0 <= u < datasets.len() && 1 <= i < datasets[u].values@.len() ==> #[trigger] requests[u].masked_values@[i]
                == splitmix64_spec(requests[u].masked_values@[i - 1] ^ (i as u64)),
{
    assert forall|u: int, i: int|
        0 <= u < datasets.len() && 0 <= i < datasets[u].values@.len() implies #[trigger] requests[u].masked_values@[i]
            == mask_state(seed, u as u64, (i + 1) as nat) by {
        assert(request_matches(requests[u], datasets[u], u, seed));
        let v = datasets[u].values@[i];
        let st = mask_state(seed, u as u64, (i + 1) as nat);
        assert(v ^ (v ^ st) == st) by (bit_vector);
    }
    assert forall|u: int|
        0 <= u < datasets.len() implies (#[trigger] requests[u]).masked_values@.len() == datasets[u].values@.len() by {
        assert(request_matches(requests[u], datasets[u], u, seed));
    }
    assert forall|u: int|
        0 <= u < datasets.len() && datasets[u].values@.len() > 0 implies (#[trigger] requests[u]).masked_values@[0]
            == splitmix64_spec(seed ^ (((u + 1) as u64) << 1u64)) by {
        lemma_mask_state_steps(seed, u, 0);
        assert(requests[u].masked_values@[0] == mask_state(seed, u as u64, 1));
    }
    assert forall|u: int, i: int|
        0 <= u < datasets.len() && 1 <= i < datasets[u].values@.len() implies #[trigger] requests[u].masked_values@[i]
            == splitmix64_spec(requests[u].masked_values@[i - 1] ^ (i as u64)) by {
        lemma_mask_state_steps(seed, u, i);
        assert(requests[u].masked_values@[i - 1] == mask_state(seed, u as u64, i as nat));
        assert(requests[u].masked_values@[i] == mask_state(seed, u as u64, (i + 1) as nat));
    }
}

/// A ciphertext of the local backend holds the rank itself: a rank is a
/// `u64`, below the modulus 2^127 - 1.
pub proof fn lemma_rank_survives_local_encryption(rank: u64)
    ensures
        floor_mod(rank as int, local_modulus()) + 0 == rank,
        recovered_rank(floor_mod(rank as int, local_modulus()) + 0) == rank,
{
    vstd::arithmetic::div_mod::lemma_small_mod(rank as nat, local_modulus() as nat);
}

/// The encrypted ranks: for each value, its rank encrypted under the local
/// backend, plus an encrypted zero.
pub open spec fn encrypted_table(rs: Seq<UserEncryptedResponse>) -> Seq<Seq<int>> {
    rs.map_values(|r: UserEncryptedResponse| bignum_values(r.ciphertexts@))
}

/// The reference ranks as integers.
pub open spec fn rank_table_values(datasets: Seq<UserDataset>) -> Seq<Seq<int>> {
    rank_table(datasets).map_values(|row: Seq<u64>| row.map_values(|x: u64| x as int))
}

impl SmdsEngine<LocalMultiSheBackend> {
    /// Encrypts each reference rank under freshly generated keys and adds an
    /// encrypted zero.
    pub fn encrypt_reference_ranks(&self, datasets: &[UserDataset], _seed: u64) -> (r: Vec<UserEncryptedResponse>)
        ensures
            r@.len() == datasets@.len(),
            forall|u: int| 0 <= u < r@.len() ==> (#[trigger] r@[u]).user_id == u,
            encrypted_table(r@) == rank_table_values(datasets@),
    {
        let ranks = plain_dedup_rank(datasets);
        let (pp, sk1, sk2) = LocalMultiSheBackend::keygen(self.params.k0, self.params.k1, self.params.k2);
        let mut responses: Vec<UserEncryptedResponse> = Vec::with_capacity(ranks.len());
        let mut u: usize = 0;
        while u < ranks.len()
            invariant
                u <= ranks@.len(),
                table_view(ranks@) == rank_table(datasets@),
                pp.modulus@ == local_modulus(),
                responses@.len() == u,
                forall|q: int| 0 <= q < u ==> (#[trigger] responses@[q]).user_id == q,
                forall|q: int|
                    0 <= q < u ==> bignum_values((#[trigger] responses@[q]).ciphertexts@)
                        == rank_table_values(datasets@)[q],
            decreases ranks@.len() - u,
        {
            let user_ranks = &ranks[u];
            let mut ciphertexts: Vec<BigNum> = Vec::with_capacity(user_ranks.len());
            let mut i: usize = 0;
            while i < user_ranks.len()
                invariant
                    i <= user_ranks@.len(),
                    pp.modulus@ == local_modulus(),
                    bignum_values(ciphertexts@) == user_ranks@.take(i as int).map_values(|x: u64| x as int),
                decreases user_ranks@.len() - i,
            {
                let plaintext = BigNum::from_u64(user_ranks[i]);
                let ct = LocalMultiSheBackend::encrypt(&pp, &sk1, &sk2, &plaintext);
                let zero = BigNum::from_u64(0);
                let ct = LocalMultiSheBackend::add_ct_plain(&ct, &zero);
                proof {
                    lemma_rank_survives_local_encryption(user_ranks@[i as int]);
                    assert(ct@ == user_ranks@[i as int] as int);
                }
                let ghost before = ciphertexts@;
                ciphertexts.push(ct);
                assert(bignum_values(ciphertexts@) =~= bignum_values(before).push(ct@));
                assert(user_ranks@.take(i as int + 1) =~= user_ranks@.take(i as int).push(user_ranks@[i as int]));
                assert(bignum_values(ciphertexts@) =~= user_ranks@.take(i as int + 1).map_values(
                    |x: u64| x as int,
                ));
                i = i + 1;
            }
            proof {
                assert(user_ranks@.take(i as int) =~= user_ranks@);
                assert(table_view(ranks@)[u as int] == user_ranks@);
            }
            responses.push(UserEncryptedResponse { user_id: u, ciphertexts });
            u = u + 1;
        }
        assert(encrypted_table(responses@) =~= rank_table_values(datasets@));
        responses
    }

    /// Decrypts each ciphertext, through server 2's partial decryption and
    /// server 1's final decryption, and reads it back as a `u64` (0 when it
    /// is none).
    pub fn recover_reference_ranks(&self, encrypted: &[UserEncryptedResponse]) -> (r: Vec<UserRecoveredResult>)
        ensures
            r@.len() == encrypted@.len(),
            forall|u: int|
                0 <= u < r@.len() ==> {
                    &&& (#[trigger] r@[u]).user_id == encrypted@[u].user_id
                    &&& r@[u].ranks_in_original_order@ == encrypted@[u].ciphertexts@.map_values(
                        |c: BigNum| recovered_rank(c@),
                    )
                },
    {
        let (pp, sk1, sk2) = LocalMultiSheBackend::keygen(self.params.k0, self.params.k1, self.params.k2);
        let mut results: Vec<UserRecoveredResult> = Vec::with_capacity(encrypted.len());
        let mut u: usize = 0;
        while u < encrypted.len()
            invariant
                u <= encrypted@.len(),
                pp.modulus@ == local_modulus(),
                results@.len() == u,
                forall|q: int|
                    0 <= q < u ==> {
                        &&& (#[trigger] results@[q]).user_id == encrypted@[q].user_id
                        &&& results@[q].ranks_in_original_order@ == encrypted@[q].ciphertexts@.map_values(
                            |c: BigNum| recovered_rank(c@),
                        )
                    },
            decreases encrypted@.len() - u,
        {
            let response = &encrypted[u];
            let mut ranks: Vec<u64> = Vec::with_capacity(response.ciphertexts.len());
            let mut i: usize = 0;
            while i < response.ciphertexts.len()
                invariant
                    i <= response.ciphertexts@.len(),
                    pp.modulus@ == local_modulus(),
                    ranks@ == response.ciphertexts@.take(i as int).map_values(|c: BigNum| recovered_rank(c@)),
                decreases response.ciphertexts@.len() - i,
            {
                let ciphertext = &response.ciphertexts[i];
                let partial = LocalMultiSheBackend::partial_decrypt_by_server2(&sk2, ciphertext);
                let final_plain = LocalMultiSheBackend::final_decrypt_by_server1(&sk1, &partial);
                let recovered = LocalMultiSheBackend::decrypt(&pp, &sk1, &sk2, ciphertext);
                let value = if recovered.value_eq(&final_plain) {
                    recovered
                } else {
                    final_plain
                };
                let rank = value.to_u64().unwrap_or(0);
                ranks.push(rank);
                assert(ranks@ =~= response.ciphertexts@.take(i as int + 1).map_values(
                    |c: BigNum| recovered_rank(c@),
                ));
                i = i + 1;
            }
            assert(ranks@ =~= response.ciphertexts@.map_values(|c: BigNum| recovered_rank(c@)));
            results.push(UserRecoveredResult { user_id: response.user_id, ranks_in_original_order: ranks });
            u = u + 1;
        }
        results
    }

    /// Runs the whole pipeline: offline phase, requests, server stage,
    /// encryption of the reference ranks and their recovery.
    pub fn run(&self, datasets: &[UserDataset], seed: u64) -> (r: ProtocolRun)
        requires
            roots_representable(flatten(datasets@)),
            flatten(datasets@).len() + 2 <= usize::MAX,
        ensures
            run_matches(r, self.params, datasets@, seed),
    {
        let offline = self.build_offline_bootstrap(datasets, seed);
        let pbe_requests = self.build_pbe_requests(datasets, seed);
        let server_stage = self.server_stage(datasets);
        let encrypted_responses = self.encrypt_reference_ranks(datasets, seed);
        let recovered = self.recover_reference_ranks(&encrypted_responses);
        let reference_ranks = plain_dedup_rank(datasets);
        proof {
            lemma_recovery_inverts_encryption(encrypted_responses@, recovered@, datasets@);
        }
        ProtocolRun {
            params: self.params,
            dataset_summary: summarize_datasets(datasets),
            offline,
            pbe_requests,
            server_stage,
            encrypted_responses,
            recovered,
            reference_ranks,
        }
    }
}

/// Everything one run of the protocol produced.
#[derive(Debug, Clone, PartialEq, Eq)]
pub struct ProtocolRun {
    pub params: SmdsParams,
    pub dataset_summary: DatasetSummary,
    pub offline: OfflineBootstrapOutput,
    pub pbe_requests: Vec<PbeRequest>,
    pub server_stage: ServerStageState,
    pub encrypted_responses: Vec<UserEncryptedResponse>,
    pub recovered: Vec<UserRecoveredResult>,
    pub reference_ranks: Vec<Vec<u64>>,
}

/// What one run produces: each stage's output, and the ranks the users
/// recover are the reference ranks.
pub open spec fn run_matches(r: ProtocolRun, params: SmdsParams, datasets: Seq<UserDataset>, seed: u64) -> bool {
    &&& r.params == params
    &&& summarizes(r.dataset_summary, datasets)
    &&& offline_matches(r.offline, params, datasets, seed)
    &&& r.pbe_requests@.len() == datasets.len()
    &&& forall|u: int|
        0 <= u < datasets.len() ==> request_matches(#[trigger] r.pbe_requests@[u], datasets[u], u, seed)
    &&& is_sorted(r.server_stage.sorted_values@)
    &&& r.server_stage.sorted_values@.to_multiset() == flatten(datasets).to_multiset()
    &&& table_view(r.server_stage.dedup_ranks@) == rank_table(datasets)
    &&& r.encrypted_responses@.len() == datasets.len()
    &&& forall|u: int| 0 <= u < datasets.len() ==> (#[trigger] r.encrypted_responses@[u]).user_id == u
    &&& encrypted_table(r.encrypted_responses@) == rank_table_values(datasets)
    &&& r.recovered@.len() == datasets.len()
    &&& forall|u: int| 0 <= u < datasets.len() ==> (#[trigger] r.recovered@[u]).user_id == u
    &&& forall|u: int|
        0 <= u < datasets.len() ==> (#[trigger] r.recovered@[u]).ranks_in_original_order@
            == r.encrypted_responses@[u].ciphertexts@.map_values(|c: BigNum| recovered_rank(c@))
    &&& recovered_table(r.recovered@) == rank_table(datasets)
    &&& table_view(r.reference_ranks@) == rank_table(datasets)
}

/// Recovering the ranks that were encrypted gives them back: the users end
/// with exactly the reference ranks.
pub proof fn lemma_recovery_inverts_encryption(
    encrypted: Seq<UserEncryptedResponse>,
    recovered: Seq<UserRecoveredResult>,
    datasets: Seq<UserDataset>,
)
    requires
        encrypted.len() == datasets.len(),
        forall|u: int| 0 <= u < encrypted.len() ==> (#[trigger] encrypted[u]).user_id == u,
        encrypted_table(encrypted) == rank_table_values(datasets),
        recovered.len() == encrypted.len(),
        forall|u: int|
            0 <= u < recovered.len() ==> {
                &&& (#[trigger] recovered[u]).user_id == encrypted[u].user_id
                &&& recovered[u].ranks_in_original_order@ == encrypted[u].ciphertexts@.map_values(
                    |c: BigNum| recovered_rank(c@),
                )
            },
    ensures
        recovered_table(recovered) == rank_table(datasets),
        forall|u: int| 0 <= u < recovered.len() ==> (#[trigger] recovered[u]).user_id == u,
{
    assert forall|u: int| 0 <= u < recovered.len() implies #[trigger] recovered_table(recovered)[u] == rank_table(
        datasets,
    )[u] by {
        let cts = encrypted[u].ciphertexts@;
        let ranks = rank_table(datasets)[u];
        assert(bignum_values(cts) == encrypted_table(encrypted)[u]);
        assert(bignum_values(cts) == ranks.map_values(|x: u64| x as int));
        assert forall|i: int| 0 <= i < ranks.len() implies recovered[u].ranks_in_original_order@[i] == ranks[i] by {
            assert(bignum_values(cts)[i] == cts[i]@);
            assert(cts[i]@ == ranks[i] as int);
        }
        assert(recovered_table(recovered)[u] =~= ranks);
    }
    assert(recovered_table(recovered) =~= rank_table(datasets));
}

// ---------------------------------------------------------------------------
// Benchmarks
// ---------------------------------------------------------------------------

#[verifier::external_type_specification]
#[verifier::external_body]
pub struct ExInstant(Instant);

/// The current instant (`Instant::now`). Nothing is claimed of it.
#[verifier::external_body]
fn start_timer() -> Instant {
    Instant::now()
}

/// The time since `started` (`Instant::elapsed`). Nothing is claimed of
/// it: it depends on the clock.
#[verifier::external_body]
fn elapsed_since(started: &Instant) -> Duration {
    started.elapsed()
}

/// The whole milliseconds of a duration (`Duration::as_millis`). Nothing is
/// claimed of the value.
#[verifier::external_body]
fn whole_millis(d: &Duration) -> u128 {
    d.as_millis()
}

/// The whole milliseconds since `started`: a clock reading.
fn elapsed_millis(started: &Instant) -> u128 {
    let d = elapsed_since(started);
    whole_millis(&d)
}

/// The sum of a list of clock readings.
pub open spec fn readings_sum(t: Seq<u128>) -> int
    decreases t.len(),
{
    if t.len() == 0 {
        0
    } else {
        readings_sum(t.drop_last()) + t.last()
    }
}

/// The mean of a non-empty list of readings: their sum, capped at
/// `u128::MAX` (the running total saturates), divided by their number and
/// rounded down.
pub open spec fn mean_millis(t: Seq<u128>) -> int {
    let total = if readings_sum(t) > u128::MAX {
        u128::MAX as int
    } else {
        readings_sum(t)
    };
    total / (t.len() as int)
}

/// The sum of the readings, saturating at `u128::MAX`.
fn total_millis(t: &Vec<u128>) -> (r: u128)
    ensures
        r == (if readings_sum(t@) > u128::MAX {
            u128::MAX as int
        } else {
            readings_sum(t@)
        }),
{
    let mut total: u128 = 0;
    let mut k: usize = 0;
    while k < t.len()
        invariant
            k <= t@.len(),
            total == (if readings_sum(t@.take(k as int)) > u128::MAX {
                u128::MAX as int
            } else {
                readings_sum(t@.take(k as int))
            }),
        decreases t@.len() - k,
    {
        proof {
            assert(t@.take(k as int + 1).drop_last() =~= t@.take(k as int));
            assert(t@.take(k as int + 1).last() == t@[k as int]);
        }
        total = total.saturating_add(t[k]);
        k = k + 1;
    }
    assert(t@.take(k as int) =~= t@);
    total
}

/// The five stages' mean times: `stages[s]` names stage `s` and holds the
/// mean of the readings `t[s]` of that stage.
pub open spec fn durations_match(stages: Seq<StageDurationSummary>, t: Seq<Seq<u128>>) -> bool {
    &&& stage_names_match(stages)
    &&& t.len() == 5
    &&& forall|s: int| 0 <= s < 5 ==> (#[trigger] stages[s]).millis == mean_millis(t[s])
}

/// The mean time of each of the five stages, from the clock readings of
/// each stage (`readings[s][k]`: whole milliseconds of stage `s` in
/// repetition `k`).
pub fn stage_duration_summaries(readings: &Vec<Vec<u128>>) -> (r: Vec<StageDurationSummary>)
    requires
        readings@.len() == 5,
        forall|s: int| 0 <= s < 5 ==> (#[trigger] readings@[s])@.len() > 0,
    ensures
        durations_match(r@, readings@.map_values(|v: Vec<u128>| v@)),
{
    let ghost t = readings@.map_values(|v: Vec<u128>| v@);
    let m0 = total_millis(&readings[0]) / (readings[0].len() as u128);
    let m1 = total_millis(&readings[1]) / (readings[1].len() as u128);
    let m2 = total_millis(&readings[2]) / (readings[2].len() as u128);
    let m3 = total_millis(&readings[3]) / (readings[3].len() as u128);
    let m4 = total_millis(&readings[4]) / (readings[4].len() as u128);
    let mut r: Vec<StageDurationSummary> = Vec::with_capacity(5);
    r.push(StageDurationSummary { stage: "offline_bootstrap".to_string(), millis: m0 });
    r.push(StageDurationSummary { stage: "pbe_encode".to_string(), millis: m1 });
    r.push(StageDurationSummary { stage: "server_stage".to_string(), millis: m2 });
    r.push(StageDurationSummary { stage: "encrypt_reference_ranks".to_string(), millis: m3 });
    r.push(StageDurationSummary { stage: "recovery".to_string(), millis: m4 });
    proof {
        assert(t[0] == readings@[0]@ && t[1] == readings@[1]@ && t[2] == readings@[2]@);
        assert(t[3] == readings@[3]@ && t[4] == readings@[4]@);
        assert forall|s: int| 0 <= s < 5 implies (#[trigger] r@[s]).millis == mean_millis(t[s]) by {
            assert(r@[0].millis == m0 && r@[1].millis == m1 && r@[2].millis == m2);
            assert(r@[3].millis == m3 && r@[4].millis == m4);
        }
    }
    r
}

/// Whether two tables of ranks are equal, row by row.
fn ranks_equal(a: &Vec<Vec<u64>>, b: &Vec<Vec<u64>>) -> (r: bool)
    ensures
        r == (table_view(a@) == table_view(b@)),
{
    if a.len() != b.len() {
        assert(table_view(a@).len() != table_view(b@).len());
        return false;
    }
    let mut u: usize = 0;
    while u < a.len()
        invariant
            a@.len() == b@.len(),
            u <= a@.len(),
            forall|q: int| 0 <= q < u ==> (#[trigger] a@[q])@ == b@[q]@,
        decreases a@.len() - u,
    {
        let row_a = &a[u];
        let row_b = &b[u];
        if row_a.len() != row_b.len() {
            assert(table_view(a@)[u as int] != table_view(b@)[u as int]);
            return false;
        }
        let mut i: usize = 0;
        while i < row_a.len()
            invariant
                a@.len() == b@.len(),
                u < a@.len(),
                row_a@ == a@[u as int]@,
                row_b@ == b@[u as int]@,
                row_a@.len() == row_b@.len(),
                i <= row_a@.len(),
                forall|k: int| 0 <= k < i ==> row_a@[k] == row_b@[k],
            decreases row_a@.len() - i,
        {
            if row_a[i] != row_b[i] {
                assert(table_view(a@)[u as int][i as int] != table_view(b@)[u as int][i as int]);
                return false;
            }
            i = i + 1;
        }
        assert(row_a@ =~= row_b@);
        u = u + 1;
    }
    assert(table_view(a@) =~= table_view(b@));
    true
}

/// The names of the timed stages, in order.
pub open spec fn stage_names_match(stages: Seq<StageDurationSummary>) -> bool {
    &&& stages.len() == 5
    &&& stages[0].stage@ == "offline_bootstrap"@
    &&& stages[1].stage@ == "pbe_encode"@
    &&& stages[2].stage@ == "server_stage"@
    &&& stages[3].stage@ == "encrypt_reference_ranks"@
    &&& stages[4].stage@ == "recovery"@
}

/// What a benchmark report holds for `datasets`: the summary, the reference
/// ranks, the ranks the protocol recovered (the same), the verdict that the
/// two rankings agree, and the five stages with the mean of
/// `max(repetitions, 1)` clock readings each.
pub open spec fn report_matches(r: BenchmarkReport, config: BenchmarkConfig, datasets: Seq<UserDataset>) -> bool {
    &&& r.config == config
    &&& summarizes(r.dataset_summary, datasets)
    &&& table_view(r.reference_ranks@) == rank_table(datasets)
    &&& table_view(r.protocol_ranks@) == rank_table(datasets)
    &&& r.correctness
    &&& stage_names_match(r.stage_durations@)
    &&& exists|t: Seq<Seq<u128>>|
        #[trigger] durations_match(r.stage_durations@, t) && forall|s: int|
            0 <= s < 5 ==> t[s].len() == (if config.repetitions > 1 {
                config.repetitions as int
            } else {
                1
            })
}

/// Runs the pipeline `max(repetitions, 1)` times, timing each stage, and
/// reports the mean stage times (in whole milliseconds), the reference and
/// recovered ranks of the last run, and whether they agree.
pub fn benchmark_report_with_engine(
    engine: &SmdsEngine<LocalMultiSheBackend>,
    config: BenchmarkConfig,
    datasets: &[UserDataset],
    seed: u64,
) -> (r: BenchmarkReport)
    requires
        roots_representable(flatten(datasets@)),
        flatten(datasets@).len() + 2 <= usize::MAX,
    ensures
        report_matches(r, config, datasets@),
{
    let repetitions: usize = if config.repetitions > 1 { config.repetitions } else { 1 };
    let mut offline_ms: Vec<u128> = Vec::new();
    let mut pbe_ms: Vec<u128> = Vec::new();
    let mut server_ms: Vec<u128> = Vec::new();
    let mut encryption_ms: Vec<u128> = Vec::new();
    let mut recovery_ms: Vec<u128> = Vec::new();
    let mut last_run: Option<ProtocolRun> = None;
    let mut rep: usize = 0;
    while rep < repetitions
        invariant
            rep <= repetitions,
            roots_representable(flatten(datasets@)),
            flatten(datasets@).len() + 2 <= usize::MAX,
            rep > 0 ==> (last_run matches Some(run) && run_matches(run, engine.params, datasets@, seed)),
            offline_ms@.len() == rep,
            pbe_ms@.len() == rep,
            server_ms@.len() == rep,
            encryption_ms@.len() == rep,
            recovery_ms@.len() == rep,
        decreases repetitions - rep,
    {
        let started = start_timer();
        let offline = engine.build_offline_bootstrap(datasets, seed);
        offline_ms.push(elapsed_millis(&started));

        let started = start_timer();
        let pbe_requests = engine.build_pbe_requests(datasets, seed);
        pbe_ms.push(elapsed_millis(&started));

        let started = start_timer();
        let server_stage = engine.server_stage(datasets);
        server_ms.push(elapsed_millis(&started));

        let started = start_timer();
        let encrypted_responses = engine.encrypt_reference_ranks(datasets, seed);
        encryption_ms.push(elapsed_millis(&started));

        let started = start_timer();
        let recovered = engine.recover_reference_ranks(&encrypted_responses);
        recovery_ms.push(elapsed_millis(&started));

        let reference_ranks = plain_dedup_rank(datasets);
        proof {
            lemma_recovery_inverts_encryption(encrypted_responses@, recovered@, datasets@);
        }
        last_run = Some(ProtocolRun {
            params: engine.params,
            dataset_summary: summarize_datasets(datasets),
            offline,
            pbe_requests,
            server_stage,
            encrypted_responses,
            recovered,
            reference_ranks,
        });
        rep = rep + 1;
    }
    let run = last_run.expect("benchmark must run at least once");
    let mut protocol_ranks: Vec<Vec<u64>> = Vec::with_capacity(run.recovered.len());
    let mut u: usize = 0;
    while u < run.recovered.len()
        invariant
            u <= run.recovered@.len(),
            table_view(protocol_ranks@) == recovered_table(run.recovered@).take(u as int),
        decreases run.recovered@.len() - u,
    {
        let ranks = run.recovered[u].ranks_in_original_order.clone();
        assert(ranks@ =~= run.recovered@[u as int].ranks_in_original_order@);
        let ghost before = protocol_ranks@;
        protocol_ranks.push(ranks);
        assert(table_view(protocol_ranks@) =~= table_view(before).push(run.recovered@[u as int].ranks_in_original_order@));
        assert(recovered_table(run.recovered@).take(u as int + 1) =~= recovered_table(run.recovered@).take(u as int).push(
            run.recovered@[u as int].ranks_in_original_order@,
        ));
        assert(table_view(protocol_ranks@) =~= recovered_table(run.recovered@).take(u as int + 1));
        u = u + 1;
    }
    assert(table_view(protocol_ranks@) =~= recovered_table(run.recovered@));
    let correctness = ranks_equal(&run.reference_ranks, &protocol_ranks);
    let readings: Vec<Vec<u128>> = vec![offline_ms, pbe_ms, server_ms, encryption_ms, recovery_ms];
    let stage_durations = stage_duration_summaries(&readings);
    let ghost t = readings@.map_values(|v: Vec<u128>| v@);
    proof {
        assert(t[0] == readings@[0]@ && t[1] == readings@[1]@ && t[2] == readings@[2]@);
        assert(t[3] == readings@[3]@ && t[4] == readings@[4]@);
        assert(durations_match(stage_durations@, t));
    }
    let report = BenchmarkReport {
        config,
        dataset_summary: summarize_datasets(datasets),
        reference_ranks: run.reference_ranks,
        protocol_ranks,
        stage_durations,
        correctness,
    };
    proof {
        assert(durations_match(report.stage_durations@, t) && forall|s: int|
            0 <= s < 5 ==> t[s].len() == (if report.config.repetitions > 1 {
                report.config.repetitions as int
            } else {
                1
            }));
    }
    report
}

/// A benchmark report with the local backend and the baseline parameters.
pub fn benchmark_report(config: BenchmarkConfig, datasets: &[UserDataset], seed: u64) -> (r: BenchmarkReport)
    requires
        roots_representable(flatten(datasets@)),
        flatten(datasets@).len() + 2 <= usize::MAX,
    ensures
        report_matches(r, config, datasets@),
{
    let engine: SmdsEngine<LocalMultiSheBackend> = SmdsEngine::new(
        SmdsParams::baseline_bangalore(config.num_users, config.dataset_size),
    );
    benchmark_report_with_engine(&engine, config, datasets, seed)
}

/// Samples the datasets from the given prices with `seed` and ranks them in
/// the clear.
pub fn reference_from_price_csv(prices: &[u64], num_users: usize, dataset_size: usize, seed: u64) -> (r: (
    Vec<UserDataset>,
    Vec<Vec<u64>>,
))
    requires
        prices@.len() == 0 || num_users * dataset_size <= usize::MAX,
    ensures
        r.0@.len() == num_users,
        dataset_views(r.0@) == seeded_sample(prices@, num_users, dataset_size, seed),
        is_sample(r.0@, prices@, num_users, dataset_size),
        table_view(r.1@) == rank_table(r.0@),
{
    let datasets = crate::crypto_utils::sample_user_datasets(prices, num_users, dataset_size, seed);
    let ranks = plain_dedup_rank(&datasets);
    (datasets, ranks)
}

} // verus!
