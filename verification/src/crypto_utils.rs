//! Dataset helpers: deduplication, sampling, and the polynomial whose roots
//! are a list of values.

use crate::bignum::BigNum;
use crate::types::{CanonicalizedDataset, UserDataset};
use rand::{rngs::StdRng, seq::SliceRandom, SeedableRng};
use std::collections::HashMap;
use vstd::prelude::*;

verus! {

broadcast use vstd::std_specs::hash::group_hash_axioms;

/// The distinct values of `s`, each at the place of its first occurrence.
pub open spec fn distinct_in_order(s: Seq<u64>) -> Seq<u64>
    decreases s.len(),
{
    if s.len() == 0 {
        Seq::empty()
    } else {
        let prev = distinct_in_order(s.drop_last());
        if prev.contains(s.last()) {
            prev
        } else {
            prev.push(s.last())
        }
    }
}

/// The distinct values of a sequence have no duplicates and are exactly the
/// values of the sequence.
pub proof fn lemma_distinct_in_order(s: Seq<u64>)
    ensures
        distinct_in_order(s).no_duplicates(),
        forall|v: u64| #[trigger] distinct_in_order(s).contains(v) <==> s.contains(v),
        distinct_in_order(s).to_set() == s.to_set(),
        distinct_in_order(s).len() <= s.len(),
    decreases s.len(),
{
    if s.len() > 0 {
        let prev = distinct_in_order(s.drop_last());
        lemma_distinct_in_order(s.drop_last());
        assert forall|v: u64| #[trigger] distinct_in_order(s).contains(v) <==> s.contains(v) by {
            if s.contains(v) {
                let k = choose|k: int| 0 <= k < s.len() && s[k] == v;
                if k < s.len() - 1 {
                    assert(s.drop_last()[k] == v);
                }
            }
            if s.drop_last().contains(v) {
                let k = choose|k: int| 0 <= k < s.len() - 1 && s.drop_last()[k] == v;
                assert(s[k] == v);
            }
            if !prev.contains(s.last()) {
                assert(prev.push(s.last())[prev.len() as int] == s.last());
                if prev.push(s.last()).contains(v) {
                    let k = choose|k: int| 0 <= k < prev.len() + 1 && prev.push(s.last())[k] == v;
                    if k < prev.len() {
                        assert(prev[k] == v);
                    }
                }
                if prev.contains(v) {
                    let k = choose|k: int| 0 <= k < prev.len() && prev[k] == v;
                    assert(prev.push(s.last())[k] == v);
                }
            }
        }
        assert(distinct_in_order(s).to_set() =~= s.to_set());
    }
}

/// The values of a slice in a new vector.
pub(crate) fn copy_values(values: &[u64]) -> (r: Vec<u64>)
    ensures
        r@ == values@,
{
    let mut r: Vec<u64> = Vec::with_capacity(values.len());
    let mut i: usize = 0;
    while i < values.len()
        invariant
            i <= values@.len(),
            r@ == values@.take(i as int),
        decreases values@.len() - i,
    {
        r.push(values[i]);
        assert(values@.take(i as int + 1) =~= values@.take(i as int).push(values@[i as int]));
        i = i + 1;
    }
    assert(values@.take(i as int) =~= values@);
    r
}

/// Deduplicates `values`, keeping the first occurrence of each value, and
/// records for each position the index of its value among the distinct
/// values.
pub fn canonicalize_dataset(values: &[u64]) -> (c: CanonicalizedDataset)
    ensures
        c.original_values@ == values@,
        c.dedup_values@ == distinct_in_order(values@),
        c.original_to_dedup_index@.len() == values@.len(),
        forall|i: int|
            0 <= i < values@.len() ==> {
                &&& (#[trigger] c.original_to_dedup_index@[i]) < c.dedup_values@.len()
                &&& c.dedup_values@[c.original_to_dedup_index@[i] as int] == values@[i]
            },
{
    let mut dedup_values: Vec<u64> = Vec::new();
    let mut seen: HashMap<u64, usize> = HashMap::new();
    let mut original_to_dedup_index: Vec<usize> = Vec::with_capacity(values.len());
    let mut i: usize = 0;
    while i < values.len()
        invariant
            i <= values@.len(),
            dedup_values@ == distinct_in_order(values@.take(i as int)),
            original_to_dedup_index@.len() == i,
            forall|k: int|
                0 <= k < i ==> {
                    &&& (#[trigger] original_to_dedup_index@[k]) < dedup_values@.len()
                    &&& dedup_values@[original_to_dedup_index@[k] as int] == values@[k]
                },
            forall|v: u64| #[trigger] seen@.contains_key(v) <==> dedup_values@.contains(v),
            forall|v: u64|
                #[trigger] seen@.contains_key(v) ==> seen@[v] < dedup_values@.len()
                    && dedup_values@[seen@[v] as int] == v,
        decreases values@.len() - i,
    {
        let value = values[i];
        proof {
            assert(values@.take(i as int + 1).drop_last() =~= values@.take(i as int));
            assert(values@.take(i as int + 1).last() == value);
            lemma_distinct_in_order(values@.take(i as int));
        }
        let idx = match seen.get(&value) {
            Some(idx) => *idx,
            None => {
                let idx = dedup_values.len();
                let ghost old_dedup = dedup_values@;
                dedup_values.push(value);
                seen.insert(value, idx);
                proof {
                    assert forall|v: u64| #[trigger] seen@.contains_key(v) <==> dedup_values@.contains(v) by {
                        if v == value {
                            assert(dedup_values@[idx as int] == v);
                        } else {
                            if dedup_values@.contains(v) {
                                let k = choose|k: int| 0 <= k < dedup_values@.len() && dedup_values@[k] == v;
                                assert(old_dedup[k] == v);
                            }
                            if old_dedup.contains(v) {
                                let k = choose|k: int| 0 <= k < old_dedup.len() && old_dedup[k] == v;
                                assert(dedup_values@[k] == v);
                            }
                        }
                    }
                }
                idx
            },
        };
        original_to_dedup_index.push(idx);
        i = i + 1;
    }
    assert(values@.take(values@.len() as int) =~= values@);
    CanonicalizedDataset { original_values: copy_values(values), dedup_values, original_to_dedup_index }
}

/// The integers held by a sequence of big integers.
pub open spec fn bignum_values(s: Seq<BigNum>) -> Seq<int> {
    s.map_values(|x: BigNum| x@)
}

/// The part of coefficient `k` of the product of `a` and `b` that comes from
/// the first `n` coefficients of `a`: the sum of `a[i] * b[k - i]` over
/// `i < n` with `k - i` an index of `b`.
pub open spec fn conv_partial(a: Seq<int>, b: Seq<int>, k: int, n: int) -> int
    decreases n,
{
    if n <= 0 {
        0
    } else {
        conv_partial(a, b, k, n - 1) + if 0 <= k - (n - 1) < b.len() {
            a[n - 1] * b[k - (n - 1)]
        } else {
            0
        }
    }
}

/// The coefficients (lowest degree first) of the product of two
/// polynomials; the empty polynomial is absorbing.
pub open spec fn poly_product(a: Seq<int>, b: Seq<int>) -> Seq<int> {
    if a.len() == 0 || b.len() == 0 {
        Seq::empty()
    } else {
        Seq::new((a.len() + b.len() - 1) as nat, |k: int| conv_partial(a, b, k, a.len() as int))
    }
}

/// Multiplies two polynomials given by their coefficients, lowest degree
/// first.
pub fn poly_mul(a: &[BigNum], b: &[BigNum]) -> (r: Vec<BigNum>)
    requires
        a@.len() + b@.len() <= usize::MAX,
    ensures
        bignum_values(r@) == poly_product(bignum_values(a@), bignum_values(b@)),
        forall|k: int| 0 <= k < r@.len() ==> (#[trigger] r@[k]).canonical(),
{
    if a.len() == 0 || b.len() == 0 {
        let r: Vec<BigNum> = Vec::new();
        assert(bignum_values(r@) =~= poly_product(bignum_values(a@), bignum_values(b@)));
        return r;
    }
    let ghost av = bignum_values(a@);
    let ghost bv = bignum_values(b@);
    let n = a.len() + b.len() - 1;
    let mut out: Vec<BigNum> = Vec::with_capacity(n);
    let mut k: usize = 0;
    while k < n
        invariant
            k <= n,
            out@.len() == k,
            forall|q: int| 0 <= q < k ==> (#[trigger] out@[q])@ == 0 && out@[q].canonical(),
        decreases n - k,
    {
        out.push(BigNum::zero());
        k = k + 1;
    }
    let mut i: usize = 0;
    while i < a.len()
        invariant
            n == a@.len() + b@.len() - 1,
            av == bignum_values(a@),
            bv == bignum_values(b@),
            i <= a@.len(),
            out@.len() == n,
            forall|q: int| 0 <= q < n ==> (#[trigger] out@[q])@ == conv_partial(av, bv, q, i as int),
            forall|q: int| 0 <= q < n ==> (#[trigger] out@[q]).canonical(),
        decreases a@.len() - i,
    {
        let mut j: usize = 0;
        while j < b.len()
            invariant
                n == a@.len() + b@.len() - 1,
                av == bignum_values(a@),
                bv == bignum_values(b@),
                i < a@.len(),
                j <= b@.len(),
                out@.len() == n,
                forall|q: int|
                    0 <= q < n ==> (#[trigger] out@[q])@ == conv_partial(av, bv, q, i as int) + if i <= q
                        < i + j {
                        av[i as int] * bv[q - i]
                    } else {
                        0
                    },
                forall|q: int| 0 <= q < n ==> (#[trigger] out@[q]).canonical(),
            decreases b@.len() - j,
        {
            let prod = a[i].times(&b[j]);
            let updated = out[i + j].plus(&prod);
            out.set(i + j, updated);
            j = j + 1;
        }
        assert forall|q: int| 0 <= q < n implies (#[trigger] out@[q])@ == conv_partial(
            av,
            bv,
            q,
            i + 1,
        ) by {
            assert(conv_partial(av, bv, q, i + 1) == conv_partial(av, bv, q, i as int) + if 0 <= q - i
                < bv.len() {
                av[i as int] * bv[q - i]
            } else {
                0
            });
        }
        i = i + 1;
    }
    assert(bignum_values(out@) =~= poly_product(av, bv));
    out
}

/// The root contributed by `v`: the factor for `v` is `x - (v as i64)`,
/// so its constant coefficient is `-(v as i64)`.
pub open spec fn root_term(v: u64) -> int {
    -((v as i64) as int)
}

/// The coefficients (lowest degree first) of the product of the factors
/// `x - (v as i64)` over the values `v`, in order.
pub open spec fn root_polynomial(values: Seq<u64>) -> Seq<int>
    decreases values.len(),
{
    if values.len() == 0 {
        seq![1]
    } else {
        poly_product(root_polynomial(values.drop_last()), seq![root_term(values.last()), 1])
    }
}

/// The polynomial of a list of values has one coefficient more than the
/// list has values.
pub proof fn lemma_root_polynomial_len(values: Seq<u64>)
    ensures
        root_polynomial(values).len() == values.len() + 1,
    decreases values.len(),
{
    if values.len() > 0 {
        lemma_root_polynomial_len(values.drop_last());
    }
}

/// Builds the monic polynomial whose roots are the values (each taken as an
/// `i64`), as the product of the factors `x - value` in order. A value of
/// 2^63 would overflow the negation of `i64::MIN`, which panics.
pub fn build_root_polynomial(values: &[u64]) -> (r: Vec<BigNum>)
    requires
        forall|i: int| 0 <= i < values@.len() ==> (#[trigger] values@[i]) != 0x8000_0000_0000_0000u64,
        values@.len() + 2 <= usize::MAX,
    ensures
        bignum_values(r@) == root_polynomial(values@),
        r@.len() == values@.len() + 1,
        forall|k: int| 0 <= k < r@.len() ==> (#[trigger] r@[k]).canonical(),
{
    let mut coeffs: Vec<BigNum> = Vec::new();
    coeffs.push(BigNum::one());
    proof {
        assert(bignum_values(coeffs@) =~= seq![1int]);
        assert(values@.take(0) =~= Seq::<u64>::empty());
    }
    let mut i: usize = 0;
    while i < values.len()
        invariant
            i <= values@.len(),
            values@.len() + 2 <= usize::MAX,
            forall|q: int| 0 <= q < values@.len() ==> (#[trigger] values@[q]) != 0x8000_0000_0000_0000u64,
            bignum_values(coeffs@) == root_polynomial(values@.take(i as int)),
            coeffs@.len() == i + 1,
            forall|k: int| 0 <= k < coeffs@.len() ==> (#[trigger] coeffs@[k]).canonical(),
        decreases values@.len() - i,
    {
        let value = values[i];
        let signed = value as i64;
        assert(value != 0x8000_0000_0000_0000u64 ==> (value as i64) != i64::MIN) by (bit_vector);
        let mut factor: Vec<BigNum> = Vec::new();
        factor.push(BigNum::from_i64(-signed));
        factor.push(BigNum::one());
        proof {
            assert(bignum_values(factor@) =~= seq![root_term(value), 1int]);
            assert(values@.take(i as int + 1).drop_last() =~= values@.take(i as int));
            assert(values@.take(i as int + 1).last() == value);
        }
        coeffs = poly_mul(&coeffs, &factor);
        proof {
            lemma_root_polynomial_len(values@.take(i as int + 1));
        }
        i = i + 1;
    }
    assert(values@.take(i as int) =~= values@);
    coeffs
}

/// `order` lists each index of a sequence of length `order.len()` once.
pub open spec fn is_index_order(order: Seq<usize>) -> bool {
    crate::types::is_bijection(order)
}

/// The order into which `SliceRandom::shuffle` puts `indices` when driven
/// by `StdRng::seed_from_u64(seed)`. rand documents the seeded `StdRng` as
/// deterministic (for a given build of rand).
pub uninterp spec fn seeded_shuffle(indices: Seq<usize>, seed: u64) -> Seq<usize>;

/// Shuffles `indices` in place with a `StdRng` seeded by `seed`
/// (`StdRng::seed_from_u64`, then `SliceRandom::shuffle`). Claimed: the
/// result is a rearrangement of the input, and it is the one named
/// `seeded_shuffle` of the input and the seed (the generator is
/// deterministic). Not claimed: which rearrangement that is.
#[verifier::external_body]
fn shuffle_seeded(indices: &mut Vec<usize>, seed: u64)
    ensures
        final(indices)@ == seeded_shuffle(old(indices)@, seed),
        final(indices)@.to_multiset() == old(indices)@.to_multiset(),
{
    let mut rng = StdRng::seed_from_u64(seed);
    indices.shuffle(&mut rng);
}

/// Draws the datasets from `values` in the order given by `order`: user `u`
/// gets the `dataset_size` values at the positions `order[(u * dataset_size
/// + o) % order.len()]`, wrapping around when more values are asked for than
/// there are.
pub fn sample_with_order(values: &[u64], order: &[usize], num_users: usize, dataset_size: usize) -> (r: Vec<
    UserDataset,
>)
    requires
        order@.len() > 0,
        forall|k: int| 0 <= k < order@.len() ==> (#[trigger] order@[k]) < values@.len(),
        num_users * dataset_size <= usize::MAX,
    ensures
        r@.len() == num_users,
        forall|u: int|
            0 <= u < num_users ==> (#[trigger] r@[u]).values@.len() == dataset_size && forall|o: int|
                0 <= o < dataset_size ==> r@[u].values@[o] == values@[order@[(u * dataset_size + o)
                    % (order@.len() as int)] as int],
{
    let mut sampled: Vec<UserDataset> = Vec::with_capacity(num_users);
    let mut user_id: usize = 0;
    while user_id < num_users
        invariant
            user_id <= num_users,
            order@.len() > 0,
            forall|k: int| 0 <= k < order@.len() ==> (#[trigger] order@[k]) < values@.len(),
            num_users * dataset_size <= usize::MAX,
            sampled@.len() == user_id,
            forall|u: int|
                0 <= u < user_id ==> (#[trigger] sampled@[u]).values@.len() == dataset_size && forall|o: int|
                    0 <= o < dataset_size ==> sampled@[u].values@[o] == values@[order@[(u * dataset_size
                        + o) % (order@.len() as int)] as int],
        decreases num_users - user_id,
    {
        assert((user_id + 1) * dataset_size <= num_users * dataset_size) by (nonlinear_arith)
            requires
                user_id + 1 <= num_users,
        ;
        assert((user_id + 1) * dataset_size == user_id * dataset_size + dataset_size) by (nonlinear_arith);
        let start = user_id * dataset_size;
        let mut user_values: Vec<u64> = Vec::with_capacity(dataset_size);
        let mut offset: usize = 0;
        while offset < dataset_size
            invariant
                offset <= dataset_size,
                start == user_id * dataset_size,
                start + dataset_size <= usize::MAX,
                order@.len() > 0,
                forall|k: int| 0 <= k < order@.len() ==> (#[trigger] order@[k]) < values@.len(),
                user_values@.len() == offset,
                forall|o: int|
                    0 <= o < offset ==> #[trigger] user_values@[o] == values@[order@[(start + o) % (
                    order@.len() as int)] as int],
            decreases dataset_size - offset,
        {
            let idx = order[(start + offset) % order.len()];
            user_values.push(values[idx]);
            offset = offset + 1;
        }
        sampled.push(UserDataset { values: user_values });
        user_id = user_id + 1;
    }
    sampled
}

/// The values of each dataset.
pub open spec fn dataset_views(r: Seq<UserDataset>) -> Seq<Seq<u64>> {
    r.map_values(|d: UserDataset| d.values@)
}

/// The positions `0..n` in order.
pub open spec fn index_range(n: nat) -> Seq<usize> {
    Seq::new(n, |q: int| q as usize)
}

/// The `dataset_size` values user `u` draws from `values` when the
/// positions are walked in `order`, wrapping around.
pub open spec fn drawn_values(values: Seq<u64>, order: Seq<usize>, dataset_size: usize, u: int) -> Seq<u64> {
    Seq::new(
        dataset_size as nat,
        |o: int| values[order[(u * dataset_size + o) % (order.len() as int)] as int],
    )
}

/// The datasets (their values) that `seed` samples from `values`: empty
/// when there is nothing to draw, else the values drawn along the positions
/// shuffled by `seed`.
pub open spec fn seeded_sample(values: Seq<u64>, num_users: usize, dataset_size: usize, seed: u64) -> Seq<
    Seq<u64>,
> {
    if values.len() == 0 || dataset_size == 0 {
        Seq::new(num_users as nat, |u: int| Seq::<u64>::empty())
    } else {
        let order = seeded_shuffle(index_range(values.len()), seed);
        Seq::new(num_users as nat, |u: int| drawn_values(values, order, dataset_size, u))
    }
}

/// A seeded sample is drawn along the shuffle of the positions made with
/// that very seed: value `o` of user `u` is the pool value at position
/// `shuffle[(u * dataset_size + o) % shuffle.len()]`, where `shuffle` is the
/// order `SliceRandom::shuffle` gives `0..n` under
/// `StdRng::seed_from_u64(seed)`; with nothing to draw every dataset is
/// empty.
pub proof fn lemma_seeded_sample_uses_its_seed(values: Seq<u64>, num_users: usize, dataset_size: usize, seed: u64)
    ensures
        seeded_sample(values, num_users, dataset_size, seed).len() == num_users,
        (values.len() == 0 || dataset_size == 0) ==> forall|u: int|
            0 <= u < num_users ==> (#[trigger] seeded_sample(values, num_users, dataset_size, seed)[u]).len() == 0,
        (values.len() > 0 && dataset_size > 0) ==> forall|u: int, o: int|
            0 <= u < num_users && 0 <= o < dataset_size ==> #[trigger] seeded_sample(
                values,
                num_users,
                dataset_size,
                seed,
            )[u][o] == values[seeded_shuffle(Seq::new(values.len(), |q: int| q as usize), seed)[(u
                * dataset_size + o) % (seeded_shuffle(Seq::new(values.len(), |q: int| q as usize), seed).len()
                as int)] as int],
{
    let positions = Seq::new(values.len(), |q: int| q as usize);
    assert(positions =~= index_range(values.len()));
}

/// `r` holds `num_users` datasets drawn from `values`: empty when there is
/// nothing to draw, else user `u` holds the values at the positions
/// `order[(u * dataset_size + o) % n]` for some order of the `n` positions.
pub open spec fn is_sample(r: Seq<UserDataset>, values: Seq<u64>, num_users: usize, dataset_size: usize) -> bool {
    &&& r.len() == num_users
    &&& (values.len() == 0 || dataset_size == 0) ==> forall|u: int|
        0 <= u < num_users ==> (#[trigger] r[u]).values@.len() == 0
    &&& (values.len() > 0 && dataset_size > 0) ==> exists|order: Seq<usize>|
        {
            &&& order.len() == values.len()
            &&& is_index_order(order)
            &&& forall|u: int|
                0 <= u < num_users ==> (#[trigger] r[u]).values@.len() == dataset_size && forall|o: int|
                    0 <= o < dataset_size ==> r[u].values@[o] == values[order[(u * dataset_size + o) % (
                    order.len() as int)] as int]
        }
}

/// Every value of a sample is one of the values it was drawn from.
pub proof fn lemma_sample_values_drawn(r: Seq<UserDataset>, values: Seq<u64>, num_users: usize, dataset_size: usize)
    requires
        is_sample(r, values, num_users, dataset_size),
    ensures
        forall|u: int, i: int|
            0 <= u < r.len() && 0 <= i < r[u].values@.len() ==> values.contains(#[trigger] r[u].values@[i]),
        forall|u: int| 0 <= u < r.len() ==> (#[trigger] r[u]).values@.len() <= dataset_size,
{
    if values.len() > 0 && dataset_size > 0 {
        let order = choose|order: Seq<usize>|
            {
                &&& order.len() == values.len()
                &&& is_index_order(order)
                &&& forall|u: int|
                    0 <= u < num_users ==> (#[trigger] r[u]).values@.len() == dataset_size && forall|o: int|
                        0 <= o < dataset_size ==> r[u].values@[o] == values[order[(u * dataset_size + o) % (
                        order.len() as int)] as int]
            };
        assert forall|u: int, i: int| 0 <= u < r.len() && 0 <= i < r[u].values@.len() implies values.contains(
            #[trigger] r[u].values@[i],
        ) by {
            let k = (u * dataset_size + i) % (order.len() as int);
            assert(0 <= k < order.len()) by {
                vstd::arithmetic::div_mod::lemma_mod_bound(u * dataset_size + i, order.len() as int);
            }
            assert(r[u].values@[i] == values[order[k] as int]);
        }
    }
}

/// When no more values are asked for than the pool holds, sampling draws
/// without replacement: value `o` of user `u` is the pool value at position
/// `positions[u * dataset_size + o]`, and no position occurs twice.
pub proof fn lemma_sample_without_replacement(
    r: Seq<UserDataset>,
    values: Seq<u64>,
    num_users: usize,
    dataset_size: usize,
)
    requires
        is_sample(r, values, num_users, dataset_size),
        values.len() > 0,
        dataset_size > 0,
        num_users * dataset_size <= values.len(),
    ensures
        exists|positions: Seq<usize>|
            {
                &&& positions.len() == num_users * dataset_size
                &&& positions.no_duplicates()
                &&& forall|k: int| 0 <= k < positions.len() ==> (#[trigger] positions[k]) < values.len()
                &&& forall|u: int, o: int|
                    0 <= u < num_users && 0 <= o < dataset_size ==> #[trigger] r[u].values@[o]
                        == values[positions[u * dataset_size + o] as int]
            },
{
    let order = choose|order: Seq<usize>|
        {
            &&& order.len() == values.len()
            &&& is_index_order(order)
            &&& forall|u: int|
                0 <= u < num_users ==> (#[trigger] r[u]).values@.len() == dataset_size && forall|o: int|
                    0 <= o < dataset_size ==> r[u].values@[o] == values[order[(u * dataset_size + o) % (
                    order.len() as int)] as int]
        };
    let total = num_users * dataset_size;
    let positions = order.take(total as int);
    assert forall|u: int, o: int|
        0 <= u < num_users && 0 <= o < dataset_size implies #[trigger] r[u].values@[o]
            == values[positions[u * dataset_size + o] as int] by {
        let k = u * dataset_size + o;
        assert(0 <= k < total) by (nonlinear_arith)
            requires
                0 <= u < num_users,
                0 <= o < dataset_size,
                k == u * dataset_size + o,
                total == num_users * dataset_size,
        ;
        vstd::arithmetic::div_mod::lemma_small_mod(k as nat, order.len());
        assert(r[u].values@[o] == values[order[k] as int]);
    }
    assert(positions.no_duplicates()) by {
        assert forall|i: int, j: int| 0 <= i < positions.len() && 0 <= j < positions.len() && i != j implies positions[i]
            != positions[j] by {
            assert(positions[i] == order[i] && positions[j] == order[j]);
        }
    }
}

/// Samples `num_users` datasets of `dataset_size` values each from `values`,
/// walking the positions of `values` in an order shuffled from `seed` and
/// wrapping around when more values are asked for than there are.
pub fn sample_user_datasets(values: &[u64], num_users: usize, dataset_size: usize, seed: u64) -> (r:
    Vec<UserDataset>)
    requires
        values@.len() == 0 || num_users * dataset_size <= usize::MAX,
    ensures
        dataset_views(r@) == seeded_sample(values@, num_users, dataset_size, seed),
        is_sample(r@, values@, num_users, dataset_size),
        num_users > 0 && values@.len() > 0 && dataset_size > 0 ==> {
            &&& seeded_shuffle(Seq::new(values@.len(), |q: int| q as usize), seed).len() == values@.len()
            &&& forall|u: int, o: int|
                0 <= u < num_users && 0 <= o < dataset_size ==> #[trigger] r@[u].values@[o]
                    == values@[seeded_shuffle(Seq::new(values@.len(), |q: int| q as usize), seed)[(u
                    * dataset_size + o) % (values@.len() as int)] as int]
        },
{
    let n = values.len();
    if num_users == 0 {
        let r: Vec<UserDataset> = Vec::new();
        proof {
            let order = Seq::new(values@.len(), |q: int| q as usize);
            assert(is_index_order(order));
            assert(order.len() == values@.len());
        }
        return r;
    }
    if values.len() == 0 || dataset_size == 0 {
        let mut empty: Vec<UserDataset> = Vec::with_capacity(num_users);
        let mut u: usize = 0;
        while u < num_users
            invariant
                u <= num_users,
                empty@.len() == u,
                forall|q: int| 0 <= q < u ==> (#[trigger] empty@[q]).values@.len() == 0,
            decreases num_users - u,
        {
            empty.push(UserDataset { values: Vec::new() });
            u = u + 1;
        }
        proof {
            let want = seeded_sample(values@, num_users, dataset_size, seed);
            assert forall|q: int| 0 <= q < num_users implies dataset_views(empty@)[q] == want[q] by {
                assert(dataset_views(empty@)[q] =~= Seq::<u64>::empty());
            }
            assert(dataset_views(empty@) =~= want);
        }
        return empty;
    }
    let mut indices: Vec<usize> = Vec::with_capacity(n);
    let mut k: usize = 0;
    while k < n
        invariant
            k <= n,
            indices@ == Seq::new(k as nat, |q: int| q as usize),
        decreases n - k,
    {
        indices.push(k);
        k = k + 1;
    }
    let ghost before = indices@;
    assert(before =~= index_range(n as nat));
    assert(before =~= Seq::new(values@.len(), |q: int| q as usize));
    shuffle_seeded(&mut indices, seed);
    proof {
        broadcast use vstd::seq_lib::group_to_multiset_ensures;
        assert(before.no_duplicates());
        before.lemma_multiset_has_no_duplicates();
        indices@.lemma_multiset_has_no_duplicates_conv();
        assert(indices@.len() == indices@.to_multiset().len());
        assert(before.len() == before.to_multiset().len());
        assert forall|q: int| 0 <= q < indices@.len() implies (#[trigger] indices@[q]) < n by {
            assert(indices@.to_multiset().count(indices@[q]) > 0);
            assert(before.contains(indices@[q]));
        }
    }
    let r = sample_with_order(values, &indices, num_users, dataset_size);
    assert(is_index_order(indices@) && indices@.len() == values@.len());
    proof {
        let want = seeded_sample(values@, num_users, dataset_size, seed);
        assert forall|u: int| 0 <= u < num_users implies dataset_views(r@)[u] == want[u] by {
            assert(dataset_views(r@)[u] =~= drawn_values(values@, indices@, dataset_size, u));
        }
        assert(dataset_views(r@) =~= want);
    }
    r
}

/// The value at `x` of the polynomial with coefficients `p`, lowest degree
/// first (Horner's rule).
pub open spec fn poly_eval(p: Seq<int>, x: int) -> int
    decreases p.len(),
{
    if p.len() == 0 {
        0
    } else {
        p[0] + x * poly_eval(p.skip(1), x)
    }
}

proof fn lemma_eval_add(a: Seq<int>, b: Seq<int>, x: int)
    requires
        a.len() == b.len(),
    ensures
        poly_eval(Seq::new(a.len(), |k: int| a[k] + b[k]), x) == poly_eval(a, x) + poly_eval(b, x),
    decreases a.len(),
{
    let s = Seq::new(a.len(), |k: int| a[k] + b[k]);
    if a.len() > 0 {
        let a1 = a.skip(1);
        let b1 = b.skip(1);
        lemma_eval_add(a1, b1, x);
        assert(s.skip(1) =~= Seq::new(a1.len(), |k: int| a1[k] + b1[k]));
        assert(x * (poly_eval(a1, x) + poly_eval(b1, x)) == x * poly_eval(a1, x) + x * poly_eval(b1, x))
            by (nonlinear_arith);
    }
}

proof fn lemma_eval_scale(a: Seq<int>, c: int, x: int)
    ensures
        poly_eval(Seq::new(a.len(), |k: int| a[k] * c), x) == poly_eval(a, x) * c,
    decreases a.len(),
{
    let s = Seq::new(a.len(), |k: int| a[k] * c);
    if a.len() > 0 {
        let a1 = a.skip(1);
        lemma_eval_scale(a1, c, x);
        assert(s.skip(1) =~= Seq::new(a1.len(), |k: int| a1[k] * c));
        let e = poly_eval(a1, x);
        assert(a[0] * c + x * (e * c) == (a[0] + x * e) * c) by (nonlinear_arith);
    }
}

proof fn lemma_eval_push_zero(a: Seq<int>, x: int)
    ensures
        poly_eval(a.push(0), x) == poly_eval(a, x),
    decreases a.len(),
{
    if a.len() == 0 {
        assert(a.push(0).skip(1) =~= Seq::<int>::empty());
        reveal_with_fuel(poly_eval, 2);
    } else {
        lemma_eval_push_zero(a.skip(1), x);
        assert(a.push(0).skip(1) =~= a.skip(1).push(0));
    }
}

/// One term of a coefficient of the product by a linear factor `c + x`.
proof fn lemma_conv_linear(a: Seq<int>, c: int, k: int, n: int)
    requires
        0 <= n <= a.len(),
    ensures
        conv_partial(a, seq![c, 1], k, n) == (if 0 <= k < n {
            a[k] * c
        } else {
            0
        }) + (if 0 <= k - 1 < n {
            a[k - 1]
        } else {
            0
        }),
    decreases n,
{
    let b = seq![c, 1int];
    assert(b.len() == 2 && b[0] == c && b[1] == 1);
    if n > 0 {
        lemma_conv_linear(a, c, k, n - 1);
        assert(conv_partial(a, b, k, n) == conv_partial(a, b, k, n - 1) + if 0 <= k - (n - 1) < 2 {
            a[n - 1] * b[k - (n - 1)]
        } else {
            0
        });
        if k - (n - 1) == 1 {
            assert(a[n - 1] * b[1] == a[n - 1]);
        }
    }
}

/// Multiplying by the linear factor `c + x` multiplies the value by `c + x`.
pub proof fn lemma_eval_linear_product(a: Seq<int>, c: int, x: int)
    requires
        a.len() > 0,
    ensures
        poly_eval(poly_product(a, seq![c, 1]), x) == poly_eval(a, x) * (c + x),
{
    let n = a.len() as int;
    let q = poly_product(a, seq![c, 1]);
    let scaled = Seq::new(a.len(), |k: int| a[k] * c).push(0);
    let shifted = seq![0int] + a;
    assert forall|k: int| 0 <= k < n + 1 implies q[k] == scaled[k] + shifted[k] by {
        lemma_conv_linear(a, c, k, n);
    }
    assert(q =~= Seq::new(scaled.len(), |k: int| scaled[k] + shifted[k]));
    lemma_eval_add(scaled, shifted, x);
    lemma_eval_push_zero(Seq::new(a.len(), |k: int| a[k] * c), x);
    lemma_eval_scale(a, c, x);
    assert(shifted.skip(1) =~= a);
    let e = poly_eval(a, x);
    assert(e * c + x * e == e * (c + x)) by (nonlinear_arith);
}

/// The root polynomial vanishes at every value (taken as an `i64`).
pub proof fn lemma_root_polynomial_vanishes(values: Seq<u64>, j: int)
    requires
        0 <= j < values.len(),
    ensures
        poly_eval(root_polynomial(values), (values[j] as i64) as int) == 0,
    decreases values.len(),
{
    let init = values.drop_last();
    let x = (values[j] as i64) as int;
    lemma_root_polynomial_len(init);
    lemma_eval_linear_product(root_polynomial(init), root_term(values.last()), x);
    let e = poly_eval(root_polynomial(init), x);
    if j == values.len() - 1 {
        assert(root_term(values.last()) + x == 0);
    } else {
        assert(init[j] == values[j]);
        lemma_root_polynomial_vanishes(init, j);
    }
    assert(e * (root_term(values.last()) + x) == 0) by (nonlinear_arith)
        requires
            e == 0 || root_term(values.last()) + x == 0,
    ;
}

/// The root polynomial is monic: its leading coefficient is 1.
pub proof fn lemma_root_polynomial_monic(values: Seq<u64>)
    ensures
        root_polynomial(values)[values.len() as int] == 1,
    decreases values.len(),
{
    if values.len() > 0 {
        let init = values.drop_last();
        lemma_root_polynomial_len(init);
        lemma_root_polynomial_monic(init);
        lemma_conv_linear(root_polynomial(init), root_term(values.last()), values.len() as int, (init.len() + 1) as int);
    }
}

} // verus!
