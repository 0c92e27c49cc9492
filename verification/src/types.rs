//! Shared protocol types and the index permutation.

use crate::bignum::BigNum;
use vstd::prelude::*;

verus! {

broadcast use vstd::string::to_string_from_display_ensures_for_str;

/// Protocol parameters: the three security lengths of the two-party
/// scheme, the population shape and the upper bound of the value domain.
#[derive(Debug, Clone, Copy, PartialEq, Eq)]
pub struct SmdsParams {
    pub k0: usize,
    pub k1: usize,
    pub k2: usize,
    pub num_users: usize,
    pub dataset_size: usize,
    pub domain_upper_bound: u64,
}

impl SmdsParams {
    /// The baseline parameters used for the Bangalore price data.
    pub fn baseline_bangalore(num_users: usize, dataset_size: usize) -> (p: Self)
        ensures
            p.k0 == 2048,
            p.k1 == 40,
            p.k2 == 160,
            p.num_users == num_users,
            p.dataset_size == dataset_size,
            p.domain_upper_bound == 3600,
    {
        SmdsParams { k0: 2_048, k1: 40, k2: 160, num_users, dataset_size, domain_upper_bound: 3_600 }
    }
}

/// The values held by one user.
#[derive(Debug, Clone, PartialEq, Eq)]
pub struct UserDataset {
    pub values: Vec<u64>,
}

/// A list of values together with its distinct values (in order of first
/// occurrence) and, for each original position, the index of its value among
/// the distinct values.
#[derive(Debug, Clone, PartialEq, Eq)]
pub struct CanonicalizedDataset {
    pub original_values: Vec<u64>,
    pub dedup_values: Vec<u64>,
    pub original_to_dedup_index: Vec<usize>,
}

/// The ranks a user recovers, in the order of the user's values.
#[derive(Debug, Clone, PartialEq, Eq)]
pub struct UserRecoveredResult {
    pub user_id: usize,
    pub ranks_in_original_order: Vec<u64>,
}

/// The per-user state of the offline phase.
#[derive(Debug, Clone, PartialEq, Eq)]
pub struct UserState {
    pub user_id: usize,
    pub sample_seed: u64,
    pub original_values: Vec<u64>,
    pub canonical_values: Vec<u64>,
    pub mask_r_prime: Vec<u64>,
    pub pi1: Permutation,
    pub pi2: Permutation,
}

/// A user's request: its values, the values masked by the user's mask and
/// the two permutations.
#[derive(Debug, Clone, PartialEq, Eq)]
pub struct PbeRequest {
    pub user_id: usize,
    pub original_values: Vec<u64>,
    pub masked_values: Vec<u64>,
    pub pi1: Permutation,
    pub pi2: Permutation,
}

/// The coefficients of a polynomial, lowest degree first.
#[derive(Debug, Clone, PartialEq, Eq)]
pub struct PolynomialCoefficients {
    pub coeffs: Vec<BigNum>,
}

/// The output of the offline phase: the parameters, the deduplicated
/// global reference, the per-user states and the polynomial whose roots are
/// the distinct values.
#[derive(Debug, Clone, PartialEq, Eq)]
pub struct OfflineBootstrapOutput {
    pub params: SmdsParams,
    pub global_reference: CanonicalizedDataset,
    pub user_states: Vec<UserState>,
    pub root_polynomial: PolynomialCoefficients,
}

/// A response to a request: the encoded values.
#[derive(Debug, Clone, PartialEq, Eq)]
pub struct PbeResponse {
    pub user_id: usize,
    pub encoded_values: Vec<BigNum>,
}

/// The encrypted ranks of one user.
#[derive(Debug, Clone, PartialEq, Eq)]
pub struct UserEncryptedResponse {
    pub user_id: usize,
    pub ciphertexts: Vec<BigNum>,
}

/// What the server computes in the clear: all values in ascending order and
/// the dense ranks of every user's values.
#[derive(Debug, Clone, PartialEq, Eq)]
pub struct ServerStageState {
    pub sorted_values: Vec<u64>,
    pub dedup_ranks: Vec<Vec<u64>>,
}

/// The benchmark scenarios.
#[derive(Debug, Clone, Copy, PartialEq, Eq)]
pub enum ScenarioKind {
    SingleUser,
    MultiUserDisjoint,
    MultiUserOverlap,
    DuplicateHeavy,
    BangaloreBaseline,
}

/// What a benchmark was asked to run.
#[derive(Debug, Clone, PartialEq, Eq)]
pub struct BenchmarkConfig {
    pub scenario: ScenarioKind,
    pub seed: u64,
    pub repetitions: usize,
    pub num_users: usize,
    pub dataset_size: usize,
    pub csv_path: String,
}

/// The mean duration of one stage, in milliseconds.
#[derive(Debug, Clone, PartialEq, Eq)]
pub struct StageDurationSummary {
    pub stage: String,
    pub millis: u128,
}

/// Shape and range of a family of datasets.
#[derive(Debug, Clone, PartialEq, Eq)]
pub struct DatasetSummary {
    pub total_values: usize,
    pub per_user_lengths: Vec<usize>,
    pub unique_values: usize,
    pub min_value: u64,
    pub max_value: u64,
}

/// The outcome of a benchmark: the reference ranks, the ranks the protocol
/// recovered, the stage timings and whether the two rankings agree.
#[derive(Debug, Clone, PartialEq, Eq)]
pub struct BenchmarkReport {
    pub config: BenchmarkConfig,
    pub dataset_summary: DatasetSummary,
    pub reference_ranks: Vec<Vec<u64>>,
    pub protocol_ranks: Vec<Vec<u64>>,
    pub stage_durations: Vec<StageDurationSummary>,
    pub correctness: bool,
}

/// `forward` maps `0..n` one to one onto `0..n`.
pub open spec fn is_bijection(forward: Seq<usize>) -> bool {
    &&& forall|i: int| 0 <= i < forward.len() ==> (#[trigger] forward[i]) < forward.len()
    &&& forall|i: int, j: int|
        0 <= i < forward.len() && 0 <= j < forward.len() && i != j ==> forward[i] != forward[j]
}

/// `inverse` undoes `forward` on both sides.
pub open spec fn is_inverse_of(inverse: Seq<usize>, forward: Seq<usize>) -> bool {
    &&& inverse.len() == forward.len()
    &&& forall|i: int| 0 <= i < forward.len() ==> inverse[#[trigger] forward[i] as int] == i
    &&& forall|j: int|
        0 <= j < inverse.len() ==> (#[trigger] inverse[j]) < forward.len() && forward[inverse[j] as int]
            == j
}

/// Position `i` of `forward` is where a candidate permutation is first seen
/// to fail: its value is out of range or repeats an earlier value.
pub open spec fn is_defect(forward: Seq<usize>, i: int) -> bool {
    ||| forward[i] >= forward.len()
    ||| exists|k: int| 0 <= k < i && forward[k] == forward[i]
}

/// The decimal digit `d` (below 10) as a character.
pub open spec fn digit_char(d: nat) -> char {
    if d == 0 {
        '0'
    } else if d == 1 {
        '1'
    } else if d == 2 {
        '2'
    } else if d == 3 {
        '3'
    } else if d == 4 {
        '4'
    } else if d == 5 {
        '5'
    } else if d == 6 {
        '6'
    } else if d == 7 {
        '7'
    } else if d == 8 {
        '8'
    } else {
        '9'
    }
}

/// The decimal text of `n`, without leading zeros.
pub open spec fn decimal(n: nat) -> Seq<char>
    decreases n,
{
    if n < 10 {
        seq![digit_char(n)]
    } else {
        decimal(n / 10).push(digit_char(n % 10))
    }
}

/// The text of the error for a value out of range.
pub open spec fn range_error_text(value: usize, size: usize) -> Seq<char> {
    "permutation value "@ + decimal(value as nat) + " out of range for size "@ + decimal(size as nat)
}

/// The digit `d` as a one-character string.
fn digit_str(d: usize) -> (s: &'static str)
    requires
        d < 10,
    ensures
        s@ == seq![digit_char(d as nat)],
{
    proof {
        reveal_strlit("0");
        reveal_strlit("1");
        reveal_strlit("2");
        reveal_strlit("3");
        reveal_strlit("4");
        reveal_strlit("5");
        reveal_strlit("6");
        reveal_strlit("7");
        reveal_strlit("8");
        reveal_strlit("9");
    }
    if d == 0 {
        "0"
    } else if d == 1 {
        "1"
    } else if d == 2 {
        "2"
    } else if d == 3 {
        "3"
    } else if d == 4 {
        "4"
    } else if d == 5 {
        "5"
    } else if d == 6 {
        "6"
    } else if d == 7 {
        "7"
    } else if d == 8 {
        "8"
    } else {
        "9"
    }
}

/// The decimal text of `n`.
fn decimal_text(n: usize) -> (s: String)
    ensures
        s@ == decimal(n as nat),
    decreases n,
{
    if n < 10 {
        digit_str(n).to_string()
    } else {
        let head = decimal_text(n / 10);
        let r = head.concat(digit_str(n % 10));
        assert(r@ =~= decimal(n as nat));
        r
    }
}

/// The message for a permutation value out of range.
fn range_error_message(value: usize, size: usize) -> (msg: String)
    ensures
        msg@ == range_error_text(value, size),
{
    let v = decimal_text(value);
    let n = decimal_text(size);
    let msg = "permutation value ".to_string().concat(v.as_str()).concat(" out of range for size ").concat(
        n.as_str(),
    );
    assert(msg@ =~= range_error_text(value, size));
    msg
}

/// A permutation of `0..n` with its inverse.
#[derive(Debug, Clone, PartialEq, Eq)]
pub struct Permutation {
    pub forward: Vec<usize>,
    pub inverse: Vec<usize>,
}

impl Permutation {
    /// `forward` is a bijection on `0..n` and `inverse` is its inverse.
    pub open spec fn valid(&self) -> bool {
        is_bijection(self.forward@) && is_inverse_of(self.inverse@, self.forward@)
    }

    /// The identity permutation on `0..size`.
    pub fn identity(size: usize) -> (p: Self)
        ensures
            p.valid(),
            p.forward@ == Seq::new(size as nat, |i: int| i as usize),
            p.inverse@ == Seq::new(size as nat, |i: int| i as usize),
    {
        let mut forward: Vec<usize> = Vec::with_capacity(size);
        let mut k: usize = 0;
        while k < size
            invariant
                k <= size,
                forward@ == Seq::new(k as nat, |i: int| i as usize),
            decreases size - k,
        {
            forward.push(k);
            k = k + 1;
        }
        let inverse = forward.clone();
        assert(inverse@ =~= forward@);
        Permutation { forward, inverse }
    }

    /// Checks that `forward` is a bijection on `0..forward.len()` and builds
    /// its inverse. The first position whose value is out of range or
    /// repeats an earlier value decides the error.
    pub fn new(forward: Vec<usize>) -> (r: Result<Self, String>)
        ensures
            r is Ok <==> is_bijection(forward@),
            r matches Ok(p) ==> p.valid() && p.forward@ == forward@,
            r matches Err(msg) ==> exists|i: int|
                #![trigger is_defect(forward@, i)]
                {
                    &&& 0 <= i < forward@.len()
                    &&& is_defect(forward@, i)
                    &&& forall|k: int| 0 <= k < i ==> !is_defect(forward@, k)
                    &&& msg@ == if forward@[i] >= forward@.len() {
                        range_error_text(forward@[i], forward@.len() as usize)
                    } else {
                        "duplicate value in permutation"@
                    }
                },
    {
        let size = forward.len();
        let mut inverse: Vec<usize> = vec![usize::MAX; size];
        let mut i: usize = 0;
        while i < size
            invariant
                size == forward.len(),
                inverse.len() == size,
                0 <= i <= size,
                forall|k: int| 0 <= k < i ==> !is_defect(forward@, k),
                forall|k: int| 0 <= k < i ==> (#[trigger] forward@[k]) < size,
                forall|k: int| 0 <= k < i ==> inverse@[#[trigger] forward@[k] as int] == k,
                forall|v: int|
                    0 <= v < size ==> (inverse@[v] != usize::MAX <==> exists|k: int|
                        0 <= k < i && forward@[k] == v),
                forall|v: int|
                    0 <= v < size && inverse@[v] != usize::MAX ==> inverse@[v] < i && forward@[inverse@[v] as int]
                        == v,
            decreases size - i,
        {
            let value = forward[i];
            if value >= size {
                let msg = range_error_message(value, size);
                assert(is_defect(forward@, i as int));
                return Err(msg);
            }
            if inverse[value] != usize::MAX {
                proof {
                    let k = inverse@[value as int] as int;
                    assert(forward@[k] == value);
                    assert(is_defect(forward@, i as int));
                    reveal_strlit("duplicate value in permutation");
                }
                return Err("duplicate value in permutation".to_string());
            }
            proof {
                assert forall|k: int| 0 <= k < i implies forward@[k] != value by {
                    if forward@[k] == value {
                        assert(inverse@[value as int] == k);
                    }
                }
            }
            let ghost old_inverse = inverse@;
            inverse.set(value, i);
            proof {
                assert forall|k: int| 0 <= k < i + 1 implies inverse@[#[trigger] forward@[k] as int] == k by {
                    if k < i {
                        assert(forward@[k] != value);
                        assert(old_inverse[forward@[k] as int] == k);
                    }
                }
                assert(!is_defect(forward@, i as int));
                assert forall|v: int|
                    0 <= v < size implies (inverse@[v] != usize::MAX <==> exists|k: int|
                        0 <= k < i + 1 && forward@[k] == v) by {
                    if v == value {
                        assert(forward@[i as int] == v);
                    }
                }
            }
            i = i + 1;
        }
        proof {
            assert forall|k: int| 0 <= k < size implies (#[trigger] forward@[k]) < size by {
                assert(!is_defect(forward@, k));
            }
            lemma_injective_in_range_is_onto(forward@);
            assert forall|v: int| 0 <= v < size implies inverse@[v] != usize::MAX by {
                assert(forward@.contains(v as usize));
                let k = choose|k: int| 0 <= k < size && forward@[k] == v as usize;
                assert(forward@[k] == v);
            }
            assert forall|a: int, b: int|
                0 <= a < size && 0 <= b < size && a != b implies forward@[a] != forward@[b] by {
                if a < b {
                    assert(!is_defect(forward@, b));
                } else {
                    assert(!is_defect(forward@, a));
                }
            }
        }
        let mut j: usize = 0;
        while j < size
            invariant
                size == inverse.len(),
                forall|v: int| 0 <= v < size ==> inverse@[v] != usize::MAX,
            decreases size - j,
        {
            if inverse[j] == usize::MAX {
                return Err("permutation is not a bijection".to_string());
            }
            j = j + 1;
        }
        Ok(Permutation { forward, inverse })
    }

    /// Maps each index through the permutation.
    pub fn apply_indices(&self, indices: &[usize]) -> (r: Vec<usize>)
        requires
            forall|i: int| 0 <= i < indices@.len() ==> (#[trigger] indices@[i]) < self.forward@.len(),
        ensures
            r@ == indices@.map_values(|idx: usize| self.forward@[idx as int]),
    {
        let mut r: Vec<usize> = Vec::with_capacity(indices.len());
        let mut i: usize = 0;
        while i < indices.len()
            invariant
                i <= indices@.len(),
                forall|k: int| 0 <= k < indices@.len() ==> (#[trigger] indices@[k]) < self.forward@.len(),
                r@ == indices@.take(i as int).map_values(|idx: usize| self.forward@[idx as int]),
            decreases indices@.len() - i,
        {
            r.push(self.forward[indices[i]]);
            assert(indices@.take(i as int + 1) =~= indices@.take(i as int).push(indices@[i as int]));
            i = i + 1;
        }
        assert(indices@.take(i as int) =~= indices@);
        r
    }

    /// Maps each index through the inverse permutation.
    pub fn invert_indices(&self, indices: &[usize]) -> (r: Vec<usize>)
        requires
            forall|i: int| 0 <= i < indices@.len() ==> (#[trigger] indices@[i]) < self.inverse@.len(),
        ensures
            r@ == indices@.map_values(|idx: usize| self.inverse@[idx as int]),
    {
        let mut r: Vec<usize> = Vec::with_capacity(indices.len());
        let mut i: usize = 0;
        while i < indices.len()
            invariant
                i <= indices@.len(),
                forall|k: int| 0 <= k < indices@.len() ==> (#[trigger] indices@[k]) < self.inverse@.len(),
                r@ == indices@.take(i as int).map_values(|idx: usize| self.inverse@[idx as int]),
            decreases indices@.len() - i,
        {
            r.push(self.inverse[indices[i]]);
            assert(indices@.take(i as int + 1) =~= indices@.take(i as int).push(indices@[i as int]));
            i = i + 1;
        }
        assert(indices@.take(i as int) =~= indices@);
        r
    }
}

/// A sequence of `n` distinct values below `n` takes every value below `n`.
pub proof fn lemma_injective_in_range_is_onto(s: Seq<usize>)
    requires
        forall|i: int| 0 <= i < s.len() ==> (#[trigger] s[i]) < s.len(),
        forall|i: int, j: int| 0 <= i < j < s.len() ==> s[i] != s[j],
    ensures
        forall|v: usize| v < s.len() ==> #[trigger] s.contains(v),
{
    let n = s.len() as int;
    let ints = s.map_values(|x: usize| x as int);
    assert(ints.no_duplicates()) by {
        assert forall|i: int, j: int| 0 <= i < ints.len() && 0 <= j < ints.len() && i != j implies ints[i]
            != ints[j] by {
            if i < j {
                assert(s[i] != s[j]);
            } else {
                assert(s[j] != s[i]);
            }
        }
    }
    ints.unique_seq_to_set();
    vstd::set_lib::lemma_int_range(0, n);
    let range = vstd::set_lib::set_int_range(0, n);
    assert(ints.to_set().subset_of(range)) by {
        assert forall|v: int| ints.to_set().contains(v) implies range.contains(v) by {
            let k = choose|k: int| 0 <= k < ints.len() && ints[k] == v;
            assert(s[k] < n);
        }
    }
    vstd::set_lib::lemma_len_subset(ints.to_set(), range);
    vstd::set_lib::lemma_subset_equality(ints.to_set(), range);
    assert forall|v: usize| v < n implies #[trigger] s.contains(v) by {
        assert(range.contains(v as int));
        assert(ints.to_set().contains(v as int));
        let k = choose|k: int| 0 <= k < ints.len() && ints[k] == v as int;
        assert(s[k] == v);
    }
}

/// A bijection has one inverse: two inverses of the same sequence are equal.
pub proof fn lemma_inverse_unique(inv1: Seq<usize>, inv2: Seq<usize>, forward: Seq<usize>)
    requires
        is_inverse_of(inv1, forward),
        is_inverse_of(inv2, forward),
    ensures
        inv1 == inv2,
{
    assert forall|j: int| 0 <= j < inv1.len() implies inv1[j] == inv2[j] by {
        let k = inv1[j] as int;
        assert(forward[k] == j);
        assert(inv2[forward[k] as int] == k);
    }
    assert(inv1 =~= inv2);
}

/// Mapping indices through a permutation and then through its inverse gives
/// the indices back.
pub proof fn lemma_invert_undoes_apply(p: Permutation, indices: Seq<usize>)
    requires
        p.valid(),
        forall|i: int| 0 <= i < indices.len() ==> (#[trigger] indices[i]) < p.forward@.len(),
    ensures
        indices.map_values(|idx: usize| p.forward@[idx as int]).map_values(
            |idx: usize| p.inverse@[idx as int],
        ) == indices,
{
    let applied = indices.map_values(|idx: usize| p.forward@[idx as int]);
    let back = applied.map_values(|idx: usize| p.inverse@[idx as int]);
    assert forall|i: int| 0 <= i < indices.len() implies back[i] == indices[i] by {
        assert(p.inverse@[p.forward@[indices[i] as int] as int] == indices[i]);
    }
    assert(back =~= indices);
}

/// Mapping indices through the inverse of a permutation and then through the
/// permutation gives the indices back.
pub proof fn lemma_apply_undoes_invert(p: Permutation, indices: Seq<usize>)
    requires
        p.valid(),
        forall|i: int| 0 <= i < indices.len() ==> (#[trigger] indices[i]) < p.inverse@.len(),
    ensures
        indices.map_values(|idx: usize| p.inverse@[idx as int]).map_values(
            |idx: usize| p.forward@[idx as int],
        ) == indices,
{
    let inverted = indices.map_values(|idx: usize| p.inverse@[idx as int]);
    let back = inverted.map_values(|idx: usize| p.forward@[idx as int]);
    assert forall|i: int| 0 <= i < indices.len() implies back[i] == indices[i] by {
        assert(p.forward@[p.inverse@[indices[i] as int] as int] == indices[i]);
    }
    assert(back =~= indices);
}

} // verus!
